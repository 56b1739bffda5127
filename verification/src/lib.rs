//! Decoding of `multipart/form-data` request bodies and of structured header
//! values such as `Content-Disposition`.
//!
//! [`parse_content_header`] cuts a header value into its primary value and
//! its `key=value` options. [`parse_multipart_form_data`] cuts a body at its
//! boundary into parts and gives each named part as a [`Field`]: a file, a
//! JSON value or a text. Both are permissive: what is malformed is skipped
//! or comes out empty.
//!
//! Every function is verified against a contract over sequences and maps.
//! The calls into other crates stand in [`trusted`], each with the contract
//! that is assumed of it.

pub mod bytes;
pub mod content_header;
pub mod multipart;
pub mod strmap;
pub mod text;
pub mod trusted;

pub use content_header::parse_content_header;
pub use multipart::{
    parse_multipart_form_data, try_parse_multipart_form_data, Field, JsonField, MultipartError,
    StringField, UploadFile,
};
pub use strmap::StrMap;
