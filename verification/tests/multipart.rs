use fast_multipart_parser::multipart::{
    parse_multipart_form_data, try_parse_multipart_form_data, Field, MultipartError,
};

fn comp_as_string(val: Vec<u8>) -> String {
    String::from_utf8(val).unwrap()
}

#[test]
fn test_parse_postman_multipart() {
    let body = b"----------------------------850116600781883365617864\r\nContent-Disposition: form-data; name=\"attributes\"; filename=\"test-attribute_5.tsv\"\r\nContent-Type: text/tab-separated-values\r\n\r\n\"Campaign ID\"\t\"Plate Set ID\"\t\"No\"\n\r\n----------------------------850116600781883365617864\r\nContent-Disposition: form-data; name=\"fasta\"; filename=\"test-sequence_correct_5.fasta\"\r\nContent-Type: application/octet-stream\r\n\r\n>P23G01_IgG1-1411:H:Q10C3:1/1:NID18\r\nCAGGTATTGAA\r\n\r\n----------------------------850116600781883365617864--\r\n";
    let boundary = b"----------------------------850116600781883365617864";
    let result = parse_multipart_form_data(body, boundary, b"utf-8");

    let attributes = match result.get("attributes").unwrap() {
        Field::File(field) => field,
        _ => panic!("value should be an UploadFile"),
    };
    assert_eq!(attributes.content_type, "text/tab-separated-values");
    assert_eq!(attributes.filename, "test-attribute_5.tsv");
    assert_eq!(
        comp_as_string(attributes.content.clone()),
        "\"Campaign ID\"\t\"Plate Set ID\"\t\"No\"\n"
    );

    let fasta = match result.get("fasta").unwrap() {
        Field::File(field) => field,
        _ => panic!("value should be an UploadFile"),
    };
    assert_eq!(fasta.content_type, "application/octet-stream");
    assert_eq!(fasta.filename, "test-sequence_correct_5.fasta");
    assert_eq!(
        comp_as_string(fasta.content.clone()),
        ">P23G01_IgG1-1411:H:Q10C3:1/1:NID18\r\nCAGGTATTGAA\r\n"
    );
}

#[test]
fn test_parse_encoded_value() {
    let body = b"--20b303e711c4ab8c443184ac833ab00f\r\nContent-Disposition: form-data; name=\"value\"\r\n\r\nTransf\xc3\xa9rer\r\n--20b303e711c4ab8c443184ac833ab00f--\r\n";
    let boundary = b"20b303e711c4ab8c443184ac833ab00f";
    let result = parse_multipart_form_data(body, boundary, b"utf-8");

    let attributes = match result.get("value").unwrap() {
        Field::String(field) => field,
        _ => panic!("value should be a String"),
    };
    assert_eq!(attributes.content, "Transférer");
}

#[test]
fn test_parse_asian_characters() {
    let body = b"--a7f7ac8d4e2e437c877bb7b8d7cc549c\r\nContent-Disposition: form-data; name=\"file\"; filename=\"\xe7\x94\xbb\xe5\x83\x8f.jpg\"\r\nContent-Type: image/jpeg\r\n\r\n<file content>\r\n--a7f7ac8d4e2e437c877bb7b8d7cc549c--\r\n";
    let boundary = b"a7f7ac8d4e2e437c877bb7b8d7cc549c";
    let result = parse_multipart_form_data(body, boundary, b"utf-8");

    let file = match result.get("file").unwrap() {
        Field::File(field) => field,
        _ => panic!("value should be an UploadFile"),
    };

    assert_eq!(file.content_type, "image/jpeg");
    assert_eq!(file.filename, "画像.jpg");
    assert_eq!(comp_as_string(file.content.clone()), "<file content>");
}

#[test]
fn test_parse_filename_with_extended_value() {
    let body = b"--a7f7ac8d4e2e437c877bb7b8d7cc549c\r\nContent-Disposition: form-data; name='file'; filename*=UTF-8''Na%C3%AFve%20file.jpg\r\nContent-Type: image/jpeg\r\n\r\n<file content>\r\n--a7f7ac8d4e2e437c877bb7b8d7cc549c--\r\n";
    let boundary = b"a7f7ac8d4e2e437c877bb7b8d7cc549c";
    let result = parse_multipart_form_data(body, boundary, b"utf-8");

    let file = match result.get("file").unwrap() {
        Field::File(field) => field,
        _ => panic!("value should be an UploadFile"),
    };

    assert_eq!(file.content_type, "image/jpeg");
    assert_eq!(file.filename, "Naïve file.jpg");
    assert_eq!(comp_as_string(file.content.clone()), "<file content>");
}

#[test]
fn test_parse_filename_with_extended_value_with_language_tag() {
    let body = b"--a7f7ac8d4e2e437c877bb7b8d7cc549c\r\nContent-Disposition: form-data; name='file'; filename*=UTF-8'en'Na%C3%AFve%20file.jpg\r\nContent-Type: image/jpeg\r\n\r\n<file content>\r\n--a7f7ac8d4e2e437c877bb7b8d7cc549c--\r\n";
    let boundary = b"a7f7ac8d4e2e437c877bb7b8d7cc549c";
    let result = parse_multipart_form_data(body, boundary, b"utf-8");

    let file = match result.get("file").unwrap() {
        Field::File(field) => field,
        _ => panic!("value should be an UploadFile"),
    };

    assert_eq!(file.content_type, "image/jpeg");
    assert_eq!(file.filename, "Naïve file.jpg");
    assert_eq!(comp_as_string(file.content.clone()), "<file content>");
}

#[test]
fn test_mixed_files_and_form_data() {
    let body = b"--a7f7ac8d4e2e437c877bb7b8d7cc549c\r\nContent-Disposition: form-data; name=\"field0\"\r\n\r\nvalue0\r\n--a7f7ac8d4e2e437c877bb7b8d7cc549c\r\nContent-Disposition: form-data; name=\"file\"; filename=\"file.txt\"\r\nContent-Type: text/plain\r\n\r\n<file content>\r\n--a7f7ac8d4e2e437c877bb7b8d7cc549c\r\nContent-Disposition: form-data; name=\"field1\"\r\n\r\nvalue1\r\n--a7f7ac8d4e2e437c877bb7b8d7cc549c--\r\n";
    let boundary = b"a7f7ac8d4e2e437c877bb7b8d7cc549c";
    let result = parse_multipart_form_data(body, boundary, b"utf-8");

    let file = match result.get("file").unwrap() {
        Field::File(field) => field,
        _ => panic!("value should be an UploadFile"),
    };

    assert_eq!(file.content_type, "text/plain");
    assert_eq!(file.filename, "file.txt");
    assert_eq!(comp_as_string(file.content.clone()), "<file content>");

    let string_field_1 = match result.get("field0").unwrap() {
        Field::String(field) => field,
        _ => panic!("value should be an UploadFile"),
    };

    assert_eq!(string_field_1.content_type, "text/plain");
    assert_eq!(string_field_1.content, "value0");

    let string_field_2 = match result.get("field1").unwrap() {
        Field::String(field) => field,
        _ => panic!("value should be an UploadFile"),
    };

    assert_eq!(string_field_2.content_type, "text/plain");
    assert_eq!(string_field_2.content, "value1");
}

#[test]
fn three_parts_give_three_entries() {
    let body = b"--XX\r\nContent-Disposition: form-data; name=\"field0\"\r\n\r\nvalue0\r\n--XX\r\nContent-Disposition: form-data; name=\"file\"; filename=\"file.txt\"\r\ncontent-type: text/plain\r\n\r\n\x00\xff\xfe binary\r\n\r\n--XX\r\nContent-Disposition: form-data; name=\"field1\"\r\n\r\nvalue1\r\n--XX--\r\n";
    let result = try_parse_multipart_form_data(body, b"XX", b"utf-8").unwrap();
    assert_eq!(result.len(), 3);
    let names: Vec<&str> = result.entries().iter().map(|e| e.0.as_str()).collect();
    assert_eq!(names, vec!["field0", "file", "field1"]);
    match result.get("file").unwrap() {
        Field::File(file) => {
            assert_eq!(file.filename, "file.txt");
            assert_eq!(file.content_type, "text/plain");
            assert_eq!(file.content, b"\x00\xff\xfe binary\r\n".to_vec());
            assert_eq!(file.headers.len(), 2);
            assert_eq!(
                file.headers.get("Content-Disposition"),
                Some(&String::from("form-data"))
            );
            assert_eq!(file.headers.get("content-type"), Some(&String::from("text/plain")));
            assert_eq!(file.headers.get("Content-Type"), None);
        }
        _ => panic!("file expected"),
    }
}

#[test]
fn later_part_of_the_same_name_wins() {
    let body = b"--XX\r\nContent-Disposition: form-data; name=\"x\"\r\n\r\nfirst\r\n--XX\r\nContent-Disposition: form-data; name=\"y\"\r\n\r\nother\r\n--XX\r\nContent-Disposition: form-data; name=\"x\"; filename=\"f\"\r\n\r\nsecond\r\n--XX--\r\n";
    let result = parse_multipart_form_data(body, b"XX", b"utf-8");
    assert_eq!(result.len(), 2);
    match result.get("x").unwrap() {
        Field::File(file) => {
            assert_eq!(file.filename, "f");
            assert_eq!(file.content, b"second".to_vec());
        }
        _ => panic!("the later part is a file"),
    }
    match result.get("y").unwrap() {
        Field::String(text) => assert_eq!(text.content, "other"),
        _ => panic!("text expected"),
    }
}

#[test]
fn json_payload_is_a_json_field() {
    let body = b"--XX\r\nContent-Disposition: form-data; name=\"j\"\r\nContent-Type: application/json\r\n\r\n{\"a\":1,\"b\":[true,null,\"s\"]}\r\n--XX\r\nContent-Disposition: form-data; name=\"n\"\r\n\r\n42\r\n--XX\r\nContent-Disposition: form-data; name=\"t\"\r\n\r\n{\"a\":\r\n--XX--\r\n";
    let result = parse_multipart_form_data(body, b"XX", b"utf-8");
    assert_eq!(result.len(), 3);
    match result.get("j").unwrap() {
        Field::Json(json) => {
            assert_eq!(json.content_type, "application/json");
            let mut object = serde_json::Map::new();
            object.insert("a".to_string(), serde_json::Value::from(1));
            object.insert(
                "b".to_string(),
                serde_json::Value::Array(vec![
                    serde_json::Value::Bool(true),
                    serde_json::Value::Null,
                    serde_json::Value::String("s".to_string()),
                ]),
            );
            assert_eq!(json.content, serde_json::Value::Object(object));
        }
        _ => panic!("JSON expected"),
    }
    match result.get("n").unwrap() {
        Field::Json(json) => {
            assert_eq!(json.content, serde_json::Value::from(42));
            assert_eq!(json.content_type, "text/plain");
        }
        _ => panic!("JSON expected"),
    }
    match result.get("t").unwrap() {
        Field::String(text) => assert_eq!(text.content, "{\"a\":"),
        _ => panic!("text expected"),
    }
}

#[test]
fn json_payload_with_filename_is_a_file() {
    let body = b"--XX\r\nContent-Disposition: form-data; name=\"j\"; filename=\"j.json\"\r\n\r\n{\"a\":1}\r\n--XX--\r\n";
    let result = parse_multipart_form_data(body, b"XX", b"utf-8");
    match result.get("j").unwrap() {
        Field::File(file) => assert_eq!(file.content, b"{\"a\":1}".to_vec()),
        _ => panic!("file expected"),
    }
}

#[test]
fn malformed_chunks_are_skipped() {
    // no blank line; no name; no headers at all; header block that is not UTF-8
    let body = b"--XX\r\nContent-Disposition: form-data; name=\"a\"\r\nno blank line\r\n--XX\r\nContent-Disposition: form-data; filename=\"f\"\r\n\r\nno name\r\n--XX\r\n\r\nno headers\r\n--XX\r\nContent-Disposition: form-data; name=\"\xff\"\r\n\r\nbad\r\n--XX\r\nContent-Disposition: form-data; name=\"ok\"\r\n\r\nfine\r\n--XX--\r\n";
    let result = parse_multipart_form_data(body, b"XX", b"utf-8");
    assert_eq!(result.len(), 1);
    match result.get("ok").unwrap() {
        Field::String(text) => assert_eq!(text.content, "fine"),
        _ => panic!("text expected"),
    }
}

#[test]
fn empty_body_and_body_without_boundary() {
    assert!(parse_multipart_form_data(b"", b"XX", b"utf-8").is_empty());
    assert!(parse_multipart_form_data(b"just text", b"XX", b"utf-8").is_empty());
    let whole = b"Content-Disposition: form-data; name=\"a\"\r\n\r\nv";
    let result = parse_multipart_form_data(whole, b"XX", b"utf-8");
    assert_eq!(result.len(), 1);
    match result.get("a").unwrap() {
        Field::String(text) => assert_eq!(text.content, "v"),
        _ => panic!("text expected"),
    }
}

#[test]
fn only_one_trailing_line_break_is_stripped() {
    let body = b"--XX\r\nContent-Disposition: form-data; name=\"a\"; filename=\"f\"\r\n\r\nline\r\n\r\n--XX\r\nContent-Disposition: form-data; name=\"b\"; filename=\"f\"\r\n\r\nline\n\r\n--XX\r\nContent-Disposition: form-data; name=\"c\"; filename=\"f\"\r\n\r\n\r\n--XX\r\nContent-Disposition: form-data; name=\"d\"; filename=\"f\"\r\n\r\nx\r\n\r\ny\r\n--XX--";
    let result = parse_multipart_form_data(body, b"XX", b"utf-8");
    let content = |name: &str| match result.get(name).unwrap() {
        Field::File(file) => file.content.clone(),
        _ => panic!("file expected"),
    };
    // blank lines inside the payload stay; one line break goes at its end
    assert_eq!(content("a"), b"line\r\n".to_vec());
    assert_eq!(content("b"), b"line\n".to_vec());
    assert_eq!(content("c"), b"".to_vec());
    assert_eq!(content("d"), b"x\r\n\r\ny".to_vec());
}

#[test]
fn header_names_are_matched_without_case_and_kept_as_written() {
    let body = b"--XX\r\nCONTENT-disposition:form-data; name=\"a\"  \r\ncontent-TYPE:  text/x  \r\nX-Other: 1\r\nX-Other: 2\r\nContent-Type: text/y\r\n\r\nv\r\n--XX--\r\n";
    let result = parse_multipart_form_data(body, b"XX", b"utf-8");
    match result.get("a").unwrap() {
        Field::String(text) => {
            assert_eq!(text.content_type, "text/y");
            assert_eq!(text.content, "v");
            assert_eq!(text.headers.len(), 4);
            assert_eq!(text.headers.get("CONTENT-disposition"), Some(&String::from("form-data")));
            assert_eq!(text.headers.get("content-TYPE"), Some(&String::from("text/x")));
            assert_eq!(text.headers.get("Content-Type"), Some(&String::from("text/y")));
            assert_eq!(text.headers.get("X-Other"), Some(&String::from("2")));
        }
        _ => panic!("text expected"),
    }
}

#[test]
fn last_disposition_line_decides() {
    let body = b"--XX\r\nContent-Disposition: form-data; name=\"a\"; filename=\"f\"\r\nContent-Disposition: form-data; name=\"b\"\r\n\r\nv\r\n--XX\r\nContent-Disposition: form-data; name=\"c\"\r\nContent-Disposition: attachment; x=y\r\n\r\nv\r\n--XX--\r\n";
    let result = parse_multipart_form_data(body, b"XX", b"utf-8");
    assert_eq!(result.len(), 1);
    match result.get("b").unwrap() {
        Field::String(text) => assert_eq!(text.content, "v"),
        _ => panic!("text expected"),
    }
}

#[test]
fn extended_filename_forms() {
    let filename = |options: &str| {
        let body = format!(
            "--XX\r\nContent-Disposition: form-data; name=a; {}\r\n\r\nv\r\n--XX--\r\n",
            options
        );
        let result = parse_multipart_form_data(body.as_bytes(), b"XX", b"utf-8");
        match result.get("a").unwrap() {
            Field::File(file) => Some(file.filename.clone()),
            _ => None,
        }
    };
    assert_eq!(filename("filename*=UTF-8''Na%C3%AFve%20file.jpg"), Some("Naïve file.jpg".to_string()));
    assert_eq!(filename("filename*=UTF-8'en'Na%C3%AFve%20file.jpg"), Some("Naïve file.jpg".to_string()));
    assert_eq!(filename("filename*=utf-8'de-CH'Na%C3%AFve%20file.jpg"), Some("Naïve file.jpg".to_string()));
    // an empty or unknown charset is read as UTF-8
    assert_eq!(filename("filename*=\"''Na%C3%AFve\""), Some("Naïve".to_string()));
    // an apostrophe at the start of the value is taken off as a quote
    assert_eq!(filename("filename*=''Na%C3%AFve"), None);
    assert_eq!(filename("filename*=no-such-charset''Na%C3%AFve"), Some("Naïve".to_string()));
    // another charset
    assert_eq!(filename("filename*=iso-8859-1''Na%EFve%2E"), Some("Naïve.".to_string()));
    assert_eq!(filename("filename*=windows-1252''%80"), Some("€".to_string()));
    // a percent sign without two hexadecimal digits stays
    assert_eq!(filename("filename*=UTF-8''100%25%zz%4"), Some("100%%zz%4".to_string()));
    assert_eq!(filename("filename*=UTF-8''%41%6a%6A"), Some("Ajj".to_string()));
    // what follows the second apostrophe is the name, further apostrophes too
    assert_eq!(filename("filename*=UTF-8''it%27s'x"), Some("it's'x".to_string()));
    // malformed bytes are replaced
    assert_eq!(filename("filename*=UTF-8''a%FFb"), Some("a\u{fffd}b".to_string()));
    // fewer than two apostrophes: no filename, and `filename` is not used
    assert_eq!(filename("filename*=UTF-8'name; filename=plain"), None);
    assert_eq!(filename("filename*=name; filename=plain"), None);
    // `filename*` wins over `filename`
    assert_eq!(filename("filename=plain; filename*=UTF-8''ext"), Some("ext".to_string()));
    assert_eq!(filename("filename=plain.txt"), Some("plain.txt".to_string()));
    assert_eq!(filename("filename="), Some("".to_string()));
    assert_eq!(filename("other=1"), None);
}

#[test]
fn text_is_read_in_the_charset_asked_for() {
    let body = b"--XX\r\nContent-Disposition: form-data; name=\"a\"\r\n\r\nTransf\xe9rer\r\n--XX--\r\n";
    let content = |charset: &[u8]| {
        let result = parse_multipart_form_data(body, b"XX", charset);
        match result.get("a").unwrap() {
            Field::String(text) => text.content.clone(),
            _ => panic!("text expected"),
        }
    };
    assert_eq!(content(b"iso-8859-1"), "Transférer");
    assert_eq!(content(b" Latin1 "), "Transférer");
    assert_eq!(content(b"utf-8"), "Transf\u{fffd}rer");
    assert_eq!(content(b"no-such-charset"), "Transf\u{fffd}rer");
    assert_eq!(content(b""), "Transf\u{fffd}rer");
}

#[test]
fn file_content_is_not_decoded() {
    let mut body = b"--XX\r\nContent-Disposition: form-data; name=\"a\"; filename=\"f\"\r\n\r\n".to_vec();
    let payload: Vec<u8> = (0u8..=255).collect();
    body.extend_from_slice(&payload);
    body.extend_from_slice(b"\r\n--XX--\r\n");
    let result = parse_multipart_form_data(&body, b"XX", b"iso-8859-1");
    match result.get("a").unwrap() {
        Field::File(file) => assert_eq!(file.content, payload),
        _ => panic!("file expected"),
    }
}

#[test]
fn boundary_is_read_as_a_pattern() {
    let body = b"--aXb\r\nContent-Disposition: form-data; name=\"a\"\r\n\r\nv\r\n--aYb--\r\n";
    let result = parse_multipart_form_data(body, b"a.b", b"utf-8");
    assert_eq!(result.len(), 1);
    let result = parse_multipart_form_data(body, b"aXb", b"utf-8");
    match result.get("a").unwrap() {
        Field::String(text) => assert_eq!(text.content, "v\r\n--aYb--"),
        _ => panic!("text expected"),
    }
}

#[test]
fn unusable_boundaries_are_told_apart() {
    let body = b"--XX\r\nContent-Disposition: form-data; name=\"a\"\r\n\r\nv\r\n--XX--\r\n";
    assert_eq!(
        try_parse_multipart_form_data(body, b"\xff\xfe", b"utf-8").err(),
        Some(MultipartError::BoundaryNotText)
    );
    assert_eq!(
        try_parse_multipart_form_data(body, b"a(b", b"utf-8").err(),
        Some(MultipartError::BoundaryNotPattern)
    );
    assert_eq!(
        try_parse_multipart_form_data(body, b"a)b", b"utf-8").err(),
        Some(MultipartError::BoundaryNotPattern)
    );
    assert_eq!(
        try_parse_multipart_form_data(body, b"[", b"utf-8").err(),
        Some(MultipartError::BoundaryNotPattern)
    );
    let form = try_parse_multipart_form_data(body, b"XX", b"utf-8").unwrap();
    assert_eq!(form.len(), 1);
    assert!(form.contains_key("a"));
}

#[test]
fn blank_line_inside_a_file_stays() {
    let body = b"--BOUND\r\nContent-Disposition: form-data; name=\"f\"; filename=\"a.txt\"\r\n\r\na\r\n\r\nb\r\n--BOUND--\r\n";
    let result = parse_multipart_form_data(body, b"BOUND", b"utf-8");
    assert_eq!(result.len(), 1);
    match result.get("f").unwrap() {
        Field::File(file) => {
            assert_eq!(file.filename, "a.txt");
            assert_eq!(file.content, b"a\r\n\r\nb".to_vec());
        }
        _ => panic!("file expected"),
    }
    let mut body = b"--BOUND\r\nContent-Disposition: form-data; name=\"f\"; filename=\"a.bin\"\r\n\r\n".to_vec();
    let payload = b"\x00\r\n\r\n\xff\r\n\r\n\r\n\r\n\x01";
    body.extend_from_slice(payload);
    body.extend_from_slice(b"\r\n--BOUND--\r\n");
    let result = parse_multipart_form_data(&body, b"BOUND", b"utf-8");
    match result.get("f").unwrap() {
        Field::File(file) => assert_eq!(file.content, payload.to_vec()),
        _ => panic!("file expected"),
    }
}

#[test]
fn blank_line_inside_a_text_stays() {
    let body = b"--BOUND\r\nContent-Disposition: form-data; name=\"t\"\r\n\r\nfirst\r\n\r\nsecond\r\n--BOUND--\r\n";
    let result = parse_multipart_form_data(body, b"BOUND", b"utf-8");
    match result.get("t").unwrap() {
        Field::String(text) => assert_eq!(text.content, "first\r\n\r\nsecond"),
        _ => panic!("text expected"),
    }
}

#[test]
fn utf8_text_comes_back_exactly() {
    for text in ["Transf\u{e9}rer", "\u{4f60}\u{597d}", "a\u{1f600}b", "plain", "x\u{feff}y", " lead", "tab\tend "] {
        for charset in [&b"utf-8"[..], &b"UTF-8"[..], &b"utf8"[..], &b"no-such-charset"[..], &b""[..]] {
            let mut body = b"--XX\r\nContent-Disposition: form-data; name=\"a\"\r\n\r\n".to_vec();
            body.extend_from_slice(text.as_bytes());
            body.extend_from_slice(b"\r\n--XX--\r\n");
            let result = parse_multipart_form_data(&body, b"XX", charset);
            match result.get("a").unwrap() {
                Field::String(field) => assert_eq!(field.content, text),
                _ => panic!("text expected"),
            }
        }
    }
    // a byte order mark at the start does not come out
    let body = b"--XX\r\nContent-Disposition: form-data; name=\"a\"\r\n\r\n\xef\xbb\xbftext\r\n--XX--\r\n";
    let result = parse_multipart_form_data(body, b"XX", b"utf-8");
    match result.get("a").unwrap() {
        Field::String(field) => assert_eq!(field.content, "text"),
        _ => panic!("text expected"),
    }
}
