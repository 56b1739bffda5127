//! A map from text keys to values that remembers the order in which its
//! keys first came in. No key occurs twice; inserting under a key that is
//! already there replaces the value and keeps the key's place.

use crate::text::same_text;
use vstd::prelude::*;

verus! {

/// The map that holds `values[i]` under `keys[i]`, a later entry winning
/// over an earlier one with the same key.
pub open spec fn entries_map<W>(keys: Seq<Seq<char>>, values: Seq<W>) -> Map<Seq<char>, W>
    decreases keys.len(),
{
    if keys.len() == 0 || keys.len() != values.len() {
        Map::empty()
    } else {
        entries_map(keys.drop_last(), values.drop_last()).insert(keys.last(), values.last())
    }
}

/// The keys of [`entries_map`] are the keys given.
pub proof fn lemma_entries_map_dom<W>(keys: Seq<Seq<char>>, values: Seq<W>)
    requires
        keys.len() == values.len(),
    ensures
        forall|k: Seq<char>|
            entries_map(keys, values).contains_key(k) <==> #[trigger] keys.contains(k),
        entries_map(keys, values).dom().finite(),
    decreases keys.len(),
{
    if keys.len() > 0 {
        lemma_entries_map_dom(keys.drop_last(), values.drop_last());
        assert forall|k: Seq<char>| entries_map(keys, values).contains_key(k) <==> keys.contains(
            k,
        ) by {
            if keys.contains(k) {
                let i = choose|i: int| 0 <= i < keys.len() && keys[i] == k;
                if i < keys.len() - 1 {
                    assert(keys.drop_last()[i] == k);
                }
            }
            if keys.drop_last().contains(k) {
                let i = choose|i: int| 0 <= i < keys.drop_last().len() && keys.drop_last()[i] == k;
                assert(keys[i] == k);
            }
        }
    }
}

/// Where no key occurs twice, each key holds the value at its own index.
pub proof fn lemma_entries_map_value<W>(keys: Seq<Seq<char>>, values: Seq<W>, i: int)
    requires
        keys.len() == values.len(),
        keys.no_duplicates(),
        0 <= i < keys.len(),
    ensures
        entries_map(keys, values).contains_key(keys[i]),
        entries_map(keys, values)[keys[i]] == values[i],
    decreases keys.len(),
{
    if i < keys.len() - 1 {
        assert(keys.drop_last()[i] == keys[i]);
        assert(keys.drop_last().no_duplicates());
        lemma_entries_map_value(keys.drop_last(), values.drop_last(), i);
    }
}

/// Where no key occurs twice, there are as many entries as keys.
pub proof fn lemma_entries_map_len<W>(keys: Seq<Seq<char>>, values: Seq<W>)
    requires
        keys.len() == values.len(),
        keys.no_duplicates(),
    ensures
        entries_map(keys, values).len() == keys.len(),
    decreases keys.len(),
{
    lemma_entries_map_dom(keys, values);
    if keys.len() > 0 {
        assert(keys.drop_last().no_duplicates());
        lemma_entries_map_len(keys.drop_last(), values.drop_last());
        lemma_entries_map_dom(keys.drop_last(), values.drop_last());
        if keys.drop_last().contains(keys.last()) {
            let i = choose|i: int|
                0 <= i < keys.drop_last().len() && keys.drop_last()[i] == keys.last();
            assert(keys[i] == keys[keys.len() - 1]);
        }
    }
}

/// Where no key occurs twice, replacing the value at index `i` is inserting
/// it under the key at index `i`.
pub proof fn lemma_entries_map_update<W>(keys: Seq<Seq<char>>, values: Seq<W>, i: int, value: W)
    requires
        keys.len() == values.len(),
        keys.no_duplicates(),
        0 <= i < keys.len(),
    ensures
        entries_map(keys, values.update(i, value)) == entries_map(keys, values).insert(
            keys[i],
            value,
        ),
{
    let before = entries_map(keys, values);
    let after = entries_map(keys, values.update(i, value));
    lemma_entries_map_dom(keys, values);
    lemma_entries_map_dom(keys, values.update(i, value));
    assert forall|k: Seq<char>| #[trigger] after.contains_key(k) implies after[k] == before.insert(
        keys[i],
        value,
    )[k] by {
        assert(keys.contains(k));
        let j = choose|j: int| 0 <= j < keys.len() && keys[j] == k;
        lemma_entries_map_value(keys, values, j);
        lemma_entries_map_value(keys, values.update(i, value), j);
    }
    lemma_entries_map_value(keys, values, i);
    assert forall|k: Seq<char>| after.contains_key(k) <==> before.insert(
        keys[i],
        value,
    ).contains_key(k) by {
        assert(after.contains_key(k) <==> keys.contains(k));
        assert(before.contains_key(k) <==> keys.contains(k));
    }
    assert(after =~= before.insert(keys[i], value));
}

/// A map from text keys to values, in the order in which the keys came in.
#[derive(Debug)]
pub struct StrMap<V> {
    entries: Vec<(String, V)>,
}

impl<V: View> View for StrMap<V> {
    type V = Map<Seq<char>, V::V>;

    closed spec fn view(&self) -> Self::V {
        entries_map(self.spec_keys(), self.spec_values())
    }
}

impl<V> StrMap<V> {
    #[verifier::type_invariant]
    spec fn well_formed(self) -> bool {
        self.spec_keys().no_duplicates()
    }

    /// The keys, in the order in which they came in.
    pub closed spec fn spec_keys(self) -> Seq<Seq<char>> {
        self.entries@.map_values(|e: (String, V)| e.0@)
    }
}

/// The index of `key` among the keys of `entries`.
fn position<V>(entries: &Vec<(String, V)>, key: &str) -> (found: Option<usize>)
    ensures
        match found {
            Some(i) => i < entries@.len() && entries@[i as int].0@ == key@,
            None => forall|j: int| 0 <= j < entries@.len() ==> (#[trigger] entries@[j]).0@ != key@,
        },
{
    let mut i: usize = 0;
    while i < entries.len()
        invariant
            i <= entries.len(),
            forall|j: int| 0 <= j < i ==> (#[trigger] entries@[j]).0@ != key@,
        decreases entries.len() - i,
    {
        if same_text(entries[i].0.as_str(), key) {
            return Some(i);
        }
        i += 1;
    }
    None
}

impl<V: View> StrMap<V> {
    /// The values, each at the index of its key.
    pub closed spec fn spec_values(self) -> Seq<V::V> {
        self.entries@.map_values(|e: (String, V)| e.1@)
    }

    /// The empty map.
    pub fn new() -> (map: Self)
        ensures
            map@ == Map::<Seq<char>, V::V>::empty(),
    {
        StrMap { entries: Vec::new() }
    }

    /// The number of entries.
    pub fn len(&self) -> (n: usize)
        ensures
            n == self@.len(),
    {
        proof {
            use_type_invariant(self);
            lemma_entries_map_len(self.spec_keys(), self.spec_values());
        }
        self.entries.len()
    }

    /// Whether the map has no entry.
    pub fn is_empty(&self) -> (empty: bool)
        ensures
            empty == (self@.len() == 0),
    {
        self.len() == 0
    }

    /// Whether the map has an entry under `key`.
    pub fn contains_key(&self, key: &str) -> (present: bool)
        ensures
            present == self@.contains_key(key@),
    {
        self.get(key).is_some()
    }

    /// The value under `key`.
    pub fn get(&self, key: &str) -> (value: Option<&V>)
        ensures
            match value {
                Some(v) => self@.contains_key(key@) && self@[key@] == v@,
                None => !self@.contains_key(key@),
            },
    {
        proof {
            use_type_invariant(self);
            lemma_entries_map_dom(self.spec_keys(), self.spec_values());
        }
        match position(&self.entries, key) {
            Some(i) => {
                proof {
                    lemma_entries_map_value(self.spec_keys(), self.spec_values(), i as int);
                }
                Some(&self.entries[i].1)
            },
            None => {
                assert(!self.spec_keys().contains(key@));
                None
            },
        }
    }

    /// Puts `value` under `key`, in the place of the value that was there
    /// if there was one.
    pub fn insert(&mut self, key: String, value: V)
        ensures
            final(self)@ == old(self)@.insert(key@, value@),
    {
        proof {
            use_type_invariant(&*self);
        }
        let ghost keys = self.spec_keys();
        let ghost values = self.spec_values();
        let mut entries: Vec<(String, V)> = Vec::new();
        assert(entries@.map_values(|e: (String, V)| e.0@) =~= Seq::<Seq<char>>::empty());
        core::mem::swap(&mut self.entries, &mut entries);
        assert(entries@.map_values(|e: (String, V)| e.0@) == keys);
        assert(entries@.map_values(|e: (String, V)| e.1@) == values);
        match position(&entries, key.as_str()) {
            Some(i) => {
                entries.set(i, (key, value));
                proof {
                    assert(entries@.map_values(|e: (String, V)| e.0@) =~= keys);
                    assert(entries@.map_values(|e: (String, V)| e.1@) =~= values.update(
                        i as int,
                        value@,
                    ));
                    lemma_entries_map_update(keys, values, i as int, value@);
                }
            },
            None => {
                entries.push((key, value));
                proof {
                    assert(entries@.map_values(|e: (String, V)| e.0@) =~= keys.push(key@));
                    assert(entries@.map_values(|e: (String, V)| e.1@) =~= values.push(value@));
                    assert(keys.push(key@).drop_last() =~= keys);
                    assert(values.push(value@).drop_last() =~= values);
                }
            },
        }
        core::mem::swap(&mut self.entries, &mut entries);
    }

    /// The entries in the order in which their keys came in: each key of
    /// the map once, with its value.
    pub fn entries(&self) -> (entries: &Vec<(String, V)>)
        ensures
            entries@.len() == self@.len(),
            forall|i: int|
                0 <= i < entries@.len() ==> self@.contains_key((#[trigger] entries@[i]).0@)
                    && self@[entries@[i].0@] == entries@[i].1@,
            forall|i: int, j: int|
                0 <= i < j < entries@.len() ==> (#[trigger] entries@[i]).0@ != (
                #[trigger] entries@[j]).0@,
    {
        proof {
            use_type_invariant(self);
            lemma_entries_map_len(self.spec_keys(), self.spec_values());
            assert forall|i: int| 0 <= i < self.entries@.len() implies self@.contains_key(
                (#[trigger] self.entries@[i]).0@,
            ) && self@[self.entries@[i].0@] == self.entries@[i].1@ by {
                lemma_entries_map_value(self.spec_keys(), self.spec_values(), i);
            }
            assert forall|i: int, j: int| 0 <= i < j < self.entries@.len() implies (
            #[trigger] self.entries@[i]).0@ != (#[trigger] self.entries@[j]).0@ by {
                assert(self.spec_keys()[i] != self.spec_keys()[j]);
            }
        }
        &self.entries
    }

    /// The entries by value, as [`StrMap::entries`] gives them.
    pub fn into_entries(self) -> (entries: Vec<(String, V)>)
        ensures
            entries@.len() == self@.len(),
            forall|i: int|
                0 <= i < entries@.len() ==> self@.contains_key((#[trigger] entries@[i]).0@)
                    && self@[entries@[i].0@] == entries@[i].1@,
            forall|i: int, j: int|
                0 <= i < j < entries@.len() ==> (#[trigger] entries@[i]).0@ != (
                #[trigger] entries@[j]).0@,
    {
        proof {
            use_type_invariant(&self);
            lemma_entries_map_len(self.spec_keys(), self.spec_values());
            assert forall|i: int| 0 <= i < self.entries@.len() implies self@.contains_key(
                (#[trigger] self.entries@[i]).0@,
            ) && self@[self.entries@[i].0@] == self.entries@[i].1@ by {
                lemma_entries_map_value(self.spec_keys(), self.spec_values(), i);
            }
            assert forall|i: int, j: int| 0 <= i < j < self.entries@.len() implies (
            #[trigger] self.entries@[i]).0@ != (#[trigger] self.entries@[j]).0@ by {
                assert(self.spec_keys()[i] != self.spec_keys()[j]);
            }
        }
        self.entries
    }
}

} // verus!
