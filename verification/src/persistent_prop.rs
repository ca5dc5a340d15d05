//! Persistent properties: the contents of a persistent-property file.
use crate::bytes::{
    compare_bytes, lemma_bytes_round_trip, lemma_lex_transitive, text_bytes, KeyOrder,
};
use crate::name_order::{lemma_name_order, name_before, Named};
use crate::wire_format::{
    behind, decode_key, delimited_at, delimited_bytes, encode_bytes, encode_string, key_at,
    fields_end, lemma_delimited_read, lemma_nested_len, lemma_skipped_len, lemma_varint_len,
    merge_bytes, merge_string, nested_len, skip_field, skip_message, skipped_len, varint_bytes,
};
use vstd::prelude::*;
use vstd::slice::slice_subrange;
use vstd::utf8::{decode_utf8, valid_utf8};

verus! {

/// Where Android keeps persistent properties.
pub const ANDROID_PERSISTENT_PROP_DIR: &'static str = "/data/property";

/// The file in which Android keeps persistent properties.
pub const ANDROID_PERSISTENT_PROP_FILE: &'static str = "/data/property/persistent_properties";

/// Why an operation on persistent properties fails.
#[derive(Debug)]
pub enum PersistentPropError {
    /// The bytes are not a persistent-property file.
    Decode(prost::DecodeError),
}

pub type PersistentResult<T> = std::result::Result<T, PersistentPropError>;

/// A persistent property.
#[derive(Debug, Clone, PartialEq, Eq)]
pub struct PersistentProperty {
    pub name: String,
    pub value: String,
}

/// The name and the value of a property.
pub struct Pair {
    pub name: Seq<char>,
    pub value: Seq<char>,
}

impl View for PersistentProperty {
    type V = Pair;

    open spec fn view(&self) -> Pair {
        Pair { name: self.name@, value: self.value@ }
    }
}

impl Named for PersistentProperty {
    open spec fn key(&self) -> Seq<char> {
        self.name@
    }

    fn name(&self) -> (r: &str) {
        self.name.as_str()
    }
}

/// The properties of a persistent-property file, in order of their names.
#[derive(Debug, Clone, PartialEq, Eq)]
pub struct PersistentPropertyFile {
    properties: Vec<PersistentProperty>,
}

/// Every name comes before those that follow it.
pub open spec fn in_name_order(list: Seq<Pair>) -> bool {
    forall|i: int, j: int|
        0 <= i < j < list.len() ==> name_before(#[trigger] list[i].name, #[trigger] list[j].name)
}

/// Whether `list` holds a property called `name`.
pub open spec fn has_name(list: Seq<Pair>, name: Seq<char>) -> bool {
    exists|i: int| 0 <= i < list.len() && #[trigger] list[i].name == name
}

/// The properties of a list as a map.
pub open spec fn map_of(list: Seq<Pair>) -> Map<Seq<char>, Seq<char>> {
    Map::new(
        |k: Seq<char>| has_name(list, k),
        |k: Seq<char>| list[choose|i: int| 0 <= i < list.len() && #[trigger] list[i].name == k].value,
    )
}

impl View for PersistentPropertyFile {
    type V = Map<Seq<char>, Seq<char>>;

    open spec fn view(&self) -> Map<Seq<char>, Seq<char>> {
        map_of(self.listing())
    }
}

/// The value of a name in a list in order.
proof fn lemma_map_of(list: Seq<Pair>, i: int)
    requires
        in_name_order(list),
        0 <= i < list.len(),
    ensures
        map_of(list).dom().contains(list[i].name),
        map_of(list)[list[i].name] == list[i].value,
{
    let k = list[i].name;
    assert(has_name(list, k));
    let j = choose|j: int| 0 <= j < list.len() && #[trigger] list[j].name == k;
    lemma_name_order(list[i].name, list[j].name);
    lemma_name_order(list[j].name, list[i].name);
}

impl PersistentPropertyFile {
    /// The properties in order of their names.
    pub closed spec fn listing(&self) -> Seq<Pair> {
        self.properties@.map(|_i: int, p: PersistentProperty| p@)
    }

    /// What holds of every file: the names are in order.
    pub open spec fn valid(&self) -> bool {
        in_name_order(self.listing())
    }

    /// The index of `key`, or where it would have to be inserted.
    fn find_index(&self, key: &str) -> (r: std::result::Result<usize, usize>)
        requires
            self.valid(),
        ensures
            match r {
                Ok(i) => i < self.listing().len() && self.listing()[i as int].name == key@,
                Err(i) => {
                    &&& i <= self.listing().len()
                    &&& forall|j: int|
                        0 <= j < i ==> name_before(#[trigger] self.listing()[j].name, key@)
                    &&& forall|j: int|
                        i <= j < self.listing().len() ==> name_before(
                            key@,
                            #[trigger] self.listing()[j].name,
                        )
                },
            },
    {
        let ghost list = self.listing();
        let mut lo: usize = 0;
        let mut hi: usize = self.properties.len();
        while lo < hi
            invariant
                list == self.listing(),
                in_name_order(list),
                lo <= hi <= list.len(),
                list.len() == self.properties@.len(),
                forall|j: int| 0 <= j < lo ==> name_before(#[trigger] list[j].name, key@),
                forall|j: int| hi <= j < list.len() ==> name_before(key@, #[trigger] list[j].name),
            decreases hi - lo,
        {
            let mid = lo + (hi - lo) / 2;
            let order = compare_bytes(
                self.properties[mid].name.as_str().as_bytes(),
                key.as_bytes(),
            );
            let ghost m = list[mid as int].name;
            proof {
                assert(m == self.properties@[mid as int].name@);
                lemma_name_order(m, key@);
            }
            match order {
                KeyOrder::Equal => {
                    return Ok(mid);
                },
                KeyOrder::Less => {
                    proof {
                        assert forall|j: int| 0 <= j < mid + 1 implies name_before(
                            #[trigger] list[j].name,
                            key@,
                        ) by {
                            if lo <= j < mid {
                                assert(name_before(list[j].name, list[mid as int].name));
                                lemma_lex_transitive(
                                    text_bytes(list[j].name),
                                    text_bytes(m),
                                    text_bytes(key@),
                                );
                            }
                        }
                    }
                    lo = mid + 1;
                },
                KeyOrder::Greater => {
                    proof {
                        assert forall|j: int| mid <= j < list.len() implies name_before(
                            key@,
                            #[trigger] list[j].name,
                        ) by {
                            if mid < j {
                                assert(name_before(list[mid as int].name, list[j].name));
                                lemma_lex_transitive(
                                    text_bytes(key@),
                                    text_bytes(m),
                                    text_bytes(list[j].name),
                                );
                            }
                        }
                    }
                    hi = mid;
                },
            }
        }
        Err(lo)
    }

    /// The value of the property called `key`.
    pub fn get(&self, key: &str) -> (r: Option<&str>)
        requires
            self.valid(),
        ensures
            match r {
                Some(v) => self@.dom().contains(key@) && v@ == self@[key@],
                None => !self@.dom().contains(key@),
            },
    {
        match self.find_index(key) {
            Ok(i) => {
                proof {
                    lemma_map_of(self.listing(), i as int);
                }
                Some(self.properties[i].value.as_str())
            },
            Err(i) => {
                proof {
                    if has_name(self.listing(), key@) {
                        let j = choose|j: int|
                            0 <= j < self.listing().len() && #[trigger] self.listing()[j].name
                                == key@;
                        lemma_name_order(key@, key@);
                    }
                }
                None
            },
        }
    }

    /// Give the property called `key` a value.
    pub fn set(&mut self, key: &str, value: &str)
        requires
            old(self).valid(),
        ensures
            final(self).valid(),
            final(self)@ == old(self)@.insert(key@, value@),
    {
        let ghost before = self.listing();
        match self.find_index(key) {
            Ok(i) => {
                let name = self.properties[i].name.clone();
                let property = PersistentProperty { name, value: value.to_owned() };
                self.properties.set(i, property);
                proof {
                    let after = self.listing();
                    assert(after =~= before.update(i as int, Pair { name: key@, value: value@ }));
                    lemma_replaced(before, after, i as int, key@, value@);
                }
            },
            Err(i) => {
                let property = PersistentProperty { name: key.to_owned(), value: value.to_owned() };
                self.properties.insert(i, property);
                proof {
                    let after = self.listing();
                    assert(after =~= before.insert(i as int, Pair { name: key@, value: value@ }));
                    lemma_inserted(before, after, i as int, key@, value@);
                }
            },
        }
    }

    /// Delete the property called `key`; whether there was one.
    pub fn delete(&mut self, key: &str) -> (r: bool)
        requires
            old(self).valid(),
        ensures
            final(self).valid(),
            final(self)@ == old(self)@.remove(key@),
            r == old(self)@.dom().contains(key@),
    {
        let ghost before = self.listing();
        match self.find_index(key) {
            Ok(i) => {
                proof {
                    lemma_map_of(before, i as int);
                }
                self.properties.remove(i);
                proof {
                    let after = self.listing();
                    assert(after =~= before.remove(i as int));
                    lemma_removed(before, after, i as int);
                }
                true
            },
            Err(i) => {
                proof {
                    if has_name(before, key@) {
                        let j = choose|j: int|
                            0 <= j < before.len() && #[trigger] before[j].name == key@;
                        lemma_name_order(key@, key@);
                    }
                    assert(self@.remove(key@) =~= self@);
                }
                false
            },
        }
    }

    /// Whether there are no properties.
    pub fn is_empty(&self) -> (r: bool)
        ensures
            r == (self@ == Map::<Seq<char>, Seq<char>>::empty()),
            r == (self.listing().len() == 0),
    {
        let r = self.properties.len() == 0;
        proof {
            if r {
                assert(self@ =~= Map::<Seq<char>, Seq<char>>::empty());
            } else {
                assert(has_name(self.listing(), self.listing()[0].name));
                assert(self@.dom().contains(self.listing()[0].name));
            }
        }
        r
    }

    /// The properties in order of their names.
    pub fn iter(&self) -> (r: std::slice::Iter<'_, PersistentProperty>)
        ensures
            vstd::std_specs::slice::into_iter_elts(r).map(
                |_i: int, p: PersistentProperty| p@,
            ) == self.listing(),
    {
        self.properties.as_slice().iter()
    }
}

impl Default for PersistentPropertyFile {
    fn default() -> (r: Self)
        ensures
            r.valid(),
            r@ == Map::<Seq<char>, Seq<char>>::empty(),
            r.listing().len() == 0,
    {
        let r = PersistentPropertyFile { properties: Vec::new() };
        proof {
            assert(r@ =~= Map::<Seq<char>, Seq<char>>::empty());
        }
        r
    }
}

proof fn lemma_replaced(
    before: Seq<Pair>,
    after: Seq<Pair>,
    i: int,
    name: Seq<char>,
    value: Seq<char>,
)
    requires
        in_name_order(before),
        0 <= i < before.len(),
        before[i].name == name,
        after == before.update(i, Pair { name, value }),
    ensures
        in_name_order(after),
        map_of(after) == map_of(before).insert(name, value),
{
    assert forall|j: int| 0 <= j < after.len() implies #[trigger] after[j].name == before[j].name by {}
    assert(in_name_order(after));
    let m = map_of(before).insert(name, value);
    assert forall|k: Seq<char>| #[trigger] map_of(after).dom().contains(k) == m.dom().contains(k) by {
        if has_name(after, k) {
            let j = choose|j: int| 0 <= j < after.len() && #[trigger] after[j].name == k;
            assert(before[j].name == k);
        }
        if has_name(before, k) {
            let j = choose|j: int| 0 <= j < before.len() && #[trigger] before[j].name == k;
            assert(after[j].name == k);
        }
        assert(after[i].name == name);
    }
    assert forall|k: Seq<char>| #[trigger] map_of(after).dom().contains(k) implies map_of(after)[k]
        == m[k] by {
        let j = choose|j: int| 0 <= j < after.len() && #[trigger] after[j].name == k;
        lemma_map_of(after, j);
        lemma_map_of(before, j);
        if k == name {
            lemma_name_order(before[i].name, before[j].name);
            lemma_name_order(before[j].name, before[i].name);
            assert(i == j);
        }
    }
    assert(map_of(after) =~= m);
}

proof fn lemma_inserted(
    before: Seq<Pair>,
    after: Seq<Pair>,
    i: int,
    name: Seq<char>,
    value: Seq<char>,
)
    requires
        in_name_order(before),
        0 <= i <= before.len(),
        forall|j: int| 0 <= j < i ==> name_before(#[trigger] before[j].name, name),
        forall|j: int| i <= j < before.len() ==> name_before(name, #[trigger] before[j].name),
        after == before.insert(i, Pair { name, value }),
    ensures
        in_name_order(after),
        map_of(after) == map_of(before).insert(name, value),
{
    assert forall|j: int, l: int| 0 <= j < l < after.len() implies name_before(
        #[trigger] after[j].name,
        #[trigger] after[l].name,
    ) by {
        let j0 = if j < i {
            j
        } else {
            j - 1
        };
        let l0 = if l < i {
            l
        } else {
            l - 1
        };
        if j != i && l != i {
            assert(name_before(before[j0].name, before[l0].name));
        } else if j == i {
            assert(name_before(name, before[l0].name));
        } else {
            assert(name_before(before[j0].name, name));
        }
    }
    let m = map_of(before).insert(name, value);
    assert forall|k: Seq<char>| #[trigger] map_of(after).dom().contains(k) == m.dom().contains(k) by {
        if has_name(after, k) {
            let j = choose|j: int| 0 <= j < after.len() && #[trigger] after[j].name == k;
            if j < i {
                assert(before[j].name == k);
            } else if j > i {
                assert(before[j - 1].name == k);
            }
        }
        if has_name(before, k) {
            let j = choose|j: int| 0 <= j < before.len() && #[trigger] before[j].name == k;
            if j < i {
                assert(after[j].name == k);
            } else {
                assert(after[j + 1].name == k);
            }
        }
        assert(after[i].name == name);
    }
    assert forall|k: Seq<char>| #[trigger] map_of(after).dom().contains(k) implies map_of(after)[k]
        == m[k] by {
        let j = choose|j: int| 0 <= j < after.len() && #[trigger] after[j].name == k;
        lemma_map_of(after, j);
        if j < i {
            lemma_map_of(before, j);
            lemma_name_order(before[j].name, name);
        } else if j > i {
            lemma_map_of(before, j - 1);
            lemma_name_order(name, before[j - 1].name);
        }
    }
    assert(map_of(after) =~= m);
}

proof fn lemma_removed(before: Seq<Pair>, after: Seq<Pair>, i: int)
    requires
        in_name_order(before),
        0 <= i < before.len(),
        after == before.remove(i),
    ensures
        in_name_order(after),
        map_of(after) == map_of(before).remove(before[i].name),
{
    assert forall|j: int, l: int| 0 <= j < l < after.len() implies name_before(
        #[trigger] after[j].name,
        #[trigger] after[l].name,
    ) by {
        let j0 = if j < i {
            j
        } else {
            j + 1
        };
        let l0 = if l < i {
            l
        } else {
            l + 1
        };
        assert(name_before(before[j0].name, before[l0].name));
    }
    let m = map_of(before).remove(before[i].name);
    assert forall|k: Seq<char>| #[trigger] map_of(after).dom().contains(k) == m.dom().contains(k) by {
        if has_name(after, k) {
            let j = choose|j: int| 0 <= j < after.len() && #[trigger] after[j].name == k;
            let j0 = if j < i {
                j
            } else {
                j + 1
            };
            assert(before[j0].name == k);
            lemma_name_order(before[i].name, before[j0].name);
            lemma_name_order(before[j0].name, before[i].name);
        }
        if has_name(before, k) && k != before[i].name {
            let j = choose|j: int| 0 <= j < before.len() && #[trigger] before[j].name == k;
            if j < i {
                assert(after[j].name == k);
            } else {
                assert(after[j - 1].name == k);
            }
        }
    }
    assert forall|k: Seq<char>| #[trigger] map_of(after).dom().contains(k) implies map_of(after)[k]
        == m[k] by {
        let j = choose|j: int| 0 <= j < after.len() && #[trigger] after[j].name == k;
        lemma_map_of(after, j);
        if j < i {
            lemma_map_of(before, j);
        } else {
            lemma_map_of(before, j + 1);
        }
    }
    assert(map_of(after) =~= m);
}

// ---------------------------------------------------------------------------
// Files
// ---------------------------------------------------------------------------

/// The name and the value that a record holds so far.
pub struct Fields {
    pub name: Option<Seq<char>>,
    pub value: Option<Seq<char>>,
}

/// The text of the field of wire type `wire` at the front of `b`, and the bytes
/// that it takes.
pub open spec fn text_at(wire: int, b: Seq<u8>) -> Option<(Seq<char>, int)> {
    if wire != 2 {
        None
    } else {
        match delimited_at(b) {
            None => None,
            Some((t, n)) => if valid_utf8(t) {
                Some((decode_utf8(t), n))
            } else {
                None
            },
        }
    }
}

/// The name (field 1) and the value (field 2) of the record `b`; the last one
/// of each counts, and other fields are passed over.
pub open spec fn record_fields(b: Seq<u8>, f: Fields) -> Option<Fields>
    decreases b.len(),
{
    if b.len() == 0 {
        Some(f)
    } else {
        match key_at(b) {
            None => None,
            Some((tag, wire, n)) => {
                proof {
                    lemma_varint_len(b, 0);
                }
                let rest = behind(b, n);
                if tag == 1 {
                    match text_at(wire, rest) {
                        None => None,
                        Some((t, k)) => record_fields(
                            behind(rest, k),
                            Fields { name: Some(t), ..f },
                        ),
                    }
                } else if tag == 2 {
                    match text_at(wire, rest) {
                        None => None,
                        Some((t, k)) => record_fields(
                            behind(rest, k),
                            Fields { value: Some(t), ..f },
                        ),
                    }
                } else {
                    match nested_len(tag, wire, rest) {
                        None => None,
                        Some(k) => record_fields(behind(rest, k), f),
                    }
                }
            },
        }
    }
}

/// `m` with the property of a record; a record without a name or without a
/// value is none.
pub open spec fn with_fields(m: Map<Seq<char>, Seq<char>>, f: Fields) -> Map<
    Seq<char>,
    Seq<char>,
> {
    match (f.name, f.value) {
        (Some(k), Some(v)) => m.insert(k, v),
        _ => m,
    }
}

/// `m` with the properties of the file `b`: its records are fields 1, and other
/// fields are passed over.
pub open spec fn file_properties(b: Seq<u8>, m: Map<Seq<char>, Seq<char>>) -> Option<
    Map<Seq<char>, Seq<char>>,
>
    decreases b.len(),
{
    if b.len() == 0 {
        Some(m)
    } else {
        match key_at(b) {
            None => None,
            Some((tag, wire, n)) => {
                proof {
                    lemma_varint_len(b, 0);
                }
                let rest = behind(b, n);
                if tag == 1 {
                    if wire != 2 {
                        None
                    } else {
                        match delimited_at(rest) {
                            None => None,
                            Some((body, k)) => match record_fields(
                                body,
                                Fields { name: None, value: None },
                            ) {
                                None => None,
                                Some(f) => file_properties(behind(rest, k), with_fields(m, f)),
                            },
                        }
                    }
                } else {
                    match skipped_len(tag, wire, rest) {
                        None => None,
                        Some(k) => file_properties(behind(rest, k), m),
                    }
                }
            },
        }
    }
}

/// The bytes of a record.
pub open spec fn record_bytes(p: Pair) -> Seq<u8> {
    delimited_bytes(1, text_bytes(p.name)) + delimited_bytes(2, text_bytes(p.value))
}

/// The bytes of a file.
pub open spec fn file_bytes(list: Seq<Pair>) -> Seq<u8>
    decreases list.len(),
{
    if list.len() == 0 {
        Seq::empty()
    } else {
        file_bytes(list.drop_last()) + delimited_bytes(1, record_bytes(list.last()))
    }
}

spec fn text_of(s: Option<String>) -> Option<Seq<char>> {
    match s {
        None => None,
        Some(t) => Some(t@),
    }
}

/// What can be read as a record can be passed over as a message.
proof fn lemma_record_ends(b: Seq<u8>, f: Fields)
    ensures
        record_fields(b, f) is Some ==> fields_end(b),
    decreases b.len(),
{
    if b.len() > 0 {
        lemma_varint_len(b, 0);
        if let Some((tag, wire, n)) = key_at(b) {
            let rest = behind(b, n);
            lemma_nested_len(tag, wire, rest);
            if tag == 1 || tag == 2 {
                if let Some((t, k)) = text_at(wire, rest) {
                    let g = if tag == 1 {
                        Fields { name: Some(t), ..f }
                    } else {
                        Fields { value: Some(t), ..f }
                    };
                    lemma_varint_len(rest, 0);
                    lemma_record_ends(behind(rest, k), g);
                }
            } else if let Some(k) = nested_len(tag, wire, rest) {
                lemma_record_ends(behind(rest, k), f);
            }
        }
    }
}

/// The name and the value of the record `body`.
fn read_record(body: &[u8]) -> (r: PersistentResult<(Option<String>, Option<String>)>)
    requires
        fields_end(body@),
    ensures
        match (r, record_fields(body@, Fields { name: None, value: None })) {
            (Ok((name, value)), Some(f)) => text_of(name) == f.name && text_of(value) == f.value,
            (Err(_), None) => true,
            _ => false,
        },
{
    let mut name: Option<String> = None;
    let mut value: Option<String> = None;
    let mut pos: usize = 0;
    let ghost start = Fields { name: None, value: None };
    proof {
        assert(body@.skip(0) =~= body@);
    }
    while pos < body.len()
        invariant
            pos <= body@.len(),
            fields_end(body@.skip(pos as int)),
            start == (Fields { name: None, value: None }),
            record_fields(body@, start) == record_fields(
                body@.skip(pos as int),
                Fields { name: text_of(name), value: text_of(value) },
            ),
        decreases body@.len() - pos,
    {
        let here = slice_subrange(body, pos, body.len());
        let ghost b = body@.skip(pos as int);
        proof {
            assert(here@ =~= b);
            lemma_varint_len(b, 0);
        }
        let (tag, wire, left) = match decode_key(here) {
            Ok(k) => k,
            Err(e) => {
                return Err(PersistentPropError::Decode(e));
            },
        };
        let at = here.len() - left;
        let rest = slice_subrange(here, at, here.len());
        proof {
            assert(rest@ =~= behind(b, at as int));
            lemma_varint_len(rest@, 0);
            lemma_nested_len(tag as int, wire as int, rest@);
        }
        let after = if tag == 1 || tag == 2 {
            match merge_string(wire, rest) {
                Ok((text, after)) => {
                    proof {
                        lemma_bytes_round_trip(text@);
                        assert(text_at(wire as int, rest@) == Some((text@, rest@.len() - after)));
                    }
                    if tag == 1 {
                        name = Some(text);
                    } else {
                        value = Some(text);
                    }
                    after
                },
                Err(e) => {
                    return Err(PersistentPropError::Decode(e));
                },
            }
        } else {
            match skip_field(tag, wire, rest) {
                Ok(after) => after,
                Err(e) => {
                    return Err(PersistentPropError::Decode(e));
                },
            }
        };
        pos = body.len() - after;
        proof {
            assert(body@.skip(pos as int) =~= behind(rest@, rest@.len() - after));
        }
    }
    Ok((name, value))
}

/// A record, and how many bytes are left behind it.
struct TakenRecord {
    name: Option<String>,
    value: Option<String>,
    left: usize,
}

/// The record at the front of `b`, in a field of wire type `wire`.
fn take_record(wire: u8, b: &[u8]) -> (r: PersistentResult<TakenRecord>)
    ensures
        match (r, delimited_at(b@)) {
            (Ok(t), Some((body, n))) => {
                &&& wire == 2
                &&& t.left == b@.len() - n
                &&& record_fields(body, Fields { name: None, value: None }) == Some(
                    Fields { name: text_of(t.name), value: text_of(t.value) },
                )
            },
            (Err(_), Some((body, _))) => wire != 2 || record_fields(
                body,
                Fields { name: None, value: None },
            ) is None,
            (Err(_), None) => true,
            _ => false,
        },
{
    match merge_bytes(wire, b) {
        Ok((body, left)) => {
            proof {
                lemma_record_ends(body@, Fields { name: None, value: None });
            }
            match skip_message(b) {
                Ok(_) => {
                    let (name, value) = read_record(body.as_slice())?;
                    Ok(TakenRecord { name, value, left })
                },
                Err(e) => Err(PersistentPropError::Decode(e)),
            }
        },
        Err(e) => Err(PersistentPropError::Decode(e)),
    }
}

impl PersistentPropertyFile {
    /// Add what a record holds; one without a name or without a value is
    /// passed over.
    pub fn merge_record(&mut self, name: Option<String>, value: Option<String>)
        requires
            old(self).valid(),
        ensures
            final(self).valid(),
            final(self)@ == match (name, value) {
                (Some(k), Some(v)) => old(self)@.insert(k@, v@),
                _ => old(self)@,
            },
    {
        if let Some(k) = name {
            if let Some(v) = value {
                self.set(k.as_str(), v.as_str());
            }
        }
    }

    /// Add what the field at the front of `b` holds, and say how many bytes are
    /// left behind it.
    fn take_field(&mut self, b: &[u8]) -> (r: PersistentResult<usize>)
        requires
            old(self).valid(),
            b@.len() > 0,
        ensures
            final(self).valid(),
            match r {
                Ok(left) => left < b@.len() && file_properties(b@, old(self)@) == file_properties(
                    b@.skip(b@.len() - left),
                    final(self)@,
                ),
                Err(_) => file_properties(b@, old(self)@) is None,
            },
    {
        let (tag, wire, behind_key) = match decode_key(b) {
            Ok(k) => k,
            Err(e) => {
                return Err(PersistentPropError::Decode(e));
            },
        };
        proof {
            lemma_varint_len(b@, 0);
        }
        let at = b.len() - behind_key;
        let rest = slice_subrange(b, at, b.len());
        proof {
            assert(rest@ =~= behind(b@, at as int));
            lemma_varint_len(rest@, 0);
        }
        let left = if tag == 1 {
            let record = take_record(wire, rest)?;
            self.merge_record(record.name, record.value);
            record.left
        } else {
            proof {
                lemma_skipped_len(tag as int, wire as int, rest@);
            }
            match skip_field(tag, wire, rest) {
                Ok(left) => left,
                Err(e) => {
                    return Err(PersistentPropError::Decode(e));
                },
            }
        };
        proof {
            assert(b@.skip(b@.len() - left) =~= behind(rest@, rest@.len() - left));
        }
        Ok(left)
    }

    /// Read a persistent-property file.
    ///
    /// Groups in fields that are passed over may be nested a hundred levels
    /// deep, a record around them included.
    pub fn from_bytes(bytes: &[u8]) -> (r: PersistentResult<PersistentPropertyFile>)
        ensures
            match (r, file_properties(bytes@, Map::empty())) {
                (Ok(f), Some(m)) => f.valid() && f@ == m,
                (Err(_), None) => true,
                _ => false,
            },
    {
        let mut file = PersistentPropertyFile::default();
        let mut pos: usize = 0;
        proof {
            assert(bytes@.skip(0) =~= bytes@);
        }
        while pos < bytes.len()
            invariant
                pos <= bytes@.len(),
                file.valid(),
                file_properties(bytes@, Map::empty()) == file_properties(
                    bytes@.skip(pos as int),
                    file@,
                ),
            decreases bytes@.len() - pos,
        {
            let here = slice_subrange(bytes, pos, bytes.len());
            proof {
                assert(here@ =~= bytes@.skip(pos as int));
            }
            let left = file.take_field(here)?;
            proof {
                assert(bytes@.skip(bytes@.len() - left) =~= here@.skip(here@.len() - left));
            }
            pos = bytes.len() - left;
        }
        Ok(file)
    }

    /// The properties of a file with these contents.
    pub fn load(contents: &[u8]) -> (r: PersistentResult<PersistentPropertyFile>)
        ensures
            match (r, file_properties(contents@, Map::empty())) {
                (Ok(f), Some(m)) => f.valid() && f@ == m,
                (Err(_), None) => true,
                _ => false,
            },
    {
        PersistentPropertyFile::from_bytes(contents)
    }

    /// The properties of a file with these contents; a file that is not there
    /// holds none.
    pub fn load_or_default(contents: Option<&[u8]>) -> (r: PersistentResult<
        PersistentPropertyFile,
    >)
        ensures
            match contents {
                None => r matches Ok(f) && f.valid() && f@ == Map::<Seq<char>, Seq<char>>::empty(),
                Some(bytes) => match (r, file_properties(bytes@, Map::empty())) {
                    (Ok(f), Some(m)) => f.valid() && f@ == m,
                    (Err(_), None) => true,
                    _ => false,
                },
            },
    {
        match contents {
            None => Ok(PersistentPropertyFile::default()),
            Some(bytes) => PersistentPropertyFile::load(bytes),
        }
    }

    /// Write a persistent-property file. Read again, it has the same
    /// properties.
    pub fn to_bytes(&self) -> (r: PersistentResult<Vec<u8>>)
        ensures
            r is Ok,
            r->Ok_0@ == file_bytes(self.listing()),
            self.valid() ==> file_properties(r->Ok_0@, Map::empty()) == Some(self@),
    {
        let ghost list = self.listing();
        let mut out: Vec<u8> = Vec::new();
        let mut i: usize = 0;
        while i < self.properties.len()
            invariant
                i <= self.properties@.len(),
                list == self.listing(),
                list.len() == self.properties@.len(),
                out@ == file_bytes(list.take(i as int)),
                writable(list.take(i as int)),
            decreases self.properties@.len() - i,
        {
            let property = &self.properties[i];
            let mut body: Vec<u8> = Vec::new();
            encode_string(1, &property.name, &mut body);
            encode_string(2, &property.value, &mut body);
            proof {
                assert(list[i as int] == property@);
                assert(body@ =~= record_bytes(property@));
                assert(list.take(i + 1).drop_last() =~= list.take(i as int));
                assert(writable(list.take(i + 1))) by {
                    assert forall|j: int| 0 <= j < i + 1 implies record_bytes(
                        #[trigger] list.take(i + 1)[j],
                    ).len() < 0x1_0000_0000_0000_0000 by {
                        assert(j < i ==> list.take(i + 1)[j] == list.take(i as int)[j]);
                        assert(body.len() == body@.len());
                    }
                }
            }
            encode_bytes(1, &body, &mut out);
            i = i + 1;
        }
        proof {
            assert(list.take(i as int) =~= list);
            if self.valid() {
                law_file_round_trip(list);
            }
        }
        Ok(out)
    }
}

/// The lengths that are written fit in 64 bits.
pub open spec fn writable(list: Seq<Pair>) -> bool {
    forall|i: int|
        0 <= i < list.len() ==> record_bytes(#[trigger] list[i]).len() < 0x1_0000_0000_0000_0000
}

/// A record that was written is read back.
proof fn lemma_record_read(p: Pair)
    requires
        record_bytes(p).len() < 0x1_0000_0000_0000_0000,
    ensures
        record_fields(record_bytes(p), Fields { name: None, value: None }) == Some(
            Fields { name: Some(p.name), value: Some(p.value) },
        ),
{
    let a = text_bytes(p.name);
    let b = text_bytes(p.value);
    let second = delimited_bytes(2, b);
    lemma_bytes_round_trip(p.name);
    lemma_bytes_round_trip(p.value);
    lemma_delimited_read(1, a, second);
    lemma_delimited_read(2, b, Seq::empty());
    assert(second + Seq::<u8>::empty() =~= second);
    let f0 = Fields { name: None, value: None };
    let f1 = Fields { name: Some(p.name), value: None };
    let f2 = Fields { name: Some(p.name), value: Some(p.value) };
    assert(record_fields(record_bytes(p), f0) == record_fields(second, f1));
    assert(record_fields(second, f1) == record_fields(Seq::empty(), f2));
}

/// `m` with the properties of a list.
pub open spec fn with_all(m: Map<Seq<char>, Seq<char>>, list: Seq<Pair>) -> Map<
    Seq<char>,
    Seq<char>,
>
    decreases list.len(),
{
    if list.len() == 0 {
        m
    } else {
        with_all(m, list.drop_last()).insert(list.last().name, list.last().value)
    }
}

/// The records of a list, written in front of `tail`, are read back.
proof fn lemma_file_read(list: Seq<Pair>, tail: Seq<u8>, m: Map<Seq<char>, Seq<char>>)
    requires
        writable(list),
    ensures
        file_properties(file_bytes(list) + tail, m) == file_properties(tail, with_all(m, list)),
    decreases list.len(),
{
    if list.len() == 0 {
        assert(file_bytes(list) + tail =~= tail);
    } else {
        let init = list.drop_last();
        let p = list.last();
        let body = record_bytes(p);
        let rest = delimited_bytes(1, body) + tail;
        assert(list[list.len() - 1] == p);
        assert(writable(init)) by {
            assert forall|i: int| 0 <= i < init.len() implies record_bytes(#[trigger] init[i]).len()
                < 0x1_0000_0000_0000_0000 by {
                assert(init[i] == list[i]);
            }
        }
        lemma_file_read(init, rest, m);
        assert(file_bytes(list) + tail =~= file_bytes(init) + rest);
        lemma_record_read(p);
        lemma_delimited_read(1, body, tail);
        assert(file_properties(rest, with_all(m, init)) == file_properties(
            tail,
            with_all(m, list),
        ));
    }
}

/// A list in order is the map of its entries.
proof fn lemma_with_all(list: Seq<Pair>)
    requires
        in_name_order(list),
    ensures
        with_all(Map::empty(), list) == map_of(list),
    decreases list.len(),
{
    if list.len() == 0 {
        assert(map_of(list) =~= Map::<Seq<char>, Seq<char>>::empty());
    } else {
        let init = list.drop_last();
        let p = list.last();
        assert(in_name_order(init)) by {
            assert forall|i: int, j: int| 0 <= i < j < init.len() implies name_before(
                #[trigger] init[i].name,
                #[trigger] init[j].name,
            ) by {
                assert(name_before(list[i].name, list[j].name));
            }
        }
        lemma_with_all(init);
        assert forall|j: int| 0 <= j < init.len() implies name_before(
            #[trigger] init[j].name,
            p.name,
        ) by {
            assert(name_before(list[j].name, list[list.len() - 1].name));
        }
        assert(list =~= init.insert(init.len() as int, p));
        lemma_inserted(init, list, init.len() as int, p.name, p.value);
    }
}

/// A file that was written is read back with the same properties.
pub proof fn law_file_round_trip(list: Seq<Pair>)
    requires
        in_name_order(list),
        writable(list),
    ensures
        file_properties(file_bytes(list), Map::empty()) == Some(map_of(list)),
{
    lemma_file_read(list, Seq::empty(), Map::empty());
    assert(file_bytes(list) + Seq::<u8>::empty() =~= file_bytes(list));
    lemma_with_all(list);
}

/// A file holds each name once, and its listing holds exactly what lookups
/// find.
pub proof fn law_listing_is_map(list: Seq<Pair>, name: Seq<char>)
    requires
        in_name_order(list),
    ensures
        map_of(list).dom().contains(name) == has_name(list, name),
        forall|i: int|
            0 <= i < list.len() ==> map_of(list)[#[trigger] list[i].name] == list[i].value,
        forall|i: int, j: int|
            0 <= i < j < list.len() ==> #[trigger] list[i].name != #[trigger] list[j].name,
{
    assert forall|i: int| 0 <= i < list.len() implies map_of(list)[#[trigger] list[i].name]
        == list[i].value by {
        lemma_map_of(list, i);
    }
    assert forall|i: int, j: int| 0 <= i < j < list.len() implies #[trigger] list[i].name
        != #[trigger] list[j].name by {
        lemma_name_order(list[i].name, list[j].name);
    }
}

/// The records of a file are taken one after the other: where several have the
/// same name, the last one counts.
pub proof fn law_records_in_turn(
    list: Seq<Pair>,
    tail: Seq<u8>,
    m: Map<Seq<char>, Seq<char>>,
)
    requires
        writable(list),
    ensures
        file_properties(file_bytes(list) + tail, m) == file_properties(tail, with_all(m, list)),
        file_properties(file_bytes(list), m) == Some(with_all(m, list)),
{
    lemma_file_read(list, tail, m);
    lemma_file_read(list, Seq::empty(), m);
    assert(file_bytes(list) + Seq::<u8>::empty() =~= file_bytes(list));
}

/// Fields of a file that are no records are passed over, and so are those of a
/// record that are neither name nor value.
pub proof fn law_other_fields(
    tag: int,
    contents: Seq<u8>,
    tail: Seq<u8>,
    m: Map<Seq<char>, Seq<char>>,
    f: Fields,
)
    requires
        1 <= tag < 0x2000_0000,
        contents.len() < 0x1_0000_0000_0000_0000,
    ensures
        tag != 1 ==> file_properties(delimited_bytes(tag, contents) + tail, m) == file_properties(
            tail,
            m,
        ),
        tag != 1 && tag != 2 ==> record_fields(delimited_bytes(tag, contents) + tail, f)
            == record_fields(tail, f),
{
    let b = delimited_bytes(tag, contents) + tail;
    let n = varint_bytes(tag * 8 + 2).len() as int;
    lemma_delimited_read(tag, contents, tail);
    let rest = b.skip(n);
    lemma_nested_len(tag, 2, rest);
}

/// The name and the value of a record may come in any order, and more than once:
/// the last one of each counts. A record that lacks one of them sets nothing.
pub proof fn law_record_parts(name: Seq<char>, value: Seq<char>, tail: Seq<u8>, f: Fields)
    requires
        text_bytes(name).len() < 0x1_0000_0000_0000_0000,
        text_bytes(value).len() < 0x1_0000_0000_0000_0000,
    ensures
        record_fields(delimited_bytes(1, text_bytes(name)) + tail, f) == record_fields(
            tail,
            Fields { name: Some(name), ..f },
        ),
        record_fields(delimited_bytes(2, text_bytes(value)) + tail, f) == record_fields(
            tail,
            Fields { value: Some(value), ..f },
        ),
        record_fields(Seq::empty(), f) == Some(f),
        forall|m: Map<Seq<char>, Seq<char>>| #[trigger]
            with_fields(m, f) == if f.name is Some && f.value is Some {
                m.insert(f.name->0, f.value->0)
            } else {
                m
            },
{
    lemma_bytes_round_trip(name);
    lemma_bytes_round_trip(value);
    lemma_delimited_read(1, text_bytes(name), tail);
    lemma_delimited_read(2, text_bytes(value), tail);
}

} // verus!
