//! The protobuf wire format, as far as persistent property files use it.
use crate::bytes::text_bytes;
use prost::encoding::{DecodeContext, WireType};
use vstd::prelude::*;
use vstd::utf8::valid_utf8;

verus! {

/// The reason why prost could not decode something.
#[verifier::external_type_specification]
#[verifier::external_body]
pub struct ExDecodeError(prost::DecodeError);

/// Wire type of a field that starts with its length.
pub const LENGTH_DELIMITED: u8 = 2;

/// The variable-length integer that starts at index `i` of `b`, whose first
/// byte has index zero, and the number of bytes that it takes from `i` on.
///
/// Each byte holds seven bits, the lowest first, and all but the last one are
/// 128 or more. There are ten bytes at most, the last of them 0 or 1.
pub open spec fn varint_from(b: Seq<u8>, i: nat) -> Option<(int, int)>
    decreases 10 - i,
{
    if i >= b.len() || i >= 10 {
        None
    } else if b[i as int] < 0x80 {
        if i == 9 && b[i as int] >= 2 {
            None
        } else {
            Some((b[i as int] as int, 1))
        }
    } else {
        match varint_from(b, i + 1) {
            None => None,
            Some((v, n)) => Some((b[i as int] - 0x80 + 0x80 * v, n + 1)),
        }
    }
}

/// The variable-length integer at the front of `b`, and its length.
pub open spec fn varint_at(b: Seq<u8>) -> Option<(int, int)> {
    varint_from(b, 0)
}

/// The bytes of `v` as a variable-length integer.
pub open spec fn varint_bytes(v: int) -> Seq<u8>
    decreases v,
{
    if v < 0x80 {
        seq![v as u8]
    } else {
        seq![(v % 0x80 + 0x80) as u8] + varint_bytes(v / 0x80)
    }
}

/// The key at the front of `b`: the tag of a field, its wire type, and the
/// length of the key.
pub open spec fn key_at(b: Seq<u8>) -> Option<(int, int, int)> {
    match varint_at(b) {
        None => None,
        Some((k, n)) => if k > u32::MAX || k % 8 > 5 || k / 8 == 0 {
            None
        } else {
            Some((k / 8, k % 8, n))
        },
    }
}

/// The contents of the length-delimited field at the front of `b`, and the
/// bytes that it takes with its length.
pub open spec fn delimited_at(b: Seq<u8>) -> Option<(Seq<u8>, int)> {
    match varint_at(b) {
        None => None,
        Some((len, n)) => if n + len > b.len() {
            None
        } else {
            Some((b.subrange(n, n + len), n + len))
        },
    }
}

/// The bytes of a length-delimited field.
pub open spec fn delimited_bytes(tag: int, contents: Seq<u8>) -> Seq<u8> {
    varint_bytes(tag * 8 + 2) + varint_bytes(contents.len() as int) + contents
}

/// What is left of `b` behind `n` bytes, where there are so many.
pub open spec fn behind(b: Seq<u8>, n: int) -> Seq<u8> {
    if 0 <= n <= b.len() {
        b.skip(n)
    } else {
        Seq::empty()
    }
}

/// How many levels of groups may stand in each other.
pub const GROUP_LEVELS: u32 = 100;

/// How many bytes a field takes behind its key, where groups may be nested
/// `levels - 1` times.
pub open spec fn field_len(tag: int, wire: int, b: Seq<u8>, levels: nat) -> Option<int>
    decreases levels, b.len(), 1int,
{
    if levels == 0 {
        None
    } else if wire == 0 {
        match varint_at(b) {
            None => None,
            Some((_, n)) => Some(n),
        }
    } else if wire == 1 {
        if b.len() >= 8 {
            Some(8)
        } else {
            None
        }
    } else if wire == 2 {
        match delimited_at(b) {
            None => None,
            Some((_, n)) => Some(n),
        }
    } else if wire == 3 {
        group_len(tag, b, levels)
    } else if wire == 5 {
        if b.len() >= 4 {
            Some(4)
        } else {
            None
        }
    } else {
        None
    }
}

/// How many bytes the rest of a group takes: fields, and the key that ends the
/// group with the given tag.
pub open spec fn group_len(tag: int, b: Seq<u8>, levels: nat) -> Option<int>
    decreases levels, b.len(), 0int,
{
    if levels == 0 {
        None
    } else {
        match key_at(b) {
            None => None,
            Some((t, w, n)) => if w == 4 {
                if t == tag {
                    Some(n)
                } else {
                    None
                }
            } else {
                proof {
                    lemma_varint_len(b, 0);
                }
                match field_len(t, w, behind(b, n), (levels - 1) as nat) {
                    None => None,
                    Some(k) => match group_len(tag, behind(behind(b, n), k), levels) {
                        None => None,
                        Some(m) => Some(n + k + m),
                    },
                }
            },
        }
    }
}

/// How many bytes a field that is passed over takes behind its key.
#[verifier::opaque]
pub open spec fn skipped_len(tag: int, wire: int, b: Seq<u8>) -> Option<int> {
    field_len(tag, wire, b, GROUP_LEVELS as nat)
}

/// How many bytes a field that is passed over takes behind its key, where it is
/// part of a message in a field: that message counts as a level.
#[verifier::opaque]
pub open spec fn nested_len(tag: int, wire: int, b: Seq<u8>) -> Option<int> {
    field_len(tag, wire, b, (GROUP_LEVELS - 1) as nat)
}

/// The bytes of a message in a field are fields that can be passed over.
pub open spec fn fields_end(b: Seq<u8>) -> bool
    decreases b.len(),
{
    if b.len() == 0 {
        true
    } else {
        match key_at(b) {
            None => false,
            Some((tag, wire, n)) => {
                proof {
                    lemma_varint_len(b, 0);
                }
                match nested_len(tag, wire, behind(b, n)) {
                    None => false,
                    Some(k) => fields_end(behind(behind(b, n), k)),
                }
            },
        }
    }
}

/// `prost::encoding::decode_key`: the tag and wire type at the front of `b`,
/// and how many bytes are left behind the key.
#[verifier::external_body]
pub(crate) fn decode_key(b: &[u8]) -> (r: Result<(u32, u8, usize), prost::DecodeError>)
    ensures
        match (r, key_at(b@)) {
            (Ok((tag, wire, left)), Some((t, w, n))) => tag == t && wire == w && left == b@.len()
                - n,
            (Err(_), None) => true,
            _ => false,
        },
{
    let mut rest = b;
    let (tag, wire) = prost::encoding::decode_key(&mut rest)?;
    Ok((tag, wire as u8, rest.len()))
}

/// `prost::encoding::bytes::merge`: the contents of a field of wire type
/// `wire` at the front of `b`, and how many bytes are left behind it. Only
/// length-delimited fields have contents.
#[verifier::external_body]
pub(crate) fn merge_bytes(wire: u8, b: &[u8]) -> (r: Result<(Vec<u8>, usize), prost::DecodeError>)
    ensures
        match r {
            Ok((v, left)) => wire == LENGTH_DELIMITED && delimited_at(b@) == Some(
                (v@, b@.len() - left),
            ),
            Err(_) => wire != LENGTH_DELIMITED || delimited_at(b@) is None,
        },
{
    let mut rest = b;
    let mut value: Vec<u8> = Vec::new();
    let wire = WireType::try_from(u64::from(wire))?;
    prost::encoding::bytes::merge(wire, &mut value, &mut rest, DecodeContext::default())?;
    Ok((value, rest.len()))
}

/// `prost::encoding::string::merge`: the text of a field of wire type `wire`
/// at the front of `b`, and how many bytes are left behind it. Only
/// length-delimited fields that hold UTF-8 are text.
#[verifier::external_body]
pub(crate) fn merge_string(wire: u8, b: &[u8]) -> (r: Result<(String, usize), prost::DecodeError>)
    ensures
        match r {
            Ok((v, left)) => {
                &&& wire == LENGTH_DELIMITED
                &&& delimited_at(b@) == Some((text_bytes(v@), b@.len() - left))
            },
            Err(_) => {
                ||| wire != LENGTH_DELIMITED
                ||| delimited_at(b@) is None
                ||| !valid_utf8((delimited_at(b@)->0).0)
            },
        },
{
    let mut rest = b;
    let mut value = String::new();
    let wire = WireType::try_from(u64::from(wire))?;
    prost::encoding::string::merge(wire, &mut value, &mut rest, DecodeContext::default())?;
    Ok((value, rest.len()))
}

/// `prost::encoding::skip_field` with a fresh context: how many bytes are left
/// behind a field whose key was just read. A group takes the bytes up to the
/// key that ends it; groups in it count as another level.
#[verifier::external_body]
pub(crate) fn skip_field(tag: u32, wire: u8, b: &[u8]) -> (r: Result<usize, prost::DecodeError>)
    ensures
        match (r, skipped_len(tag as int, wire as int, b@)) {
            (Ok(left), Some(n)) => left == b@.len() - n,
            (Err(_), None) => true,
            _ => false,
        },
{
    let mut rest = b;
    let wire = WireType::try_from(u64::from(wire))?;
    prost::encoding::skip_field(wire, tag, &mut rest, DecodeContext::default())?;
    Ok(rest.len())
}

/// `prost::encoding::message::merge` into the message without fields, with a
/// fresh context: how many bytes are left behind the length-delimited message at
/// the front of `b`. It passes over each field of the message in turn.
#[verifier::external_body]
pub(crate) fn skip_message(b: &[u8]) -> (r: Result<usize, prost::DecodeError>)
    ensures
        match (r, delimited_at(b@)) {
            (Ok(left), Some((body, n))) => fields_end(body) && left == b@.len() - n,
            (Err(_), Some((body, _))) => !fields_end(body),
            (Err(_), None) => true,
            _ => false,
        },
{
    let mut rest = b;
    let wire = WireType::LengthDelimited;
    prost::encoding::message::merge(wire, &mut (), &mut rest, DecodeContext::default())?;
    Ok(rest.len())
}

/// `prost::encoding::string::encode`: append a text field to `out`.
#[verifier::external_body]
pub(crate) fn encode_string(tag: u32, value: &String, out: &mut Vec<u8>)
    requires
        1 <= tag < 0x2000_0000,
    ensures
        final(out)@ == old(out)@ + delimited_bytes(tag as int, text_bytes(value@)),
{
    prost::encoding::string::encode(tag, value, out)
}

/// `prost::encoding::bytes::encode`: append a bytes field to `out`.
#[verifier::external_body]
pub(crate) fn encode_bytes(tag: u32, value: &Vec<u8>, out: &mut Vec<u8>)
    requires
        1 <= tag < 0x2000_0000,
    ensures
        final(out)@ == old(out)@ + delimited_bytes(tag as int, value@),
{
    prost::encoding::bytes::encode(tag, value, out)
}

/// Values that fit in a variable-length integer whose first `i` bytes are
/// already taken.
pub open spec fn varint_cap(i: nat) -> int {
    if i == 0 {
        0x1_0000_0000_0000_0000
    } else if i == 1 {
        0x200_0000_0000_0000
    } else if i == 2 {
        0x4_0000_0000_0000
    } else if i == 3 {
        0x800_0000_0000
    } else if i == 4 {
        0x10_0000_0000
    } else if i == 5 {
        0x2000_0000
    } else if i == 6 {
        0x40_0000
    } else if i == 7 {
        0x8000
    } else if i == 8 {
        0x100
    } else if i == 9 {
        0x2
    } else {
        0
    }
}

proof fn lemma_varint_cap(i: nat)
    requires
        i <= 8,
    ensures
        varint_cap(i) == varint_cap(i + 1) * 0x80,
        varint_cap(9) == 2,
{
}

/// A variable-length integer is at least one byte long.
pub proof fn lemma_varint_len(b: Seq<u8>, i: nat)
    ensures
        varint_from(b, i) matches Some((v, n)) ==> 0 <= v && 1 <= n && i + n <= b.len(),
    decreases 10 - i,
{
    if i < b.len() && i < 10 {
        lemma_varint_len(b, i + 1);
    }
}

/// A field that is passed over takes some of the bytes that are there.
pub proof fn lemma_skipped_len(tag: int, wire: int, b: Seq<u8>)
    ensures
        skipped_len(tag, wire, b) matches Some(n) ==> 0 <= n <= b.len(),
{
    reveal(skipped_len);
    lemma_field_len(tag, wire, b, GROUP_LEVELS as nat);
}

/// One more level changes nothing about what can be passed over without it.
proof fn lemma_field_levels(tag: int, wire: int, b: Seq<u8>, levels: nat)
    ensures
        field_len(tag, wire, b, levels) matches Some(n) ==> field_len(tag, wire, b, levels + 1)
            == Some(n),
    decreases levels, b.len(), 1int,
{
    if levels > 0 && wire == 3 {
        lemma_group_levels(tag, b, levels);
    }
}

proof fn lemma_group_levels(tag: int, b: Seq<u8>, levels: nat)
    ensures
        group_len(tag, b, levels) matches Some(n) ==> group_len(tag, b, levels + 1) == Some(n),
    decreases levels, b.len(), 0int,
{
    lemma_varint_len(b, 0);
    if levels > 0 {
        if let Some((t, w, n)) = key_at(b) {
            if w != 4 {
                let rest = behind(b, n);
                lemma_field_levels(t, w, rest, (levels - 1) as nat);
                if let Some(k) = field_len(t, w, rest, (levels - 1) as nat) {
                    lemma_group_levels(tag, behind(rest, k), levels);
                }
            }
        }
    }
}

/// What can be passed over in a message can be passed over outside one.
pub proof fn lemma_nested_len(tag: int, wire: int, b: Seq<u8>)
    ensures
        nested_len(tag, wire, b) matches Some(n) ==> skipped_len(tag, wire, b) == Some(n) && 0 <= n
            <= b.len(),
        wire == 2 ==> nested_len(tag, wire, b) == match delimited_at(b) {
            None => None::<int>,
            Some((_, n)) => Some(n),
        },
{
    reveal(skipped_len);
    reveal(nested_len);
    lemma_field_levels(tag, wire, b, (GROUP_LEVELS - 1) as nat);
    lemma_skipped_len(tag, wire, b);
}

proof fn lemma_field_len(tag: int, wire: int, b: Seq<u8>, levels: nat)
    ensures
        field_len(tag, wire, b, levels) matches Some(n) ==> 0 <= n <= b.len(),
    decreases levels, b.len(), 1int,
{
    lemma_varint_len(b, 0);
    if levels > 0 && wire == 3 {
        lemma_group_len(tag, b, levels);
    }
}

proof fn lemma_group_len(tag: int, b: Seq<u8>, levels: nat)
    ensures
        group_len(tag, b, levels) matches Some(n) ==> 0 <= n <= b.len(),
    decreases levels, b.len(), 0int,
{
    lemma_varint_len(b, 0);
    if levels > 0 {
        if let Some((t, w, n)) = key_at(b) {
            if w != 4 {
                let rest = behind(b, n);
                lemma_field_len(t, w, rest, (levels - 1) as nat);
                if let Some(k) = field_len(t, w, rest, (levels - 1) as nat) {
                    lemma_group_len(tag, behind(rest, k), levels);
                }
            }
        }
    }
}

/// What was written as a variable-length integer is read back.
pub proof fn lemma_varint_round_trip(head: Seq<u8>, v: int, tail: Seq<u8>)
    requires
        head.len() <= 9,
        0 <= v < varint_cap(head.len()),
    ensures
        varint_from(head + varint_bytes(v) + tail, head.len()) == Some(
            (v, varint_bytes(v).len() as int),
        ),
    decreases v,
{
    let i = head.len();
    let b = head + varint_bytes(v) + tail;
    lemma_varint_cap(0);
    if v < 0x80 {
        assert(b[i as int] == v as u8);
    } else {
        if i < 9 {
            lemma_varint_cap(i);
        } else {
            assert(false);
        }
        let first = (v % 0x80 + 0x80) as u8;
        let head2 = head.push(first);
        lemma_varint_round_trip(head2, v / 0x80, tail);
        assert(head2 + varint_bytes(v / 0x80) + tail =~= b);
        assert(b[i as int] == first);
    }
}

/// The variable-length integer at the front of what was written.
pub proof fn lemma_varint_read(v: int, tail: Seq<u8>)
    requires
        0 <= v < 0x1_0000_0000_0000_0000,
    ensures
        varint_at(varint_bytes(v) + tail) == Some((v, varint_bytes(v).len() as int)),
{
    lemma_varint_round_trip(Seq::empty(), v, tail);
    assert(Seq::<u8>::empty() + varint_bytes(v) + tail =~= varint_bytes(v) + tail);
}

/// A length-delimited field that was written is read back.
pub proof fn lemma_delimited_read(tag: int, contents: Seq<u8>, tail: Seq<u8>)
    requires
        1 <= tag < 0x2000_0000,
        contents.len() < 0x1_0000_0000_0000_0000,
    ensures
        ({
            let b = delimited_bytes(tag, contents) + tail;
            let n = varint_bytes(tag * 8 + 2).len() as int;
            &&& key_at(b) == Some((tag, 2int, n))
            &&& 1 <= n <= b.len()
            &&& delimited_at(b.skip(n)) == Some((contents, delimited_bytes(tag, contents).len() - n))
            &&& b.skip(n).skip(delimited_bytes(tag, contents).len() - n) == tail
        }),
{
    let b = delimited_bytes(tag, contents) + tail;
    let key = varint_bytes(tag * 8 + 2);
    let len = varint_bytes(contents.len() as int);
    lemma_varint_read(tag * 8 + 2, len + contents + tail);
    assert(key + (len + contents + tail) =~= b);
    lemma_varint_len(b, 0);
    let n = key.len() as int;
    lemma_varint_read(contents.len() as int, contents + tail);
    assert(b.skip(n) =~= len + (contents + tail));
    let m = len.len() as int;
    assert(b.skip(n).subrange(m, m + contents.len()) =~= contents);
    assert(b.skip(n).skip(m + contents.len()) =~= tail);
}

} // verus!
