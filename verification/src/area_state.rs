//! What the bytes of a property area mean.
//!
//! An area is a data region and a fill mark. Trie nodes, property records and
//! long values lie in the data region and refer to one another by offset. The
//! functions here read and change such a region as a mathematical value; the
//! operations of [`crate::prop_area::PropArea`] are stated over them.
use crate::bytes::{
    lemma_le_bytes, lemma_nul_index, lemma_put_u32, lemma_word_bounds, lex_less, nul_index, put_u32,
    u32_at, KeyOrder,
};
use crate::prop_info::{
    align4, PropView, INITIAL_BYTES_USED, PROP_AREA_MAGIC, PROP_AREA_VERSION,
};
use vstd::prelude::*;
use vstd::utf8::valid_utf8;

verus! {

/// The data region of an area and how much of it is in use.
#[verifier::ext_equal]
pub struct AreaState {
    pub used: int,
    pub data: Seq<u8>,
}

/// Why an operation on an area fails.
pub enum AreaFault {
    Utf8(Seq<u8>),
    AreaTooSmall(int),
    AreaTooLarge(int),
    InvalidMagic(int),
    InvalidVersion(int),
    InvalidBytesUsed(int),
    InvalidOffset(int),
    InvalidKey(Seq<u8>),
    InPlaceUpdateTooLong { name: Seq<u8>, new_len: int, max_len: int },
    Corrupted(Seq<char>),
    AreaFull { requested: int, available: int },
}

/// A trie node as it is read at some offset.
pub struct NodeView {
    pub namelen: int,
    pub prop: int,
    pub left: int,
    pub right: int,
    pub children: int,
    pub name: Seq<u8>,
}

/// A property record as it is read at some offset.
pub struct RecordView {
    pub name: Seq<u8>,
    pub value: Seq<u8>,
    pub value_offset: int,
    pub is_long: bool,
}

/// What a write to an area reports.
pub struct WriteView {
    pub prop_offset: int,
    pub serial: int,
    pub created: bool,
    pub serial_len: int,
    pub is_long: bool,
}

impl AreaState {
    /// The same fill mark over another data region.
    pub open spec fn with(self, data: Seq<u8>) -> AreaState {
        AreaState { used: self.used, data }
    }
}

/// The area in the first `size` bytes of the block `b`.
pub open spec fn open_area(b: Seq<u8>, size: int) -> Result<AreaState, AreaFault> {
    let used = u32_at(b, 0);
    if size < 128 {
        Err(AreaFault::AreaTooSmall(size))
    } else if size - 128 > u32::MAX {
        Err(AreaFault::AreaTooLarge(size))
    } else if u32_at(b, 8) != PROP_AREA_MAGIC {
        Err(AreaFault::InvalidMagic(u32_at(b, 8)))
    } else if u32_at(b, 12) != PROP_AREA_VERSION {
        Err(AreaFault::InvalidVersion(u32_at(b, 12)))
    } else if used < 20 || used > size - 128 {
        Err(AreaFault::InvalidBytesUsed(used))
    } else {
        Ok(AreaState { used, data: b.subrange(128, size) })
    }
}

/// What stands behind the fill mark in a header marks a property area.
pub open spec fn marks_area(header: Seq<u8>) -> bool {
    u32_at(header, 4) == PROP_AREA_MAGIC && u32_at(header, 8) == PROP_AREA_VERSION
}

/// The header of a fresh area.
pub open spec fn fresh_header() -> Seq<u8> {
    put_u32(
        put_u32(
            put_u32(Seq::new(128, |_i: int| 0u8), 0, INITIAL_BYTES_USED as int),
            8,
            PROP_AREA_MAGIC as int,
        ),
        12,
        PROP_AREA_VERSION as int,
    )
}

/// The header of a fresh area marks an area.
pub proof fn lemma_fresh_header()
    ensures
        fresh_header().len() == 128,
        fresh_header().skip(4).len() == 124,
        marks_area(fresh_header().skip(4)),
{
    let z = Seq::new(128, |_i: int| 0u8);
    let a = put_u32(z, 0, INITIAL_BYTES_USED as int);
    let b = put_u32(a, 8, PROP_AREA_MAGIC as int);
    let c = put_u32(b, 12, PROP_AREA_VERSION as int);
    lemma_le_bytes(INITIAL_BYTES_USED as int);
    lemma_le_bytes(PROP_AREA_MAGIC as int);
    lemma_le_bytes(PROP_AREA_VERSION as int);
    lemma_put_u32(a, 8, PROP_AREA_MAGIC as int);
    lemma_put_u32(b, 12, PROP_AREA_VERSION as int);
    assert(c == fresh_header());
    assert(u32_at(c.skip(4), 4) == u32_at(c, 8));
    assert(u32_at(c.skip(4), 8) == u32_at(c, 12));
    assert(u32_at(c, 8) == u32_at(b, 8));
}

/// A fresh area with `n` bytes of data.
pub open spec fn fresh_area(n: int) -> AreaState {
    AreaState { used: INITIAL_BYTES_USED as int, data: Seq::new(n as nat, |_i: int| 0u8) }
}

// ---------------------------------------------------------------------------
// Reading
// ---------------------------------------------------------------------------

/// The bytes of the NUL-terminated string at `off`, looked for in `limit`
/// bytes.
///
/// The region is read in pieces of 92 bytes, so where the limit runs past the
/// end of the region only whole pieces are looked at.
pub open spec fn c_string(d: Seq<u8>, off: int, limit: int) -> Result<Seq<u8>, AreaFault> {
    if off > d.len() {
        Err(AreaFault::InvalidOffset(off))
    } else {
        let room = d.len() - off;
        let span = if limit <= room {
            limit
        } else {
            room / 92 * 92
        };
        let end = nul_index(d, off, off + span);
        if end < off + span {
            Ok(d.subrange(off, end))
        } else if limit <= room {
            Err(AreaFault::Corrupted("unterminated c string"@))
        } else {
            Err(AreaFault::InvalidOffset(off + span))
        }
    }
}

/// As [`c_string`], for a string that has to be UTF-8.
pub open spec fn c_text(d: Seq<u8>, off: int, limit: int) -> Result<Seq<u8>, AreaFault> {
    match c_string(d, off, limit) {
        Err(e) => Err(e),
        Ok(b) => if valid_utf8(b) {
            Ok(b)
        } else {
            Err(AreaFault::Utf8(b))
        },
    }
}

/// The trie node at `off`.
pub open spec fn read_node(d: Seq<u8>, off: int) -> Result<NodeView, AreaFault> {
    if off + 20 > d.len() {
        Err(AreaFault::InvalidOffset(off))
    } else {
        let namelen = u32_at(d, off);
        let name = if namelen == 0 {
            Ok(Seq::<u8>::empty())
        } else {
            c_text(d, off + 20, (namelen + 1) % 0x1_0000_0000)
        };
        match name {
            Err(e) => Err(e),
            Ok(name) => Ok(
                NodeView {
                    namelen,
                    prop: u32_at(d, off + 4),
                    left: u32_at(d, off + 8),
                    right: u32_at(d, off + 12),
                    children: u32_at(d, off + 16),
                    name,
                },
            ),
        }
    }
}

/// Whether a serial marks the long layout.
pub open spec fn long_serial(serial: int) -> bool {
    serial / 0x1_0000 % 2 == 1
}

/// The property record at `off`.
pub open spec fn read_record(d: Seq<u8>, off: int) -> Result<RecordView, AreaFault> {
    if off + 96 > d.len() {
        Err(AreaFault::InvalidOffset(off))
    } else {
        match c_text(d, off + 96, d.len() - (off + 96)) {
            Err(e) => Err(e),
            Ok(name) => if long_serial(u32_at(d, off)) {
                read_long_record(d, off, name)
            } else {
                let end = nul_index(d, off + 4, off + 96);
                let value = d.subrange(off + 4, end);
                if end == off + 96 {
                    Err(AreaFault::Corrupted("inline property value is not null terminated"@))
                } else if valid_utf8(value) {
                    Ok(RecordView { name, value, value_offset: off + 4, is_long: false })
                } else {
                    Err(AreaFault::Utf8(value))
                }
            },
        }
    }
}

/// The property record at `off`, given its name, where its value is stored
/// out of line.
pub open spec fn read_long_record(d: Seq<u8>, off: int, name: Seq<u8>) -> Result<
    RecordView,
    AreaFault,
> {
    let rel = u32_at(d, off + 60);
    let at = off + rel;
    if rel < align4(97 + name.len() as int) {
        Err(AreaFault::Corrupted("long property offset points into prop_info"@))
    } else if at > u32::MAX {
        Err(AreaFault::InvalidOffset(off))
    } else {
        match c_text(d, at, d.len() - at) {
            Err(e) => Err(e),
            Ok(value) => Ok(RecordView { name, value, value_offset: at, is_long: true }),
        }
    }
}

/// What a record is read from lies in the region.
pub proof fn lemma_record_in_range(d: Seq<u8>, off: int)
    requires
        0 <= off,
        read_record(d, off) is Ok,
    ensures
        ({
            let r = read_record(d, off)->Ok_0;
            &&& off + 96 + r.name.len() < d.len()
            &&& 0 <= r.value_offset
            &&& r.value_offset + r.value.len() < d.len()
            &&& !r.is_long ==> r.value.len() < 92 && r.value_offset == off + 4
        }),
{
    lemma_nul_index(d, off + 96, d.len() as int);
    lemma_nul_index(d, off + 4, off + 96);
    if long_serial(u32_at(d, off)) {
        let at = off + u32_at(d, off + 60);
        lemma_word_bounds(d, off + 60);
        lemma_nul_index(d, at, d.len() as int);
    }
}

/// What is reported of the record `r` at `off`.
pub open spec fn prop_view(off: int, r: RecordView) -> PropView {
    PropView {
        name: r.name,
        value: r.value,
        prop_offset: off,
        name_offset: off + 96,
        value_offset: r.value_offset,
        is_long: r.is_long,
    }
}

// ---------------------------------------------------------------------------
// Keys
// ---------------------------------------------------------------------------

/// The pieces of `key` between its dots.
pub open spec fn segments(key: Seq<u8>) -> Seq<Seq<u8>>
    decreases key.len(),
{
    let n = dot_index(key, 0);
    if n >= key.len() {
        seq![key]
    } else {
        proof {
            lemma_dot_index(key, 0);
        }
        seq![key.take(n)] + segments(key.skip(n + 1))
    }
}

/// The first position of a dot in `key` from `i` on, or the length of `key`.
pub open spec fn dot_index(key: Seq<u8>, i: int) -> int
    decreases key.len() - i,
{
    if i >= key.len() {
        key.len() as int
    } else if key[i] == 0x2e {
        i
    } else {
        dot_index(key, i + 1)
    }
}

pub proof fn lemma_dot_index(key: Seq<u8>, i: int)
    requires
        0 <= i <= key.len(),
    ensures
        i <= dot_index(key, i) <= key.len(),
        dot_index(key, i) < key.len() ==> key[dot_index(key, i)] == 0x2e,
        forall|j: int| i <= j < dot_index(key, i) ==> key[j] != 0x2e,
    decreases key.len() - i,
{
    if i < key.len() && key[i] != 0x2e {
        lemma_dot_index(key, i + 1);
    }
}

/// `n` is where the first dot of `key` from `i` on stands.
pub proof fn lemma_dot_index_is(key: Seq<u8>, i: int, n: int)
    requires
        0 <= i <= n <= key.len(),
        n < key.len() ==> key[n] == 0x2e,
        forall|j: int| i <= j < n ==> key[j] != 0x2e,
    ensures
        dot_index(key, i) == n,
    decreases n - i,
{
    if i < n {
        lemma_dot_index_is(key, i + 1, n);
    }
}

/// Whether `key` names a property: no segment of it is empty.
pub open spec fn key_ok(key: Seq<u8>) -> bool {
    forall|i: int|
        0 <= i < segments(key).len() ==> (#[trigger] segments(key)[i]).len() > 0
}

/// Order of sibling names: by length first, byte-wise among equal lengths.
pub open spec fn name_less(a: Seq<u8>, b: Seq<u8>) -> bool {
    a.len() < b.len() || (a.len() == b.len() && lex_less(a, b))
}

/// The outcome of comparing two sibling names.
pub open spec fn name_order(a: Seq<u8>, b: Seq<u8>) -> KeyOrder {
    if name_less(a, b) {
        KeyOrder::Less
    } else if a == b {
        KeyOrder::Equal
    } else {
        KeyOrder::Greater
    }
}

/// How many siblings a search visits at most in a region of `size` bytes.
pub open spec fn max_steps(size: int) -> nat {
    if size / 20 >= 1 {
        (size / 20) as nat
    } else {
        1
    }
}

// ---------------------------------------------------------------------------
// Searching
// ---------------------------------------------------------------------------

/// The sibling called `target` in the search tree at `off`.
pub open spec fn find_sibling(d: Seq<u8>, off: int, target: Seq<u8>, steps: nat) -> Result<
    Option<int>,
    AreaFault,
>
    decreases steps,
{
    if steps == 0 {
        Err(AreaFault::Corrupted("possible cycle in sibling tree"@))
    } else {
        match read_node(d, off) {
            Err(e) => Err(e),
            Ok(n) => match name_order(target, n.name) {
                KeyOrder::Equal => Ok(Some(off)),
                KeyOrder::Less => if n.left == 0 {
                    Ok(None)
                } else {
                    find_sibling(d, n.left, target, (steps - 1) as nat)
                },
                KeyOrder::Greater => if n.right == 0 {
                    Ok(None)
                } else {
                    find_sibling(d, n.right, target, (steps - 1) as nat)
                },
            },
        }
    }
}

/// The node reached from the node at `off` along `segs`.
pub open spec fn descend(d: Seq<u8>, off: int, segs: Seq<Seq<u8>>) -> Result<
    Option<int>,
    AreaFault,
>
    decreases segs.len(),
{
    if segs.len() == 0 {
        Ok(Some(off))
    } else {
        match read_node(d, off) {
            Err(e) => Err(e),
            Ok(n) => if n.children == 0 {
                Ok(None)
            } else {
                match find_sibling(d, n.children, segs[0], max_steps(d.len() as int)) {
                    Err(e) => Err(e),
                    Ok(None) => Ok(None),
                    Ok(Some(next)) => descend(d, next, segs.skip(1)),
                }
            },
        }
    }
}

/// The trie node of `key`.
pub open spec fn find_node(d: Seq<u8>, key: Seq<u8>) -> Result<Option<int>, AreaFault> {
    if key_ok(key) {
        descend(d, 0, segments(key))
    } else {
        Err(AreaFault::InvalidKey(key))
    }
}

/// The property called `key`.
pub open spec fn lookup(d: Seq<u8>, key: Seq<u8>) -> Result<Option<PropView>, AreaFault> {
    match find_node(d, key) {
        Err(e) => Err(e),
        Ok(None) => Ok(None),
        Ok(Some(off)) => {
            let prop = u32_at(d, off + 4);
            if prop == 0 {
                Ok(None)
            } else {
                match read_record(d, prop) {
                    Err(e) => Err(e),
                    Ok(r) => Ok(Some(prop_view(prop, r))),
                }
            }
        },
    }
}

/// What is stored for a property, wherever it stands.
pub struct Content {
    pub value: Seq<u8>,
    pub is_long: bool,
    pub serial: int,
}

/// What is stored for the property called `key`.
pub open spec fn lookup_content(d: Seq<u8>, key: Seq<u8>) -> Result<Option<Content>, AreaFault> {
    match lookup(d, key) {
        Err(e) => Err(e),
        Ok(None) => Ok(None),
        Ok(Some(p)) => Ok(
            Some(
                Content {
                    value: p.value,
                    is_long: p.is_long,
                    serial: u32_at(d, p.prop_offset),
                },
            ),
        ),
    }
}

/// The value of the property called `key`.
pub open spec fn lookup_value(d: Seq<u8>, key: Seq<u8>) -> Result<Option<Seq<u8>>, AreaFault> {
    match lookup(d, key) {
        Err(e) => Err(e),
        Ok(None) => Ok(None),
        Ok(Some(p)) => Ok(Some(p.value)),
    }
}

// ---------------------------------------------------------------------------
// Walking the trie
// ---------------------------------------------------------------------------

/// The properties below the node at `off`, left siblings first, a node before
/// its children, right siblings last.
///
/// `path` holds the nodes that are being visited, and `depth` bounds how many
/// more can be. The properties met before a fault are listed as well.
pub open spec fn walk(d: Seq<u8>, off: int, path: Set<int>, depth: nat) -> (
    Seq<PropView>,
    Result<(), AreaFault>,
)
    decreases depth, 0int,
{
    if depth == 0 || path.contains(off) {
        (Seq::empty(), Err(AreaFault::Corrupted("cycle detected while iterating trie"@)))
    } else {
        match read_node(d, off) {
            Err(e) => (Seq::empty(), Err(e)),
            Ok(n) => {
                let inner = path.insert(off);
                let below = (depth - 1) as nat;
                let left = walk_link(d, n.left, inner, below);
                if left.1 is Err {
                    left
                } else {
                    let own = own_property(d, n.prop);
                    if own.1 is Err {
                        (left.0 + own.0, own.1)
                    } else {
                        let kids = walk_link(d, n.children, inner, below);
                        if kids.1 is Err {
                            (left.0 + own.0 + kids.0, kids.1)
                        } else {
                            let right = walk_link(d, n.right, inner, below);
                            (left.0 + own.0 + kids.0 + right.0, right.1)
                        }
                    }
                }
            },
        }
    }
}

/// The properties below the node that a link refers to; zero refers to none.
pub open spec fn walk_link(d: Seq<u8>, link: int, path: Set<int>, depth: nat) -> (
    Seq<PropView>,
    Result<(), AreaFault>,
)
    decreases depth, 1int,
{
    if link == 0 {
        (Seq::empty(), Ok(()))
    } else {
        walk(d, link, path, depth)
    }
}

/// The property record that a node refers to; zero refers to none.
pub open spec fn own_property(d: Seq<u8>, prop: int) -> (Seq<PropView>, Result<(), AreaFault>) {
    if prop == 0 {
        (Seq::empty(), Ok(()))
    } else {
        match read_record(d, prop) {
            Err(e) => (Seq::empty(), Err(e)),
            Ok(r) => (seq![prop_view(prop, r)], Ok(())),
        }
    }
}

/// All properties of the area, in the order of the trie.
pub open spec fn all_properties(d: Seq<u8>) -> (Seq<PropView>, Result<(), AreaFault>) {
    walk(d, 0, Set::empty(), (d.len() + 1) as nat)
}

} // verus!
