//! How a property area changes while others read it.
//!
//! Readers of a shared area rely on the order of the writes to it: a record
//! is filled in before a node refers to it, and a value is replaced while the
//! serial of its record is odd. The functions here give, next to the state
//! that an operation leaves, the memory operations that lead there, in order.
use vstd::prelude::*;
use vstd::utf8::{decode_utf8, valid_utf8};
use crate::area_edit::{initial_serial, legacy_message};
use crate::area_state::{dot_index, lemma_dot_index, long_serial, max_steps, name_order};
use crate::bytes::{nul_index, put, put_u32, u32_at, zero, KeyOrder};

verus! {

/// Why an operation on a shared area fails.
#[derive(Debug, Clone, Copy, PartialEq, Eq, Structural)]
pub enum MmapPropAreaError {
    InvalidMagic(u32),
    InvalidVersion(u32),
    InvalidOffset(u32),
    InvalidKey,
    AreaFull,
    ValueTooLong { len: usize },
}

pub type MmapResult<T> = core::result::Result<T, MmapPropAreaError>;

/// One operation on a shared area. Offsets count from the start of the data
/// region.
pub enum OpView {
    /// Copy bytes in.
    Bytes(int, Seq<u8>),
    /// Zero some bytes.
    Zero(int, int),
    /// Write a word that nobody reads yet.
    Word(int, int),
    /// Store a word atomically.
    StoreRelaxed(int, int),
    /// Store a word atomically, after all that was written before.
    StoreRelease(int, int),
    /// Keep what was written before ahead of what is stored later.
    ReleaseFence,
    /// Wake those who wait for the word to change.
    Wake(int),
    /// Store the fill mark.
    StoreUsed(int),
    /// Store the serial of the area, after all that was written before.
    StoreAreaSerial(int),
    /// Wake those who wait for the serial of the area to change.
    WakeArea,
    /// Bump the serial of the area that counts all changes, and wake those
    /// who wait for it.
    BumpGlobalSerial,
}

/// A shared area as its writer sees it, and what has been done to it.
#[verifier::ext_equal]
pub struct Live {
    pub used: int,
    pub serial: int,
    pub data: Seq<u8>,
    pub ops: Seq<OpView>,
}

impl Live {
    /// The area after one more operation.
    #[verifier::opaque]
    pub open spec fn emit(self, op: OpView) -> Live {
        let ops = self.ops.push(op);
        match op {
            OpView::Bytes(at, b) => Live { data: put(self.data, at, b), ops, ..self },
            OpView::Zero(at, n) => Live { data: zero(self.data, at, n), ops, ..self },
            OpView::Word(at, v) => Live { data: put_u32(self.data, at, v), ops, ..self },
            OpView::StoreRelaxed(at, v) => Live { data: put_u32(self.data, at, v), ops, ..self },
            OpView::StoreRelease(at, v) => Live { data: put_u32(self.data, at, v), ops, ..self },
            OpView::StoreUsed(v) => Live { used: v, ops, ..self },
            OpView::StoreAreaSerial(v) => Live { serial: v, ops, ..self },
            _ => Live { ops, ..self },
        }
    }
}

/// The number that an error reports for an offset.
pub open spec fn reported(off: int) -> u32 {
    if off <= u32::MAX {
        off as u32
    } else {
        u32::MAX
    }
}

/// The error for an offset that lies outside the region.
pub open spec fn outside(off: int) -> MmapPropAreaError {
    MmapPropAreaError::InvalidOffset(reported(off))
}

/// The word at `off`, where there is one.
pub open spec fn word(d: Seq<u8>, off: int) -> Option<int> {
    if 0 <= off && off + 4 <= d.len() {
        Some(u32_at(d, off))
    } else {
        None
    }
}

/// The length of the NUL-terminated string at `off`, where it ends within the
/// region.
pub open spec fn string_len(d: Seq<u8>, off: int) -> Option<int> {
    if 0 <= off < d.len() && nul_index(d, off, d.len() as int) < d.len() {
        Some(nul_index(d, off, d.len() as int) - off)
    } else {
        None
    }
}

/// `n` rounded up to whole words.
pub open spec fn whole_words(n: int) -> int {
    (n + 3) / 4 * 4
}

/// Take `size` bytes, rounded up to words, at the fill mark.
pub open spec fn live_allocate(l: Live, size: int) -> (Live, Option<int>) {
    let n = whole_words(size);
    if l.used + n > l.data.len() {
        (l, None)
    } else {
        (l.emit(OpView::StoreUsed(l.used + n)), Some(l.used))
    }
}

/// Add an unlinked node.
pub open spec fn live_node(l: Live, name: Seq<u8>) -> (Live, Option<int>) {
    let n = name.len() as int;
    match live_allocate(l, 21 + n) {
        (m, None) => (m, None),
        (m, Some(off)) => (
            m.emit(OpView::Word(off, n)).emit(OpView::Word(off + 4, 0)).emit(
                OpView::Word(off + 8, 0),
            ).emit(OpView::Word(off + 12, 0)).emit(OpView::Word(off + 16, 0)).emit(
                OpView::Bytes(off + 20, name),
            ).emit(OpView::Zero(off + 20 + n, 1)),
            Some(off),
        ),
    }
}

/// Add a node and let the word at `at` refer to it.
pub open spec fn live_linked(l: Live, at: int, name: Seq<u8>) -> (Live, MmapResult<Option<int>>) {
    match live_node(l, name) {
        (m, None) => (m, Err(MmapPropAreaError::AreaFull)),
        (m, Some(off)) => (m.emit(OpView::StoreRelease(at, off)), Ok(Some(off))),
    }
}

/// The sibling called `key` in the search tree at `off`. Where there is none,
/// one is added if `alloc` says so.
pub open spec fn live_sibling(l: Live, off: int, key: Seq<u8>, alloc: bool, steps: nat) -> (
    Live,
    MmapResult<Option<int>>,
)
    decreases steps, 0int,
{
    let n = u32_at(l.data, off);
    if steps == 0 || off + 20 > l.data.len() || off + 20 + n > l.data.len() {
        (l, Err(outside(off)))
    } else {
        match name_order(key, l.data.subrange(off + 20, off + 20 + n)) {
            KeyOrder::Equal => (l, Ok(Some(off))),
            KeyOrder::Less => live_branch(l, off + 8, key, alloc, (steps - 1) as nat),
            KeyOrder::Greater => live_branch(l, off + 12, key, alloc, (steps - 1) as nat),
        }
    }
}

/// The sibling called `key` in the search tree that the word at `at` refers
/// to.
pub open spec fn live_branch(l: Live, at: int, key: Seq<u8>, alloc: bool, steps: nat) -> (
    Live,
    MmapResult<Option<int>>,
)
    decreases steps, 1int,
{
    let next = u32_at(l.data, at);
    if next != 0 {
        live_sibling(l, next, key, alloc, steps)
    } else if alloc {
        live_linked(l, at, key)
    } else {
        (l, Ok(None))
    }
}

/// The node reached from the node at `off` along the pieces of `rest`. Nodes
/// that are missing are added if `alloc` says so.
pub open spec fn live_traverse(l: Live, off: int, rest: Seq<u8>, alloc: bool) -> (
    Live,
    MmapResult<Option<int>>,
)
    decreases rest.len(),
{
    let dot = dot_index(rest, 0);
    match live_child(l, off, rest.take(dot), alloc) {
        (m, Ok(Some(next))) => if dot < rest.len() {
            proof {
                lemma_dot_index(rest, 0);
            }
            live_traverse(m, next, rest.skip(dot + 1), alloc)
        } else {
            (m, Ok(Some(next)))
        },
        (m, r) => (m, r),
    }
}

/// The child called `piece` of the node at `off`.
pub open spec fn live_child(l: Live, off: int, piece: Seq<u8>, alloc: bool) -> (
    Live,
    MmapResult<Option<int>>,
) {
    let steps = max_steps(l.data.len() as int);
    if piece.len() == 0 {
        (l, Err(MmapPropAreaError::InvalidKey))
    } else {
        match word(l.data, off + 16) {
            None => (l, Err(outside(off + 16))),
            Some(children) => if children != 0 {
                live_sibling(l, children, piece, alloc, steps)
            } else if !alloc {
                (l, Ok(None))
            } else {
                match live_linked(l, off + 16, piece) {
                    (m, Ok(Some(new))) => live_sibling(m, new, piece, alloc, steps),
                    (m, r) => (m, r),
                }
            },
        }
    }
}

/// Where the record of the property called `name` stands.
pub open spec fn live_find(l: Live, name: Seq<u8>) -> MmapResult<Option<int>> {
    match live_traverse(l, 0, name, false).1 {
        Ok(Some(node)) => match word(l.data, node + 4) {
            None => Err(outside(node + 4)),
            Some(prop) => Ok(
                if prop != 0 {
                    Some(prop)
                } else {
                    None
                },
            ),
        },
        r => r,
    }
}

/// Add an unlinked record with an inline value.
pub open spec fn live_inline_record(l: Live, name: Seq<u8>, value: Seq<u8>) -> (
    Live,
    Option<int>,
) {
    let n = name.len() as int;
    match live_allocate(l, 97 + n) {
        (m, None) => (m, None),
        (m, Some(off)) => (
            m.emit(OpView::Bytes(off + 4, value)).emit(
                OpView::Zero(off + 4 + value.len(), 1),
            ).emit(OpView::Bytes(off + 96, name)).emit(OpView::Zero(off + 96 + n, 1)).emit(
                OpView::StoreRelaxed(off, initial_serial(value.len() as int, false)),
            ),
            Some(off),
        ),
    }
}

/// Add an unlinked record with a long value.
pub open spec fn live_long_record(l: Live, name: Seq<u8>, value: Seq<u8>) -> (Live, Option<int>) {
    let n = name.len() as int;
    match live_allocate(l, 97 + n) {
        (m, None) => (m, None),
        (m, Some(off)) => match live_allocate(m, value.len() as int + 1) {
            (k, None) => (k, None),
            (k, Some(at)) => (
                k.emit(OpView::Bytes(off + 4, legacy_message())).emit(
                    OpView::Zero(off + 54, 1),
                ).emit(OpView::Word(off + 60, at - off)).emit(OpView::Bytes(at, value)).emit(
                    OpView::Zero(at + value.len(), 1),
                ).emit(OpView::Bytes(off + 96, name)).emit(OpView::Zero(off + 96 + n, 1)).emit(
                    OpView::StoreRelaxed(off, initial_serial(50, true)),
                ),
                Some(off),
            ),
        },
    }
}

/// A serial with its dirty bit set.
pub open spec fn dirty(serial: int) -> int {
    serial / 2 * 2 + 1
}

/// A serial with the given counter, length and layout.
pub open spec fn tagged_serial(counter: int, len: int, is_long: bool) -> int {
    len % 0x100 * 0x100_0000 + (if is_long && counter / 0x1_0000 % 2 == 0 {
        counter + 0x1_0000
    } else {
        counter
    })
}

/// The serial that shows an update: the counter goes on from the dirty one.
pub open spec fn visible_serial(dirty: int, len: int, is_long: bool) -> int {
    tagged_serial((dirty + 1) % 0x100_0000, len, is_long)
}

/// The serial that hides an update: the counter is that of before.
pub open spec fn hidden_serial(dirty: int, len: int, is_long: bool) -> int {
    tagged_serial(dirty % 0x100_0000 / 2 * 2, len, is_long)
}

/// Where a value goes when a record is updated.
pub struct Slot {
    pub is_long: bool,
    pub at: int,
    /// The most bytes that fit, without the NUL byte.
    pub room: int,
}

/// Where the value of the record at `off` goes.
pub open spec fn value_slot(d: Seq<u8>, off: int) -> MmapResult<Slot> {
    if off + 96 > d.len() {
        Err(outside(off))
    } else if !long_serial(u32_at(d, off)) {
        Ok(Slot { is_long: false, at: off + 4, room: 91 })
    } else {
        let at = off + u32_at(d, off + 60);
        match string_len(d, at) {
            None => Err(outside(at)),
            Some(n) => if at + whole_words(n + 1) > d.len() {
                Err(outside(at))
            } else {
                Ok(Slot { is_long: true, at, room: whole_words(n + 1) - 1 })
            },
        }
    }
}

/// The area with `value` written to a slot.
pub open spec fn live_value(l: Live, slot: Slot, value: Seq<u8>) -> Live {
    let n = value.len() as int;
    let m = l.emit(OpView::Bytes(slot.at, value));
    if !slot.is_long {
        m.emit(OpView::Zero(slot.at + n, 92 - n))
    } else {
        let k = m.emit(OpView::Zero(slot.at + n, 1));
        if n < slot.room {
            k.emit(OpView::Zero(slot.at + n + 1, slot.room - (n + 1)))
        } else {
            k
        }
    }
}

/// Give the record at `off` a new value.
///
/// The serial is odd while the value changes, then shows a new counter to
/// those who wait for one, and in the end hides that there was an update.
#[verifier::opaque]
pub open spec fn live_update(l: Live, off: int, value: Seq<u8>) -> (Live, MmapResult<()>) {
    match value_slot(l.data, off) {
        Err(e) => (l, Err(e)),
        Ok(slot) => if value.len() > slot.room {
            (l, Err(MmapPropAreaError::ValueTooLong { len: value.len() as usize }))
        } else {
            let old = u32_at(l.data, off);
            let len = if slot.is_long {
                50
            } else {
                value.len() as int
            };
            (
                live_value(l.emit(OpView::StoreRelaxed(off, dirty(old))), slot, value).emit(
                    OpView::ReleaseFence,
                ).emit(OpView::StoreRelaxed(off, visible_serial(dirty(old), len, slot.is_long))).emit(
                    OpView::Wake(off),
                ).emit(OpView::BumpGlobalSerial).emit(OpView::ReleaseFence).emit(
                    OpView::StoreRelaxed(off, hidden_serial(dirty(old), len, slot.is_long)),
                ),
                Ok(()),
            )
        },
    }
}

/// Add the property called `name`; update it where it is there.
pub open spec fn live_add(l: Live, name: Seq<u8>, value: Seq<u8>) -> (Live, MmapResult<()>) {
    match live_traverse(l, 0, name, true) {
        (m, Err(e)) => (m, Err(e)),
        (m, Ok(None)) => (m, Err(MmapPropAreaError::InvalidKey)),
        (m, Ok(Some(node))) => match word(m.data, node + 4) {
            None => (m, Err(outside(node + 4))),
            Some(prop) => if prop != 0 {
                live_update(m, prop, value)
            } else {
                let made = if value.len() >= 92 {
                    live_long_record(m, name, value)
                } else {
                    live_inline_record(m, name, value)
                };
                match made {
                    (k, None) => (k, Err(MmapPropAreaError::AreaFull)),
                    (k, Some(off)) => (
                        k.emit(OpView::StoreRelease(node + 4, off)).emit(
                            OpView::BumpGlobalSerial,
                        ),
                        Ok(()),
                    ),
                }
            },
        },
    }
}

/// Update the property called `name`, or add it where there is none.
pub open spec fn live_upsert(l: Live, name: Seq<u8>, value: Seq<u8>) -> (Live, MmapResult<()>) {
    match live_find(l, name) {
        Err(e) => (l, Err(e)),
        Ok(Some(off)) => live_update(l, off, value),
        Ok(None) => live_add(l, name, value),
    }
}

/// Remove the nodes below `off` that lead to no property, and report whether
/// the node at `off` itself was removed. `depth` bounds the nodes on a path.
pub open spec fn live_prune(l: Live, off: int, depth: nat) -> (Live, MmapResult<bool>)
    decreases depth, 0int,
{
    if depth == 0 || off + 20 > l.data.len() {
        (l, Err(outside(off)))
    } else {
        let below = (depth - 1) as nat;
        match live_prune_link(l, off + 16, below) {
            (l1, Err(e)) => (l1, Err(e)),
            (l1, Ok(kids)) => match live_prune_link(l1, off + 8, below) {
                (l2, Err(e)) => (l2, Err(e)),
                (l2, Ok(left)) => match live_prune_link(l2, off + 12, below) {
                    (l3, Err(e)) => (l3, Err(e)),
                    (l3, Ok(right)) => if kids && left && right && u32_at(l3.data, off + 4)
                        == 0 {
                        (live_wipe_node(l3, off), Ok(true))
                    } else {
                        (l3, Ok(false))
                    },
                },
            },
        }
    }
}

/// Prune what the word at `at` refers to; whether nothing is left there.
pub open spec fn live_prune_link(l: Live, at: int, depth: nat) -> (Live, MmapResult<bool>)
    decreases depth, 1int,
{
    let link = u32_at(l.data, at);
    if link == 0 {
        (l, Ok(true))
    } else {
        match live_prune(l, link, depth) {
            (m, Ok(true)) => (m.emit(OpView::StoreRelease(at, 0)), Ok(true)),
            (m, r) => (m, r),
        }
    }
}

/// Zero the node at `off`.
pub open spec fn live_wipe_node(l: Live, off: int) -> Live {
    let n = u32_at(l.data, off);
    let m = if off + 20 + n <= l.data.len() {
        l.emit(OpView::Zero(off + 20, n))
    } else {
        l
    };
    m.emit(OpView::Zero(off, 20))
}

/// Zero the record at `off`, and its long value where it has one.
pub open spec fn live_wipe(l: Live, off: int, is_long: bool) -> (Live, MmapResult<()>) {
    let at = off + u32_at(l.data, off + 60);
    if is_long && string_len(l.data, at) is None {
        (l, Err(outside(at)))
    } else {
        let m = if is_long {
            l.emit(OpView::Zero(at, string_len(l.data, at)->0))
        } else {
            l
        };
        match string_len(m.data, off + 96) {
            None => (m, Err(outside(off + 96))),
            Some(n) => (
                m.emit(OpView::Zero(off + 96, n)).emit(OpView::Zero(off, 96)),
                Ok(()),
            ),
        }
    }
}

/// Remove the property called `name`; whether there was one.
///
/// The node lets go of the record before the record is wiped.
pub open spec fn live_remove(l: Live, name: Seq<u8>, prune: bool) -> (Live, MmapResult<bool>) {
    match live_traverse(l, 0, name, false).1 {
        Err(e) => (l, Err(e)),
        Ok(None) => (l, Ok(false)),
        Ok(Some(node)) => match word(l.data, node + 4) {
            None => (l, Err(outside(node + 4))),
            Some(prop) => if prop == 0 {
                (l, Ok(false))
            } else if prop + 96 > l.data.len() {
                (l, Err(outside(prop)))
            } else {
                match live_wipe(
                    l.emit(OpView::StoreRelease(node + 4, 0)),
                    prop,
                    long_serial(u32_at(l.data, prop)),
                ) {
                    (m, Err(e)) => (m, Err(e)),
                    (m, Ok(_)) => if prune {
                        (live_prune(m, 0, (m.data.len() + 1) as nat).0, Ok(true))
                    } else {
                        (m, Ok(true))
                    },
                }
            },
        },
    }
}

/// What `String::from_utf8_lossy` makes of some bytes.
pub uninterp spec fn lossy_text(b: Seq<u8>) -> Seq<char>;

/// `String::from_utf8_lossy`: the text of the bytes, with something in place
/// of what is not UTF-8. Well-formed bytes give their own text.
#[verifier::external_body]
pub(crate) fn text_from_utf8_lossy(bytes: &[u8]) -> (r: String)
    ensures
        r@ == lossy_text(bytes@),
        valid_utf8(bytes@) ==> r@ == decode_utf8(bytes@),
{
    String::from_utf8_lossy(bytes).into_owned()
}

/// The text that ends at a NUL byte among the `limit + 1` bytes at `off`.
pub open spec fn short_text(d: Seq<u8>, off: int, limit: int) -> Option<Seq<char>> {
    let end = if d.len() - off <= limit + 1 {
        d.len() as int
    } else {
        off + limit + 1
    };
    let nul = nul_index(d, off, end);
    if off >= d.len() || nul >= end || !valid_utf8(d.subrange(off, nul)) {
        None
    } else {
        Some(decode_utf8(d.subrange(off, nul)))
    }
}

/// The least of two numbers.
pub open spec fn least(a: int, b: int) -> int {
    if a <= b {
        a
    } else {
        b
    }
}

/// The text of some bytes, also where they are not UTF-8.
pub open spec fn shown_text(b: Seq<u8>) -> Seq<char> {
    if valid_utf8(b) {
        decode_utf8(b)
    } else {
        lossy_text(b)
    }
}

/// The name and the value of the record at `off`.
pub open spec fn live_read(d: Seq<u8>, off: int) -> Option<(Seq<char>, Seq<char>)> {
    if off + 96 > d.len() {
        None
    } else {
        let serial = u32_at(d, off);
        match short_text(d, off + 96, 256) {
            None => None,
            Some(name) => if long_serial(serial) {
                match short_text(d, off + u32_at(d, off + 60), 1024) {
                    None => None,
                    Some(value) => Some((name, value)),
                }
            } else {
                Some(
                    (
                        name,
                        shown_text(
                            d.subrange(off + 4, off + 4 + least(serial / 0x100_0000, 92)),
                        ),
                    ),
                )
            },
        }
    }
}

/// The number of bytes in `from..to` that are not NUL.
pub open spec fn nonzero_count(d: Seq<u8>, from: int, to: int) -> int
    decreases to - from,
{
    if from >= to {
        0
    } else {
        nonzero_count(d, from, to - 1) + (if d[to - 1] != 0 {
            1int
        } else {
            0
        })
    }
}

/// What the slot of a value looks like.
pub struct SlotView {
    pub is_long: bool,
    pub value_len: int,
    pub tail_size: int,
    pub tail_nonzero: int,
}

/// What the slot of the record at `off` looks like.
pub open spec fn slot_view(d: Seq<u8>, off: int) -> MmapResult<SlotView> {
    if off + 96 > d.len() {
        Err(outside(off))
    } else if long_serial(u32_at(d, off)) {
        let at = off + u32_at(d, off + 60);
        match string_len(d, at) {
            None => Err(outside(at)),
            Some(n) => Ok(
                SlotView { is_long: true, value_len: n, tail_size: 0, tail_nonzero: 0 },
            ),
        }
    } else {
        let n = least(u32_at(d, off) / 0x100_0000, 92);
        Ok(
            SlotView {
                is_long: false,
                value_len: n,
                tail_size: 92 - n,
                tail_nonzero: nonzero_count(d, off + 4 + n, off + 96),
            },
        )
    }
}

/// Looking for a node changes nothing.
pub proof fn lemma_sibling_unchanged(l: Live, off: int, key: Seq<u8>, steps: nat)
    ensures
        live_sibling(l, off, key, false, steps).0 == l,
    decreases steps,
{
    let n = u32_at(l.data, off);
    if steps > 0 && off + 20 + n <= l.data.len() {
        match name_order(key, l.data.subrange(off + 20, off + 20 + n)) {
            KeyOrder::Equal => {},
            KeyOrder::Less => {
                lemma_sibling_unchanged(l, u32_at(l.data, off + 8), key, (steps - 1) as nat);
            },
            KeyOrder::Greater => {
                lemma_sibling_unchanged(l, u32_at(l.data, off + 12), key, (steps - 1) as nat);
            },
        }
    }
}

/// Looking for a property changes nothing.
pub proof fn lemma_traverse_unchanged(l: Live, off: int, rest: Seq<u8>)
    ensures
        live_traverse(l, off, rest, false).0 == l,
    decreases rest.len(),
{
    let dot = dot_index(rest, 0);
    let piece = rest.take(dot);
    lemma_dot_index(rest, 0);
    if piece.len() > 0 && word(l.data, off + 16) is Some {
        let children = u32_at(l.data, off + 16);
        lemma_sibling_unchanged(l, children, piece, max_steps(l.data.len() as int));
        if let (m, Ok(Some(next))) = live_child(l, off, piece, false) {
            if dot < rest.len() {
                lemma_traverse_unchanged(l, next, rest.skip(dot + 1));
            }
        }
    }
}

} // verus!
