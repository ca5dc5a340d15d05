//! How the bytes of a property area change.
//!
//! Each function takes an [`AreaState`] and gives the state after the
//! operation together with what the operation reports. Where an operation
//! fails half-way, the state holds what was written before.
use crate::area_state::{
    find_node, key_ok, max_steps, name_order, read_node, read_record, segments, AreaFault,
    AreaState, WriteView,
};
use crate::bytes::{put, put_u32, text_bytes, u32_at, zero, KeyOrder};
use crate::prop_info::{align4, LONG_LEGACY_ERROR};
use vstd::prelude::*;
use vstd::utf8::{encode_utf8_valid_utf8, is_ascii_chars_encode_utf8, valid_utf8};

verus! {

/// Largest size of an object that is laid out: rounding it up stays in a word.
pub open spec fn max_object() -> int {
    u32::MAX - 3
}

/// Take `size` zeroed bytes, rounded up to words, at the fill mark.
pub open spec fn allocate(s: AreaState, size: int) -> (AreaState, Result<int, AreaFault>) {
    let n = align4(size);
    if s.used + n > s.data.len() {
        (
            s,
            Err(
                AreaFault::AreaFull {
                    requested: n,
                    available: if s.data.len() >= s.used {
                        s.data.len() - s.used
                    } else {
                        0
                    },
                },
            ),
        )
    } else {
        (AreaState { used: s.used + n, data: zero(s.data, s.used, n) }, Ok(s.used))
    }
}

/// The data region with a node called `name` laid out at `off`, where the
/// bytes were zero.
pub open spec fn node_laid(d: Seq<u8>, off: int, name: Seq<u8>) -> Seq<u8> {
    put(put_u32(d, off, name.len() as int), off + 20, name)
}

/// Add an unlinked node.
pub open spec fn create_node(s: AreaState, name: Seq<u8>) -> (AreaState, Result<int, AreaFault>) {
    if 21 + name.len() > max_object() {
        (s, Err(AreaFault::Corrupted("name too long"@)))
    } else {
        match allocate(s, 21 + name.len() as int) {
            (t, Err(e)) => (t, Err(e)),
            (t, Ok(off)) => (t.with(node_laid(t.data, off, name)), Ok(off)),
        }
    }
}

/// Add a node and let the word at `at` refer to it.
pub open spec fn create_linked(s: AreaState, at: int, name: Seq<u8>) -> (
    AreaState,
    Result<int, AreaFault>,
) {
    match create_node(s, name) {
        (t, Err(e)) => (t, Err(e)),
        (t, Ok(off)) => (t.with(put_u32(t.data, at, off)), Ok(off)),
    }
}

/// The sibling called `target` in the search tree at `off`, which is added
/// where there is none.
pub open spec fn ensure_sibling(s: AreaState, off: int, target: Seq<u8>, steps: nat) -> (
    AreaState,
    Result<int, AreaFault>,
)
    decreases steps,
{
    if steps == 0 {
        (s, Err(AreaFault::Corrupted("possible cycle while inserting sibling node"@)))
    } else {
        match read_node(s.data, off) {
            Err(e) => (s, Err(e)),
            Ok(n) => match name_order(target, n.name) {
                KeyOrder::Equal => (s, Ok(off)),
                KeyOrder::Less => if n.left == 0 {
                    create_linked(s, off + 8, target)
                } else {
                    ensure_sibling(s, n.left, target, (steps - 1) as nat)
                },
                KeyOrder::Greater => if n.right == 0 {
                    create_linked(s, off + 12, target)
                } else {
                    ensure_sibling(s, n.right, target, (steps - 1) as nat)
                },
            },
        }
    }
}

/// The child called `target` of the node at `off`, which is added where there
/// is none.
pub open spec fn ensure_child(s: AreaState, off: int, target: Seq<u8>) -> (
    AreaState,
    Result<int, AreaFault>,
) {
    match read_node(s.data, off) {
        Err(e) => (s, Err(e)),
        Ok(n) => if n.children != 0 {
            ensure_sibling(s, n.children, target, max_steps(s.data.len() as int))
        } else {
            match create_linked(s, off + 16, target) {
                (t, Err(e)) => (t, Err(e)),
                (t, Ok(new)) => ensure_sibling(t, new, target, max_steps(s.data.len() as int)),
            }
        },
    }
}

/// The node reached from the node at `off` along `segs`, with the nodes that
/// are missing added.
pub open spec fn ensure_path(s: AreaState, off: int, segs: Seq<Seq<u8>>) -> (
    AreaState,
    Result<int, AreaFault>,
)
    decreases segs.len(),
{
    if segs.len() == 0 {
        (s, Ok(off))
    } else {
        match ensure_child(s, off, segs[0]) {
            (t, Err(e)) => (t, Err(e)),
            (t, Ok(next)) => ensure_path(t, next, segs.skip(1)),
        }
    }
}

/// The bytes of the message that stands in the slot of a long property.
pub open spec fn legacy_message() -> Seq<u8> {
    text_bytes(LONG_LEGACY_ERROR@)
}

pub proof fn lemma_legacy_message()
    ensures
        legacy_message().len() == 50,
        forall|i: int| 0 <= i < 50 ==> legacy_message()[i] != 0,
        valid_utf8(legacy_message()),
{
    reveal_strlit("Must use __system_property_read_callback() to read");
    is_ascii_chars_encode_utf8(LONG_LEGACY_ERROR@);
    encode_utf8_valid_utf8(LONG_LEGACY_ERROR@);
}

/// The data region with the slot of the record at `off` filled in for a long
/// value at `at`, and the value there.
pub open spec fn long_laid(d: Seq<u8>, off: int, at: int, value: Seq<u8>) -> Seq<u8> {
    put(
        put_u32(put(zero(d, off + 4, 92), off + 4, legacy_message()), off + 60, at - off),
        at,
        value,
    )
}

/// The data region with an inline value in the slot of the record at `off`.
pub open spec fn inline_laid(d: Seq<u8>, off: int, value: Seq<u8>) -> Seq<u8> {
    put(zero(d, off + 4, 92), off + 4, value)
}

/// Add an unlinked property record, its serial zero.
pub open spec fn create_record(s: AreaState, name: Seq<u8>, value: Seq<u8>) -> (
    AreaState,
    Result<int, AreaFault>,
) {
    if 97 + name.len() > max_object() {
        (s, Err(AreaFault::Corrupted("name too long"@)))
    } else {
        match allocate(s, 97 + name.len() as int) {
            (t, Err(e)) => (t, Err(e)),
            (t, Ok(off)) => if value.len() < 92 {
                (t.with(put(inline_laid(t.data, off, value), off + 96, name)), Ok(off))
            } else if value.len() + 1 > max_object() {
                (t, Err(AreaFault::Corrupted("value too large to store"@)))
            } else {
                match allocate(t, value.len() as int + 1) {
                    (u, Err(e)) => (u, Err(e)),
                    (u, Ok(at)) => (
                        u.with(put(long_laid(u.data, off, at, value), off + 96, name)),
                        Ok(off),
                    ),
                }
            },
        }
    }
}

/// The length that a serial records: that of an inline value, or that of the
/// message in the slot of a long one.
pub open spec fn serial_len(value: Seq<u8>, is_long: bool) -> Result<int, AreaFault> {
    if is_long {
        Ok(50)
    } else if value.len() > u32::MAX {
        Err(AreaFault::Corrupted("value length overflow"@))
    } else {
        Ok(value.len() as int)
    }
}

/// Give the node at `node` a new record.
pub open spec fn attach_record(s: AreaState, node: int, key: Seq<u8>, value: Seq<u8>) -> (
    AreaState,
    Result<WriteView, AreaFault>,
) {
    let is_long = value.len() >= 92;
    match serial_len(value, is_long) {
        Err(e) => (s, Err(e)),
        Ok(len) => match create_record(s, key, value) {
            (t, Err(e)) => (t, Err(e)),
            (t, Ok(off)) => (
                t.with(put_u32(t.data, node + 4, off)),
                Ok(
                    WriteView {
                        prop_offset: off,
                        serial: 0,
                        created: true,
                        serial_len: len,
                        is_long,
                    },
                ),
            ),
        },
    }
}

/// Zero the record at `off`, and its long value where it has one.
pub open spec fn wipe_record(d: Seq<u8>, off: int) -> (Seq<u8>, Result<(), AreaFault>) {
    match read_record(d, off) {
        Err(e) => (d, Err(e)),
        Ok(r) => {
            let e = if r.is_long {
                zero(d, r.value_offset, r.value.len() as int + 1)
            } else {
                d
            };
            (zero(zero(e, off + 96, r.name.len() as int + 1), off, 96), Ok(()))
        },
    }
}

/// Take the record at `off` away from the node at `node`.
pub open spec fn detach_record(d: Seq<u8>, node: int, off: int) -> (
    Seq<u8>,
    Result<(), AreaFault>,
) {
    wipe_record(put_u32(d, node + 4, 0), off)
}

/// Give the record at `off`, which belongs to the node at `node`, a new value.
///
/// A value that does not fit in the place of the old one gets a new record.
pub open spec fn replace_value(
    s: AreaState,
    node: int,
    off: int,
    key: Seq<u8>,
    value: Seq<u8>,
) -> (AreaState, Result<WriteView, AreaFault>) {
    let d = s.data;
    match read_record(d, off) {
        Err(e) => (s, Err(e)),
        Ok(r) => match serial_len(value, r.is_long) {
            Err(e) => (s, Err(e)),
            Ok(len) => {
                let kept = WriteView {
                    prop_offset: off,
                    serial: u32_at(d, off),
                    created: false,
                    serial_len: len,
                    is_long: r.is_long,
                };
                if r.is_long && value.len() <= r.value.len() {
                    (
                        s.with(put(zero(d, r.value_offset, r.value.len() as int + 1), r.value_offset, value)),
                        Ok(kept),
                    )
                } else if !r.is_long && value.len() < 92 {
                    (s.with(inline_laid(d, off, value)), Ok(kept))
                } else {
                    match detach_record(d, node, off) {
                        (e, Err(f)) => (s.with(e), Err(f)),
                        (e, Ok(_)) => attach_record(s.with(e), node, key, value),
                    }
                }
            },
        },
    }
}

/// Set the property called `key` without giving it a serial.
pub open spec fn set_value(s: AreaState, key: Seq<u8>, value: Seq<u8>) -> (
    AreaState,
    Result<WriteView, AreaFault>,
) {
    if !key_ok(key) {
        (s, Err(AreaFault::InvalidKey(key)))
    } else {
        match ensure_path(s, 0, segments(key)) {
            (t, Err(e)) => (t, Err(e)),
            (t, Ok(node)) => {
                let prop = u32_at(t.data, node + 4);
                if prop == 0 {
                    attach_record(t, node, key, value)
                } else {
                    replace_value(t, node, prop, key, value)
                }
            },
        }
    }
}

/// The serial of a new property.
pub open spec fn initial_serial(len: int, is_long: bool) -> int {
    len % 0x100 * 0x100_0000 + (if is_long {
        0x1_0000int
    } else {
        0
    })
}

/// The update counter that follows the one in `serial`: the next even number.
pub open spec fn next_counter(serial: int) -> int {
    (serial % 0x100_0000 / 2 * 2 + 2) % 0x100_0000
}

/// The serial of an updated property.
pub open spec fn updated_serial(old: int, len: int, is_long: bool) -> int {
    let c = next_counter(old);
    len % 0x100 * 0x100_0000 + (if is_long && c / 0x1_0000 % 2 == 0 {
        c + 0x1_0000
    } else {
        c
    })
}

/// Set the property called `key`.
pub open spec fn set_with_serial(s: AreaState, key: Seq<u8>, value: Seq<u8>) -> (
    AreaState,
    Result<(), AreaFault>,
) {
    match set_value(s, key, value) {
        (t, Err(e)) => (t, Err(e)),
        (t, Ok(w)) => {
            let serial = if w.created {
                initial_serial(w.serial_len, w.is_long)
            } else {
                updated_serial(w.serial, w.serial_len, w.is_long)
            };
            (t.with(put_u32(t.data, w.prop_offset, serial)), Ok(()))
        },
    }
}

/// Remove the nodes below `off` that lead to no property, and report whether
/// the node at `off` itself was removed. `depth` bounds the nodes on a path.
pub open spec fn prune(d: Seq<u8>, off: int, depth: nat) -> (Seq<u8>, Result<bool, AreaFault>)
    decreases depth, 0int,
{
    if depth == 0 {
        (d, Err(AreaFault::Corrupted("possible cycle while pruning trie"@)))
    } else {
        match read_node(d, off) {
            Err(e) => (d, Err(e)),
            Ok(n) => {
                let below = (depth - 1) as nat;
                match prune_link(d, off + 16, n.children, below) {
                    (d1, Err(e)) => (d1, Err(e)),
                    (d1, Ok(kids)) => match prune_link(d1, off + 8, n.left, below) {
                        (d2, Err(e)) => (d2, Err(e)),
                        (d2, Ok(left)) => match prune_link(d2, off + 12, n.right, below) {
                            (d3, Err(e)) => (d3, Err(e)),
                            (d3, Ok(right)) => if kids && left && right && u32_at(d3, off + 4) == 0 {
                                wipe_node(d3, off, n.namelen)
                            } else {
                                (d3, Ok(false))
                            },
                        },
                    },
                }
            },
        }
    }
}

/// Prune what the word at `at`, holding `link`, refers to; whether nothing is
/// left there.
pub open spec fn prune_link(d: Seq<u8>, at: int, link: int, depth: nat) -> (
    Seq<u8>,
    Result<bool, AreaFault>,
)
    decreases depth, 1int,
{
    if link == 0 {
        (d, Ok(true))
    } else {
        match prune(d, link, depth) {
            (e, Ok(true)) => (put_u32(e, at, 0), Ok(true)),
            (e, r) => (e, r),
        }
    }
}

/// Zero the node at `off`.
pub open spec fn wipe_node(d: Seq<u8>, off: int, namelen: int) -> (Seq<u8>, Result<bool, AreaFault>) {
    let n = if namelen == 0 {
        0
    } else {
        (namelen + 1) % 0x1_0000_0000
    };
    if off + 20 + n > d.len() {
        (d, Err(AreaFault::InvalidOffset(off + 20)))
    } else {
        (zero(zero(d, off + 20, n), off, 20), Ok(true))
    }
}

/// Pruning keeps the size of the region.
pub proof fn lemma_prune_len(d: Seq<u8>, off: int, depth: nat)
    ensures
        prune(d, off, depth).0.len() == d.len(),
    decreases depth, 0int,
{
    if depth > 0 && read_node(d, off) is Ok {
        let n = read_node(d, off)->Ok_0;
        let below = (depth - 1) as nat;
        lemma_prune_link_len(d, off + 16, n.children, below);
        let d1 = prune_link(d, off + 16, n.children, below).0;
        lemma_prune_link_len(d1, off + 8, n.left, below);
        let d2 = prune_link(d1, off + 8, n.left, below).0;
        lemma_prune_link_len(d2, off + 12, n.right, below);
    }
}

pub proof fn lemma_prune_link_len(d: Seq<u8>, at: int, link: int, depth: nat)
    ensures
        prune_link(d, at, link, depth).0.len() == d.len(),
    decreases depth, 1int,
{
    if link != 0 {
        lemma_prune_len(d, link, depth);
    }
}

/// Delete the property called `key`; whether there was one.
pub open spec fn delete(s: AreaState, key: Seq<u8>, pruned: bool) -> (
    AreaState,
    Result<bool, AreaFault>,
) {
    match find_node(s.data, key) {
        Err(e) => (s, Err(e)),
        Ok(None) => (s, Ok(false)),
        Ok(Some(node)) => {
            let prop = u32_at(s.data, node + 4);
            if prop == 0 {
                (s, Ok(false))
            } else {
                match detach_record(s.data, node, prop) {
                    (d, Err(e)) => (s.with(d), Err(e)),
                    (d, Ok(_)) => if !pruned {
                        (s.with(d), Ok(true))
                    } else {
                        match prune(d, 0, (d.len() + 1) as nat) {
                            (e, Err(f)) => (s.with(e), Err(f)),
                            (e, Ok(_)) => (s.with(e), Ok(true)),
                        }
                    },
                }
            }
        },
    }
}

} // verus!
