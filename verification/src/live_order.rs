//! In which order a shared area is written.
use crate::area_keys::{lemma_segments_join, lemma_segments_ok};
use crate::area_laws::good_key;
use crate::area_layout::{
    content_at, describes, lemma_lookup, lemma_node, node_bytes, well_formed, Layout,
};
use crate::area_state::{
    dot_index, key_ok, lemma_dot_index, long_serial, lookup_value, max_steps, name_order, segments,
    AreaFault,
};
use crate::bytes::{lemma_put_u32, u32_at, KeyOrder};
use crate::live_area::{
    dirty, hidden_serial, lemma_sibling_unchanged, live_add, live_child, live_find, live_linked,
    live_prune, live_prune_link, live_remove, live_sibling, live_traverse, live_update, live_upsert,
    live_wipe, live_wipe_node, value_slot, visible_serial, word, Live, MmapPropAreaError, OpView,
};
use crate::live_growth::{lemma_live_ensure_path, live_record};
use crate::live_laws::{
    held, law_update_refused, lemma_first_piece, lemma_live_find, lemma_live_kids, mirrors,
};
use vstd::prelude::*;

verus! {

/// The operation writes bytes between `from` and `to` only.
pub open spec fn writes_within(op: OpView, from: int, to: int) -> bool {
    match op {
        OpView::Bytes(at, b) => from <= at && at + b.len() <= to,
        OpView::Zero(at, n) => from <= at && at + n <= to,
        _ => false,
    }
}

/// How a value is replaced while others read it: the serial becomes odd, then only
/// the place of the value is written. Behind a fence the serial is even and shows
/// the update, those who wait for the property and for any change are woken, and
/// behind another fence the serial hides the update.
pub proof fn law_update_order(l: Live, off: int, value: Seq<u8>)
    requires
        live_update(l, off, value).1 is Ok,
    ensures
        ({
            let ops = live_update(l, off, value).0.ops;
            let slot = value_slot(l.data, off)->Ok_0;
            let old = u32_at(l.data, off);
            let len = if slot.is_long {
                50
            } else {
                value.len() as int
            };
            let n = l.ops.len() as int;
            let k = ops.len() - 6;
            &&& n < k
            &&& ops.take(n) == l.ops
            &&& ops[n] == OpView::StoreRelaxed(off, dirty(old))
            &&& forall|i: int|
                n < i < k ==> writes_within(
                    #[trigger] ops[i],
                    slot.at,
                    slot.at + slot.room + 1,
                )
            &&& ops[k] == OpView::ReleaseFence
            &&& ops[k + 1] == OpView::StoreRelaxed(
                off,
                visible_serial(dirty(old), len, slot.is_long),
            )
            &&& ops[k + 2] == OpView::Wake(off)
            &&& ops[k + 3] == OpView::BumpGlobalSerial
            &&& ops[k + 4] == OpView::ReleaseFence
            &&& ops[k + 5] == OpView::StoreRelaxed(
                off,
                hidden_serial(dirty(old), len, slot.is_long),
            )
        }),
{
    law_update_refused(l, off, value);
    reveal(live_update);
    reveal(Live::emit);
    let ops = live_update(l, off, value).0.ops;
    assert(ops.take(l.ops.len() as int) =~= l.ops);
}

/// The operation leaves the bytes in front of `used` as they are, but for words
/// that come to refer to something behind it.
pub open spec fn keeps_front(op: OpView, used: int) -> bool {
    match op {
        OpView::Bytes(at, _) => at >= used,
        OpView::Zero(at, _) => at >= used,
        OpView::Word(at, _) => at >= used,
        OpView::StoreRelaxed(at, _) => at >= used,
        OpView::StoreRelease(_, to) => to >= used,
        OpView::StoreUsed(u) => u >= used,
        _ => true,
    }
}

/// From `l` to `m`, nothing in front of the mark `used` was written but for words
/// that came to refer to something behind it.
pub open spec fn only_adds(l: Live, m: Live, used: int) -> bool {
    &&& l.used <= m.used
    &&& l.ops.len() <= m.ops.len()
    &&& m.ops.take(l.ops.len() as int) == l.ops
    &&& forall|i: int| l.ops.len() <= i < m.ops.len() ==> keeps_front(#[trigger] m.ops[i], used)
}

proof fn lemma_adds_on(l: Live, m: Live, k: Live, used: int)
    requires
        only_adds(l, m, used),
        only_adds(m, k, used),
    ensures
        only_adds(l, k, used),
{
    let n = l.ops.len() as int;
    let j = m.ops.len() as int;
    assert(k.ops.take(n) =~= l.ops) by {
        assert forall|i: int| 0 <= i < n implies k.ops[i] == l.ops[i] by {
            assert(k.ops.take(j)[i] == m.ops[i]);
            assert(m.ops.take(n)[i] == l.ops[i]);
        }
    }
    assert forall|i: int| n <= i < k.ops.len() implies keeps_front(#[trigger] k.ops[i], used) by {
        if i < j {
            assert(k.ops.take(j)[i] == m.ops[i]);
        }
    }
}

proof fn lemma_adds_none(l: Live, used: int)
    ensures
        only_adds(l, l, used),
{
    assert(l.ops.take(l.ops.len() as int) =~= l.ops);
}

proof fn lemma_linked_adds(l: Live, at: int, y: Seq<u8>, used: int)
    requires
        used <= l.used,
        0 <= y.len(),
    ensures
        only_adds(l, live_linked(l, at, y).0, used),
{
    reveal(Live::emit);
    let m = live_linked(l, at, y).0;
    assert(m.ops.take(l.ops.len() as int) =~= l.ops);
}

proof fn lemma_sibling_adds(l: Live, off: int, key: Seq<u8>, steps: nat, used: int)
    requires
        used <= l.used,
    ensures
        only_adds(l, live_sibling(l, off, key, true, steps).0, used),
    decreases steps,
{
    lemma_adds_none(l, used);
    let n = u32_at(l.data, off);
    if steps > 0 && off + 20 + n <= l.data.len() {
        let less = (steps - 1) as nat;
        match name_order(key, l.data.subrange(off + 20, off + 20 + n)) {
            KeyOrder::Equal => {},
            KeyOrder::Less => {
                if u32_at(l.data, off + 8) != 0 {
                    lemma_sibling_adds(l, u32_at(l.data, off + 8), key, less, used);
                } else {
                    lemma_linked_adds(l, off + 8, key, used);
                }
            },
            KeyOrder::Greater => {
                if u32_at(l.data, off + 12) != 0 {
                    lemma_sibling_adds(l, u32_at(l.data, off + 12), key, less, used);
                } else {
                    lemma_linked_adds(l, off + 12, key, used);
                }
            },
        }
    }
}

proof fn lemma_child_adds(l: Live, off: int, piece: Seq<u8>, used: int)
    requires
        used <= l.used,
    ensures
        only_adds(l, live_child(l, off, piece, true).0, used),
{
    lemma_adds_none(l, used);
    let steps = max_steps(l.data.len() as int);
    if piece.len() > 0 {
        if let Some(children) = word(l.data, off + 16) {
            if children != 0 {
                lemma_sibling_adds(l, children, piece, steps, used);
            } else {
                lemma_linked_adds(l, off + 16, piece, used);
                let (m, r) = live_linked(l, off + 16, piece);
                if let Ok(Some(new)) = r {
                    lemma_sibling_adds(m, new, piece, steps, used);
                    lemma_adds_on(l, m, live_sibling(m, new, piece, true, steps).0, used);
                }
            }
        }
    }
}

proof fn lemma_traverse_adds(l: Live, off: int, rest: Seq<u8>, used: int)
    requires
        used <= l.used,
    ensures
        only_adds(l, live_traverse(l, off, rest, true).0, used),
    decreases rest.len(),
{
    let dot = dot_index(rest, 0);
    lemma_dot_index(rest, 0);
    lemma_child_adds(l, off, rest.take(dot), used);
    if let (m, Ok(Some(next))) = live_child(l, off, rest.take(dot), true) {
        if dot < rest.len() {
            lemma_traverse_adds(m, next, rest.skip(dot + 1), used);
            lemma_adds_on(l, m, live_traverse(m, next, rest.skip(dot + 1), true).0, used);
        }
    }
}

proof fn lemma_record_adds(l: Live, name: Seq<u8>, value: Seq<u8>, used: int)
    requires
        used <= l.used,
    ensures
        only_adds(l, live_record(l, name, value).0, used),
        live_record(l, name, value).1 matches Some(off) ==> off >= used,
{
    reveal(Live::emit);
    let m = live_record(l, name, value).0;
    assert(m.ops.take(l.ops.len() as int) =~= l.ops);
}

/// How a property is added while others read the area: nothing that is in use is
/// written, but for words that come to refer to something new. The last of them
/// is the one by which the record is found; behind it only the change is told.
pub proof fn law_addition_order(l: Live, key: Seq<u8>, value: Seq<u8>)
    requires
        well_formed(held(l)),
        good_key(key),
        lookup_value(l.data, key) == Ok::<Option<Seq<u8>>, AreaFault>(None),
        live_upsert(l, key, value).1 is Ok,
    ensures
        ({
            let m = live_upsert(l, key, value).0;
            let n = m.ops.len() as int;
            &&& only_adds(l, m, l.used)
            &&& n >= l.ops.len() + 2
            &&& m.ops[n - 1] == OpView::BumpGlobalSerial
            &&& (m.ops[n - 2] matches OpView::StoreRelease(at, off) && off >= l.used && u32_at(
                m.data,
                at,
            ) == off)
        }),
{
    let s = held(l);
    let g = choose|g: Layout| #[trigger] describes(g, s);
    assert(mirrors(l, s));
    lemma_lookup(s, g, key);
    lemma_live_find(l, s, g, key);
    lemma_segments_ok(key);
    lemma_segments_join(key);
    lemma_node(s, g, 0);
    let path = segments(key);
    let h = lemma_live_ensure_path(l, g, 0, key);
    let (m, r) = live_traverse(l, 0, key, true);
    assert(g.nodes[0].path + path =~= path);
    lemma_traverse_adds(l, 0, key, l.used);
    if let Ok(Some(x)) = r {
        lemma_node(held(m), h, x);
        lemma_live_kids(held(m), h, x);
        assert(content_at(h, path) == content_at(g, path));
        assert(u32_at(m.data, x + 4) == 0) by {
            reveal(node_bytes);
        }
        lemma_added(l, m, x, key, value);
    }
}

/// The end of an addition.
proof fn lemma_added(l: Live, m: Live, x: int, key: Seq<u8>, value: Seq<u8>)
    requires
        0 <= x,
        x + 8 <= m.data.len(),
        m.data.len() <= u32::MAX,
        only_adds(l, m, l.used),
        live_traverse(l, 0, key, true) == (m, Ok::<Option<int>, MmapPropAreaError>(Some(x))),
        u32_at(m.data, x + 4) == 0,
        0 <= m.used,
        live_add(l, key, value).1 is Ok,
    ensures
        ({
            let k = live_add(l, key, value).0;
            let n = k.ops.len() as int;
            &&& only_adds(l, k, l.used)
            &&& n >= l.ops.len() + 2
            &&& k.ops[n - 1] == OpView::BumpGlobalSerial
            &&& (k.ops[n - 2] matches OpView::StoreRelease(at, off) && off >= l.used && u32_at(
                k.data,
                at,
            ) == off)
        }),
{
    lemma_record_adds(m, key, value, l.used);
    let (j, made) = live_record(m, key, value);
    let off = made->0;
    let k = live_add(l, key, value).0;
    assert(k == j.emit(OpView::StoreRelease(x + 4, off)).emit(OpView::BumpGlobalSerial));
    lemma_record_place(m, key, value);
    assert(only_adds(j, k, l.used)) by {
        reveal(Live::emit);
        assert(k.ops.take(j.ops.len() as int) =~= j.ops);
    }
    lemma_adds_on(l, m, j, l.used);
    lemma_adds_on(l, j, k, l.used);
    assert(u32_at(k.data, x + 4) == off) by {
        reveal(Live::emit);
        lemma_put_u32(j.data, x + 4, off);
    }
    assert(k.ops[k.ops.len() - 1] == OpView::BumpGlobalSerial && k.ops[k.ops.len() - 2]
        == OpView::StoreRelease(x + 4, off)) by {
        reveal(Live::emit);
    }
    assert(k.ops.len() == j.ops.len() + 2) by {
        reveal(Live::emit);
    }
}

/// Where a record is put.
proof fn lemma_record_place(m: Live, key: Seq<u8>, value: Seq<u8>)
    requires
        0 <= m.used,
        live_record(m, key, value).1 is Some,
    ensures
        live_record(m, key, value).1 == Some(m.used),
        m.used <= m.data.len(),
        live_record(m, key, value).0.data.len() == m.data.len(),
{
    reveal(Live::emit);
}

/// How a property is removed while others read the area: before anything else, the
/// word by which its record was found lets go of it.
pub proof fn law_removal_order(l: Live, key: Seq<u8>, prune: bool)
    requires
        live_remove(l, key, prune).1 == Ok::<bool, MmapPropAreaError>(true),
    ensures
        ({
            let ops = live_remove(l, key, prune).0.ops;
            let n = l.ops.len() as int;
            &&& ops.len() > n
            &&& ops.take(n) == l.ops
            &&& live_find(l, key) matches Ok(Some(off))
            &&& (ops[n] matches OpView::StoreRelease(at, to) && to == 0 && Some(u32_at(l.data, at))
                == live_find(l, key)->Ok_0)
        }),
{
    let node = live_traverse(l, 0, key, false).1->Ok_0->0;
    let prop = u32_at(l.data, node + 4);
    let first = l.emit(OpView::StoreRelease(node + 4, 0));
    let is_long = long_serial(u32_at(l.data, prop));
    let (m, r) = live_wipe(first, prop, is_long);
    lemma_wipe_extends(first, prop, is_long);
    if prune {
        lemma_prune_extends(m, 0, (m.data.len() + 1) as nat);
        lemma_extends_on(first, m, live_prune(m, 0, (m.data.len() + 1) as nat).0);
    }
    let k = live_remove(l, key, prune).0;
    assert(extends(first, k));
    assert(first.ops == l.ops.push(OpView::StoreRelease(node + 4, 0))) by {
        reveal(Live::emit);
    }
    let n = l.ops.len() as int;
    assert(k.ops.take(n + 1)[n] == first.ops[n]);
    assert(k.ops.take(n) =~= l.ops) by {
        assert forall|i: int| 0 <= i < n implies k.ops[i] == l.ops[i] by {
            assert(k.ops.take(n + 1)[i] == first.ops[i]);
        }
    }
}

/// The operations of `l` are the first ones of `m`.
spec fn extends(l: Live, m: Live) -> bool {
    l.ops.len() <= m.ops.len() && m.ops.take(l.ops.len() as int) == l.ops
}

proof fn lemma_extends_on(l: Live, m: Live, k: Live)
    requires
        extends(l, m),
        extends(m, k),
    ensures
        extends(l, k),
{
    let n = l.ops.len() as int;
    let j = m.ops.len() as int;
    assert forall|i: int| 0 <= i < n implies k.ops[i] == l.ops[i] by {
        assert(k.ops.take(j)[i] == m.ops[i]);
        assert(m.ops.take(n)[i] == l.ops[i]);
    }
    assert(k.ops.take(n) =~= l.ops);
}

proof fn lemma_wipe_extends(l: Live, off: int, is_long: bool)
    ensures
        extends(l, live_wipe(l, off, is_long).0),
{
    reveal(Live::emit);
    let m = live_wipe(l, off, is_long).0;
    assert(m.ops.take(l.ops.len() as int) =~= l.ops);
}

proof fn lemma_wipe_node_extends(l: Live, off: int)
    ensures
        extends(l, live_wipe_node(l, off)),
{
    reveal(Live::emit);
    let m = live_wipe_node(l, off);
    assert(m.ops.take(l.ops.len() as int) =~= l.ops);
}

proof fn lemma_prune_extends(l: Live, off: int, depth: nat)
    ensures
        extends(l, live_prune(l, off, depth).0),
    decreases depth, 0int,
{
    assert(l.ops.take(l.ops.len() as int) =~= l.ops);
    if depth > 0 && off + 20 <= l.data.len() {
        let below = (depth - 1) as nat;
        lemma_prune_link_extends(l, off + 16, below);
        let (l1, r1) = live_prune_link(l, off + 16, below);
        if r1 is Ok {
            lemma_prune_link_extends(l1, off + 8, below);
            let (l2, r2) = live_prune_link(l1, off + 8, below);
            lemma_extends_on(l, l1, l2);
            if r2 is Ok {
                lemma_prune_link_extends(l2, off + 12, below);
                let (l3, r3) = live_prune_link(l2, off + 12, below);
                lemma_extends_on(l, l2, l3);
                lemma_wipe_node_extends(l3, off);
                lemma_extends_on(l, l3, live_wipe_node(l3, off));
            }
        }
    }
}

proof fn lemma_prune_link_extends(l: Live, at: int, depth: nat)
    ensures
        extends(l, live_prune_link(l, at, depth).0),
    decreases depth, 1int,
{
    let link = u32_at(l.data, at);
    assert(l.ops.take(l.ops.len() as int) =~= l.ops);
    if link != 0 {
        lemma_prune_extends(l, link, depth);
        let m = live_prune(l, link, depth).0;
        let k = m.emit(OpView::StoreRelease(at, 0));
        assert(extends(m, k)) by {
            reveal(Live::emit);
            assert(k.ops.take(m.ops.len() as int) =~= m.ops);
        }
        lemma_extends_on(l, m, k);
    }
}

/// A key with an empty piece leads to no node.
proof fn lemma_bad_key(l: Live, off: int, rest: Seq<u8>, alloc: bool)
    requires
        !key_ok(rest),
    ensures
        !(live_traverse(l, off, rest, alloc).1 matches Ok(Some(_))),
    decreases rest.len(),
{
    let dot = dot_index(rest, 0);
    lemma_dot_index(rest, 0);
    lemma_first_piece(rest);
    let piece = rest.take(dot);
    let segs = segments(rest);
    if piece.len() > 0 {
        if dot < rest.len() {
            let tail = rest.skip(dot + 1);
            if key_ok(tail) {
                let next = segments(tail);
                assert forall|i: int| 0 <= i < segs.len() implies (#[trigger] segs[i]).len() > 0 by {
                    if i > 0 {
                        assert(segs.skip(1)[i - 1] == segs[i]);
                        assert(next[i - 1].len() > 0);
                    }
                }
            }
            if let (m, Ok(Some(next))) = live_child(l, off, piece, alloc) {
                lemma_bad_key(m, next, tail, alloc);
            }
        } else {
            assert(segs.len() == 1) by {
                assert(segs.skip(1).len() == segs.len() - 1);
            }
            assert(key_ok(rest));
        }
    }
}

/// A property whose key has an empty piece is never found in a shared area, cannot
/// be written to it, and is not removed from it.
pub proof fn law_live_bad_key(l: Live, key: Seq<u8>, value: Seq<u8>, prune: bool)
    requires
        !key_ok(key),
    ensures
        !(live_find(l, key) matches Ok(Some(_))),
        live_upsert(l, key, value).1 is Err,
        live_remove(l, key, prune).0 == l,
        live_remove(l, key, prune).1 != Ok::<bool, MmapPropAreaError>(true),
{
    lemma_bad_key(l, 0, key, false);
    lemma_bad_key(l, 0, key, true);
}

/// A sibling that is there is not added.
proof fn lemma_sibling_there(l: Live, off: int, key: Seq<u8>, steps: nat)
    requires
        live_sibling(l, off, key, false, steps).1 matches Ok(Some(_)),
    ensures
        live_sibling(l, off, key, true, steps) == (l, live_sibling(l, off, key, false, steps).1),
    decreases steps,
{
    let n = u32_at(l.data, off);
    match name_order(key, l.data.subrange(off + 20, off + 20 + n)) {
        KeyOrder::Equal => {},
        KeyOrder::Less => {
            lemma_sibling_there(l, u32_at(l.data, off + 8), key, (steps - 1) as nat);
        },
        KeyOrder::Greater => {
            lemma_sibling_there(l, u32_at(l.data, off + 12), key, (steps - 1) as nat);
        },
    }
}

/// Nodes that are there are not added.
proof fn lemma_path_there(l: Live, off: int, rest: Seq<u8>)
    requires
        live_traverse(l, off, rest, false).1 matches Ok(Some(_)),
    ensures
        live_traverse(l, off, rest, true) == (l, live_traverse(l, off, rest, false).1),
    decreases rest.len(),
{
    let dot = dot_index(rest, 0);
    lemma_dot_index(rest, 0);
    let piece = rest.take(dot);
    let children = u32_at(l.data, off + 16);
    lemma_sibling_there(l, children, piece, max_steps(l.data.len() as int));
    lemma_sibling_unchanged(l, children, piece, max_steps(l.data.len() as int));
    if let (m, Ok(Some(next))) = live_child(l, off, piece, false) {
        if dot < rest.len() {
            lemma_path_there(l, next, rest.skip(dot + 1));
        }
    }
}

/// Adding a property that is there updates it: adding does what writing does.
pub proof fn law_add_or_update(l: Live, key: Seq<u8>, value: Seq<u8>)
    requires
        live_find(l, key) is Ok,
    ensures
        live_add(l, key, value) == live_upsert(l, key, value),
        live_find(l, key) matches Ok(Some(off)) ==> live_add(l, key, value) == live_update(
            l,
            off,
            value,
        ),
{
    if let Ok(Some(off)) = live_find(l, key) {
        lemma_path_there(l, 0, key);
    }
}

} // verus!
