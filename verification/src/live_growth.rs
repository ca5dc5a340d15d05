//! Shared areas stay well formed as properties are added to them.
//!
//! A shared write fills in what belongs to an object and leaves the bytes between
//! objects as they are, whatever stands there.
use crate::area_edit::{
    attach_record, create_linked, initial_serial, inline_laid, legacy_message, lemma_legacy_message,
    long_laid, node_laid,
};
use crate::area_growth::{
    agree, fresh_node, has_place, lacks, lemma_child_place, lemma_missing_below, lemma_path_room,
    missing_nodes, new_room, lemma_grown_values, lemma_kept_all,
    lemma_kept_grown, lemma_kept_on, lemma_sibling_place, lemma_string_same, lemma_with_node,
    lemma_word_same, records_kept, same_values, with_node,
};
use crate::area_keys::{lemma_segments_join, lemma_segments_ok, path_ok};
use crate::area_laws::{
    good_key, lemma_spare_room, others_stay, record_room, set_content, shown_len,
};
use crate::area_layout::{
    between, content_at, describes, join, lemma_child_behind, lemma_name_irreflexive,
    lemma_name_total, lemma_node, long_size, name_of, node_bytes, node_fits, node_size, plain_text,
    rec_bytes_at, rec_fits, rec_size, segment_ok, sibling_path, Layout, NodeInfo, Owner, RecInfo,
};
use crate::area_records::{attached, lemma_attach, new_record};
use crate::area_state::{
    dot_index, lemma_dot_index, long_serial, max_steps, name_order, segments, AreaState,
};
use crate::bytes::{lemma_le_bytes, put, put_u32, u32_at, zero, KeyOrder};
use crate::live_area::{
    live_add, live_child, live_inline_record, live_linked, live_long_record, live_sibling,
    live_traverse, whole_words, Live, MmapPropAreaError, MmapResult,
};
use crate::live_laws::{held, lemma_first_piece, lemma_live_kids, lemma_live_name};
use crate::prop_info::align4;
use vstd::prelude::*;

verus! {

/// How many bytes of a node hold something.
pub open spec fn node_extent(n: NodeInfo) -> int {
    if name_of(n).len() == 0 {
        20
    } else {
        21 + name_of(n).len() as int
    }
}

/// The byte at `b` holds something of the record `r` at `p`.
pub open spec fn in_record(p: int, r: RecInfo, b: int) -> bool {
    ||| p <= b < p + 4
    ||| p + 96 <= b <= p + 96 + r.name.len()
    ||| if r.long is Some {
        p + 60 <= b < p + 64
    } else {
        p + 4 <= b <= p + 4 + r.value.len()
    }
}

/// The byte at `b` holds something of the object that it belongs to.
pub open spec fn filled(g: Layout, b: int) -> bool {
    match (g.own)(b) {
        Owner::Node(o) => b < o + node_extent(g.nodes[o]),
        Owner::Record(p) => in_record(p, g.recs[p], b),
        Owner::Long(p) => b <= g.recs[p].long->0 + g.recs[p].value.len(),
    }
}

/// The areas are alike but for bytes that hold nothing.
pub open spec fn alike_where_filled(g: Layout, s: AreaState, t: AreaState) -> bool {
    &&& t.used == s.used
    &&& t.data.len() == s.data.len()
    &&& forall|b: int| 0 <= b < s.used && filled(g, b) ==> #[trigger] t.data[b] == s.data[b]
}

/// A node depends on the bytes that hold something of it.
proof fn lemma_node_alike(g: Layout, s: AreaState, t: AreaState, o: int)
    requires
        describes(g, s),
        alike_where_filled(g, s, t),
        g.nodes.dom().contains(o),
    ensures
        node_bytes(t.data, o, g.nodes[o]),
{
    assert(node_fits(s, g, o));
    reveal(node_bytes);
    let n = g.nodes[o];
    let e = node_extent(n);
    assert(agree(s.data, t.data, o, e)) by {
        assert forall|b: int| o <= b < o + e implies #[trigger] t.data[b] == s.data[b] by {
            assert((g.own)(b) == Owner::Node(o));
            assert(filled(g, b));
        }
    }
    lemma_word_same(s.data, t.data, o, e, o);
    lemma_word_same(s.data, t.data, o, e, o + 4);
    lemma_word_same(s.data, t.data, o, e, o + 8);
    lemma_word_same(s.data, t.data, o, e, o + 12);
    lemma_word_same(s.data, t.data, o, e, o + 16);
    if name_of(n).len() > 0 {
        lemma_string_same(s.data, t.data, o, e, o + 20, name_of(n));
    }
}

/// A record depends on the bytes that hold something of it.
proof fn lemma_rec_alike(g: Layout, s: AreaState, t: AreaState, p: int)
    requires
        describes(g, s),
        alike_where_filled(g, s, t),
        g.recs.dom().contains(p),
    ensures
        rec_fits(t, g, p),
{
    assert(rec_fits(s, g, p));
    reveal(rec_bytes_at);
    let d = s.data;
    let e = t.data;
    let r = g.recs[p];
    let n = r.name.len() as int;
    let v = r.value.len() as int;
    assert forall|b: int| p <= b < p + rec_size(n) && in_record(p, r, b) implies #[trigger] e[b]
        == d[b] by {
        assert((g.own)(b) == Owner::Record(p));
        assert(filled(g, b));
    }
    assert(agree(d, e, p, 4));
    lemma_word_same(d, e, p, 4, p);
    assert(agree(d, e, p + 96, n + 1));
    lemma_string_same(d, e, p + 96, n + 1, p + 96, r.name);
    match r.long {
        None => {
            assert(agree(d, e, p + 4, v + 1));
            lemma_string_same(d, e, p + 4, v + 1, p + 4, r.value);
        },
        Some(at) => {
            assert(agree(d, e, p + 60, 4));
            lemma_word_same(d, e, p + 60, 4, p + 60);
            assert(agree(d, e, at, v + 1)) by {
                assert forall|b: int| at <= b < at + v + 1 implies #[trigger] e[b] == d[b] by {
                    assert((g.own)(b) == Owner::Long(p));
                    assert(filled(g, b));
                }
            }
            lemma_string_same(d, e, at, v + 1, at, r.value);
        },
    }
}

/// What a layout says of an area does not depend on bytes that hold nothing.
proof fn lemma_alike(g: Layout, s: AreaState, t: AreaState)
    requires
        describes(g, s),
        alike_where_filled(g, s, t),
    ensures
        describes(g, t),
{
    assert forall|o: int| g.nodes.dom().contains(o) implies #[trigger] node_fits(t, g, o) by {
        assert(node_fits(s, g, o));
        lemma_node_alike(g, s, t, o);
    }
    assert forall|p: int| g.recs.dom().contains(p) implies #[trigger] rec_fits(t, g, p) by {
        lemma_rec_alike(g, s, t, p);
    }
}

/// The records stay in an area that is alike up to the fill mark of before.
proof fn lemma_kept_alike(s: AreaState, g: Layout, t: AreaState, u: AreaState, h: Layout)
    requires
        records_kept(s, g, t, h),
        forall|b: int| 0 <= b < s.used ==> #[trigger] u.data[b] == t.data[b],
    ensures
        records_kept(s, g, u, h),
{
    reveal(records_kept);
}

/// The bytes of a shared area after a node was added to it.
spec fn node_written(d: Seq<u8>, off: int, at: int, y: Seq<u8>) -> Seq<u8> {
    let n = y.len() as int;
    let d5 = put_u32(
        put_u32(put_u32(put_u32(put_u32(d, off, n), off + 4, 0), off + 8, 0), off + 12, 0),
        off + 16,
        0,
    );
    put_u32(zero(put(d5, off + 20, y), off + 20 + n, 1), at, off)
}

/// Up to the end of its name, a node is written as it is laid out.
proof fn lemma_node_written(d: Seq<u8>, off: int, at: int, y: Seq<u8>, size: int)
    requires
        0 <= at,
        at + 4 <= off,
        off + 21 + y.len() <= off + size <= d.len() <= u32::MAX,
    ensures
        ({
            let e = node_written(d, off, at, y);
            let f = put_u32(node_laid(zero(d, off, size), off, y), at, off);
            &&& e.len() == d.len()
            &&& forall|b: int| 0 <= b < off + 21 + y.len() ==> #[trigger] e[b] == f[b]
        }),
{
    let n = y.len() as int;
    lemma_le_bytes(n);
    lemma_le_bytes(0);
    lemma_le_bytes(off);
}

/// What a shared area is after a node was added to it.
proof fn lemma_linked_data(l: Live, at: int, y: Seq<u8>)
    requires
        l.used + whole_words(21 + y.len() as int) <= l.data.len(),
    ensures
        ({
            let (m, r) = live_linked(l, at, y);
            &&& r == MmapResult::Ok(Some(l.used))
            &&& m.used == l.used + whole_words(21 + y.len() as int)
            &&& m.data == node_written(l.data, l.used, at, y)
        }),
{
    reveal(Live::emit);
}

/// What adding nodes to a shared area keeps.
pub open spec fn live_grows(l: Live, g: Layout, m: Live, h: Layout) -> bool {
    &&& describes(h, held(m))
    &&& same_values(g, h)
    &&& records_kept(held(l), g, held(m), h)
    &&& l.used <= m.used
    &&& m.data.len() == l.data.len()
}

/// Adding a node keeps a shared area well formed.
proof fn lemma_live_linked(l: Live, g: Layout, x: int, slot: int, y: Seq<u8>) -> (h: Layout)
    requires
        has_place(held(l), g, x, slot, y),
    ensures
        ({
            let (m, r) = live_linked(l, x + slot, y);
            &&& live_grows(l, g, m, h)
            &&& match r {
                Ok(Some(c)) => {
                    &&& h.nodes.dom().contains(c)
                    &&& c > 0
                    &&& h.nodes[c] == fresh_node(g, x, slot, y)
                    &&& h.index.dom() == g.index.dom().insert(h.nodes[c].path)
                    &&& m.used == l.used + node_size(y.len() as int)
                },
                Ok(None) => false,
                Err(e) => {
                    &&& e == MmapPropAreaError::AreaFull
                    &&& m == l
                    &&& lacks(held(l), node_size(y.len() as int))
                },
            }
        }),
{
    let s = held(l);
    let n = y.len() as int;
    lemma_node(s, g, x);
    lemma_kept_all(s, g);
    let size = whole_words(21 + n);
    assert(size == node_size(n));
    if s.used + size <= s.data.len() {
        lemma_linked_data(l, x + slot, y);
        let m = live_linked(l, x + slot, y).0;
        let t = create_linked(s, x + slot, y).0;
        assert(create_linked(s, x + slot, y).1 is Ok);
        lemma_with_node(s, g, x, slot, y);
        lemma_grown_values(s, g, x, slot, y);
        lemma_kept_grown(s, g, x, slot, y);
        let h = with_node(g, x, slot, y, s.used, t.used);
        lemma_node_written(s.data, s.used, x + slot, y, size);
        assert(name_of(h.nodes[s.used]) == y);
        assert(alike_where_filled(h, t, held(m))) by {
            assert forall|b: int| 0 <= b < t.used && filled(h, b) implies #[trigger] m.data[b]
                == t.data[b] by {
                if b >= s.used {
                    assert((h.own)(b) == Owner::Node(s.used));
                }
            }
        }
        lemma_alike(h, t, held(m));
        lemma_kept_alike(s, g, t, held(m), h);
        h
    } else {
        g
    }
}

/// Looking for a sibling, and adding it where there is none, keeps a shared area
/// well formed and the values as they are.
proof fn lemma_live_ensure_sibling(l: Live, g: Layout, o: int, y: Seq<u8>, steps: nat) -> (h:
    Layout)
    requires
        describes(g, held(l)),
        g.nodes.dom().contains(o),
        o != 0,
        segment_ok(y),
        between(g.nodes[o].lo, y, g.nodes[o].hi),
        o + 20 * steps >= l.data.len(),
    ensures
        ({
            let (m, r) = live_sibling(l, o, y, true, steps);
            &&& live_grows(l, g, m, h)
            &&& match r {
                Ok(Some(c)) => {
                    &&& h.nodes.dom().contains(c)
                    &&& h.nodes[c].path == sibling_path(g.nodes[o], y)
                    &&& h.index.dom() == g.index.dom().insert(sibling_path(g.nodes[o], y))
                    &&& m.used == l.used + new_room(g, sibling_path(g.nodes[o], y))
                },
                Ok(None) => false,
                Err(e) => e == MmapPropAreaError::AreaFull && lacks(
                    held(l),
                    new_room(g, sibling_path(g.nodes[o], y)),
                ),
            }
        }),
    decreases steps,
{
    let s = held(l);
    lemma_kept_all(s, g);
    lemma_node(s, g, o);
    lemma_live_name(s, g, o);
    let n = g.nodes[o];
    if steps == 0 {
        assert(false);
        g
    } else {
        lemma_name_total(y, name_of(n));
        match name_order(y, name_of(n)) {
            KeyOrder::Equal => {
                assert(sibling_path(n, y) =~= n.path);
                g
            },
            KeyOrder::Less => {
                if n.left == 0 {
                    lemma_sibling_place(s, g, o, 8, y);
                    lemma_live_linked(l, g, o, 8, y)
                } else {
                    lemma_child_behind(s, g, o, 8);
                    lemma_live_ensure_sibling(l, g, n.left, y, (steps - 1) as nat)
                }
            },
            KeyOrder::Greater => {
                if n.right == 0 {
                    lemma_sibling_place(s, g, o, 12, y);
                    lemma_live_linked(l, g, o, 12, y)
                } else {
                    lemma_child_behind(s, g, o, 12);
                    lemma_live_ensure_sibling(l, g, n.right, y, (steps - 1) as nat)
                }
            },
        }
    }
}

/// Adding the first child of a node of a shared area.
proof fn lemma_live_add_child(l: Live, g: Layout, o: int, y: Seq<u8>) -> (h: Layout)
    requires
        describes(g, held(l)),
        g.nodes.dom().contains(o),
        g.nodes[o].kids == 0,
        segment_ok(y),
    ensures
        ({
            let (m, r) = live_child(l, o, y, true);
            &&& live_grows(l, g, m, h)
            &&& match r {
                Ok(Some(c)) => {
                    &&& h.nodes.dom().contains(c)
                    &&& h.nodes[c].path == g.nodes[o].path.push(y)
                    &&& h.index.dom() == g.index.dom().insert(g.nodes[o].path.push(y))
                    &&& m.used == l.used + new_room(g, g.nodes[o].path.push(y))
                },
                Ok(None) => false,
                Err(e) => e == MmapPropAreaError::AreaFull && lacks(
                    held(l),
                    new_room(g, g.nodes[o].path.push(y)),
                ),
            }
        }),
{
    let s = held(l);
    lemma_live_kids(s, g, o);
    lemma_node(s, g, o);
    lemma_child_place(s, g, o, y);
    let h = lemma_live_linked(l, g, o, 16, y);
    let (m, r) = live_linked(l, o + 16, y);
    if let Ok(Some(c)) = r {
        // The new node is the sibling that is looked for.
        assert(name_of(h.nodes[c]) == y);
        lemma_live_name(held(m), h, c);
        lemma_name_total(y, y);
        assert(name_order(y, y) is Equal) by {
            lemma_name_irreflexive(y);
        }
    }
    h
}

/// Looking for a child, and adding it where there is none, keeps a shared area
/// well formed and the values as they are.
proof fn lemma_live_ensure_child(l: Live, g: Layout, o: int, y: Seq<u8>) -> (h: Layout)
    requires
        describes(g, held(l)),
        g.nodes.dom().contains(o),
        segment_ok(y),
    ensures
        ({
            let (m, r) = live_child(l, o, y, true);
            &&& live_grows(l, g, m, h)
            &&& match r {
                Ok(Some(c)) => {
                    &&& h.nodes.dom().contains(c)
                    &&& h.nodes[c].path == g.nodes[o].path.push(y)
                    &&& h.index.dom() == g.index.dom().insert(g.nodes[o].path.push(y))
                    &&& m.used == l.used + new_room(g, g.nodes[o].path.push(y))
                },
                Ok(None) => false,
                Err(e) => e == MmapPropAreaError::AreaFull && lacks(
                    held(l),
                    new_room(g, g.nodes[o].path.push(y)),
                ),
            }
        }),
{
    let s = held(l);
    lemma_live_kids(s, g, o);
    lemma_node(s, g, o);
    let n = g.nodes[o];
    let size = s.data.len() as int;
    assert(20 * (size / 20) + 20 > size);
    if n.kids != 0 {
        lemma_child_behind(s, g, o, 16);
        assert(sibling_path(g.nodes[n.kids], y) =~= n.path.push(y));
        lemma_live_ensure_sibling(l, g, n.kids, y, max_steps(size))
    } else {
        lemma_live_add_child(l, g, o, y)
    }
}

/// What was kept in two steps is kept in both.
proof fn lemma_live_grows_on(l: Live, g: Layout, m: Live, h: Layout, k: Live, i: Layout)
    requires
        live_grows(l, g, m, h),
        live_grows(m, h, k, i),
    ensures
        live_grows(l, g, k, i),
{
    lemma_kept_on(held(l), g, held(m), h, held(k), i);
    assert forall|q: Seq<Seq<u8>>| #[trigger] content_at(i, q) == content_at(g, q) by {
        assert(content_at(i, q) == content_at(h, q));
    }
}

/// Going down a path, and adding the nodes that are missing, keeps a shared area
/// well formed and the values as they are.
pub proof fn lemma_live_ensure_path(l: Live, g: Layout, o: int, rest: Seq<u8>) -> (h: Layout)
    requires
        describes(g, held(l)),
        g.nodes.dom().contains(o),
        path_ok(segments(rest)),
    ensures
        ({
            let (m, r) = live_traverse(l, o, rest, true);
            &&& live_grows(l, g, m, h)
            &&& match r {
                Ok(Some(c)) => {
                    &&& h.nodes.dom().contains(c)
                    &&& h.nodes[c].path == g.nodes[o].path + segments(rest)
                    &&& m.used == l.used + missing_nodes(g, g.nodes[o].path, segments(rest))
                },
                Ok(None) => false,
                Err(e) => e == MmapPropAreaError::AreaFull && lacks(
                    held(l),
                    missing_nodes(g, g.nodes[o].path, segments(rest)),
                ),
            }
        }),
    decreases rest.len(),
{
    let dot = dot_index(rest, 0);
    let piece = rest.take(dot);
    let segs = segments(rest);
    lemma_first_piece(rest);
    lemma_dot_index(rest, 0);
    assert(segment_ok(segs[0]));
    let h = lemma_live_ensure_child(l, g, o, piece);
    let (m, r) = live_child(l, o, piece, true);
    let q = g.nodes[o].path.push(piece);
    assert(q.last() == piece);
    lemma_path_room(g, q, segs.skip(1));
    if let Ok(Some(c)) = r {
        lemma_missing_below(g, h, q, q, segs.skip(1));
        assert(g.nodes[o].path.push(piece) + segs.skip(1) =~= g.nodes[o].path + segs);
        if dot < rest.len() {
            let tail = rest.skip(dot + 1);
            let i = lemma_live_ensure_path(m, h, c, tail);
            lemma_live_grows_on(l, g, m, h, live_traverse(m, c, tail, true).0, i);
            i
        } else {
            assert(g.nodes[o].path.push(piece) + segs.skip(1) =~= g.nodes[o].path.push(piece));
            h
        }
    } else {
        h
    }
}

/// The record that a shared write adds.
pub open spec fn live_record(l: Live, name: Seq<u8>, value: Seq<u8>) -> (Live, Option<int>) {
    if value.len() >= 92 {
        live_long_record(l, name, value)
    } else {
        live_inline_record(l, name, value)
    }
}

/// The bytes of a shared area after an inline record was added to it.
spec fn inline_written(d: Seq<u8>, off: int, name: Seq<u8>, value: Seq<u8>, v: int) -> Seq<u8> {
    let d1 = zero(put(d, off + 4, value), off + 4 + value.len(), 1);
    put_u32(zero(put(d1, off + 96, name), off + 96 + name.len(), 1), off, v)
}

/// The bytes of a shared area after a long record was added to it.
spec fn long_written(
    d: Seq<u8>,
    off: int,
    at: int,
    name: Seq<u8>,
    value: Seq<u8>,
    v: int,
) -> Seq<u8> {
    let d1 = zero(put(d, off + 4, legacy_message()), off + 54, 1);
    let d2 = zero(put(put_u32(d1, off + 60, at - off), at, value), at + value.len(), 1);
    put_u32(zero(put(d2, off + 96, name), off + 96 + name.len(), 1), off, v)
}

/// Where it holds something, an inline record is written as it is laid out.
proof fn lemma_inline_written(
    d: Seq<u8>,
    off: int,
    x: int,
    name: Seq<u8>,
    value: Seq<u8>,
    v: int,
    size: int,
)
    requires
        0 <= x,
        x + 8 <= off,
        off + 97 + name.len() <= off + size <= d.len() <= u32::MAX,
        value.len() < 92,
        0 <= v <= u32::MAX,
    ensures
        ({
            let e = put_u32(inline_written(d, off, name, value, v), x + 4, off);
            let b = put(inline_laid(zero(d, off, size), off, value), off + 96, name);
            let f = put_u32(put_u32(b, x + 4, off), off, v);
            &&& e.len() == d.len()
            &&& forall|i: int| 0 <= i < off ==> #[trigger] e[i] == f[i]
            &&& forall|i: int| off <= i <= off + 4 + value.len() ==> #[trigger] e[i] == f[i]
            &&& forall|i: int| off + 96 <= i <= off + 96 + name.len() ==> #[trigger] e[i] == f[i]
        }),
{
    lemma_le_bytes(v);
    lemma_le_bytes(off);
}

/// Where it holds something, a long record is written as it is laid out.
proof fn lemma_long_written(
    d: Seq<u8>,
    off: int,
    at: int,
    x: int,
    name: Seq<u8>,
    value: Seq<u8>,
    v: int,
    room: int,
)
    requires
        0 <= x,
        x + 8 <= off,
        off + 97 + name.len() <= at,
        at + value.len() + 1 <= at + room <= d.len() <= u32::MAX,
        0 <= v <= u32::MAX,
    ensures
        ({
            let e = put_u32(long_written(d, off, at, name, value, v), x + 4, off);
            let z = zero(zero(d, off, at - off), at, room);
            let b = put(long_laid(z, off, at, value), off + 96, name);
            let f = put_u32(put_u32(b, x + 4, off), off, v);
            &&& e.len() == d.len()
            &&& forall|i: int| 0 <= i < off + 4 ==> #[trigger] e[i] == f[i]
            &&& forall|i: int| off + 60 <= i < off + 64 ==> #[trigger] e[i] == f[i]
            &&& forall|i: int| off + 96 <= i <= off + 96 + name.len() ==> #[trigger] e[i] == f[i]
            &&& forall|i: int| at <= i <= at + value.len() ==> #[trigger] e[i] == f[i]
        }),
{
    lemma_legacy_message();
    lemma_le_bytes(v);
    lemma_le_bytes(off);
    lemma_le_bytes(at - off);
}

/// What a shared area is after an inline record was added to it.
proof fn lemma_inline_data(l: Live, name: Seq<u8>, value: Seq<u8>)
    requires
        l.used + whole_words(97 + name.len() as int) <= l.data.len(),
    ensures
        ({
            let (k, made) = live_inline_record(l, name, value);
            &&& made == Some(l.used)
            &&& k.used == l.used + whole_words(97 + name.len() as int)
            &&& k.data == inline_written(
                l.data,
                l.used,
                name,
                value,
                initial_serial(value.len() as int, false),
            )
        }),
{
    reveal(Live::emit);
}

/// What a shared area is after a long record was added to it.
proof fn lemma_long_data(l: Live, name: Seq<u8>, value: Seq<u8>)
    requires
        l.used + whole_words(97 + name.len() as int) + whole_words(value.len() as int + 1)
            <= l.data.len(),
    ensures
        ({
            let (k, made) = live_long_record(l, name, value);
            let at = l.used + whole_words(97 + name.len() as int);
            &&& made == Some(l.used)
            &&& k.used == at + whole_words(value.len() as int + 1)
            &&& k.data == long_written(
                l.data,
                l.used,
                at,
                name,
                value,
                initial_serial(50, true),
            )
        }),
{
    reveal(Live::emit);
}

/// Where a record does not fit, no byte changes; where it does, it takes its room.
pub proof fn lemma_record_refused(l: Live, name: Seq<u8>, value: Seq<u8>)
    ensures
        ({
            let (k, made) = live_record(l, name, value);
            &&& made is None <==> l.used + record_room(name, value) > l.data.len()
            &&& made is None ==> {
                &&& k.data == l.data
                &&& l.used <= k.used
                &&& l.used <= l.data.len() ==> k.used <= l.data.len()
            }
            &&& made is Some ==> k.used == l.used + record_room(name, value)
        }),
{
    reveal(Live::emit);
}

/// The area after a node was given a record.
spec fn given(l: Live, x: int, name: Seq<u8>, value: Seq<u8>) -> AreaState {
    let k = live_record(l, name, value).0;
    AreaState { used: k.used, data: put_u32(k.data, x + 4, l.used) }
}

/// The serial of a record that is added.
spec fn record_serial(value: Seq<u8>) -> int {
    initial_serial(shown_len(value, value.len() >= 92), value.len() >= 92)
}

/// The bytes are alike in front of a new record at `p`, and where it holds
/// something.
spec fn written_alike(p: int, key: Seq<u8>, value: Seq<u8>, d: Seq<u8>, e: Seq<u8>) -> bool {
    let at = p + rec_size(key.len() as int);
    &&& forall|i: int| 0 <= i < p + 4 ==> #[trigger] e[i] == d[i]
    &&& forall|i: int| p + 96 <= i <= p + 96 + key.len() ==> #[trigger] e[i] == d[i]
    &&& value.len() < 92 ==> forall|i: int|
        p + 4 <= i <= p + 4 + value.len() ==> #[trigger] e[i] == d[i]
    &&& value.len() >= 92 ==> forall|i: int| p + 60 <= i < p + 64 ==> #[trigger] e[i] == d[i]
    &&& value.len() >= 92 ==> forall|i: int|
        at <= i <= at + value.len() ==> #[trigger] e[i] == d[i]
}

proof fn lemma_given_inline(l: Live, x: int, key: Seq<u8>, value: Seq<u8>)
    requires
        0 <= x,
        x + 20 <= l.used <= l.data.len() <= u32::MAX,
        live_record(l, key, value).1 is Some,
        value.len() < 92,
    ensures
        ({
            let s = held(l);
            let v = record_serial(value);
            let f = attached(s, x, key, value, v);
            let u = given(l, x, key, value);
            &&& attach_record(s, x, key, value).1 is Ok
            &&& u.used == f.used
            &&& u.data.len() == f.data.len()
            &&& written_alike(s.used, key, value, f.data, u.data)
        }),
{
    let s = held(l);
    lemma_record_refused(l, key, value);
    let size = whole_words(97 + key.len() as int);
    assert(size == rec_size(key.len() as int));
    lemma_inline_data(l, key, value);
    lemma_inline_written(s.data, s.used, x, key, value, record_serial(value), size);
}

/// How a long record is laid out.
proof fn lemma_attached_long(s: AreaState, x: int, key: Seq<u8>, value: Seq<u8>, v: int)
    requires
        0 <= s.used,
        value.len() >= 92,
        s.used + rec_size(key.len() as int) + long_size(value.len() as int) <= s.data.len()
            <= u32::MAX,
    ensures
        ({
            let p = s.used;
            let at = p + rec_size(key.len() as int);
            let room = long_size(value.len() as int);
            let z = zero(zero(s.data, p, at - p), at, room);
            let b = put(long_laid(z, p, at, value), p + 96, key);
            let f = attached(s, x, key, value, v);
            &&& attach_record(s, x, key, value).1 is Ok
            &&& f.used == at + room
            &&& f.data == put_u32(put_u32(b, x + 4, p), p, v)
        }),
{
    assert(align4(97 + key.len() as int) == rec_size(key.len() as int));
    assert(align4(value.len() as int + 1) == long_size(value.len() as int));
}

proof fn lemma_given_long(l: Live, x: int, key: Seq<u8>, value: Seq<u8>)
    requires
        0 <= x,
        x + 20 <= l.used <= l.data.len() <= u32::MAX,
        live_record(l, key, value).1 is Some,
        value.len() >= 92,
    ensures
        ({
            let s = held(l);
            let v = record_serial(value);
            let f = attached(s, x, key, value, v);
            let u = given(l, x, key, value);
            &&& attach_record(s, x, key, value).1 is Ok
            &&& u.used == f.used
            &&& u.data.len() == f.data.len()
            &&& written_alike(s.used, key, value, f.data, u.data)
        }),
{
    let s = held(l);
    lemma_record_refused(l, key, value);
    let size = whole_words(97 + key.len() as int);
    let room = whole_words(value.len() as int + 1);
    assert(size == rec_size(key.len() as int));
    assert(room == long_size(value.len() as int));
    lemma_attached_long(s, x, key, value, record_serial(value));
    lemma_long_data(l, key, value);
    lemma_long_written(
        s.data,
        s.used,
        s.used + size,
        x,
        key,
        value,
        record_serial(value),
        room,
    );
}

/// Giving a record to a node keeps a shared area well formed.
proof fn lemma_live_attach(l: Live, g: Layout, x: int, key: Seq<u8>, value: Seq<u8>) -> (h: Layout)
    requires
        describes(g, held(l)),
        g.nodes.dom().contains(x),
        x != 0,
        g.nodes[x].prop == 0,
        key == join(g.nodes[x].path),
        plain_text(key),
        plain_text(value),
        live_record(l, key, value).1 is Some,
    ensures
        describes(h, given(l, x, key, value)),
        content_at(h, g.nodes[x].path) == Some(set_content(None, value)),
        others_stay(g, h, g.nodes[x].path),
        records_kept(held(l), g, given(l, x, key, value), h),
{
    let s = held(l);
    let v = record_serial(value);
    let u = given(l, x, key, value);
    lemma_node(s, g, x);
    if value.len() >= 92 {
        lemma_given_long(l, x, key, value);
    } else {
        lemma_given_inline(l, x, key, value);
    }
    assert(0 <= v <= u32::MAX && long_serial(v) == (value.len() >= 92));
    let h = lemma_attach(s, g, x, key, value, v);
    let f = attached(s, x, key, value, v);
    lemma_given_alike(s, x, key, value, v, h, f, u);
    lemma_alike(h, f, u);
    lemma_kept_alike(s, g, f, u, h);
    h
}

/// The area after a node was given a record, and the area with the record laid
/// out.
proof fn lemma_given_alike(
    s: AreaState,
    x: int,
    key: Seq<u8>,
    value: Seq<u8>,
    v: int,
    h: Layout,
    f: AreaState,
    u: AreaState,
)
    requires
        describes(h, f),
        h.recs.dom().contains(s.used),
        h.recs[s.used] == new_record(s, x, key, value, v),
        f.used == s.used + rec_size(key.len() as int) + if value.len() < 92 {
            0
        } else {
            long_size(value.len() as int)
        },
        u.used == f.used,
        u.data.len() == f.data.len(),
        written_alike(s.used, key, value, f.data, u.data),
    ensures
        alike_where_filled(h, f, u),
{
    let p = s.used;
    assert(rec_fits(f, h, p));
    let n = rec_size(key.len() as int);
    assert forall|b: int| 0 <= b < f.used && filled(h, b) implies #[trigger] u.data[b]
        == f.data[b] by {
        if b >= p + n {
            assert((h.own)(b) == Owner::Long(p));
        } else if b >= p {
            assert((h.own)(b) == Owner::Record(p));
        }
    }
}

/// Adding a property that is not there.
pub proof fn lemma_live_add(l: Live, g: Layout, key: Seq<u8>, value: Seq<u8>) -> (h: Layout)
    requires
        describes(g, held(l)),
        good_key(key),
        plain_text(value),
        content_at(g, segments(key)) is None,
    ensures
        ({
            let (m, r) = live_add(l, key, value);
            &&& describes(h, held(m))
            &&& others_stay(g, h, segments(key))
            &&& records_kept(held(l), g, held(m), h)
            &&& match r {
                Ok(_) => content_at(h, segments(key)) == Some(set_content(None, value)),
                Err(e) => e == MmapPropAreaError::AreaFull && same_values(g, h),
            }
        }),
{
    let path = segments(key);
    lemma_segments_ok(key);
    lemma_segments_join(key);
    lemma_node(held(l), g, 0);
    let h = lemma_live_ensure_path(l, g, 0, key);
    let (m, r) = live_traverse(l, 0, key, true);
    assert(g.nodes[0].path + path =~= path);
    if let Ok(Some(x)) = r {
        lemma_node(held(m), h, x);
        lemma_live_kids(held(m), h, x);
        assert(content_at(h, path) == content_at(g, path));
        assert(h.nodes[x].prop == 0);
        assert(u32_at(m.data, x + 4) == 0) by {
            reveal(node_bytes);
        }
        let (k, made) = live_record(m, key, value);
        lemma_record_refused(m, key, value);
        if made is Some {
            let i = lemma_live_attach(m, h, x, key, value);
            let u = given(m, x, key, value);
            assert(held(live_add(l, key, value).0) == u) by {
                reveal(Live::emit);
            }
            lemma_kept_on(held(l), g, held(m), h, u, i);
            assert forall|q: Seq<Seq<u8>>| q != path implies #[trigger] content_at(i, q)
                == content_at(g, q) by {
                assert(content_at(h, q) == content_at(g, q));
            }
            i
        } else {
            lemma_spare_room(held(m), h, held(k));
            assert(records_kept(held(m), h, held(k), h)) by {
                reveal(records_kept);
            }
            lemma_kept_on(held(l), g, held(m), h, held(k), h);
            h
        }
    } else {
        h
    }
}

} // verus!
