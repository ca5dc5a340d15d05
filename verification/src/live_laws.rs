//! What writing a shared area means for those who read it afterwards.
//!
//! On a well-formed area the memory operations of a shared write lead to a
//! well-formed area again, in which lookups find what was written.
use vstd::prelude::*;
use crate::area_growth::{
    agree, lemma_node_same, lemma_rec_owned, lemma_string_same, lemma_word_same, records_kept,
};
use crate::area_keys::{lemma_segments_distinct, path_ok};
use crate::area_laws::{good_key, others_stay, set_content, shown_len};
use crate::area_records::{lemma_rerecorded, of_record, rerecorded, with_record};
use crate::area_layout::{
    between, describes, lemma_child_behind, lemma_find_child, lemma_find_node, lemma_lookup,
    lemma_node, lemma_read_record, lemma_search_through, long_size, name_of, node_at, node_bytes,
    node_size, plain_text, rec_bytes, rec_bytes_at, rec_fits, rec_size, string_at, trie_fits,
    content_at, content_of, well_formed, Layout, Owner, RecInfo,
};
use crate::area_state::{
    dot_index, find_sibling, key_ok, lemma_dot_index, long_serial, lookup, lookup_content,
    lookup_value, max_steps, name_order, segments, AreaFault, AreaState, Content,
};
use crate::bytes::{
    lemma_le_bytes, lemma_nul_index, lemma_nul_index_is, lemma_put_u32, lemma_word_bounds, put_u32,
    u32_at, KeyOrder,
};
use crate::live_growth::lemma_live_add;
use crate::live_area::{
    dirty, hidden_serial, live_child, live_find, live_sibling, live_traverse, live_update,
    live_upsert, live_value, tagged_serial, value_slot, visible_serial, whole_words, Live, Slot,
    MmapResult, OpView,
};

verus! {

/// The shared area holds what the area `s` holds.
pub open spec fn mirrors(l: Live, s: AreaState) -> bool {
    l.used == s.used && l.data == s.data
}

/// The name of a node as a shared area is read.
pub proof fn lemma_live_name(s: AreaState, g: Layout, o: int)
    requires
        trie_fits(g, s),
        g.nodes.dom().contains(o),
        o != 0,
    ensures
        ({
            let n = g.nodes[o];
            let len = name_of(n).len() as int;
            &&& 20 <= o
            &&& o + 21 + len <= s.used
            &&& u32_at(s.data, o) == len
            &&& u32_at(s.data, o + 8) == n.left
            &&& u32_at(s.data, o + 12) == n.right
            &&& u32_at(s.data, o + 16) == n.kids
            &&& s.data.subrange(o + 20, o + 20 + len) == name_of(n)
        }),
{
    lemma_node(s, g, o);
    reveal(node_bytes);
    let n = g.nodes[o];
    let len = name_of(n).len() as int;
    assert(s.data.subrange(o + 20, o + 20 + len) =~= name_of(n));
}

/// A search among siblings finds the same node.
proof fn lemma_live_find_sibling(l: Live, s: AreaState, g: Layout, o: int, y: Seq<u8>, steps: nat)
    requires
        trie_fits(g, s),
        mirrors(l, s),
        g.nodes.dom().contains(o),
        o != 0,
        o + 20 * steps >= s.data.len(),
    ensures
        find_sibling(s.data, o, y, steps) is Ok,
        live_sibling(l, o, y, false, steps) == (
            l,
            MmapResult::Ok(find_sibling(s.data, o, y, steps)->Ok_0),
        ),
    decreases steps,
{
    lemma_node(s, g, o);
    lemma_live_name(s, g, o);
    let n = g.nodes[o];
    if steps > 0 {
        match name_order(y, name_of(n)) {
            KeyOrder::Equal => {},
            KeyOrder::Less => {
                if n.left != 0 {
                    lemma_child_behind(s, g, o, 8);
                    lemma_live_find_sibling(l, s, g, n.left, y, (steps - 1) as nat);
                }
            },
            KeyOrder::Greater => {
                if n.right != 0 {
                    lemma_child_behind(s, g, o, 12);
                    lemma_live_find_sibling(l, s, g, n.right, y, (steps - 1) as nat);
                }
            },
        }
    }
}

/// The children of a node as a shared area is read.
pub proof fn lemma_live_kids(s: AreaState, g: Layout, o: int)
    requires
        trie_fits(g, s),
        g.nodes.dom().contains(o),
    ensures
        0 <= o,
        o + 20 <= s.used,
        u32_at(s.data, o + 16) == g.nodes[o].kids,
{
    lemma_node(s, g, o);
    reveal(node_bytes);
}

/// The first piece of a key, and the pieces of the rest.
pub proof fn lemma_first_piece(rest: Seq<u8>)
    ensures
        ({
            let dot = dot_index(rest, 0);
            let segs = segments(rest);
            &&& 0 <= dot <= rest.len()
            &&& segs.len() > 0
            &&& segs[0] == rest.take(dot)
            &&& dot < rest.len() ==> segs.skip(1) == segments(rest.skip(dot + 1))
            &&& dot >= rest.len() ==> segs.skip(1).len() == 0
            &&& dot < rest.len() && key_ok(rest) ==> key_ok(rest.skip(dot + 1))
            &&& dot < rest.len() && path_ok(segs) ==> path_ok(segments(rest.skip(dot + 1)))
        }),
{
    let dot = dot_index(rest, 0);
    let segs = segments(rest);
    lemma_dot_index(rest, 0);
    if dot < rest.len() {
        let next = segments(rest.skip(dot + 1));
        assert(segs.skip(1) =~= next);
        assert forall|i: int| 0 <= i < next.len() implies #[trigger] next[i] == segs[i + 1] by {}
    } else {
        assert(rest.take(dot) =~= rest);
    }
}

/// A child is found in the same way.
proof fn lemma_live_find_child(l: Live, s: AreaState, g: Layout, o: int, y: Seq<u8>)
    requires
        trie_fits(g, s),
        mirrors(l, s),
        g.nodes.dom().contains(o),
        y.len() > 0,
    ensures
        live_child(l, o, y, false) == (l, MmapResult::Ok(node_at(g, g.nodes[o].path.push(y)))),
{
    lemma_live_kids(s, g, o);
    lemma_find_child(s, g, o, y);
    let size = s.data.len() as int;
    assert(20 * (size / 20) + 20 > size);
    let kids = g.nodes[o].kids;
    if kids != 0 {
        lemma_child_behind(s, g, o, 16);
        lemma_live_find_sibling(l, s, g, kids, y, max_steps(size));
    }
}

/// A lookup in a shared area comes to the node of the path.
pub proof fn lemma_live_descend(l: Live, s: AreaState, g: Layout, o: int, rest: Seq<u8>)
    requires
        trie_fits(g, s),
        mirrors(l, s),
        g.nodes.dom().contains(o),
        key_ok(rest),
    ensures
        live_traverse(l, o, rest, false).1 == MmapResult::Ok(
            node_at(g, g.nodes[o].path + segments(rest)),
        ),
    decreases rest.len(),
{
    let dot = dot_index(rest, 0);
    let piece = rest.take(dot);
    let segs = segments(rest);
    lemma_first_piece(rest);
    assert(segs[0].len() > 0);
    lemma_live_find_child(l, s, g, o, piece);
    let q = g.nodes[o].path.push(piece);
    assert(g.nodes[o].path + segs =~= q + segs.skip(1));
    if g.index.dom().contains(q) {
        let next = g.index[q];
        if dot < rest.len() {
            lemma_live_descend(l, s, g, next, rest.skip(dot + 1));
        } else {
            assert(q + segs.skip(1) =~= q);
        }
    } else {
        lemma_no_way(s, g, q, segs.skip(1));
    }
}

/// Where there is no node for a path, there is none further down.
proof fn lemma_no_way(s: AreaState, g: Layout, q: Seq<Seq<u8>>, more: Seq<Seq<u8>>)
    requires
        trie_fits(g, s),
        !g.index.dom().contains(q),
    ensures
        !g.index.dom().contains(q + more),
    decreases more.len(),
{
    if more.len() == 0 {
        assert(q + more =~= q);
    } else {
        lemma_no_way(s, g, q, more.drop_last());
        let all = q + more;
        if g.index.dom().contains(all) {
            let c = g.index[all];
            lemma_node(s, g, c);
            assert(c != 0);
            let lo = g.nodes[c].lo;
            lemma_between_own(s, g, c);
            let left = lemma_search_through(s, g, c, name_of(g.nodes[c]));
            assert(all.drop_last() =~= q + more.drop_last());
        }
    }
}

/// The name of a node belongs into its own subtree.
proof fn lemma_between_own(s: AreaState, g: Layout, c: int)
    requires
        trie_fits(g, s),
        g.nodes.dom().contains(c),
        c != 0,
    ensures
        between(g.nodes[c].lo, name_of(g.nodes[c]), g.nodes[c].hi),
{
    lemma_node(s, g, c);
}

/// `e` is `d` with `value` in a slot of the record at `off`, whose serial is
/// `v`.
pub open spec fn rewritten(
    d: Seq<u8>,
    e: Seq<u8>,
    off: int,
    slot: Slot,
    value: Seq<u8>,
    v: int,
) -> bool {
    &&& e.len() == d.len()
    &&& u32_at(e, off) == v
    &&& string_at(e, slot.at, value)
    &&& forall|b: int|
        0 <= b < d.len() && !(off <= b < off + 4) && !(slot.at <= b <= slot.at + slot.room)
            ==> #[trigger] e[b] == d[b]
}

/// What an update leaves in the bytes.
proof fn lemma_update_bytes(l: Live, off: int, value: Seq<u8>)
    requires
        0 <= off,
        value_slot(l.data, off) is Ok,
        value.len() <= value_slot(l.data, off)->Ok_0.room,
        ({
            let slot = value_slot(l.data, off)->Ok_0;
            slot.at >= off + 4 || slot.at + slot.room < off
        }),
    ensures
        ({
            let slot = value_slot(l.data, off)->Ok_0;
            let (m, r) = live_update(l, off, value);
            let n = value.len() as int;
            let len = if slot.is_long {
                50
            } else {
                n
            };
            &&& r is Ok
            &&& m.used == l.used
            &&& rewritten(
                l.data,
                m.data,
                off,
                slot,
                value,
                hidden_serial(dirty(u32_at(l.data, off)), len, slot.is_long),
            )
        }),
{
    reveal(live_update);
    reveal(Live::emit);
    let d = l.data;
    let slot = value_slot(d, off)->Ok_0;
    let n = value.len() as int;
    let len = if slot.is_long {
        50
    } else {
        n
    };
    let old = u32_at(d, off);
    lemma_word_bounds(d, off);
    let (v1, v2, v3) = (
        dirty(old),
        visible_serial(dirty(old), len, slot.is_long),
        hidden_serial(dirty(old), len, slot.is_long),
    );
    lemma_serial_bounds(old, len, slot.is_long);
    if slot.is_long {
        lemma_nul_index(d, slot.at, d.len() as int);
    }
    let m = live_update(l, off, value).0;
    let d1 = put_u32(d, off, v1);
    let d2 = live_value(l.emit(OpView::StoreRelaxed(off, v1)), slot, value).data;
    let d3 = put_u32(d2, off, v2);
    lemma_le_bytes(v1);
    lemma_le_bytes(v2);
    lemma_le_bytes(v3);
    assert(m.data == put_u32(d3, off, v3));
    lemma_put_u32(d3, off, v3);
    assert(d2.len() == d.len());
    assert(forall|b: int| slot.at <= b < slot.at + n ==> #[trigger] d2[b] == value[b - slot.at]);
    assert(d2[slot.at + n] == 0);
    assert(forall|b: int|
        0 <= b < d.len() && !(slot.at <= b <= slot.at + slot.room) ==> #[trigger] d2[b] == d1[b]);
    assert(forall|b: int|
        0 <= b < d.len() && !(off <= b < off + 4) ==> #[trigger] m.data[b] == d2[b]);
}

/// A serial marks the layout that its counter and flag say.
proof fn lemma_tagged(c: int, len: int, is_long: bool)
    requires
        0 <= c < 0x100_0000,
        0 <= len,
    ensures
        0 <= tagged_serial(c, len, is_long) <= u32::MAX,
        is_long ==> long_serial(tagged_serial(c, len, is_long)),
        !is_long ==> long_serial(tagged_serial(c, len, is_long)) == (c / 0x1_0000 % 2 == 1),
{
    let top = len % 0x100;
    let k = c / 0x1_0000;
    let low = c % 0x1_0000;
    assert(c == 0x1_0000 * k + low);
    let j = if is_long && k % 2 == 0 {
        k + 1
    } else {
        k
    };
    let v = tagged_serial(c, len, is_long);
    assert(v == 0x1_0000 * (0x100 * top + j) + low);
    assert(v / 0x1_0000 == 0x100 * top + j);
    assert((0x100 * top + j) % 2 == j % 2);
}

/// A dirty serial marks the same layout.
proof fn lemma_dirty(old: int)
    requires
        0 <= old <= u32::MAX,
    ensures
        0 <= dirty(old) <= u32::MAX,
        long_serial(dirty(old)) == long_serial(old),
        dirty(old) % 0x100_0000 / 2 * 2 / 0x1_0000 % 2 == old / 0x1_0000 % 2,
{
    let h = old / 2;
    assert(dirty(old) == 2 * h + 1);
    let k = old / 0x1_0000;
    let low = old % 0x1_0000;
    assert(old == 0x1_0000 * k + low);
    assert(h == 0x8000 * k + low / 2);
    assert(dirty(old) == 0x1_0000 * k + (2 * (low / 2) + 1));
    assert(dirty(old) / 0x1_0000 == k);
    let top = k / 0x100;
    let mid = k % 0x100;
    assert(dirty(old) % 0x100_0000 == 0x1_0000 * mid + (2 * (low / 2) + 1));
    assert(dirty(old) % 0x100_0000 / 2 == 0x8000 * mid + low / 2);
    assert(dirty(old) % 0x100_0000 / 2 * 2 == 0x1_0000 * mid + 2 * (low / 2));
    assert(dirty(old) % 0x100_0000 / 2 * 2 / 0x1_0000 == mid);
}

proof fn lemma_serial_bounds(old: int, len: int, is_long: bool)
    requires
        0 <= old <= u32::MAX,
        0 <= len,
        long_serial(old) == is_long,
    ensures
        0 <= dirty(old) <= u32::MAX,
        0 <= visible_serial(dirty(old), len, is_long) <= u32::MAX,
        0 <= hidden_serial(dirty(old), len, is_long) <= u32::MAX,
        long_serial(hidden_serial(dirty(old), len, is_long)) == is_long,
{
    lemma_dirty(old);
    lemma_tagged((dirty(old) + 1) % 0x100_0000, len, is_long);
    lemma_tagged(dirty(old) % 0x100_0000 / 2 * 2, len, is_long);
}

/// The area that a shared area holds.
pub open spec fn held(l: Live) -> AreaState {
    AreaState { used: l.used, data: l.data }
}

/// The slot of a record of a well-formed area.
pub proof fn lemma_slot(s: AreaState, g: Layout, p: int)
    requires
        describes(g, s),
        g.recs.dom().contains(p),
    ensures
        ({
            let r = g.recs[p];
            &&& 0 < p
            &&& p + 97 + r.name.len() <= s.used
            &&& long_serial(u32_at(s.data, p)) == (r.long is Some)
            &&& value_slot(s.data, p) == MmapResult::Ok(slot_of(p, r))
        }),
{
    assert(rec_fits(s, g, p));
    reveal(rec_bytes_at);
    reveal(plain_text);
    let r = g.recs[p];
    if let Some(at) = r.long {
        let n = r.value.len() as int;
        assert forall|i: int| at <= i < at + n implies s.data[i] != 0 by {
            assert(s.data[i] == r.value[i - at]);
        }
        lemma_nul_index_is(s.data, at, s.data.len() as int, at + n);
        assert(whole_words(n + 1) == long_size(n));
    }
}

/// A record that is not updated is left as it is, and no operation is listed:
/// everything is tested before the serial becomes odd.
pub proof fn law_update_refused(l: Live, off: int, value: Seq<u8>)
    ensures
        live_update(l, off, value).1 is Err ==> live_update(l, off, value).0 == l,
        live_update(l, off, value).1 is Ok <==> value_slot(l.data, off) is Ok && value.len()
            <= value_slot(l.data, off)->Ok_0.room,
{
    reveal(live_update);
}

/// The slot of a record of a layout.
pub open spec fn slot_of(p: int, r: RecInfo) -> Slot {
    Slot {
        is_long: r.long is Some,
        at: match r.long {
            None => p + 4,
            Some(at) => at,
        },
        room: match r.long {
            None => 91,
            Some(_) => long_size(r.value.len() as int) - 1,
        },
    }
}

/// The bytes of an updated record.
proof fn lemma_updated_record(s: AreaState, g: Layout, p: int, value: Seq<u8>, e: Seq<u8>, v: int)
    requires
        describes(g, s),
        g.recs.dom().contains(p),
        plain_text(value),
        value.len() <= slot_of(p, g.recs[p]).room,
        rewritten(s.data, e, p, slot_of(p, g.recs[p]), value, v),
        long_serial(v) == (g.recs[p].long is Some),
    ensures
        rec_bytes(e, p, (RecInfo { value, serial: v, ..g.recs[p] })),
{
    assert(rec_fits(s, g, p));
    lemma_rec_owned(s, g, p);
    reveal(rec_bytes_at);
    let rec = g.recs[p];
    let d = s.data;
    let n = rec.name.len() as int;
    assert(agree(d, e, p + 96, n + 1));
    lemma_string_same(d, e, p + 96, n + 1, p + 96, rec.name);
    if rec.long is Some {
        assert(agree(d, e, p + 60, 4));
        lemma_word_same(d, e, p + 60, 4, p + 60);
    }
}

/// The records but the one at `p` stay as they are, byte by byte.
#[verifier::opaque]
pub open spec fn others_kept(s: AreaState, g: Layout, t: AreaState, h: Layout, p: int) -> bool {
    &&& forall|q: int| #[trigger]
        g.recs.dom().contains(q) && q != p ==> h.recs.dom().contains(q) && h.recs[q] == g.recs[q]
    &&& forall|b: int|
        0 <= b < s.used && !of_record((g.own)(b), p) ==> #[trigger] t.data[b] == s.data[b]
}

/// Rewriting the value of the record of a node.
proof fn lemma_rewritten(s: AreaState, g: Layout, x: int, value: Seq<u8>, e: Seq<u8>, v: int) -> (h:
    Layout)
    requires
        describes(g, s),
        g.nodes.dom().contains(x),
        g.nodes[x].prop != 0,
        plain_text(value),
        value.len() <= slot_of(g.nodes[x].prop, g.recs[g.nodes[x].prop]).room,
        rewritten(
            s.data,
            e,
            g.nodes[x].prop,
            slot_of(g.nodes[x].prop, g.recs[g.nodes[x].prop]),
            value,
            v,
        ),
        long_serial(v) == (g.recs[g.nodes[x].prop].long is Some),
    ensures
        describes(h, s.with(e)),
        h.index == g.index,
        h.nodes == g.nodes,
        others_kept(s, g, s.with(e), h, g.nodes[x].prop),
        forall|q: Seq<Seq<u8>>| #[trigger]
            content_at(h, q) == if q == g.nodes[x].path {
                Some(
                    Content {
                        value,
                        is_long: g.recs[g.nodes[x].prop].long is Some,
                        serial: v,
                    },
                )
            } else {
                content_at(g, q)
            },
{
    lemma_node(s, g, x);
    let p = g.nodes[x].prop;
    assert(rec_fits(s, g, p));
    lemma_rec_owned(s, g, p);
    let rec = g.recs[p];
    let t = s.with(e);
    let next = RecInfo { value, serial: v, ..rec };
    lemma_updated_record(s, g, p, value, e, v);
    let h = with_record(g, x, Some((p, next)), g.own);
    assert(h.nodes[x] == g.nodes[x]);
    assert(h.nodes =~= g.nodes);
    assert forall|b: int| 0 <= b < s.used && !of_record((g.own)(b), p) implies #[trigger] t.data[b]
        == s.data[b] by {
        if p <= b < p + rec_size(rec.name.len() as int) {
            assert((g.own)(b) == Owner::Record(p));
        }
        if let Some(at) = rec.long {
            if at <= b < at + long_size(rec.value.len() as int) {
                assert((g.own)(b) == Owner::Long(p));
            }
        }
    }
    let size = node_size(name_of(g.nodes[x]).len() as int);
    assert(agree(s.data, t.data, x, size)) by {
        assert forall|b: int| x <= b < x + size implies #[trigger] t.data[b] == s.data[b] by {
            assert((g.own)(b) == Owner::Node(x));
        }
    }
    lemma_node_same(s.data, t.data, x, g.nodes[x]);
    assert(rerecorded(s, g, x, t, Some((p, next)), g.own));
    lemma_rerecorded(s, g, x, t, Some((p, next)), g.own);
    assert(others_kept(s, g, t, h, p)) by {
        reveal(others_kept);
    }
    h
}

/// What is stored for a property that was rewritten while others read it: the
/// layout stays, and the serial hides the change.
pub open spec fn rewritten_content(c: Content, value: Seq<u8>) -> Content {
    Content {
        value,
        is_long: c.is_long,
        serial: hidden_serial(dirty(c.serial), shown_len(value, c.is_long), c.is_long),
    }
}

/// What is stored for a property after it was written to a shared area, where
/// `before` was stored.
pub open spec fn upserted(before: Option<Content>, value: Seq<u8>) -> Content {
    match before {
        Some(c) => rewritten_content(c, value),
        None => set_content(None, value),
    }
}

/// Updating the property of a node.
proof fn lemma_live_update(l: Live, s: AreaState, g: Layout, x: int, value: Seq<u8>) -> (h: Layout)
    requires
        describes(g, s),
        mirrors(l, s),
        g.nodes.dom().contains(x),
        g.nodes[x].prop != 0,
        plain_text(value),
    ensures
        ({
            let (m, r) = live_update(l, g.nodes[x].prop, value);
            &&& describes(h, held(m))
            &&& h.index == g.index
            &&& h.nodes == g.nodes
            &&& others_kept(s, g, held(m), h, g.nodes[x].prop)
            &&& match r {
                Ok(_) => forall|q: Seq<Seq<u8>>| #[trigger]
                    content_at(h, q) == if q == g.nodes[x].path {
                        Some(rewritten_content(content_of(g.recs[g.nodes[x].prop]), value))
                    } else {
                        content_at(g, q)
                    },
                Err(_) => m == l && h == g,
            }
        }),
{
    lemma_node(s, g, x);
    let p = g.nodes[x].prop;
    lemma_slot(s, g, p);
    let (m, r) = live_update(l, p, value);
    let slot = slot_of(p, g.recs[p]);
    let old = u32_at(s.data, p);
    let len = if slot.is_long {
        50
    } else {
        value.len() as int
    };
    if value.len() > slot.room {
        law_update_refused(l, p, value);
        assert(held(m) =~= s);
        assert(others_kept(s, g, s, g, p)) by {
            reveal(others_kept);
        }
        g
    } else {
        lemma_rec_owned(s, g, p);
        assert(old == g.recs[p].serial) by {
            assert(rec_fits(s, g, p));
            reveal(rec_bytes_at);
        }
        lemma_update_bytes(l, p, value);
        lemma_word_bounds(s.data, p);
        lemma_serial_bounds(old, len, slot.is_long);
        assert(held(m) =~= s.with(m.data));
        lemma_rewritten(s, g, x, value, m.data, hidden_serial(dirty(old), len, slot.is_long))
    }
}

/// Whether the record of a key is found where the layout has it.
pub proof fn lemma_live_find(l: Live, s: AreaState, g: Layout, key: Seq<u8>)
    requires
        describes(g, s),
        mirrors(l, s),
        key_ok(key),
    ensures
        live_find(l, key) == MmapResult::Ok(
            match content_at(g, segments(key)) {
                None => None,
                Some(_) => Some(g.nodes[g.index[segments(key)]].prop),
            },
        ),
{
    lemma_node(s, g, 0);
    lemma_live_descend(l, s, g, 0, key);
    assert(g.nodes[0].path + segments(key) =~= segments(key));
    if g.index.dom().contains(segments(key)) {
        let x = g.index[segments(key)];
        lemma_node(s, g, x);
        lemma_live_kids(s, g, x);
    }
}

/// Writing a property of a shared area.
pub proof fn lemma_live_upsert(l: Live, s: AreaState, g: Layout, key: Seq<u8>, value: Seq<u8>) -> (h:
    Layout)
    requires
        describes(g, s),
        mirrors(l, s),
        good_key(key),
        plain_text(value),
    ensures
        ({
            let (m, r) = live_upsert(l, key, value);
            &&& describes(h, held(m))
            &&& others_stay(g, h, segments(key))
            &&& match content_at(g, segments(key)) {
                Some(_) => {
                    &&& h.index == g.index
                    &&& h.nodes == g.nodes
                    &&& others_kept(s, g, held(m), h, g.nodes[g.index[segments(key)]].prop)
                },
                None => records_kept(s, g, held(m), h),
            }
            &&& r is Ok ==> content_at(h, segments(key)) == Some(
                upserted(content_at(g, segments(key)), value),
            )
        }),
{
    lemma_live_find(l, s, g, key);
    let path = segments(key);
    if content_at(g, path) is Some {
        let x = g.index[path];
        lemma_node(s, g, x);
        let h = lemma_live_update(l, s, g, x, value);
        assert(g.nodes[x].path == path);
        h
    } else {
        assert(s =~= held(l));
        lemma_live_add(l, g, key, value)
    }
}

/// What was written to a shared area is found again, and no other property
/// changes, whether the write succeeds or not.
pub proof fn law_live_upsert(l: Live, key: Seq<u8>, value: Seq<u8>, other: Seq<u8>)
    requires
        well_formed(held(l)),
        good_key(key),
        plain_text(value),
        key_ok(other),
        other != key,
    ensures
        ({
            let (m, r) = live_upsert(l, key, value);
            &&& well_formed(held(m))
            &&& r is Ok ==> lookup_value(m.data, key) == Ok::<Option<Seq<u8>>, AreaFault>(
                Some(value),
            )
            &&& r is Ok ==> lookup_content(m.data, key) == Ok::<Option<Content>, AreaFault>(
                Some(upserted(lookup_content(l.data, key)->Ok_0, value)),
            )
            &&& lookup_value(m.data, other) == lookup_value(l.data, other)
            &&& lookup_content(m.data, other) == lookup_content(l.data, other)
        }),
{
    let s = held(l);
    let g = choose|g: Layout| #[trigger] describes(g, s);
    let h = lemma_live_upsert(l, s, g, key, value);
    let m = live_upsert(l, key, value).0;
    lemma_lookup(held(m), h, key);
    lemma_lookup(s, g, key);
    lemma_lookup(held(m), h, other);
    lemma_lookup(s, g, other);
    lemma_segments_distinct(key, other);
}

/// The record of a property is found where a lookup finds it.
pub proof fn law_live_find(l: Live, key: Seq<u8>)
    requires
        well_formed(held(l)),
        key_ok(key),
    ensures
        lookup(l.data, key) is Ok,
        live_find(l, key) == MmapResult::Ok(
            match lookup(l.data, key)->Ok_0 {
                None => None,
                Some(p) => Some(p.prop_offset),
            },
        ),
{
    let s = held(l);
    let g = choose|g: Layout| #[trigger] describes(g, s);
    lemma_live_find(l, s, g, key);
    lemma_find_node(s, g, key);
    let path = segments(key);
    if g.index.dom().contains(path) {
        let x = g.index[path];
        lemma_node(s, g, x);
        let p = g.nodes[x].prop;
        if p != 0 {
            assert(rec_fits(s, g, p));
            lemma_read_record(s.data, p, g.recs[p]);
        }
    }
}

/// The serial that hides an update has the counter of before.
proof fn lemma_hidden_counter(old: int, len: int, is_long: bool)
    requires
        0 <= old <= u32::MAX,
        old % 2 == 0,
        long_serial(old) == is_long,
        0 <= len,
    ensures
        hidden_serial(dirty(old), len, is_long) % 0x100_0000 == old % 0x100_0000,
{
    let c = old % 0x100_0000;
    lemma_dirty(old);
    assert(dirty(old) == old + 1);
    assert(dirty(old) % 0x100_0000 == c + 1);
    assert((c + 1) / 2 * 2 == c);
    assert(hidden_serial(dirty(old), len, is_long) == len % 0x100 * 0x100_0000 + c);
}

/// An update leaves the update counter as it was, where no other update was
/// under way: nothing shows that there was one.
pub proof fn law_update_hides(l: Live, off: int, value: Seq<u8>)
    requires
        0 <= off,
        live_update(l, off, value).1 is Ok,
        u32_at(l.data, off) % 2 == 0,
        ({
            let slot = value_slot(l.data, off)->Ok_0;
            slot.at >= off + 4 || slot.at + slot.room < off
        }),
    ensures
        u32_at(live_update(l, off, value).0.data, off) % 0x100_0000 == u32_at(l.data, off)
            % 0x100_0000,
{
    law_update_refused(l, off, value);
    lemma_update_bytes(l, off, value);
    let slot = value_slot(l.data, off)->Ok_0;
    let len = if slot.is_long {
        50
    } else {
        value.len() as int
    };
    let old_serial = u32_at(l.data, off);
    lemma_word_bounds(l.data, off);
    assert(slot.is_long == long_serial(old_serial));
    lemma_hidden_counter(old_serial, len, slot.is_long);
}

} // verus!
