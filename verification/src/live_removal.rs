//! What removing a property from a shared area means for those who read it
//! afterwards.
use vstd::prelude::*;
use crate::area_edit::{
    delete, detach_record, prune, prune_link, wipe_node, wipe_record,
};
use crate::area_growth::lemma_rec_untouched;
use crate::area_keys::lemma_segments_distinct;
use crate::area_dead_nodes::{law_delete_prunes, lemma_formed_apart, no_dead_nodes};
use crate::area_laws::lemma_delete;
use crate::area_layout::{
    describes, is_link, lemma_child_behind, lemma_find_node, lemma_lookup, lemma_node,
    lemma_read_record, link_of, name_of, node_bytes, plain_text, rec_bytes, rec_bytes_at, rec_fits,
    content_at, string_at, well_formed, Layout, Owner, RecInfo,
};
use crate::area_pruning::{lemma_prune, lemma_prune_link, lemma_prune_links};
use crate::area_records::lemma_detach;
use crate::area_state::{
    key_ok, long_serial, lookup_content, lookup_value, segments, AreaFault, AreaState,
};
use crate::bytes::{lemma_le_bytes, lemma_nul_index_is, put_u32, u32_at, zero};
use crate::live_area::{
    live_prune, live_prune_link, live_remove, live_wipe, live_wipe_node, string_len, Live,
    MmapResult, OpView,
};
use crate::live_laws::{held, lemma_live_descend, lemma_live_kids, mirrors};

verus! {

/// Zeroing a zero byte more makes no difference.
proof fn lemma_zero_more(d: Seq<u8>, at: int, n: int)
    requires
        0 <= n,
        0 <= at,
        at + n < d.len(),
        d[at + n] == 0,
    ensures
        zero(d, at, n + 1) == zero(d, at, n),
{
    assert(zero(d, at, n + 1) =~= zero(d, at, n));
}

/// A string has the length that it has.
proof fn lemma_string_len(d: Seq<u8>, at: int, b: Seq<u8>)
    requires
        string_at(d, at, b),
        plain_text(b),
    ensures
        string_len(d, at) == Some(b.len() as int),
{
    reveal(plain_text);
    let n = b.len() as int;
    assert forall|i: int| at <= i < at + n implies d[i] != 0 by {
        assert(d[i] == b[i - at]);
    }
    lemma_nul_index_is(d, at, d.len() as int, at + n);
}

/// A record is wiped in the same way.
proof fn lemma_live_wipe(l: Live, p: int, r: RecInfo)
    requires
        rec_bytes(l.data, p, r),
        l.data.len() <= u32::MAX,
    ensures
        ({
            let (m, q) = live_wipe(l, p, r.long is Some);
            &&& q is Ok
            &&& m.used == l.used
            &&& m.data == wipe_record(l.data, p).0
        }),
{
    lemma_read_record(l.data, p, r);
    reveal(rec_bytes_at);
    reveal(Live::emit);
    let d = l.data;
    let n = r.name.len() as int;
    if let Some(at) = r.long {
        let v = r.value.len() as int;
        lemma_string_len(d, at, r.value);
        lemma_zero_more(d, at, v);
        let e = zero(d, at, v);
        assert(string_at(e, p + 96, r.name));
        lemma_string_len(e, p + 96, r.name);
        lemma_zero_more(e, p + 96, n);
    } else {
        lemma_string_len(d, p + 96, r.name);
        lemma_zero_more(d, p + 96, n);
    }
}

/// The record of a node is taken away in the same way.
proof fn lemma_live_detach(l: Live, s: AreaState, g: Layout, x: int)
    requires
        describes(g, s),
        mirrors(l, s),
        g.nodes.dom().contains(x),
        g.nodes[x].prop != 0,
    ensures
        ({
            let p = g.nodes[x].prop;
            let (m, q) = live_wipe(
                l.emit(OpView::StoreRelease(x + 4, 0)),
                p,
                long_serial(u32_at(l.data, p)),
            );
            &&& 0 < p
            &&& p + 96 <= s.data.len()
            &&& q is Ok
            &&& mirrors(m, s.with(detach_record(s.data, x, p).0))
        }),
{
    let p = g.nodes[x].prop;
    lemma_node(s, g, x);
    let r = g.recs[p];
    assert(rec_fits(s, g, p));
    let e = put_u32(s.data, x + 4, 0);
    lemma_le_bytes(0);
    assert forall|b: int| 0 <= b < s.used && #[trigger] (g.own)(b) != Owner::Node(x) implies e[b]
        == s.data[b] by {
        if x + 4 <= b < x + 8 {
            assert((g.own)(b) == Owner::Node(x));
        }
    }
    lemma_rec_untouched(s, g, p, e, x);
    let m = l.emit(OpView::StoreRelease(x + 4, 0));
    assert(m.data == e && m.used == l.used) by {
        reveal(Live::emit);
    }
    assert(long_serial(u32_at(s.data, p)) == (r.long is Some) && p + 96 <= s.data.len() && 0 < p)
        by {
        reveal(rec_bytes_at);
    }
    lemma_live_wipe(m, p, r);
}

/// A node is wiped in the same way.
proof fn lemma_live_wipe_node(l: Live, s: AreaState, g: Layout, c: int)
    requires
        describes(g, s),
        mirrors(l, s),
        g.nodes.dom().contains(c),
    ensures
        mirrors(
            live_wipe_node(l, c),
            s.with(wipe_node(s.data, c, name_of(g.nodes[c]).len() as int).0),
        ),
{
    lemma_node(s, g, c);
    reveal(node_bytes);
    reveal(Live::emit);
    let n = name_of(g.nodes[c]).len() as int;
    if n > 0 {
        lemma_zero_more(s.data, c + 20, n);
    }
}

/// The references of a node are pruned in the same way.
proof fn lemma_live_prune_links(l: Live, s: AreaState, g: Layout, c: int, depth: nat)
    requires
        describes(g, s),
        mirrors(l, s),
        g.nodes.dom().contains(c),
        c + 20 + 20 * depth >= s.data.len(),
    ensures
        ({
            let n = g.nodes[c];
            let (d1, r1) = prune_link(s.data, c + 16, n.kids, depth);
            let (d2, r2) = prune_link(d1, c + 8, n.left, depth);
            let (d3, r3) = prune_link(d2, c + 12, n.right, depth);
            let (l1, q1) = live_prune_link(l, c + 16, depth);
            let (l2, q2) = live_prune_link(l1, c + 8, depth);
            let (l3, q3) = live_prune_link(l2, c + 12, depth);
            &&& q1 is Ok && q1->Ok_0 == r1->Ok_0
            &&& q2 is Ok && q2->Ok_0 == r2->Ok_0
            &&& q3 is Ok && q3->Ok_0 == r3->Ok_0
            &&& mirrors(l3, s.with(d3))
        }),
    decreases depth, 1int,
{
    let n = g.nodes[c];
    lemma_node(s, g, c);
    lemma_live_prune_link(l, s, g, c, 16, depth);
    let h1 = lemma_prune_link(s, g, c, 16, depth);
    let s1 = s.with(prune_link(s.data, c + 16, n.kids, depth).0);
    let l1 = live_prune_link(l, c + 16, depth).0;
    lemma_live_prune_link(l1, s1, h1, c, 8, depth);
    let h2 = lemma_prune_link(s1, h1, c, 8, depth);
    let s2 = s.with(prune_link(s1.data, c + 8, n.left, depth).0);
    let l2 = live_prune_link(l1, c + 8, depth).0;
    lemma_live_prune_link(l2, s2, h2, c, 12, depth);
}

/// What a node refers to at one place is pruned in the same way.
proof fn lemma_live_prune_link(l: Live, s: AreaState, g: Layout, x: int, slot: int, depth: nat)
    requires
        describes(g, s),
        mirrors(l, s),
        g.nodes.dom().contains(x),
        is_link(slot),
        x + 20 + 20 * depth >= s.data.len(),
    ensures
        ({
            let (e, r) = prune_link(s.data, x + slot, link_of(g.nodes[x], slot), depth);
            let (m, q) = live_prune_link(l, x + slot, depth);
            &&& q is Ok && q->Ok_0 == r->Ok_0
            &&& mirrors(m, s.with(e))
        }),
    decreases depth, 0int,
{
    let c = link_of(g.nodes[x], slot);
    lemma_node(s, g, x);
    assert(u32_at(s.data, x + slot) == c) by {
        reveal(node_bytes);
    }
    if c != 0 {
        lemma_child_behind(s, g, x, slot);
        lemma_node(s, g, c);
        if depth > 0 {
            let n = g.nodes[c];
            let less = (depth - 1) as nat;
            lemma_live_prune_links(l, s, g, c, less);
            let h = lemma_prune_links(s, g, c, less);
            let (d1, r1) = prune_link(s.data, c + 16, n.kids, less);
            let (d2, r2) = prune_link(d1, c + 8, n.left, less);
            let (d3, r3) = prune_link(d2, c + 12, n.right, less);
            let l3 = live_prune_link(
                live_prune_link(live_prune_link(l, c + 16, less).0, c + 8, less).0,
                c + 12,
                less,
            ).0;
            lemma_node(s.with(d3), h, c);
            lemma_live_wipe_node(l3, s.with(d3), h, c);
            reveal(Live::emit);
        }
    }
}

/// A whole area is pruned in the same way.
proof fn lemma_live_prune(l: Live, s: AreaState, g: Layout)
    requires
        describes(g, s),
        mirrors(l, s),
    ensures
        mirrors(
            live_prune(l, 0, (l.data.len() + 1) as nat).0,
            s.with(prune(s.data, 0, (s.data.len() + 1) as nat).0),
        ),
{
    lemma_node(s, g, 0);
    let depth = s.data.len();
    lemma_live_prune_links(l, s, g, 0, depth);
    let h = lemma_prune_links(s, g, 0, depth);
    let n = g.nodes[0];
    let (d1, r1) = prune_link(s.data, 16, n.kids, depth);
    let (d2, r2) = prune_link(d1, 8, n.left, depth);
    let (d3, r3) = prune_link(d2, 12, n.right, depth);
    let l3 = live_prune_link(live_prune_link(live_prune_link(l, 16, depth).0, 8, depth).0, 12, depth).0;
    lemma_node(s.with(d3), h, 0);
    lemma_live_wipe_node(l3, s.with(d3), h, 0);
}

/// Removing a property does what deleting it does.
proof fn lemma_live_remove(l: Live, s: AreaState, g: Layout, key: Seq<u8>, pruned: bool)
    requires
        describes(g, s),
        mirrors(l, s),
        key_ok(key),
    ensures
        mirrors(live_remove(l, key, pruned).0, delete(s, key, pruned).0),
        live_remove(l, key, pruned).1 == MmapResult::Ok(content_at(g, segments(key)) is Some),
{
    let path = segments(key);
    lemma_node(s, g, 0);
    lemma_live_descend(l, s, g, 0, key);
    assert(g.nodes[0].path + path =~= path);
    lemma_find_node(s, g, key);
    if g.index.dom().contains(path) {
        let x = g.index[path];
        lemma_node(s, g, x);
        lemma_live_kids(s, g, x);
        let p = g.nodes[x].prop;
        if p != 0 {
            lemma_live_detach(l, s, g, x);
            let h = lemma_detach(s, g, x);
            let t = s.with(detach_record(s.data, x, p).0);
            let m = live_wipe(
                l.emit(OpView::StoreRelease(x + 4, 0)),
                p,
                long_serial(u32_at(l.data, p)),
            ).0;
            if pruned {
                lemma_live_prune(m, t, h);
                let k = lemma_prune(t, h);
            }
        }
    }
}

/// A property that was removed from a shared area is gone, and no other
/// property changes. The report says whether there was such a property. With
/// pruning, no node is left that leads to nothing.
pub proof fn law_live_remove(l: Live, key: Seq<u8>, pruned: bool, other: Seq<u8>)
    requires
        well_formed(held(l)),
        key_ok(key),
        key_ok(other),
        other != key,
    ensures
        ({
            let (m, r) = live_remove(l, key, pruned);
            &&& well_formed(held(m))
            &&& r == MmapResult::Ok(
                lookup_value(l.data, key) != Ok::<Option<Seq<u8>>, AreaFault>(None),
            )
            &&& lookup_value(m.data, key) == Ok::<Option<Seq<u8>>, AreaFault>(None)
            &&& lookup_value(m.data, other) == lookup_value(l.data, other)
            &&& lookup_content(m.data, other) == lookup_content(l.data, other)
            &&& pruned && r->Ok_0 ==> no_dead_nodes(m.data)
        }),
{
    let s = held(l);
    let g = choose|g: Layout| #[trigger] describes(g, s);
    lemma_live_remove(l, s, g, key, pruned);
    let h = lemma_delete(s, g, key, pruned);
    let m = live_remove(l, key, pruned).0;
    assert(held(m) =~= delete(s, key, pruned).0);
    lemma_lookup(s, g, key);
    lemma_lookup(s, g, other);
    lemma_lookup(held(m), h, key);
    lemma_lookup(held(m), h, other);
    lemma_segments_distinct(key, other);
    if pruned && live_remove(l, key, pruned).1->Ok_0 {
        lemma_formed_apart(s, key);
        law_delete_prunes(s, key);
    }
}

/// Removing a property from a shared area leaves the bytes that deleting it from a
/// plain one leaves, and says the same.
pub proof fn law_live_remove_same(l: Live, key: Seq<u8>, pruned: bool)
    requires
        well_formed(held(l)),
        key_ok(key),
    ensures
        held(live_remove(l, key, pruned).0) == delete(held(l), key, pruned).0,
        delete(held(l), key, pruned).1 is Ok,
        live_remove(l, key, pruned).1 == MmapResult::Ok(delete(held(l), key, pruned).1->Ok_0),
{
    let s = held(l);
    let g = choose|g: Layout| #[trigger] describes(g, s);
    lemma_live_remove(l, s, g, key, pruned);
    let h = lemma_delete(s, g, key, pruned);
    assert(held(live_remove(l, key, pruned).0) =~= delete(s, key, pruned).0);
}

} // verus!
