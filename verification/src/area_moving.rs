//! Moving one object of a property area towards the front.
use crate::area_growth::{
    agree, lemma_node_same, lemma_relink, lemma_string_same, lemma_word_same, same_values,
    with_link,
};
use crate::area_layout::{
    is_link, lemma_node, link_fits, link_of, long_size, name_of, node_bytes, node_fits, node_size,
    owned, rec_bytes_at, rec_fits_at, rec_size, string_at, trie_fits, content_at, Layout, NodeInfo,
    Owner, RecInfo,
};
use crate::area_records::lemma_reprop;
use crate::area_state::AreaState;
use crate::bytes::{lemma_le_bytes, lemma_put_u32, put, put_u32, u32_at};
use vstd::prelude::*;

verus! {

/// The record at `p` fits, with `rel[p]` stored as the distance to its long
/// value.
pub open spec fn rec_drafted(s: AreaState, g: Layout, rel: Map<int, int>, p: int) -> bool {
    rec_fits_at(s, g, p, rel[p])
}

/// The layout `g` describes the area `s` but for the stored distances to long
/// values, which are given by `rel`.
pub open spec fn drafts(g: Layout, s: AreaState, rel: Map<int, int>) -> bool {
    &&& trie_fits(g, s)
    &&& forall|p: int| g.recs.dom().contains(p) ==> #[trigger] rec_drafted(s, g, rel, p)
}

/// Two ranges have no byte in common.
pub open spec fn apart(a: int, n: int, b: int, m: int) -> bool {
    a + n <= b || b + m <= a
}

/// No object but `who` has a byte in the `n` bytes from `b` on.
pub open spec fn clear_of(g: Layout, who: Owner, b: int, n: int) -> bool {
    &&& forall|o: int| #[trigger]
        g.nodes.dom().contains(o) && Owner::Node(o) != who ==> apart(
            o,
            node_size(name_of(g.nodes[o]).len() as int),
            b,
            n,
        )
    &&& forall|p: int| #[trigger]
        g.recs.dom().contains(p) && Owner::Record(p) != who ==> apart(
            p,
            rec_size(g.recs[p].name.len() as int),
            b,
            n,
        )
    &&& forall|p: int| #[trigger]
        g.recs.dom().contains(p) && Owner::Long(p) != who ==> match g.recs[p].long {
            None => true,
            Some(at) => apart(at, long_size(g.recs[p].value.len() as int), b, n),
        }
}

/// The region with the word at `w` changed to `v`, and then `n` bytes copied
/// from `a` to `b`.
pub open spec fn shifted(d: Seq<u8>, w: int, v: int, a: int, b: int, n: int) -> Seq<u8> {
    let e = put_u32(d, w, v);
    put(e, b, e.subrange(a, a + n))
}

pub proof fn lemma_shifted(d: Seq<u8>, w: int, v: int, a: int, b: int, n: int)
    requires
        0 <= w,
        w + 4 <= b < a,
        0 <= n,
        a + n <= d.len(),
        0 <= v <= u32::MAX,
    ensures
        ({
            let e = shifted(d, w, v, a, b, n);
            &&& e.len() == d.len()
            &&& forall|y: int|
                0 <= y < d.len() && !(b <= y < b + n) && !(w <= y < w + 4) ==> #[trigger] e[y]
                    == d[y]
            &&& forall|y: int| b <= y < b + n ==> #[trigger] e[y] == d[y - b + a]
            &&& agree(put_u32(d, w, v), e, 0, b)
        }),
{
    lemma_le_bytes(v);
}

/// A node that was copied is the node.
proof fn lemma_node_shift(d: Seq<u8>, e: Seq<u8>, a: int, b: int, n: NodeInfo)
    requires
        node_bytes(d, a, n),
        e.len() == d.len(),
        0 <= b < a,
        ({
            let size = node_size(name_of(n).len() as int);
            forall|y: int| b <= y < b + size ==> #[trigger] e[y] == d[y - b + a]
        }),
    ensures
        node_bytes(e, b, n),
{
    reveal(node_bytes);
    assert(e[b] == d[a] && e[b + 1] == d[a + 1] && e[b + 2] == d[a + 2] && e[b + 3] == d[a + 3]);
    assert(e[b + 4] == d[a + 4] && e[b + 5] == d[a + 5] && e[b + 6] == d[a + 6] && e[b + 7] == d[a
        + 7]);
    assert(e[b + 8] == d[a + 8] && e[b + 9] == d[a + 9] && e[b + 10] == d[a + 10] && e[b + 11]
        == d[a + 11]);
    assert(e[b + 12] == d[a + 12] && e[b + 13] == d[a + 13] && e[b + 14] == d[a + 14] && e[b + 15]
        == d[a + 15]);
    assert(e[b + 16] == d[a + 16] && e[b + 17] == d[a + 17] && e[b + 18] == d[a + 18] && e[b + 19]
        == d[a + 19]);
    let name = name_of(n);
    if name.len() > 0 {
        lemma_string_shift(d, e, a, b, node_size(name.len() as int), 20, name);
    }
}

proof fn lemma_string_shift(d: Seq<u8>, e: Seq<u8>, a: int, b: int, n: int, i: int, t: Seq<u8>)
    requires
        string_at(d, a + i, t),
        e.len() == d.len(),
        0 <= b < a,
        0 <= i,
        i + t.len() < n,
        forall|y: int| b <= y < b + n ==> #[trigger] e[y] == d[y - b + a],
    ensures
        string_at(e, b + i, t),
{
    assert forall|j: int| b + i <= j < b + i + t.len() implies #[trigger] e[j] == t[j - (b + i)] by {
        assert(d[j - b + a] == t[(j - b + a) - (a + i)]);
    }
    assert(e[b + i + t.len()] == d[a + i + t.len()]);
}

/// A record that was copied is the record.
proof fn lemma_rec_shift(d: Seq<u8>, e: Seq<u8>, a: int, b: int, r: RecInfo, rel: int)
    requires
        rec_bytes_at(d, a, r, rel),
        e.len() == d.len(),
        0 <= b < a,
        ({
            let size = rec_size(r.name.len() as int);
            forall|y: int| b <= y < b + size ==> #[trigger] e[y] == d[y - b + a]
        }),
        r.long matches Some(at) ==> agree(d, e, at, long_size(r.value.len() as int)),
    ensures
        rec_bytes_at(e, b, r, rel),
{
    reveal(rec_bytes_at);
    let size = rec_size(r.name.len() as int);
    assert(e[b] == d[a] && e[b + 1] == d[a + 1] && e[b + 2] == d[a + 2] && e[b + 3] == d[a + 3]);
    assert(e[b + 60] == d[a + 60] && e[b + 61] == d[a + 61] && e[b + 62] == d[a + 62] && e[b + 63]
        == d[a + 63]);
    lemma_string_shift(d, e, a, b, size, 96, r.name);
    match r.long {
        None => {
            lemma_string_shift(d, e, a, b, size, 4, r.value);
        },
        Some(at) => {
            lemma_string_same(d, e, at, long_size(r.value.len() as int), at, r.value);
        },
    }
}

/// A record depends on its own bytes and those of its long value only.
proof fn lemma_rec_at_same(d: Seq<u8>, e: Seq<u8>, p: int, r: RecInfo, rel: int)
    requires
        rec_bytes_at(d, p, r, rel),
        agree(d, e, p, rec_size(r.name.len() as int)),
        r.long matches Some(at) ==> agree(d, e, at, long_size(r.value.len() as int)),
    ensures
        rec_bytes_at(e, p, r, rel),
{
    reveal(rec_bytes_at);
    let size = rec_size(r.name.len() as int);
    lemma_word_same(d, e, p, size, p);
    lemma_word_same(d, e, p, size, p + 60);
    lemma_string_same(d, e, p, size, p + 96, r.name);
    match r.long {
        None => {
            lemma_string_same(d, e, p, size, p + 4, r.value);
        },
        Some(at) => {
            lemma_string_same(d, e, at, long_size(r.value.len() as int), at, r.value);
        },
    }
}

/// Where the bytes of a record lie.
proof fn lemma_rec_place(s: AreaState, g: Layout, rel: Map<int, int>, p: int)
    requires
        drafts(g, s, rel),
        g.recs.dom().contains(p),
    ensures
        rec_drafted(s, g, rel, p),
        ({
            let r = g.recs[p];
            &&& 0 < p
            &&& p + rec_size(r.name.len() as int) <= s.used
            &&& r.long matches Some(at) ==> p + rec_size(r.name.len() as int) <= at && at
                + long_size(r.value.len() as int) <= s.used
        }),
{
    assert(rec_drafted(s, g, rel, p));
    reveal(rec_bytes_at);
}

// ---------------------------------------------------------------------------
// Moving a node
// ---------------------------------------------------------------------------

/// The layout with the node at `a` moved to `b`.
pub open spec fn node_moved(g: Layout, a: int, b: int) -> Layout {
    let n = g.nodes[a];
    let size = node_size(name_of(n).len() as int);
    Layout {
        nodes: Map::new(
            |o: int| o == b || (g.nodes.dom().contains(o) && o != a),
            |o: int|
                if o == b {
                    n
                } else if o == n.from {
                    with_link(g.nodes[o], n.slot, b)
                } else if g.nodes[o].from == a {
                    NodeInfo { from: b, ..g.nodes[o] }
                } else {
                    g.nodes[o]
                },
        ),
        recs: if n.prop != 0 {
            g.recs.insert(n.prop, RecInfo { node: b, ..g.recs[n.prop] })
        } else {
            g.recs
        },
        index: g.index.insert(n.path, b),
        own: |y: int|
            if b <= y < b + size {
                Owner::Node(b)
            } else {
                (g.own)(y)
            },
    }
}

/// The node at `a` can be moved to `b`.
pub open spec fn can_move_node(s: AreaState, g: Layout, rel: Map<int, int>, a: int, b: int) -> bool {
    let n = g.nodes[a];
    let size = node_size(name_of(n).len() as int);
    &&& drafts(g, s, rel)
    &&& g.nodes.dom().contains(a)
    &&& a != 0
    &&& n.from + node_size(name_of(g.nodes[n.from]).len() as int) <= b < a
    &&& clear_of(g, Owner::Node(a), b, size)
}

/// The area after the node at `a` was moved to `b`.
pub open spec fn after_node_move(s: AreaState, g: Layout, a: int, b: int) -> AreaState {
    let n = g.nodes[a];
    s.with(shifted(s.data, n.from + n.slot, b, a, b, node_size(name_of(n).len() as int)))
}

/// What moving a node changes in the bytes.
proof fn lemma_node_moved_bytes(s: AreaState, g: Layout, rel: Map<int, int>, a: int, b: int)
    requires
        can_move_node(s, g, rel, a, b),
    ensures
        ({
            let n = g.nodes[a];
            let x = n.from;
            let size = node_size(name_of(n).len() as int);
            let t = after_node_move(s, g, a, b);
            &&& !g.nodes.dom().contains(b)
            &&& g.nodes.dom().contains(x)
            &&& 0 <= x < b
            &&& is_link(n.slot)
            &&& t.data.len() == s.data.len()
            &&& forall|y: int| b <= y < b + size ==> #[trigger] t.data[y] == s.data[y - b + a]
            &&& agree(put_u32(s.data, x + n.slot, b), t.data, 0, b)
            &&& forall|y: int|
                0 <= y < s.data.len() && !(b <= y < b + size) && (g.own)(y) != Owner::Node(x)
                    ==> #[trigger] t.data[y] == s.data[y]
        }),
{
    let n = g.nodes[a];
    let x = n.from;
    let size = node_size(name_of(n).len() as int);
    let t = after_node_move(s, g, a, b);
    lemma_node(s, g, a);
    lemma_node(s, g, x);
    lemma_shifted(s.data, x + n.slot, b, a, b, size);
    if g.nodes.dom().contains(b) {
        assert(apart(b, node_size(name_of(g.nodes[b]).len() as int), b, size));
        lemma_node(s, g, b);
    }
    assert forall|y: int|
        0 <= y < s.data.len() && !(b <= y < b + size) && (g.own)(y) != Owner::Node(
            x,
        ) implies #[trigger] t.data[y] == s.data[y] by {
        if x + n.slot <= y < x + n.slot + 4 {
            assert((g.own)(y) == Owner::Node(x));
        }
    }
}

/// Where a node is moved from and to.
proof fn lemma_node_place(s: AreaState, g: Layout, rel: Map<int, int>, a: int, b: int)
    requires
        can_move_node(s, g, rel, a, b),
    ensures
        ({
            let x = g.nodes[a].from;
            &&& !g.nodes.dom().contains(b)
            &&& g.nodes.dom().contains(x)
            &&& 0 <= x < b
            &&& is_link(g.nodes[a].slot)
        }),
{
    lemma_node_moved_bytes(s, g, rel, a, b);
}

/// A reference stays good when a node is moved.
proof fn lemma_node_moved_link(s: AreaState, g: Layout, a: int, b: int, o: int, k: int)
    requires
        trie_fits(g, s),
        g.nodes.dom().contains(a),
        a != 0,
        !g.nodes.dom().contains(b),
        0 <= g.nodes[a].from < b < a,
        g.nodes.dom().contains(o),
        is_link(k),
    ensures
        link_fits(
            node_moved(g, a, b),
            if o == a {
                b
            } else {
                o
            },
            k,
        ),
{
    let n = g.nodes[a];
    let x = n.from;
    let h = node_moved(g, a, b);
    let to = if o == a {
        b
    } else {
        o
    };
    assert(node_fits(s, g, a));
    assert(node_fits(s, g, x));
    assert(node_fits(s, g, o));
    assert(link_fits(g, o, k));
    let c = link_of(g.nodes[o], k);
    if c != 0 {
        assert(node_fits(s, g, c));
        if c == a {
            assert(o == x && k == n.slot);
            assert(link_of(h.nodes[to], k) == b);
            assert(h.nodes[b] == n);
        } else {
            assert(link_of(h.nodes[to], k) == c);
            assert(h.nodes[c].path == g.nodes[c].path);
            assert(name_of(h.nodes[to]) == name_of(g.nodes[o]));
        }
    }
}

/// References stay good when a node is moved.
proof fn lemma_node_moved_links(
    s: AreaState,
    g: Layout,
    rel: Map<int, int>,
    a: int,
    b: int,
    o: int,
)
    requires
        can_move_node(s, g, rel, a, b),
        g.nodes.dom().contains(o),
    ensures
        ({
            let to = if o == a {
                b
            } else {
                o
            };
            &&& link_fits(node_moved(g, a, b), to, 8)
            &&& link_fits(node_moved(g, a, b), to, 12)
            &&& link_fits(node_moved(g, a, b), to, 16)
        }),
{
    lemma_node_place(s, g, rel, a, b);
    lemma_node_moved_link(s, g, a, b, o, 8);
    lemma_node_moved_link(s, g, a, b, o, 12);
    lemma_node_moved_link(s, g, a, b, o, 16);
}

/// The node that was moved fits.
proof fn lemma_node_moved_self(s: AreaState, g: Layout, rel: Map<int, int>, a: int, b: int)
    requires
        can_move_node(s, g, rel, a, b),
    ensures
        node_fits(after_node_move(s, g, a, b), node_moved(g, a, b), b),
{
    lemma_node_moved_bytes(s, g, rel, a, b);
    lemma_node_moved_links(s, g, rel, a, b, a);
    let n = g.nodes[a];
    let t = after_node_move(s, g, a, b);
    let h = node_moved(g, a, b);
    lemma_node(s, g, a);
    lemma_node(s, g, n.from);
    lemma_node_shift(s.data, t.data, a, b, n);
    assert(h.nodes[b] == n);
    assert(h.nodes[n.from] == with_link(g.nodes[n.from], n.slot, b));
}

/// The bytes of the other nodes.
proof fn lemma_node_moved_other_bytes(
    s: AreaState,
    g: Layout,
    rel: Map<int, int>,
    a: int,
    b: int,
    o: int,
)
    requires
        can_move_node(s, g, rel, a, b),
        g.nodes.dom().contains(o),
        o != a,
    ensures
        node_bytes(after_node_move(s, g, a, b).data, o, node_moved(g, a, b).nodes[o]),
        owned(
            node_moved(g, a, b).own,
            Owner::Node(o),
            o,
            node_size(name_of(g.nodes[o]).len() as int),
        ),
{
    lemma_node_moved_bytes(s, g, rel, a, b);
    let n = g.nodes[a];
    let x = n.from;
    let size = node_size(name_of(n).len() as int);
    let t = after_node_move(s, g, a, b);
    let h = node_moved(g, a, b);
    let m = g.nodes[o];
    let room = node_size(name_of(m).len() as int);
    lemma_node(s, g, o);
    lemma_node(s, g, a);
    assert(apart(o, room, b, size));
    if o == x {
        let e = put_u32(s.data, x + n.slot, b);
        lemma_relink(s.data, x, m, n.slot, b);
        lemma_node_same(e, t.data, x, with_link(m, n.slot, b));
    } else {
        assert(agree(s.data, t.data, o, room)) by {
            assert forall|y: int| o <= y < o + room implies #[trigger] t.data[y] == s.data[y] by {
                assert((g.own)(y) == Owner::Node(o));
            }
        }
        lemma_node_same(s.data, t.data, o, m);
        assert(name_of(h.nodes[o]) == name_of(m));
        reveal(node_bytes);
    }
    assert forall|y: int| o <= y < o + room implies #[trigger] (h.own)(y) == Owner::Node(o) by {
        assert((g.own)(y) == Owner::Node(o));
    }
}

/// The other nodes fit.
proof fn lemma_node_moved_other(
    s: AreaState,
    g: Layout,
    rel: Map<int, int>,
    a: int,
    b: int,
    o: int,
)
    requires
        can_move_node(s, g, rel, a, b),
        g.nodes.dom().contains(o),
        o != a,
    ensures
        node_fits(after_node_move(s, g, a, b), node_moved(g, a, b), o),
{
    lemma_node_moved_bytes(s, g, rel, a, b);
    lemma_node_moved_other_bytes(s, g, rel, a, b, o);
    lemma_node_moved_links(s, g, rel, a, b, o);
    let n = g.nodes[a];
    let h = node_moved(g, a, b);
    let m = g.nodes[o];
    lemma_node(s, g, a);
    lemma_node(s, g, o);
    assert(name_of(h.nodes[o]) == name_of(m));
    assert(h.nodes[o].path == m.path);
    if o != 0 {
        lemma_node(s, g, m.from);
        if m.from == a {
            assert(h.nodes[b] == n);
        } else {
            assert(link_of(h.nodes[m.from], m.slot) == o);
        }
    }
    assert(m.path != n.path);
}

proof fn lemma_node_moved_rec(s: AreaState, g: Layout, rel: Map<int, int>, a: int, b: int, p: int)
    requires
        can_move_node(s, g, rel, a, b),
        g.recs.dom().contains(p),
    ensures
        rec_drafted(after_node_move(s, g, a, b), node_moved(g, a, b), rel, p),
{
    let n = g.nodes[a];
    let x = n.from;
    let size = node_size(name_of(n).len() as int);
    let t = after_node_move(s, g, a, b);
    let h = node_moved(g, a, b);
    lemma_node(s, g, a);
    lemma_node(s, g, x);
    lemma_shifted(s.data, x + n.slot, b, a, b, size);
    lemma_rec_place(s, g, rel, p);
    let r = g.recs[p];
    let room = rec_size(r.name.len() as int);
    lemma_node(s, g, r.node);
    assert(apart(p, room, b, size));
    assert(owned(h.own, Owner::Record(p), p, room) && agree(s.data, t.data, p, room)) by {
        assert forall|y: int| p <= y < p + room implies #[trigger] (h.own)(y) == Owner::Record(p) by {
            assert((g.own)(y) == Owner::Record(p));
        }
        assert forall|y: int| p <= y < p + room implies #[trigger] t.data[y] == s.data[y] by {
            assert((g.own)(y) == Owner::Record(p));
            if x + n.slot <= y < x + n.slot + 4 {
                assert((g.own)(y) == Owner::Node(x));
            }
        }
    }
    if let Some(at) = r.long {
        let lroom = long_size(r.value.len() as int);
        assert(apart(at, lroom, b, size));
        assert(owned(h.own, Owner::Long(p), at, lroom) && agree(s.data, t.data, at, lroom)) by {
            assert forall|y: int| at <= y < at + lroom implies #[trigger] (h.own)(y) == Owner::Long(
                p,
            ) by {
                assert((g.own)(y) == Owner::Long(p));
            }
            assert forall|y: int| at <= y < at + lroom implies #[trigger] t.data[y] == s.data[y] by {
                assert((g.own)(y) == Owner::Long(p));
                if x + n.slot <= y < x + n.slot + 4 {
                    assert((g.own)(y) == Owner::Node(x));
                }
            }
        }
    }
    lemma_rec_at_same(s.data, t.data, p, r, rel[p]);
    assert(rec_bytes_at(t.data, p, h.recs[p], rel[p])) by {
        reveal(rec_bytes_at);
    }
    assert(!g.nodes.dom().contains(b)) by {
        if g.nodes.dom().contains(b) {
            assert(apart(b, node_size(name_of(g.nodes[b]).len() as int), b, size));
            lemma_node(s, g, b);
        }
    }
}

/// Moving a node keeps the rest of the layout and all values.
pub proof fn lemma_node_moved(s: AreaState, g: Layout, rel: Map<int, int>, a: int, b: int)
    requires
        can_move_node(s, g, rel, a, b),
    ensures
        drafts(node_moved(g, a, b), after_node_move(s, g, a, b), rel),
        same_values(g, node_moved(g, a, b)),
        !g.nodes.dom().contains(b),
{
    let n = g.nodes[a];
    let size = node_size(name_of(n).len() as int);
    let t = after_node_move(s, g, a, b);
    let h = node_moved(g, a, b);
    lemma_node(s, g, a);
    lemma_node(s, g, n.from);
    lemma_shifted(s.data, n.from + n.slot, b, a, b, size);
    if g.nodes.dom().contains(b) {
        assert(apart(b, node_size(name_of(g.nodes[b]).len() as int), b, size));
        lemma_node(s, g, b);
    }
    assert(h.nodes.dom().contains(0));
    assert forall|o: int| h.nodes.dom().contains(o) implies #[trigger] node_fits(t, h, o) by {
        if o == b {
            lemma_node_moved_self(s, g, rel, a, b);
        } else {
            lemma_node_moved_other(s, g, rel, a, b, o);
        }
    }
    assert forall|p: int| h.recs.dom().contains(p) implies #[trigger] rec_drafted(t, h, rel, p) by {
        lemma_node_moved_rec(s, g, rel, a, b, p);
    }
    assert forall|q: Seq<Seq<u8>>| #[trigger] h.index.dom().contains(q) implies h.nodes.dom().contains(
        h.index[q],
    ) && h.nodes[h.index[q]].path == q by {
        if q != n.path {
            lemma_node(s, g, g.index[q]);
        }
    }
    assert forall|q: Seq<Seq<u8>>| #[trigger] content_at(h, q) == content_at(g, q) by {
        if g.index.dom().contains(q) {
            lemma_node(s, g, g.index[q]);
        }
    }
}

// ---------------------------------------------------------------------------
// Moving a record
// ---------------------------------------------------------------------------

/// The layout with the record at `a` moved to `b`.
pub open spec fn rec_moved(g: Layout, a: int, b: int) -> Layout {
    let r = g.recs[a];
    let size = rec_size(r.name.len() as int);
    Layout {
        nodes: g.nodes.insert(r.node, NodeInfo { prop: b, ..g.nodes[r.node] }),
        recs: g.recs.remove(a).insert(b, r),
        index: g.index,
        own: |y: int|
            if b <= y < b + size {
                Owner::Record(b)
            } else if (g.own)(y) == Owner::Long(a) {
                Owner::Long(b)
            } else {
                (g.own)(y)
            },
    }
}

/// The record at `a` can be moved to `b`.
pub open spec fn can_move_rec(s: AreaState, g: Layout, rel: Map<int, int>, a: int, b: int) -> bool {
    let r = g.recs[a];
    let size = rec_size(r.name.len() as int);
    &&& drafts(g, s, rel)
    &&& g.recs.dom().contains(a)
    &&& r.node + node_size(name_of(g.nodes[r.node]).len() as int) <= b < a
    &&& clear_of(g, Owner::Record(a), b, size)
}

/// The area after the record at `a` was moved to `b`.
pub open spec fn after_rec_move(s: AreaState, g: Layout, a: int, b: int) -> AreaState {
    let r = g.recs[a];
    s.with(shifted(s.data, r.node + 4, b, a, b, rec_size(r.name.len() as int)))
}

/// What moving a record changes in the bytes.
proof fn lemma_rec_moved_bytes(s: AreaState, g: Layout, rel: Map<int, int>, a: int, b: int)
    requires
        can_move_rec(s, g, rel, a, b),
    ensures
        ({
            let r = g.recs[a];
            let x = r.node;
            let size = rec_size(r.name.len() as int);
            let t = after_rec_move(s, g, a, b);
            &&& !g.recs.dom().contains(b)
            &&& g.nodes.dom().contains(x)
            &&& 0 <= x < b
            &&& t.data.len() == s.data.len()
            &&& forall|y: int| b <= y < b + size ==> #[trigger] t.data[y] == s.data[y - b + a]
            &&& agree(put_u32(s.data, x + 4, b), t.data, 0, b)
            &&& forall|y: int|
                0 <= y < s.data.len() && !(b <= y < b + size) && (g.own)(y) != Owner::Node(x)
                    ==> #[trigger] t.data[y] == s.data[y]
        }),
{
    let r = g.recs[a];
    let x = r.node;
    let size = rec_size(r.name.len() as int);
    let t = after_rec_move(s, g, a, b);
    lemma_rec_place(s, g, rel, a);
    lemma_node(s, g, x);
    lemma_shifted(s.data, x + 4, b, a, b, size);
    if g.recs.dom().contains(b) {
        assert(apart(b, rec_size(g.recs[b].name.len() as int), b, size));
    }
    assert forall|y: int|
        0 <= y < s.data.len() && !(b <= y < b + size) && (g.own)(y) != Owner::Node(
            x,
        ) implies #[trigger] t.data[y] == s.data[y] by {
        if x + 4 <= y < x + 8 {
            assert((g.own)(y) == Owner::Node(x));
        }
    }
}

/// The nodes fit after a record was moved.
proof fn lemma_rec_moved_node(s: AreaState, g: Layout, rel: Map<int, int>, a: int, b: int, o: int)
    requires
        can_move_rec(s, g, rel, a, b),
        g.nodes.dom().contains(o),
    ensures
        node_fits(after_rec_move(s, g, a, b), rec_moved(g, a, b), o),
{
    lemma_rec_moved_bytes(s, g, rel, a, b);
    let r = g.recs[a];
    let x = r.node;
    let size = rec_size(r.name.len() as int);
    let t = after_rec_move(s, g, a, b);
    let h = rec_moved(g, a, b);
    let m = g.nodes[o];
    let room = node_size(name_of(m).len() as int);
    lemma_rec_place(s, g, rel, a);
    lemma_node(s, g, x);
    lemma_node(s, g, o);
    assert(apart(o, room, b, size));
    assert(name_of(h.nodes[o]) == name_of(m));
    if o == x {
        let e = put_u32(s.data, x + 4, b);
        lemma_reprop(s.data, x, m, b);
        lemma_node_same(e, t.data, x, NodeInfo { prop: b, ..m });
    } else {
        assert(agree(s.data, t.data, o, room)) by {
            assert forall|y: int| o <= y < o + room implies #[trigger] t.data[y] == s.data[y] by {
                assert((g.own)(y) == Owner::Node(o));
            }
        }
        lemma_node_same(s.data, t.data, o, m);
        if m.prop != 0 {
            assert(m.prop != a);
            assert(m.prop != b);
        }
    }
    assert(owned(h.own, Owner::Node(o), o, room)) by {
        assert forall|y: int| o <= y < o + room implies #[trigger] (h.own)(y) == Owner::Node(o) by {
            assert((g.own)(y) == Owner::Node(o));
        }
    }
    assert forall|k: int| is_link(k) implies #[trigger] link_fits(h, o, k) by {
        assert(link_fits(g, o, k));
        assert(link_of(h.nodes[o], k) == link_of(m, k));
    }
    assert(link_fits(h, o, 8) && link_fits(h, o, 12) && link_fits(h, o, 16));
    if o != 0 {
        lemma_node(s, g, m.from);
    }
}

/// The record that was moved fits.
proof fn lemma_rec_moved_self(s: AreaState, g: Layout, rel: Map<int, int>, a: int, b: int)
    requires
        can_move_rec(s, g, rel, a, b),
    ensures
        rec_fits_at(after_rec_move(s, g, a, b), rec_moved(g, a, b), b, rel[a]),
{
    lemma_rec_moved_bytes(s, g, rel, a, b);
    let r = g.recs[a];
    let size = rec_size(r.name.len() as int);
    let t = after_rec_move(s, g, a, b);
    let h = rec_moved(g, a, b);
    lemma_rec_place(s, g, rel, a);
    lemma_node(s, g, r.node);
    if let Some(at) = r.long {
        let lroom = long_size(r.value.len() as int);
        assert(apart(at, lroom, b, size));
        assert(owned(h.own, Owner::Long(b), at, lroom) && agree(s.data, t.data, at, lroom)) by {
            assert forall|y: int| at <= y < at + lroom implies #[trigger] (h.own)(y) == Owner::Long(
                b,
            ) by {
                assert((g.own)(y) == Owner::Long(a));
            }
            assert forall|y: int| at <= y < at + lroom implies #[trigger] t.data[y] == s.data[y] by {
                assert((g.own)(y) == Owner::Long(a));
            }
        }
    }
    lemma_rec_shift(s.data, t.data, a, b, r, rel[a]);
}

/// The other records fit.
proof fn lemma_rec_moved_other(
    s: AreaState,
    g: Layout,
    rel: Map<int, int>,
    a: int,
    b: int,
    p: int,
)
    requires
        can_move_rec(s, g, rel, a, b),
        g.recs.dom().contains(p),
        p != a,
    ensures
        rec_fits_at(after_rec_move(s, g, a, b), rec_moved(g, a, b), p, rel[p]),
{
    lemma_rec_moved_bytes(s, g, rel, a, b);
    let size = rec_size(g.recs[a].name.len() as int);
    let t = after_rec_move(s, g, a, b);
    let h = rec_moved(g, a, b);
    lemma_rec_place(s, g, rel, a);
    lemma_rec_place(s, g, rel, p);
    let r = g.recs[p];
    let room = rec_size(r.name.len() as int);
    lemma_node(s, g, r.node);
    assert(apart(p, room, b, size));
    assert(owned(h.own, Owner::Record(p), p, room) && agree(s.data, t.data, p, room)) by {
        assert forall|y: int| p <= y < p + room implies #[trigger] (h.own)(y) == Owner::Record(p) by {
            assert((g.own)(y) == Owner::Record(p));
        }
        assert forall|y: int| p <= y < p + room implies #[trigger] t.data[y] == s.data[y] by {
            assert((g.own)(y) == Owner::Record(p));
        }
    }
    if let Some(at) = r.long {
        let lroom = long_size(r.value.len() as int);
        assert(apart(at, lroom, b, size));
        assert(owned(h.own, Owner::Long(p), at, lroom) && agree(s.data, t.data, at, lroom)) by {
            assert forall|y: int| at <= y < at + lroom implies #[trigger] (h.own)(y) == Owner::Long(
                p,
            ) by {
                assert((g.own)(y) == Owner::Long(p));
            }
            assert forall|y: int| at <= y < at + lroom implies #[trigger] t.data[y] == s.data[y] by {
                assert((g.own)(y) == Owner::Long(p));
            }
        }
    }
    lemma_rec_at_same(s.data, t.data, p, r, rel[p]);
    assert(r.node != g.recs[a].node);
    assert(h.recs[p] == r);
}

/// Moving a record keeps the rest of the layout and all values.
pub proof fn lemma_rec_moved(s: AreaState, g: Layout, rel: Map<int, int>, a: int, b: int)
    requires
        can_move_rec(s, g, rel, a, b),
    ensures
        drafts(rec_moved(g, a, b), after_rec_move(s, g, a, b), rel.insert(b, rel[a])),
        same_values(g, rec_moved(g, a, b)),
        !g.recs.dom().contains(b),
{
    lemma_rec_moved_bytes(s, g, rel, a, b);
    let t = after_rec_move(s, g, a, b);
    let h = rec_moved(g, a, b);
    let rel2 = rel.insert(b, rel[a]);
    lemma_rec_place(s, g, rel, a);
    lemma_node(s, g, g.recs[a].node);
    assert forall|o: int| h.nodes.dom().contains(o) implies #[trigger] node_fits(t, h, o) by {
        lemma_rec_moved_node(s, g, rel, a, b, o);
    }
    assert forall|p: int| h.recs.dom().contains(p) implies #[trigger] rec_drafted(t, h, rel2, p) by {
        if p == b {
            lemma_rec_moved_self(s, g, rel, a, b);
        } else {
            lemma_rec_moved_other(s, g, rel, a, b, p);
        }
    }
    assert forall|q: Seq<Seq<u8>>| #[trigger] h.index.dom().contains(q) implies h.nodes.dom().contains(
        h.index[q],
    ) && h.nodes[h.index[q]].path == q by {
        lemma_node(s, g, g.index[q]);
    }
    assert forall|q: Seq<Seq<u8>>| #[trigger] content_at(h, q) == content_at(g, q) by {
        if g.index.dom().contains(q) {
            let o = g.index[q];
            lemma_node(s, g, o);
            let p = g.nodes[o].prop;
            if p != 0 && p != a {
                assert(p != b);
            }
        }
    }
}

// ---------------------------------------------------------------------------
// Moving a long value
// ---------------------------------------------------------------------------

/// The layout with the long value of the record at `p` moved to `b`.
pub open spec fn long_moved(g: Layout, p: int, b: int) -> Layout {
    let r = g.recs[p];
    let size = long_size(r.value.len() as int);
    Layout {
        nodes: g.nodes,
        recs: g.recs.insert(p, RecInfo { long: Some(b), ..r }),
        index: g.index,
        own: |y: int|
            if b <= y < b + size {
                Owner::Long(p)
            } else {
                (g.own)(y)
            },
    }
}

/// The long value of the record at `p`, at `a`, can be moved to `b`.
pub open spec fn can_move_long(
    s: AreaState,
    g: Layout,
    rel: Map<int, int>,
    p: int,
    a: int,
    b: int,
) -> bool {
    let r = g.recs[p];
    &&& drafts(g, s, rel)
    &&& g.recs.dom().contains(p)
    &&& r.long == Some(a)
    &&& p + rec_size(r.name.len() as int) <= b < a
    &&& clear_of(g, Owner::Long(p), b, long_size(r.value.len() as int))
}

/// The area after the long value of the record at `p` was moved from `a` to
/// `b`.
pub open spec fn after_long_move(s: AreaState, g: Layout, p: int, a: int, b: int) -> AreaState {
    s.with(shifted(s.data, p + 60, b - p, a, b, long_size(g.recs[p].value.len() as int)))
}

/// What moving a long value changes in the bytes.
proof fn lemma_long_moved_bytes(
    s: AreaState,
    g: Layout,
    rel: Map<int, int>,
    p: int,
    a: int,
    b: int,
)
    requires
        can_move_long(s, g, rel, p, a, b),
    ensures
        ({
            let size = long_size(g.recs[p].value.len() as int);
            let t = after_long_move(s, g, p, a, b);
            &&& 0 < p
            &&& t.data.len() == s.data.len()
            &&& forall|y: int| b <= y < b + size ==> #[trigger] t.data[y] == s.data[y - b + a]
            &&& agree(put_u32(s.data, p + 60, b - p), t.data, 0, b)
            &&& forall|y: int|
                0 <= y < s.data.len() && !(b <= y < b + size) && (g.own)(y) != Owner::Record(p)
                    ==> #[trigger] t.data[y] == s.data[y]
        }),
{
    let size = long_size(g.recs[p].value.len() as int);
    let t = after_long_move(s, g, p, a, b);
    lemma_rec_place(s, g, rel, p);
    lemma_shifted(s.data, p + 60, b - p, a, b, size);
    assert forall|y: int|
        0 <= y < s.data.len() && !(b <= y < b + size) && (g.own)(y) != Owner::Record(
            p,
        ) implies #[trigger] t.data[y] == s.data[y] by {
        if p + 60 <= y < p + 64 {
            assert((g.own)(y) == Owner::Record(p));
        }
    }
}

/// The record whose long value was moved fits.
proof fn lemma_long_moved_self(
    s: AreaState,
    g: Layout,
    rel: Map<int, int>,
    p: int,
    a: int,
    b: int,
)
    requires
        can_move_long(s, g, rel, p, a, b),
    ensures
        rec_fits_at(after_long_move(s, g, p, a, b), long_moved(g, p, b), p, b - p),
{
    lemma_long_moved_bytes(s, g, rel, p, a, b);
    let t = after_long_move(s, g, p, a, b);
    let h = long_moved(g, p, b);
    let r = g.recs[p];
    let size = long_size(r.value.len() as int);
    let room = rec_size(r.name.len() as int);
    lemma_rec_place(s, g, rel, p);
    lemma_node(s, g, r.node);
    assert(owned(h.own, Owner::Record(p), p, room)) by {
        assert forall|y: int| p <= y < p + room implies #[trigger] (h.own)(y) == Owner::Record(p) by {
            assert((g.own)(y) == Owner::Record(p));
        }
    }
    reveal(rec_bytes_at);
    let e = put_u32(s.data, p + 60, b - p);
    lemma_put_u32(s.data, p + 60, b - p);
    lemma_le_bytes(b - p);
    assert(u32_at(s.data, p) == u32_at(e, p));
    lemma_word_same(e, t.data, 0, b, p);
    lemma_word_same(e, t.data, 0, b, p + 60);
    assert(string_at(e, p + 96, r.name));
    lemma_string_same(e, t.data, 0, b, p + 96, r.name);
    lemma_string_shift(s.data, t.data, a, b, size, 0, r.value);
}

/// Nodes and other records fit after a long value was moved.
proof fn lemma_long_moved_other(
    s: AreaState,
    g: Layout,
    rel: Map<int, int>,
    p: int,
    a: int,
    b: int,
    k: int,
)
    requires
        can_move_long(s, g, rel, p, a, b),
        g.recs.dom().contains(k),
        k != p,
    ensures
        rec_fits_at(after_long_move(s, g, p, a, b), long_moved(g, p, b), k, rel[k]),
{
    lemma_long_moved_bytes(s, g, rel, p, a, b);
    let t = after_long_move(s, g, p, a, b);
    let h = long_moved(g, p, b);
    let size = long_size(g.recs[p].value.len() as int);
    lemma_rec_place(s, g, rel, k);
    let r = g.recs[k];
    let room = rec_size(r.name.len() as int);
    lemma_node(s, g, r.node);
    assert(apart(k, room, b, size));
    assert(owned(h.own, Owner::Record(k), k, room) && agree(s.data, t.data, k, room)) by {
        assert forall|y: int| k <= y < k + room implies #[trigger] (h.own)(y) == Owner::Record(k) by {
            assert((g.own)(y) == Owner::Record(k));
        }
        assert forall|y: int| k <= y < k + room implies #[trigger] t.data[y] == s.data[y] by {
            assert((g.own)(y) == Owner::Record(k));
        }
    }
    if let Some(at) = r.long {
        let lroom = long_size(r.value.len() as int);
        assert(apart(at, lroom, b, size));
        assert(owned(h.own, Owner::Long(k), at, lroom) && agree(s.data, t.data, at, lroom)) by {
            assert forall|y: int| at <= y < at + lroom implies #[trigger] (h.own)(y) == Owner::Long(
                k,
            ) by {
                assert((g.own)(y) == Owner::Long(k));
            }
            assert forall|y: int| at <= y < at + lroom implies #[trigger] t.data[y] == s.data[y] by {
                assert((g.own)(y) == Owner::Long(k));
            }
        }
    }
    lemma_rec_at_same(s.data, t.data, k, r, rel[k]);
}

/// Moving a long value keeps the rest of the layout and all values, and stores
/// the distance to it.
pub proof fn lemma_long_moved(
    s: AreaState,
    g: Layout,
    rel: Map<int, int>,
    p: int,
    a: int,
    b: int,
)
    requires
        can_move_long(s, g, rel, p, a, b),
    ensures
        drafts(long_moved(g, p, b), after_long_move(s, g, p, a, b), rel.insert(p, b - p)),
        same_values(g, long_moved(g, p, b)),
{
    lemma_long_moved_bytes(s, g, rel, p, a, b);
    let t = after_long_move(s, g, p, a, b);
    let h = long_moved(g, p, b);
    let rel2 = rel.insert(p, b - p);
    let size = long_size(g.recs[p].value.len() as int);
    assert forall|o: int| h.nodes.dom().contains(o) implies #[trigger] node_fits(t, h, o) by {
        let m = g.nodes[o];
        let room = node_size(name_of(m).len() as int);
        lemma_node(s, g, o);
        assert(apart(o, room, b, size));
        assert(agree(s.data, t.data, o, room)) by {
            assert forall|y: int| o <= y < o + room implies #[trigger] t.data[y] == s.data[y] by {
                assert((g.own)(y) == Owner::Node(o));
            }
        }
        lemma_node_same(s.data, t.data, o, m);
        assert(owned(h.own, Owner::Node(o), o, room)) by {
            assert forall|y: int| o <= y < o + room implies #[trigger] (h.own)(y) == Owner::Node(
                o,
            ) by {
                assert((g.own)(y) == Owner::Node(o));
            }
        }
        assert(link_fits(g, o, 8) && link_fits(g, o, 12) && link_fits(g, o, 16));
        assert(link_fits(h, o, 8) && link_fits(h, o, 12) && link_fits(h, o, 16));
        if o != 0 {
            lemma_node(s, g, m.from);
        }
    }
    assert forall|k: int| h.recs.dom().contains(k) implies #[trigger] rec_drafted(t, h, rel2, k) by {
        if k == p {
            lemma_long_moved_self(s, g, rel, p, a, b);
        } else {
            lemma_long_moved_other(s, g, rel, p, a, b, k);
        }
    }
    assert forall|q: Seq<Seq<u8>>| #[trigger] content_at(h, q) == content_at(g, q) by {}
}

} // verus!
