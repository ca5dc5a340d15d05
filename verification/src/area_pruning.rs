//! Removing trie nodes that lead to no property keeps an area well formed.
use crate::area_edit::{prune, prune_link, wipe_node};
use crate::area_growth::{
    agree, lemma_node_same, lemma_rec_owned, lemma_rec_same, lemma_relink, same_values, with_link,
};
use crate::area_layout::{
    describes, is_link, lemma_child_behind, lemma_node, link_fits, link_of, long_size, name_of,
    node_bytes, node_fits, node_size, rec_fits, rec_size, content_at, Layout, NodeInfo, Owner,
};
use crate::area_state::{AreaFault, AreaState};
use crate::bytes::{lemma_le_bytes, put_u32, zero};
use vstd::prelude::*;

verus! {

/// The layout without the node at `c`, which the node at `x` referred to.
pub open spec fn without_node(g: Layout, x: int, slot: int, c: int) -> Layout {
    Layout {
        nodes: g.nodes.insert(x, with_link(g.nodes[x], slot, 0)).remove(c),
        recs: g.recs,
        index: g.index.remove(g.nodes[c].path),
        own: g.own,
    }
}

/// A node that refers to nothing.
pub open spec fn bare(n: NodeInfo) -> bool {
    n.prop == 0 && n.left == 0 && n.right == 0 && n.kids == 0
}

/// The region after the node at `c` was zeroed and the reference to it
/// cleared.
pub open spec fn unlinked(d: Seq<u8>, x: int, slot: int, c: int, namelen: int) -> Seq<u8> {
    put_u32(wipe_node(d, c, namelen).0, x + slot, 0)
}

/// The bare node at `c`, which the node at `x` refers to, can be removed.
pub open spec fn can_remove(s: AreaState, g: Layout, x: int, slot: int, c: int) -> bool {
    &&& describes(g, s)
    &&& g.nodes.dom().contains(x)
    &&& is_link(slot)
    &&& link_of(g.nodes[x], slot) == c
    &&& c != 0
    &&& g.nodes.dom().contains(c)
    &&& bare(g.nodes[c])
}

proof fn lemma_removed_bytes(s: AreaState, g: Layout, x: int, slot: int, c: int)
    requires
        can_remove(s, g, x, slot, c),
    ensures
        ({
            let len = name_of(g.nodes[c]).len() as int;
            let e = unlinked(s.data, x, slot, c, len);
            &&& wipe_node(s.data, c, len).1 == Ok::<bool, AreaFault>(true)
            &&& e.len() == s.data.len()
            &&& x < c
            &&& forall|b: int|
                0 <= b < s.used && #[trigger] (g.own)(b) != Owner::Node(c) ==> e[b] == put_u32(
                    s.data,
                    x + slot,
                    0,
                )[b]
            &&& forall|b: int|
                0 <= b < s.used && #[trigger] (g.own)(b) != Owner::Node(c) && (g.own)(b)
                    != Owner::Node(x) ==> e[b] == s.data[b]
        }),
{
    let n = g.nodes[c];
    let len = name_of(n).len() as int;
    let e = unlinked(s.data, x, slot, c, len);
    lemma_node(s, g, x);
    lemma_node(s, g, c);
    lemma_child_behind(s, g, x, slot);
    lemma_le_bytes(0);
    assert(len > 0);
    assert(c + 21 + len <= c + node_size(len));
    assert forall|b: int| 0 <= b < s.used && #[trigger] (g.own)(b) != Owner::Node(c) implies e[b]
        == put_u32(s.data, x + slot, 0)[b] by {
        if c <= b < c + node_size(len) {
            assert((g.own)(b) == Owner::Node(c));
        }
    }
    assert forall|b: int|
        0 <= b < s.used && #[trigger] (g.own)(b) != Owner::Node(c) && (g.own)(b) != Owner::Node(
            x,
        ) implies e[b] == s.data[b] by {
        if x + slot <= b < x + slot + 4 {
            assert((g.own)(b) == Owner::Node(x));
        }
    }
}

proof fn lemma_removed_node(s: AreaState, g: Layout, x: int, slot: int, c: int, o: int)
    requires
        can_remove(s, g, x, slot, c),
        g.nodes.dom().contains(o),
        o != c,
    ensures
        node_fits(
            s.with(unlinked(s.data, x, slot, c, name_of(g.nodes[c]).len() as int)),
            without_node(g, x, slot, c),
            o,
        ),
{
    lemma_removed_bytes(s, g, x, slot, c);
    let t = s.with(unlinked(s.data, x, slot, c, name_of(g.nodes[c]).len() as int));
    let h = without_node(g, x, slot, c);
    let n = g.nodes[o];
    let size = node_size(name_of(n).len() as int);
    lemma_node(s, g, o);
    lemma_node(s, g, c);
    lemma_node(s, g, x);
    assert(link_fits(g, x, slot));
    assert(name_of(h.nodes[o]) == name_of(n));
    if o == x {
        let e = put_u32(s.data, x + slot, 0);
        lemma_relink(s.data, x, n, slot, 0);
        assert(agree(e, t.data, x, size)) by {
            assert forall|b: int| x <= b < x + size implies #[trigger] t.data[b] == e[b] by {
                assert((g.own)(b) == Owner::Node(x));
            }
        }
        lemma_node_same(e, t.data, x, with_link(n, slot, 0));
    } else {
        assert(agree(s.data, t.data, o, size)) by {
            assert forall|b: int| o <= b < o + size implies #[trigger] t.data[b] == s.data[b] by {
                assert((g.own)(b) == Owner::Node(o));
            }
        }
        lemma_node_same(s.data, t.data, o, n);
    }
    assert forall|k: int| is_link(k) implies #[trigger] link_fits(h, o, k) by {
        assert(link_fits(g, o, k));
        let d = link_of(h.nodes[o], k);
        if d != 0 {
            assert(d == link_of(n, k));
            assert(d != c);
            lemma_node(s, g, d);
        }
    }
    assert(link_fits(h, o, 8) && link_fits(h, o, 12) && link_fits(h, o, 16));
    if o != 0 {
        lemma_node(s, g, n.from);
        assert(n.from != c);
        assert(!(n.from == x && n.slot == slot));
    }
    assert(n.path != g.nodes[c].path);
}

/// Removing a bare node keeps the area well formed.
proof fn lemma_without_node(s: AreaState, g: Layout, x: int, slot: int, c: int)
    requires
        can_remove(s, g, x, slot, c),
    ensures
        describes(
            without_node(g, x, slot, c),
            s.with(unlinked(s.data, x, slot, c, name_of(g.nodes[c]).len() as int)),
        ),
        same_values(g, without_node(g, x, slot, c)),
{
    lemma_removed_bytes(s, g, x, slot, c);
    let t = s.with(unlinked(s.data, x, slot, c, name_of(g.nodes[c]).len() as int));
    let h = without_node(g, x, slot, c);
    lemma_node(s, g, c);
    assert forall|o: int| h.nodes.dom().contains(o) implies #[trigger] node_fits(t, h, o) by {
        lemma_removed_node(s, g, x, slot, c, o);
    }
    assert forall|p: int| h.recs.dom().contains(p) implies #[trigger] rec_fits(t, h, p) by {
        assert(rec_fits(s, g, p));
        lemma_rec_owned(s, g, p);
        let r = g.recs[p];
        let size = rec_size(r.name.len() as int);
        assert(agree(s.data, t.data, p, size)) by {
            assert forall|b: int| p <= b < p + size implies #[trigger] t.data[b] == s.data[b] by {
                assert((g.own)(b) == Owner::Record(p));
            }
        }
        if let Some(at) = r.long {
            let room = long_size(r.value.len() as int);
            assert(agree(s.data, t.data, at, room)) by {
                assert forall|b: int| at <= b < at + room implies #[trigger] t.data[b]
                    == s.data[b] by {
                    assert((g.own)(b) == Owner::Long(p));
                }
            }
        }
        lemma_rec_same(s.data, t.data, p, r);
        lemma_node(s, g, r.node);
        assert(r.node != c);
    }
    assert forall|q: Seq<Seq<u8>>| #[trigger] h.index.dom().contains(q) implies h.nodes.dom().contains(
        h.index[q],
    ) && h.nodes[h.index[q]].path == q by {
        lemma_node(s, g, g.index[q]);
    }
    assert forall|q: Seq<Seq<u8>>| #[trigger] content_at(h, q) == content_at(g, q) by {
        if g.index.dom().contains(q) {
            lemma_node(s, g, g.index[q]);
        }
    }
}

/// The node at `o` is the one at `c` or stands below it.
pub open spec fn below(g: Layout, o: int, c: int) -> bool
    decreases o,
{
    if o <= c {
        o == c
    } else {
        let x = g.nodes[o].from;
        0 <= x < o && below(g, x, c)
    }
}

/// Every node of `h` is a node of `g` in the same place.
pub open spec fn part_of(h: Layout, g: Layout) -> bool {
    forall|o: int| #[trigger]
        h.nodes.dom().contains(o) ==> {
            &&& g.nodes.dom().contains(o)
            &&& h.nodes[o].from == g.nodes[o].from
            &&& h.nodes[o].slot == g.nodes[o].slot
            &&& h.nodes[o].path == g.nodes[o].path
        }
}

/// What stands below a node is the same in a part of a layout.
pub proof fn lemma_below_same(t: AreaState, h: Layout, g: Layout, o: int, c: int)
    requires
        describes(h, t),
        part_of(h, g),
        h.nodes.dom().contains(o),
        0 <= c,
    ensures
        below(h, o, c) == below(g, o, c),
    decreases o,
{
    lemma_node(t, h, o);
    if o > c {
        lemma_below_same(t, h, g, h.nodes[o].from, c);
    }
}

/// Of two nodes above a third, one is above the other.
pub proof fn lemma_below_chain(g: Layout, o: int, a: int, b: int)
    requires
        below(g, o, a),
        below(g, o, b),
        a <= b,
    ensures
        below(g, b, a),
    decreases o,
{
    if o > b {
        lemma_below_chain(g, g.nodes[o].from, a, b);
    }
}

/// What stands below a node and is not the node itself stands below one that
/// the node refers to.
pub proof fn lemma_below_split(s: AreaState, g: Layout, o: int, c: int) -> (k: int)
    requires
        describes(g, s),
        g.nodes.dom().contains(o),
        below(g, o, c),
        o != c,
        0 <= c,
    ensures
        is_link(k),
        link_of(g.nodes[c], k) != 0,
        below(g, o, link_of(g.nodes[c], k)),
        g.nodes.dom().contains(c),
    decreases o,
{
    lemma_node(s, g, o);
    let x = g.nodes[o].from;
    lemma_node(s, g, x);
    if x == c {
        g.nodes[o].slot
    } else {
        let k = lemma_below_split(s, g, x, c);
        let d = link_of(g.nodes[c], k);
        assert(d <= x) by {
            if x < d {
                assert(false);
            }
        }
        k
    }
}

/// What stands below one node that `c` refers to does not stand below another.
pub proof fn lemma_below_apart(s: AreaState, g: Layout, o: int, c: int, j: int, k: int)
    requires
        describes(g, s),
        g.nodes.dom().contains(c),
        is_link(j),
        is_link(k),
        j != k,
        link_of(g.nodes[c], j) != 0,
        link_of(g.nodes[c], k) != 0,
        below(g, o, link_of(g.nodes[c], j)),
    ensures
        !below(g, o, link_of(g.nodes[c], k)),
{
    let a = link_of(g.nodes[c], j);
    let b = link_of(g.nodes[c], k);
    lemma_child_behind(s, g, c, j);
    lemma_child_behind(s, g, c, k);
    lemma_node(s, g, c);
    assert(link_fits(g, c, j) && link_fits(g, c, k));
    if below(g, o, b) {
        if a <= b {
            lemma_below_chain(g, o, a, b);
            if a < b {
                assert(below(g, c, a));
            }
        } else {
            lemma_below_chain(g, o, b, a);
            assert(below(g, c, b));
        }
    }
}

/// What pruning a reference leaves.
pub open spec fn pruned(g: Layout, h: Layout, x: int, slot: int, gone: bool) -> bool {
    let c = link_of(g.nodes[x], slot);
    &&& part_of(h, g)
    &&& same_values(g, h)
    &&& h.nodes.dom().contains(x)
    &&& h.nodes[x] == with_link(
        g.nodes[x],
        slot,
        if gone {
            0
        } else {
            c
        },
    )
    &&& forall|o: int|
        g.nodes.dom().contains(o) && o != x && !(c != 0 && below(g, o, c))
            ==> #[trigger] h.nodes.dom().contains(o) && h.nodes[o] == g.nodes[o]
    &&& c != 0 ==> forall|o: int| #[trigger]
        h.nodes.dom().contains(o) && below(g, o, c) ==> !bare(h.nodes[o])
}

/// What stands below what a node refers to stands below the node.
pub proof fn lemma_below_up(g: Layout, o: int, a: int, c: int)
    requires
        below(g, o, a),
        g.nodes[a].from == c,
        0 <= c < a,
    ensures
        below(g, o, c),
    decreases o,
{
    if o > a {
        lemma_below_up(g, g.nodes[o].from, a, c);
    } else {
        assert(below(g, c, c));
    }
}

/// Pruning one more reference of the node at `c`.
proof fn lemma_prune_more(
    s: AreaState,
    g: Layout,
    t: AreaState,
    h: Layout,
    u: AreaState,
    k: Layout,
    c: int,
    slot: int,
    gone: bool,
)
    requires
        describes(g, s),
        describes(h, t),
        describes(k, u),
        g.nodes.dom().contains(c),
        is_link(slot),
        part_of(h, g),
        same_values(g, h),
        h.nodes.dom().contains(c),
        link_of(h.nodes[c], slot) == link_of(g.nodes[c], slot),
        forall|o: int|
            g.nodes.dom().contains(o) && !below(g, o, c) ==> #[trigger] h.nodes.dom().contains(o)
                && h.nodes[o] == g.nodes[o],
        pruned(h, k, c, slot, gone),
    ensures
        part_of(k, g),
        same_values(g, k),
        forall|o: int|
            g.nodes.dom().contains(o) && !below(g, o, c) ==> #[trigger] k.nodes.dom().contains(o)
                && k.nodes[o] == g.nodes[o],
        forall|o: int|
            #![trigger k.nodes.dom().contains(o)]
            k.nodes.dom().contains(o) && link_of(g.nodes[c], slot) != 0 && below(
                g,
                o,
                link_of(g.nodes[c], slot),
            ) ==> !bare(k.nodes[o]),
        forall|o: int|
            #![trigger k.nodes.dom().contains(o)]
            k.nodes.dom().contains(o) && o != c && !(link_of(g.nodes[c], slot) != 0 && below(
                g,
                o,
                link_of(g.nodes[c], slot),
            )) ==> h.nodes.dom().contains(o) && k.nodes[o] == h.nodes[o],
{
    let a = link_of(g.nodes[c], slot);
    lemma_node(s, g, c);
    if a != 0 {
        lemma_child_behind(s, g, c, slot);
        assert(link_fits(g, c, slot));
    }
    assert forall|o: int| g.nodes.dom().contains(o) && !below(g, o, c) implies #[trigger] k.nodes.dom().contains(
        o,
    ) && k.nodes[o] == g.nodes[o] by {
        assert(h.nodes.dom().contains(o));
        if a != 0 && below(h, o, a) {
            lemma_below_same(t, h, g, o, a);
            lemma_below_up(g, o, a, c);
        }
        assert(below(g, c, c));
    }
    assert forall|o: int|
        #![trigger k.nodes.dom().contains(o)]
        k.nodes.dom().contains(o) && a != 0 && below(g, o, a) implies !bare(k.nodes[o]) by {
        assert(h.nodes.dom().contains(o));
        lemma_below_same(t, h, g, o, a);
    }
    assert forall|o: int|
        #![trigger k.nodes.dom().contains(o)]
        k.nodes.dom().contains(o) && o != c && !(a != 0 && below(g, o, a)) implies h.nodes.dom().contains(
        o,
    ) && k.nodes[o] == h.nodes[o] by {
        assert(h.nodes.dom().contains(o));
        if a != 0 {
            lemma_below_same(t, h, g, o, a);
        }
    }
    assert forall|q: Seq<Seq<u8>>| #[trigger] content_at(k, q) == content_at(g, q) by {
        assert(content_at(h, q) == content_at(g, q));
    }
}

/// What pruning the references of the node at `c` leaves.
pub open spec fn trimmed(
    g: Layout,
    h: Layout,
    c: int,
    kids: bool,
    left: bool,
    right: bool,
) -> bool {
    let n = g.nodes[c];
    &&& part_of(h, g)
    &&& same_values(g, h)
    &&& h.nodes.dom().contains(c)
    &&& h.nodes[c] == (NodeInfo {
        kids: if kids {
            0
        } else {
            n.kids
        },
        left: if left {
            0
        } else {
            n.left
        },
        right: if right {
            0
        } else {
            n.right
        },
        ..n
    })
    &&& kids == (h.nodes[c].kids == 0)
    &&& left == (h.nodes[c].left == 0)
    &&& right == (h.nodes[c].right == 0)
    &&& forall|o: int|
        g.nodes.dom().contains(o) && !below(g, o, c) ==> #[trigger] h.nodes.dom().contains(o)
            && h.nodes[o] == g.nodes[o]
    &&& forall|o: int| #[trigger]
        h.nodes.dom().contains(o) && below(g, o, c) && o != c ==> !bare(h.nodes[o])
}

/// Pruning the references of a node.
pub proof fn lemma_prune_links(s: AreaState, g: Layout, c: int, depth: nat) -> (h: Layout)
    requires
        describes(g, s),
        g.nodes.dom().contains(c),
        c + 20 + 20 * depth >= s.data.len(),
    ensures
        ({
            let n = g.nodes[c];
            let (d1, r1) = prune_link(s.data, c + 16, n.kids, depth);
            let (d2, r2) = prune_link(d1, c + 8, n.left, depth);
            let (d3, r3) = prune_link(d2, c + 12, n.right, depth);
            &&& r1 is Ok && r2 is Ok && r3 is Ok
            &&& d3.len() == s.data.len()
            &&& describes(h, s.with(d3))
            &&& trimmed(g, h, c, r1->Ok_0, r2->Ok_0, r3->Ok_0)
        }),
    decreases depth, 1int,
{
    let n = g.nodes[c];
    lemma_node(s, g, c);
    let h1 = lemma_prune_link(s, g, c, 16, depth);
    let (d1, r1) = prune_link(s.data, c + 16, n.kids, depth);
    let s1 = s.with(d1);
    assert(same_values(g, g));
    lemma_prune_more(s, g, s, g, s1, h1, c, 16, r1->Ok_0);
    let h2 = lemma_prune_link(s1, h1, c, 8, depth);
    let (d2, r2) = prune_link(d1, c + 8, n.left, depth);
    let s2 = s.with(d2);
    lemma_prune_more(s, g, s1, h1, s2, h2, c, 8, r2->Ok_0);
    let h3 = lemma_prune_link(s2, h2, c, 12, depth);
    let (d3, r3) = prune_link(d2, c + 12, n.right, depth);
    let s3 = s.with(d3);
    lemma_prune_more(s, g, s2, h2, s3, h3, c, 12, r3->Ok_0);
    assert forall|o: int| #[trigger] h3.nodes.dom().contains(o) && below(g, o, c) && o != c implies !bare(
        h3.nodes[o],
    ) by {
        assert(g.nodes.dom().contains(o));
        let k = lemma_below_split(s, g, o, c);
        if k == 12 {
        } else {
            if n.right != 0 {
                lemma_below_apart(s, g, o, c, k, 12);
            }
            assert(h2.nodes.dom().contains(o) && h3.nodes[o] == h2.nodes[o]);
            if k == 8 {
            } else {
                if n.left != 0 {
                    lemma_below_apart(s, g, o, c, k, 8);
                }
                assert(h1.nodes.dom().contains(o) && h2.nodes[o] == h1.nodes[o]);
            }
        }
    }
    h3
}

/// Pruning what a node refers to at one place.
pub proof fn lemma_prune_link(s: AreaState, g: Layout, x: int, slot: int, depth: nat) -> (h: Layout)
    requires
        describes(g, s),
        g.nodes.dom().contains(x),
        is_link(slot),
        x + 20 + 20 * depth >= s.data.len(),
    ensures
        ({
            let (e, r) = prune_link(s.data, x + slot, link_of(g.nodes[x], slot), depth);
            &&& r is Ok
            &&& e.len() == s.data.len()
            &&& describes(h, s.with(e))
            &&& pruned(g, h, x, slot, r->Ok_0)
            &&& r->Ok_0 == (link_of(h.nodes[x], slot) == 0)
        }),
    decreases depth, 0int,
{
    let c = link_of(g.nodes[x], slot);
    lemma_node(s, g, x);
    if c == 0 {
        assert(same_values(g, g));
        assert(with_link(g.nodes[x], slot, 0) == g.nodes[x]);
        g
    } else {
        lemma_child_behind(s, g, x, slot);
        lemma_node(s, g, c);
        assert(link_fits(g, x, slot));
        if depth == 0 {
            assert(false);
            g
        } else {
            let n = g.nodes[c];
            let less = (depth - 1) as nat;
            let h = lemma_prune_links(s, g, c, less);
            let (d1, r1) = prune_link(s.data, c + 16, n.kids, less);
            let (d2, r2) = prune_link(d1, c + 8, n.left, less);
            let (d3, r3) = prune_link(d2, c + 12, n.right, less);
            let t = s.with(d3);
            lemma_node(t, h, c);
            assert(!below(g, x, c));
            if r1->Ok_0 && r2->Ok_0 && r3->Ok_0 && n.prop == 0 {
                lemma_removed_bytes(t, h, x, slot, c);
                lemma_without_node(t, h, x, slot, c);
                let k = without_node(h, x, slot, c);
                assert forall|q: Seq<Seq<u8>>| #[trigger] content_at(k, q) == content_at(g, q) by {
                    assert(content_at(h, q) == content_at(g, q));
                }
                assert(below(g, c, c));
                assert(prune(s.data, c, depth) == wipe_node(d3, c, name_of(n).len() as int));
                k
            } else {
                assert(!bare(h.nodes[c]));
                assert(with_link(g.nodes[x], slot, c) == g.nodes[x]);
                assert(prune(s.data, c, depth) == (d3, Ok::<bool, AreaFault>(false)));
                h
            }
        }
    }
}

/// Pruning a whole area removes every node that leads to no property, and
/// changes no value.
pub proof fn lemma_prune(s: AreaState, g: Layout) -> (h: Layout)
    requires
        describes(g, s),
    ensures
        ({
            let (e, r) = prune(s.data, 0, (s.data.len() + 1) as nat);
            &&& r is Ok
            &&& e.len() == s.data.len()
            &&& describes(h, s.with(e))
        }),
        same_values(g, h),
        h.nodes[0].kids == 0 || h.nodes[0].kids == g.nodes[0].kids,
        forall|o: int| #[trigger] h.nodes.dom().contains(o) && o != 0 ==> !bare(h.nodes[o]),
{
    lemma_node(s, g, 0);
    let depth = s.data.len();
    let h = lemma_prune_links(s, g, 0, depth);
    let n = g.nodes[0];
    let (d1, r1) = prune_link(s.data, 16, n.kids, depth);
    let (d2, r2) = prune_link(d1, 8, n.left, depth);
    let (d3, r3) = prune_link(d2, 12, n.right, depth);
    lemma_node(s.with(d3), h, 0);
    assert forall|o: int| #[trigger] h.nodes.dom().contains(o) && o != 0 implies !bare(h.nodes[o]) by {
        assert(g.nodes.dom().contains(o));
        lemma_below_root(s, g, o);
    }
    if r1->Ok_0 && r2->Ok_0 && r3->Ok_0 {
        assert(node_bytes(d3, 0, h.nodes[0]));
        reveal(node_bytes);
        assert(zero(zero(d3, 20, 0), 0, 20) =~= d3);
    }
    h
}

/// Every node stands below the root.
pub proof fn lemma_below_root(s: AreaState, g: Layout, o: int)
    requires
        describes(g, s),
        g.nodes.dom().contains(o),
    ensures
        below(g, o, 0),
    decreases o,
{
    lemma_node(s, g, o);
    if o != 0 {
        lemma_below_root(s, g, g.nodes[o].from);
    }
}

} // verus!
