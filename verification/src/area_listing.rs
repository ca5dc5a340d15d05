//! What walking a well-formed property area lists.
use crate::area_keys::{lemma_join_segments, lemma_segments_join, path_ok};
use crate::area_layout::{
    describes, is_link, join, lemma_child_behind, lemma_find_node, lemma_node, lemma_prefix,
    lemma_read_record, link_fits, link_of, name_of, rec_fits, rec_view, segment_ok, well_formed,
    Layout,
};
use crate::area_pruning::{
    below, lemma_below_apart, lemma_below_root, lemma_below_split, lemma_below_up,
};
use crate::area_state::{
    all_properties, key_ok, lookup, own_property, prop_view, segments, walk, walk_link, AreaFault,
    AreaState,
};
use crate::prop_info::PropView;
use vstd::prelude::*;

verus! {

/// What is listed for the node at `o`.
pub open spec fn entry(g: Layout, o: int) -> PropView {
    let p = g.nodes[o].prop;
    prop_view(p, rec_view(p, g.recs[p]))
}

/// The node at `o` holds the property `v` and stands below `c`.
pub open spec fn entry_below(g: Layout, c: int, o: int, v: PropView) -> bool {
    &&& g.nodes.dom().contains(o)
    &&& below(g, o, c)
    &&& g.nodes[o].prop != 0
    &&& v == entry(g, o)
}

/// `list` holds the properties below the node at `c`, each once.
pub open spec fn lists(g: Layout, c: int, list: Seq<PropView>) -> bool {
    &&& list.no_duplicates()
    &&& forall|v: PropView| #[trigger]
        list.contains(v) ==> exists|o: int| #[trigger] entry_below(g, c, o, v)
    &&& forall|o: int, v: PropView| #[trigger] entry_below(g, c, o, v) ==> list.contains(v)
}

/// `list` holds the properties below what a node refers to.
pub open spec fn lists_link(g: Layout, link: int, list: Seq<PropView>) -> bool {
    if link == 0 {
        list.len() == 0
    } else {
        lists(g, link, list)
    }
}

/// Two nodes with the same entry are the same.
proof fn lemma_entry_once(s: AreaState, g: Layout, a: int, b: int)
    requires
        describes(g, s),
        g.nodes.dom().contains(a),
        g.nodes.dom().contains(b),
        g.nodes[a].prop != 0,
        g.nodes[b].prop != 0,
        entry(g, a) == entry(g, b),
    ensures
        a == b,
{
    lemma_node(s, g, a);
    lemma_node(s, g, b);
}

/// Lists below two places of one node have nothing in common.
proof fn lemma_lists_apart(
    s: AreaState,
    g: Layout,
    c: int,
    j: int,
    k: int,
    a: Seq<PropView>,
    b: Seq<PropView>,
)
    requires
        describes(g, s),
        g.nodes.dom().contains(c),
        is_link(j),
        is_link(k),
        j != k,
        lists_link(g, link_of(g.nodes[c], j), a),
        lists_link(g, link_of(g.nodes[c], k), b),
    ensures
        forall|v: PropView| !(#[trigger] a.contains(v) && b.contains(v)),
{
    assert forall|v: PropView| !(#[trigger] a.contains(v) && b.contains(v)) by {
        if a.contains(v) && b.contains(v) {
            let x = link_of(g.nodes[c], j);
            let y = link_of(g.nodes[c], k);
            let o = choose|o: int| #[trigger] entry_below(g, x, o, v);
            let q = choose|o: int| #[trigger] entry_below(g, y, o, v);
            lemma_entry_once(s, g, o, q);
            lemma_below_apart(s, g, o, c, j, k);
        }
    }
}

/// A list below a node that `c` refers to does not hold the entry of `c`.
proof fn lemma_list_without_own(s: AreaState, g: Layout, c: int, j: int, a: Seq<PropView>)
    requires
        describes(g, s),
        g.nodes.dom().contains(c),
        is_link(j),
        lists_link(g, link_of(g.nodes[c], j), a),
        g.nodes[c].prop != 0,
    ensures
        !a.contains(entry(g, c)),
{
    if a.contains(entry(g, c)) {
        let x = link_of(g.nodes[c], j);
        let o = choose|o: int| #[trigger] entry_below(g, x, o, entry(g, c));
        lemma_entry_once(s, g, o, c);
        lemma_child_behind(s, g, c, j);
    }
}

pub proof fn lemma_concat_once<A>(a: Seq<A>, b: Seq<A>)
    requires
        a.no_duplicates(),
        b.no_duplicates(),
        forall|v: A| !(#[trigger] a.contains(v) && b.contains(v)),
    ensures
        (a + b).no_duplicates(),
{
    let c = a + b;
    assert forall|i: int, j: int| 0 <= i < c.len() && 0 <= j < c.len() && i != j implies c[i]
        != c[j] by {
        if i < a.len() && j >= a.len() {
            assert(a.contains(c[i]));
            assert(b[j - a.len()] == c[j]);
            assert(!b.contains(c[i]));
        } else if j < a.len() && i >= a.len() {
            assert(a.contains(c[j]));
            assert(b[i - a.len()] == c[i]);
            assert(!b.contains(c[j]));
        }
    }
}

pub proof fn lemma_concat_contains<A>(a: Seq<A>, b: Seq<A>, v: A)
    ensures
        (a + b).contains(v) == (a.contains(v) || b.contains(v)),
{
    let c = a + b;
    if a.contains(v) {
        let i = choose|i: int| 0 <= i < a.len() && a[i] == v;
        assert(c[i] == v);
    }
    if b.contains(v) {
        let i = choose|i: int| 0 <= i < b.len() && b[i] == v;
        assert(c[a.len() + i] == v);
    }
    if c.contains(v) {
        let i = choose|i: int| 0 <= i < c.len() && c[i] == v;
        if i < a.len() {
            assert(a[i] == v);
        } else {
            assert(b[i - a.len()] == v);
        }
    }
}

/// The lists of a node and of what it refers to make up the list below it.
proof fn lemma_lists_joined(
    s: AreaState,
    g: Layout,
    c: int,
    left: Seq<PropView>,
    kids: Seq<PropView>,
    right: Seq<PropView>,
)
    requires
        describes(g, s),
        g.nodes.dom().contains(c),
        lists_link(g, g.nodes[c].left, left),
        lists_link(g, g.nodes[c].kids, kids),
        lists_link(g, g.nodes[c].right, right),
    ensures
        lists(g, c, left + own_property(s.data, g.nodes[c].prop).0 + kids + right),
{
    let n = g.nodes[c];
    let own = own_property(s.data, n.prop).0;
    lemma_node(s, g, c);
    if n.prop != 0 {
        assert(rec_fits(s, g, n.prop));
        lemma_read_record(s.data, n.prop, g.recs[n.prop]);
        assert(own == seq![entry(g, c)]);
        lemma_list_without_own(s, g, c, 8, left);
        lemma_list_without_own(s, g, c, 16, kids);
        lemma_list_without_own(s, g, c, 12, right);
        assert(own[0] == entry(g, c));
    }
    lemma_lists_apart(s, g, c, 8, 16, left, kids);
    lemma_lists_apart(s, g, c, 8, 12, left, right);
    lemma_lists_apart(s, g, c, 16, 12, kids, right);
    let l2 = left + own;
    let l3 = l2 + kids;
    let all = l3 + right;
    assert forall|v: PropView| #[trigger] all.contains(v) == (left.contains(v) || own.contains(v)
        || kids.contains(v) || right.contains(v)) by {
        lemma_concat_contains(l3, right, v);
        lemma_concat_contains(l2, kids, v);
        lemma_concat_contains(left, own, v);
    }
    assert(all.no_duplicates()) by {
        assert forall|v: PropView| !(#[trigger] left.contains(v) && own.contains(v)) by {}
        lemma_concat_once(left, own);
        assert forall|v: PropView| !(#[trigger] l2.contains(v) && kids.contains(v)) by {
            lemma_concat_contains(left, own, v);
        }
        lemma_concat_once(l2, kids);
        assert forall|v: PropView| !(#[trigger] l3.contains(v) && right.contains(v)) by {
            lemma_concat_contains(l2, kids, v);
            lemma_concat_contains(left, own, v);
        }
        lemma_concat_once(l3, right);
    }
    assert forall|v: PropView| #[trigger] all.contains(v) implies exists|o: int| #[trigger]
        entry_below(g, c, o, v) by {
        if own.contains(v) {
            assert(entry_below(g, c, c, v));
        } else {
            let k = if left.contains(v) {
                8int
            } else if kids.contains(v) {
                16
            } else {
                12
            };
            let x = link_of(n, k);
            let o = choose|o: int| #[trigger] entry_below(g, x, o, v);
            lemma_child_behind(s, g, c, k);
            assert(link_fits(g, c, k));
            lemma_below_up(g, o, x, c);
            assert(entry_below(g, c, o, v));
        }
    }
    assert forall|o: int, v: PropView| #[trigger] entry_below(g, c, o, v) implies all.contains(v) by {
        if o != c {
            let k = lemma_below_split(s, g, o, c);
            assert(entry_below(g, link_of(n, k), o, v));
        } else {
            assert(own.contains(v));
        }
    }
}

/// Walking the trie from a node lists the properties below it.
pub proof fn lemma_walk(s: AreaState, g: Layout, c: int, path: Set<int>, depth: nat)
    requires
        describes(g, s),
        g.nodes.dom().contains(c),
        forall|o: int| #[trigger] path.contains(o) ==> o < c,
        c + 20 * depth >= s.data.len(),
    ensures
        walk(s.data, c, path, depth).1 is Ok,
        lists(g, c, walk(s.data, c, path, depth).0),
    decreases depth,
{
    lemma_node(s, g, c);
    let n = g.nodes[c];
    if depth > 0 {
        let inner = path.insert(c);
        let less = (depth - 1) as nat;
        if n.prop != 0 {
            assert(rec_fits(s, g, n.prop));
            lemma_read_record(s.data, n.prop, g.recs[n.prop]);
        }
        if n.left != 0 {
            lemma_child_behind(s, g, c, 8);
            lemma_walk(s, g, n.left, inner, less);
        }
        if n.kids != 0 {
            lemma_child_behind(s, g, c, 16);
            lemma_walk(s, g, n.kids, inner, less);
        }
        if n.right != 0 {
            lemma_child_behind(s, g, c, 12);
            lemma_walk(s, g, n.right, inner, less);
        }
        lemma_lists_joined(
            s,
            g,
            c,
            walk_link(s.data, n.left, inner, less).0,
            walk_link(s.data, n.kids, inner, less).0,
            walk_link(s.data, n.right, inner, less).0,
        );
    }
}

/// The path of a node is made of names that can stand in a path.
pub proof fn lemma_path_ok(s: AreaState, g: Layout, q: Seq<Seq<u8>>)
    requires
        describes(g, s),
        g.index.dom().contains(q),
    ensures
        path_ok(q),
{
    assert forall|i: int| 0 <= i < q.len() implies segment_ok(#[trigger] q[i]) by {
        lemma_prefix(s, g, q, i + 1);
        let c = g.index[q.take(i + 1)];
        lemma_node(s, g, c);
        assert(name_of(g.nodes[c]) == q[i]);
    }
}

/// The name of a listed property leads to it.
proof fn lemma_entry_found(s: AreaState, g: Layout, o: int)
    requires
        describes(g, s),
        g.nodes.dom().contains(o),
        g.nodes[o].prop != 0,
    ensures
        key_ok(entry(g, o).name),
        lookup(s.data, entry(g, o).name) == Ok::<Option<PropView>, AreaFault>(Some(entry(g, o))),
{
    lemma_node(s, g, o);
    let p = g.nodes[o].prop;
    let q = g.nodes[o].path;
    assert(rec_fits(s, g, p));
    lemma_read_record(s.data, p, g.recs[p]);
    lemma_path_ok(s, g, q);
    assert forall|i: int, j: int|
        0 <= i < q.len() && 0 <= j < q[i].len() implies #[trigger] q[i][j] != 0x2e by {
        assert(segment_ok(q[i]));
    }
    lemma_join_segments(q);
    assert forall|i: int| 0 <= i < q.len() implies (#[trigger] q[i]).len() > 0 by {
        assert(segment_ok(q[i]));
    }
    lemma_find_node(s, g, join(q));
}

/// Walking an area lists each property once: exactly those that lookups find.
pub proof fn law_listing(s: AreaState)
    requires
        well_formed(s),
    ensures
        all_properties(s.data).1 is Ok,
        all_properties(s.data).0.no_duplicates(),
        forall|v: PropView| #[trigger]
            all_properties(s.data).0.contains(v) ==> key_ok(v.name) && lookup(s.data, v.name)
                == Ok::<Option<PropView>, AreaFault>(Some(v)),
        forall|key: Seq<u8>| #[trigger]
            lookup(s.data, key) matches Ok(Some(v)) ==> all_properties(s.data).0.contains(v)
                && v.name == key,
{
    let g = choose|g: Layout| #[trigger] describes(g, s);
    lemma_walk(s, g, 0, Set::empty(), (s.data.len() + 1) as nat);
    let list = all_properties(s.data).0;
    assert forall|v: PropView| #[trigger] list.contains(v) implies key_ok(v.name) && lookup(
        s.data,
        v.name,
    ) == Ok::<Option<PropView>, AreaFault>(Some(v)) by {
        let o = choose|o: int| #[trigger] entry_below(g, 0, o, v);
        lemma_entry_found(s, g, o);
    }
    assert forall|key: Seq<u8>| #[trigger] lookup(s.data, key) matches Ok(Some(v)) implies {
        let v = lookup(s.data, key)->Ok_0->0;
        list.contains(v) && v.name == key
    } by {
        let v = lookup(s.data, key)->Ok_0->0;
        lemma_find_node(s, g, key);
        let o = g.index[segments(key)];
        lemma_node(s, g, o);
        let p = g.nodes[o].prop;
        assert(rec_fits(s, g, p));
        lemma_read_record(s.data, p, g.recs[p]);
        lemma_below_root(s, g, o);
        assert(entry_below(g, 0, o, v));
        lemma_segments_join(key);
    }
}

} // verus!
