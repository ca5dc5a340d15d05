//! In what order walking a property area lists the properties.
use crate::area_compact::compact;
use crate::area_compact_laws::{law_compact, lemma_compact};
use crate::area_keys::lemma_join_segments;
use crate::area_layout::{
    between, child_of, describes, is_link, lemma_child_behind, lemma_find_node, lemma_lookup,
    lemma_name_irreflexive, lemma_name_transitive, lemma_node, lemma_read_record, link_fits,
    link_of, name_of, rec_fits, segment_ok, well_formed, Layout, NodeInfo,
};
use crate::area_listing::{
    entry, entry_below, law_listing, lemma_concat_contains, lemma_path_ok, lemma_walk, lists_link,
};
use crate::area_pruning::below;
use crate::area_state::{
    all_properties, key_ok, lookup, lookup_content, name_less, own_property, segments, walk,
    walk_link, AreaState,
};
use crate::prop_info::PropView;
use vstd::prelude::*;

verus! {

/// The paths `a` and `b` part behind `i` segments, and `a` comes first: it ends
/// there, or its segment is the lesser one.
pub open spec fn parts_at(a: Seq<Seq<u8>>, b: Seq<Seq<u8>>, i: int) -> bool {
    &&& 0 <= i <= a.len()
    &&& i < b.len()
    &&& a.take(i) == b.take(i)
    &&& i == a.len() || name_less(a[i], b[i])
}

/// The path `a` comes before `b`: segment by segment the shorter one first, then
/// by bytes, and a path before what continues it.
pub open spec fn path_less(a: Seq<Seq<u8>>, b: Seq<Seq<u8>>) -> bool {
    exists|i: int| #[trigger] parts_at(a, b, i)
}

/// The key `a` comes before `b`.
pub open spec fn key_less(a: Seq<u8>, b: Seq<u8>) -> bool {
    path_less(segments(a), segments(b))
}

/// The names of a list.
pub open spec fn names(list: Seq<PropView>) -> Seq<Seq<u8>> {
    list.map(|_i: int, v: PropView| v.name)
}

/// Each key comes before those behind it.
pub open spec fn keys_in_order(keys: Seq<Seq<u8>>) -> bool {
    forall|i: int, j: int|
        #![trigger keys[i], keys[j]]
        0 <= i < j < keys.len() ==> key_less(keys[i], keys[j])
}

/// Of two keys, not each comes before the other.
pub proof fn lemma_key_less_once(a: Seq<u8>, b: Seq<u8>)
    requires
        key_less(a, b),
    ensures
        !key_less(b, a),
{
    let p = segments(a);
    let q = segments(b);
    let i = choose|i: int| #[trigger] parts_at(p, q, i);
    if path_less(q, p) {
        let j = choose|j: int| #[trigger] parts_at(q, p, j);
        if i < j {
            assert(p[i] == p.take(j)[i]);
            assert(q[i] == q.take(j)[i]);
            lemma_name_irreflexive(p[i]);
        } else if j < i {
            assert(p[j] == p.take(i)[j]);
            assert(q[j] == q.take(i)[j]);
            lemma_name_irreflexive(p[j]);
        } else {
            lemma_name_transitive(p[i], q[i], p[i]);
            lemma_name_irreflexive(p[i]);
        }
    }
}

/// Nothing that is bounded by the bounds of `c` lies outside those of `x`.
spec fn bounds_within(c: NodeInfo, x: NodeInfo) -> bool {
    &&& x.lo matches Some(l) ==> (c.lo matches Some(m) && (m == l || name_less(l, m)))
    &&& x.hi matches Some(h) ==> (c.hi matches Some(m) && (m == h || name_less(m, h)))
}

/// The path `p` leaves the parent of `x` between the bounds of `x`.
spec fn path_within(p: Seq<Seq<u8>>, x: NodeInfo) -> bool {
    let k = x.path.len() - 1;
    &&& 0 <= k < p.len()
    &&& p.take(k) == x.path.take(k)
    &&& between(x.lo, p[k], x.hi)
}

/// One step down keeps to the bounds.
proof fn lemma_step_bounded(c: NodeInfo, f: NodeInfo, x: NodeInfo, slot: int)
    requires
        path_within(f.path, x),
        f.path.len() == x.path.len() ==> bounds_within(f, x),
        is_link(slot),
        child_of(c, f, slot),
        between(f.lo, name_of(f), f.hi),
        between(c.lo, name_of(c), c.hi),
    ensures
        path_within(c.path, x),
        c.path.len() == x.path.len() ==> bounds_within(c, x),
{
    let k = x.path.len() - 1;
    let p = c.path;
    let r = f.path;
    assert(p.take(k) =~= p.drop_last().take(k));
    if slot == 16 {
        assert(p[k] == p.drop_last()[k]);
    } else {
        assert(p.drop_last().len() == r.drop_last().len());
        assert(r.take(k) =~= r.drop_last().take(k));
        if p.len() > k + 1 {
            assert(p[k] == p.drop_last()[k]);
            assert(r[k] == r.drop_last()[k]);
        } else {
            if let Some(l) = x.lo {
                let m = f.lo->0;
                if m != l {
                    lemma_name_transitive(l, m, name_of(f));
                }
                if c.lo->0 != l {
                    lemma_name_transitive(l, c.lo->0, name_of(c));
                }
            }
            if let Some(h) = x.hi {
                let m = f.hi->0;
                if m != h {
                    lemma_name_transitive(name_of(f), m, h);
                }
                if c.hi->0 != h {
                    lemma_name_transitive(name_of(c), c.hi->0, h);
                }
            }
        }
    }
}

/// What stands below a node stands on paths between the bounds of the node.
proof fn lemma_below_bounded(s: AreaState, g: Layout, o: int, x: int)
    requires
        describes(g, s),
        g.nodes.dom().contains(o),
        g.nodes.dom().contains(x),
        0 < x,
        below(g, o, x),
    ensures
        path_within(g.nodes[o].path, g.nodes[x]),
        g.nodes[o].path.len() == g.nodes[x].path.len() ==> bounds_within(g.nodes[o], g.nodes[x]),
    decreases o,
{
    lemma_node(s, g, o);
    lemma_node(s, g, x);
    if o != x {
        let f = g.nodes[o].from;
        lemma_node(s, g, f);
        lemma_below_bounded(s, g, f, x);
        let slot = g.nodes[o].slot;
        assert(link_fits(g, f, slot));
        lemma_step_bounded(g.nodes[o], g.nodes[f], g.nodes[x], slot);
    }
}

/// The segments of the name of an entry are the path of its node.
pub proof fn lemma_entry_path(s: AreaState, g: Layout, o: int)
    requires
        describes(g, s),
        g.nodes.dom().contains(o),
        g.nodes[o].prop != 0,
    ensures
        segments(entry(g, o).name) == g.nodes[o].path,
        g.nodes[o].path.len() > 0,
{
    lemma_node(s, g, o);
    let p = g.nodes[o].prop;
    let q = g.nodes[o].path;
    assert(rec_fits(s, g, p));
    lemma_path_ok(s, g, q);
    assert forall|i: int, j: int|
        0 <= i < q.len() && 0 <= j < q[i].len() implies #[trigger] q[i][j] != 0x2e by {
        assert(segment_ok(q[i]));
    }
    lemma_join_segments(q);
}

/// How a path stands to that of the node at `c` when it is found below what the
/// node refers to at `slot`.
spec fn stands_at(p: Seq<Seq<u8>>, c: Seq<Seq<u8>>, slot: int) -> bool {
    let k = c.len() - 1;
    if slot == 16 {
        c.len() < p.len() && p.take(k + 1) == c
    } else {
        &&& 0 <= k < p.len()
        &&& p.take(k) == c.take(k)
        &&& if slot == 8 {
            name_less(p[k], c[k])
        } else {
            name_less(c[k], p[k])
        }
    }
}

proof fn lemma_stands_at(s: AreaState, g: Layout, c: int, slot: int, o: int)
    requires
        describes(g, s),
        g.nodes.dom().contains(c),
        g.nodes.dom().contains(o),
        is_link(slot),
        link_of(g.nodes[c], slot) != 0,
        below(g, o, link_of(g.nodes[c], slot)),
    ensures
        stands_at(g.nodes[o].path, g.nodes[c].path, slot),
{
    let x = link_of(g.nodes[c], slot);
    lemma_node(s, g, c);
    assert(link_fits(g, c, slot));
    assert(child_of(g.nodes[x], g.nodes[c], slot));
    lemma_below_bounded(s, g, o, x);
    let cp = g.nodes[c].path;
    let xp = g.nodes[x].path;
    let k = xp.len() - 1;
    if slot == 16 {
        assert(xp.take(k) =~= xp.drop_last());
    } else {
        assert(xp.take(k) =~= xp.drop_last());
        assert(cp.take(k) =~= cp.drop_last());
        assert(name_of(g.nodes[c]) == cp[k]);
    }
}

/// What stands in front of a node comes before what stands behind it.
proof fn lemma_sides(a: Seq<Seq<u8>>, c: Seq<Seq<u8>>, b: Seq<Seq<u8>>)
    ensures
        stands_at(a, c, 8) ==> path_less(a, c),
        stands_at(b, c, 16) ==> path_less(c, b),
        stands_at(b, c, 12) ==> path_less(c, b),
        stands_at(a, c, 8) && stands_at(b, c, 16) ==> path_less(a, b),
        stands_at(a, c, 8) && stands_at(b, c, 12) ==> path_less(a, b),
        stands_at(a, c, 16) && stands_at(b, c, 12) ==> path_less(a, b),
{
    let k = c.len() - 1;
    if stands_at(a, c, 8) {
        assert(parts_at(a, c, k));
    }
    if stands_at(b, c, 16) {
        assert(c.take(k + 1) =~= c);
        assert(parts_at(c, b, k + 1));
    }
    if stands_at(b, c, 12) {
        assert(parts_at(c, b, k));
    }
    if stands_at(a, c, 8) && stands_at(b, c, 16) {
        assert(b.take(k) =~= c.take(k)) by {
            assert(b.take(k) =~= b.take(k + 1).take(k));
        }
        assert(b[k] == b.take(k + 1)[k]);
        assert(parts_at(a, b, k));
    }
    if stands_at(a, c, 8) && stands_at(b, c, 12) {
        lemma_name_transitive(a[k], c[k], b[k]);
        assert(parts_at(a, b, k));
    }
    if stands_at(a, c, 16) && stands_at(b, c, 12) {
        assert(a.take(k) =~= c.take(k)) by {
            assert(a.take(k) =~= a.take(k + 1).take(k));
        }
        assert(a[k] == a.take(k + 1)[k]);
        assert(parts_at(a, b, k));
    }
}

/// All of `a` comes before all of `b`.
spec fn all_before(a: Seq<PropView>, b: Seq<PropView>) -> bool {
    forall|v: PropView, w: PropView|
        #![trigger a.contains(v), b.contains(w)]
        a.contains(v) && b.contains(w) ==> key_less(v.name, w.name)
}

proof fn lemma_order_joined(a: Seq<PropView>, b: Seq<PropView>)
    requires
        keys_in_order(names(a)),
        keys_in_order(names(b)),
        all_before(a, b),
    ensures
        keys_in_order(names(a + b)),
{
    let c = names(a + b);
    assert forall|i: int, j: int|
        #![trigger c[i], c[j]]
        0 <= i < j < c.len() implies key_less(c[i], c[j]) by {
        if j < a.len() {
            assert(c[i] == names(a)[i] && c[j] == names(a)[j]);
        } else if i >= a.len() {
            assert(c[i] == names(b)[i - a.len()] && c[j] == names(b)[j - a.len()]);
        } else {
            assert(a.contains(a[i]));
            assert(b.contains(b[j - a.len()]));
        }
    }
}

/// Lists below two places of a node come one before the other.
proof fn lemma_links_in_order(
    s: AreaState,
    g: Layout,
    c: int,
    j: int,
    k: int,
    a: Seq<PropView>,
    b: Seq<PropView>,
)
    requires
        describes(g, s),
        g.nodes.dom().contains(c),
        (j == 8 && k == 16) || (j == 8 && k == 12) || (j == 16 && k == 12),
        lists_link(g, link_of(g.nodes[c], j), a),
        lists_link(g, link_of(g.nodes[c], k), b),
    ensures
        all_before(a, b),
{
    assert forall|v: PropView, w: PropView|
        #![trigger a.contains(v), b.contains(w)]
        a.contains(v) && b.contains(w) implies key_less(v.name, w.name) by {
        let x = link_of(g.nodes[c], j);
        let y = link_of(g.nodes[c], k);
        let o = choose|o: int| #[trigger] entry_below(g, x, o, v);
        let q = choose|o: int| #[trigger] entry_below(g, y, o, w);
        lemma_entry_path(s, g, o);
        lemma_entry_path(s, g, q);
        lemma_stands_at(s, g, c, j, o);
        lemma_stands_at(s, g, c, k, q);
        lemma_sides(g.nodes[o].path, g.nodes[c].path, g.nodes[q].path);
    }
}

/// The entry of a node comes behind what is on its left, and before the rest.
proof fn lemma_own_in_order(s: AreaState, g: Layout, c: int, k: int, a: Seq<PropView>)
    requires
        describes(g, s),
        g.nodes.dom().contains(c),
        g.nodes[c].prop != 0,
        is_link(k),
        lists_link(g, link_of(g.nodes[c], k), a),
    ensures
        k == 8 ==> all_before(a, seq![entry(g, c)]),
        k != 8 ==> all_before(seq![entry(g, c)], a),
{
    let own = seq![entry(g, c)];
    lemma_entry_path(s, g, c);
    assert forall|v: PropView| #[trigger] a.contains(v) implies {
        &&& k == 8 ==> key_less(v.name, entry(g, c).name)
        &&& k != 8 ==> key_less(entry(g, c).name, v.name)
    } by {
        let x = link_of(g.nodes[c], k);
        let o = choose|o: int| #[trigger] entry_below(g, x, o, v);
        lemma_entry_path(s, g, o);
        lemma_stands_at(s, g, c, k, o);
        lemma_sides(g.nodes[o].path, g.nodes[c].path, g.nodes[o].path);
    }
    assert(forall|w: PropView| #[trigger] own.contains(w) ==> w == entry(g, c));
}

/// The lists of a node and of what it refers to make up a list in order.
proof fn lemma_node_in_order(
    s: AreaState,
    g: Layout,
    c: int,
    left: Seq<PropView>,
    kids: Seq<PropView>,
    right: Seq<PropView>,
)
    requires
        describes(g, s),
        g.nodes.dom().contains(c),
        lists_link(g, g.nodes[c].left, left),
        lists_link(g, g.nodes[c].kids, kids),
        lists_link(g, g.nodes[c].right, right),
        keys_in_order(names(left)),
        keys_in_order(names(kids)),
        keys_in_order(names(right)),
    ensures
        keys_in_order(names(left + own_property(s.data, g.nodes[c].prop).0 + kids + right)),
{
    let n = g.nodes[c];
    let own = own_property(s.data, n.prop).0;
    lemma_node(s, g, c);
    if n.prop != 0 {
        assert(rec_fits(s, g, n.prop));
        lemma_read_record(s.data, n.prop, g.recs[n.prop]);
        assert(own == seq![entry(g, c)]);
        lemma_own_in_order(s, g, c, 8, left);
        lemma_own_in_order(s, g, c, 16, kids);
        lemma_own_in_order(s, g, c, 12, right);
    }
    lemma_links_in_order(s, g, c, 8, 16, left, kids);
    lemma_links_in_order(s, g, c, 8, 12, left, right);
    lemma_links_in_order(s, g, c, 16, 12, kids, right);
    let l2 = left + own;
    let l3 = l2 + kids;
    lemma_order_joined(left, own);
    assert forall|v: PropView, w: PropView|
        #![trigger l2.contains(v), kids.contains(w)]
        l2.contains(v) && kids.contains(w) implies key_less(v.name, w.name) by {
        lemma_concat_contains(left, own, v);
    }
    lemma_order_joined(l2, kids);
    assert forall|v: PropView, w: PropView|
        #![trigger l3.contains(v), right.contains(w)]
        l3.contains(v) && right.contains(w) implies key_less(v.name, w.name) by {
        lemma_concat_contains(l2, kids, v);
        lemma_concat_contains(left, own, v);
    }
    lemma_order_joined(l3, right);
}

/// Walking the trie from a node lists what is below it in order.
proof fn lemma_walk_in_order(s: AreaState, g: Layout, c: int, path: Set<int>, depth: nat)
    requires
        describes(g, s),
        g.nodes.dom().contains(c),
        forall|o: int| #[trigger] path.contains(o) ==> o < c,
        c + 20 * depth >= s.data.len(),
    ensures
        keys_in_order(names(walk(s.data, c, path, depth).0)),
    decreases depth,
{
    lemma_walk(s, g, c, path, depth);
    lemma_node(s, g, c);
    let n = g.nodes[c];
    if depth > 0 {
        let inner = path.insert(c);
        let less = (depth - 1) as nat;
        if n.prop != 0 {
            assert(rec_fits(s, g, n.prop));
            lemma_read_record(s.data, n.prop, g.recs[n.prop]);
        }
        if n.left != 0 {
            lemma_child_behind(s, g, c, 8);
            lemma_walk(s, g, n.left, inner, less);
            lemma_walk_in_order(s, g, n.left, inner, less);
        }
        if n.kids != 0 {
            lemma_child_behind(s, g, c, 16);
            lemma_walk(s, g, n.kids, inner, less);
            lemma_walk_in_order(s, g, n.kids, inner, less);
        }
        if n.right != 0 {
            lemma_child_behind(s, g, c, 12);
            lemma_walk(s, g, n.right, inner, less);
            lemma_walk_in_order(s, g, n.right, inner, less);
        }
        lemma_node_in_order(
            s,
            g,
            c,
            walk_link(s.data, n.left, inner, less).0,
            walk_link(s.data, n.kids, inner, less).0,
            walk_link(s.data, n.right, inner, less).0,
        );
    }
}

/// Walking an area lists the properties in order of their names: segment by
/// segment the shorter one first, then by bytes, and a name before those that
/// continue it. The order in which they were stored plays no part.
pub proof fn law_listing_order(s: AreaState)
    requires
        well_formed(s),
    ensures
        all_properties(s.data).1 is Ok,
        keys_in_order(names(all_properties(s.data).0)),
{
    let g = choose|g: Layout| #[trigger] describes(g, s);
    lemma_node(s, g, 0);
    lemma_walk(s, g, 0, Set::empty(), (s.data.len() + 1) as nat);
    lemma_walk_in_order(s, g, 0, Set::empty(), (s.data.len() + 1) as nat);
}

/// Two lists in order with the same keys are the same.
proof fn lemma_order_unique(a: Seq<Seq<u8>>, b: Seq<Seq<u8>>, n: int)
    requires
        keys_in_order(a),
        keys_in_order(b),
        forall|k: Seq<u8>| #[trigger] a.contains(k) == b.contains(k),
        0 <= n <= a.len(),
    ensures
        n <= b.len(),
        a.take(n) == b.take(n),
    decreases n,
{
    if n > 0 {
        let i = n - 1;
        lemma_order_unique(a, b, i);
        assert forall|j: int| 0 <= j < i implies #[trigger] a[j] == b[j] by {
            assert(a.take(i)[j] == b.take(i)[j]);
        }
        assert(a.contains(a[i]));
        let j = choose|j: int| 0 <= j < b.len() && b[j] == a[i];
        if j < i {
            assert(key_less(a[j], a[i]));
            lemma_key_less_once(a[j], a[i]);
        }
        assert(i < b.len());
        assert(b.contains(b[i]));
        assert(a.contains(b[i]));
        let k = choose|k: int| 0 <= k < a.len() && a[k] == b[i];
        if k < i {
            assert(key_less(b[k], b[i]));
            lemma_key_less_once(b[k], b[i]);
        }
        if j > i {
            assert(key_less(b[i], b[j]));
            lemma_key_less_once(b[i], b[j]);
            if k > i {
                assert(key_less(a[i], a[k]));
            }
        }
        assert(a.take(n) =~= b.take(n));
    }
}

/// The same is listed, in the same order: names, values and whether they are
/// stored as long ones.
pub open spec fn same_listing(a: Seq<PropView>, b: Seq<PropView>) -> bool {
    &&& a.len() == b.len()
    &&& forall|i: int|
        0 <= i < a.len() ==> {
            &&& (#[trigger] a[i]).name == b[i].name
            &&& a[i].value == b[i].value
            &&& a[i].is_long == b[i].is_long
        }
}

/// What is stored for a property tells whether it is found, and with what.
proof fn lemma_found(s: AreaState, key: Seq<u8>)
    requires
        well_formed(s),
        key_ok(key),
    ensures
        match (lookup(s.data, key), lookup_content(s.data, key)) {
            (Ok(None), Ok(None)) => true,
            (Ok(Some(v)), Ok(Some(c))) => v.value == c.value && v.is_long == c.is_long,
            _ => false,
        },
{
    let g = choose|g: Layout| #[trigger] describes(g, s);
    lemma_lookup(s, g, key);
    lemma_find_node(s, g, key);
    if g.index.dom().contains(segments(key)) {
        let o = g.index[segments(key)];
        lemma_node(s, g, o);
        let p = g.nodes[o].prop;
        if p != 0 {
            assert(rec_fits(s, g, p));
            lemma_read_record(s.data, p, g.recs[p]);
        }
    }
}

/// Areas that store the same for every key list the same, in the same order.
pub proof fn law_same_listing(s: AreaState, t: AreaState)
    requires
        well_formed(s),
        well_formed(t),
        forall|key: Seq<u8>|
            key_ok(key) ==> #[trigger] lookup_content(s.data, key) == lookup_content(t.data, key),
    ensures
        same_listing(all_properties(s.data).0, all_properties(t.data).0),
{
    let a = all_properties(s.data).0;
    let b = all_properties(t.data).0;
    lemma_names_found(s, t);
    lemma_names_found(t, s);
    law_listing_order(s);
    law_listing_order(t);
    lemma_order_unique(names(a), names(b), a.len() as int);
    lemma_order_unique(names(b), names(a), b.len() as int);
    assert forall|i: int| 0 <= i < a.len() implies {
        &&& (#[trigger] a[i]).name == b[i].name
        &&& a[i].value == b[i].value
        &&& a[i].is_long == b[i].is_long
    } by {
        assert(names(a).take(a.len() as int)[i] == names(b).take(a.len() as int)[i]);
        law_listing(s);
        law_listing(t);
        assert(a.contains(a[i]));
        assert(b.contains(b[i]));
        lemma_found(s, a[i].name);
        lemma_found(t, a[i].name);
        assert(lookup_content(s.data, a[i].name) == lookup_content(t.data, a[i].name));
    }
}

/// What one area lists, the other one lists too.
proof fn lemma_names_found(s: AreaState, t: AreaState)
    requires
        well_formed(s),
        well_formed(t),
        forall|key: Seq<u8>|
            key_ok(key) ==> #[trigger] lookup_content(s.data, key) == lookup_content(t.data, key),
    ensures
        forall|k: Seq<u8>| #[trigger]
            names(all_properties(s.data).0).contains(k) ==> names(
                all_properties(t.data).0,
            ).contains(k),
{
    let a = all_properties(s.data).0;
    let b = all_properties(t.data).0;
    law_listing(s);
    law_listing(t);
    assert forall|k: Seq<u8>| #[trigger] names(a).contains(k) implies names(b).contains(k) by {
        let i = choose|i: int| 0 <= i < a.len() && names(a)[i] == k;
        assert(a.contains(a[i]));
        lemma_found(s, k);
        lemma_found(t, k);
        assert(lookup_content(s.data, k) == lookup_content(t.data, k));
        let v = lookup(t.data, k)->Ok_0->0;
        assert(b.contains(v));
        let j = choose|j: int| 0 <= j < b.len() && b[j] == v;
        assert(names(b)[j] == k);
    }
}

/// Packing changes nothing about what is listed, nor its order.
pub proof fn law_compact_listing(s: AreaState)
    requires
        well_formed(s),
    ensures
        same_listing(all_properties(s.data).0, all_properties(compact(s).0.data).0),
{
    let t = compact(s).0;
    assert forall|key: Seq<u8>| key_ok(key) implies #[trigger] lookup_content(s.data, key)
        == lookup_content(t.data, key) by {
        law_compact(s, key);
    }
    let g = choose|g: Layout| #[trigger] describes(g, s);
    lemma_compact(s, g);
    law_same_listing(s, t);
}

} // verus!
