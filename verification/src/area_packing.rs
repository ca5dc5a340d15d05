//! Packing a well-formed property area keeps it well formed, and closes every
//! gap.
use crate::area_compact::{
    gather, gather_link, gather_node, gather_record, gathered_at_start, insert_move, node_room,
    sort_moves, Gathered, MoveView,
};
use crate::area_layout::{
    describes, is_link, lemma_child_behind, lemma_node, lemma_read_record, link_fits, link_of,
    long_size, name_of, node_size, node_view, owned, rec_bytes_at, rec_fits, rec_size, Layout,
    Owner,
};
use crate::area_pruning::{
    below, lemma_below_apart, lemma_below_root, lemma_below_split, lemma_below_up,
};
use crate::area_scan::dirty_backup;
use crate::area_state::{AreaFault, AreaState};
use crate::prop_info::align4;
use vstd::prelude::*;

verus! {

/// An object of the layout.
pub open spec fn live(g: Layout, w: Owner) -> bool {
    match w {
        Owner::Node(o) => g.nodes.dom().contains(o),
        Owner::Record(p) => g.recs.dom().contains(p),
        Owner::Long(p) => g.recs.dom().contains(p) && g.recs[p].long is Some,
    }
}

/// Where an object stands, how long it is, and what refers to it.
pub open spec fn object_of(g: Layout, w: Owner) -> MoveView {
    match w {
        Owner::Node(o) => MoveView {
            offset: o,
            size: node_size(name_of(g.nodes[o]).len() as int),
            referer: if o == 0 {
                None
            } else {
                Some((g.nodes[o].from, g.nodes[o].slot))
            },
            relative: false,
        },
        Owner::Record(p) => MoveView {
            offset: p,
            size: rec_size(g.recs[p].name.len() as int),
            referer: Some((g.recs[p].node, 4int)),
            relative: false,
        },
        Owner::Long(p) => MoveView {
            offset: g.recs[p].long->0,
            size: long_size(g.recs[p].value.len() as int),
            referer: Some((p, 60int)),
            relative: true,
        },
    }
}

/// The entry of the dirty-backup area.
pub open spec fn dirty_move() -> MoveView {
    MoveView { offset: 20, size: 92, referer: None, relative: false }
}

/// An object owns its bytes, which lie in the part that is in use.
pub proof fn lemma_live(s: AreaState, g: Layout, w: Owner)
    requires
        describes(g, s),
        live(g, w),
    ensures
        ({
            let m = object_of(g, w);
            &&& owned(g.own, w, m.offset, m.size)
            &&& 0 <= m.offset
            &&& 0 < m.size
            &&& m.offset + m.size <= s.used
            &&& w != Owner::Node(0) ==> m.referer is Some && 0 <= (m.referer->0).0 < m.offset
                && m.offset >= 20
        }),
{
    match w {
        Owner::Node(o) => {
            lemma_node(s, g, o);
        },
        Owner::Record(p) => {
            assert(rec_fits(s, g, p));
            lemma_node(s, g, g.recs[p].node);
            lemma_behind_root(s, g, w);
        },
        Owner::Long(p) => {
            assert(rec_fits(s, g, p));
            reveal(rec_bytes_at);
            lemma_behind_root(s, g, w);
        },
    }
}

/// Every object but the root stands behind the root.
proof fn lemma_behind_root(s: AreaState, g: Layout, w: Owner)
    requires
        describes(g, s),
        live(g, w),
        !(w is Node),
    ensures
        object_of(g, w).offset >= 20,
{
    lemma_node(s, g, 0);
    let p = match w {
        Owner::Node(o) => o,
        Owner::Record(p) => p,
        Owner::Long(p) => p,
    };
    assert(rec_fits(s, g, p));
    reveal(rec_bytes_at);
    let at = object_of(g, w).offset;
    if at < 20 {
        assert((g.own)(at) == Owner::Node(0));
        assert((g.own)(at) == w);
    }
}

/// Objects do not overlap.
pub proof fn lemma_objects_apart(s: AreaState, g: Layout, v: Owner, w: Owner)
    requires
        describes(g, s),
        live(g, v),
        live(g, w),
        v != w,
    ensures
        ({
            let a = object_of(g, v);
            let b = object_of(g, w);
            a.offset + a.size <= b.offset || b.offset + b.size <= a.offset
        }),
{
    lemma_live(s, g, v);
    lemma_live(s, g, w);
    let a = object_of(g, v);
    let b = object_of(g, w);
    if a.offset <= b.offset < a.offset + a.size {
        assert((g.own)(b.offset) == v);
        assert((g.own)(b.offset) == w);
    }
    if b.offset <= a.offset < b.offset + b.size {
        assert((g.own)(a.offset) == v);
        assert((g.own)(a.offset) == w);
    }
}

// ---------------------------------------------------------------------------
// Gathering the objects
// ---------------------------------------------------------------------------

/// The entry `m` stands for an object that the walk has met.
pub open spec fn met(g: Layout, k: Gathered, w: Owner) -> bool {
    match w {
        Owner::Node(o) => k.nodes.contains(o),
        Owner::Record(p) => k.props.contains(p),
        Owner::Long(p) => k.props.contains(p) && g.recs[p].long is Some,
    }
}

/// What a walk has gathered: the objects of some nodes, each once, and perhaps
/// the dirty-backup area.
pub open spec fn gathered_well(g: Layout, k: Gathered, dirty: bool) -> bool {
    &&& k.records.no_duplicates()
    &&& forall|w: Owner| #[trigger]
        met(g, k, w) ==> live(g, w) && k.records.contains(object_of(g, w))
    &&& forall|m: MoveView| #[trigger]
        k.records.contains(m) ==> (dirty && m == dirty_move()) || exists|w: Owner| #[trigger]
            met(g, k, w) && m == object_of(g, w)
    &&& dirty ==> k.records.contains(dirty_move())
    &&& forall|o: int| #[trigger]
        k.nodes.contains(o) && g.nodes[o].prop != 0 ==> k.props.contains(g.nodes[o].prop)
    &&& forall|p: int| #[trigger] k.props.contains(p) ==> k.nodes.contains(g.recs[p].node)
    &&& forall|at: int| #[trigger]
        k.longs.contains(at) ==> exists|p: int| #[trigger]
            k.props.contains(p) && g.recs[p].long == Some(at)
}

/// Two objects with the same entry are the same.
pub proof fn lemma_object_once(s: AreaState, g: Layout, v: Owner, w: Owner)
    requires
        describes(g, s),
        live(g, v),
        live(g, w),
        object_of(g, v) == object_of(g, w),
    ensures
        v == w,
{
    lemma_live(s, g, v);
    lemma_live(s, g, w);
    assert((g.own)(object_of(g, v).offset) == v);
    assert((g.own)(object_of(g, v).offset) == w);
}

/// The entry of an object is not that of the dirty-backup area.
pub proof fn lemma_not_dirty(s: AreaState, g: Layout, w: Owner)
    requires
        describes(g, s),
        live(g, w),
    ensures
        object_of(g, w) != dirty_move(),
{
    lemma_live(s, g, w);
}

/// Rounding sizes does not wrap for objects that exist.
pub proof fn lemma_sizes(s: AreaState, g: Layout, c: int)
    requires
        describes(g, s),
        g.nodes.dom().contains(c),
    ensures
        ({
            let n = g.nodes[c];
            &&& node_room(node_view(n)) == node_size(name_of(n).len() as int)
            &&& n.prop != 0 ==> {
                let r = g.recs[n.prop];
                &&& align4(97 + r.name.len() as int) == rec_size(r.name.len() as int)
                &&& r.long is Some ==> align4(r.value.len() as int + 1) == long_size(
                    r.value.len() as int,
                )
            }
        }),
{
    let n = g.nodes[c];
    lemma_node(s, g, c);
    if n.prop != 0 {
        lemma_live(s, g, Owner::Record(n.prop));
        if g.recs[n.prop].long is Some {
            lemma_live(s, g, Owner::Long(n.prop));
        }
    }
}

/// What a list holds after something new was put at its end.
pub proof fn lemma_push_once<A>(s: Seq<A>, x: A)
    ensures
        forall|m: A| #[trigger] s.push(x).contains(m) == (s.contains(m) || m == x),
        s.no_duplicates() && !s.contains(x) ==> s.push(x).no_duplicates(),
{
    let t = s.push(x);
    assert forall|m: A| #[trigger] t.contains(m) == (s.contains(m) || m == x) by {
        if s.contains(m) {
            let i = choose|i: int| 0 <= i < s.len() && s[i] == m;
            assert(t[i] == m);
        }
        assert(t[s.len() as int] == x);
        if t.contains(m) {
            let i = choose|i: int| 0 <= i < t.len() && t[i] == m;
            if i < s.len() {
                assert(s[i] == m);
            }
        }
    }
    if s.no_duplicates() && !s.contains(x) {
        assert forall|i: int, j: int| 0 <= i < t.len() && 0 <= j < t.len() && i != j implies t[i]
            != t[j] by {
            if i < s.len() {
                assert(s.contains(s[i]));
            }
            if j < s.len() {
                assert(s.contains(s[j]));
            }
        }
    }
}

/// What is gathered at the node at `c` itself.
pub open spec fn gathered_own(g: Layout, k: Gathered, c: int) -> Gathered {
    let n = g.nodes[c];
    let k1 = Gathered {
        nodes: k.nodes.insert(c),
        records: k.records.push(object_of(g, Owner::Node(c))),
        ..k
    };
    if n.prop == 0 {
        k1
    } else {
        let k2 = Gathered {
            props: k.props.insert(n.prop),
            records: k1.records.push(object_of(g, Owner::Record(n.prop))),
            ..k1
        };
        match g.recs[n.prop].long {
            None => k2,
            Some(at) => Gathered {
                longs: k.longs.insert(at),
                records: k2.records.push(object_of(g, Owner::Long(n.prop))),
                ..k2
            },
        }
    }
}

/// An object that was not met is not in the list.
proof fn lemma_unmet(s: AreaState, g: Layout, k: Gathered, w: Owner, dirty: bool)
    requires
        describes(g, s),
        gathered_well(g, k, dirty),
        live(g, w),
        !met(g, k, w),
    ensures
        !k.records.contains(object_of(g, w)),
{
    if k.records.contains(object_of(g, w)) {
        lemma_not_dirty(s, g, w);
        let v = choose|v: Owner| #[trigger] met(g, k, v) && object_of(g, w) == object_of(g, v);
        lemma_object_once(s, g, v, w);
    }
}

/// The walk gathers the objects of the node at `c`.
proof fn lemma_gather_record(s: AreaState, g: Layout, k: Gathered, c: int, dirty: bool)
    requires
        describes(g, s),
        gathered_well(g, k, dirty),
        g.nodes.dom().contains(c),
        !k.nodes.contains(c),
    ensures
        ({
            let k1 = Gathered {
                nodes: k.nodes.insert(c),
                records: k.records.push(object_of(g, Owner::Node(c))),
                ..k
            };
            gather_record(s.data, c, g.nodes[c].prop, k1) == Ok::<Gathered, AreaFault>(
                gathered_own(g, k, c),
            )
        }),
{
    let n = g.nodes[c];
    lemma_node(s, g, c);
    lemma_sizes(s, g, c);
    if n.prop != 0 {
        let p = n.prop;
        assert(rec_fits(s, g, p));
        lemma_read_record(s.data, p, g.recs[p]);
        assert(!k.props.contains(p));
        if let Some(at) = g.recs[p].long {
            if k.longs.contains(at) {
                let q = choose|q: int| #[trigger] k.props.contains(q) && g.recs[q].long == Some(at);
                assert(met(g, k, Owner::Record(q)));
                lemma_live(s, g, Owner::Long(q));
                lemma_live(s, g, Owner::Long(p));
                assert((g.own)(at) == Owner::Long(q));
                assert((g.own)(at) == Owner::Long(p));
            }
        }
    }
}

/// What is gathered at a node is gathered well.
proof fn lemma_gathered_own(s: AreaState, g: Layout, k: Gathered, c: int, dirty: bool)
    requires
        describes(g, s),
        gathered_well(g, k, dirty),
        g.nodes.dom().contains(c),
        !k.nodes.contains(c),
    ensures
        gathered_well(g, gathered_own(g, k, c), dirty),
{
    let n = g.nodes[c];
    let p = n.prop;
    let k3 = gathered_own(g, k, c);
    lemma_node(s, g, c);
    let a = object_of(g, Owner::Node(c));
    assert(!met(g, k, Owner::Node(c)));
    lemma_unmet(s, g, k, Owner::Node(c), dirty);
    lemma_push_once(k.records, a);
    let r1 = k.records.push(a);
    if p != 0 {
        assert(rec_fits(s, g, p));
        assert(!k.props.contains(p));
        assert(!met(g, k, Owner::Record(p)));
        lemma_unmet(s, g, k, Owner::Record(p), dirty);
        let b = object_of(g, Owner::Record(p));
        lemma_push_once(r1, b);
        let r2 = r1.push(b);
        if g.recs[p].long is Some {
            assert(!met(g, k, Owner::Long(p)));
            lemma_unmet(s, g, k, Owner::Long(p), dirty);
            lemma_push_once(r2, object_of(g, Owner::Long(p)));
        }
    }
    assert(k3.records.no_duplicates());
    assert forall|w: Owner| #[trigger] met(g, k3, w) implies live(g, w) && k3.records.contains(
        object_of(g, w),
    ) by {
        if met(g, k, w) {
        }
    }
    assert forall|m: MoveView| #[trigger] k3.records.contains(m) implies (dirty && m
        == dirty_move()) || exists|w: Owner| #[trigger] met(g, k3, w) && m == object_of(g, w) by {
        if m == a {
            assert(met(g, k3, Owner::Node(c)));
        } else if p != 0 && m == object_of(g, Owner::Record(p)) {
            assert(met(g, k3, Owner::Record(p)));
        } else if p != 0 && g.recs[p].long is Some && m == object_of(g, Owner::Long(p)) {
            assert(met(g, k3, Owner::Long(p)));
        } else if !(dirty && m == dirty_move()) {
            assert(k.records.contains(m));
            let w = choose|w: Owner| #[trigger] met(g, k, w) && m == object_of(g, w);
            assert(met(g, k3, w));
        }
    }
    assert forall|at: int| #[trigger] k3.longs.contains(at) implies exists|q: int| #[trigger]
        k3.props.contains(q) && g.recs[q].long == Some(at) by {
        if k.longs.contains(at) {
            let q = choose|q: int| #[trigger] k.props.contains(q) && g.recs[q].long == Some(at);
            assert(k3.props.contains(q));
        } else {
            assert(k3.props.contains(p));
        }
    }
}

/// What a walk that starts at the node at `c` adds: the nodes below it.
pub open spec fn gathered_below(g: Layout, k: Gathered, j: Gathered, c: int) -> bool {
    forall|o: int| #[trigger]
        j.nodes.contains(o) == (k.nodes.contains(o) || (g.nodes.dom().contains(o) && below(g, o, c)))
}

/// The walk gathers the objects below what the node at `c` refers to at one
/// place.
proof fn lemma_gather_link(
    s: AreaState,
    g: Layout,
    k: Gathered,
    c: int,
    slot: int,
    depth: nat,
    dirty: bool,
) -> (j: Gathered)
    requires
        describes(g, s),
        gathered_well(g, k, dirty),
        g.nodes.dom().contains(c),
        is_link(slot),
        link_of(g.nodes[c], slot) != 0 ==> forall|o: int| #[trigger]
            k.nodes.contains(o) ==> !below(g, o, link_of(g.nodes[c], slot)),
        c + 20 + 20 * depth >= s.data.len(),
    ensures
        gather_link(s.data, c, slot, link_of(g.nodes[c], slot), k, depth) == Ok::<
            Gathered,
            AreaFault,
        >(j),
        gathered_well(g, j, dirty),
        link_of(g.nodes[c], slot) == 0 ==> j == k,
        link_of(g.nodes[c], slot) != 0 ==> gathered_below(g, k, j, link_of(g.nodes[c], slot)),
    decreases depth, 1int,
{
    let d = link_of(g.nodes[c], slot);
    if d == 0 {
        k
    } else {
        lemma_node(s, g, c);
        lemma_child_behind(s, g, c, slot);
        assert(link_fits(g, c, slot));
        lemma_gather_node(s, g, k, d, depth, dirty)
    }
}

/// The walk gathers the objects below the node at `c`.
proof fn lemma_gather_node(
    s: AreaState,
    g: Layout,
    k: Gathered,
    c: int,
    depth: nat,
    dirty: bool,
) -> (j: Gathered)
    requires
        describes(g, s),
        gathered_well(g, k, dirty),
        g.nodes.dom().contains(c),
        forall|o: int| #[trigger] k.nodes.contains(o) ==> !below(g, o, c),
        c + 20 * depth >= s.data.len(),
    ensures
        gather_node(s.data, c, object_of(g, Owner::Node(c)).referer, k, depth) == Ok::<
            Gathered,
            AreaFault,
        >(j),
        gathered_well(g, j, dirty),
        gathered_below(g, k, j, c),
    decreases depth, 0int,
{
    lemma_node(s, g, c);
    let n = g.nodes[c];
    assert(below(g, c, c));
    if depth == 0 {
        assert(false);
        k
    } else {
        let less = (depth - 1) as nat;
        lemma_sizes(s, g, c);
        lemma_gather_record(s, g, k, c, dirty);
        lemma_gathered_own(s, g, k, c, dirty);
        let k0 = gathered_own(g, k, c);
        assert forall|o: int, slot: int|
            is_link(slot) && link_of(n, slot) != 0 && #[trigger] below(g, o, link_of(n, slot)) implies below(
            g,
            o,
            c,
        ) && o != c by {
            lemma_child_behind(s, g, c, slot);
            assert(link_fits(g, c, slot));
            lemma_below_up(g, o, link_of(n, slot), c);
        }
        let k1 = lemma_gather_link(s, g, k0, c, 8, less, dirty);
        assert(n.kids != 0 ==> forall|o: int| #[trigger]
            k1.nodes.contains(o) ==> !below(g, o, n.kids)) by {
            assert forall|o: int| n.kids != 0 && #[trigger] k1.nodes.contains(o) implies !below(
                g,
                o,
                n.kids,
            ) by {
                if n.left != 0 && below(g, o, n.left) {
                    lemma_below_apart(s, g, o, c, 8, 16);
                } else if below(g, o, link_of(n, 16)) {
                    assert(k0.nodes.contains(o));
                }
            }
        }
        let k2 = lemma_gather_link(s, g, k1, c, 16, less, dirty);
        assert(n.right != 0 ==> forall|o: int| #[trigger]
            k2.nodes.contains(o) ==> !below(g, o, n.right)) by {
            assert forall|o: int| n.right != 0 && #[trigger] k2.nodes.contains(o) implies !below(
                g,
                o,
                n.right,
            ) by {
                if n.left != 0 && below(g, o, n.left) {
                    lemma_below_apart(s, g, o, c, 8, 12);
                } else if n.kids != 0 && below(g, o, n.kids) {
                    lemma_below_apart(s, g, o, c, 16, 12);
                } else if below(g, o, link_of(n, 12)) {
                    assert(k1.nodes.contains(o));
                    assert(k0.nodes.contains(o));
                }
            }
        }
        let k3 = lemma_gather_link(s, g, k2, c, 12, less, dirty);
        assert(gathered_below(g, k, k3, c)) by {
            assert forall|o: int| #[trigger]
                k3.nodes.contains(o) == (k.nodes.contains(o) || (g.nodes.dom().contains(o) && below(
                    g,
                    o,
                    c,
                ))) by {
                assert(n.left == link_of(n, 8) && n.kids == link_of(n, 16) && n.right == link_of(
                    n,
                    12,
                ));
                if g.nodes.dom().contains(o) && below(g, o, c) && o != c {
                    let slot = lemma_below_split(s, g, o, c);
                    assert(below(g, o, link_of(n, slot)));
                    assert(k1.nodes.contains(o) || k2.nodes.contains(o) || k3.nodes.contains(o));
                }
                assert(k0.nodes.contains(o) == (k.nodes.contains(o) || o == c));
                if k1.nodes.contains(o) {
                    assert(k2.nodes.contains(o) || n.kids == 0);
                }
                if k2.nodes.contains(o) {
                    assert(k3.nodes.contains(o) || n.right == 0);
                }
                if n.left != 0 {
                    assert(k1.nodes.contains(o) == (k0.nodes.contains(o) || (
                    g.nodes.dom().contains(o) && below(g, o, n.left))));
                }
                if n.kids != 0 {
                    assert(k2.nodes.contains(o) == (k1.nodes.contains(o) || (
                    g.nodes.dom().contains(o) && below(g, o, n.kids))));
                }
            }
        }
        k3
    }
}

// ---------------------------------------------------------------------------
// Sorting
// ---------------------------------------------------------------------------

/// The entries are in order of their offsets.
pub open spec fn in_order(r: Seq<MoveView>) -> bool {
    forall|i: int, j: int| 0 <= i <= j < r.len() ==> #[trigger] r[i].offset <= #[trigger] r[j].offset
}

proof fn lemma_insert_move(s: Seq<MoveView>, m: MoveView)
    requires
        in_order(s),
    ensures
        in_order(insert_move(s, m)),
        insert_move(s, m).len() == s.len() + 1,
        forall|x: MoveView| #[trigger] insert_move(s, m).contains(x) == (s.contains(x) || x == m),
        s.no_duplicates() && !s.contains(m) ==> insert_move(s, m).no_duplicates(),
    decreases s.len(),
{
    if s.len() == 0 || m.offset >= s.last().offset {
        lemma_push_once(s, m);
    } else {
        let t = s.drop_last();
        let y = s.last();
        lemma_insert_move(t, m);
        let u = insert_move(t, m);
        lemma_push_once(u, y);
        lemma_push_once(t, y);
        assert(t.push(y) =~= s);
        assert forall|i: int, j: int| 0 <= i <= j < u.push(y).len() implies #[trigger] u.push(
            y,
        )[i].offset <= #[trigger] u.push(y)[j].offset by {
            if i < u.len() {
                assert(u.contains(u[i]));
                if u[i] != m {
                    let k = choose|k: int| 0 <= k < t.len() && t[k] == u[i];
                    assert(s[k].offset <= s[s.len() - 1].offset);
                }
            }
        }
        if s.no_duplicates() && !s.contains(m) {
            assert(!t.contains(y)) by {
                if t.contains(y) {
                    let k = choose|k: int| 0 <= k < t.len() && t[k] == y;
                    assert(s[k] == s[s.len() - 1]);
                }
            }
        }
    }
}

/// What sorting keeps.
pub proof fn lemma_sort_moves(s: Seq<MoveView>)
    ensures
        in_order(sort_moves(s)),
        s.no_duplicates() ==> sort_moves(s).no_duplicates(),
        sort_moves(s).len() == s.len(),
        forall|x: MoveView| #[trigger] sort_moves(s).contains(x) == s.contains(x),
    decreases s.len(),
{
    if s.len() > 0 {
        let t = s.drop_last();
        lemma_sort_moves(t);
        assert(s.no_duplicates() ==> !t.contains(s.last())) by {
            if t.contains(s.last()) {
                let k = choose|k: int| 0 <= k < t.len() && t[k] == s.last();
                assert(s[k] == s[s.len() - 1]);
            }
        }
        lemma_insert_move(sort_moves(t), s.last());
        lemma_push_once(t, s.last());
        assert(t.push(s.last()) =~= s);
    }
}

/// `r` lists the objects of the layout, each once and in order, and the
/// dirty-backup area where there is one.
pub open spec fn all_objects(g: Layout, r: Seq<MoveView>, dirty: bool) -> bool {
    &&& in_order(r)
    &&& r.no_duplicates()
    &&& forall|w: Owner| #[trigger] live(g, w) ==> r.contains(object_of(g, w))
    &&& forall|m: MoveView| #[trigger]
        r.contains(m) ==> (dirty && m == dirty_move()) || exists|w: Owner| #[trigger]
            live(g, w) && m == object_of(g, w)
    &&& dirty ==> r.contains(dirty_move())
}

/// Gathering lists all objects.
pub proof fn lemma_gather(s: AreaState, g: Layout)
    requires
        describes(g, s),
    ensures
        gather(s) is Ok,
        dirty_backup(s) == Ok::<bool, AreaFault>(
            if g.nodes[0].kids == 0 {
                s.used == 112
            } else {
                g.nodes[0].kids != 20
            },
        ),
        gather(s)->Ok_0.1 == dirty_backup(s)->Ok_0,
        all_objects(g, gather(s)->Ok_0.0, gather(s)->Ok_0.1),
        gather_node(
            s.data,
            0,
            None,
            gathered_at_start(gather(s)->Ok_0.1),
            (s.data.len() + 1) as nat,
        )->Ok_0.records.no_duplicates(),
{
    lemma_node(s, g, 0);
    let dirty = dirty_backup(s)->Ok_0;
    let k = gathered_at_start(dirty);
    if dirty {
        assert(k.records[0] == dirty_move());
    }
    assert(gathered_well(g, k, dirty)) by {
        assert forall|m: MoveView| #[trigger] k.records.contains(m) implies dirty && m
            == dirty_move() by {}
    }
    let depth = (s.data.len() + 1) as nat;
    let j = lemma_gather_node(s, g, k, 0, depth, dirty);
    lemma_sort_moves(j.records);
    let r = sort_moves(j.records);
    assert forall|w: Owner| #[trigger] live(g, w) implies r.contains(object_of(g, w)) by {
        let o = match w {
            Owner::Node(o) => o,
            Owner::Record(p) => g.recs[p].node,
            Owner::Long(p) => g.recs[p].node,
        };
        if !(w is Node) {
            let p = match w {
                Owner::Node(o) => o,
                Owner::Record(p) => p,
                Owner::Long(p) => p,
            };
            assert(rec_fits(s, g, p));
        }
        lemma_below_root(s, g, o);
        assert(j.nodes.contains(o));
        assert(met(g, j, w));
    }
    assert forall|m: MoveView| #[trigger] r.contains(m) implies (dirty && m == dirty_move())
        || exists|w: Owner| #[trigger] live(g, w) && m == object_of(g, w) by {
        assert(j.records.contains(m));
        if !(dirty && m == dirty_move()) {
            let w = choose|w: Owner| #[trigger] met(g, j, w) && m == object_of(g, w);
            assert(live(g, w));
        }
    }
}

} // verus!
