//! What the objects of a scan are.
use crate::area_compact::{
    gather, gather_link, gather_node, gather_record, gathered_at_start, node_room, Gathered,
    MoveView,
};
use crate::area_dead_nodes::{node_of, reached, reaches};
use crate::area_layout::{
    describes, is_link, lemma_node, lemma_read_record, link_fits, link_of, name_of, node_view,
    rec_fits, well_formed, Layout, Owner,
};
use crate::area_listing::{entry, entry_below, lemma_walk};
use crate::area_packing::{
    dirty_move, lemma_gather, lemma_live, lemma_not_dirty, lemma_object_once, lemma_sizes,
    lemma_sort_moves, live, object_of,
};
use crate::area_pruning::lemma_below_root;
use crate::area_room::in_words;
use crate::area_scan::{
    found_at_start, node_object, scan_area, scan_link, scan_node, scan_record, Found, ObjectView,
    PropAreaObjectKind, ScanView,
};
use crate::area_scan_laws::{
    in_step, lemma_record_in_step, lemma_scan, lemma_scan_apart, lemma_sort_objects, scanned,
};
use crate::area_state::{all_properties, AreaFault, AreaState};
use crate::bytes::{text_bytes, u32_at};
use crate::live_laws::lemma_live_kids;
use crate::prop_info::PropView;
use vstd::prelude::*;

verus! {

/// An object of a scan: `size` bytes at `offset`, in whole words.
pub open spec fn listed_as(
    kind: PropAreaObjectKind,
    offset: int,
    size: int,
    detail: Seq<u8>,
) -> ObjectView {
    ObjectView {
        kind,
        offset,
        size,
        aligned_size: in_words(size),
        end_offset: offset + size,
        aligned_end_offset: offset + in_words(size),
        detail,
    }
}

/// How the record of a property is listed: a header, the name and its NUL byte.
pub open spec fn record_listed(p: PropView) -> ObjectView {
    listed_as(PropAreaObjectKind::PropInfo, p.prop_offset, 96 + p.name.len() as int + 1, p.name)
}

/// How the long value of a property is listed: the value and its NUL byte.
pub open spec fn value_listed(p: PropView) -> ObjectView {
    listed_as(PropAreaObjectKind::LongValue, p.value_offset, p.value.len() as int + 1, p.name)
}

/// How the node at `o` is listed: a header and, but for the root, the name and its
/// NUL byte.
pub open spec fn node_listed(d: Seq<u8>, o: int) -> ObjectView {
    let name = node_of(d, o)->0.name;
    if name.len() == 0 {
        listed_as(PropAreaObjectKind::TrieNode, o, 20, text_bytes("<root>"@))
    } else {
        listed_as(PropAreaObjectKind::TrieNode, o, 20 + name.len() as int + 1, name)
    }
}

/// How the dirty-backup area is listed.
pub open spec fn backup_listed() -> ObjectView {
    listed_as(PropAreaObjectKind::DirtyBackup, 20, 92, text_bytes("<dirty-backup>"@))
}

/// A property of `list` whose record is listed as `x`.
pub open spec fn is_record_of(list: Seq<PropView>, x: ObjectView, p: PropView) -> bool {
    list.contains(p) && x == record_listed(p)
}

/// A long property of `list` whose value is listed as `x`.
pub open spec fn is_value_of(list: Seq<PropView>, x: ObjectView, p: PropView) -> bool {
    list.contains(p) && p.is_long && x == value_listed(p)
}

/// What the object `x` of a scan of the region `d` is listed as is there.
pub open spec fn listed_well(d: Seq<u8>, v: ScanView, x: ObjectView) -> bool {
    let list = all_properties(d).0;
    match x.kind {
        PropAreaObjectKind::TrieNode => reached(d, x.offset) && x == node_listed(d, x.offset),
        PropAreaObjectKind::PropInfo => exists|p: PropView| #[trigger] is_record_of(list, x, p),
        PropAreaObjectKind::LongValue => exists|p: PropView| #[trigger] is_value_of(list, x, p),
        PropAreaObjectKind::DirtyBackup => v.has_dirty_backup && x == backup_listed(),
    }
}

/// How an object of a layout is listed.
spec fn shown_as(g: Layout, w: Owner) -> ObjectView {
    match w {
        Owner::Node(o) => {
            let name = name_of(g.nodes[o]);
            if name.len() == 0 {
                listed_as(PropAreaObjectKind::TrieNode, o, 20, text_bytes("<root>"@))
            } else {
                listed_as(PropAreaObjectKind::TrieNode, o, 21 + name.len() as int, name)
            }
        },
        Owner::Record(p) => listed_as(
            PropAreaObjectKind::PropInfo,
            p,
            97 + g.recs[p].name.len() as int,
            g.recs[p].name,
        ),
        Owner::Long(p) => listed_as(
            PropAreaObjectKind::LongValue,
            g.recs[p].long->0,
            g.recs[p].value.len() as int + 1,
            g.recs[p].name,
        ),
    }
}

/// `x` lists the object `w`, whose entry of packing is `m`.
spec fn lists_object(g: Layout, w: Owner, x: ObjectView, m: MoveView) -> bool {
    live(g, w) && m == object_of(g, w) && x == shown_as(g, w)
}

/// `x` lists what the entry `m` of packing is for.
spec fn shown(g: Layout, x: ObjectView, m: MoveView) -> bool {
    (m == dirty_move() && x == backup_listed()) || exists|w: Owner| #[trigger]
        lists_object(g, w, x, m)
}

/// The objects that a walk of a scan has met are listed as what they are.
#[verifier::opaque]
spec fn shows(g: Layout, f: Found, k: Gathered) -> bool {
    &&& in_step(f, k)
    &&& forall|i: int|
        0 <= i < f.objects.len() ==> shown(g, #[trigger] f.objects[i], k.records[i])
}

/// One more object.
proof fn lemma_shows_more(g: Layout, f: Found, k: Gathered, h: Found, j: Gathered, w: Owner)
    requires
        shows(g, f, k),
        in_step(h, j),
        live(g, w),
        h.objects == f.objects.push(shown_as(g, w)),
        j.records == k.records.push(object_of(g, w)),
    ensures
        shows(g, h, j),
{
    reveal(shows);
    assert forall|i: int| 0 <= i < h.objects.len() implies shown(
        g,
        #[trigger] h.objects[i],
        j.records[i],
    ) by {
        if i < f.objects.len() {
            assert(shown(g, f.objects[i], k.records[i]));
        } else {
            assert(lists_object(g, w, h.objects[i], j.records[i]));
        }
    }
}

/// The record of a node is listed.
proof fn lemma_record_shown(s: AreaState, g: Layout, f: Found, k: Gathered, c: int)
    requires
        describes(g, s),
        g.nodes.dom().contains(c),
        shows(g, f, k),
        gather_record(s.data, c, g.nodes[c].prop, k) is Ok,
    ensures
        scan_record(s.data, g.nodes[c].prop, f) is Ok,
        shows(
            g,
            scan_record(s.data, g.nodes[c].prop, f)->Ok_0,
            gather_record(s.data, c, g.nodes[c].prop, k)->Ok_0,
        ),
{
    assert(in_step(f, k)) by {
        reveal(shows);
    }
    lemma_record_in_step(s, g, f, k, c);
    lemma_node(s, g, c);
    lemma_sizes(s, g, c);
    let p = g.nodes[c].prop;
    if p != 0 && !f.props.contains(p) {
        let r = g.recs[p];
        assert(rec_fits(s, g, p));
        lemma_read_record(s.data, p, r);
        lemma_live(s, g, Owner::Record(p));
        let x = shown_as(g, Owner::Record(p));
        let m = object_of(g, Owner::Record(p));
        let h = Found { props: f.props.insert(p), objects: f.objects.push(x), ..f };
        let j = Gathered { props: k.props.insert(p), records: k.records.push(m), ..k };
        assert(in_step(h, j));
        lemma_shows_more(g, f, k, h, j, Owner::Record(p));
        if r.long is Some && !f.longs.contains(r.long->0) {
            lemma_live(s, g, Owner::Long(p));
            lemma_shows_more(
                g,
                h,
                j,
                scan_record(s.data, p, f)->Ok_0,
                gather_record(s.data, c, p, k)->Ok_0,
                Owner::Long(p),
            );
        }
    }
}

/// What stands below a link is listed.
proof fn lemma_link_shown(
    s: AreaState,
    g: Layout,
    f: Found,
    k: Gathered,
    c: int,
    slot: int,
    depth: nat,
)
    requires
        describes(g, s),
        g.nodes.dom().contains(c),
        is_link(slot),
        shows(g, f, k),
        gather_link(s.data, c, slot, link_of(g.nodes[c], slot), k, depth) is Ok,
    ensures
        scan_link(s.data, link_of(g.nodes[c], slot), f, depth) is Ok,
        shows(
            g,
            scan_link(s.data, link_of(g.nodes[c], slot), f, depth)->Ok_0,
            gather_link(s.data, c, slot, link_of(g.nodes[c], slot), k, depth)->Ok_0,
        ),
    decreases depth, 1int,
{
    let d = link_of(g.nodes[c], slot);
    if d != 0 {
        lemma_node(s, g, c);
        assert(link_fits(g, c, slot));
        lemma_node_shown(s, g, f, k, d, Some((c, slot)), depth);
    }
}

/// A node itself is listed.
proof fn lemma_own_shown(s: AreaState, g: Layout, f: Found, k: Gathered, c: int)
    requires
        describes(g, s),
        g.nodes.dom().contains(c),
        shows(g, f, k),
    ensures
        ({
            let view = node_view(g.nodes[c]);
            let own = MoveView {
                offset: c,
                size: node_room(view),
                referer: object_of(g, Owner::Node(c)).referer,
                relative: false,
            };
            let f1 = (Found { nodes: f.nodes.insert(c), ..f }).adding(node_object(c, view));
            let k1 = Gathered { nodes: k.nodes.insert(c), records: k.records.push(own), ..k };
            &&& f.nodes == k.nodes
            &&& f1 is Ok
            &&& shows(g, f1->Ok_0, k1)
        }),
{
    reveal(shows);
    lemma_node(s, g, c);
    lemma_sizes(s, g, c);
    lemma_live(s, g, Owner::Node(c));
    let view = node_view(g.nodes[c]);
    let own = object_of(g, Owner::Node(c));
    let f1 = (Found { nodes: f.nodes.insert(c), ..f }).adding(node_object(c, view))->Ok_0;
    let k1 = Gathered { nodes: k.nodes.insert(c), records: k.records.push(own), ..k };
    assert(node_object(c, view) == Ok::<ObjectView, AreaFault>(shown_as(g, Owner::Node(c))));
    assert(in_step(f1, k1));
    lemma_shows_more(g, f, k, f1, k1, Owner::Node(c));
}

/// What stands below a node is listed.
proof fn lemma_node_shown(
    s: AreaState,
    g: Layout,
    f: Found,
    k: Gathered,
    c: int,
    referer: Option<(int, int)>,
    depth: nat,
)
    requires
        describes(g, s),
        g.nodes.dom().contains(c),
        shows(g, f, k),
        gather_node(s.data, c, referer, k, depth) is Ok,
        referer == object_of(g, Owner::Node(c)).referer,
    ensures
        scan_node(s.data, c, f, depth) is Ok,
        shows(
            g,
            scan_node(s.data, c, f, depth)->Ok_0,
            gather_node(s.data, c, referer, k, depth)->Ok_0,
        ),
    decreases depth, 0int,
{
    lemma_own_shown(s, g, f, k, c);
    if depth > 0 && !f.nodes.contains(c) {
        let n = g.nodes[c];
        let less = (depth - 1) as nat;
        lemma_node(s, g, c);
        let view = node_view(n);
        let own = MoveView { offset: c, size: node_room(view), referer, relative: false };
        let k1 = Gathered { nodes: k.nodes.insert(c), records: k.records.push(own), ..k };
        let f1 = (Found { nodes: f.nodes.insert(c), ..f }).adding(node_object(c, view))->Ok_0;
        lemma_record_shown(s, g, f1, k1, c);
        let k2 = gather_record(s.data, c, n.prop, k1)->Ok_0;
        let f2 = scan_record(s.data, n.prop, f1)->Ok_0;
        assert(link_of(n, 8) == n.left && link_of(n, 16) == n.kids && link_of(n, 12) == n.right);
        lemma_link_shown(s, g, f2, k2, c, 8, less);
        let k3 = gather_link(s.data, c, 8, n.left, k2, less)->Ok_0;
        let f3 = scan_link(s.data, n.left, f2, less)->Ok_0;
        lemma_link_shown(s, g, f3, k3, c, 16, less);
        let k4 = gather_link(s.data, c, 16, n.kids, k3, less)->Ok_0;
        let f4 = scan_link(s.data, n.kids, f3, less)->Ok_0;
        lemma_link_shown(s, g, f4, k4, c, 12, less);
    }
}

proof fn lemma_backup()
    ensures
        found_at_start(true).objects == seq![backup_listed()],
{
}

/// A scan lists the dirty-backup area and the objects of a layout, and nothing
/// else.
proof fn lemma_all_shown(s: AreaState, g: Layout)
    requires
        describes(g, s),
    ensures
        ({
            let dirty = gather(s)->Ok_0.1;
            let objects = scanned(s, dirty);
            &&& forall|w: Owner| #[trigger] live(g, w) ==> objects.contains(shown_as(g, w))
            &&& dirty ==> objects.contains(backup_listed())
            &&& forall|x: ObjectView| #[trigger]
                objects.contains(x) ==> (dirty && x == backup_listed()) || exists|w: Owner|
                    #[trigger] live(g, w) && x == shown_as(g, w)
        }),
{
    lemma_gather(s, g);
    let (r, dirty) = gather(s)->Ok_0;
    let depth = (s.data.len() + 1) as nat;
    let k0 = gathered_at_start(dirty);
    let f0 = found_at_start(dirty);
    assert(in_step(f0, k0));
    assert(shows(g, f0, k0)) by {
        reveal(shows);
        lemma_backup();
    }
    lemma_node(s, g, 0);
    lemma_node_shown(s, g, f0, k0, 0, None, depth);
    let k = gather_node(s.data, 0, None, k0, depth)->Ok_0;
    let f = scan_node(s.data, 0, f0, depth)->Ok_0;
    reveal(scanned);
    reveal(shows);
    lemma_sort_objects(f.objects);
    lemma_sort_moves(k.records);
    let objects = scanned(s, dirty);
    assert forall|w: Owner| #[trigger] live(g, w) implies objects.contains(shown_as(g, w)) by {
        let m = object_of(g, w);
        assert(r.contains(m));
        assert(k.records.contains(m));
        let i = choose|i: int| 0 <= i < k.records.len() && k.records[i] == m;
        assert(shown(g, f.objects[i], k.records[i]));
        lemma_not_dirty(s, g, w);
        let v = choose|v: Owner| #[trigger] lists_object(g, v, f.objects[i], m);
        lemma_object_once(s, g, v, w);
        assert(f.objects.contains(f.objects[i]));
    }
    if dirty {
        assert(r.contains(dirty_move()));
        assert(k.records.contains(dirty_move()));
        let i = choose|i: int| 0 <= i < k.records.len() && k.records[i] == dirty_move();
        assert(shown(g, f.objects[i], k.records[i]));
        if exists|v: Owner| #[trigger] lists_object(g, v, f.objects[i], dirty_move()) {
            let v = choose|v: Owner| #[trigger] lists_object(g, v, f.objects[i], dirty_move());
            lemma_not_dirty(s, g, v);
        }
        assert(f.objects.contains(f.objects[i]));
    }
    assert forall|x: ObjectView| #[trigger] objects.contains(x) implies (dirty && x
        == backup_listed()) || exists|w: Owner| #[trigger] live(g, w) && x == shown_as(g, w) by {
        assert(f.objects.contains(x));
        let i = choose|i: int| 0 <= i < f.objects.len() && f.objects[i] == x;
        assert(shown(g, f.objects[i], k.records[i]));
        assert(k.records.contains(k.records[i]));
        assert(r.contains(k.records[i]));
        if exists|w: Owner| #[trigger] lists_object(g, w, x, k.records[i]) {
            let w = choose|w: Owner| #[trigger] lists_object(g, w, x, k.records[i]);
            assert(live(g, w));
        } else if !dirty {
            let w = choose|w: Owner| #[trigger] live(g, w) && k.records[i] == object_of(g, w);
            lemma_not_dirty(s, g, w);
        }
    }
}

/// What is reached from a node of a layout is a node of the layout.
proof fn lemma_reached_inside(s: AreaState, g: Layout, off: int, o: int, depth: nat)
    requires
        describes(g, s),
        g.nodes.dom().contains(off),
        reaches(s.data, off, o, depth),
    ensures
        g.nodes.dom().contains(o),
    decreases depth,
{
    reveal(node_of);
    lemma_node(s, g, off);
    let n = g.nodes[off];
    let less = (depth - 1) as nat;
    assert(link_fits(g, off, 8) && link_fits(g, off, 12) && link_fits(g, off, 16));
    if o == off {
    } else if n.left != 0 && reaches(s.data, n.left, o, less) {
        lemma_reached_inside(s, g, n.left, o, less);
    } else if n.right != 0 && reaches(s.data, n.right, o, less) {
        lemma_reached_inside(s, g, n.right, o, less);
    } else {
        lemma_reached_inside(s, g, n.kids, o, less);
    }
}

/// What a node refers to is reached where the node is.
proof fn lemma_reached_further(d: Seq<u8>, a: int, b: int, c: int, depth: nat)
    requires
        reaches(d, a, b, depth),
        node_of(d, b) matches Some(n) && (n.left == c || n.right == c || n.children == c),
        c != 0,
        node_of(d, c) is Some,
    ensures
        reaches(d, a, c, depth + 1),
    decreases depth,
{
    let n = node_of(d, a)->0;
    let less = (depth - 1) as nat;
    if a == b {
        assert(reaches(d, c, c, depth));
    } else if n.left != 0 && reaches(d, n.left, b, less) {
        lemma_reached_further(d, n.left, b, c, less);
    } else if n.right != 0 && reaches(d, n.right, b, less) {
        lemma_reached_further(d, n.right, b, c, less);
    } else {
        lemma_reached_further(d, n.children, b, c, less);
    }
}

/// The nodes of a layout are those that are reached from the root.
pub proof fn lemma_reached(s: AreaState, g: Layout, o: int)
    requires
        describes(g, s),
    ensures
        reached(s.data, o) <==> g.nodes.dom().contains(o),
        g.nodes.dom().contains(o) ==> node_of(s.data, o) == Some(node_view(g.nodes[o])),
    decreases o,
{
    reveal(node_of);
    lemma_node(s, g, 0);
    if reached(s.data, o) {
        let depth = choose|depth: nat| #[trigger] reaches(s.data, 0, o, depth);
        lemma_reached_inside(s, g, 0, o, depth);
    }
    if g.nodes.dom().contains(o) {
        lemma_node(s, g, o);
        if o == 0 {
            assert(reaches(s.data, 0, 0, 1));
        } else {
            let f = g.nodes[o].from;
            lemma_node(s, g, f);
            lemma_reached(s, g, f);
            let depth = choose|depth: nat| #[trigger] reaches(s.data, 0, f, depth);
            lemma_reached_further(s.data, 0, f, o, depth);
        }
    }
}

/// The properties of a listing are those of the records of a layout.
proof fn lemma_listed(s: AreaState, g: Layout)
    requires
        describes(g, s),
    ensures
        forall|p: int| #[trigger]
            g.recs.dom().contains(p) ==> all_properties(s.data).0.contains(
                entry(g, g.recs[p].node),
            ) && g.nodes[g.recs[p].node].prop == p,
        forall|v: PropView| #[trigger]
            all_properties(s.data).0.contains(v) ==> g.recs.dom().contains(v.prop_offset) && v
                == entry(g, g.recs[v.prop_offset].node),
{
    lemma_node(s, g, 0);
    lemma_walk(s, g, 0, Set::empty(), (s.data.len() + 1) as nat);
    let list = all_properties(s.data).0;
    assert forall|p: int| #[trigger] g.recs.dom().contains(p) implies list.contains(
        entry(g, g.recs[p].node),
    ) && g.nodes[g.recs[p].node].prop == p by {
        assert(rec_fits(s, g, p));
        let o = g.recs[p].node;
        lemma_below_root(s, g, o);
        assert(entry_below(g, 0, o, entry(g, o)));
    }
    assert forall|v: PropView| #[trigger] list.contains(v) implies g.recs.dom().contains(
        v.prop_offset,
    ) && v == entry(g, g.recs[v.prop_offset].node) by {
        let o = choose|o: int| #[trigger] entry_below(g, 0, o, v);
        lemma_node(s, g, o);
    }
}

/// What a scan of a well-formed area lists, each object once: the nodes that are
/// reached from the root, the record of every property of a listing, the value of
/// every long one, and the dirty-backup area where there is one; and nothing
/// else. Nodes are labelled with their names, records and values with those of
/// their properties.
///
/// There is a dirty-backup area where the first node does not stand right behind
/// the root or, without one, where the mark is that of a fresh area.
pub proof fn law_scan_objects(s: AreaState)
    requires
        well_formed(s),
        scan_area(s) is Ok,
    ensures
        ({
            let v = scan_area(s)->Ok_0;
            let list = all_properties(s.data).0;
            &&& v.objects.no_duplicates()
            &&& forall|o: int| #[trigger]
                reached(s.data, o) ==> v.objects.contains(node_listed(s.data, o))
            &&& forall|p: PropView| #[trigger]
                list.contains(p) ==> v.objects.contains(record_listed(p)) && (p.is_long
                    ==> v.objects.contains(value_listed(p)))
            &&& v.has_dirty_backup ==> v.objects.contains(backup_listed())
            &&& v.has_dirty_backup == if u32_at(s.data, 16) == 0 {
                s.used == 112
            } else {
                u32_at(s.data, 16) != 20
            }
            &&& forall|x: ObjectView| #[trigger]
                v.objects.contains(x) ==> listed_well(s.data, v, x)
        }),
{
    let g = choose|g: Layout| #[trigger] describes(g, s);
    lemma_scan_parts(s, g);
    lemma_kinds(s, g, scan_area(s)->Ok_0);
}

/// The parts of a scan.
proof fn lemma_scan_parts(s: AreaState, g: Layout)
    requires
        describes(g, s),
        scan_area(s) is Ok,
    ensures
        ({
            let v = scan_area(s)->Ok_0;
            let dirty = gather(s)->Ok_0.1;
            &&& v.objects == scanned(s, dirty)
            &&& v.has_dirty_backup == dirty
            &&& v.objects.no_duplicates()
            &&& dirty == if u32_at(s.data, 16) == 0 {
                s.used == 112
            } else {
                u32_at(s.data, 16) != 20
            }
        }),
{
    lemma_scan(s, g);
    lemma_scan_apart(s, g);
    lemma_gather(s, g);
    lemma_node(s, g, 0);
    lemma_live_kids(s, g, 0);
}

/// What a scan lists.
proof fn lemma_kinds(s: AreaState, g: Layout, v: ScanView)
    requires
        describes(g, s),
        v.objects == scanned(s, gather(s)->Ok_0.1),
        v.has_dirty_backup == gather(s)->Ok_0.1,
    ensures
        ({
            let list = all_properties(s.data).0;
            &&& forall|o: int| #[trigger]
                reached(s.data, o) ==> v.objects.contains(node_listed(s.data, o))
            &&& forall|p: PropView| #[trigger]
                list.contains(p) ==> v.objects.contains(record_listed(p)) && (p.is_long
                    ==> v.objects.contains(value_listed(p)))
            &&& v.has_dirty_backup ==> v.objects.contains(backup_listed())
            &&& forall|x: ObjectView| #[trigger]
                v.objects.contains(x) ==> listed_well(s.data, v, x)
        }),
{
    lemma_all_shown(s, g);
    let list = all_properties(s.data).0;
    assert forall|o: int| #[trigger] reached(s.data, o) implies v.objects.contains(
        node_listed(s.data, o),
    ) by {
        lemma_node_listed(s, g, o);
        assert(live(g, Owner::Node(o)));
    }
    assert forall|p: PropView| #[trigger] list.contains(p) implies v.objects.contains(
        record_listed(p),
    ) && (p.is_long ==> v.objects.contains(value_listed(p))) by {
        let q = p.prop_offset;
        assert(live(g, Owner::Record(q)) && p == entry(g, g.recs[q].node)) by {
            lemma_listed(s, g);
        }
        lemma_property_listed(s, g, q);
        assert(p.is_long ==> live(g, Owner::Long(q)));
    }
    assert forall|x: ObjectView| #[trigger] v.objects.contains(x) implies listed_well(
        s.data,
        v,
        x,
    ) by {
        if !(v.has_dirty_backup && x == backup_listed()) {
            let w = choose|w: Owner| #[trigger] live(g, w) && x == shown_as(g, w);
            lemma_shown_well(s, g, w, v);
        }
    }
}

/// How a node of a layout is listed.
proof fn lemma_node_listed(s: AreaState, g: Layout, o: int)
    requires
        describes(g, s),
    ensures
        reached(s.data, o) <==> live(g, Owner::Node(o)),
        reached(s.data, o) ==> node_listed(s.data, o) == shown_as(g, Owner::Node(o)),
{
    lemma_reached(s, g, o);
}

/// How the record of a property, and its long value, are listed.
proof fn lemma_property_listed(s: AreaState, g: Layout, p: int)
    requires
        describes(g, s),
        g.recs.dom().contains(p),
    ensures
        ({
            let v = entry(g, g.recs[p].node);
            &&& all_properties(s.data).0.contains(v)
            &&& v.is_long == live(g, Owner::Long(p))
            &&& record_listed(v) == shown_as(g, Owner::Record(p))
            &&& v.is_long ==> value_listed(v) == shown_as(g, Owner::Long(p))
        }),
{
    lemma_listed(s, g);
    assert(rec_fits(s, g, p));
}

/// An object of a layout is listed as what it is.
proof fn lemma_shown_well(s: AreaState, g: Layout, w: Owner, v: ScanView)
    requires
        describes(g, s),
        live(g, w),
    ensures
        listed_well(s.data, v, shown_as(g, w)),
{
    let list = all_properties(s.data).0;
    match w {
        Owner::Node(o) => {
            lemma_node_listed(s, g, o);
        },
        Owner::Record(p) => {
            lemma_property_listed(s, g, p);
            assert(is_record_of(list, shown_as(g, w), entry(g, g.recs[p].node)));
        },
        Owner::Long(p) => {
            lemma_property_listed(s, g, p);
            assert(is_value_of(list, shown_as(g, w), entry(g, g.recs[p].node)));
        },
    }
}

} // verus!
