//! What a scan says of a property area, and what packing does about it.
use crate::area_compact::{
    compact, first_gap, gather, gather_link, gather_node, gather_record, gathered_at_start,
    node_room, sort_moves, CompactView, Gathered, MoveView,
};
use crate::area_compact_laws::{
    law_compact_twice, lemma_compact, lemma_entries, lemma_packed_mark,
};
use crate::area_layout::{
    describes, is_link, lemma_node, lemma_read_record, link_fits, link_of, node_view, rec_fits,
    well_formed, Layout, Owner,
};
use crate::area_packing::{
    all_objects, dirty_move, in_order, lemma_gather, lemma_live, lemma_objects_apart, lemma_sizes,
    lemma_sort_moves, live, object_of,
};
use crate::area_relocation::{covered_to, end_of, lemma_first_gap};
use crate::area_scan::{
    all_holes, covered, dirty_backup, first_allocation, found_at_start, hole_between, holes_in,
    insert_object, node_object, object_before, scan_area, scan_link, scan_node, scan_record,
    sort_objects, Found, HoleView, ObjectView,
};
use crate::area_state::{AreaFault, AreaState};
use vstd::prelude::*;

verus! {

/// An object takes the byte at `b`.
pub open spec fn in_object(s: Seq<ObjectView>, b: int) -> bool {
    exists|i: int|
        0 <= i < s.len() && (#[trigger] s[i]).offset <= b < s[i].aligned_end_offset
}

/// A hole takes the byte at `b`.
pub open spec fn in_hole(h: Seq<HoleView>, b: int) -> bool {
    exists|i: int| 0 <= i < h.len() && (#[trigger] h[i]).start_offset <= b < h[i].end_offset
}

/// The objects are in order of their offsets.
pub open spec fn by_offset(s: Seq<ObjectView>) -> bool {
    forall|i: int, j: int| 0 <= i <= j < s.len() ==> #[trigger] s[i].offset <= #[trigger] s[j].offset
}

proof fn lemma_insert_object(s: Seq<ObjectView>, o: ObjectView)
    requires
        by_offset(s),
    ensures
        by_offset(insert_object(s, o)),
        forall|x: ObjectView| #[trigger] insert_object(s, o).contains(x) == (s.contains(x) || x == o),
    decreases s.len(),
{
    if s.len() == 0 || !object_before(o, s.last()) {
        crate::area_packing::lemma_push_once(s, o);
    } else {
        let t = s.drop_last();
        let y = s.last();
        lemma_insert_object(t, o);
        let u = insert_object(t, o);
        crate::area_packing::lemma_push_once(u, y);
        crate::area_packing::lemma_push_once(t, y);
        assert(t.push(y) =~= s);
        assert forall|i: int, j: int| 0 <= i <= j < u.push(y).len() implies #[trigger] u.push(
            y,
        )[i].offset <= #[trigger] u.push(y)[j].offset by {
            if i < u.len() {
                assert(u.contains(u[i]));
                if u[i] != o {
                    let k = choose|k: int| 0 <= k < t.len() && t[k] == u[i];
                    assert(s[k].offset <= s[s.len() - 1].offset);
                }
            }
        }
    }
}

pub proof fn lemma_sort_objects(s: Seq<ObjectView>)
    ensures
        by_offset(sort_objects(s)),
        forall|x: ObjectView| #[trigger] sort_objects(s).contains(x) == s.contains(x),
    decreases s.len(),
{
    if s.len() > 0 {
        let t = s.drop_last();
        lemma_sort_objects(t);
        lemma_insert_object(sort_objects(t), s.last());
        crate::area_packing::lemma_push_once(t, s.last());
        assert(t.push(s.last()) =~= s);
    }
}

/// No object is listed twice.
proof fn lemma_insert_once(s: Seq<ObjectView>, o: ObjectView)
    requires
        by_offset(s),
        s.no_duplicates(),
        !s.contains(o),
    ensures
        insert_object(s, o).no_duplicates(),
    decreases s.len(),
{
    if s.len() == 0 || !object_before(o, s.last()) {
        crate::area_packing::lemma_push_once(s, o);
    } else {
        let t = s.drop_last();
        let y = s.last();
        assert(!t.contains(o)) by {
            if t.contains(o) {
                let k = choose|k: int| 0 <= k < t.len() && t[k] == o;
                assert(s[k] == o);
            }
        }
        assert(!t.contains(y)) by {
            if t.contains(y) {
                let k = choose|k: int| 0 <= k < t.len() && t[k] == y;
                assert(s[k] == s[s.len() - 1]);
            }
        }
        lemma_insert_once(t, o);
        lemma_insert_object(t, o);
        assert(s.contains(y)) by {
            assert(s[s.len() - 1] == y);
        }
        crate::area_packing::lemma_push_once(insert_object(t, o), y);
    }
}

proof fn lemma_sort_once(s: Seq<ObjectView>)
    requires
        s.no_duplicates(),
    ensures
        sort_objects(s).no_duplicates(),
    decreases s.len(),
{
    if s.len() > 0 {
        let t = s.drop_last();
        lemma_sort_once(t);
        lemma_sort_objects(t);
        assert(!t.contains(s.last())) by {
            if t.contains(s.last()) {
                let k = choose|k: int| 0 <= k < t.len() && t[k] == s.last();
                assert(s[k] == s[s.len() - 1]);
            }
        }
        lemma_insert_once(sort_objects(t), s.last());
    }
}

/// Every object ends behind its start.
pub open spec fn sized(s: Seq<ObjectView>) -> bool {
    forall|i: int| 0 <= i < s.len() ==> (#[trigger] s[i]).offset < s[i].aligned_end_offset
}

/// Holes and objects share the bytes from `cursor` on.
proof fn lemma_holes(s: Seq<ObjectView>, cursor: int)
    requires
        by_offset(s),
        sized(s),
    ensures
        cursor <= covered(s, cursor),
        forall|i: int|
            0 <= i < s.len() ==> (#[trigger] s[i]).aligned_end_offset <= covered(s, cursor),
        covered(s, cursor) == cursor || exists|i: int|
            0 <= i < s.len() && (#[trigger] s[i]).aligned_end_offset == covered(s, cursor),
        forall|i: int|
            0 <= i < holes_in(s, cursor).len() ==> cursor <= (#[trigger] holes_in(
                s,
                cursor,
            )[i]).start_offset < holes_in(s, cursor)[i].end_offset <= covered(s, cursor)
                && s.len() > 0 && holes_in(s, cursor)[i].end_offset <= s.last().offset,
        forall|b: int|
            cursor <= b < covered(s, cursor) ==> #[trigger] in_object(s, b) != in_hole(
                holes_in(s, cursor),
                b,
            ),
    decreases s.len(),
{
    if s.len() > 0 {
        let t = s.drop_last();
        let y = s.last();
        lemma_holes(t, cursor);
        let c = covered(t, cursor);
        let h = holes_in(t, cursor);
        let k = holes_in(s, cursor);
        assert(s[s.len() - 1] == y);
        assert forall|i: int| 0 <= i < s.len() implies (#[trigger] s[i]).aligned_end_offset
            <= covered(s, cursor) by {
            if i < t.len() {
                assert(t[i] == s[i]);
            }
        }
        if y.aligned_end_offset <= c && c != cursor {
            let i = choose|i: int| 0 <= i < t.len() && (#[trigger] t[i]).aligned_end_offset == c;
            assert(s[i] == t[i]);
        }
        assert forall|i: int| 0 <= i < k.len() implies cursor <= (#[trigger] k[i]).start_offset
            < k[i].end_offset <= covered(s, cursor) && k[i].end_offset <= y.offset by {
            if i < h.len() {
                assert(k[i] == h[i]);
                assert(t[t.len() - 1].offset <= y.offset) by {
                    assert(s[t.len() - 1].offset <= s[s.len() - 1].offset);
                }
            }
        }
        assert forall|b: int| cursor <= b < covered(s, cursor) implies #[trigger] in_object(s, b)
            != in_hole(k, b) by {
            lemma_share(s, cursor, b);
        }
    }
}

/// One byte in the step of [`lemma_holes`].
proof fn lemma_share(s: Seq<ObjectView>, cursor: int, b: int)
    requires
        by_offset(s),
        sized(s),
        s.len() > 0,
        cursor <= b < covered(s, cursor),
        ({
            let t = s.drop_last();
            let c = covered(t, cursor);
            let h = holes_in(t, cursor);
            &&& cursor <= c
            &&& forall|i: int| 0 <= i < t.len() ==> (#[trigger] t[i]).aligned_end_offset <= c
            &&& forall|i: int|
                0 <= i < h.len() ==> (#[trigger] h[i]).end_offset <= c && h[i].end_offset
                    <= s.last().offset
            &&& b < c ==> in_object(t, b) != in_hole(h, b)
        }),
    ensures
        in_object(s, b) != in_hole(holes_in(s, cursor), b),
{
    let t = s.drop_last();
    let y = s.last();
    let c = covered(t, cursor);
    let h = holes_in(t, cursor);
    let k = holes_in(s, cursor);
    assert(s[s.len() - 1] == y);
    assert(in_object(s, b) == (in_object(t, b) || y.offset <= b < y.aligned_end_offset)) by {
        if in_object(t, b) {
            let i = choose|i: int|
                0 <= i < t.len() && (#[trigger] t[i]).offset <= b < t[i].aligned_end_offset;
            assert(s[i] == t[i]);
        }
        if in_object(s, b) {
            let i = choose|i: int|
                0 <= i < s.len() && (#[trigger] s[i]).offset <= b < s[i].aligned_end_offset;
            if i < t.len() {
                assert(t[i] == s[i]);
            }
        }
    }
    let gap = y.offset > c;
    assert(in_hole(k, b) == (in_hole(h, b) || (gap && c <= b < y.offset))) by {
        if in_hole(h, b) {
            let i = choose|i: int|
                0 <= i < h.len() && (#[trigger] h[i]).start_offset <= b < h[i].end_offset;
            assert(k[i] == h[i]);
        }
        if gap {
            assert(k[h.len() as int] == hole_between(c, y.offset));
        }
        if in_hole(k, b) {
            let i = choose|i: int|
                0 <= i < k.len() && (#[trigger] k[i]).start_offset <= b < k[i].end_offset;
            if i < h.len() {
                assert(h[i] == k[i]);
            }
        }
    }
    if b >= c {
        assert(!in_object(t, b)) by {
            if in_object(t, b) {
                let i = choose|i: int|
                    0 <= i < t.len() && (#[trigger] t[i]).offset <= b < t[i].aligned_end_offset;
                assert(t[i].aligned_end_offset <= c);
            }
        }
        assert(!in_hole(h, b)) by {
            if in_hole(h, b) {
                let i = choose|i: int|
                    0 <= i < h.len() && (#[trigger] h[i]).start_offset <= b < h[i].end_offset;
                assert(h[i].end_offset <= c);
            }
        }
    } else if in_hole(h, b) {
        let i = choose|i: int|
            0 <= i < h.len() && (#[trigger] h[i]).start_offset <= b < h[i].end_offset;
        assert(h[i].end_offset <= y.offset);
    }
}

/// An object of a scan takes the bytes of an entry of packing.
pub open spec fn same_place(o: ObjectView, m: MoveView) -> bool {
    o.offset == m.offset && o.aligned_end_offset == end_of(m)
}

/// A walk of a scan has met what a walk of packing has met.
pub open spec fn in_step(f: Found, k: Gathered) -> bool {
    &&& f.nodes == k.nodes
    &&& f.props == k.props
    &&& f.longs == k.longs
    &&& f.objects.len() == k.records.len()
    &&& forall|i: int|
        0 <= i < f.objects.len() ==> same_place(#[trigger] f.objects[i], k.records[i]) && (
        f.objects[i].kind is DirtyBackup) == (k.records[i] == dirty_move())
}

/// Both walks take the record of a node.
pub proof fn lemma_record_in_step(s: AreaState, g: Layout, f: Found, k: Gathered, c: int)
    requires
        describes(g, s),
        g.nodes.dom().contains(c),
        in_step(f, k),
        gather_record(s.data, c, g.nodes[c].prop, k) is Ok,
    ensures
        scan_record(s.data, g.nodes[c].prop, f) is Ok,
        in_step(
            scan_record(s.data, g.nodes[c].prop, f)->Ok_0,
            gather_record(s.data, c, g.nodes[c].prop, k)->Ok_0,
        ),
{
    lemma_node(s, g, c);
    lemma_sizes(s, g, c);
    let p = g.nodes[c].prop;
    if p != 0 && !f.props.contains(p) {
        assert(rec_fits(s, g, p));
        lemma_read_record(s.data, p, g.recs[p]);
        lemma_live(s, g, Owner::Record(p));
        if g.recs[p].long is Some {
            lemma_live(s, g, Owner::Long(p));
        }
    }
}

/// Both walks take what stands below a link.
proof fn lemma_link_in_step(
    s: AreaState,
    g: Layout,
    f: Found,
    k: Gathered,
    c: int,
    slot: int,
    depth: nat,
)
    requires
        describes(g, s),
        g.nodes.dom().contains(c),
        is_link(slot),
        in_step(f, k),
        gather_link(s.data, c, slot, link_of(g.nodes[c], slot), k, depth) is Ok,
    ensures
        scan_link(s.data, link_of(g.nodes[c], slot), f, depth) is Ok,
        in_step(
            scan_link(s.data, link_of(g.nodes[c], slot), f, depth)->Ok_0,
            gather_link(s.data, c, slot, link_of(g.nodes[c], slot), k, depth)->Ok_0,
        ),
    decreases depth, 1int,
{
    let d = link_of(g.nodes[c], slot);
    if d != 0 {
        lemma_node(s, g, c);
        assert(link_fits(g, c, slot));
        lemma_node_in_step(s, g, f, k, d, Some((c, slot)), depth);
    }
}

/// Both walks take what stands below a node.
pub proof fn lemma_node_in_step(
    s: AreaState,
    g: Layout,
    f: Found,
    k: Gathered,
    c: int,
    referer: Option<(int, int)>,
    depth: nat,
)
    requires
        describes(g, s),
        g.nodes.dom().contains(c),
        in_step(f, k),
        gather_node(s.data, c, referer, k, depth) is Ok,
        referer is None ==> c == 0,
    ensures
        scan_node(s.data, c, f, depth) is Ok,
        in_step(
            scan_node(s.data, c, f, depth)->Ok_0,
            gather_node(s.data, c, referer, k, depth)->Ok_0,
        ),
    decreases depth, 0int,
{
    if depth > 0 && !f.nodes.contains(c) {
        let n = g.nodes[c];
        let less = (depth - 1) as nat;
        lemma_node(s, g, c);
        lemma_sizes(s, g, c);
        lemma_live(s, g, Owner::Node(c));
        let view = node_view(n);
        let own = MoveView { offset: c, size: node_room(view), referer, relative: false };
        let k1 = Gathered { nodes: k.nodes.insert(c), records: k.records.push(own), ..k };
        let f1 = (Found { nodes: f.nodes.insert(c), ..f }).adding(node_object(c, view))->Ok_0;
        assert(node_object(c, view) is Ok);
        assert(in_step(f1, k1));
        lemma_record_in_step(s, g, f1, k1, c);
        let k2 = gather_record(s.data, c, n.prop, k1)->Ok_0;
        let f2 = scan_record(s.data, n.prop, f1)->Ok_0;
        assert(link_of(n, 8) == n.left && link_of(n, 16) == n.kids && link_of(n, 12) == n.right);
        lemma_link_in_step(s, g, f2, k2, c, 8, less);
        let k3 = gather_link(s.data, c, 8, n.left, k2, less)->Ok_0;
        let f3 = scan_link(s.data, n.left, f2, less)->Ok_0;
        lemma_link_in_step(s, g, f3, k3, c, 16, less);
        let k4 = gather_link(s.data, c, 16, n.kids, k3, less)->Ok_0;
        let f4 = scan_link(s.data, n.kids, f3, less)->Ok_0;
        lemma_link_in_step(s, g, f4, k4, c, 12, less);
    }
}

/// An entry takes the bytes of an object.
pub open spec fn has_entry(r: Seq<MoveView>, o: ObjectView) -> bool {
    exists|m: MoveView| #[trigger] r.contains(m) && same_place(o, m)
}

/// An object takes the bytes of an entry.
pub open spec fn has_object(objects: Seq<ObjectView>, m: MoveView) -> bool {
    exists|i: int| 0 <= i < objects.len() && same_place(#[trigger] objects[i], m)
}

/// The objects of a scan take the bytes of the entries of packing.
pub open spec fn alike(objects: Seq<ObjectView>, r: Seq<MoveView>) -> bool {
    &&& forall|i: int| 0 <= i < objects.len() ==> has_entry(r, #[trigger] objects[i])
    &&& forall|m: MoveView| #[trigger] r.contains(m) ==> has_object(objects, m)
}

/// The objects of a scan lie in the part that is in use.
pub open spec fn proper(objects: Seq<ObjectView>, start: int, used: int) -> bool {
    &&& by_offset(objects)
    &&& sized(objects)
    &&& 0 <= start <= used
    &&& forall|i: int|
        0 <= i < objects.len() ==> (#[trigger] objects[i]).aligned_end_offset <= used
    &&& forall|b: int| 0 <= b < start ==> #[trigger] in_object(objects, b)
}

/// The objects that a scan meets, in order.
#[verifier::opaque]
pub open spec fn scanned(s: AreaState, dirty: bool) -> Seq<ObjectView> {
    sort_objects(
        scan_node(s.data, 0, found_at_start(dirty), (s.data.len() + 1) as nat)->Ok_0.objects,
    )
}

/// A scan and packing meet the same objects.
proof fn lemma_same_objects(s: AreaState, g: Layout)
    requires
        describes(g, s),
    ensures
        gather(s) is Ok,
        dirty_backup(s) == Ok::<bool, AreaFault>(gather(s)->Ok_0.1),
        scan_node(
            s.data,
            0,
            found_at_start(gather(s)->Ok_0.1),
            (s.data.len() + 1) as nat,
        ) is Ok,
        by_offset(scanned(s, gather(s)->Ok_0.1)),
        alike(scanned(s, gather(s)->Ok_0.1), gather(s)->Ok_0.0),
{
    lemma_gather(s, g);
    let (r, dirty) = gather(s)->Ok_0;
    let depth = (s.data.len() + 1) as nat;
    let k = gathered_at_start(dirty);
    let f = found_at_start(dirty);
    assert(in_step(f, k));
    lemma_node(s, g, 0);
    lemma_node_in_step(s, g, f, k, 0, None, depth);
    let j = gather_node(s.data, 0, None, k, depth)->Ok_0;
    let h = scan_node(s.data, 0, f, depth)->Ok_0;
    reveal(scanned);
    lemma_sort_moves(j.records);
    lemma_alike(h, j);
}

/// Sorting keeps objects and entries alike.
proof fn lemma_alike(h: Found, j: Gathered)
    requires
        in_step(h, j),
    ensures
        by_offset(sort_objects(h.objects)),
        alike(sort_objects(h.objects), sort_moves(j.records)),
{
    lemma_sort_moves(j.records);
    lemma_sort_objects(h.objects);
    let r = sort_moves(j.records);
    let objects = sort_objects(h.objects);
    assert forall|i: int| 0 <= i < objects.len() implies has_entry(r, #[trigger] objects[i]) by {
        assert(objects.contains(objects[i]));
        let l = choose|l: int| 0 <= l < h.objects.len() && h.objects[l] == objects[i];
        assert(same_place(h.objects[l], j.records[l]));
        assert(j.records.contains(j.records[l]));
        assert(r.contains(j.records[l]));
    }
    assert forall|m: MoveView| #[trigger] r.contains(m) implies has_object(objects, m) by {
        assert(j.records.contains(m));
        let l = choose|l: int| 0 <= l < j.records.len() && j.records[l] == m;
        assert(same_place(h.objects[l], j.records[l]));
        assert(h.objects.contains(h.objects[l]));
        assert(objects.contains(h.objects[l]));
        let i = choose|i: int| 0 <= i < objects.len() && objects[i] == h.objects[l];
        assert(same_place(objects[i], m));
    }
}

/// The object of a scan that takes the bytes of an entry.
proof fn lemma_object_at(objects: Seq<ObjectView>, r: Seq<MoveView>, m: MoveView) -> (i: int)
    requires
        alike(objects, r),
        r.contains(m),
    ensures
        0 <= i < objects.len(),
        same_place(objects[i], m),
{
    assert(has_object(objects, m));
    choose|i: int| 0 <= i < objects.len() && same_place(#[trigger] objects[i], m)
}

/// The bytes that an object of a scan takes.
proof fn lemma_scanned_object(
    s: AreaState,
    g: Layout,
    objects: Seq<ObjectView>,
    r: Seq<MoveView>,
    dirty: bool,
    i: int,
)
    requires
        describes(g, s),
        all_objects(g, r, dirty),
        alike(objects, r),
        0 <= i < objects.len(),
    ensures
        objects[i].offset < objects[i].aligned_end_offset,
        (dirty ==> s.used >= 112) ==> objects[i].aligned_end_offset <= s.used,
{
    assert(has_entry(r, objects[i]));
    let m = choose|m: MoveView| #[trigger] r.contains(m) && same_place(objects[i], m);
    if !(dirty && m == dirty_move()) {
        let w = choose|w: Owner| #[trigger] live(g, w) && m == object_of(g, w);
        lemma_live(s, g, w);
    }
}

/// The part in front of the allocations is taken.
proof fn lemma_front(
    s: AreaState,
    g: Layout,
    objects: Seq<ObjectView>,
    r: Seq<MoveView>,
    dirty: bool,
    b: int,
)
    requires
        describes(g, s),
        all_objects(g, r, dirty),
        alike(objects, r),
        0 <= b < first_allocation(dirty),
    ensures
        in_object(objects, b),
{
    assert(live(g, Owner::Node(0)));
    lemma_node(s, g, 0);
    let i = if b < 20 {
        lemma_object_at(objects, r, object_of(g, Owner::Node(0)))
    } else {
        lemma_object_at(objects, r, dirty_move())
    };
    assert(objects[i].offset <= b < objects[i].aligned_end_offset);
}

/// What the objects of a scan take.
proof fn lemma_scanned(s: AreaState, g: Layout, objects: Seq<ObjectView>, r: Seq<MoveView>, dirty: bool)
    requires
        describes(g, s),
        all_objects(g, r, dirty),
        alike(objects, r),
        by_offset(objects),
    ensures
        dirty && s.used < 112 ==> exists|i: int|
            0 <= i < objects.len() && (#[trigger] objects[i]).aligned_end_offset > s.used,
        (dirty ==> s.used >= 112) ==> proper(objects, first_allocation(dirty), s.used),
{
    lemma_node(s, g, 0);
    if dirty && s.used < 112 {
        let i = lemma_object_at(objects, r, dirty_move());
        assert(objects[i].aligned_end_offset > s.used);
    } else {
        assert forall|i: int| 0 <= i < objects.len() implies (#[trigger] objects[i]).offset
            < objects[i].aligned_end_offset && objects[i].aligned_end_offset <= s.used by {
            lemma_scanned_object(s, g, objects, r, dirty, i);
        }
        assert forall|b: int| 0 <= b < first_allocation(dirty) implies #[trigger] in_object(
            objects,
            b,
        ) by {
            lemma_front(s, g, objects, r, dirty, b);
        }
    }
}

/// What a scan of a well-formed area gives.
pub proof fn lemma_scan(s: AreaState, g: Layout)
    requires
        describes(g, s),
    ensures
        ({
            let dirty = gather(s)->Ok_0.1;
            let objects = scanned(s, dirty);
            let start = first_allocation(dirty);
            &&& gather(s) is Ok
            &&& dirty_backup(s) == Ok::<bool, AreaFault>(dirty)
            &&& alike(objects, gather(s)->Ok_0.0)
            &&& all_objects(g, gather(s)->Ok_0.0, dirty)
            &&& scan_area(s) is Ok <==> (dirty ==> s.used >= 112)
            &&& scan_area(s) is Ok ==> {
                &&& proper(objects, start, s.used)
                &&& scan_area(s)->Ok_0.objects == objects
                &&& scan_area(s)->Ok_0.holes == all_holes(objects, start, s.used)
            }
        }),
{
    lemma_same_objects(s, g);
    lemma_gather(s, g);
    let (r, dirty) = gather(s)->Ok_0;
    lemma_scanned(s, g, scanned(s, dirty), r, dirty);
    reveal(scanned);
}

/// Objects and holes share the bytes in use.
proof fn lemma_shared_byte(objects: Seq<ObjectView>, start: int, used: int, b: int)
    requires
        by_offset(objects),
        sized(objects),
        start <= used,
        forall|i: int|
            0 <= i < objects.len() ==> (#[trigger] objects[i]).aligned_end_offset <= used,
        0 <= b < start ==> in_object(objects, b),
        0 <= b < used,
    ensures
        in_object(objects, b) != in_hole(all_holes(objects, start, used), b),
{
    lemma_holes(objects, start);
    let c = covered(objects, start);
    let h = holes_in(objects, start);
    let k = all_holes(objects, start, used);
    assert(c <= used);
    if used > c {
        assert(k[h.len() as int] == hole_between(c, used));
    }
    assert(in_hole(k, b) == (in_hole(h, b) || (used > c && c <= b < used))) by {
        if in_hole(h, b) {
            let i = choose|i: int|
                0 <= i < h.len() && (#[trigger] h[i]).start_offset <= b < h[i].end_offset;
            assert(k[i] == h[i]);
        }
        if in_hole(k, b) {
            let i = choose|i: int|
                0 <= i < k.len() && (#[trigger] k[i]).start_offset <= b < k[i].end_offset;
            if i < h.len() {
                assert(h[i] == k[i]);
            }
        }
    }
    if b < start || b >= c {
        assert(!in_hole(h, b)) by {
            if in_hole(h, b) {
                let i = choose|i: int|
                    0 <= i < h.len() && (#[trigger] h[i]).start_offset <= b < h[i].end_offset;
                assert(start <= h[i].start_offset && h[i].end_offset <= c);
            }
        }
    }
    if b >= c {
        assert(!in_object(objects, b)) by {
            if in_object(objects, b) {
                let i = choose|i: int|
                    0 <= i < objects.len() && (#[trigger] objects[i]).offset <= b
                        < objects[i].aligned_end_offset;
                assert(objects[i].aligned_end_offset <= c);
            }
        }
    }
}

/// Objects other than the dirty-backup area do not overlap.
pub open spec fn apart(objects: Seq<ObjectView>) -> bool {
    forall|i: int, j: int|
        0 <= i < j < objects.len() && !((#[trigger] objects[i]).kind is DirtyBackup) && !((
        #[trigger] objects[j]).kind is DirtyBackup) ==> objects[i].aligned_end_offset
            <= objects[j].offset
}

/// Holes are not empty, and each one ends before the next one starts.
pub open spec fn holes_in_order(h: Seq<HoleView>) -> bool {
    &&& forall|i: int| 0 <= i < h.len() ==> (#[trigger] h[i]).start_offset < h[i].end_offset
    &&& forall|i: int, j: int|
        0 <= i < j < h.len() ==> (#[trigger] h[i]).end_offset <= (#[trigger] h[j]).start_offset
}

/// Two objects that walks meet stand apart.
proof fn lemma_pair_apart(
    s: AreaState,
    g: Layout,
    h: Found,
    k: Gathered,
    dirty: bool,
    l: int,
    m: int,
)
    requires
        describes(g, s),
        in_step(h, k),
        k.records.no_duplicates(),
        all_objects(g, sort_moves(k.records), dirty),
        0 <= l < h.objects.len(),
        0 <= m < h.objects.len(),
        l != m,
    ensures
        h.objects[l] != h.objects[m],
        !(h.objects[l].kind is DirtyBackup) && !(h.objects[m].kind is DirtyBackup) ==> {
            ||| h.objects[l].aligned_end_offset <= h.objects[m].offset
            ||| h.objects[m].aligned_end_offset <= h.objects[l].offset
        },
{
    lemma_sort_moves(k.records);
    let r = sort_moves(k.records);
    assert(same_place(h.objects[l], k.records[l]));
    assert(same_place(h.objects[m], k.records[m]));
    assert(k.records[l] != k.records[m]);
    if !(h.objects[l].kind is DirtyBackup) && !(h.objects[m].kind is DirtyBackup) {
        assert(k.records.contains(k.records[l]));
        assert(k.records.contains(k.records[m]));
        assert(r.contains(k.records[l]) && r.contains(k.records[m]));
        let v = choose|v: Owner| #[trigger] live(g, v) && k.records[l] == object_of(g, v);
        let w = choose|w: Owner| #[trigger] live(g, w) && k.records[m] == object_of(g, w);
        lemma_objects_apart(s, g, v, w);
        lemma_live(s, g, v);
        lemma_live(s, g, w);
    }
}

/// The objects of a scan stand apart.
pub proof fn lemma_scan_apart(s: AreaState, g: Layout)
    requires
        describes(g, s),
    ensures
        ({
            let dirty = gather(s)->Ok_0.1;
            let objects = scanned(s, dirty);
            &&& by_offset(objects)
            &&& apart(objects)
            &&& objects.no_duplicates()
            &&& dirty <==> exists|i: int|
                0 <= i < objects.len() && (#[trigger] objects[i]).kind is DirtyBackup
        }),
{
    lemma_gather(s, g);
    let (r, dirty) = gather(s)->Ok_0;
    let depth = (s.data.len() + 1) as nat;
    let k0 = gathered_at_start(dirty);
    let f0 = found_at_start(dirty);
    assert(in_step(f0, k0));
    lemma_node(s, g, 0);
    lemma_node_in_step(s, g, f0, k0, 0, None, depth);
    let k = gather_node(s.data, 0, None, k0, depth)->Ok_0;
    let h = scan_node(s.data, 0, f0, depth)->Ok_0;
    reveal(scanned);
    lemma_sorted_apart(s, g, h, k, dirty);
}

/// Sorting keeps objects apart.
proof fn lemma_sorted_apart(s: AreaState, g: Layout, h: Found, k: Gathered, dirty: bool)
    requires
        describes(g, s),
        in_step(h, k),
        k.records.no_duplicates(),
        all_objects(g, sort_moves(k.records), dirty),
    ensures
        ({
            let objects = sort_objects(h.objects);
            &&& by_offset(objects)
            &&& apart(objects)
            &&& objects.no_duplicates()
            &&& dirty <==> exists|i: int|
                0 <= i < objects.len() && (#[trigger] objects[i]).kind is DirtyBackup
        }),
{
    let objects = sort_objects(h.objects);
    lemma_sort_objects(h.objects);
    lemma_sort_moves(k.records);
    assert(h.objects.no_duplicates()) by {
        assert forall|l: int, m: int|
            0 <= l < h.objects.len() && 0 <= m < h.objects.len() && l != m implies h.objects[l]
            != h.objects[m] by {
            lemma_pair_apart(s, g, h, k, dirty, l, m);
        }
    }
    lemma_sort_once(h.objects);
    assert forall|i: int, j: int|
        0 <= i < j < objects.len() && !((#[trigger] objects[i]).kind is DirtyBackup) && !((
        #[trigger] objects[j]).kind is DirtyBackup) implies objects[i].aligned_end_offset
        <= objects[j].offset by {
        assert(objects.contains(objects[i]) && objects.contains(objects[j]));
        let l = choose|l: int| 0 <= l < h.objects.len() && h.objects[l] == objects[i];
        let m = choose|m: int| 0 <= m < h.objects.len() && h.objects[m] == objects[j];
        assert(objects[i] != objects[j]);
        lemma_pair_apart(s, g, h, k, dirty, l, m);
        assert(objects[i].offset <= objects[j].offset);
        assert(k.records.contains(k.records[m]));
        assert(sort_moves(k.records).contains(k.records[m]));
        assert(same_place(h.objects[m], k.records[m]));
        let w = choose|w: Owner| #[trigger] live(g, w) && k.records[m] == object_of(g, w);
        lemma_live(s, g, w);
    }
    let r = sort_moves(k.records);
    if dirty {
        assert(r.contains(dirty_move()));
        assert(k.records.contains(dirty_move()));
        let l = choose|l: int| 0 <= l < k.records.len() && k.records[l] == dirty_move();
        assert(h.objects[l].kind is DirtyBackup);
        assert(h.objects.contains(h.objects[l]));
        assert(objects.contains(h.objects[l]));
        let i = choose|i: int| 0 <= i < objects.len() && objects[i] == h.objects[l];
        assert(objects[i].kind is DirtyBackup);
    }
    if exists|i: int| 0 <= i < objects.len() && (#[trigger] objects[i]).kind is DirtyBackup {
        let i = choose|i: int|
            0 <= i < objects.len() && (#[trigger] objects[i]).kind is DirtyBackup;
        assert(objects.contains(objects[i]));
        let l = choose|l: int| 0 <= l < h.objects.len() && h.objects[l] == objects[i];
        assert(k.records[l] == dirty_move());
        assert(k.records.contains(dirty_move()));
        assert(r.contains(dirty_move()));
        if !dirty {
            let w = choose|w: Owner| #[trigger] live(g, w) && dirty_move() == object_of(g, w);
            lemma_live(s, g, w);
        }
    }
}

/// Holes come one after the other.
proof fn lemma_holes_in_order(s: Seq<ObjectView>, cursor: int)
    requires
        by_offset(s),
        sized(s),
    ensures
        holes_in_order(holes_in(s, cursor)),
    decreases s.len(),
{
    if s.len() > 0 {
        let t = s.drop_last();
        lemma_holes_in_order(t, cursor);
        lemma_holes(t, cursor);
        let h = holes_in(t, cursor);
        let k = holes_in(s, cursor);
        assert forall|i: int, j: int| 0 <= i < j < k.len() implies (#[trigger] k[i]).end_offset
            <= (#[trigger] k[j]).start_offset by {
            assert(k[i] == h[i]);
            if j < h.len() {
                assert(k[j] == h[j]);
            }
        }
        assert forall|i: int| 0 <= i < k.len() implies (#[trigger] k[i]).start_offset
            < k[i].end_offset by {
            if i < h.len() {
                assert(k[i] == h[i]);
            }
        }
    }
}

proof fn lemma_all_holes_in_order(s: Seq<ObjectView>, cursor: int, used: int)
    requires
        by_offset(s),
        sized(s),
    ensures
        holes_in_order(all_holes(s, cursor, used)),
{
    lemma_holes_in_order(s, cursor);
    lemma_holes(s, cursor);
    let h = holes_in(s, cursor);
    let k = all_holes(s, cursor, used);
    assert forall|i: int, j: int| 0 <= i < j < k.len() implies (#[trigger] k[i]).end_offset <= (
    #[trigger] k[j]).start_offset by {
        assert(k[i] == h[i]);
        if j < h.len() {
            assert(k[j] == h[j]);
        }
    }
    assert forall|i: int| 0 <= i < k.len() implies (#[trigger] k[i]).start_offset
        < k[i].end_offset by {
        if i < h.len() {
            assert(k[i] == h[i]);
        }
    }
}

/// The size of a hole is that of the bytes between its ends.
proof fn lemma_hole_sizes(s: Seq<ObjectView>, cursor: int)
    ensures
        forall|i: int|
            0 <= i < holes_in(s, cursor).len() ==> (#[trigger] holes_in(s, cursor)[i]).size
                == holes_in(s, cursor)[i].end_offset - holes_in(s, cursor)[i].start_offset,
    decreases s.len(),
{
    if s.len() > 0 {
        lemma_hole_sizes(s.drop_last(), cursor);
        let h = holes_in(s.drop_last(), cursor);
        let k = holes_in(s, cursor);
        assert forall|i: int| 0 <= i < k.len() implies (#[trigger] k[i]).size == k[i].end_offset
            - k[i].start_offset by {
            if i < h.len() {
                assert(k[i] == h[i]);
            }
        }
    }
}

/// A scan of a well-formed area succeeds, unless the place of the dirty-backup
/// area lies behind the fill mark. Every byte in use is part of an object or of
/// a hole, and of one of them only. Objects and holes are in order, and neither
/// overlap: but for the dirty-backup area, whose place others may have taken.
pub proof fn law_scan(s: AreaState)
    requires
        well_formed(s),
    ensures
        dirty_backup(s) is Ok,
        scan_area(s) is Ok <==> (dirty_backup(s)->Ok_0 ==> s.used >= 112),
        scan_area(s) matches Ok(v) ==> {
            &&& forall|b: int|
                0 <= b < s.used ==> #[trigger] in_object(v.objects, b) != in_hole(v.holes, b)
            &&& v.bytes_used == s.used
            &&& by_offset(v.objects)
            &&& apart(v.objects)
            &&& v.objects.no_duplicates()
            &&& holes_in_order(v.holes)
            &&& forall|i: int|
                0 <= i < v.holes.len() ==> (#[trigger] v.holes[i]).size == v.holes[i].end_offset
                    - v.holes[i].start_offset
            &&& v.has_dirty_backup <==> exists|i: int|
                0 <= i < v.objects.len() && (#[trigger] v.objects[i]).kind is DirtyBackup
        },
{
    let g = choose|g: Layout| #[trigger] describes(g, s);
    lemma_scan(s, g);
    lemma_scan_apart(s, g);
    if let Ok(v) = scan_area(s) {
        let start = first_allocation(gather(s)->Ok_0.1);
        lemma_all_holes_in_order(v.objects, start, s.used);
        lemma_hole_sizes(v.objects, start);
        assert forall|b: int| 0 <= b < s.used implies #[trigger] in_object(v.objects, b) != in_hole(
            v.holes,
            b,
        ) by {
            lemma_shared_byte(v.objects, start, s.used, b);
        }
    }
}

/// A hole lies in the part that is in use, behind the start of the allocations.
proof fn lemma_hole_in_use(objects: Seq<ObjectView>, start: int, used: int, i: int)
    requires
        by_offset(objects),
        sized(objects),
        forall|i: int|
            0 <= i < objects.len() ==> (#[trigger] objects[i]).aligned_end_offset <= used,
        start <= used,
        0 <= i < all_holes(objects, start, used).len(),
    ensures
        ({
            let h = all_holes(objects, start, used)[i];
            start <= h.start_offset < h.end_offset <= used
        }),
{
    lemma_holes(objects, start);
    let h = holes_in(objects, start);
    if i < h.len() {
        assert(all_holes(objects, start, used)[i] == h[i]);
    }
}

/// Without a gap, every byte up to the cursor is taken. The entry at `l` is one
/// that ends behind `b`.
proof fn lemma_no_gap(r: Seq<MoveView>, start: int, cursor: int, b: int, l: int)
    requires
        covered_to(r, start, r.len() as int, cursor),
        start <= b,
        0 <= l < r.len(),
        b < end_of(r[l]),
    ensures
        exists|i: int| 0 <= i < r.len() && (#[trigger] r[i]).offset <= b < end_of(r[i]),
    decreases l,
{
    if r[l].offset > b {
        let k = choose|k: int| 0 <= k < l && r[l].offset <= end_of(#[trigger] r[k]);
        lemma_no_gap(r, start, cursor, b, k);
    }
}

/// What the search for the first gap says.
spec fn gap_search(
    r: Seq<MoveView>,
    start: int,
    found: Option<int>,
    cursor: int,
) -> bool {
    match found {
        Some(j) => 0 <= j < r.len() && covered_to(r, start, j, cursor) && r[j].offset > cursor,
        None => covered_to(r, start, r.len() as int, cursor),
    }
}

/// Where packing finds a gap, a scan finds a hole.
proof fn lemma_gap_seen(
    objects: Seq<ObjectView>,
    r: Seq<MoveView>,
    start: int,
    used: int,
    found: Option<int>,
    cursor: int,
)
    requires
        alike(objects, r),
        proper(objects, start, used),
        in_order(r),
        gap_search(r, start, found, cursor),
        found is Some || cursor < used,
    ensures
        all_holes(objects, start, used).len() > 0,
{
    if let Some(j) = found {
        assert(r.contains(r[j]));
        let i = lemma_object_at(objects, r, r[j]);
        assert(objects[i].offset < objects[i].aligned_end_offset <= used);
    }
    assert(!in_object(objects, cursor)) by {
        lemma_cursor_free(objects, r, start, found, cursor);
    }
    assert(0 <= cursor < used);
    lemma_shared_byte(objects, start, used, cursor);
}

/// The byte at the cursor belongs to no object.
proof fn lemma_cursor_free(
    objects: Seq<ObjectView>,
    r: Seq<MoveView>,
    start: int,
    found: Option<int>,
    cursor: int,
)
    requires
        alike(objects, r),
        in_order(r),
        gap_search(r, start, found, cursor),
    ensures
        !in_object(objects, cursor),
{
    if in_object(objects, cursor) {
        let i = choose|i: int|
            0 <= i < objects.len() && (#[trigger] objects[i]).offset <= cursor
                < objects[i].aligned_end_offset;
        assert(has_entry(r, objects[i]));
        let m = choose|m: MoveView| #[trigger] r.contains(m) && same_place(objects[i], m);
        let l = choose|l: int| 0 <= l < r.len() && r[l] == m;
        if let Some(j) = found {
            if l >= j {
                assert(r[j].offset <= r[l].offset);
            }
        }
        assert(end_of(r[l]) <= cursor);
    }
}

/// Where a scan finds a hole, packing finds a gap.
proof fn lemma_hole_seen(
    objects: Seq<ObjectView>,
    r: Seq<MoveView>,
    start: int,
    used: int,
    cursor: int,
)
    requires
        alike(objects, r),
        proper(objects, start, used),
        covered_to(r, start, r.len() as int, cursor),
        all_holes(objects, start, used).len() > 0,
    ensures
        cursor < used,
{
    let h = all_holes(objects, start, used);
    let b = h[0].start_offset;
    lemma_hole_in_use(objects, start, used, 0);
    assert(in_hole(h, b));
    lemma_shared_byte(objects, start, used, b);
    if cursor >= used {
        let last = choose|j: int| 0 <= j < r.len() && end_of(#[trigger] r[j]) == cursor;
        lemma_no_gap(r, start, cursor, b, last);
        let l = choose|l: int| 0 <= l < r.len() && (#[trigger] r[l]).offset <= b < end_of(r[l]);
        assert(r.contains(r[l]));
        assert(has_object(objects, r[l]));
        let i = choose|i: int| 0 <= i < objects.len() && same_place(#[trigger] objects[i], r[l]);
        assert(objects[i].offset <= b < objects[i].aligned_end_offset);
    }
}

/// When packing has nothing to do.
proof fn lemma_idle(s: AreaState)
    requires
        gather(s) is Ok,
    ensures
        ({
            let (r, dirty) = gather(s)->Ok_0;
            let (found, cursor) = first_gap(r, 0, first_allocation(dirty));
            compact(s).1 == Ok::<CompactView, AreaFault>(CompactView::NoHoles) <==> found is None
                && cursor >= s.used
        }),
{
}

/// A hole is there where packing has something to do.
pub proof fn law_holes(s: AreaState)
    requires
        well_formed(s),
        scan_area(s) is Ok,
    ensures
        scan_area(s)->Ok_0.holes.len() == 0 <==> compact(s).1 == Ok::<CompactView, AreaFault>(
            CompactView::NoHoles,
        ),
{
    let g = choose|g: Layout| #[trigger] describes(g, s);
    lemma_scan(s, g);
    lemma_entries(s, g);
    lemma_idle(s);
    let (r, dirty) = gather(s)->Ok_0;
    let start = first_allocation(dirty);
    lemma_first_gap(r, start, 0, start);
    let (found, cursor) = first_gap(r, 0, start);
    lemma_gaps_and_holes(scan_area(s)->Ok_0.objects, r, start, s.used, found, cursor);
}

/// Packing finds a gap exactly where a scan finds a hole.
proof fn lemma_gaps_and_holes(
    objects: Seq<ObjectView>,
    r: Seq<MoveView>,
    start: int,
    used: int,
    found: Option<int>,
    cursor: int,
)
    requires
        alike(objects, r),
        proper(objects, start, used),
        in_order(r),
        gap_search(r, start, found, cursor),
    ensures
        all_holes(objects, start, used).len() == 0 <==> found is None && cursor >= used,
{
    if found is Some || cursor < used {
        lemma_gap_seen(objects, r, start, used, found, cursor);
    } else if all_holes(objects, start, used).len() > 0 {
        lemma_hole_seen(objects, r, start, used, cursor);
    }
}

/// An area that packing leaves alone has no holes.
proof fn lemma_packed_scan(t: AreaState)
    requires
        well_formed(t),
        compact(t).1 == Ok::<CompactView, AreaFault>(CompactView::NoHoles),
        dirty_backup(t) == Ok::<bool, AreaFault>(true) ==> t.used >= 112,
    ensures
        scan_area(t) is Ok,
        scan_area(t)->Ok_0.holes.len() == 0,
{
    law_scan(t);
    law_holes(t);
}

/// The fill mark of a packed area.
proof fn lemma_packed_used(s: AreaState)
    requires
        well_formed(s),
        scan_area(s) is Ok,
    ensures
        dirty_backup(compact(s).0) == Ok::<bool, AreaFault>(true) ==> compact(s).0.used >= 112,
{
    law_scan(s);
    let g = choose|g: Layout| #[trigger] describes(g, s);
    lemma_packed_mark(s, g);
}

/// After packing a scan finds no holes.
pub proof fn law_compact_reclaims(s: AreaState)
    requires
        well_formed(s),
        scan_area(s) is Ok,
    ensures
        scan_area(compact(s).0) is Ok,
        scan_area(compact(s).0)->Ok_0.holes.len() == 0,
{
    lemma_packed_used(s);
    law_compact_twice(s);
    let t = compact(s).0;
    assert(well_formed(t)) by {
        let g = choose|g: Layout| #[trigger] describes(g, s);
        let h = lemma_compact(s, g);
        assert(describes(h, t));
    }
    lemma_packed_scan(t);
}

} // verus!
