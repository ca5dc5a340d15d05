//! Areas that operations make out of a fresh one can be scanned.
use crate::area_compact::{close_gaps, compact, first_gap, gather, CompactView};
use crate::area_compact_laws::{
    law_compact, law_compact_twice, lemma_closed, lemma_compact, lemma_entries, lemma_only_root,
    lemma_packed_mark, lemma_plan_spread, plan_of,
};
use crate::area_edit::{
    attach_record, delete, detach_record, ensure_path, lemma_legacy_message, replace_value,
    set_with_serial,
};
use crate::area_growth::{grows, lemma_ensure_path, lemma_rec_untouched};
use crate::area_history::{
    apply, law_history, lemma_proper_before, proper_op, proper_ops, run, steady, AreaOp,
};
use crate::area_keys::{lemma_segments_join, lemma_segments_ok};
use crate::area_laws::good_key;
use crate::area_layout::{
    content_at, describes, lemma_find_node, lemma_node, lemma_read_record, node_bytes, rec_fits,
    well_formed, Layout, Owner,
};
use crate::area_order::{law_compact_listing, same_listing};
use crate::area_packing::{
    dirty_move, lemma_gather, lemma_live, lemma_objects_apart, live, object_of,
};
use crate::area_pruning::lemma_prune;
use crate::area_records::lemma_detach;
use crate::area_relocation::{
    covered_to, end_of, lemma_first_gap, lemma_pack, lemma_position, on_course,
};
use crate::area_report::{law_compact_report, lemma_packed, lemma_scan_paired, report_fits};
use crate::area_scan::{first_allocation, scan_area, ObjectView};
use crate::area_scan_laws::{
    by_offset, holes_in_order, in_hole, in_object, law_compact_reclaims, law_scan, lemma_scan,
    same_place,
};
use crate::area_state::{
    all_properties, fresh_area, key_ok, lookup_content, segments, AreaFault, AreaState,
};
use crate::bytes::{lemma_le_bytes, put_u32, u32_at};
use vstd::prelude::*;

verus! {

/// The first child of the root.
pub open spec fn first_child(s: AreaState) -> int {
    u32_at(s.data, 16)
}

/// The nodes start right behind the root or behind the place of the dirty-backup
/// area; where there are none, the mark stands at one of these or behind them.
pub open spec fn settled(s: AreaState) -> bool {
    ||| first_child(s) == 20
    ||| first_child(s) >= 112
    ||| first_child(s) == 0 && (s.used == 20 || s.used >= 112)
}

/// The first child of the root, in the layout and in the area.
proof fn lemma_first_child(s: AreaState, g: Layout)
    requires
        describes(g, s),
    ensures
        first_child(s) == g.nodes[0].kids,
        g.nodes.dom().contains(0),
        g.nodes.dom().contains(20) ==> g.nodes[0].kids == 20,
        g.nodes[0].kids == 20 ==> g.nodes.dom().contains(20),
{
    lemma_node(s, g, 0);
    reveal(node_bytes);
    if g.nodes.dom().contains(20) {
        lemma_node(s, g, 20);
        lemma_live(s, g, Owner::Node(g.nodes[20].from));
    }
}

/// Every node but the root stands at the first child of the root or behind it.
proof fn lemma_node_behind(s: AreaState, g: Layout, o: int)
    requires
        describes(g, s),
        g.nodes.dom().contains(o),
        o != 0,
    ensures
        0 < g.nodes[0].kids <= o,
    decreases o,
{
    lemma_node(s, g, o);
    lemma_node(s, g, 0);
    if g.nodes[o].from != 0 {
        lemma_node_behind(s, g, g.nodes[o].from);
    }
}

/// Every object but the root stands at the first child of the root or behind it.
proof fn lemma_behind(s: AreaState, g: Layout, w: Owner)
    requires
        describes(g, s),
        live(g, w),
        w != Owner::Node(0),
    ensures
        0 < g.nodes[0].kids <= object_of(g, w).offset,
{
    lemma_node(s, g, 0);
    match w {
        Owner::Node(o) => {
            lemma_node_behind(s, g, o);
        },
        Owner::Record(p) => {
            assert(rec_fits(s, g, p));
            lemma_node_behind(s, g, g.recs[p].node);
        },
        Owner::Long(p) => {
            assert(rec_fits(s, g, p));
            lemma_node_behind(s, g, g.recs[p].node);
            lemma_live(s, g, w);
        },
    }
}

/// All objects stand apart.
pub open spec fn all_apart(objects: Seq<ObjectView>) -> bool {
    forall|i: int, j: int|
        0 <= i < j < objects.len() ==> (#[trigger] objects[i]).aligned_end_offset <= (
        #[trigger] objects[j]).offset
}

/// The entries of a settled area stand apart.
proof fn lemma_settled_entries(s: AreaState, g: Layout, i: int, j: int)
    requires
        describes(g, s),
        settled(s),
        0 <= i < j < gather(s)->Ok_0.0.len(),
    ensures
        end_of(gather(s)->Ok_0.0[i]) <= gather(s)->Ok_0.0[j].offset,
{
    lemma_entries(s, g);
    lemma_gather(s, g);
    lemma_first_child(s, g);
    lemma_node(s, g, 0);
    let (r, dirty) = gather(s)->Ok_0;
    let a = r[i];
    let b = r[j];
    assert(r.contains(a) && r.contains(b));
    assert(a.offset <= b.offset && a != b);
    let v = choose|w: Owner| #[trigger] live(g, w) && a == object_of(g, w);
    let w = choose|w: Owner| #[trigger] live(g, w) && b == object_of(g, w);
    if dirty && a == dirty_move() {
        lemma_live(s, g, w);
        if w != Owner::Node(0) {
            lemma_behind(s, g, w);
        }
    } else if dirty && b == dirty_move() {
        lemma_live(s, g, v);
        if v != Owner::Node(0) {
            lemma_behind(s, g, v);
        }
    } else {
        lemma_live(s, g, v);
        lemma_live(s, g, w);
        lemma_objects_apart(s, g, v, w);
    }
}

/// A settled area can be scanned, and its objects stand apart.
proof fn lemma_settled_scan(s: AreaState)
    requires
        well_formed(s),
        settled(s),
    ensures
        scan_area(s) is Ok,
        all_apart(scan_area(s)->Ok_0.objects),
{
    let g = choose|g: Layout| #[trigger] describes(g, s);
    lemma_first_child(s, g);
    lemma_node(s, g, 0);
    law_scan(s);
    if first_child(s) >= 112 {
        lemma_node(s, g, first_child(s));
    }
    lemma_scan(s, g);
    lemma_scan_paired(s, g);
    let r = gather(s)->Ok_0.0;
    let objects = scan_area(s)->Ok_0.objects;
    assert forall|i: int, j: int| 0 <= i < j < objects.len() implies (
    #[trigger] objects[i]).aligned_end_offset <= (#[trigger] objects[j]).offset by {
        assert(same_place(objects[i], r[i]) && same_place(objects[j], r[j]));
        lemma_settled_entries(s, g, i, j);
    }
}

/// A property takes more than the place of the dirty-backup area.
proof fn lemma_property_room(s: AreaState, g: Layout, path: Seq<Seq<u8>>)
    requires
        describes(g, s),
        content_at(g, path) is Some,
    ensures
        s.used >= 112,
{
    let x = g.index[path];
    lemma_node(s, g, x);
    let p = g.nodes[x].prop;
    assert(rec_fits(s, g, p));
    lemma_live(s, g, Owner::Record(p));
}

/// The root is as it was.
spec fn root_stays(d: Seq<u8>, e: Seq<u8>) -> bool {
    d.len() == e.len() && forall|b: int| 0 <= b < 20 ==> #[trigger] e[b] == d[b]
}

/// Giving a node another record leaves the root alone.
proof fn lemma_attach_root(s: AreaState, node: int, key: Seq<u8>, value: Seq<u8>)
    requires
        20 <= s.used <= s.data.len() <= u32::MAX,
        20 <= node,
        node + 8 <= s.data.len(),
    ensures
        ({
            let (t, r) = attach_record(s, node, key, value);
            &&& s.used <= t.used
            &&& root_stays(s.data, t.data)
            &&& r matches Ok(w) ==> w.prop_offset >= 20 && w.prop_offset + 4 <= t.data.len()
        }),
{
    lemma_legacy_message();
}

/// Giving a record another value leaves the root alone.
proof fn lemma_replace_root(s: AreaState, g: Layout, x: int, key: Seq<u8>, value: Seq<u8>)
    requires
        describes(g, s),
        g.nodes.dom().contains(x),
        g.nodes[x].prop != 0,
    ensures
        ({
            let (t, r) = replace_value(s, x, g.nodes[x].prop, key, value);
            &&& s.used <= t.used
            &&& root_stays(s.data, t.data)
            &&& r matches Ok(w) ==> w.prop_offset >= 20 && w.prop_offset + 4 <= t.data.len()
        }),
{
    lemma_node(s, g, x);
    let p = g.nodes[x].prop;
    let rec = g.recs[p];
    assert(rec_fits(s, g, p));
    lemma_read_record(s.data, p, rec);
    lemma_live(s, g, Owner::Record(p));
    if rec.long is Some {
        lemma_live(s, g, Owner::Long(p));
    }
    lemma_node(s, g, 0);
    assert(x >= 20) by {
        lemma_live(s, g, Owner::Node(x));
    }
    let h = lemma_detach(s, g, x);
    let e = detach_record(s.data, x, p).0;
    assert(root_stays(s.data, e)) by {
        lemma_detach_root(s, g, x);
    }
    lemma_attach_root(s.with(e), x, key, value);
}

/// Taking a record away leaves the root alone.
proof fn lemma_detach_root(s: AreaState, g: Layout, x: int)
    requires
        describes(g, s),
        g.nodes.dom().contains(x),
        g.nodes[x].prop != 0,
    ensures
        root_stays(s.data, detach_record(s.data, x, g.nodes[x].prop).0),
{
    lemma_node(s, g, x);
    let p = g.nodes[x].prop;
    let rec = g.recs[p];
    assert(rec_fits(s, g, p));
    lemma_live(s, g, Owner::Record(p));
    lemma_live(s, g, Owner::Node(x));
    if rec.long is Some {
        lemma_live(s, g, Owner::Long(p));
    }
    let e = put_u32(s.data, x + 4, 0);
    lemma_le_bytes(0);
    assert forall|b: int| 0 <= b < s.used && (g.own)(b) != Owner::Node(x) implies #[trigger] e[b]
        == s.data[b] by {
        if x + 4 <= b < x + 8 {
            assert((g.own)(b) == Owner::Node(x));
        }
    }
    lemma_rec_untouched(s, g, p, e, x);
    lemma_read_record(e, p, rec);
}

/// The nodes that are there when a set is through with the path.
proof fn lemma_path_settled(s: AreaState, g: Layout, t: AreaState, h: Layout)
    requires
        describes(g, s),
        describes(h, t),
        grows(s, g, t, h),
        settled(s),
    ensures
        settled(t),
{
    lemma_first_child(s, g);
    lemma_first_child(t, h);
    lemma_node(s, g, 0);
    lemma_node(t, h, 0);
    let a = g.nodes[0].kids;
    let b = h.nodes[0].kids;
    if t != s {
        lemma_node_behind(t, h, s.used);
        if a != 0 {
            lemma_node(s, g, a);
            lemma_node_behind(t, h, a);
            if g.nodes.dom().contains(b) {
                lemma_node_behind(s, g, b);
            }
        } else if g.nodes.dom().contains(b) {
            lemma_node_behind(s, g, b);
        }
    }
}

/// A set keeps an area settled.
proof fn lemma_set_settled(s: AreaState, g: Layout, key: Seq<u8>, value: Seq<u8>)
    requires
        describes(g, s),
        good_key(key),
        settled(s),
    ensures
        settled(set_with_serial(s, key, value).0),
{
    let path = segments(key);
    lemma_segments_ok(key);
    lemma_segments_join(key);
    lemma_node(s, g, 0);
    let h = lemma_ensure_path(s, g, 0, path);
    let (t, r) = ensure_path(s, 0, path);
    assert(g.nodes[0].path + path =~= path);
    lemma_path_settled(s, g, t, h);
    if let Ok(x) = r {
        lemma_node(t, h, x);
        lemma_node(t, h, 0);
        reveal(node_bytes);
        lemma_live(t, h, Owner::Node(x));
        let prop = h.nodes[x].prop;
        let (u, done) = if prop == 0 {
            attach_record(t, x, key, value)
        } else {
            replace_value(t, x, prop, key, value)
        };
        if prop == 0 {
            lemma_attach_root(t, x, key, value);
        } else {
            lemma_property_room(t, h, path);
            lemma_replace_root(t, h, x, key, value);
        }
        lemma_written_settled(t, h, u);
        if let Ok(w) = done {
            let f = set_with_serial(s, key, value).0;
            assert(root_stays(u.data, f.data));
            assert(first_child(f) == first_child(u));
        }
    }
}

/// Writing behind the root keeps an area settled.
proof fn lemma_written_settled(t: AreaState, h: Layout, u: AreaState)
    requires
        describes(h, t),
        settled(t),
        t.used <= u.used,
        root_stays(t.data, u.data),
    ensures
        first_child(u) == first_child(t),
        first_child(t) != 0 ==> settled(u),
        t.used >= 112 ==> settled(u),
{
    lemma_node(t, h, 0);
}

/// A deletion keeps an area settled.
proof fn lemma_delete_settled(s: AreaState, g: Layout, key: Seq<u8>, pruned: bool)
    requires
        describes(g, s),
        key_ok(key),
        settled(s),
    ensures
        settled(delete(s, key, pruned).0),
{
    let path = segments(key);
    lemma_find_node(s, g, key);
    if content_at(g, path) is Some {
        lemma_property_room(s, g, path);
        let x = g.index[path];
        lemma_node(s, g, x);
        lemma_node(s, g, 0);
        let h = lemma_detach(s, g, x);
        let t = s.with(detach_record(s.data, x, g.nodes[x].prop).0);
        lemma_detach_root(s, g, x);
        lemma_written_settled(s, g, t);
        if pruned {
            let k = lemma_prune(t, h);
            let u = delete(s, key, pruned).0;
            lemma_first_child(t, h);
            lemma_first_child(u, k);
        }
    } else if g.index.dom().contains(path) {
        lemma_node(s, g, g.index[path]);
        reveal(node_bytes);
    }
}

/// An area without nodes that packing leaves alone is empty.
proof fn lemma_packed_empty(t: AreaState, h: Layout)
    requires
        describes(h, t),
        compact(t).1 == Ok::<CompactView, AreaFault>(CompactView::NoHoles),
        h.nodes[0].kids == 0,
        t.used != 112,
    ensures
        t.used == 20,
{
    lemma_entries(t, h);
    lemma_first_child(t, h);
    lemma_node(t, h, 0);
    let (r, dirty) = gather(t)->Ok_0;
    assert(!dirty) by {
        lemma_gather(t, h);
    }
    lemma_first_gap(r, 20, 0, 20);
    let (found, cursor) = first_gap(r, 0, 20);
    assert forall|j: int| 0 <= j < r.len() implies (#[trigger] r[j]).offset == 0 && end_of(r[j])
        == 20 by {
        assert(r.contains(r[j]));
        let w = choose|w: Owner| #[trigger] live(h, w) && r[j] == object_of(h, w);
        lemma_only_root(t, h, w);
    }
}

/// Where the first child of the root goes when the gaps are closed.
proof fn lemma_closed_child(s: AreaState, g: Layout, i: int, cursor: int)
    requires
        describes(g, s),
        ({
            let (r, dirty) = gather(s)->Ok_0;
            &&& covered_to(r, first_allocation(dirty), i, cursor)
            &&& 0 <= i < r.len()
            &&& cursor < r[i].offset
        }),
    ensures
        ({
            let t = close_gaps(s, gather(s)->Ok_0.0, i, cursor).0;
            first_child(t) == first_child(s) || first_child(t) >= cursor
        }),
{
    let r = gather(s)->Ok_0.0;
    let pl = plan_of(s, g, i, cursor);
    let (h, rel) = lemma_closed(s, g, i, cursor);
    let t = close_gaps(s, r, i, cursor).0;
    let kids = g.nodes[0].kids;
    assert(h.nodes[0].kids == pl.now(r.len() as int, kids)) by {
        reveal(on_course);
    }
    lemma_first_child(s, g);
    lemma_first_child(t, h);
    assert(pl.now(r.len() as int, kids) == kids || pl.now(r.len() as int, kids) >= cursor) by {
        lemma_plan_spread(s, g, i, cursor);
        lemma_pack(r, i, cursor, i, Map::empty());
        if pl.m.dom().contains(kids) {
            let j = choose|j: int| i <= j < r.len() && (#[trigger] r[j]).offset == kids;
            lemma_position(r, i, cursor, j);
        }
    }
}

/// Behind the dirty-backup area nothing is moved into its place.
proof fn lemma_packed_child(s: AreaState, g: Layout)
    requires
        describes(g, s),
        gather(s)->Ok_0.1,
        first_child(s) >= 112,
    ensures
        first_child(compact(s).0) >= 112,
{
    lemma_entries(s, g);
    lemma_packed(s);
    let (r, dirty) = gather(s)->Ok_0;
    lemma_first_gap(r, 112, 0, 112);
    let (found, cursor) = first_gap(r, 0, 112);
    if let Some(i) = found {
        lemma_closed_child(s, g, i, cursor);
    }
}

/// Where there are no nodes, packing moves nothing.
proof fn lemma_nothing_moved(s: AreaState, g: Layout)
    requires
        describes(g, s),
        g.nodes[0].kids == 0,
    ensures
        compact(s).0.data == s.data,
{
    lemma_entries(s, g);
    lemma_node(s, g, 0);
    let (r, dirty) = gather(s)->Ok_0;
    let start = first_allocation(dirty);
    lemma_first_gap(r, start, 0, start);
    if let Some(i) = first_gap(r, 0, start).0 {
        assert(r.contains(r[i]));
        if !(dirty && r[i] == dirty_move()) {
            let w = choose|w: Owner| #[trigger] live(g, w) && r[i] == object_of(g, w);
            lemma_only_root(s, g, w);
        }
    }
}

/// Packing keeps an area settled.
proof fn lemma_pack_settled(s: AreaState, g: Layout)
    requires
        describes(g, s),
        settled(s),
    ensures
        settled(compact(s).0),
{
    let t = compact(s).0;
    let h = lemma_compact(s, g);
    lemma_packed_mark(s, g);
    law_compact_twice(s);
    lemma_first_child(s, g);
    lemma_first_child(t, h);
    lemma_node(s, g, 0);
    lemma_node(t, h, 0);
    let dirty = gather(s)->Ok_0.1;
    if dirty && first_child(s) != 0 {
        lemma_packed_child(s, g);
    } else if dirty {
        lemma_nothing_moved(s, g);
    } else if first_child(t) == 0 && t.used != 112 {
        lemma_packed_empty(t, h);
    }
}

/// One operation keeps an area settled.
proof fn lemma_step_settled(s: AreaState, op: AreaOp)
    requires
        well_formed(s),
        settled(s),
        proper_op(op),
    ensures
        settled(apply(s, op)),
{
    let g = choose|g: Layout| #[trigger] describes(g, s);
    match op {
        AreaOp::Assign { key, value } => {
            lemma_set_settled(s, g, key, value);
        },
        AreaOp::Remove { key, pruned } => {
            lemma_delete_settled(s, g, key, pruned);
        },
        AreaOp::Pack => {
            lemma_pack_settled(s, g);
        },
    }
}

proof fn lemma_run_settled(n: int, ops: Seq<AreaOp>)
    requires
        112 <= n <= u32::MAX,
        proper_ops(ops),
        steady(fresh_area(n), ops),
    ensures
        settled(run(fresh_area(n), ops)),
    decreases ops.len(),
{
    if ops.len() > 0 {
        let before = ops.drop_last();
        lemma_proper_before(ops);
        lemma_run_settled(n, before);
        law_history(n, before);
        lemma_step_settled(run(fresh_area(n), before), ops.last());
    }
}

/// An area that operations made out of a fresh one can be scanned, as long as no
/// update counter ran into the bit that marks the long layout. Its objects stand
/// apart in the part that is in use, and so do the holes; every byte in use is
/// part of one object or of one hole.
pub proof fn law_history_scan(n: int, ops: Seq<AreaOp>)
    requires
        112 <= n <= u32::MAX,
        proper_ops(ops),
        steady(fresh_area(n), ops),
    ensures
        ({
            let s = run(fresh_area(n), ops);
            let v = scan_area(s)->Ok_0;
            &&& scan_area(s) is Ok
            &&& v.bytes_used == s.used
            &&& by_offset(v.objects)
            &&& all_apart(v.objects)
            &&& forall|i: int|
                0 <= i < v.objects.len() ==> (#[trigger] v.objects[i]).aligned_end_offset
                    <= s.used
            &&& holes_in_order(v.holes)
            &&& forall|b: int|
                0 <= b < s.used ==> #[trigger] in_object(v.objects, b) != in_hole(v.holes, b)
            &&& v.has_dirty_backup <==> exists|i: int|
                0 <= i < v.objects.len() && (#[trigger] v.objects[i]).kind is DirtyBackup
        }),
{
    law_history(n, ops);
    lemma_run_settled(n, ops);
    lemma_settled_scan(run(fresh_area(n), ops));
    law_scan(run(fresh_area(n), ops));
}

/// Packing an area that operations made out of a fresh one succeeds, as long as
/// no update counter ran into the bit that marks the long layout. It reports
/// what a scan finds, changes nothing that is stored or listed, leaves no holes,
/// and has nothing to do a second time.
pub proof fn law_history_compact(n: int, ops: Seq<AreaOp>)
    requires
        112 <= n <= u32::MAX,
        proper_ops(ops),
        steady(fresh_area(n), ops),
    ensures
        ({
            let s = run(fresh_area(n), ops);
            let (t, r) = compact(s);
            &&& r is Ok
            &&& scan_area(s) is Ok
            &&& report_fits(s, (t, r), scan_area(s)->Ok_0.objects, scan_area(s)->Ok_0.holes)
            &&& forall|key: Seq<u8>|
                key_ok(key) ==> #[trigger] lookup_content(t.data, key) == lookup_content(
                    s.data,
                    key,
                )
            &&& same_listing(all_properties(s.data).0, all_properties(t.data).0)
            &&& scan_area(t) is Ok
            &&& scan_area(t)->Ok_0.holes.len() == 0
            &&& compact(t) == (t, Ok::<CompactView, AreaFault>(CompactView::NoHoles))
        }),
{
    let s = run(fresh_area(n), ops);
    law_history(n, ops);
    law_history_scan(n, ops);
    law_compact_report(s);
    law_compact_listing(s);
    law_compact_reclaims(s);
    law_compact_twice(s);
    assert forall|key: Seq<u8>| key_ok(key) implies #[trigger] lookup_content(
        compact(s).0.data,
        key,
    ) == lookup_content(s.data, key) by {
        law_compact(s, key);
    }
}

} // verus!
