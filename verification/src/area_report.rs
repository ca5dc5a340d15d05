//! What packing a property area reports, and what a scan said before.
use crate::area_compact::{
    close_gaps, compact, first_gap, gather, gather_node, gathered_at_start, insert_move, pack,
    sort_moves, wrap, CompactView, MoveView,
};
use crate::area_compact_laws::{
    lemma_closed, lemma_entries, lemma_plan_entry, lemma_plan_spread,
};
use crate::area_layout::{
    describes, lemma_node, rec_fits, well_formed, Layout, Owner,
};
use crate::area_packing::{
    all_objects, dirty_move, lemma_gather, lemma_live, lemma_objects_apart, lemma_sort_moves, live,
    object_of,
};
use crate::area_relocation::{
    covered_to, end_of, lemma_first_gap, lemma_pack, lemma_position, position, spread,
};
use crate::area_scan::{
    all_holes, covered, dirty_backup, first_allocation, found_at_start, hole_between, holes_in,
    insert_object, scan_area, scan_node, sort_objects, HoleView, ObjectView,
};
use crate::area_scan_laws::{in_step, lemma_node_in_step, lemma_scan, same_place, scanned};
use crate::area_state::{AreaFault, AreaState};
use vstd::prelude::*;

verus! {

/// The bytes in all holes.
pub open spec fn hole_bytes(h: Seq<HoleView>) -> int
    decreases h.len(),
{
    if h.len() == 0 {
        0
    } else {
        hole_bytes(h.drop_last()) + h.last().size
    }
}

/// How many objects stand at `off` or behind it.
pub open spec fn number_from(objects: Seq<ObjectView>, off: int) -> int
    decreases objects.len(),
{
    if objects.len() == 0 {
        0
    } else {
        number_from(objects.drop_last(), off) + if objects.last().offset >= off {
            1int
        } else {
            0
        }
    }
}

/// The objects take the bytes of the entries, one for one.
pub open spec fn paired(objects: Seq<ObjectView>, r: Seq<MoveView>) -> bool {
    &&& objects.len() == r.len()
    &&& forall|i: int| 0 <= i < objects.len() ==> same_place(#[trigger] objects[i], r[i])
}

/// No two entries start at the same byte.
spec fn starts_differ(r: Seq<MoveView>) -> bool {
    forall|i: int, j: int|
        0 <= i < r.len() && 0 <= j < r.len() && i != j ==> (#[trigger] r[i]).offset
            != (#[trigger] r[j]).offset
}

proof fn lemma_insert_paired(
    objects: Seq<ObjectView>,
    o: ObjectView,
    r: Seq<MoveView>,
    m: MoveView,
)
    requires
        paired(objects, r),
        same_place(o, m),
        forall|i: int| 0 <= i < r.len() ==> (#[trigger] r[i]).offset != m.offset,
    ensures
        paired(insert_object(objects, o), insert_move(r, m)),
    decreases r.len(),
{
    if r.len() > 0 {
        let n = r.len() - 1;
        assert(same_place(objects[n], r[n]));
        assert(r[n].offset != m.offset);
        if m.offset < r[n].offset {
            let front = objects.drop_last();
            let head = r.drop_last();
            assert forall|i: int| 0 <= i < front.len() implies same_place(
                #[trigger] front[i],
                head[i],
            ) by {
                assert(same_place(objects[i], r[i]));
            }
            assert forall|i: int| 0 <= i < head.len() implies (#[trigger] head[i]).offset
                != m.offset by {
                assert(head[i] == r[i]);
            }
            lemma_insert_paired(front, o, head, m);
        }
    }
}

proof fn lemma_sort_paired(objects: Seq<ObjectView>, r: Seq<MoveView>)
    requires
        paired(objects, r),
        starts_differ(r),
    ensures
        paired(sort_objects(objects), sort_moves(r)),
    decreases r.len(),
{
    if r.len() > 0 {
        let front = objects.drop_last();
        let head = r.drop_last();
        let n = r.len() - 1;
        assert(same_place(objects[n], r[n]));
        assert forall|i: int| 0 <= i < front.len() implies same_place(
            #[trigger] front[i],
            head[i],
        ) by {
            assert(same_place(objects[i], r[i]));
        }
        assert forall|i: int, j: int|
            0 <= i < head.len() && 0 <= j < head.len() && i != j implies (#[trigger] head[i]).offset
            != (#[trigger] head[j]).offset by {
            assert(r[i].offset != r[j].offset);
        }
        lemma_sort_paired(front, head);
        lemma_sort_moves(head);
        let t = sort_moves(head);
        assert forall|i: int| 0 <= i < t.len() implies (#[trigger] t[i]).offset
            != r[n].offset by {
            assert(t.contains(t[i]));
            assert(head.contains(t[i]));
            let l = choose|l: int| 0 <= l < head.len() && head[l] == t[i];
            assert(r[l].offset != r[n].offset);
        }
        lemma_insert_paired(sort_objects(front), objects.last(), t, r.last());
    }
}

/// Behind the root stands the node that the root refers to, or the dirty-backup
/// area and nothing else.
proof fn lemma_not_at_backup(s: AreaState, g: Layout, w: Owner)
    requires
        describes(g, s),
        live(g, w),
        dirty_backup(s) == Ok::<bool, AreaFault>(true),
    ensures
        object_of(g, w).offset != 20,
{
    lemma_live(s, g, w);
    lemma_node(s, g, 0);
    if object_of(g, w).offset == 20 {
        match w {
            Owner::Node(o) => {
                lemma_node(s, g, o);
                let f = g.nodes[o].from;
                lemma_live(s, g, Owner::Node(f));
                assert(f == 0);
                assert(g.nodes[0].kids == 20);
                assert(false);
            },
            Owner::Record(p) => {
                assert(rec_fits(s, g, p));
                lemma_live(s, g, Owner::Node(g.recs[p].node));
                assert(g.recs[p].node == 0);
                assert(false);
            },
            Owner::Long(p) => {
                assert(rec_fits(s, g, p));
                lemma_live(s, g, Owner::Record(p));
                assert(false);
            },
        }
    }
}

/// No two objects start at the same byte.
proof fn lemma_starts_differ(s: AreaState, g: Layout, r: Seq<MoveView>, dirty: bool)
    requires
        describes(g, s),
        r.no_duplicates(),
        all_objects(g, sort_moves(r), dirty),
        dirty_backup(s) == Ok::<bool, AreaFault>(dirty),
    ensures
        starts_differ(r),
{
    lemma_sort_moves(r);
    assert forall|i: int, j: int|
        0 <= i < r.len() && 0 <= j < r.len() && i != j implies (#[trigger] r[i]).offset
        != (#[trigger] r[j]).offset by {
        assert(r.contains(r[i]) && r.contains(r[j]));
        assert(sort_moves(r).contains(r[i]) && sort_moves(r).contains(r[j]));
        assert(r[i] != r[j]);
        if dirty && r[i] == dirty_move() {
            let w = choose|w: Owner| #[trigger] live(g, w) && r[j] == object_of(g, w);
            lemma_not_at_backup(s, g, w);
        } else if dirty && r[j] == dirty_move() {
            let w = choose|w: Owner| #[trigger] live(g, w) && r[i] == object_of(g, w);
            lemma_not_at_backup(s, g, w);
        } else {
            let v = choose|w: Owner| #[trigger] live(g, w) && r[i] == object_of(g, w);
            let w = choose|w: Owner| #[trigger] live(g, w) && r[j] == object_of(g, w);
            lemma_live(s, g, v);
            lemma_live(s, g, w);
            lemma_objects_apart(s, g, v, w);
        }
    }
}

/// A scan and packing meet the same objects in the same order.
pub proof fn lemma_scan_paired(s: AreaState, g: Layout)
    requires
        describes(g, s),
    ensures
        paired(scanned(s, gather(s)->Ok_0.1), gather(s)->Ok_0.0),
{
    lemma_gather(s, g);
    let (r, dirty) = gather(s)->Ok_0;
    let depth = (s.data.len() + 1) as nat;
    let k0 = gathered_at_start(dirty);
    let f0 = found_at_start(dirty);
    assert(in_step(f0, k0));
    lemma_node(s, g, 0);
    lemma_node_in_step(s, g, f0, k0, 0, None, depth);
    let k = gather_node(s.data, 0, None, k0, depth)->Ok_0;
    let h = scan_node(s.data, 0, f0, depth)->Ok_0;
    reveal(scanned);
    lemma_starts_differ(s, g, k.records, dirty);
    assert forall|i: int| 0 <= i < h.objects.len() implies same_place(
        #[trigger] h.objects[i],
        k.records[i],
    ) by {}
    lemma_sort_paired(h.objects, k.records);
}

/// How far the first `k` objects reach.
proof fn lemma_covered(objects: Seq<ObjectView>, r: Seq<MoveView>, start: int, k: int)
    requires
        paired(objects, r),
        0 <= k <= r.len(),
    ensures
        ({
            let c = covered(objects.take(k), start);
            &&& start <= c
            &&& forall|l: int| 0 <= l < k ==> end_of(#[trigger] r[l]) <= c
            &&& c == start || exists|l: int| 0 <= l < k && end_of(#[trigger] r[l]) == c
        }),
    decreases k,
{
    if k > 0 {
        lemma_covered(objects, r, start, k - 1);
        assert(objects.take(k).drop_last() =~= objects.take(k - 1));
        assert(objects.take(k).last() == objects[k - 1]);
        assert(same_place(objects[k - 1], r[k - 1]));
        let c = covered(objects.take(k - 1), start);
        let d = covered(objects.take(k), start);
        if d == c && c != start {
            let l = choose|l: int| 0 <= l < k - 1 && end_of(#[trigger] r[l]) == c;
            assert(end_of(r[l]) == d);
        }
    }
}

/// In front of the first gap there is no hole.
proof fn lemma_no_holes(
    objects: Seq<ObjectView>,
    r: Seq<MoveView>,
    start: int,
    i: int,
    cursor: int,
    k: int,
)
    requires
        paired(objects, r),
        covered_to(r, start, i, cursor),
        0 <= k <= i <= r.len(),
    ensures
        holes_in(objects.take(k), start).len() == 0,
        k == i ==> covered(objects.take(k), start) == cursor,
    decreases k,
{
    lemma_covered(objects, r, start, k);
    if k > 0 {
        lemma_no_holes(objects, r, start, i, cursor, k - 1);
        lemma_covered(objects, r, start, k - 1);
        assert(objects.take(k).drop_last() =~= objects.take(k - 1));
        assert(objects.take(k).last() == objects[k - 1]);
        assert(same_place(objects[k - 1], r[k - 1]));
        let j = k - 1;
        if r[j].offset > start {
            let l = choose|l: int| 0 <= l < j && r[j].offset <= end_of(#[trigger] r[l]);
            assert(end_of(r[l]) <= covered(objects.take(j), start));
        }
    }
    if k == i {
        let c = covered(objects.take(k), start);
        if c != start {
            let l = choose|l: int| 0 <= l < k && end_of(#[trigger] r[l]) == c;
            assert(end_of(r[l]) <= cursor);
        }
        if cursor != start {
            let l = choose|l: int| 0 <= l < i && end_of(#[trigger] r[l]) == cursor;
            assert(end_of(r[l]) <= c);
        }
    }
}

/// The holes in front of the entry `n`, which packing closes.
proof fn lemma_holes_closed(
    objects: Seq<ObjectView>,
    r: Seq<MoveView>,
    start: int,
    i: int,
    cursor: int,
    n: int,
)
    requires
        paired(objects, r),
        covered_to(r, start, i, cursor),
        spread(r, i, cursor),
        i < n <= r.len(),
    ensures
        ({
            let h = holes_in(objects.take(n), start);
            &&& h.len() > 0
            &&& h[0] == hole_between(cursor, r[i].offset)
            &&& covered(objects.take(n), start) == end_of(r[n - 1])
            &&& hole_bytes(h) == end_of(r[n - 1]) - position(r, i, cursor, n)
        }),
    decreases n,
{
    let j = n - 1;
    assert(objects.take(n).drop_last() =~= objects.take(j));
    assert(objects.take(n).last() == objects[j]);
    assert(same_place(objects[j], r[j]));
    let g = holes_in(objects.take(j), start);
    let h = holes_in(objects.take(n), start);
    let c = covered(objects.take(j), start);
    assert(0 < r[j].size);
    if j == i {
        lemma_no_holes(objects, r, start, i, cursor, i);
        assert(g =~= Seq::empty());
        assert(hole_bytes(g) == 0);
        assert(position(r, i, cursor, i) == cursor);
    } else {
        lemma_holes_closed(objects, r, start, i, cursor, j);
        assert(end_of(r[j - 1]) <= r[j].offset);
    }
    assert(position(r, i, cursor, n) == position(r, i, cursor, j) + r[j].size);
    if r[j].offset > c {
        let x = hole_between(c, r[j].offset);
        assert(h == g.push(x));
        assert(h.drop_last() =~= g);
        assert(h.last() == x);
        if g.len() > 0 {
            assert(h[0] == g[0]);
        }
    }
}

/// The entries from `i` on are those from its offset on.
proof fn lemma_number_from(
    objects: Seq<ObjectView>,
    r: Seq<MoveView>,
    start: int,
    i: int,
    cursor: int,
    n: int,
)
    requires
        paired(objects, r),
        covered_to(r, start, i, cursor),
        spread(r, i, cursor),
        0 <= n <= r.len(),
    ensures
        number_from(objects.take(n), r[i].offset) == if n > i {
            n - i
        } else {
            0
        },
    decreases n,
{
    if n > 0 {
        let j = n - 1;
        lemma_number_from(objects, r, start, i, cursor, j);
        assert(objects.take(n).drop_last() =~= objects.take(j));
        assert(objects.take(n).last() == objects[j]);
        assert(same_place(objects[j], r[j]));
        assert(0 < r[j].size);
        if j < i {
            assert(end_of(r[j]) <= cursor);
        } else if j > i {
            assert(end_of(r[i]) <= r[j].offset);
            assert(0 < r[i].size);
        }
    }
}

/// What packing does about the holes of an area.
pub open spec fn report_fits(
    s: AreaState,
    packed: (AreaState, Result<CompactView, AreaFault>),
    objects: Seq<ObjectView>,
    holes: Seq<HoleView>,
) -> bool {
    let (t, r) = packed;
    &&& t.used == s.used - hole_bytes(holes)
    &&& match r {
        Err(_) => false,
        Ok(CompactView::NoHoles) => holes.len() == 0 && t == s,
        Ok(CompactView::AdjustedBytesUsed { old: was, new }) => {
            &&& was == s.used
            &&& new == t.used
            &&& holes.len() == 1
            &&& holes[0].end_offset == s.used
            &&& t.data == s.data
        },
        Ok(CompactView::MovedObjects { old: was, new, objects_moved }) => {
            &&& was == s.used
            &&& new == t.used
            &&& holes.len() > 0
            &&& holes[0].end_offset < s.used
            &&& objects_moved == number_from(objects, holes[0].end_offset)
            &&& forall|b: int| new <= b < was ==> #[trigger] t.data[b] == 0
        },
    }
}

/// All the holes that packing closes from the entry `i` on.
proof fn lemma_all_closed(
    objects: Seq<ObjectView>,
    r: Seq<MoveView>,
    start: int,
    i: int,
    cursor: int,
    used: int,
)
    requires
        paired(objects, r),
        covered_to(r, start, i, cursor),
        spread(r, i, cursor),
        end_of(r[r.len() - 1]) <= used,
    ensures
        ({
            let h = all_holes(objects, start, used);
            &&& h.len() > 0
            &&& h[0].end_offset == r[i].offset
            &&& r[i].offset < used
            &&& hole_bytes(h) == used - position(r, i, cursor, r.len() as int)
            &&& number_from(objects, h[0].end_offset) == r.len() - i
        }),
{
    let n = r.len() as int;
    assert(objects.take(n) =~= objects);
    lemma_holes_closed(objects, r, start, i, cursor, n);
    lemma_number_from(objects, r, start, i, cursor, n);
    assert(0 < r[i].size);
    if i < n - 1 {
        assert(end_of(r[i]) <= r[n - 1].offset);
        assert(0 < r[n - 1].size);
    }
    let h = holes_in(objects, start);
    let c = covered(objects, start);
    let all = all_holes(objects, start, used);
    if used > c {
        let x = hole_between(c, used);
        assert(all == h.push(x));
        assert(all.drop_last() =~= h);
        assert(all.last() == x);
        assert(all[0] == h[0]);
    }
}

/// The holes of an area without a gap in front of the last object.
proof fn lemma_none_closed(
    objects: Seq<ObjectView>,
    r: Seq<MoveView>,
    start: int,
    cursor: int,
    used: int,
)
    requires
        paired(objects, r),
        covered_to(r, start, r.len() as int, cursor),
    ensures
        ({
            let h = all_holes(objects, start, used);
            if used > cursor {
                h.len() == 1 && h[0].end_offset == used && hole_bytes(h) == used - cursor
            } else {
                h.len() == 0 && hole_bytes(h) == 0
            }
        }),
{
    let n = r.len() as int;
    assert(objects.take(n) =~= objects);
    lemma_no_holes(objects, r, start, n, cursor, n);
    let h = holes_in(objects, start);
    assert(h =~= Seq::empty());
    assert(hole_bytes(h) == 0);
    let all = all_holes(objects, start, used);
    if used > cursor {
        let x = hole_between(cursor, used);
        assert(all == h.push(x));
        assert(all.drop_last() =~= h);
        assert(all.last() == x);
    }
}

/// What closing the gaps leaves behind the last object.
proof fn lemma_gaps_closed(s: AreaState, r: Seq<MoveView>, i: int, cursor: int, end: int)
    requires
        close_gaps(s, r, i, cursor).1 is Ok,
        pack(r, i, cursor, Map::empty()).1 == end,
        0 <= end <= s.used <= u32::MAX,
    ensures
        ({
            let (t, v) = close_gaps(s, r, i, cursor);
            &&& t.used == end
            &&& v == Ok::<CompactView, AreaFault>(
                CompactView::MovedObjects { old: s.used, new: end, objects_moved: r.len() - i },
            )
            &&& forall|b: int| end <= b < s.used ==> #[trigger] t.data[b] == 0
        }),
{
    assert(wrap(s.used - end) == s.used - end);
}

/// Closing the gaps of a well-formed area.
proof fn lemma_closed_report(s: AreaState, g: Layout, i: int, cursor: int)
    requires
        describes(g, s),
        ({
            let (r, dirty) = gather(s)->Ok_0;
            &&& covered_to(r, first_allocation(dirty), i, cursor)
            &&& 0 <= i < r.len()
            &&& cursor < r[i].offset
        }),
    ensures
        ({
            let r = gather(s)->Ok_0.0;
            let end = position(r, i, cursor, r.len() as int);
            &&& spread(r, i, cursor)
            &&& end_of(r[r.len() - 1]) <= s.used
            &&& close_gaps(s, r, i, cursor).1 is Ok
            &&& pack(r, i, cursor, Map::empty()).1 == end
            &&& 0 <= end <= s.used <= u32::MAX
        }),
{
    lemma_plan_spread(s, g, i, cursor);
    let r = gather(s)->Ok_0.0;
    let n = r.len() as int;
    lemma_plan_entry(s, g, i, cursor, n - 1);
    assert(close_gaps(s, r, i, cursor).1 is Ok) by {
        lemma_closed(s, g, i, cursor);
    }
    assert(pack(r, i, cursor, Map::empty()).1 == position(r, i, cursor, n)) by {
        lemma_pack(r, i, cursor, i, Map::empty());
    }
    lemma_position(r, i, cursor, n);
}

/// Nothing reaches behind the mark.
proof fn lemma_cursor_in_use(s: AreaState, g: Layout, r: Seq<MoveView>, dirty: bool, cursor: int)
    requires
        describes(g, s),
        all_objects(g, r, dirty),
        dirty ==> s.used >= 112,
        covered_to(r, first_allocation(dirty), r.len() as int, cursor),
    ensures
        cursor <= s.used,
{
    lemma_node(s, g, 0);
    if cursor != first_allocation(dirty) {
        let j = choose|j: int| 0 <= j < r.len() && end_of(#[trigger] r[j]) == cursor;
        assert(r.contains(r[j]));
        if !(dirty && r[j] == dirty_move()) {
            let w = choose|w: Owner| #[trigger] live(g, w) && r[j] == object_of(g, w);
            lemma_live(s, g, w);
        }
    }
}

/// What packing does when it finds no gap, and when it finds one.
pub proof fn lemma_packed(s: AreaState)
    requires
        gather(s) is Ok,
    ensures
        ({
            let (r, dirty) = gather(s)->Ok_0;
            match first_gap(r, 0, first_allocation(dirty)) {
                (None, cursor) => compact(s) == if cursor < s.used {
                    (
                        AreaState { used: cursor, data: s.data },
                        Ok::<CompactView, AreaFault>(
                            CompactView::AdjustedBytesUsed { old: s.used, new: cursor },
                        ),
                    )
                } else {
                    (s, Ok::<CompactView, AreaFault>(CompactView::NoHoles))
                },
                (Some(i), cursor) => compact(s) == close_gaps(s, r, i, cursor),
            }
        }),
{
}

/// The report where objects were moved.
proof fn lemma_moved_report(
    s: AreaState,
    objects: Seq<ObjectView>,
    r: Seq<MoveView>,
    start: int,
    i: int,
    cursor: int,
)
    requires
        paired(objects, r),
        covered_to(r, start, i, cursor),
        spread(r, i, cursor),
        end_of(r[r.len() - 1]) <= s.used,
        close_gaps(s, r, i, cursor).1 is Ok,
        pack(r, i, cursor, Map::empty()).1 == position(r, i, cursor, r.len() as int),
        0 <= position(r, i, cursor, r.len() as int) <= s.used <= u32::MAX,
    ensures
        report_fits(
            s,
            close_gaps(s, r, i, cursor),
            objects,
            all_holes(objects, start, s.used),
        ),
{
    lemma_gaps_closed(s, r, i, cursor, position(r, i, cursor, r.len() as int));
    lemma_all_closed(objects, r, start, i, cursor, s.used);
}

/// The objects and the holes of a scan, and what packing finds.
proof fn lemma_scan_report(s: AreaState, g: Layout)
    requires
        describes(g, s),
        scan_area(s) is Ok,
    ensures
        ({
            let (r, dirty) = gather(s)->Ok_0;
            let start = first_allocation(dirty);
            let objects = scan_area(s)->Ok_0.objects;
            let (found, cursor) = first_gap(r, 0, start);
            &&& gather(s) is Ok
            &&& paired(objects, r)
            &&& scan_area(s)->Ok_0.holes == all_holes(objects, start, s.used)
            &&& dirty ==> s.used >= 112
            &&& all_objects(g, r, dirty)
            &&& match found {
                Some(i) => 0 <= i < r.len() && covered_to(r, start, i, cursor) && r[i].offset
                    > cursor,
                None => covered_to(r, start, r.len() as int, cursor),
            }
        }),
{
    lemma_entries(s, g);
    lemma_scan(s, g);
    lemma_scan_paired(s, g);
    let (r, dirty) = gather(s)->Ok_0;
    lemma_first_gap(r, first_allocation(dirty), 0, first_allocation(dirty));
}

/// Packing takes back the bytes of all holes, and no others. It reports that
/// there are none where a scan finds none; a lowered mark where the only hole
/// ends at the mark; and else how many objects were moved, which are those
/// behind the first hole, and leaves zeros where the last of them stood.
pub proof fn law_compact_report(s: AreaState)
    requires
        well_formed(s),
        scan_area(s) is Ok,
    ensures
        report_fits(s, compact(s), scan_area(s)->Ok_0.objects, scan_area(s)->Ok_0.holes),
{
    let g = choose|g: Layout| #[trigger] describes(g, s);
    lemma_scan_report(s, g);
    lemma_packed(s);
    let (r, dirty) = gather(s)->Ok_0;
    let start = first_allocation(dirty);
    let objects = scan_area(s)->Ok_0.objects;
    let (found, cursor) = first_gap(r, 0, start);
    match found {
        Some(i) => {
            lemma_closed_report(s, g, i, cursor);
            lemma_moved_report(s, objects, r, start, i, cursor);
        },
        None => {
            lemma_none_closed(objects, r, start, cursor, s.used);
            lemma_cursor_in_use(s, g, r, dirty, cursor);
        },
    }
}

} // verus!
