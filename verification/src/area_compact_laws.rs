//! What packing does to a well-formed property area.
use crate::area_compact::{
    close_gaps, compact, first_gap, gather, move_objects, pack, wrap, CompactView, MoveView,
};
use crate::area_growth::{lemma_node_same, lemma_rec_same, same_values};
use crate::area_layout::{
    describes, lemma_lookup, lemma_node, long_distance, node_fits, rec_bytes_at, rec_fits,
    trie_fits, content_at, well_formed, Layout, Owner,
};
use crate::area_moving::rec_drafted;
use crate::area_packing::{
    all_objects, dirty_move, lemma_gather, lemma_live, lemma_object_once, lemma_objects_apart, live,
    object_of,
};
use crate::area_relocation::{
    covered_to, end_of, entries_stand, front_stays, in_words, lemma_first_gap, lemma_move_all,
    lemma_pack, lemma_position, objects_stand, on_course, spread, stands, stands_for, Plan,
};
use crate::area_scan::{dirty_backup, first_allocation};
use crate::area_state::{key_ok, lookup_content, lookup_value, AreaFault, AreaState};
use crate::bytes::zero;
use vstd::prelude::*;

verus! {

/// What the entries of an area look like.
pub proof fn lemma_entries(s: AreaState, g: Layout)
    requires
        describes(g, s),
    ensures
        ({
            let (r, dirty) = gather(s)->Ok_0;
            &&& gather(s) is Ok
            &&& all_objects(g, r, dirty)
            &&& in_words(r)
            &&& first_allocation(dirty) >= 20
        }),
{
    lemma_gather(s, g);
    let (r, dirty) = gather(s)->Ok_0;
    assert forall|j: int| 0 <= j < r.len() implies 0 <= (#[trigger] r[j]).offset && 0 < r[j].size
        && end_of(r[j]) <= u32::MAX by {
        assert(r.contains(r[j]));
        if !(dirty && r[j] == dirty_move()) {
            let w = choose|w: Owner| #[trigger] live(g, w) && r[j] == object_of(g, w);
            lemma_live(s, g, w);
        }
    }
}

/// How the first gap is closed.
pub open spec fn plan_of(s: AreaState, g: Layout, i: int, cursor: int) -> Plan {
    let r = gather(s)->Ok_0.0;
    Plan { s, g, r, i, cursor, m: pack(r, i, cursor, Map::empty()).0 }
}

/// An entry behind the first gap stands for an object.
pub proof fn lemma_plan_entry(s: AreaState, g: Layout, i: int, cursor: int, j: int)
    requires
        describes(g, s),
        ({
            let (r, dirty) = gather(s)->Ok_0;
            &&& first_allocation(dirty) <= cursor
            &&& 0 <= i <= j < r.len()
            &&& cursor < r[i].offset
        }),
    ensures
        plan_of(s, g, i, cursor).is_object(j),
        end_of(gather(s)->Ok_0.0[j]) <= s.used,
{
    lemma_entries(s, g);
    let (r, dirty) = gather(s)->Ok_0;
    let pl = plan_of(s, g, i, cursor);
    assert(r.contains(r[j]));
    assert(r[i].offset <= r[j].offset);
    assert(r[j] != dirty_move());
    let w = choose|w: Owner| #[trigger] live(g, w) && r[j] == object_of(g, w);
    lemma_live(s, g, pl.who(j));
}

/// The entries behind the first gap do not overlap.
pub proof fn lemma_plan_spread(s: AreaState, g: Layout, i: int, cursor: int)
    requires
        describes(g, s),
        ({
            let (r, dirty) = gather(s)->Ok_0;
            &&& first_allocation(dirty) <= cursor
            &&& 0 <= i < r.len()
            &&& cursor < r[i].offset
        }),
    ensures
        spread(gather(s)->Ok_0.0, i, cursor),
{
    lemma_entries(s, g);
    let (r, dirty) = gather(s)->Ok_0;
    let pl = plan_of(s, g, i, cursor);
    assert forall|j: int, l: int| i <= j < l < r.len() implies end_of(#[trigger] r[j])
        <= (#[trigger] r[l]).offset by {
        lemma_plan_entry(s, g, i, cursor, j);
        lemma_plan_entry(s, g, i, cursor, l);
        assert(r[j] != r[l]);
        lemma_objects_apart(s, g, pl.who(j), pl.who(l));
        lemma_live(s, g, pl.who(j));
        lemma_live(s, g, pl.who(l));
        assert(r[j].offset <= r[l].offset);
    }
}

/// Before the first step everything is where it was.
proof fn lemma_plan_start(pl: Plan, o: int)
    requires
        spread(pl.r, pl.i, pl.cursor),
        pl.m == pack(pl.r, pl.i, pl.cursor, Map::empty()).0,
    ensures
        pl.now(pl.i, o) == o,
{
    let r = pl.r;
    lemma_pack(r, pl.i, pl.cursor, pl.i, Map::empty());
    if o < r[pl.i].offset && pl.m.dom().contains(o) {
        let j = choose|j: int| pl.i <= j < r.len() && (#[trigger] r[j]).offset == o;
        if j > pl.i {
            assert(end_of(r[pl.i]) <= r[j].offset);
            assert(0 < r[pl.i].size);
        }
    }
}

/// The stored distances to long values.
pub open spec fn distances(g: Layout) -> Map<int, int> {
    Map::new(|p: int| g.recs.dom().contains(p), |p: int| long_distance(p, g.recs[p]))
}

/// The plan is good.
proof fn lemma_plan_good(s: AreaState, g: Layout, i: int, cursor: int)
    requires
        describes(g, s),
        ({
            let (r, dirty) = gather(s)->Ok_0;
            &&& covered_to(r, first_allocation(dirty), i, cursor)
            &&& 0 <= i < r.len()
            &&& cursor < r[i].offset
        }),
    ensures
        plan_of(s, g, i, cursor).good(),
        front_stays(plan_of(s, g, i, cursor)),
{
    lemma_entries(s, g);
    let (r, dirty) = gather(s)->Ok_0;
    let pl = plan_of(s, g, i, cursor);
    lemma_plan_spread(s, g, i, cursor);
    assert forall|j: int| i <= j < r.len() implies #[trigger] pl.is_object(j) by {
        lemma_plan_entry(s, g, i, cursor, j);
    }
    lemma_plan_entry(s, g, i, cursor, r.len() - 1);
    assert forall|w: Owner| #[trigger] live(g, w) implies end_of(object_of(g, w)) <= cursor
        || exists|j: int| i <= j < r.len() && w == #[trigger] pl.who(j) by {
        assert(r.contains(object_of(g, w)));
        let j = choose|j: int| 0 <= j < r.len() && r[j] == object_of(g, w);
        if j >= i {
            assert(pl.is_object(j));
            lemma_object_once(s, g, w, pl.who(j));
        } else {
            assert(end_of(r[j]) <= cursor);
        }
    }
    assert forall|j: int| 0 <= j < i implies (#[trigger] r[j]).offset <= cursor by {
        assert(end_of(r[j]) <= cursor);
        assert(0 < r[j].size);
    }
}

/// Before the first step everything is on course.
proof fn lemma_plan_on_course(s: AreaState, g: Layout, i: int, cursor: int)
    requires
        describes(g, s),
        ({
            let (r, dirty) = gather(s)->Ok_0;
            &&& covered_to(r, first_allocation(dirty), i, cursor)
            &&& 0 <= i < r.len()
            &&& cursor < r[i].offset
        }),
    ensures
        on_course(plan_of(s, g, i, cursor), i, s, g, distances(g)),
{
    lemma_entries(s, g);
    lemma_plan_good(s, g, i, cursor);
    let (r, dirty) = gather(s)->Ok_0;
    let pl = plan_of(s, g, i, cursor);
    let rel = distances(g);
    assert forall|o: int| #[trigger] pl.now(i, o) == o by {
        lemma_plan_start(pl, o);
    }
    assert forall|w: Owner| #[trigger] pl.called(i, w) == w by {
        match w {
            Owner::Node(o) => {
                assert(pl.now(i, o) == o);
            },
            Owner::Record(o) => {
                assert(pl.now(i, o) == o);
            },
            Owner::Long(o) => {
                assert(pl.now(i, o) == o);
            },
        }
    }
    assert(pl.midway(i, s, g, rel)) by {
        assert forall|p: int| g.recs.dom().contains(p) implies #[trigger] rec_drafted(s, g, rel, p) by {
            assert(rec_fits(s, g, p));
        }
        assert forall|j: int| i <= j < r.len() implies #[trigger] pl.waits(i, g, j) by {
            assert(pl.is_object(j));
            let w = pl.who(j);
            lemma_live(s, g, w);
            assert(pl.called(i, w) == w);
            assert(pl.now(i, (r[j].referer->0).0) == (r[j].referer->0).0);
        }
        assert forall|w: Owner| #[trigger] live(g, w) implies end_of(object_of(g, w)) <= pl.pos(i)
            || pl.pending(i, w) by {
            if end_of(object_of(g, w)) > cursor {
                let j = choose|j: int| i <= j < r.len() && w == #[trigger] pl.who(j);
                assert(w == pl.called(i, pl.who(j)));
            }
        }
        assert(same_values(g, g));
    }
    assert(entries_stand(pl, i, g)) by {
        reveal(entries_stand);
        assert forall|j: int| 0 <= j < r.len() && #[trigger] stands_for(pl, j) implies exists|
            w: Owner,
        | #[trigger]
            stands(pl, i, g, w, j) by {
            let w = choose|w: Owner| #[trigger] live(g, w) && r[j] == object_of(g, w);
            assert(stands(pl, i, g, w, j));
        }
    }
    assert(objects_stand(pl, i, g)) by {
        reveal(objects_stand);
        assert forall|w: Owner| #[trigger] live(g, w) implies exists|j: int|
            0 <= j < r.len() && stands_for(pl, j) && #[trigger] stands(pl, i, g, w, j) by {
            assert(r.contains(object_of(g, w)));
            let j = choose|j: int| 0 <= j < r.len() && r[j] == object_of(g, w);
            assert(stands_for(pl, j));
            assert(stands(pl, i, g, w, j));
        }
    }
    assert(pl.now(i, g.nodes[0].kids) == g.nodes[0].kids);
    reveal(on_course);
}

/// A lower fill mark, and zeros behind it, keep an area well formed where no
/// object reaches behind the mark.
proof fn lemma_lower_mark(s: AreaState, g: Layout, t: AreaState)
    requires
        trie_fits(g, s),
        forall|p: int| g.recs.dom().contains(p) ==> #[trigger] rec_fits(s, g, p),
        20 <= t.used <= t.data.len() == s.data.len(),
        forall|w: Owner| #[trigger] live(g, w) ==> end_of(object_of(g, w)) <= t.used,
        forall|b: int| 0 <= b < t.used ==> #[trigger] t.data[b] == s.data[b],
    ensures
        describes(g, t),
{
    assert forall|o: int| g.nodes.dom().contains(o) implies #[trigger] node_fits(t, g, o) by {
        assert(node_fits(s, g, o));
        lemma_node(s, g, o);
        assert(live(g, Owner::Node(o)));
        lemma_node_same(s.data, t.data, o, g.nodes[o]);
    }
    assert forall|p: int| g.recs.dom().contains(p) implies #[trigger] rec_fits(t, g, p) by {
        assert(rec_fits(s, g, p));
        lemma_live(s, g, Owner::Record(p));
        assert(live(g, Owner::Record(p)));
        if g.recs[p].long is Some {
            lemma_live(s, g, Owner::Long(p));
            assert(live(g, Owner::Long(p)));
        }
        lemma_rec_same(s.data, t.data, p, g.recs[p]);
    }
}

/// After the last step the layout describes the area.
pub proof fn lemma_arrived(pl: Plan, t: AreaState, h: Layout, rel: Map<int, int>)
    requires
        on_course(pl, pl.r.len() as int, t, h, rel),
    ensures
        describes(h, t),
        forall|w: Owner| #[trigger]
            live(h, w) ==> end_of(object_of(h, w)) <= pl.pos(pl.r.len() as int),
        same_values(pl.g, h),
        t.used == pl.s.used,
        t.data.len() == pl.s.data.len(),
        pl.cursor <= pl.pos(pl.r.len() as int) <= pl.s.used,
{
    reveal(on_course);
    let n = pl.r.len() as int;
    assert forall|w: Owner| !(#[trigger] pl.pending(n, w)) by {}
    assert forall|p: int| h.recs.dom().contains(p) implies #[trigger] rec_fits(t, h, p) by {
        assert(rec_drafted(t, h, rel, p));
        reveal(rec_bytes_at);
    }
    lemma_position(pl.r, pl.i, pl.cursor, n);
}

/// What closing the gaps leaves, where all moves succeed.
proof fn lemma_close_gaps(s: AreaState, r: Seq<MoveView>, i: int, cursor: int, d: Seq<u8>, end: int)
    requires
        pack(r, i, cursor, Map::empty()).1 == end,
        move_objects(s.data, r, i, pack(r, i, cursor, Map::empty()).0).0 == d,
        move_objects(s.data, r, i, pack(r, i, cursor, Map::empty()).0).1 is Ok,
        0 <= end <= s.used <= d.len() <= u32::MAX,
    ensures
        close_gaps(s, r, i, cursor).0 == (AreaState {
            used: end,
            data: zero(d, end, s.used - end),
        }),
        close_gaps(s, r, i, cursor).1 is Ok,
{
    assert(wrap(s.used - end) == s.used - end);
}

/// Closing the gaps from the first one on.
pub proof fn lemma_closed(s: AreaState, g: Layout, i: int, cursor: int) -> (last: (
    Layout,
    Map<int, int>,
))
    requires
        describes(g, s),
        ({
            let (r, dirty) = gather(s)->Ok_0;
            &&& covered_to(r, first_allocation(dirty), i, cursor)
            &&& 0 <= i < r.len()
            &&& cursor < r[i].offset
        }),
    ensures
        ({
            let r = gather(s)->Ok_0.0;
            let pl = plan_of(s, g, i, cursor);
            let (t, res) = close_gaps(s, r, i, cursor);
            let d = move_objects(s.data, r, i, pl.m).0;
            &&& res is Ok
            &&& describes(last.0, t)
            &&& same_values(g, last.0)
            &&& t.used == pl.pos(r.len() as int)
            &&& t.used <= s.used
            &&& t.data.len() == s.data.len()
            &&& on_course(pl, r.len() as int, s.with(d), last.0, last.1)
        }),
{
    let r = gather(s)->Ok_0.0;
    let pl = plan_of(s, g, i, cursor);
    lemma_plan_on_course(s, g, i, cursor);
    let (h, rel) = lemma_move_all(pl, i, s, g, distances(g));
    let d = move_objects(s.data, r, i, pl.m).0;
    lemma_arrived(pl, s.with(d), h, rel);
    let end = pl.pos(r.len() as int);
    assert(pack(r, i, cursor, Map::empty()).1 == end) by {
        lemma_plan_spread(s, g, i, cursor);
        lemma_pack(r, i, cursor, i, Map::empty());
    }
    lemma_close_gaps(s, r, i, cursor, d, end);
    let t = close_gaps(s, r, i, cursor).0;
    lemma_lower_mark(s.with(d), h, t);
    (h, rel)
}

/// Lowering the fill mark to the end of the last object.
proof fn lemma_trimmed(s: AreaState, g: Layout, cursor: int)
    requires
        describes(g, s),
        ({
            let (r, dirty) = gather(s)->Ok_0;
            covered_to(r, first_allocation(dirty), r.len() as int, cursor)
        }),
        cursor < s.used,
    ensures
        describes(g, AreaState { used: cursor, data: s.data }),
        dirty_backup(AreaState { used: cursor, data: s.data }) == dirty_backup(s),
{
    lemma_entries(s, g);
    lemma_gather(s, g);
    let (r, dirty) = gather(s)->Ok_0;
    let t = AreaState { used: cursor, data: s.data };
    assert forall|w: Owner| #[trigger] live(g, w) implies end_of(object_of(g, w)) <= cursor by {
        assert(r.contains(object_of(g, w)));
        let j = choose|j: int| 0 <= j < r.len() && r[j] == object_of(g, w);
        assert(end_of(r[j]) <= cursor);
    }
    lemma_lower_mark(s, g, t);
    lemma_gather(t, g);
    lemma_node(s, g, 0);
    if g.nodes[0].kids == 0 && cursor != 20 {
        if !dirty {
            let j = choose|j: int| 0 <= j < r.len() && end_of(#[trigger] r[j]) == cursor;
            assert(r.contains(r[j]));
            let w = choose|w: Owner| #[trigger] live(g, w) && r[j] == object_of(g, w);
            lemma_only_root(s, g, w);
        }
    }
}

/// Packing a well-formed area.
pub proof fn lemma_compact(s: AreaState, g: Layout) -> (h: Layout)
    requires
        describes(g, s),
    ensures
        compact(s).1 is Ok,
        describes(h, compact(s).0),
        same_values(g, h),
        compact(s).0.used <= s.used,
        compact(s).0.data.len() == s.data.len(),
{
    lemma_entries(s, g);
    let (r, dirty) = gather(s)->Ok_0;
    let start = first_allocation(dirty);
    lemma_first_gap(r, start, 0, start);
    let (found, cursor) = first_gap(r, 0, start);
    match found {
        None => {
            if cursor < s.used {
                lemma_trimmed(s, g, cursor);
            }
            assert(same_values(g, g));
            g
        },
        Some(i) => lemma_closed(s, g, i, cursor).0,
    }
}

/// Packing never fails on a well-formed area, keeps it well formed, takes no
/// room, and changes nothing that is stored for a property: its value, its
/// layout and its serial.
pub proof fn law_compact(s: AreaState, key: Seq<u8>)
    requires
        well_formed(s),
        key_ok(key),
    ensures
        compact(s).1 is Ok,
        well_formed(compact(s).0),
        lookup_value(compact(s).0.data, key) == lookup_value(s.data, key),
        lookup_content(compact(s).0.data, key) == lookup_content(s.data, key),
        compact(s).0.used <= s.used,
{
    let g = choose|g: Layout| #[trigger] describes(g, s);
    let h = lemma_compact(s, g);
    lemma_lookup(s, g, key);
    lemma_lookup(compact(s).0, h, key);
    assert(content_at(h, crate::area_state::segments(key)) == content_at(
        g,
        crate::area_state::segments(key),
    ));
}

/// Every object has another one, or the start of the allocations, right in
/// front of it.
spec fn gapless(h: Layout, start: int) -> bool {
    forall|w: Owner| #[trigger]
        live(h, w) ==> object_of(h, w).offset <= start || exists|v: Owner| #[trigger]
            live(h, v) && object_of(h, v).offset < object_of(h, w).offset <= end_of(object_of(h, v))
}

/// Without gaps, packing finds nothing to do.
proof fn lemma_gapless(t: AreaState, h: Layout, dirty: bool)
    requires
        describes(h, t),
        dirty_backup(t) == Ok::<bool, AreaFault>(dirty),
        gapless(h, first_allocation(dirty)),
        t.used <= first_allocation(dirty) || exists|w: Owner| #[trigger]
            live(h, w) && end_of(object_of(h, w)) >= t.used,
    ensures
        compact(t) == (t, Ok::<CompactView, AreaFault>(CompactView::NoHoles)),
{
    lemma_entries(t, h);
    lemma_gather(t, h);
    let r = gather(t)->Ok_0.0;
    let start = first_allocation(dirty);
    lemma_first_gap(r, start, 0, start);
    let (found, c) = first_gap(r, 0, start);
    if let Some(j) = found {
        assert(r.contains(r[j]));
        assert(r[j] != dirty_move());
        let w = choose|w: Owner| #[trigger] live(h, w) && r[j] == object_of(h, w);
        let v = choose|v: Owner| #[trigger]
            live(h, v) && object_of(h, v).offset < object_of(h, w).offset <= end_of(
                object_of(h, v),
            );
        assert(r.contains(object_of(h, v)));
        let l = choose|l: int| 0 <= l < r.len() && r[l] == object_of(h, v);
        if l >= j {
            assert(r[j].offset <= r[l].offset);
        }
        assert(end_of(r[l]) <= c);
    } else {
        if t.used > start {
            let w = choose|w: Owner| #[trigger] live(h, w) && end_of(object_of(h, w)) >= t.used;
            assert(r.contains(object_of(h, w)));
            let l = choose|l: int| 0 <= l < r.len() && r[l] == object_of(h, w);
            assert(end_of(r[l]) <= c);
        }
    }
}

/// The object of an entry, after all were moved.
proof fn lemma_packed_object(pl: Plan, t: AreaState, h: Layout, rel: Map<int, int>, j: int) -> (w:
    Owner)
    requires
        on_course(pl, pl.r.len() as int, t, h, rel),
        0 <= j < pl.r.len(),
        stands_for(pl, j),
    ensures
        live(h, w),
        object_of(h, w).size == pl.r[j].size,
        object_of(h, w).offset == if j < pl.i {
            pl.r[j].offset
        } else {
            pl.pos(j)
        },
{
    reveal(on_course);
    reveal(entries_stand);
    choose|w: Owner| #[trigger] stands(pl, pl.r.len() as int, h, w, j)
}

/// After all entries were moved there is no gap.
proof fn lemma_packed_gapless(
    s: AreaState,
    g: Layout,
    i: int,
    cursor: int,
    t: AreaState,
    h: Layout,
    rel: Map<int, int>,
    w: Owner,
)
    requires
        describes(g, s),
        ({
            let (r, dirty) = gather(s)->Ok_0;
            &&& covered_to(r, first_allocation(dirty), i, cursor)
            &&& 0 <= i < r.len()
            &&& cursor < r[i].offset
        }),
        on_course(
            plan_of(s, g, i, cursor),
            gather(s)->Ok_0.0.len() as int,
            t,
            h,
            rel,
        ),
        live(h, w),
        object_of(h, w).offset > first_allocation(gather(s)->Ok_0.1),
    ensures
        exists|v: Owner| #[trigger]
            live(h, v) && object_of(h, v).offset < object_of(h, w).offset <= end_of(
                object_of(h, v),
            ),
{
    let (r, dirty) = gather(s)->Ok_0;
    let start = first_allocation(dirty);
    let pl = plan_of(s, g, i, cursor);
    lemma_entries(s, g);
    lemma_plan_good(s, g, i, cursor);
    let n = r.len() as int;
    assert(objects_stand(pl, n, h)) by {
        reveal(on_course);
    }
    reveal(objects_stand);
    let j = choose|j: int| 0 <= j < r.len() && stands_for(pl, j) && #[trigger] stands(pl, n, h, w, j);
    if j > i {
        lemma_plan_entry(s, g, i, cursor, j - 1);
        let v = lemma_packed_object(pl, t, h, rel, j - 1);
        assert(0 < r[j - 1].size);
        assert(live(h, v));
    } else {
        // An entry in front of the first gap that reaches here.
        let l = if j == i {
            choose|l: int| 0 <= l < i && end_of(#[trigger] r[l]) == cursor
        } else {
            choose|l: int| 0 <= l < j && r[j].offset <= end_of(#[trigger] r[l])
        };
        if j == i {
            assert(pl.pos(i) == cursor);
            assert(cursor > start);
        }
        assert(0 <= l < i && l < n);
        assert(r.contains(r[l]));
        assert(r[l] != dirty_move()) by {
            if r[l] == dirty_move() && dirty {
                assert(end_of(r[l]) == 112);
            }
            if r[l] == dirty_move() && !dirty {
                let x = choose|x: Owner| #[trigger] live(g, x) && r[l] == object_of(g, x);
                lemma_live(s, g, x);
            }
        }
        let x = choose|x: Owner| #[trigger] live(g, x) && r[l] == object_of(g, x);
        assert(stands_for(pl, l));
        let v = lemma_packed_object(pl, t, h, rel, l);
        assert(0 < r[l].size);
        assert(r[l].offset < object_of(h, w).offset) by {
            if j < i {
                assert(r[l].offset <= r[j].offset);
                let y = choose|y: Owner| #[trigger] live(g, y) && r[j] == object_of(g, y);
                assert(r[l] != r[j]);
                lemma_objects_apart(s, g, x, y);
                assert(0 < r[j].size);
            }
        }
        assert(live(h, v));
    }
}

/// Packing twice finds nothing to do the second time.
pub proof fn law_compact_twice(s: AreaState)
    requires
        well_formed(s),
    ensures
        compact(compact(s).0) == (
            compact(s).0,
            Ok::<CompactView, AreaFault>(CompactView::NoHoles),
        ),
{
    let g = choose|g: Layout| #[trigger] describes(g, s);
    lemma_entries(s, g);
    lemma_gather(s, g);
    let (r, dirty) = gather(s)->Ok_0;
    let start = first_allocation(dirty);
    lemma_first_gap(r, start, 0, start);
    let (found, cursor) = first_gap(r, 0, start);
    let t = compact(s).0;
    match found {
        None => {
            if cursor < s.used {
                // The data is the same, and so is what is gathered from it.
                lemma_trimmed(s, g, cursor);
                assert(gather(t) == gather(s));
            }
        },
        Some(i) => {
            lemma_closed_twice(s, g, i, cursor);
        },
    }
}

/// After the gaps were closed packing finds nothing to do.
proof fn lemma_closed_twice(s: AreaState, g: Layout, i: int, cursor: int)
    requires
        describes(g, s),
        ({
            let (r, dirty) = gather(s)->Ok_0;
            &&& covered_to(r, first_allocation(dirty), i, cursor)
            &&& 0 <= i < r.len()
            &&& cursor < r[i].offset
        }),
    ensures
        ({
            let t = close_gaps(s, gather(s)->Ok_0.0, i, cursor).0;
            compact(t) == (t, Ok::<CompactView, AreaFault>(CompactView::NoHoles))
        }),
{
    let (r, dirty) = gather(s)->Ok_0;
    let start = first_allocation(dirty);
    let pl = plan_of(s, g, i, cursor);
    let (h, rel) = lemma_closed(s, g, i, cursor);
    let t = close_gaps(s, r, i, cursor).0;
    let d = move_objects(s.data, r, i, pl.m).0;
    let n = r.len() as int;
    assert(gapless(h, start)) by {
        assert forall|w: Owner| #[trigger] live(h, w) implies object_of(h, w).offset <= start
            || exists|v: Owner| #[trigger]
            live(h, v) && object_of(h, v).offset < object_of(h, w).offset <= end_of(
                object_of(h, v),
            ) by {
            if object_of(h, w).offset > start {
                lemma_packed_gapless(s, g, i, cursor, s.with(d), h, rel, w);
            }
        }
    }
    lemma_plan_entry(s, g, i, cursor, n - 1);
    assert(stands_for(pl, n - 1));
    let last = lemma_packed_object(pl, s.with(d), h, rel, n - 1);
    assert(end_of(object_of(h, last)) == pl.pos(n));
    assert(h.nodes[0].kids == pl.now(n, g.nodes[0].kids)) by {
        reveal(on_course);
    }
    lemma_packed_dirty(s, g, i, cursor, t, h);
    assert(live(h, last));
    lemma_gather(s, g);
    lemma_gapless(t, h, dirty);
}

/// The mark is not lowered into the part in front of the allocations.
pub proof fn lemma_packed_mark(s: AreaState, g: Layout)
    requires
        describes(g, s),
    ensures
        gather(s) is Ok,
        dirty_backup(s) == Ok::<bool, AreaFault>(gather(s)->Ok_0.1),
        dirty_backup(compact(s).0) == dirty_backup(s),
        compact(s).0.used >= first_allocation(gather(s)->Ok_0.1) || compact(s).0 == s,
{
    lemma_entries(s, g);
    lemma_gather(s, g);
    let (r, dirty) = gather(s)->Ok_0;
    let start = first_allocation(dirty);
    lemma_first_gap(r, start, 0, start);
    let (found, cursor) = first_gap(r, 0, start);
    match found {
        None => {
            if cursor < s.used {
                lemma_trimmed(s, g, cursor);
            }
        },
        Some(i) => {
            lemma_closed_mark(s, g, i, cursor);
        },
    }
}

/// Where the mark stands after the gaps were closed.
proof fn lemma_closed_mark(s: AreaState, g: Layout, i: int, cursor: int)
    requires
        describes(g, s),
        ({
            let (r, dirty) = gather(s)->Ok_0;
            &&& covered_to(r, first_allocation(dirty), i, cursor)
            &&& 0 <= i < r.len()
            &&& cursor < r[i].offset
        }),
    ensures
        ({
            let t = close_gaps(s, gather(s)->Ok_0.0, i, cursor).0;
            &&& dirty_backup(t) == dirty_backup(s)
            &&& t.used >= cursor
        }),
{
    let r = gather(s)->Ok_0.0;
    let pl = plan_of(s, g, i, cursor);
    let (h, rel) = lemma_closed(s, g, i, cursor);
    let t = close_gaps(s, r, i, cursor).0;
    let d = move_objects(s.data, r, i, pl.m).0;
    assert(h.nodes[0].kids == pl.now(r.len() as int, g.nodes[0].kids)) by {
        reveal(on_course);
    }
    lemma_packed_dirty(s, g, i, cursor, t, h);
    lemma_arrived(pl, s.with(d), h, rel);
}

/// Packing does not change whether there is a dirty-backup area.
proof fn lemma_packed_dirty(s: AreaState, g: Layout, i: int, cursor: int, t: AreaState, h: Layout)
    requires
        describes(g, s),
        describes(h, t),
        ({
            let (r, dirty) = gather(s)->Ok_0;
            &&& covered_to(r, first_allocation(dirty), i, cursor)
            &&& 0 <= i < r.len()
            &&& cursor < r[i].offset
            &&& h.nodes[0].kids == plan_of(s, g, i, cursor).now(r.len() as int, g.nodes[0].kids)
        }),
    ensures
        dirty_backup(t) == dirty_backup(s),
{
    lemma_gather(s, g);
    lemma_gather(t, h);
    let (r, dirty) = gather(s)->Ok_0;
    let pl = plan_of(s, g, i, cursor);
    lemma_plan_good(s, g, i, cursor);
    lemma_plan_spread(s, g, i, cursor);
    lemma_pack(r, i, cursor, i, Map::empty());
    let kids = g.nodes[0].kids;
    lemma_node(s, g, 0);
    if kids == 0 {
        // There is nothing but the root, so nothing can be moved.
        lemma_plan_entry(s, g, i, cursor, i);
        lemma_only_root(s, g, pl.who(i));
    } else if pl.m.dom().contains(kids) {
        let j = choose|j: int| i <= j < r.len() && (#[trigger] r[j]).offset == kids;
        lemma_position(r, i, cursor, j);
        if !dirty {
            if j > i {
                assert(end_of(r[i]) <= r[j].offset);
            }
        }
    }
}

/// An area whose root has no children holds nothing but the root.
pub proof fn lemma_only_root(s: AreaState, g: Layout, w: Owner)
    requires
        describes(g, s),
        g.nodes[0].kids == 0,
        live(g, w),
    ensures
        w == Owner::Node(0),
{
    let o = match w {
        Owner::Node(o) => o,
        Owner::Record(p) => g.recs[p].node,
        Owner::Long(p) => g.recs[p].node,
    };
    if !(w is Node) {
        let p = match w {
            Owner::Node(o) => o,
            Owner::Record(p) => p,
            Owner::Long(p) => p,
        };
        assert(rec_fits(s, g, p));
    }
    lemma_node(s, g, 0);
    if o != 0 {
        crate::area_pruning::lemma_below_root(s, g, o);
        let k = crate::area_pruning::lemma_below_split(s, g, o, 0);
    }
}

} // verus!
