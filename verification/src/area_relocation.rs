//! The objects of a well-formed property area keep their meaning while they are
//! moved one after the other.
use crate::area_compact::{
    copy_object, first_gap, move_objects, moved, pack, patch_reference, wrap, MoveView,
};
use crate::area_growth::same_values;
use crate::area_layout::{
    describes, lemma_node, long_distance, long_size, name_of, node_size, rec_bytes_at, rec_fits,
    rec_size, content_at, Layout, Owner,
};
use crate::area_moving::{
    after_long_move, after_node_move, after_rec_move, apart, can_move_long, can_move_node,
    can_move_rec, clear_of, drafts, lemma_long_moved, lemma_node_moved, lemma_rec_moved,
    long_moved, node_moved, rec_drafted, rec_moved, shifted,
};
use crate::area_packing::{lemma_live, lemma_objects_apart, live, object_of};
use crate::area_state::{AreaFault, AreaState};
use crate::bytes::put_u32;
use vstd::prelude::*;

verus! {

// ---------------------------------------------------------------------------
// The first gap, and the new places
// ---------------------------------------------------------------------------

/// The end of an entry.
pub open spec fn end_of(m: MoveView) -> int {
    m.offset + m.size
}

/// No entry of `r` reaches behind what a word can hold.
pub open spec fn in_words(r: Seq<MoveView>) -> bool {
    forall|j: int| 0 <= j < r.len() ==> 0 <= (#[trigger] r[j]).offset && 0 < r[j].size && end_of(r[j])
        <= u32::MAX
}

/// The entries before `i` are covered up to `cursor`, from `start` on.
pub open spec fn covered_to(r: Seq<MoveView>, start: int, i: int, cursor: int) -> bool {
    &&& start <= cursor
    &&& forall|j: int| 0 <= j < i ==> end_of(#[trigger] r[j]) <= cursor
    &&& cursor == start || exists|j: int| 0 <= j < i && end_of(#[trigger] r[j]) == cursor
    &&& forall|j: int|
        0 <= j < i ==> (#[trigger] r[j]).offset <= start || exists|l: int|
            0 <= l < j && r[j].offset <= end_of(#[trigger] r[l])
}

/// What the search for the first gap finds.
pub proof fn lemma_first_gap(r: Seq<MoveView>, start: int, i: int, cursor: int)
    requires
        in_words(r),
        0 <= start,
        0 <= i <= r.len(),
        covered_to(r, start, i, cursor),
    ensures
        ({
            let (found, c) = first_gap(r, i, cursor);
            match found {
                Some(j) => i <= j < r.len() && covered_to(r, start, j, c) && r[j].offset > c,
                None => covered_to(r, start, r.len() as int, c),
            }
        }),
    decreases r.len() - i,
{
    if i < r.len() && r[i].offset <= cursor {
        let end = end_of(r[i]);
        assert(wrap(end) == end);
        let c = if end > cursor {
            end
        } else {
            cursor
        };
        assert(covered_to(r, start, i + 1, c)) by {
            if end <= cursor && cursor != start {
                let j = choose|j: int| 0 <= j < i && end_of(#[trigger] r[j]) == cursor;
                assert(end_of(r[j]) == c);
            } else if end > cursor {
                assert(end_of(r[i]) == c);
            }
            assert forall|j: int| 0 <= j < i + 1 implies (#[trigger] r[j]).offset <= start
                || exists|l: int| 0 <= l < j && r[j].offset <= end_of(#[trigger] r[l]) by {
                if j == i && r[i].offset > start {
                    let l = choose|l: int| 0 <= l < i && end_of(#[trigger] r[l]) == cursor;
                    assert(r[i].offset <= end_of(r[l]));
                }
            }
        }
        lemma_first_gap(r, start, i + 1, c);
    }
}

/// Where the entry `k` goes when those from `i` on are packed from `cursor` on.
pub open spec fn position(r: Seq<MoveView>, i: int, cursor: int, k: int) -> int
    decreases k - i,
{
    if k <= i {
        cursor
    } else {
        position(r, i, cursor, k - 1) + r[k - 1].size
    }
}

/// The entries from `i` on do not overlap, and the first one leaves a gap.
pub open spec fn spread(r: Seq<MoveView>, i: int, cursor: int) -> bool {
    &&& in_words(r)
    &&& 0 <= cursor
    &&& 0 <= i < r.len()
    &&& cursor < r[i].offset
    &&& forall|j: int, l: int|
        i <= j < l < r.len() ==> end_of(#[trigger] r[j]) <= (#[trigger] r[l]).offset
}

/// Packing moves every entry towards the front.
pub proof fn lemma_position(r: Seq<MoveView>, i: int, cursor: int, k: int)
    requires
        spread(r, i, cursor),
        i <= k <= r.len(),
    ensures
        cursor <= position(r, i, cursor, k),
        k < r.len() ==> position(r, i, cursor, k) < r[k].offset,
        k > i ==> position(r, i, cursor, k) < end_of(r[k - 1]),
    decreases k - i,
{
    if k > i {
        lemma_position(r, i, cursor, k - 1);
    }
}

/// The new places are what packing computes.
pub proof fn lemma_pack(r: Seq<MoveView>, i: int, cursor: int, k: int, m: Map<int, int>)
    requires
        spread(r, i, cursor),
        i <= k <= r.len(),
    ensures
        ({
            let (n, end) = pack(r, k, position(r, i, cursor, k), m);
            &&& end == position(r, i, cursor, r.len() as int)
            &&& forall|j: int|
                k <= j < r.len() ==> n.dom().contains((#[trigger] r[j]).offset) && n[r[j].offset]
                    == position(r, i, cursor, j)
            &&& forall|o: int| #[trigger]
                n.dom().contains(o) ==> m.dom().contains(o) || exists|j: int|
                    k <= j < r.len() && (#[trigger] r[j]).offset == o
            &&& forall|o: int|
                (forall|j: int| k <= j < r.len() ==> (#[trigger] r[j]).offset != o)
                    ==> #[trigger] n.dom().contains(o) == m.dom().contains(o) && n[o] == m[o]
        }),
    decreases r.len() - k,
{
    if k < r.len() {
        let p = position(r, i, cursor, k);
        let m2 = m.insert(r[k].offset, p);
        lemma_position(r, i, cursor, k);
        assert(end_of(r[k]) <= u32::MAX);
        assert(wrap(p + r[k].size) == position(r, i, cursor, k + 1));
        lemma_pack(r, i, cursor, k + 1, m2);
        let (n, end) = pack(r, k, p, m);
        assert forall|j: int| k <= j < r.len() implies n.dom().contains((#[trigger] r[j]).offset)
            && n[r[j].offset] == position(r, i, cursor, j) by {
            if j == k {
                assert forall|l: int| k + 1 <= l < r.len() implies (#[trigger] r[l]).offset
                    != r[k].offset by {
                    assert(end_of(r[k]) <= r[l].offset);
                    assert(0 < r[k].size);
                }
            }
        }
        assert forall|o: int| #[trigger] n.dom().contains(o) implies m.dom().contains(o) || exists|
            j: int,
        |
            k <= j < r.len() && (#[trigger] r[j]).offset == o by {
            if m2.dom().contains(o) {
                if o == r[k].offset {
                    assert(r[k].offset == o);
                }
            } else {
                let j = choose|j: int| k + 1 <= j < r.len() && (#[trigger] r[j]).offset == o;
                assert(k <= j < r.len() && r[j].offset == o);
            }
        }
        assert forall|o: int|
            (forall|j: int| k <= j < r.len() ==> (#[trigger] r[j]).offset != o) implies #[trigger] n.dom().contains(
            o,
        ) == m.dom().contains(o) && n[o] == m[o] by {
            assert(r[k].offset != o);
        }
    }
}

// ---------------------------------------------------------------------------
// Half-way
// ---------------------------------------------------------------------------

/// What is packed: the entries `r` of the area `s` from `i` on, to `cursor` and
/// behind it.
pub struct Plan {
    pub s: AreaState,
    pub g: Layout,
    pub r: Seq<MoveView>,
    pub i: int,
    pub cursor: int,
    pub m: Map<int, int>,
}

impl Plan {
    /// The object of an entry.
    pub open spec fn who(self, j: int) -> Owner {
        choose|w: Owner| #[trigger] live(self.g, w) && self.r[j] == object_of(self.g, w)
    }

    /// Where the entry `j` goes.
    pub open spec fn pos(self, j: int) -> int {
        position(self.r, self.i, self.cursor, j)
    }

    /// The entry `j` stands for an object.
    pub open spec fn is_object(self, j: int) -> bool {
        let w = self.who(j);
        &&& live(self.g, w)
        &&& self.r[j] == object_of(self.g, w)
        &&& w != Owner::Node(0)
    }

    /// The plan is good.
    pub open spec fn good(self) -> bool {
        &&& describes(self.g, self.s)
        &&& spread(self.r, self.i, self.cursor)
        &&& forall|j: int| self.i <= j < self.r.len() ==> #[trigger] self.is_object(j)
        &&& self.m == pack(self.r, self.i, self.cursor, Map::empty()).0
        &&& end_of(self.r[self.r.len() - 1]) <= self.s.used
        &&& forall|w: Owner| #[trigger]
            live(self.g, w) ==> end_of(object_of(self.g, w)) <= self.cursor || exists|j: int|
                self.i <= j < self.r.len() && w == #[trigger] self.who(j)
    }

    /// Where what was at `o` is after the entries before `k` were moved.
    pub open spec fn now(self, k: int, o: int) -> int {
        if k < self.r.len() && o >= self.r[k].offset {
            o
        } else {
            moved(self.m, o)
        }
    }

    /// What an object is called after the entries before `k` were moved.
    pub open spec fn called(self, k: int, w: Owner) -> Owner {
        match w {
            Owner::Node(o) => Owner::Node(self.now(k, o)),
            Owner::Record(p) => Owner::Record(self.now(k, p)),
            Owner::Long(p) => Owner::Long(self.now(k, p)),
        }
    }

    /// The entry `j`, which was not moved yet, in the layout `h`.
    pub open spec fn waits(self, k: int, h: Layout, j: int) -> bool {
        let w = self.called(k, self.who(j));
        let e = self.r[j];
        &&& live(h, w)
        &&& object_of(h, w) == MoveView {
            offset: e.offset,
            size: e.size,
            referer: Some((self.now(k, (e.referer->0).0), (e.referer->0).1)),
            relative: e.relative,
        }
    }

    /// The object `w` of `h` is that of an entry that was not moved yet.
    pub open spec fn pending(self, k: int, w: Owner) -> bool {
        exists|j: int| k <= j < self.r.len() && w == self.called(k, #[trigger] self.who(j))
    }

    /// The layout `h` describes the area `t` after the entries before `k` were
    /// moved.
    pub open spec fn midway(self, k: int, t: AreaState, h: Layout, rel: Map<int, int>) -> bool {
        &&& self.i <= k <= self.r.len()
        &&& t.used == self.s.used
        &&& t.data.len() == self.s.data.len()
        &&& drafts(h, t, rel)
        &&& same_values(self.g, h)
        &&& forall|j: int| k <= j < self.r.len() ==> #[trigger] self.waits(k, h, j)
        &&& forall|w: Owner| #[trigger]
            live(h, w) ==> end_of(object_of(h, w)) <= self.pos(k) || self.pending(k, w)
        &&& forall|p: int| #[trigger]
            h.recs.dom().contains(p) && h.recs[p].long is Some ==> rel[p] == long_distance(
                p,
                h.recs[p],
            ) || self.pending(k, Owner::Long(p))
    }
}

/// The new places, without what else packing says.
proof fn lemma_places(r: Seq<MoveView>, i: int, cursor: int)
    requires
        spread(r, i, cursor),
    ensures
        ({
            let m = pack(r, i, cursor, Map::empty()).0;
            &&& forall|j: int|
                i <= j < r.len() ==> m.dom().contains((#[trigger] r[j]).offset) && m[r[j].offset]
                    == position(r, i, cursor, j)
            &&& forall|o: int| #[trigger]
                m.dom().contains(o) ==> exists|j: int|
                    i <= j < r.len() && (#[trigger] r[j]).offset == o
        }),
{
    lemma_pack(r, i, cursor, i, Map::empty());
}

/// Where the object at `o` goes.
proof fn lemma_moved(r: Seq<MoveView>, i: int, cursor: int, k: int, o: int)
    requires
        spread(r, i, cursor),
        i <= k < r.len(),
    ensures
        ({
            let m = pack(r, i, cursor, Map::empty()).0;
            &&& moved(m, r[k].offset) == position(r, i, cursor, k)
            &&& o < r[k].offset ==> moved(m, o) < r[k].offset
            &&& r[k].offset < o && (k + 1 < r.len() ==> o < r[k + 1].offset) ==> moved(m, o) == o
        }),
{
    let m = pack(r, i, cursor, Map::empty()).0;
    lemma_places(r, i, cursor);
    if m.dom().contains(o) {
        let j = choose|j: int| i <= j < r.len() && (#[trigger] r[j]).offset == o;
        lemma_position(r, i, cursor, j);
        if j > k {
            assert(end_of(r[k]) <= r[j].offset);
            assert(0 < r[k].size);
            if j > k + 1 {
                assert(end_of(r[k + 1]) <= r[j].offset);
                assert(0 < r[k + 1].size);
            }
        } else if j < k {
            assert(end_of(r[j]) <= r[k].offset);
        }
    }
}

/// Where things are, from one step to the next.
proof fn lemma_now(pl: Plan, k: int, o: int)
    requires
        pl.good(),
        pl.i <= k < pl.r.len(),
    ensures
        pl.now(k, o) == pl.r[k].offset ==> o == pl.r[k].offset,
        o != pl.r[k].offset ==> pl.now(k + 1, o) == pl.now(k, o),
        pl.now(k, pl.r[k].offset) == pl.r[k].offset,
        pl.now(k + 1, pl.r[k].offset) == pl.pos(k),
        o < pl.r[k].offset ==> pl.now(k, o) == moved(pl.m, o),
        moved(pl.m, pl.r[k].offset) == pl.pos(k),
        pl.pos(k) < pl.r[k].offset,
        pl.pos(k + 1) == pl.pos(k) + pl.r[k].size,
        0 <= pl.pos(k),
{
    lemma_moved(pl.r, pl.i, pl.cursor, k, o);
    lemma_position(pl.r, pl.i, pl.cursor, k);
    if k + 1 < pl.r.len() {
        assert(end_of(pl.r[k]) <= pl.r[k + 1].offset);
        assert(0 < pl.r[k].size);
    }
}

/// An entry keeps its name while another one is moved.
proof fn lemma_called(pl: Plan, k: int, j: int)
    requires
        pl.good(),
        pl.i <= k < j < pl.r.len(),
    ensures
        pl.called(k + 1, pl.who(j)) == match pl.who(j) {
            Owner::Long(p) => if p == pl.r[k].offset {
                Owner::Long(pl.pos(k))
            } else {
                pl.called(k, pl.who(j))
            },
            _ => pl.called(k, pl.who(j)),
        },
        pl.called(k, pl.who(j)) == match pl.who(j) {
            Owner::Node(o) => Owner::Node(pl.r[j].offset),
            Owner::Record(p) => Owner::Record(pl.r[j].offset),
            Owner::Long(p) => Owner::Long(pl.now(k, p)),
        },
        pl.who(j) == Owner::Long(pl.r[k].offset) ==> pl.who(k) == Owner::Record(pl.r[k].offset),
{
    assert(pl.is_object(j));
    assert(pl.is_object(k));
    let a = pl.r[k].offset;
    assert(end_of(pl.r[k]) <= pl.r[j].offset);
    lemma_now(pl, k, a);
    match pl.who(j) {
        Owner::Node(o) => {
            lemma_now(pl, k, o);
        },
        Owner::Record(p) => {
            lemma_now(pl, k, p);
        },
        Owner::Long(p) => {
            lemma_now(pl, k, p);
            if p == a {
                if pl.who(k) != Owner::Record(p) {
                    lemma_live(pl.s, pl.g, pl.who(k));
                    lemma_live(pl.s, pl.g, Owner::Record(p));
                    lemma_objects_apart(pl.s, pl.g, pl.who(k), Owner::Record(p));
                }
            }
        },
    }
}

/// The place that the entry `k` goes to is free.
proof fn lemma_clear(pl: Plan, k: int, t: AreaState, h: Layout, rel: Map<int, int>)
    requires
        pl.good(),
        pl.midway(k, t, h, rel),
        k < pl.r.len(),
    ensures
        clear_of(h, pl.called(k, pl.who(k)), pl.pos(k), pl.r[k].size),
{
    let w = pl.called(k, pl.who(k));
    let b = pl.pos(k);
    let n = pl.r[k].size;
    lemma_now(pl, k, 0);
    assert forall|v: Owner| #[trigger] live(h, v) && v != w implies apart(
        object_of(h, v).offset,
        object_of(h, v).size,
        b,
        n,
    ) by {
        if end_of(object_of(h, v)) > b {
            let j = choose|j: int| k <= j < pl.r.len() && v == pl.called(k, #[trigger] pl.who(j));
            assert(pl.waits(k, h, j));
            assert(j != k);
            assert(end_of(pl.r[k]) <= pl.r[j].offset);
        }
    }
    assert forall|o: int| #[trigger] h.nodes.dom().contains(o) && Owner::Node(o) != w implies apart(
        o,
        node_size(name_of(h.nodes[o]).len() as int),
        b,
        n,
    ) by {
        assert(live(h, Owner::Node(o)));
    }
    assert forall|p: int| #[trigger] h.recs.dom().contains(p) && Owner::Record(p) != w implies apart(
        p,
        rec_size(h.recs[p].name.len() as int),
        b,
        n,
    ) by {
        assert(live(h, Owner::Record(p)));
    }
    assert forall|p: int| #[trigger] h.recs.dom().contains(p) && Owner::Long(p) != w implies match h.recs[p].long {
        None => true,
        Some(at) => apart(at, long_size(h.recs[p].value.len() as int), b, n),
    } by {
        if h.recs[p].long is Some {
            assert(live(h, Owner::Long(p)));
        }
    }
}

/// An object in front of the entry `k` lies in front of where that goes.
proof fn lemma_in_front(pl: Plan, k: int, t: AreaState, h: Layout, rel: Map<int, int>, v: Owner)
    requires
        pl.good(),
        pl.midway(k, t, h, rel),
        k < pl.r.len(),
        live(h, v),
        object_of(h, v).offset < pl.r[k].offset,
    ensures
        end_of(object_of(h, v)) <= pl.pos(k),
{
    if end_of(object_of(h, v)) > pl.pos(k) {
        let j = choose|j: int| k <= j < pl.r.len() && v == pl.called(k, #[trigger] pl.who(j));
        assert(pl.waits(k, h, j));
        if j > k {
            assert(end_of(pl.r[k]) <= pl.r[j].offset);
        }
    }
}

/// Moving one entry.
pub open spec fn step_data(pl: Plan, k: int, d: Seq<u8>) -> Result<Seq<u8>, AreaFault> {
    match patch_reference(d, pl.r[k], pl.m) {
        Err(e) => Err(e),
        Ok(d1) => copy_object(d1, pl.r[k], pl.m),
    }
}

/// Changing a reference and copying the bytes.
proof fn lemma_patch_and_copy(d: Seq<u8>, e: MoveView, m: Map<int, int>, x: int, b: int)
    requires
        e.referer is Some,
        moved(m, (e.referer->0).0) == x,
        moved(m, e.offset) == b,
        0 <= x,
        0 <= (e.referer->0).1,
        x + (e.referer->0).1 + 4 <= b < e.offset,
        0 < e.size,
        end_of(e) <= d.len() <= u32::MAX,
    ensures
        ({
            let w = x + (e.referer->0).1;
            let v = if e.relative {
                b - x
            } else {
                b
            };
            &&& patch_reference(d, e, m) == Ok::<Seq<u8>, AreaFault>(put_u32(d, w, v))
            &&& copy_object(put_u32(d, w, v), e, m) == Ok::<Seq<u8>, AreaFault>(
                shifted(d, w, v, e.offset, b, e.size),
            )
        }),
{
    let w = x + (e.referer->0).1;
    assert(wrap(w) == w);
    assert(wrap(b - x) == b - x);
}

/// Moving one entry changes its reference and copies its bytes.
proof fn lemma_step_data(pl: Plan, k: int, t: AreaState, h: Layout, rel: Map<int, int>)
    requires
        pl.good(),
        pl.midway(k, t, h, rel),
        k < pl.r.len(),
        ({
            let e = pl.r[k];
            let (owner, place) = e.referer->0;
            pl.now(k, owner) + place + 4 <= pl.pos(k) && 0 <= pl.now(k, owner) && 0 <= place
        }),
    ensures
        ({
            let e = pl.r[k];
            let (owner, place) = e.referer->0;
            let x = pl.now(k, owner);
            let v = if e.relative {
                pl.pos(k) - x
            } else {
                pl.pos(k)
            };
            step_data(pl, k, t.data) == Ok::<Seq<u8>, AreaFault>(
                shifted(t.data, x + place, v, e.offset, pl.pos(k), e.size),
            )
        }),
{
    assert(pl.is_object(k));
    lemma_live(pl.s, pl.g, pl.who(k));
    let e = pl.r[k];
    let owner = (e.referer->0).0;
    lemma_now(pl, k, owner);
    assert(end_of(e) <= pl.s.used) by {
        if k < pl.r.len() - 1 {
            assert(end_of(pl.r[k]) <= pl.r[pl.r.len() - 1].offset);
        }
    }
    lemma_patch_and_copy(t.data, e, pl.m, pl.now(k, owner), pl.pos(k));
}

/// The entries that wait go on waiting while a node is moved.
proof fn lemma_node_step_waits(
    pl: Plan,
    k: int,
    t: AreaState,
    h: Layout,
    rel: Map<int, int>,
    j: int,
)
    requires
        pl.good(),
        pl.midway(k, t, h, rel),
        k < j < pl.r.len(),
        pl.who(k) is Node,
        !h.nodes.dom().contains(pl.pos(k)),
    ensures
        pl.waits(k + 1, node_moved(h, pl.r[k].offset, pl.pos(k)), j),
        pl.called(k + 1, pl.who(j)) == pl.called(k, pl.who(j)),
{
    let a = pl.r[k].offset;
    let b = pl.pos(k);
    let h2 = node_moved(h, a, b);
    assert(pl.is_object(k));
    assert(pl.is_object(j));
    assert(pl.waits(k, h, k));
    assert(pl.waits(k, h, j));
    lemma_called(pl, k, j);
    let owner = (pl.r[j].referer->0).0;
    lemma_now(pl, k, owner);
    assert(end_of(pl.r[k]) <= pl.r[j].offset);
    let w = pl.called(k, pl.who(j));
    lemma_node(t, h, a);
    match w {
        Owner::Node(o) => {
            assert(o != a && o != b);
            lemma_node(t, h, o);
        },
        Owner::Record(p) => {
            assert(rec_drafted(t, h, rel, p));
            if h.nodes[a].prop == p {
                assert(h.recs[p].node == a);
            } else {
                assert(h.recs[p].node != a);
            }
        },
        Owner::Long(p) => {
            if h.nodes[a].prop == p {
                assert(h2.recs[p].long == h.recs[p].long);
            }
        },
    }
}

/// Moving a node.
proof fn lemma_step_node(pl: Plan, k: int, t: AreaState, h: Layout, rel: Map<int, int>)
    requires
        pl.good(),
        pl.midway(k, t, h, rel),
        k < pl.r.len(),
        pl.who(k) is Node,
    ensures
        step_data(pl, k, t.data) is Ok,
        pl.midway(
            k + 1,
            t.with(step_data(pl, k, t.data)->Ok_0),
            node_moved(h, pl.r[k].offset, pl.pos(k)),
            rel,
        ),
{
    let a = pl.r[k].offset;
    let b = pl.pos(k);
    let h2 = node_moved(h, a, b);
    assert(pl.is_object(k));
    assert(pl.waits(k, h, k));
    lemma_now(pl, k, (pl.r[k].referer->0).0);
    let n = h.nodes[a];
    assert(pl.called(k, pl.who(k)) == Owner::Node(a));
    lemma_node(t, h, a);
    lemma_node(t, h, n.from);
    assert(a != 0);
    lemma_in_front(pl, k, t, h, rel, Owner::Node(n.from));
    lemma_clear(pl, k, t, h, rel);
    lemma_step_data(pl, k, t, h, rel);
    assert(can_move_node(t, h, rel, a, b));
    lemma_node_moved(t, h, rel, a, b);
    let t2 = after_node_move(t, h, a, b);
    assert(t.with(step_data(pl, k, t.data)->Ok_0) == t2);
    assert forall|j: int| k + 1 <= j < pl.r.len() implies #[trigger] pl.waits(k + 1, h2, j) by {
        lemma_node_step_waits(pl, k, t, h, rel, j);
    }
    assert forall|w: Owner| pl.pending(k, w) && w != Owner::Node(a) implies #[trigger] pl.pending(
        k + 1,
        w,
    ) by {
        let j = choose|j: int| k <= j < pl.r.len() && w == pl.called(k, #[trigger] pl.who(j));
        lemma_node_step_waits(pl, k, t, h, rel, j);
        assert(w == pl.called(k + 1, pl.who(j)));
    }
    assert forall|w: Owner| #[trigger] live(h2, w) implies end_of(object_of(h2, w)) <= pl.pos(k + 1)
        || pl.pending(k + 1, w) by {
        if w == Owner::Node(b) {
            assert(h2.nodes[b] == n);
        } else {
            assert(live(h, w));
            assert(end_of(object_of(h2, w)) == end_of(object_of(h, w)));
        }
    }
    assert forall|p: int| #[trigger] h2.recs.dom().contains(p) && h2.recs[p].long is Some implies rel[p]
        == long_distance(p, h2.recs[p]) || pl.pending(k + 1, Owner::Long(p)) by {
        assert(h.recs.dom().contains(p));
        assert(h2.recs[p].long == h.recs[p].long);
    }
    assert forall|q: Seq<Seq<u8>>| #[trigger] content_at(h2, q) == content_at(pl.g, q) by {
        assert(content_at(h, q) == content_at(pl.g, q));
    }
}

/// The entries that wait go on waiting while a record is moved.
proof fn lemma_rec_step_waits(
    pl: Plan,
    k: int,
    t: AreaState,
    h: Layout,
    rel: Map<int, int>,
    j: int,
)
    requires
        pl.good(),
        pl.midway(k, t, h, rel),
        k < j < pl.r.len(),
        pl.who(k) is Record,
        !h.recs.dom().contains(pl.pos(k)),
    ensures
        pl.waits(k + 1, rec_moved(h, pl.r[k].offset, pl.pos(k)), j),
        pl.called(k + 1, pl.who(j)) == if pl.called(k, pl.who(j)) == Owner::Long(pl.r[k].offset) {
            Owner::Long(pl.pos(k))
        } else {
            pl.called(k, pl.who(j))
        },
{
    let a = pl.r[k].offset;
    let b = pl.pos(k);
    let h2 = rec_moved(h, a, b);
    assert(pl.is_object(k));
    assert(pl.is_object(j));
    assert(pl.waits(k, h, k));
    assert(pl.waits(k, h, j));
    lemma_called(pl, k, j);
    let owner = (pl.r[j].referer->0).0;
    lemma_now(pl, k, owner);
    assert(end_of(pl.r[k]) <= pl.r[j].offset);
    assert(rec_drafted(t, h, rel, a));
    let w = pl.called(k, pl.who(j));
    match pl.who(j) {
        Owner::Node(o) => {
            lemma_live(pl.s, pl.g, pl.who(j));
            assert(w == Owner::Node(pl.r[j].offset));
            assert(owner != a) by {
                if owner == a {
                    lemma_node(pl.s, pl.g, o);
                    lemma_live(pl.s, pl.g, Owner::Node(owner));
                    lemma_objects_apart(pl.s, pl.g, Owner::Node(owner), pl.who(k));
                    lemma_live(pl.s, pl.g, pl.who(k));
                }
            }
        },
        Owner::Record(p) => {
            assert(owner != a) by {
                if owner == a {
                    assert(rec_fits(pl.s, pl.g, p));
                    lemma_live(pl.s, pl.g, Owner::Node(owner));
                    lemma_objects_apart(pl.s, pl.g, Owner::Node(owner), pl.who(k));
                    lemma_live(pl.s, pl.g, pl.who(k));
                }
            }
        },
        Owner::Long(p) => {
            lemma_now(pl, k, p);
        },
    }
}

/// Moving a record.
proof fn lemma_step_rec(pl: Plan, k: int, t: AreaState, h: Layout, rel: Map<int, int>)
    requires
        pl.good(),
        pl.midway(k, t, h, rel),
        k < pl.r.len(),
        pl.who(k) is Record,
    ensures
        step_data(pl, k, t.data) is Ok,
        pl.midway(
            k + 1,
            t.with(step_data(pl, k, t.data)->Ok_0),
            rec_moved(h, pl.r[k].offset, pl.pos(k)),
            rel.insert(pl.pos(k), rel[pl.r[k].offset]),
        ),
{
    let a = pl.r[k].offset;
    let b = pl.pos(k);
    let h2 = rec_moved(h, a, b);
    let rel2 = rel.insert(b, rel[a]);
    assert(pl.is_object(k));
    assert(pl.waits(k, h, k));
    lemma_now(pl, k, (pl.r[k].referer->0).0);
    let r = h.recs[a];
    assert(pl.called(k, pl.who(k)) == Owner::Record(a));
    assert(rec_drafted(t, h, rel, a));
    lemma_node(t, h, r.node);
    lemma_in_front(pl, k, t, h, rel, Owner::Node(r.node));
    lemma_clear(pl, k, t, h, rel);
    lemma_step_data(pl, k, t, h, rel);
    assert(can_move_rec(t, h, rel, a, b));
    lemma_rec_moved(t, h, rel, a, b);
    assert(t.with(step_data(pl, k, t.data)->Ok_0) == after_rec_move(t, h, a, b));
    assert forall|j: int| k + 1 <= j < pl.r.len() implies #[trigger] pl.waits(k + 1, h2, j) by {
        lemma_rec_step_waits(pl, k, t, h, rel, j);
    }
    assert forall|w: Owner|
        pl.pending(k, w) && w != Owner::Record(a) && w != Owner::Long(a) implies #[trigger] pl.pending(
        k + 1,
        w,
    ) by {
        let j = choose|j: int| k <= j < pl.r.len() && w == pl.called(k, #[trigger] pl.who(j));
        lemma_rec_step_waits(pl, k, t, h, rel, j);
        assert(w == pl.called(k + 1, pl.who(j)));
    }
    // The long value of the record is moved later.
    assert(r.long is Some ==> pl.pending(k + 1, Owner::Long(b))) by {
        if r.long is Some {
            assert(live(h, Owner::Long(a)));
            assert(end_of(object_of(h, Owner::Long(a))) > b) by {
                reveal(rec_bytes_at);
            }
            let j = choose|j: int|
                k <= j < pl.r.len() && Owner::Long(a) == pl.called(k, #[trigger] pl.who(j));
            lemma_rec_step_waits(pl, k, t, h, rel, j);
            assert(Owner::Long(b) == pl.called(k + 1, pl.who(j)));
        }
    }
    assert forall|w: Owner| #[trigger] live(h2, w) implies end_of(object_of(h2, w)) <= pl.pos(k + 1)
        || pl.pending(k + 1, w) by {
        if w == Owner::Record(b) {
            assert(h2.recs[b] == r);
        } else if w == Owner::Long(b) {
            assert(h2.recs[b] == r);
        } else {
            assert(live(h, w));
            assert(end_of(object_of(h2, w)) == end_of(object_of(h, w)));
        }
    }
    assert forall|p: int| #[trigger] h2.recs.dom().contains(p) && h2.recs[p].long is Some implies rel2[p]
        == long_distance(p, h2.recs[p]) || pl.pending(k + 1, Owner::Long(p)) by {
        if p != b {
            assert(h.recs.dom().contains(p));
        }
    }
    assert forall|q: Seq<Seq<u8>>| #[trigger] content_at(h2, q) == content_at(pl.g, q) by {
        assert(content_at(h, q) == content_at(pl.g, q));
    }
}

/// The entries that wait go on waiting while a long value is moved.
proof fn lemma_long_step_waits(
    pl: Plan,
    k: int,
    t: AreaState,
    h: Layout,
    rel: Map<int, int>,
    j: int,
)
    requires
        pl.good(),
        pl.midway(k, t, h, rel),
        k < j < pl.r.len(),
        pl.who(k) is Long,
    ensures
        pl.waits(k + 1, long_moved(h, pl.now(k, pl.who(k)->Long_0), pl.pos(k)), j),
        pl.called(k + 1, pl.who(j)) == pl.called(k, pl.who(j)),
        pl.called(k, pl.who(j)) != pl.called(k, pl.who(k)),
{
    let a = pl.r[k].offset;
    let p0 = pl.who(k)->Long_0;
    let p = pl.now(k, p0);
    let h2 = long_moved(h, p, pl.pos(k));
    assert(pl.is_object(k));
    assert(pl.is_object(j));
    assert(pl.waits(k, h, k));
    assert(pl.waits(k, h, j));
    lemma_called(pl, k, j);
    let owner = (pl.r[j].referer->0).0;
    lemma_now(pl, k, owner);
    assert(end_of(pl.r[k]) <= pl.r[j].offset);
    assert(0 < pl.r[k].size);
    assert(pl.called(k, pl.who(j)) != pl.called(k, pl.who(k)));
    lemma_live(pl.s, pl.g, pl.who(k));
    // No record or node stands where the long value stood.
    match pl.who(j) {
        Owner::Node(o) => {
            lemma_node(pl.s, pl.g, o);
            assert(owner != a) by {
                if owner == a {
                    lemma_live(pl.s, pl.g, Owner::Node(owner));
                    lemma_objects_apart(pl.s, pl.g, Owner::Node(owner), pl.who(k));
                }
            }
        },
        Owner::Record(q) => {
            assert(rec_fits(pl.s, pl.g, q));
            assert(owner != a) by {
                if owner == a {
                    lemma_live(pl.s, pl.g, Owner::Node(owner));
                    lemma_objects_apart(pl.s, pl.g, Owner::Node(owner), pl.who(k));
                }
            }
        },
        Owner::Long(q) => {
            assert(q != a) by {
                if q == a {
                    lemma_live(pl.s, pl.g, Owner::Record(q));
                    lemma_objects_apart(pl.s, pl.g, Owner::Record(q), pl.who(k));
                }
            }
        },
    }
}

/// Moving a long value.
proof fn lemma_step_long(pl: Plan, k: int, t: AreaState, h: Layout, rel: Map<int, int>)
    requires
        pl.good(),
        pl.midway(k, t, h, rel),
        k < pl.r.len(),
        pl.who(k) is Long,
    ensures
        step_data(pl, k, t.data) is Ok,
        ({
            let p = pl.now(k, pl.who(k)->Long_0);
            pl.midway(
                k + 1,
                t.with(step_data(pl, k, t.data)->Ok_0),
                long_moved(h, p, pl.pos(k)),
                rel.insert(p, pl.pos(k) - p),
            )
        }),
{
    let a = pl.r[k].offset;
    let b = pl.pos(k);
    let p0 = pl.who(k)->Long_0;
    let p = pl.now(k, p0);
    let h2 = long_moved(h, p, b);
    let rel2 = rel.insert(p, b - p);
    assert(pl.is_object(k));
    assert(pl.waits(k, h, k));
    lemma_now(pl, k, p0);
    let r = h.recs[p];
    assert(pl.called(k, pl.who(k)) == Owner::Long(p));
    assert(r.long == Some(a));
    assert(rec_drafted(t, h, rel, p));
    assert(p + rec_size(r.name.len() as int) <= a) by {
        reveal(rec_bytes_at);
    }
    lemma_in_front(pl, k, t, h, rel, Owner::Record(p));
    lemma_clear(pl, k, t, h, rel);
    lemma_step_data(pl, k, t, h, rel);
    assert(can_move_long(t, h, rel, p, a, b));
    lemma_long_moved(t, h, rel, p, a, b);
    assert(t.with(step_data(pl, k, t.data)->Ok_0) == after_long_move(t, h, p, a, b));
    assert forall|j: int| k + 1 <= j < pl.r.len() implies #[trigger] pl.waits(k + 1, h2, j) by {
        lemma_long_step_waits(pl, k, t, h, rel, j);
    }
    assert forall|w: Owner| pl.pending(k, w) && w != Owner::Long(p) implies #[trigger] pl.pending(
        k + 1,
        w,
    ) by {
        let j = choose|j: int| k <= j < pl.r.len() && w == pl.called(k, #[trigger] pl.who(j));
        lemma_long_step_waits(pl, k, t, h, rel, j);
        assert(w == pl.called(k + 1, pl.who(j)));
    }
    assert forall|w: Owner| #[trigger] live(h2, w) implies end_of(object_of(h2, w)) <= pl.pos(k + 1)
        || pl.pending(k + 1, w) by {
        if w != Owner::Long(p) {
            assert(live(h, w));
            assert(end_of(object_of(h2, w)) == end_of(object_of(h, w)));
        }
    }
    assert forall|q: int| #[trigger] h2.recs.dom().contains(q) && h2.recs[q].long is Some implies rel2[q]
        == long_distance(q, h2.recs[q]) || pl.pending(k + 1, Owner::Long(q)) by {
        if q != p {
            assert(h.recs.dom().contains(q));
        }
    }
    assert forall|q: Seq<Seq<u8>>| #[trigger] content_at(h2, q) == content_at(pl.g, q) by {
        assert(content_at(h, q) == content_at(pl.g, q));
    }
}

/// What an object is called after the entry `k` was moved.
pub open spec fn renamed(pl: Plan, k: int, w: Owner) -> Owner {
    let a = pl.r[k].offset;
    let b = pl.pos(k);
    match pl.who(k) {
        Owner::Node(_) => if w == Owner::Node(a) {
            Owner::Node(b)
        } else {
            w
        },
        Owner::Record(_) => if w == Owner::Record(a) {
            Owner::Record(b)
        } else if w == Owner::Long(a) {
            Owner::Long(b)
        } else {
            w
        },
        Owner::Long(_) => w,
    }
}

/// The layout `h2` is `h` with the entry `k` moved and everything else where
/// it was.
pub open spec fn stepped(pl: Plan, k: int, h: Layout, h2: Layout) -> bool {
    let moving = pl.called(k, pl.who(k));
    &&& forall|w: Owner| #[trigger]
        live(h, w) ==> {
            let v = renamed(pl, k, w);
            &&& live(h2, v)
            &&& object_of(h2, v).size == object_of(h, w).size
            &&& object_of(h2, v).offset == if w == moving {
                pl.pos(k)
            } else {
                object_of(h, w).offset
            }
        }
    &&& forall|v: Owner| #[trigger]
        live(h2, v) ==> exists|w: Owner| #[trigger] live(h, w) && renamed(pl, k, w) == v
    &&& h2.nodes[0].kids == if h.nodes[0].kids == pl.r[k].offset && pl.who(k) is Node {
        pl.pos(k)
    } else {
        h.nodes[0].kids
    }
}

/// Moving one entry.
proof fn lemma_step(pl: Plan, k: int, t: AreaState, h: Layout, rel: Map<int, int>) -> (next: (
    Layout,
    Map<int, int>,
))
    requires
        pl.good(),
        pl.midway(k, t, h, rel),
        k < pl.r.len(),
    ensures
        step_data(pl, k, t.data) is Ok,
        pl.midway(k + 1, t.with(step_data(pl, k, t.data)->Ok_0), next.0, next.1),
        stepped(pl, k, h, next.0),
{
    let a = pl.r[k].offset;
    let b = pl.pos(k);
    assert(pl.is_object(k));
    assert(pl.waits(k, h, k));
    lemma_now(pl, k, a);
    assert(0 < pl.r[k].size);
    match pl.who(k) {
        Owner::Node(o) => {
            lemma_step_node(pl, k, t, h, rel);
            let h2 = node_moved(h, a, b);
            lemma_node(t, h, a);
            lemma_node(t, h, 0);
            lemma_stepped_node(pl, k, t, h, rel);
            (h2, rel)
        },
        Owner::Record(p) => {
            lemma_step_rec(pl, k, t, h, rel);
            let h2 = rec_moved(h, a, b);
            lemma_stepped_rec(pl, k, t, h, rel);
            (h2, rel.insert(b, rel[a]))
        },
        Owner::Long(p0) => {
            lemma_step_long(pl, k, t, h, rel);
            let p = pl.now(k, p0);
            let h2 = long_moved(h, p, b);
            assert forall|v: Owner| #[trigger] live(h2, v) implies exists|w: Owner| #[trigger]
                live(h, w) && renamed(pl, k, w) == v by {
                assert(live(h, v) && renamed(pl, k, v) == v);
            }
            (h2, rel.insert(p, b - p))
        },
    }
}

proof fn lemma_stepped_node(pl: Plan, k: int, t: AreaState, h: Layout, rel: Map<int, int>)
    requires
        pl.good(),
        pl.midway(k, t, h, rel),
        k < pl.r.len(),
        pl.who(k) is Node,
        pl.midway(
            k + 1,
            t.with(step_data(pl, k, t.data)->Ok_0),
            node_moved(h, pl.r[k].offset, pl.pos(k)),
            rel,
        ),
    ensures
        stepped(pl, k, h, node_moved(h, pl.r[k].offset, pl.pos(k))),
{
    let a = pl.r[k].offset;
    let b = pl.pos(k);
    let h2 = node_moved(h, a, b);
    assert(pl.is_object(k));
    assert(pl.waits(k, h, k));
    lemma_now(pl, k, a);
    lemma_node(t, h, a);
    lemma_node(t, h, 0);
    lemma_clear(pl, k, t, h, rel);
    assert(0 < pl.r[k].size);
    assert(!h.nodes.dom().contains(b)) by {
        if h.nodes.dom().contains(b) {
            lemma_node(t, h, b);
        }
    }
    assert(b != 0) by {
        if b == 0 {
            assert(h.nodes.dom().contains(0));
        }
    }
    assert(h2.nodes[b] == h.nodes[a]);
    assert forall|v: Owner| #[trigger] live(h2, v) implies exists|w: Owner| #[trigger]
        live(h, w) && renamed(pl, k, w) == v by {
        let w = if v == Owner::Node(b) {
            Owner::Node(a)
        } else {
            v
        };
        assert(live(h, w) && renamed(pl, k, w) == v);
    }
    let n = h.nodes[a];
    assert(crate::area_layout::link_fits(h, 0, 16));
    if n.from == 0 {
        lemma_node(t, h, n.from);
    }
}

proof fn lemma_stepped_rec(pl: Plan, k: int, t: AreaState, h: Layout, rel: Map<int, int>)
    requires
        pl.good(),
        pl.midway(k, t, h, rel),
        k < pl.r.len(),
        pl.who(k) is Record,
    ensures
        stepped(pl, k, h, rec_moved(h, pl.r[k].offset, pl.pos(k))),
{
    let a = pl.r[k].offset;
    let b = pl.pos(k);
    let h2 = rec_moved(h, a, b);
    assert(pl.is_object(k));
    assert(pl.waits(k, h, k));
    lemma_now(pl, k, a);
    lemma_clear(pl, k, t, h, rel);
    assert(0 < pl.r[k].size);
    assert(rec_drafted(t, h, rel, a));
    assert(!h.recs.dom().contains(b));
    assert(h2.recs[b] == h.recs[a]);
    assert forall|v: Owner| #[trigger] live(h2, v) implies exists|w: Owner| #[trigger]
        live(h, w) && renamed(pl, k, w) == v by {
        let w = if v == Owner::Record(b) {
            Owner::Record(a)
        } else if v == Owner::Long(b) {
            Owner::Long(a)
        } else {
            v
        };
        assert(live(h, w) && renamed(pl, k, w) == v);
    }
}

/// The entry `j` stands for an object, moved or not.
pub open spec fn stands_for(pl: Plan, j: int) -> bool {
    exists|w: Owner| #[trigger] live(pl.g, w) && pl.r[j] == object_of(pl.g, w)
}

/// Where the entry `j` stands after those before `k` were moved.
pub open spec fn spot(pl: Plan, k: int, j: int) -> int {
    if pl.i <= j < k {
        pl.pos(j)
    } else {
        pl.r[j].offset
    }
}

/// The object `w` of `h` is that of the entry `j`.
pub open spec fn stands(pl: Plan, k: int, h: Layout, w: Owner, j: int) -> bool {
    &&& live(h, w)
    &&& object_of(h, w).offset == spot(pl, k, j)
    &&& object_of(h, w).size == pl.r[j].size
}

/// Every entry has its object in `h`, where it should be.
#[verifier::opaque]
pub open spec fn entries_stand(pl: Plan, k: int, h: Layout) -> bool {
    forall|j: int|
        0 <= j < pl.r.len() && #[trigger] stands_for(pl, j) ==> exists|w: Owner| #[trigger]
            stands(pl, k, h, w, j)
}

/// Every object of `h` is that of an entry, where it should be.
#[verifier::opaque]
pub open spec fn objects_stand(pl: Plan, k: int, h: Layout) -> bool {
    forall|w: Owner| #[trigger]
        live(h, w) ==> exists|j: int|
            0 <= j < pl.r.len() && stands_for(pl, j) && #[trigger] stands(pl, k, h, w, j)
}

/// The objects of `h` are those of the entries, each where it should be.
pub open spec fn shaped(pl: Plan, k: int, h: Layout) -> bool {
    &&& entries_stand(pl, k, h)
    &&& objects_stand(pl, k, h)
    &&& h.nodes[0].kids == pl.now(k, pl.g.nodes[0].kids)
}

/// The entries in front of the first gap stay.
pub open spec fn front_stays(pl: Plan) -> bool {
    forall|j: int| 0 <= j < pl.i ==> (#[trigger] pl.r[j]).offset <= pl.cursor
}

/// Every entry has its object after a step.
proof fn lemma_shaped_entry(
    pl: Plan,
    k: int,
    t: AreaState,
    h: Layout,
    rel: Map<int, int>,
    h2: Layout,
    j: int,
)
    requires
        pl.good(),
        front_stays(pl),
        pl.midway(k, t, h, rel),
        k < pl.r.len(),
        shaped(pl, k, h),
        stepped(pl, k, h, h2),
        0 <= j < pl.r.len(),
        stands_for(pl, j),
    ensures
        exists|w: Owner| #[trigger] stands(pl, k + 1, h2, w, j),
{
    let a = pl.r[k].offset;
    let moving = pl.called(k, pl.who(k));
    assert(pl.waits(k, h, k));
    if j == k {
        assert(live(h, moving));
        assert(stands(pl, k + 1, h2, renamed(pl, k, moving), j));
    } else {
        reveal(entries_stand);
        let w = choose|w: Owner| #[trigger] stands(pl, k, h, w, j);
        assert(live(h, w));
        assert(spot(pl, k, j) != a) by {
            if pl.i <= j < k {
                lemma_position(pl.r, pl.i, pl.cursor, j);
                assert(end_of(pl.r[j]) <= pl.r[k].offset);
            } else if j > k {
                assert(end_of(pl.r[k]) <= pl.r[j].offset);
                assert(0 < pl.r[k].size);
            } else {
                assert(pl.r[j].offset <= pl.cursor);
                lemma_position(pl.r, pl.i, pl.cursor, k);
            }
        }
        assert(w != moving);
        assert(stands(pl, k + 1, h2, renamed(pl, k, w), j));
    }
}

/// Every object has its entry after a step.
proof fn lemma_shaped_object(
    pl: Plan,
    k: int,
    t: AreaState,
    h: Layout,
    rel: Map<int, int>,
    h2: Layout,
    v: Owner,
)
    requires
        pl.good(),
        pl.midway(k, t, h, rel),
        k < pl.r.len(),
        shaped(pl, k, h),
        stepped(pl, k, h, h2),
        live(h2, v),
    ensures
        exists|j: int|
            0 <= j < pl.r.len() && stands_for(pl, j) && #[trigger] stands(pl, k + 1, h2, v, j),
{
    let moving = pl.called(k, pl.who(k));
    assert(pl.waits(k, h, k));
    let w = choose|w: Owner| #[trigger] live(h, w) && renamed(pl, k, w) == v;
    if w == moving {
        assert(pl.is_object(k));
        assert(stands_for(pl, k));
        assert(stands(pl, k + 1, h2, v, k));
    } else if end_of(object_of(h, w)) <= pl.pos(k) {
        lemma_position(pl.r, pl.i, pl.cursor, k);
        reveal(objects_stand);
        let j = choose|j: int|
            0 <= j < pl.r.len() && stands_for(pl, j) && #[trigger] stands(pl, k, h, w, j);
        assert(j < k) by {
            if j > k {
                assert(end_of(pl.r[k]) <= pl.r[j].offset);
            }
            assert(0 < pl.r[j].size);
        }
        assert(stands(pl, k + 1, h2, v, j));
    } else {
        let j = choose|j: int| k <= j < pl.r.len() && w == pl.called(k, #[trigger] pl.who(j));
        assert(pl.waits(k, h, j));
        assert(pl.is_object(j));
        assert(stands_for(pl, j));
        assert(stands(pl, k + 1, h2, v, j));
    }
}

/// The first child of the root is where it should be after a step.
proof fn lemma_shaped_root(pl: Plan, k: int, h: Layout, h2: Layout)
    requires
        pl.good(),
        pl.i <= k < pl.r.len(),
        h.nodes[0].kids == pl.now(k, pl.g.nodes[0].kids),
        stepped(pl, k, h, h2),
    ensures
        h2.nodes[0].kids == pl.now(k + 1, pl.g.nodes[0].kids),
{
    let a = pl.r[k].offset;
    let kids = pl.g.nodes[0].kids;
    lemma_now(pl, k, kids);
    assert(pl.is_object(k));
    lemma_live(pl.s, pl.g, pl.who(k));
    if kids == a {
        lemma_node(pl.s, pl.g, 0);
        assert(crate::area_layout::link_fits(pl.g, 0, 16));
        lemma_live(pl.s, pl.g, Owner::Node(kids));
        if pl.who(k) != Owner::Node(kids) {
            lemma_objects_apart(pl.s, pl.g, Owner::Node(kids), pl.who(k));
        }
    }
}

/// Everything that holds between two steps.
#[verifier::opaque]
pub open spec fn on_course(pl: Plan, k: int, t: AreaState, h: Layout, rel: Map<int, int>) -> bool {
    &&& pl.good()
    &&& front_stays(pl)
    &&& pl.midway(k, t, h, rel)
    &&& shaped(pl, k, h)
}

/// Moving one entry keeps the course.
proof fn lemma_on_course(pl: Plan, k: int, t: AreaState, h: Layout, rel: Map<int, int>) -> (next: (
    Layout,
    Map<int, int>,
))
    requires
        on_course(pl, k, t, h, rel),
        k < pl.r.len(),
    ensures
        step_data(pl, k, t.data) is Ok,
        on_course(pl, k + 1, t.with(step_data(pl, k, t.data)->Ok_0), next.0, next.1),
{
    reveal(on_course);
    let (h2, rel2) = lemma_step(pl, k, t, h, rel);
    assert(entries_stand(pl, k + 1, h2)) by {
        reveal(entries_stand);
        assert forall|j: int| 0 <= j < pl.r.len() && #[trigger] stands_for(pl, j) implies exists|
            w: Owner,
        | #[trigger]
            stands(pl, k + 1, h2, w, j) by {
            lemma_shaped_entry(pl, k, t, h, rel, h2, j);
        }
    }
    assert(objects_stand(pl, k + 1, h2)) by {
        reveal(objects_stand);
        assert forall|v: Owner| #[trigger] live(h2, v) implies exists|j: int|
            0 <= j < pl.r.len() && stands_for(pl, j) && #[trigger] stands(pl, k + 1, h2, v, j) by {
            lemma_shaped_object(pl, k, t, h, rel, h2, v);
        }
    }
    lemma_shaped_root(pl, k, h, h2);
    (h2, rel2)
}

/// Moving all entries.
pub proof fn lemma_move_all(pl: Plan, k: int, t: AreaState, h: Layout, rel: Map<int, int>) -> (last: (
    Layout,
    Map<int, int>,
))
    requires
        on_course(pl, k, t, h, rel),
        k <= pl.r.len(),
    ensures
        ({
            let (d, r) = move_objects(t.data, pl.r, k, pl.m);
            r is Ok && on_course(pl, pl.r.len() as int, t.with(d), last.0, last.1)
        }),
    decreases pl.r.len() - k,
{
    if k < pl.r.len() {
        let (h2, rel2) = lemma_on_course(pl, k, t, h, rel);
        let d2 = step_data(pl, k, t.data)->Ok_0;
        lemma_move_all(pl, k + 1, t.with(d2), h2, rel2)
    } else {
        (h, rel)
    }
}

} // verus!
