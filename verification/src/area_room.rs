//! When there is room for a property, and how much it takes.
use crate::area_edit::{ensure_path, set_with_serial};
use crate::area_growth::{lemma_ensure_found, lemma_ensure_path, missing_nodes};
use crate::area_keys::{lemma_segments_join, lemma_segments_ok};
use crate::area_laws::{good_key, lemma_attach_room, lemma_replace_room, record_room};
use crate::area_layout::{
    content_at, describes, lemma_descend, lemma_find_node, lemma_node, lemma_read_record,
    node_bytes, rec_fits, rec_view, well_formed, Layout,
};
use crate::area_state::{
    descend, lookup, read_record, segments, AreaFault, AreaState, RecordView,
};
use crate::bytes::u32_at;
use crate::live_area::{
    live_add, live_traverse, live_update, live_upsert, value_slot, Live, MmapPropAreaError,
    MmapResult,
};
use crate::live_growth::{lemma_live_ensure_path, lemma_record_refused, live_record};
use crate::live_laws::{
    held, law_update_refused, lemma_live_find, lemma_live_kids, lemma_slot, mirrors,
};
use vstd::prelude::*;

verus! {

/// `n` bytes in whole words.
pub open spec fn in_words(n: int) -> int {
    (n + 3) / 4 * 4
}

/// The bytes that the nodes take which are missing for the first `n` pieces of a
/// key: a header of 20 bytes, the piece and its NUL byte.
pub open spec fn missing_room(d: Seq<u8>, segs: Seq<Seq<u8>>, n: int) -> int
    decreases n,
{
    if n <= 0 {
        0
    } else {
        missing_room(d, segs, n - 1) + if descend(d, 0, segs.take(n)) == Ok::<
            Option<int>,
            AreaFault,
        >(None) {
            in_words(20 + segs[n - 1].len() as int + 1)
        } else {
            0
        }
    }
}

/// The bytes that adding the property called `key` takes: its missing nodes, its
/// record and, from 92 bytes on, its value.
pub open spec fn adding_room(d: Seq<u8>, key: Seq<u8>, value: Seq<u8>) -> int {
    missing_room(d, segments(key), segments(key).len() as int) + writing_room(key, value)
}

/// The bytes that a record takes: 96 bytes, the name and its NUL byte; and, from
/// 92 bytes on, the value and its NUL byte.
pub open spec fn writing_room(key: Seq<u8>, value: Seq<u8>) -> int {
    in_words(96 + key.len() as int + 1) + if value.len() < 92 {
        0
    } else {
        in_words(value.len() as int + 1)
    }
}

/// The nodes that the layout lacks for a path are those that the area lacks.
proof fn lemma_missing(s: AreaState, g: Layout, q: Seq<Seq<u8>>, i: int)
    requires
        describes(g, s),
        0 <= i <= q.len(),
        forall|k: int| 0 <= k < q.len() ==> (#[trigger] q[k]).len() > 0,
    ensures
        missing_nodes(g, q.take(i), q.skip(i)) + missing_room(s.data, q, i) == missing_room(
            s.data,
            q,
            q.len() as int,
        ),
    decreases q.len() - i,
{
    if i < q.len() {
        lemma_missing(s, g, q, i + 1);
        assert(q.skip(i)[0] == q[i]);
        assert(q.take(i).push(q[i]) =~= q.take(i + 1));
        assert(q.skip(i).skip(1) =~= q.skip(i + 1));
        assert(q.take(i + 1).last() == q[i]);
        lemma_node(s, g, 0);
        lemma_descend(s, g, 0, q.take(i + 1));
        assert(g.nodes[0].path + q.take(i + 1) =~= q.take(i + 1));
        assert(q[i].len() > 0);
    }
}

/// As [`lemma_missing`], for a whole key.
proof fn lemma_missing_key(s: AreaState, g: Layout, key: Seq<u8>)
    requires
        describes(g, s),
        good_key(key),
    ensures
        missing_nodes(g, g.nodes[0].path, segments(key)) == missing_room(
            s.data,
            segments(key),
            segments(key).len() as int,
        ),
{
    let q = segments(key);
    lemma_segments_ok(key);
    lemma_node(s, g, 0);
    lemma_missing(s, g, q, 0);
    assert(q.take(0) =~= g.nodes[0].path);
    assert(q.skip(0) =~= q);
}

/// A property can be set exactly where there is room for what it takes. A value
/// that fits in the place of the old one takes nothing, another one takes a new
/// record, and a property that is not there takes a record and the nodes of its
/// key that are missing.
pub proof fn law_set_room(s: AreaState, key: Seq<u8>, value: Seq<u8>)
    requires
        well_formed(s),
        good_key(key),
    ensures
        lookup(s.data, key) is Ok,
        ({
            let (t, r) = set_with_serial(s, key, value);
            let taken = match lookup(s.data, key)->Ok_0 {
                Some(p) => if if p.is_long {
                    value.len() <= p.value.len()
                } else {
                    value.len() < 92
                } {
                    0
                } else {
                    writing_room(key, value)
                },
                None => adding_room(s.data, key, value),
            };
            &&& r is Ok <==> s.used + taken <= s.data.len()
            &&& r is Ok ==> t.used == s.used + taken
        }),
{
    let g = choose|g: Layout| #[trigger] describes(g, s);
    let path = segments(key);
    lemma_segments_ok(key);
    lemma_segments_join(key);
    lemma_node(s, g, 0);
    assert(g.nodes[0].path + path =~= path);
    lemma_find_node(s, g, key);
    lemma_missing_key(s, g, key);
    assert(record_room(key, value) == writing_room(key, value));
    let h = lemma_ensure_path(s, g, 0, path);
    let (t, r) = ensure_path(s, 0, path);
    lemma_ensure_found(s, 0, path);
    if g.index.dom().contains(path) {
        let x = g.index[path];
        lemma_node(s, g, x);
        let p = g.nodes[x].prop;
        if p != 0 {
            assert(rec_fits(s, g, p));
            lemma_read_record(s.data, p, g.recs[p]);
            lemma_replace_room(s, g, x, key, value);
        } else {
            lemma_attach_room(s, x, key, value);
        }
    } else if let Ok(x) = r {
        lemma_node(t, h, x);
        assert(content_at(h, path) == content_at(g, path));
        lemma_attach_room(t, x, key, value);
    }
}

/// A property can be written to a shared area exactly where there is a place for
/// it. One that is there takes the value if it fits in the place of the old one,
/// to the last word; else nothing changes. One that is not there is added if
/// there is room for its missing nodes, its record and its value.
pub proof fn law_live_upsert_room(l: Live, key: Seq<u8>, value: Seq<u8>)
    requires
        well_formed(held(l)),
        good_key(key),
    ensures
        lookup(l.data, key) is Ok,
        ({
            let (m, r) = live_upsert(l, key, value);
            match lookup(l.data, key)->Ok_0 {
                Some(p) => {
                    let room = if p.is_long {
                        in_words(p.value.len() as int + 1) - 1
                    } else {
                        91
                    };
                    &&& r == if value.len() <= room {
                        MmapResult::Ok(())
                    } else {
                        Err(MmapPropAreaError::ValueTooLong { len: value.len() as usize })
                    }
                    &&& m.used == l.used
                    &&& r is Err ==> m == l
                },
                None => {
                    let end = l.used + adding_room(l.data, key, value);
                    &&& r == if end <= l.data.len() {
                        MmapResult::Ok(())
                    } else {
                        Err(MmapPropAreaError::AreaFull)
                    }
                    &&& r is Ok ==> m.used == end
                },
            }
        }),
{
    let s = held(l);
    let g = choose|g: Layout| #[trigger] describes(g, s);
    let path = segments(key);
    assert(mirrors(l, s));
    lemma_find_node(s, g, key);
    lemma_live_find(l, s, g, key);
    if content_at(g, path) is Some {
        let x = g.index[path];
        lemma_node(s, g, x);
        lemma_update_room(l, g, x, value);
    } else {
        if g.index.dom().contains(path) {
            lemma_node(s, g, g.index[path]);
        }
        lemma_add_room(l, g, key, value);
    }
}

/// Updating the property of a node.
proof fn lemma_update_room(l: Live, g: Layout, x: int, value: Seq<u8>)
    requires
        describes(g, held(l)),
        g.nodes.dom().contains(x),
        g.nodes[x].prop != 0,
    ensures
        ({
            let p = g.nodes[x].prop;
            let n = g.recs[p].value.len() as int;
            let room = if g.recs[p].long is Some {
                in_words(n + 1) - 1
            } else {
                91
            };
            let (m, r) = live_update(l, p, value);
            &&& read_record(l.data, p) == Ok::<RecordView, AreaFault>(rec_view(p, g.recs[p]))
            &&& r == if value.len() <= room {
                MmapResult::Ok(())
            } else {
                Err(MmapPropAreaError::ValueTooLong { len: value.len() as usize })
            }
            &&& m.used == l.used
            &&& r is Err ==> m == l
        }),
{
    let s = held(l);
    let p = g.nodes[x].prop;
    lemma_node(s, g, x);
    assert(rec_fits(s, g, p));
    lemma_read_record(s.data, p, g.recs[p]);
    lemma_slot(s, g, p);
    law_update_refused(l, p, value);
    lemma_update_mark(l, p, value);
    let r = live_update(l, p, value).1;
    assert(r is Ok ==> r->Ok_0 == ());
}

/// Adding a property that is not there.
proof fn lemma_add_room(l: Live, g: Layout, key: Seq<u8>, value: Seq<u8>)
    requires
        describes(g, held(l)),
        good_key(key),
        content_at(g, segments(key)) is None,
    ensures
        ({
            let (m, r) = live_add(l, key, value);
            let end = l.used + adding_room(l.data, key, value);
            &&& r == if end <= l.data.len() {
                MmapResult::Ok(())
            } else {
                Err(MmapPropAreaError::AreaFull)
            }
            &&& r is Ok ==> m.used == end
        }),
{
    let s = held(l);
    let path = segments(key);
    lemma_segments_ok(key);
    lemma_segments_join(key);
    lemma_node(s, g, 0);
    lemma_missing_key(s, g, key);
    assert(record_room(key, value) == writing_room(key, value));
    let h = lemma_live_ensure_path(l, g, 0, key);
    let (m, r) = live_traverse(l, 0, key, true);
    assert(g.nodes[0].path + path =~= path);
    if let Ok(Some(x)) = r {
        lemma_node(held(m), h, x);
        lemma_live_kids(held(m), h, x);
        assert(content_at(h, path) == content_at(g, path));
        assert(u32_at(m.data, x + 4) == 0) by {
            reveal(node_bytes);
        }
        lemma_record_refused(m, key, value);
        lemma_added_mark(l, key, value, m, x);
    }
}

/// An update does not move the fill mark, and says why it is refused.
proof fn lemma_update_mark(l: Live, off: int, value: Seq<u8>)
    ensures
        live_update(l, off, value).0.used == l.used,
        live_update(l, off, value).1 is Err && value_slot(
            l.data,
            off,
        ) is Ok ==> live_update(l, off, value).1 == MmapResult::<()>::Err(
            MmapPropAreaError::ValueTooLong { len: value.len() as usize },
        ),
{
    reveal(live_update);
    reveal(Live::emit);
}

/// Where an addition to a node ends.
proof fn lemma_added_mark(l: Live, key: Seq<u8>, value: Seq<u8>, m: Live, x: int)
    requires
        live_traverse(l, 0, key, true) == (m, MmapResult::Ok(Some(x))),
        0 <= x,
        x + 8 <= m.data.len(),
        u32_at(m.data, x + 4) == 0,
    ensures
        ({
            let (k, made) = live_record(m, key, value);
            let (n, r) = live_add(l, key, value);
            &&& n.used == k.used
            &&& r == match made {
                Some(_) => MmapResult::Ok(()),
                None => Err(MmapPropAreaError::AreaFull),
            }
        }),
{
    reveal(Live::emit);
}

} // verus!
