//! What holds of well-formed property areas as a whole.
use crate::area_edit::{
    attach_record, delete, detach_record, ensure_path, initial_serial, next_counter, replace_value,
    serial_len, set_with_serial, updated_serial,
};
use crate::area_growth::{
    lacks, lemma_ensure_found, lemma_ensure_path, lemma_kept_on, lemma_node_same, lemma_rec_owned,
    lemma_path_room, lemma_rec_same, path_room, records_kept, same_values,
};
use crate::area_keys::{lemma_segments_distinct, lemma_segments_join, lemma_segments_ok};
use crate::area_layout::{
    describes, join, lemma_find_node, lemma_lookup, lemma_node, lemma_read_record, long_size,
    name_of, node_bytes, node_fits, plain_text, rec_bytes_at, rec_fits, rec_size, content_at,
    content_of, well_formed, Layout, NodeInfo, Owner,
};
use crate::area_pruning::lemma_prune;
use crate::area_records::{fits_in_place, lemma_attach, lemma_detach, lemma_update, updated};
use crate::area_state::{
    fresh_area, key_ok, long_serial, lookup, lookup_content, lookup_value, segments, AreaFault,
    AreaState, Content,
};
use crate::bytes::{put_u32, u32_at};
use crate::prop_info::PropView;
use vstd::prelude::*;

verus! {

/// Updating the property called `key` in place carries its update counter into
/// the bit that marks the long layout.
pub open spec fn counter_carries(s: AreaState, key: Seq<u8>) -> bool {
    match lookup(s.data, key) {
        Ok(Some(p)) => !p.is_long && next_counter(u32_at(s.data, p.prop_offset)) / 0x1_0000 % 2
            == 1,
        _ => false,
    }
}

/// The serials that a set gives mark the layout that it used.
proof fn lemma_serials(old: int, len: int, is_long: bool)
    requires
        0 <= old <= u32::MAX,
        0 <= len,
    ensures
        0 <= initial_serial(len, is_long) <= u32::MAX,
        long_serial(initial_serial(len, is_long)) == is_long,
        0 <= updated_serial(old, len, is_long) <= u32::MAX,
        is_long || next_counter(old) / 0x1_0000 % 2 == 0 ==> long_serial(
            updated_serial(old, len, is_long),
        ) == is_long,
{
    let top = len % 0x100;
    assert(initial_serial(len, is_long) / 0x1_0000 == top * 0x100 + if is_long {
        1int
    } else {
        0
    });
    let c = next_counter(old);
    let d = if is_long && c / 0x1_0000 % 2 == 0 {
        c + 0x1_0000
    } else {
        c
    };
    assert(0 <= d < 0x100_0000);
    assert(updated_serial(old, len, is_long) / 0x1_0000 == top * 0x100 + d / 0x1_0000);
}

/// The key is text without NUL, no name in it is empty.
pub open spec fn good_key(key: Seq<u8>) -> bool {
    key_ok(key) && plain_text(key)
}

/// A value fits in the place of what is stored.
pub open spec fn fits(c: Content, value: Seq<u8>) -> bool {
    if c.is_long {
        value.len() <= c.value.len()
    } else {
        value.len() < 92
    }
}

/// What is stored for a property after it was set, where `before` was stored.
/// A value that fits keeps the layout; another one has the layout that goes with
/// its length, and a new serial.
pub open spec fn set_content(before: Option<Content>, value: Seq<u8>) -> Content {
    match before {
        Some(c) if fits(c, value) => Content {
            value,
            is_long: c.is_long,
            serial: updated_serial(c.serial, shown_len(value, c.is_long), c.is_long),
        },
        _ => {
            let is_long = value.len() >= 92;
            Content {
                value,
                is_long,
                serial: initial_serial(shown_len(value, is_long), is_long),
            }
        },
    }
}

/// The length that a serial records.
pub open spec fn shown_len(value: Seq<u8>, is_long: bool) -> int {
    if is_long {
        50
    } else {
        value.len() as int
    }
}

/// What is stored for a path stays, or is gone.
pub open spec fn stays_or_goes(g: Layout, h: Layout, path: Seq<Seq<u8>>) -> bool {
    content_at(h, path) is None || content_at(h, path) == content_at(g, path)
}

/// A layout after a record was given to a node: all values but one stay.
pub open spec fn others_stay(g: Layout, h: Layout, path: Seq<Seq<u8>>) -> bool {
    forall|q: Seq<Seq<u8>>| q != path ==> #[trigger] content_at(h, q) == content_at(g, q)
}

/// Giving a record to a node that has none, in the course of a set.
pub proof fn lemma_set_attach(s: AreaState, g: Layout, x: int, key: Seq<u8>, value: Seq<u8>) -> (h:
    Layout)
    requires
        describes(g, s),
        g.nodes.dom().contains(x),
        x != 0,
        g.nodes[x].prop == 0,
        key == join(g.nodes[x].path),
        plain_text(key),
        plain_text(value),
    ensures
        ({
            let (t, r) = attach_record(s, x, key, value);
            match r {
                Ok(w) => {
                    let f = t.with(
                        put_u32(t.data, w.prop_offset, initial_serial(w.serial_len, w.is_long)),
                    );
                    &&& w.created
                    &&& describes(h, f)
                    &&& content_at(h, g.nodes[x].path) == Some(set_content(None, value))
                    &&& others_stay(g, h, g.nodes[x].path)
                    &&& records_kept(s, g, f, h)
                },
                Err(_) => describes(h, t) && same_values(g, h) && records_kept(s, g, t, h),
            }
        }),
{
    let (t, r) = attach_record(s, x, key, value);
    match r {
        Ok(w) => {
            let v = initial_serial(w.serial_len, w.is_long);
            lemma_serials(0, w.serial_len, w.is_long);
            lemma_attach(s, g, x, key, value, v)
        },
        Err(_) => {
            lemma_spare_room(s, g, t);
            assert(records_kept(s, g, t, g)) by {
                reveal(records_kept);
            }
            g
        },
    }
}

/// Bytes that were taken and not used do no harm.
pub proof fn lemma_spare_room(s: AreaState, g: Layout, t: AreaState)
    requires
        describes(g, s),
        s.used <= t.used <= t.data.len() == s.data.len(),
        forall|b: int| 0 <= b < s.used ==> #[trigger] t.data[b] == s.data[b],
    ensures
        describes(g, t),
{
    assert forall|o: int| g.nodes.dom().contains(o) implies #[trigger] node_fits(t, g, o) by {
        assert(node_fits(s, g, o));
        lemma_node(s, g, o);
        lemma_node_same(s.data, t.data, o, g.nodes[o]);
    }
    assert forall|p: int| g.recs.dom().contains(p) implies #[trigger] rec_fits(t, g, p) by {
        assert(rec_fits(s, g, p));
        lemma_rec_owned(s, g, p);
        lemma_rec_same(s.data, t.data, p, g.recs[p]);
    }
}

/// Setting a property whose node has a record.
proof fn lemma_set_replace(s: AreaState, g: Layout, x: int, key: Seq<u8>, value: Seq<u8>) -> (h:
    Layout)
    requires
        describes(g, s),
        g.nodes.dom().contains(x),
        g.nodes[x].prop != 0,
        key == join(g.nodes[x].path),
        plain_text(key),
        plain_text(value),
        g.recs[g.nodes[x].prop].long is Some || next_counter(u32_at(s.data, g.nodes[x].prop))
            / 0x1_0000 % 2 == 0,
    ensures
        ({
            let (t, r) = replace_value(s, x, g.nodes[x].prop, key, value);
            match r {
                Ok(w) => {
                    let v = if w.created {
                        initial_serial(w.serial_len, w.is_long)
                    } else {
                        updated_serial(w.serial, w.serial_len, w.is_long)
                    };
                    let f = t.with(put_u32(t.data, w.prop_offset, v));
                    &&& describes(h, f)
                    &&& content_at(h, g.nodes[x].path) == Some(
                        set_content(Some(content_of(g.recs[g.nodes[x].prop])), value),
                    )
                    &&& others_stay(g, h, g.nodes[x].path)
                },
                Err(_) => describes(h, t) && others_stay(g, h, g.nodes[x].path) && stays_or_goes(
                    g,
                    h,
                    g.nodes[x].path,
                ),
            }
        }),
{
    let p = g.nodes[x].prop;
    lemma_node(s, g, x);
    let rec = g.recs[p];
    assert(rec_fits(s, g, p));
    lemma_read_record(s.data, p, rec);
    if serial_len(value, rec.long is Some) is Err {
        g
    } else if fits_in_place(rec, value) {
        lemma_replace_in_place(s, g, x, key, value)
    } else {
        lemma_replace_elsewhere(s, g, x, key, value)
    }
}

/// A value that fits is put in the place of the old one.
proof fn lemma_replace_in_place(s: AreaState, g: Layout, x: int, key: Seq<u8>, value: Seq<u8>) -> (h:
    Layout)
    requires
        describes(g, s),
        g.nodes.dom().contains(x),
        g.nodes[x].prop != 0,
        plain_text(value),
        fits_in_place(g.recs[g.nodes[x].prop], value),
        serial_len(value, g.recs[g.nodes[x].prop].long is Some) is Ok,
        g.recs[g.nodes[x].prop].long is Some || next_counter(u32_at(s.data, g.nodes[x].prop))
            / 0x1_0000 % 2 == 0,
    ensures
        ({
            let p = g.nodes[x].prop;
            let (t, r) = replace_value(s, x, p, key, value);
            let w = r->Ok_0;
            let v = updated_serial(w.serial, w.serial_len, w.is_long);
            &&& r is Ok
            &&& !w.created
            &&& describes(h, t.with(put_u32(t.data, w.prop_offset, v)))
            &&& content_at(h, g.nodes[x].path) == Some(
                set_content(Some(content_of(g.recs[p])), value),
            )
            &&& others_stay(g, h, g.nodes[x].path)
        }),
{
    let p = g.nodes[x].prop;
    lemma_node(s, g, x);
    let rec = g.recs[p];
    assert(rec_fits(s, g, p));
    lemma_read_record(s.data, p, rec);
    assert(u32_at(s.data, p) == rec.serial) by {
        reveal(rec_bytes_at);
    }
    let is_long = rec.long is Some;
    let (t, r) = replace_value(s, x, p, key, value);
    let w = r->Ok_0;
    assert(w.serial_len == shown_len(value, is_long));
    let v = updated_serial(w.serial, w.serial_len, w.is_long);
    crate::bytes::lemma_word_bounds(s.data, p);
    lemma_serials(w.serial, w.serial_len, is_long);
    let h = lemma_update(s, g, x, value, v);
    assert(t.with(put_u32(t.data, w.prop_offset, v)) == s.with(updated(s.data, p, rec, value, v)));
    h
}

/// A value that does not fit gets a new record.
proof fn lemma_replace_elsewhere(s: AreaState, g: Layout, x: int, key: Seq<u8>, value: Seq<u8>) -> (h:
    Layout)
    requires
        describes(g, s),
        g.nodes.dom().contains(x),
        g.nodes[x].prop != 0,
        key == join(g.nodes[x].path),
        plain_text(key),
        plain_text(value),
        !fits_in_place(g.recs[g.nodes[x].prop], value),
        serial_len(value, g.recs[g.nodes[x].prop].long is Some) is Ok,
    ensures
        ({
            let p = g.nodes[x].prop;
            let (t, r) = replace_value(s, x, p, key, value);
            match r {
                Ok(w) => {
                    let v = initial_serial(w.serial_len, w.is_long);
                    &&& w.created
                    &&& describes(h, t.with(put_u32(t.data, w.prop_offset, v)))
                    &&& content_at(h, g.nodes[x].path) == Some(
                        set_content(Some(content_of(g.recs[p])), value),
                    )
                    &&& others_stay(g, h, g.nodes[x].path)
                },
                Err(_) => describes(h, t) && others_stay(g, h, g.nodes[x].path) && stays_or_goes(
                    g,
                    h,
                    g.nodes[x].path,
                ),
            }
        }),
{
    let p = g.nodes[x].prop;
    lemma_node(s, g, x);
    assert(rec_fits(s, g, p));
    lemma_read_record(s.data, p, g.recs[p]);
    let h = lemma_detach(s, g, x);
    let u = s.with(detach_record(s.data, x, p).0);
    lemma_node(u, h, x);
    let k = lemma_set_attach(u, h, x, key, value);
    assert(set_content(None, value) == set_content(Some(content_of(g.recs[p])), value));
    assert forall|q: Seq<Seq<u8>>| q != g.nodes[x].path implies #[trigger] content_at(k, q)
        == content_at(g, q) by {
        assert(content_at(k, q) == content_at(h, q));
    }
    k
}

/// Setting a property.
pub proof fn lemma_set(s: AreaState, g: Layout, key: Seq<u8>, value: Seq<u8>) -> (h: Layout)
    requires
        describes(g, s),
        good_key(key),
        plain_text(value),
        !counter_carries(s, key),
    ensures
        describes(h, set_with_serial(s, key, value).0),
        others_stay(g, h, segments(key)),
        set_with_serial(s, key, value).1 is Ok ==> content_at(h, segments(key)) == Some(
            set_content(content_at(g, segments(key)), value),
        ),
        set_with_serial(s, key, value).1 is Err ==> stays_or_goes(g, h, segments(key)),
        content_at(g, segments(key)) is None ==> records_kept(
            s,
            g,
            set_with_serial(s, key, value).0,
            h,
        ),
{
    let path = segments(key);
    lemma_segments_ok(key);
    lemma_segments_join(key);
    lemma_node(s, g, 0);
    assert(g.nodes[0].path + path =~= path);
    lemma_find_node(s, g, key);
    let g1 = lemma_ensure_path(s, g, 0, path);
    let (t, r) = ensure_path(s, 0, path);
    lemma_ensure_found(s, 0, path);
    match r {
        Err(_) => g1,
        Ok(x) => {
            lemma_node(t, g1, x);
            assert(content_at(g1, path) == content_at(g, path));
            let prop = g1.nodes[x].prop;
            if prop == 0 {
                let h = lemma_set_attach(t, g1, x, key, value);
                lemma_kept_on(s, g, t, g1, set_with_serial(s, key, value).0, h);
                assert forall|q: Seq<Seq<u8>>| q != path implies #[trigger] content_at(h, q)
                    == content_at(g, q) by {
                    assert(content_at(g1, q) == content_at(g, q));
                }
                h
            } else {
                // The node was there before, so nothing was added.
                assert(content_at(g, path) is Some);
                assert(t == s);
                lemma_node(s, g, x);
                let p = g.nodes[x].prop;
                assert(rec_fits(s, g, p));
                lemma_read_record(s.data, p, g.recs[p]);
                lemma_set_replace(s, g, x, key, value)
            }
        },
    }
}

/// What was set is found again, in the layout that goes with it, and nothing
/// that is stored for another property changes, whether the set succeeds or not.
///
/// The property's update counter must not run into the bit that marks the long
/// layout.
pub proof fn law_set_then_get(s: AreaState, key: Seq<u8>, value: Seq<u8>, other: Seq<u8>)
    requires
        well_formed(s),
        good_key(key),
        plain_text(value),
        !counter_carries(s, key),
        key_ok(other),
        other != key,
    ensures
        ({
            let (t, r) = set_with_serial(s, key, value);
            &&& well_formed(t)
            &&& r is Ok ==> lookup_value(t.data, key) == Ok::<Option<Seq<u8>>, AreaFault>(
                Some(value),
            )
            &&& r is Ok ==> lookup_content(t.data, key) == Ok::<Option<Content>, AreaFault>(
                Some(set_content(lookup_content(s.data, key)->Ok_0, value)),
            )
            &&& r is Err ==> lookup_content(t.data, key) == Ok::<Option<Content>, AreaFault>(None)
                || lookup_content(t.data, key) == lookup_content(s.data, key)
            &&& lookup_content(t.data, other) == lookup_content(s.data, other)
            &&& lookup_value(t.data, other) == lookup_value(s.data, other)
        }),
{
    let g = choose|g: Layout| #[trigger] describes(g, s);
    let h = lemma_set(s, g, key, value);
    let t = set_with_serial(s, key, value).0;
    lemma_lookup(t, h, key);
    lemma_lookup(s, g, key);
    lemma_lookup(t, h, other);
    lemma_lookup(s, g, other);
    lemma_segments_distinct(key, other);
    assert(content_at(h, segments(other)) == content_at(g, segments(other)));
}

/// A value that fits in the place of the old one is put there: nothing moves,
/// and no room is taken.
pub proof fn law_update_in_place(s: AreaState, key: Seq<u8>, value: Seq<u8>)
    requires
        well_formed(s),
        good_key(key),
        plain_text(value),
        !counter_carries(s, key),
        lookup(s.data, key) matches Ok(Some(p)) && if p.is_long {
            value.len() <= p.value.len()
        } else {
            value.len() < 92
        },
    ensures
        ({
            let (t, r) = set_with_serial(s, key, value);
            let p = lookup(s.data, key)->Ok_0->0;
            &&& r is Ok
            &&& t.used == s.used
            &&& lookup(t.data, key) == Ok::<Option<PropView>, AreaFault>(
                Some(PropView { value, ..p }),
            )
        }),
{
    let g = choose|g: Layout| #[trigger] describes(g, s);
    let path = segments(key);
    lemma_find_node(s, g, key);
    lemma_ensure_found(s, 0, path);
    let x = g.index[path];
    lemma_node(s, g, x);
    let p = g.nodes[x].prop;
    let rec = g.recs[p];
    assert(rec_fits(s, g, p));
    lemma_read_record(s.data, p, rec);
    let is_long = rec.long is Some;
    let len = serial_len(value, is_long)->Ok_0;
    let v = updated_serial(u32_at(s.data, p), len, is_long);
    crate::bytes::lemma_word_bounds(s.data, p);
    lemma_serials(u32_at(s.data, p), len, is_long);
    let h = lemma_update(s, g, x, value, v);
    let t = s.with(updated(s.data, p, rec, value, v));
    assert(set_with_serial(s, key, value) == (t, Ok::<(), AreaFault>(())));
    lemma_find_node(t, h, key);
    lemma_node(t, h, x);
    assert(rec_fits(t, h, p));
    lemma_read_record(t.data, p, h.recs[p]);
}

/// The bytes that a new record takes, with its value.
pub open spec fn record_room(key: Seq<u8>, value: Seq<u8>) -> int {
    rec_size(key.len() as int) + if value.len() < 92 {
        0
    } else {
        long_size(value.len() as int)
    }
}

/// The most bytes that setting a property takes.
pub open spec fn set_room(key: Seq<u8>, value: Seq<u8>) -> int {
    path_room(segments(key)) + record_room(key, value)
}

/// What giving a node a record takes.
pub proof fn lemma_attach_room(s: AreaState, node: int, key: Seq<u8>, value: Seq<u8>)
    requires
        0 <= s.used <= s.data.len() <= u32::MAX,
    ensures
        attach_record(s, node, key, value).1 is Err <==> lacks(s, record_room(key, value)),
        attach_record(s, node, key, value).1 is Ok ==> attach_record(s, node, key, value).0.used
            == s.used + record_room(key, value),
{
}

/// What giving a record a new value takes.
pub proof fn lemma_replace_room(s: AreaState, g: Layout, x: int, key: Seq<u8>, value: Seq<u8>)
    requires
        describes(g, s),
        g.nodes.dom().contains(x),
        g.nodes[x].prop != 0,
    ensures
        ({
            let (t, r) = replace_value(s, x, g.nodes[x].prop, key, value);
            if fits(content_of(g.recs[g.nodes[x].prop]), value) {
                r is Ok && t.used == s.used
            } else {
                &&& r is Err <==> lacks(s, record_room(key, value))
                &&& r is Ok ==> t.used == s.used + record_room(key, value)
            }
        }),
{
    let p = g.nodes[x].prop;
    lemma_node(s, g, x);
    assert(rec_fits(s, g, p));
    lemma_read_record(s.data, p, g.recs[p]);
    lemma_detach(s, g, x);
    let u = s.with(detach_record(s.data, x, p).0);
    lemma_attach_room(u, x, key, value);
}

/// A property can be set where there is room for it: for the nodes of its key,
/// its record and its value.
pub proof fn law_set_succeeds(s: AreaState, key: Seq<u8>, value: Seq<u8>)
    requires
        well_formed(s),
        good_key(key),
        s.used + set_room(key, value) <= s.data.len(),
    ensures
        set_with_serial(s, key, value).1 is Ok,
{
    let g = choose|g: Layout| #[trigger] describes(g, s);
    let path = segments(key);
    lemma_segments_ok(key);
    lemma_segments_join(key);
    lemma_node(s, g, 0);
    assert(g.nodes[0].path + path =~= path);
    let h = lemma_ensure_path(s, g, 0, path);
    lemma_path_room(g, g.nodes[0].path, path);
    let (t, r) = ensure_path(s, 0, path);
    if let Ok(x) = r {
        lemma_node(t, h, x);
        if h.nodes[x].prop == 0 {
            lemma_attach_room(t, x, key, value);
        } else {
            lemma_replace_room(t, h, x, key, value);
        }
    }
}

/// A fresh area is well formed and holds no property.
pub proof fn law_fresh_area(n: int, key: Seq<u8>)
    requires
        112 <= n <= u32::MAX,
        key_ok(key),
    ensures
        well_formed(fresh_area(n)),
        lookup_value(fresh_area(n).data, key) == Ok::<Option<Seq<u8>>, AreaFault>(None),
        lookup_content(fresh_area(n).data, key) == Ok::<Option<Content>, AreaFault>(None),
{
    let s = fresh_area(n);
    let root = NodeInfo {
        path: Seq::empty(),
        lo: None,
        hi: None,
        prop: 0,
        left: 0,
        right: 0,
        kids: 0,
        from: 0,
        slot: 0,
    };
    let g = Layout {
        nodes: Map::empty().insert(0, root),
        recs: Map::empty(),
        index: Map::empty().insert(root.path, 0),
        own: |b: int| Owner::Node(0),
    };
    assert(node_fits(s, g, 0)) by {
        reveal(node_bytes);
        reveal(plain_text);
        assert(name_of(root) =~= Seq::<u8>::empty());
    }
    assert(describes(g, s));
    lemma_lookup(s, g, key);
    lemma_segments_join(key);
}

/// Deleting a property.
pub proof fn lemma_delete(s: AreaState, g: Layout, key: Seq<u8>, pruned: bool) -> (h: Layout)
    requires
        describes(g, s),
        key_ok(key),
    ensures
        describes(h, delete(s, key, pruned).0),
        others_stay(g, h, segments(key)),
        content_at(h, segments(key)) is None,
        delete(s, key, pruned).1 == Ok::<bool, AreaFault>(content_at(g, segments(key)) is Some),
{
    let path = segments(key);
    lemma_find_node(s, g, key);
    if content_at(g, path) is Some {
        let x = g.index[path];
        lemma_node(s, g, x);
        let h = lemma_detach(s, g, x);
        let t = s.with(detach_record(s.data, x, g.nodes[x].prop).0);
        if pruned {
            let k = lemma_prune(t, h);
            assert forall|q: Seq<Seq<u8>>| q != path implies #[trigger] content_at(k, q) == content_at(
                g,
                q,
            ) by {
                assert(content_at(k, q) == content_at(h, q));
            }
            assert(content_at(k, path) == content_at(h, path));
            k
        } else {
            h
        }
    } else {
        if g.index.dom().contains(path) {
            lemma_node(s, g, g.index[path]);
        }
        g
    }
}

/// A deleted property is gone, and nothing that is stored for another property
/// changes. The report says whether there was such a property.
pub proof fn law_delete(s: AreaState, key: Seq<u8>, pruned: bool, other: Seq<u8>)
    requires
        well_formed(s),
        key_ok(key),
        key_ok(other),
        other != key,
    ensures
        ({
            let (t, r) = delete(s, key, pruned);
            &&& well_formed(t)
            &&& r == Ok::<bool, AreaFault>(
                lookup_value(s.data, key) != Ok::<Option<Seq<u8>>, AreaFault>(None),
            )
            &&& lookup_value(t.data, key) == Ok::<Option<Seq<u8>>, AreaFault>(None)
            &&& lookup_content(t.data, key) == Ok::<Option<Content>, AreaFault>(None)
            &&& lookup_value(t.data, other) == lookup_value(s.data, other)
            &&& lookup_content(t.data, other) == lookup_content(s.data, other)
        }),
{
    let g = choose|g: Layout| #[trigger] describes(g, s);
    let h = lemma_delete(s, g, key, pruned);
    let t = delete(s, key, pruned).0;
    lemma_lookup(t, h, key);
    lemma_lookup(t, h, other);
    lemma_lookup(s, g, key);
    lemma_lookup(s, g, other);
    lemma_segments_distinct(key, other);
    assert(content_at(h, segments(other)) == content_at(g, segments(other)));
}

/// Setting a property and deleting it again gives back the lookups from
/// before, where there was no such property.
pub proof fn law_set_then_delete(s: AreaState, key: Seq<u8>, value: Seq<u8>, pruned: bool, any: Seq<u8>)
    requires
        well_formed(s),
        good_key(key),
        plain_text(value),
        lookup_value(s.data, key) == Ok::<Option<Seq<u8>>, AreaFault>(None),
        set_with_serial(s, key, value).1 is Ok,
        key_ok(any),
    ensures
        ({
            let t = set_with_serial(s, key, value).0;
            let (u, r) = delete(t, key, pruned);
            &&& r == Ok::<bool, AreaFault>(true)
            &&& lookup_value(u.data, any) == lookup_value(s.data, any)
            &&& lookup_content(u.data, any) == lookup_content(s.data, any)
        }),
{
    let g = choose|g: Layout| #[trigger] describes(g, s);
    lemma_find_node(s, g, key);
    lemma_lookup(s, g, key);
    assert(!counter_carries(s, key));
    let h = lemma_set(s, g, key, value);
    let t = set_with_serial(s, key, value).0;
    let k = lemma_delete(t, h, key, pruned);
    let u = delete(t, key, pruned).0;
    lemma_lookup(u, k, any);
    lemma_lookup(s, g, any);
    let q = segments(any);
    if q != segments(key) {
        assert(content_at(k, q) == content_at(h, q));
        assert(content_at(h, q) == content_at(g, q));
    }
}

} // verus!
