//! What those who read a shared area see of a write.
use crate::area_keys::{lemma_segments_distinct, lemma_segments_join};
use crate::area_laws::good_key;
use crate::area_layout::{
    content_at, describes, lemma_lookup, lemma_node, plain_text, rec_bytes_at,
    rec_fits, rec_size, string_at, well_formed, Layout, Owner,
};
use crate::area_state::{
    dot_index, key_ok, lemma_dot_index, lookup_content, max_steps, segments, AreaState, Content,
};
use crate::area_growth::records_kept;
use crate::area_order::lemma_entry_path;
use crate::area_records::of_record;
use crate::bytes::{lemma_nul_index, lemma_nul_index_is, lemma_word_bounds, nul_index, u32_at};
use crate::live_area::{
    dirty, least, live_child, live_find, live_inline_record, live_linked, live_long_record,
    live_read, live_sibling, live_traverse, live_update, live_upsert, short_text, word, Live,
    MmapResult, OpView,
};
use crate::live_laws::{
    held, law_update_refused, lemma_live_find, lemma_live_upsert, others_kept, upserted,
};
use vstd::prelude::*;
use vstd::utf8::decode_utf8;

verus! {

/// A string that stands somewhere is read.
proof fn lemma_short_text(d: Seq<u8>, at: int, b: Seq<u8>, limit: int)
    requires
        string_at(d, at, b),
        plain_text(b),
        b.len() <= limit,
    ensures
        short_text(d, at, limit) == Some(decode_utf8(b)),
{
    reveal(plain_text);
    let end = if d.len() - at <= limit + 1 {
        d.len() as int
    } else {
        at + limit + 1
    };
    let n = at + b.len();
    assert forall|i: int| at <= i < n implies d[i] != 0 by {
        assert(d[i] == b[i - at]);
    }
    lemma_nul_index_is(d, at, end, n);
    assert(d.subrange(at, n) =~= b);
}

/// The name and the value are short enough to be read.
pub open spec fn readable(key: Seq<u8>, c: Content) -> bool {
    &&& key.len() <= 256
    &&& if c.is_long {
        c.value.len() <= 1024
    } else {
        c.serial / 0x100_0000 == c.value.len()
    }
}

/// What is stored for a property is what is read at the place of its record.
proof fn lemma_read(l: Live, s: AreaState, g: Layout, key: Seq<u8>)
    requires
        describes(g, s),
        l.used == s.used,
        l.data == s.data,
        key_ok(key),
        content_at(g, segments(key)) is Some,
        readable(key, content_at(g, segments(key))->0),
    ensures
        live_find(l, key) == MmapResult::Ok(Some(g.nodes[g.index[segments(key)]].prop)),
        live_read(l.data, g.nodes[g.index[segments(key)]].prop) == Some(
            (decode_utf8(key), decode_utf8(content_at(g, segments(key))->0.value)),
        ),
{
    lemma_live_find(l, s, g, key);
    let x = g.index[segments(key)];
    lemma_node(s, g, x);
    let p = g.nodes[x].prop;
    let r = g.recs[p];
    assert(rec_fits(s, g, p));
    assert(g.nodes[x].path == segments(key));
    lemma_segments_join(key);
    reveal(rec_bytes_at);
    lemma_short_text(s.data, p + 96, r.name, 256);
    match r.long {
        Some(at) => {
            lemma_short_text(s.data, at, r.value, 1024);
        },
        None => {
            reveal(plain_text);
            let n = r.value.len() as int;
            assert(s.data.subrange(p + 4, p + 4 + n) =~= r.value);
        },
    }
}

/// What is stored for a property is what is read where it is found.
pub proof fn law_live_read(l: Live, key: Seq<u8>)
    requires
        well_formed(held(l)),
        key_ok(key),
        lookup_content(l.data, key) matches Ok(Some(c)) && readable(key, c),
    ensures
        live_find(l, key) matches Ok(Some(off)) && live_read(l.data, off) == Some(
            (decode_utf8(key), decode_utf8((lookup_content(l.data, key)->Ok_0->0).value)),
        ),
{
    let s = held(l);
    let g = choose|g: Layout| #[trigger] describes(g, s);
    lemma_lookup(s, g, key);
    lemma_read(l, s, g, key);
}

/// The serial of an inline property that was written tells its length.
proof fn lemma_upserted_serial(before: Option<Content>, value: Seq<u8>)
    requires
        !upserted(before, value).is_long,
        value.len() < 92,
    ensures
        upserted(before, value).serial / 0x100_0000 == value.len(),
{
    let n = value.len() as int;
    assert(n % 0x100 == n);
    match before {
        Some(c) => {
            let k = dirty(c.serial) % 0x100_0000 / 2 * 2;
            assert(0 <= k < 0x100_0000);
            assert(upserted(before, value).serial == n * 0x100_0000 + k);
        },
        None => {
            assert(upserted(before, value).serial == n * 0x100_0000);
        },
    }
}

/// How often those who wait for any change are told.
pub open spec fn announcements(ops: Seq<OpView>) -> int
    decreases ops.len(),
{
    if ops.len() == 0 {
        0
    } else {
        announcements(ops.drop_last()) + if ops.last() is BumpGlobalSerial {
            1int
        } else {
            0
        }
    }
}

/// As many announcements as before, in an area of the same size.
spec fn quiet(l: Live, m: Live) -> bool {
    announcements(m.ops) == announcements(l.ops) && m.data.len() == l.data.len()
}

proof fn lemma_emit(l: Live, op: OpView)
    ensures
        announcements(l.emit(op).ops) == announcements(l.ops) + if op is BumpGlobalSerial {
            1int
        } else {
            0
        },
        l.emit(op).data.len() == l.data.len(),
{
    reveal(Live::emit);
    assert(l.ops.push(op).drop_last() =~= l.ops);
}

proof fn lemma_emit_all()
    ensures
        forall|l: Live, op: OpView|
            #![trigger l.emit(op)]
            announcements(l.emit(op).ops) == announcements(l.ops) + if op is BumpGlobalSerial {
                1int
            } else {
                0
            } && l.emit(op).data.len() == l.data.len(),
{
    assert forall|l: Live, op: OpView|
        #![trigger l.emit(op)]
        announcements(l.emit(op).ops) == announcements(l.ops) + if op is BumpGlobalSerial {
            1int
        } else {
            0
        } && l.emit(op).data.len() == l.data.len() by {
        lemma_emit(l, op);
    }
}

proof fn lemma_linked_quiet(l: Live, at: int, name: Seq<u8>)
    ensures
        quiet(l, live_linked(l, at, name).0),
{
    lemma_emit_all();
}

proof fn lemma_sibling_quiet(l: Live, off: int, key: Seq<u8>, alloc: bool, steps: nat)
    ensures
        quiet(l, live_sibling(l, off, key, alloc, steps).0),
    decreases steps,
{
    lemma_linked_quiet(l, off + 8, key);
    lemma_linked_quiet(l, off + 12, key);
    if steps > 0 {
        lemma_sibling_quiet(l, u32_at(l.data, off + 8), key, alloc, (steps - 1) as nat);
        lemma_sibling_quiet(l, u32_at(l.data, off + 12), key, alloc, (steps - 1) as nat);
    }
}

proof fn lemma_child_quiet(l: Live, off: int, piece: Seq<u8>, alloc: bool)
    ensures
        quiet(l, live_child(l, off, piece, alloc).0),
{
    let steps = max_steps(l.data.len() as int);
    lemma_linked_quiet(l, off + 16, piece);
    lemma_sibling_quiet(l, u32_at(l.data, off + 16), piece, alloc, steps);
    let (m, r) = live_linked(l, off + 16, piece);
    if let Ok(Some(new)) = r {
        lemma_sibling_quiet(m, new, piece, alloc, steps);
    }
}

proof fn lemma_traverse_quiet(l: Live, off: int, rest: Seq<u8>, alloc: bool)
    ensures
        quiet(l, live_traverse(l, off, rest, alloc).0),
    decreases rest.len(),
{
    let dot = dot_index(rest, 0);
    lemma_dot_index(rest, 0);
    lemma_child_quiet(l, off, rest.take(dot), alloc);
    let (m, r) = live_child(l, off, rest.take(dot), alloc);
    if let Ok(Some(next)) = r {
        if dot < rest.len() {
            lemma_traverse_quiet(m, next, rest.skip(dot + 1), alloc);
        }
    }
}

proof fn lemma_update_announced(l: Live, off: int, value: Seq<u8>)
    ensures
        live_update(l, off, value).0.data.len() == l.data.len(),
        live_update(l, off, value).1 is Ok ==> announcements(live_update(l, off, value).0.ops)
            == announcements(l.ops) + 1,
{
    reveal(live_update);
    lemma_emit_all();
}

proof fn lemma_records_quiet(l: Live, name: Seq<u8>, value: Seq<u8>)
    ensures
        quiet(l, live_inline_record(l, name, value).0),
        quiet(l, live_long_record(l, name, value).0),
{
    lemma_emit_all();
}

/// A write is announced once where it succeeds, and keeps the size of the area.
proof fn lemma_upsert_announced(l: Live, key: Seq<u8>, value: Seq<u8>)
    ensures
        live_upsert(l, key, value).0.data.len() == l.data.len(),
        live_upsert(l, key, value).1 is Ok ==> announcements(live_upsert(l, key, value).0.ops)
            == announcements(l.ops) + 1,
{
    match live_find(l, key) {
        Ok(Some(off)) => {
            lemma_update_announced(l, off, value);
        },
        _ => {
            lemma_traverse_quiet(l, 0, key, true);
            let (m, r) = live_traverse(l, 0, key, true);
            if let Ok(Some(node)) = r {
                if let Some(prop) = word(m.data, node + 4) {
                    if prop != 0 {
                        lemma_update_announced(m, prop, value);
                    } else {
                        lemma_records_quiet(m, key, value);
                        lemma_emit_all();
                    }
                }
            }
        },
    }
}

/// Those who wait for any change are told of a write once.
pub proof fn law_live_announced(l: Live, key: Seq<u8>, value: Seq<u8>)
    requires
        live_upsert(l, key, value).1 is Ok,
    ensures
        announcements(live_upsert(l, key, value).0.ops) == announcements(l.ops) + 1,
{
    lemma_upsert_announced(l, key, value);
}

/// What was written to a shared area can be read.
proof fn lemma_written_readable(l: Live, s: AreaState, g: Layout, key: Seq<u8>, value: Seq<u8>)
    requires
        describes(g, s),
        l.used == s.used,
        l.data == s.data,
        key_ok(key),
        key.len() <= 256,
        value.len() <= 1024,
        live_upsert(l, key, value).1 is Ok,
    ensures
        readable(key, upserted(content_at(g, segments(key)), value)),
{
    let before = content_at(g, segments(key));
    if !upserted(before, value).is_long {
        lemma_written_fits(l, s, g, key, value);
        lemma_upserted_serial(before, value);
    }
}

/// What was written to a shared area is read where it is found.
pub proof fn law_live_upsert_read(l: Live, key: Seq<u8>, value: Seq<u8>)
    requires
        well_formed(held(l)),
        good_key(key),
        plain_text(value),
        key.len() <= 256,
        value.len() <= 1024,
        live_upsert(l, key, value).1 is Ok,
    ensures
        ({
            let m = live_upsert(l, key, value).0;
            live_find(m, key) matches Ok(Some(off)) && live_read(m.data, off) == Some(
                (decode_utf8(key), decode_utf8(value)),
            )
        }),
{
    let s = held(l);
    let g = choose|g: Layout| #[trigger] describes(g, s);
    lemma_written_readable(l, s, g, key, value);
    let h = lemma_live_upsert(l, s, g, key, value);
    let m = live_upsert(l, key, value).0;
    let path = segments(key);
    assert(content_at(h, path) == Some(upserted(content_at(g, path), value)));
    assert(upserted(content_at(g, path), value).value == value);
    lemma_read(m, held(m), h, key);
}

/// A property that was there keeps its place when it is written.
pub proof fn law_live_upsert_place(l: Live, key: Seq<u8>, value: Seq<u8>)
    requires
        well_formed(held(l)),
        good_key(key),
        plain_text(value),
        live_find(l, key) matches Ok(Some(_)),
        live_upsert(l, key, value).1 is Ok,
    ensures
        live_find(live_upsert(l, key, value).0, key) == live_find(l, key),
{
    let s = held(l);
    let g = choose|g: Layout| #[trigger] describes(g, s);
    let h = lemma_live_upsert(l, s, g, key, value);
    let m = live_upsert(l, key, value).0;
    lemma_live_find(l, s, g, key);
    lemma_live_find(m, held(m), h, key);
}

/// A value that was written inline is short.
proof fn lemma_written_fits(l: Live, s: AreaState, g: Layout, key: Seq<u8>, value: Seq<u8>)
    requires
        describes(g, s),
        l.used == s.used,
        l.data == s.data,
        key_ok(key),
        live_upsert(l, key, value).1 is Ok,
        !upserted(content_at(g, segments(key)), value).is_long,
    ensures
        value.len() < 92,
{
    lemma_live_find(l, s, g, key);
    if content_at(g, segments(key)) is Some {
        let x = g.index[segments(key)];
        lemma_node(s, g, x);
        let p = g.nodes[x].prop;
        assert(rec_fits(s, g, p));
        reveal(rec_bytes_at);
        law_update_refused(l, p, value);
    }
}

/// A string in bytes that stay is read as before.
proof fn lemma_short_same(d: Seq<u8>, e: Seq<u8>, at: int, b: Seq<u8>, limit: int)
    requires
        string_at(d, at, b),
        plain_text(b),
        0 <= limit,
        d.len() == e.len(),
        forall|i: int| at <= i <= at + b.len() ==> #[trigger] e[i] == d[i],
    ensures
        short_text(e, at, limit) == short_text(d, at, limit),
{
    if b.len() <= limit {
        assert(string_at(e, at, b)) by {
            assert forall|j: int| at <= j < at + b.len() implies #[trigger] e[j] == b[j - at] by {
                assert(d[j] == b[j - at]);
            }
        }
        lemma_short_text(d, at, b, limit);
        lemma_short_text(e, at, b, limit);
    } else {
        reveal(plain_text);
        let end = at + limit + 1;
        assert forall|i: int| at <= i < end implies #[trigger] d[i] != 0 && e[i] != 0 by {
            assert(d[i] == b[i - at]);
            assert(e[i] == d[i]);
        }
        lemma_nul_index(d, at, end);
        lemma_nul_index(e, at, end);
    }
}

/// The bytes of the record at `p`, and of its long value, stay as they are.
spec fn record_stays(s: AreaState, g: Layout, t: AreaState, p: int) -> bool {
    forall|b: int|
        0 <= b < s.used && of_record((g.own)(b), p) ==> #[trigger] t.data[b] == s.data[b]
}

/// A record in bytes that stay is read as before.
proof fn lemma_read_same(s: AreaState, g: Layout, t: AreaState, p: int)
    requires
        describes(g, s),
        g.recs.dom().contains(p),
        record_stays(s, g, t, p),
        t.data.len() == s.data.len(),
    ensures
        live_read(t.data, p) == live_read(s.data, p),
{
    let d = s.data;
    let e = t.data;
    let r = g.recs[p];
    assert(rec_fits(s, g, p));
    reveal(rec_bytes_at);
    let n = rec_size(r.name.len() as int);
    assert forall|b: int| p <= b < p + n implies #[trigger] e[b] == d[b] by {
        assert((g.own)(b) == Owner::Record(p));
    }
    assert(u32_at(e, p) == u32_at(d, p));
    assert(u32_at(e, p + 60) == u32_at(d, p + 60));
    lemma_short_same(d, e, p + 96, r.name, 256);
    match r.long {
        Some(at) => {
            assert forall|b: int| at <= b <= at + r.value.len() implies #[trigger] e[b] == d[b] by {
                assert((g.own)(b) == Owner::Long(p));
            }
            lemma_short_same(d, e, at, r.value, 1024);
        },
        None => {
            let k = least(u32_at(d, p) / 0x100_0000, 92);
            lemma_word_bounds(d, p);
            assert(e.subrange(p + 4, p + 4 + k) =~= d.subrange(p + 4, p + 4 + k));
        },
    }
}

/// A record that stays belongs to the same key.
proof fn lemma_place_same(
    s: AreaState,
    g: Layout,
    t: AreaState,
    h: Layout,
    path: Seq<Seq<u8>>,
)
    requires
        describes(g, s),
        describes(h, t),
        content_at(g, path) is Some,
        ({
            let p = g.nodes[g.index[path]].prop;
            h.recs.dom().contains(p) && h.recs[p] == g.recs[p]
        }),
    ensures
        content_at(h, path) is Some,
        h.nodes[h.index[path]].prop == g.nodes[g.index[path]].prop,
{
    let o = g.index[path];
    lemma_node(s, g, o);
    let p = g.nodes[o].prop;
    assert(rec_fits(s, g, p));
    assert(rec_fits(t, h, p));
    lemma_node(t, h, o);
    lemma_entry_path(s, g, o);
    lemma_entry_path(t, h, o);
}

/// A write changes neither where another property is found nor what is read
/// there, whether the write succeeds or not.
pub proof fn law_live_upsert_others(l: Live, key: Seq<u8>, value: Seq<u8>, other: Seq<u8>)
    requires
        well_formed(held(l)),
        good_key(key),
        plain_text(value),
        key_ok(other),
        other != key,
    ensures
        ({
            let m = live_upsert(l, key, value).0;
            &&& live_find(m, other) == live_find(l, other)
            &&& live_find(l, other) matches Ok(Some(off)) ==> live_read(m.data, off) == live_read(
                l.data,
                off,
            )
        }),
{
    let s = held(l);
    let g = choose|g: Layout| #[trigger] describes(g, s);
    let h = lemma_live_upsert(l, s, g, key, value);
    let m = live_upsert(l, key, value).0;
    lemma_segments_distinct(key, other);
    assert(content_at(h, segments(other)) == content_at(g, segments(other)));
    lemma_live_find(l, s, g, other);
    lemma_live_find(m, held(m), h, other);
    if content_at(g, segments(other)) is Some {
        lemma_upsert_announced(l, key, value);
        lemma_other_same(s, g, held(m), h, segments(key), segments(other));
    }
}

/// Another property is found where it was, and read as it was.
proof fn lemma_other_same(
    s: AreaState,
    g: Layout,
    t: AreaState,
    h: Layout,
    own: Seq<Seq<u8>>,
    path: Seq<Seq<u8>>,
)
    requires
        describes(g, s),
        describes(h, t),
        t.data.len() == s.data.len(),
        content_at(g, path) is Some,
        path != own,
        match content_at(g, own) {
            Some(_) => others_kept(s, g, t, h, g.nodes[g.index[own]].prop),
            None => records_kept(s, g, t, h),
        },
    ensures
        h.nodes[h.index[path]].prop == g.nodes[g.index[path]].prop,
        live_read(t.data, g.nodes[g.index[path]].prop) == live_read(
            s.data,
            g.nodes[g.index[path]].prop,
        ),
{
    lemma_other_record(s, g, t, h, own, path);
    lemma_place_same(s, g, t, h, path);
    lemma_node(s, g, g.index[path]);
    lemma_read_same(s, g, t, g.nodes[g.index[path]].prop);
}

/// The record of another key stays.
proof fn lemma_other_record(
    s: AreaState,
    g: Layout,
    t: AreaState,
    h: Layout,
    own: Seq<Seq<u8>>,
    path: Seq<Seq<u8>>,
)
    requires
        describes(g, s),
        content_at(g, path) is Some,
        path != own,
        match content_at(g, own) {
            Some(_) => others_kept(s, g, t, h, g.nodes[g.index[own]].prop),
            None => records_kept(s, g, t, h),
        },
    ensures
        ({
            let p = g.nodes[g.index[path]].prop;
            &&& record_stays(s, g, t, p)
            &&& h.recs.dom().contains(p)
            &&& h.recs[p] == g.recs[p]
        }),
{
    reveal(others_kept);
    reveal(records_kept);
    let o = g.index[path];
    lemma_node(s, g, o);
    if content_at(g, own) is Some {
        let x = g.index[own];
        lemma_node(s, g, x);
        assert(g.nodes[x].prop != g.nodes[o].prop) by {
            assert(g.recs[g.nodes[x].prop].node == x);
        }
    }
}

/// A text that ends at a NUL byte is read where it is no longer than the limit, and
/// not at all where it is.
pub proof fn law_short_text(d: Seq<u8>, at: int, b: Seq<u8>, limit: int)
    requires
        string_at(d, at, b),
        plain_text(b),
        0 <= limit,
    ensures
        short_text(d, at, limit) == if b.len() <= limit {
            Some(decode_utf8(b))
        } else {
            None
        },
{
    reveal(plain_text);
    let end = if d.len() - at <= limit + 1 {
        d.len() as int
    } else {
        at + limit + 1
    };
    assert forall|i: int| at <= i < at + b.len() implies d[i] != 0 by {
        assert(d[i] == b[i - at]);
    }
    if b.len() <= limit {
        lemma_nul_index_is(d, at, end, at + b.len());
        assert(d.subrange(at, at + b.len()) =~= b);
    } else {
        lemma_nul_index(d, at, end);
        assert(nul_index(d, at, end) == end);
    }
}

} // verus!
