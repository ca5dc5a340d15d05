//! Well-formed property areas stay well formed as records come and go.
use crate::area_edit::{
    attach_record, detach_record, inline_laid, legacy_message, lemma_legacy_message, long_laid,
};
use crate::area_growth::{
    agree, lemma_node_same, lemma_rec_owned, lemma_rec_same, lemma_word_same, records_kept,
};
use crate::area_layout::{
    describes, is_link, join, lemma_node, lemma_read_record, link_fits, link_of, long_size, name_of,
    node_bytes, node_fits, node_size, owned, plain_text, rec_bytes, rec_bytes_at, rec_fits,
    rec_size, string_at, content_at, content_of, Layout, NodeInfo, Owner, RecInfo,
};
use crate::area_state::{long_serial, AreaState, Content};
use crate::bytes::{lemma_le_bytes, lemma_put_u32, put, put_u32, u32_at, zero};
use crate::prop_info::align4;
use vstd::prelude::*;

verus! {

/// Whether the record at `p`, or its long value, owns the byte.
pub open spec fn of_record(w: Owner, p: int) -> bool {
    p != 0 && (w == Owner::Record(p) || w == Owner::Long(p))
}

/// The layout with the record of the node at `x` replaced.
pub open spec fn with_record(
    g: Layout,
    x: int,
    new: Option<(int, RecInfo)>,
    own: spec_fn(int) -> Owner,
) -> Layout {
    let kept = g.recs.remove(g.nodes[x].prop);
    Layout {
        nodes: g.nodes.insert(
            x,
            NodeInfo {
                prop: match new {
                    None => 0,
                    Some(pr) => pr.0,
                },
                ..g.nodes[x]
            },
        ),
        recs: match new {
            None => kept,
            Some(pr) => kept.insert(pr.0, pr.1),
        },
        index: g.index,
        own,
    }
}

/// `t` is `s` with the record of the node at `x` replaced.
pub open spec fn rerecorded(
    s: AreaState,
    g: Layout,
    x: int,
    t: AreaState,
    new: Option<(int, RecInfo)>,
    own: spec_fn(int) -> Owner,
) -> bool {
    let old = g.nodes[x].prop;
    let h = with_record(g, x, new, own);
    &&& describes(g, s)
    &&& g.nodes.dom().contains(x)
    &&& x != 0
    &&& s.used <= t.used <= t.data.len() == s.data.len()
    // What belongs to other objects stays.
    &&& forall|b: int|
        0 <= b < s.used && !of_record(#[trigger] (g.own)(b), old) ==> own(b) == (g.own)(b)
    &&& forall|b: int|
        0 <= b < s.used && !of_record((g.own)(b), old) && (g.own)(b) != Owner::Node(x)
            ==> #[trigger] t.data[b] == s.data[b]
    &&& node_bytes(t.data, x, h.nodes[x])
    &&& match new {
        None => true,
        Some(pr) => {
            let (p, r) = pr;
            &&& p > 0
            &&& p == old || !g.recs.dom().contains(p)
            &&& r.node == x
            &&& x < p
            &&& r.name == join(g.nodes[x].path)
            &&& rec_bytes(t.data, p, r)
            &&& p + rec_size(r.name.len() as int) <= t.used
            &&& owned(own, Owner::Record(p), p, rec_size(r.name.len() as int))
            &&& r.long matches Some(at) ==> {
                &&& at + long_size(r.value.len() as int) <= t.used
                &&& owned(own, Owner::Long(p), at, long_size(r.value.len() as int))
            }
        },
    }
}

proof fn lemma_rerecorded_node(
    s: AreaState,
    g: Layout,
    x: int,
    t: AreaState,
    new: Option<(int, RecInfo)>,
    own: spec_fn(int) -> Owner,
    o: int,
)
    requires
        rerecorded(s, g, x, t, new, own),
        g.nodes.dom().contains(o),
    ensures
        node_fits(t, with_record(g, x, new, own), o),
{
    let h = with_record(g, x, new, own);
    let n = g.nodes[o];
    let size = node_size(name_of(n).len() as int);
    lemma_node(s, g, o);
    assert(name_of(h.nodes[o]) == name_of(n));
    assert(owned(own, Owner::Node(o), o, size)) by {
        assert forall|b: int| o <= b < o + size implies #[trigger] own(b) == Owner::Node(o) by {
            assert((g.own)(b) == Owner::Node(o));
        }
    }
    if o != x {
        assert(agree(s.data, t.data, o, size)) by {
            assert forall|b: int| o <= b < o + size implies #[trigger] t.data[b] == s.data[b] by {
                assert((g.own)(b) == Owner::Node(o));
            }
        }
        lemma_node_same(s.data, t.data, o, n);
        if n.prop != 0 {
            assert(rec_fits(s, g, n.prop));
            assert(n.prop != g.nodes[x].prop) by {
                if n.prop == g.nodes[x].prop {
                    lemma_node(s, g, x);
                }
            }
        }
    }
    assert forall|k: int| is_link(k) implies #[trigger] link_fits(h, o, k) by {
        assert(link_fits(g, o, k));
        assert(link_of(h.nodes[o], k) == link_of(n, k));
    }
    assert(link_fits(h, o, 8) && link_fits(h, o, 12) && link_fits(h, o, 16));
    if o != 0 {
        lemma_node(s, g, n.from);
    }
}

proof fn lemma_rerecorded_rec(
    s: AreaState,
    g: Layout,
    x: int,
    t: AreaState,
    new: Option<(int, RecInfo)>,
    own: spec_fn(int) -> Owner,
    p: int,
)
    requires
        rerecorded(s, g, x, t, new, own),
        g.recs.dom().contains(p),
        p != g.nodes[x].prop,
    ensures
        rec_fits(t, with_record(g, x, new, own), p),
{
    let h = with_record(g, x, new, own);
    let r = g.recs[p];
    let size = rec_size(r.name.len() as int);
    assert(rec_fits(s, g, p));
    lemma_rec_owned(s, g, p);
    assert(r.node != x);
    assert(owned(own, Owner::Record(p), p, size) && agree(s.data, t.data, p, size)) by {
        assert forall|b: int| p <= b < p + size implies #[trigger] own(b) == Owner::Record(p) by {
            assert((g.own)(b) == Owner::Record(p));
        }
        assert forall|b: int| p <= b < p + size implies #[trigger] t.data[b] == s.data[b] by {
            assert((g.own)(b) == Owner::Record(p));
        }
    }
    if let Some(at) = r.long {
        let room = long_size(r.value.len() as int);
        assert(owned(own, Owner::Long(p), at, room) && agree(s.data, t.data, at, room)) by {
            assert forall|b: int| at <= b < at + room implies #[trigger] own(b) == Owner::Long(p) by {
                assert((g.own)(b) == Owner::Long(p));
            }
            assert forall|b: int| at <= b < at + room implies #[trigger] t.data[b] == s.data[b] by {
                assert((g.own)(b) == Owner::Long(p));
            }
        }
    }
    lemma_rec_same(s.data, t.data, p, r);
    lemma_node(s, g, r.node);
    assert(match new {
        None => true,
        Some(pr) => pr.0 != p,
    });
    assert(h.recs[p] == r);
    assert(h.nodes[r.node] == g.nodes[r.node]);
}

/// Replacing the record of one node keeps the area well formed and changes the
/// value of that node only.
pub proof fn lemma_rerecorded(
    s: AreaState,
    g: Layout,
    x: int,
    t: AreaState,
    new: Option<(int, RecInfo)>,
    own: spec_fn(int) -> Owner,
)
    requires
        rerecorded(s, g, x, t, new, own),
    ensures
        describes(with_record(g, x, new, own), t),
        forall|q: Seq<Seq<u8>>| #[trigger]
            content_at(with_record(g, x, new, own), q) == if q == g.nodes[x].path {
                match new {
                    None => None,
                    Some(pr) => Some(content_of(pr.1)),
                }
            } else {
                content_at(g, q)
            },
{
    let h = with_record(g, x, new, own);
    lemma_node(s, g, x);
    assert forall|o: int| h.nodes.dom().contains(o) implies #[trigger] node_fits(t, h, o) by {
        lemma_rerecorded_node(s, g, x, t, new, own, o);
    }
    assert forall|p: int| h.recs.dom().contains(p) implies #[trigger] rec_fits(t, h, p) by {
        let fresh = match new {
            None => false,
            Some(pr) => pr.0 == p,
        };
        if !fresh {
            lemma_rerecorded_rec(s, g, x, t, new, own, p);
        }
    }
    assert forall|q: Seq<Seq<u8>>| #[trigger] h.index.dom().contains(q) implies h.nodes.dom().contains(
        h.index[q],
    ) && h.nodes[h.index[q]].path == q by {
        lemma_node(s, g, g.index[q]);
    }
    assert forall|q: Seq<Seq<u8>>| #[trigger] content_at(h, q) == if q == g.nodes[x].path {
        match new {
            None => None,
            Some(pr) => Some(content_of(pr.1)),
        }
    } else {
        content_at(g, q)
    } by {
        if g.index.dom().contains(q) && q != g.nodes[x].path {
            let o = g.index[q];
            lemma_node(s, g, o);
            let p = g.nodes[o].prop;
            if p != 0 {
                assert(rec_fits(s, g, p));
            }
        }
    }
}

/// Changing the record that a node refers to.
pub proof fn lemma_reprop(d: Seq<u8>, o: int, n: NodeInfo, p: int)
    requires
        node_bytes(d, o, n),
        0 <= p <= u32::MAX,
    ensures
        node_bytes(put_u32(d, o + 4, p), o, NodeInfo { prop: p, ..n }),
{
    reveal(node_bytes);
    let e = put_u32(d, o + 4, p);
    lemma_put_u32(d, o + 4, p);
    lemma_le_bytes(p);
    let m = NodeInfo { prop: p, ..n };
    assert(name_of(m) == name_of(n));
    assert(u32_at(d, o) == u32_at(e, o));
    assert(u32_at(d, o + 8) == u32_at(e, o + 8));
    assert(u32_at(d, o + 12) == u32_at(e, o + 12));
    assert(u32_at(d, o + 16) == u32_at(e, o + 16));
}

/// The area after a new record was attached to the node at `x` and given the
/// serial `v`.
pub open spec fn attached(s: AreaState, x: int, key: Seq<u8>, value: Seq<u8>, v: int) -> AreaState {
    let t = attach_record(s, x, key, value).0;
    t.with(put_u32(t.data, s.used, v))
}

/// The record of a new property.
pub open spec fn new_record(s: AreaState, x: int, key: Seq<u8>, value: Seq<u8>, v: int) -> RecInfo {
    RecInfo {
        name: key,
        value,
        serial: v,
        long: if value.len() < 92 {
            None
        } else {
            Some(s.used + rec_size(key.len() as int))
        },
        node: x,
    }
}

/// The bytes of a new inline record.
proof fn lemma_inline_bytes(d: Seq<u8>, p: int, x: int, r: RecInfo, v: int)
    requires
        r.serial == v,
        0 <= x,
        x + 20 <= p,
        r.long is None,
        r.value.len() < 92,
        plain_text(r.name),
        plain_text(r.value),
        p + rec_size(r.name.len() as int) <= d.len() <= u32::MAX,
        0 <= v <= u32::MAX,
        !long_serial(v),
    ensures
        ({
            let z = zero(d, p, rec_size(r.name.len() as int));
            let e = put_u32(put(inline_laid(z, p, r.value), p + 96, r.name), x + 4, p);
            rec_bytes(put_u32(e, p, v), p, r)
        }),
{
    reveal(rec_bytes_at);
    let z = zero(d, p, rec_size(r.name.len() as int));
    let e = put_u32(put(inline_laid(z, p, r.value), p + 96, r.name), x + 4, p);
    let f = put_u32(e, p, v);
    lemma_le_bytes(p);
    lemma_le_bytes(v);
    lemma_put_u32(e, p, v);
    assert(string_at(f, p + 96, r.name));
    assert(string_at(f, p + 4, r.value));
}

/// The bytes of a new long record.
proof fn lemma_long_bytes(d: Seq<u8>, p: int, x: int, r: RecInfo, v: int)
    requires
        r.serial == v,
        0 <= x,
        x + 20 <= p,
        r.long == Some(p + rec_size(r.name.len() as int)),
        plain_text(r.name),
        plain_text(r.value),
        p + rec_size(r.name.len() as int) + long_size(r.value.len() as int) <= d.len() <= u32::MAX,
        0 <= v <= u32::MAX,
        long_serial(v),
    ensures
        ({
            let n = rec_size(r.name.len() as int);
            let z = zero(zero(d, p, n), p + n, long_size(r.value.len() as int));
            let e = put_u32(put(long_laid(z, p, p + n, r.value), p + 96, r.name), x + 4, p);
            rec_bytes(put_u32(e, p, v), p, r)
        }),
{
    reveal(rec_bytes_at);
    lemma_legacy_message();
    let n = rec_size(r.name.len() as int);
    let at = p + n;
    let z = zero(zero(d, p, n), at, long_size(r.value.len() as int));
    let w = put(zero(z, p + 4, 92), p + 4, legacy_message());
    let w2 = put_u32(w, p + 60, n);
    let e = put_u32(put(long_laid(z, p, at, r.value), p + 96, r.name), x + 4, p);
    let f = put_u32(e, p, v);
    lemma_le_bytes(p);
    lemma_le_bytes(v);
    lemma_le_bytes(n);
    lemma_put_u32(w, p + 60, n);
    lemma_put_u32(e, p, v);
    assert(agree(w2, f, p + 60, 4));
    lemma_word_same(w2, f, p + 60, 4, p + 60);
    assert(string_at(f, p + 96, r.name));
    assert(string_at(f, at, r.value));
}

/// What attaching a record changes in the bytes.
proof fn lemma_attached_bytes(s: AreaState, x: int, key: Seq<u8>, value: Seq<u8>, v: int)
    requires
        0 <= x,
        x + 20 <= s.used <= s.data.len() <= u32::MAX,
        plain_text(key),
        plain_text(value),
        attach_record(s, x, key, value).1 is Ok,
        0 <= v <= u32::MAX,
        long_serial(v) == (value.len() >= 92),
    ensures
        ({
            let f = attached(s, x, key, value, v);
            let n = rec_size(key.len() as int);
            &&& attach_record(s, x, key, value).1->Ok_0.prop_offset == s.used
            &&& f.data.len() == s.data.len()
            &&& f.used == s.used + n + if value.len() < 92 {
                0
            } else {
                long_size(value.len() as int)
            }
            &&& f.used <= s.data.len()
            &&& rec_bytes(f.data, s.used, new_record(s, x, key, value, v))
            &&& agree(put_u32(s.data, x + 4, s.used), f.data, 0, s.used)
        }),
{
    let p = s.used;
    let r = new_record(s, x, key, value, v);
    let n = rec_size(key.len() as int);
    assert(align4(97 + key.len() as int) == n);
    lemma_le_bytes(p);
    lemma_le_bytes(v);
    lemma_legacy_message();
    if value.len() < 92 {
        lemma_inline_bytes(s.data, p, x, r, v);
    } else {
        assert(align4(value.len() as int + 1) == long_size(value.len() as int));
        lemma_long_bytes(s.data, p, x, r, v);
    }
}

/// Attaching a record to a node without one.
pub proof fn lemma_attach(s: AreaState, g: Layout, x: int, key: Seq<u8>, value: Seq<u8>, v: int) -> (h:
    Layout)
    requires
        describes(g, s),
        g.nodes.dom().contains(x),
        x != 0,
        g.nodes[x].prop == 0,
        key == join(g.nodes[x].path),
        plain_text(key),
        plain_text(value),
        attach_record(s, x, key, value).1 is Ok,
        0 <= v <= u32::MAX,
        long_serial(v) == (value.len() >= 92),
    ensures
        attach_record(s, x, key, value).1->Ok_0.prop_offset == s.used,
        describes(h, attached(s, x, key, value, v)),
        forall|q: Seq<Seq<u8>>| #[trigger]
            content_at(h, q) == if q == g.nodes[x].path {
                Some(Content { value, is_long: value.len() >= 92, serial: v })
            } else {
                content_at(g, q)
            },
        records_kept(s, g, attached(s, x, key, value, v), h),
        h.recs.dom().contains(s.used),
        h.recs[s.used] == new_record(s, x, key, value, v),
        attached(s, x, key, value, v).used == s.used + rec_size(key.len() as int) + if value.len()
            < 92 {
            0
        } else {
            long_size(value.len() as int)
        },
        attached(s, x, key, value, v).data.len() == s.data.len(),
{
    let p = s.used;
    let f = attached(s, x, key, value, v);
    let r = new_record(s, x, key, value, v);
    let n = rec_size(key.len() as int);
    let own = |b: int|
        if p <= b < p + n {
            Owner::Record(p)
        } else if p + n <= b {
            Owner::Long(p)
        } else {
            (g.own)(b)
        };
    let new = Some((p, r));
    lemma_node(s, g, x);
    lemma_attached_bytes(s, x, key, value, v);
    lemma_le_bytes(p);
    let e = put_u32(s.data, x + 4, p);
    let room = node_size(name_of(g.nodes[x]).len() as int);
    lemma_reprop(s.data, x, g.nodes[x], p);
    lemma_node_same(e, f.data, x, NodeInfo { prop: p, ..g.nodes[x] });
    assert forall|b: int| 0 <= b < s.used && (g.own)(b) != Owner::Node(x) implies #[trigger] f.data[b]
        == s.data[b] by {
        if x + 4 <= b < x + 8 {
            assert((g.own)(b) == Owner::Node(x));
        }
        assert(e[b] == s.data[b]);
    }
    if g.recs.dom().contains(p) {
        lemma_rec_owned(s, g, p);
    }
    assert(rerecorded(s, g, x, f, new, own));
    lemma_rerecorded(s, g, x, f, new, own);
    let h = with_record(g, x, new, own);
    assert(records_kept(s, g, f, h)) by {
        reveal(records_kept);
        assert forall|q: int| #[trigger] g.recs.dom().contains(q) implies h.recs.dom().contains(q)
            && h.recs[q] == g.recs[q] by {
            assert(rec_fits(s, g, q));
        }
    }
    h
}

/// The region with the value of the record at `p` replaced in its place, and
/// the serial `v` given to it.
pub open spec fn updated(d: Seq<u8>, p: int, r: RecInfo, value: Seq<u8>, v: int) -> Seq<u8> {
    put_u32(
        match r.long {
            None => inline_laid(d, p, value),
            Some(at) => put(zero(d, at, r.value.len() as int + 1), at, value),
        },
        p,
        v,
    )
}

/// A value fits in the place of the old one.
pub open spec fn fits_in_place(r: RecInfo, value: Seq<u8>) -> bool {
    if r.long is Some {
        value.len() <= r.value.len()
    } else {
        value.len() < 92
    }
}

/// The bytes of an updated record.
proof fn lemma_updated_bytes(d: Seq<u8>, p: int, r: RecInfo, value: Seq<u8>, v: int)
    requires
        rec_bytes(d, p, r),
        d.len() <= u32::MAX,
        plain_text(value),
        fits_in_place(r, value),
        0 <= v <= u32::MAX,
        long_serial(v) == (r.long is Some),
    ensures
        rec_bytes(updated(d, p, r, value, v), p, RecInfo { value, serial: v, ..r }),
{
    reveal(rec_bytes_at);
    let f = updated(d, p, r, value, v);
    lemma_le_bytes(v);
    match r.long {
        None => {
            let e = inline_laid(d, p, value);
            lemma_put_u32(e, p, v);
            assert forall|j: int| p + 4 <= j < f.len() implies #[trigger] f[j] == e[j] by {}
            assert(string_at(f, p + 4, value));
            assert forall|j: int| p + 96 <= j < f.len() implies #[trigger] f[j] == d[j] by {
                assert(f[j] == e[j]);
            }
        },
        Some(at) => {
            let e = put(zero(d, at, r.value.len() as int + 1), at, value);
            lemma_put_u32(e, p, v);
            assert forall|j: int| p + 4 <= j < f.len() implies #[trigger] f[j] == e[j] by {}
            assert(string_at(f, at, value));
            assert forall|j: int| p + 4 <= j < at implies #[trigger] f[j] == d[j] by {
                assert(f[j] == e[j]);
            }
            assert(agree(d, f, p + 60, 4));
            lemma_word_same(d, f, p + 60, 4, p + 60);
        },
    }
    assert(string_at(f, p + 96, r.name));
}

/// Updating a record in its place.
pub proof fn lemma_update(s: AreaState, g: Layout, x: int, value: Seq<u8>, v: int) -> (h: Layout)
    requires
        describes(g, s),
        g.nodes.dom().contains(x),
        g.nodes[x].prop != 0,
        plain_text(value),
        fits_in_place(g.recs[g.nodes[x].prop], value),
        0 <= v <= u32::MAX,
        long_serial(v) == (g.recs[g.nodes[x].prop].long is Some),
    ensures
        describes(
            h,
            s.with(updated(s.data, g.nodes[x].prop, g.recs[g.nodes[x].prop], value, v)),
        ),
        forall|q: Seq<Seq<u8>>| #[trigger]
            content_at(h, q) == if q == g.nodes[x].path {
                Some(
                    Content {
                        value,
                        is_long: g.recs[g.nodes[x].prop].long is Some,
                        serial: v,
                    },
                )
            } else {
                content_at(g, q)
            },
        h.index == g.index,
        h.nodes == g.nodes,
        h.recs[g.nodes[x].prop] == (RecInfo { value, serial: v, ..g.recs[g.nodes[x].prop] }),
{
    let p = g.nodes[x].prop;
    lemma_node(s, g, x);
    let r = g.recs[p];
    let r2 = RecInfo { value, serial: v, ..r };
    let f = s.with(updated(s.data, p, r, value, v));
    let new = Some((p, r2));
    assert(rec_fits(s, g, p));
    lemma_rec_owned(s, g, p);
    lemma_le_bytes(v);
    lemma_updated_bytes(s.data, p, r, value, v);
    assert forall|b: int| 0 <= b < s.used && !of_record((g.own)(b), p) implies #[trigger] f.data[b]
        == s.data[b] by {
        if p <= b < p + 96 {
            assert((g.own)(b) == Owner::Record(p));
        }
        if let Some(at) = r.long {
            if at <= b < at + r.value.len() + 1 {
                assert((g.own)(b) == Owner::Long(p));
            }
        }
    }
    let room = node_size(name_of(g.nodes[x]).len() as int);
    assert(agree(s.data, f.data, x, room)) by {
        assert forall|b: int| x <= b < x + room implies #[trigger] f.data[b] == s.data[b] by {
            assert((g.own)(b) == Owner::Node(x));
        }
    }
    lemma_node_same(s.data, f.data, x, g.nodes[x]);
    assert(rerecorded(s, g, x, f, new, g.own));
    lemma_rerecorded(s, g, x, f, new, g.own);
    with_record(g, x, new, g.own)
}

/// Taking the record away from a node.
pub proof fn lemma_detach(s: AreaState, g: Layout, x: int) -> (h: Layout)
    requires
        describes(g, s),
        g.nodes.dom().contains(x),
        g.nodes[x].prop != 0,
    ensures
        detach_record(s.data, x, g.nodes[x].prop).1 is Ok,
        describes(h, s.with(detach_record(s.data, x, g.nodes[x].prop).0)),
        h.nodes.dom() == g.nodes.dom(),
        h.nodes[x] == (NodeInfo { prop: 0, ..g.nodes[x] }),
        forall|q: Seq<Seq<u8>>| #[trigger]
            content_at(h, q) == if q == g.nodes[x].path {
                None
            } else {
                content_at(g, q)
            },
{
    let p = g.nodes[x].prop;
    lemma_node(s, g, x);
    let r = g.recs[p];
    assert(rec_fits(s, g, p));
    lemma_rec_owned(s, g, p);
    let n = g.nodes[x];
    let e = put_u32(s.data, x + 4, 0);
    let f = s.with(detach_record(s.data, x, p).0);
    lemma_le_bytes(0);
    assert forall|b: int| 0 <= b < s.used && (g.own)(b) != Owner::Node(x) implies #[trigger] e[b]
        == s.data[b] by {
        if x + 4 <= b < x + 8 {
            assert((g.own)(b) == Owner::Node(x));
        }
    }
    crate::area_growth::lemma_rec_untouched(s, g, p, e, x);
    lemma_read_record(e, p, r);
    reveal(rec_bytes_at);
    assert forall|b: int| 0 <= b < s.used && !of_record((g.own)(b), p) implies #[trigger] f.data[b]
        == e[b] by {
        if p <= b < p + rec_size(r.name.len() as int) {
            assert((g.own)(b) == Owner::Record(p));
        }
        if let Some(at) = r.long {
            if at <= b < at + r.value.len() + 1 {
                assert((g.own)(b) == Owner::Long(p));
            }
        }
    }
    let m = NodeInfo { prop: 0, ..n };
    let room = node_size(name_of(n).len() as int);
    lemma_reprop(s.data, x, n, 0);
    assert(agree(e, f.data, x, room)) by {
        assert forall|b: int| x <= b < x + room implies #[trigger] f.data[b] == e[b] by {
            assert((g.own)(b) == Owner::Node(x));
        }
    }
    lemma_node_same(e, f.data, x, m);
    assert(rerecorded(s, g, x, f, None, g.own));
    lemma_rerecorded(s, g, x, f, None, g.own);
    let h = with_record(g, x, None, g.own);
    assert(h.nodes.dom() =~= g.nodes.dom());
    h
}

} // verus!
