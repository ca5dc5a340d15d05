//! Well-formed property areas stay well formed as properties are added.
use crate::area_edit::{create_linked, ensure_child, ensure_path, ensure_sibling, node_laid};
use crate::area_layout::{
    between, describes, is_link, lemma_child_behind, lemma_find_child, lemma_name_total, lemma_node,
    lemma_search_through, link_fits, link_of, long_size, name_of, node_bytes, node_fits, node_size,
    rec_bytes, rec_bytes_at, rec_fits, rec_size, segment_ok, sibling_path, string_at, content_at,
    Layout, NodeInfo, Owner, RecInfo,
};
use crate::area_state::{
    descend, find_sibling, max_steps, name_order, read_node, AreaFault, AreaState,
};
use crate::bytes::{lemma_le_bytes, lemma_put_u32, put_u32, u32_at, zero, KeyOrder};
use vstd::prelude::*;

verus! {

/// `d` and `e` agree on `n` bytes from `o` on.
pub open spec fn agree(d: Seq<u8>, e: Seq<u8>, o: int, n: int) -> bool {
    &&& d.len() == e.len()
    &&& forall|b: int| o <= b < o + n ==> #[trigger] e[b] == d[b]
}

pub proof fn lemma_word_same(d: Seq<u8>, e: Seq<u8>, o: int, n: int, i: int)
    requires
        agree(d, e, o, n),
        o <= i,
        i + 4 <= o + n,
    ensures
        u32_at(e, i) == u32_at(d, i),
{
    assert(e[i] == d[i]);
    assert(e[i + 1] == d[i + 1]);
    assert(e[i + 2] == d[i + 2]);
    assert(e[i + 3] == d[i + 3]);
}

pub proof fn lemma_string_same(d: Seq<u8>, e: Seq<u8>, o: int, n: int, at: int, b: Seq<u8>)
    requires
        agree(d, e, o, n),
        string_at(d, at, b),
        o <= at,
        at + b.len() < o + n,
    ensures
        string_at(e, at, b),
{
    assert(e[at + b.len()] == d[at + b.len()]);
}

/// A node depends on its own bytes only.
pub proof fn lemma_node_same(d: Seq<u8>, e: Seq<u8>, o: int, n: NodeInfo)
    requires
        node_bytes(d, o, n),
        agree(d, e, o, node_size(name_of(n).len() as int)),
    ensures
        node_bytes(e, o, n),
{
    reveal(node_bytes);
    let size = node_size(name_of(n).len() as int);
    lemma_word_same(d, e, o, size, o);
    lemma_word_same(d, e, o, size, o + 4);
    lemma_word_same(d, e, o, size, o + 8);
    lemma_word_same(d, e, o, size, o + 12);
    lemma_word_same(d, e, o, size, o + 16);
    if name_of(n).len() > 0 {
        lemma_string_same(d, e, o, size, o + 20, name_of(n));
    }
}

/// A record depends on its own bytes and those of its long value only.
pub proof fn lemma_rec_same(d: Seq<u8>, e: Seq<u8>, p: int, r: RecInfo)
    requires
        rec_bytes(d, p, r),
        agree(d, e, p, rec_size(r.name.len() as int)),
        r.long matches Some(at) ==> agree(d, e, at, long_size(r.value.len() as int)),
    ensures
        rec_bytes(e, p, r),
{
    reveal(rec_bytes_at);
    let size = rec_size(r.name.len() as int);
    lemma_word_same(d, e, p, size, p);
    lemma_word_same(d, e, p, size, p + 60);
    lemma_string_same(d, e, p, size, p + 96, r.name);
    match r.long {
        None => {
            lemma_string_same(d, e, p, size, p + 4, r.value);
        },
        Some(at) => {
            lemma_string_same(d, e, at, long_size(r.value.len() as int), at, r.value);
        },
    }
}

/// The node `n` with its reference at place `slot` changed.
pub open spec fn with_link(n: NodeInfo, slot: int, c: int) -> NodeInfo {
    if slot == 8 {
        NodeInfo { left: c, ..n }
    } else if slot == 12 {
        NodeInfo { right: c, ..n }
    } else {
        NodeInfo { kids: c, ..n }
    }
}

/// Changing one reference of a node.
pub proof fn lemma_relink(d: Seq<u8>, o: int, n: NodeInfo, slot: int, c: int)
    requires
        node_bytes(d, o, n),
        is_link(slot),
        0 <= c <= u32::MAX,
    ensures
        node_bytes(put_u32(d, o + slot, c), o, with_link(n, slot, c)),
{
    reveal(node_bytes);
    let e = put_u32(d, o + slot, c);
    lemma_put_u32(d, o + slot, c);
    lemma_le_bytes(c);
    let m = with_link(n, slot, c);
    assert(name_of(m) == name_of(n));
    assert(u32_at(d, o) == u32_at(e, o));
    assert(u32_at(d, o + 4) == u32_at(e, o + 4));
    if slot != 8 {
        assert(u32_at(d, o + 8) == u32_at(e, o + 8));
    }
    if slot != 12 {
        assert(u32_at(d, o + 12) == u32_at(e, o + 12));
    }
    if slot != 16 {
        assert(u32_at(d, o + 16) == u32_at(e, o + 16));
    }
}

/// A new node for the child called `y` of the node at `x`.
pub open spec fn fresh_node(g: Layout, x: int, slot: int, y: Seq<u8>) -> NodeInfo {
    let n = g.nodes[x];
    NodeInfo {
        path: if slot == 16 {
            n.path.push(y)
        } else {
            sibling_path(n, y)
        },
        lo: if slot == 16 {
            None
        } else if slot == 8 {
            n.lo
        } else {
            Some(name_of(n))
        },
        hi: if slot == 16 {
            None
        } else if slot == 8 {
            Some(name_of(n))
        } else {
            n.hi
        },
        prop: 0,
        left: 0,
        right: 0,
        kids: 0,
        from: x,
        slot,
    }
}

/// The layout with a new node at `c`, which the node at `x` refers to.
pub open spec fn with_node(g: Layout, x: int, slot: int, y: Seq<u8>, c: int, end: int) -> Layout {
    let n = fresh_node(g, x, slot, y);
    Layout {
        nodes: g.nodes.insert(x, with_link(g.nodes[x], slot, c)).insert(c, n),
        recs: g.recs,
        index: g.index.insert(n.path, c),
        own: |b: int|
            if c <= b < end {
                Owner::Node(c)
            } else {
                (g.own)(b)
            },
    }
}

/// The bytes of a node that was just laid out.
pub proof fn lemma_node_laid(d: Seq<u8>, c: int, n: NodeInfo)
    requires
        0 <= c,
        n.prop == 0 && n.left == 0 && n.right == 0 && n.kids == 0,
        segment_ok(name_of(n)),
        c + node_size(name_of(n).len() as int) <= d.len() <= u32::MAX,
    ensures
        node_bytes(
            node_laid(zero(d, c, node_size(name_of(n).len() as int)), c, name_of(n)),
            c,
            n,
        ),
{
    reveal(node_bytes);
    let y = name_of(n);
    let size = node_size(y.len() as int);
    let z = zero(d, c, size);
    let w = put_u32(z, c, y.len() as int);
    let e = node_laid(z, c, y);
    lemma_put_u32(z, c, y.len() as int);
    lemma_le_bytes(y.len() as int);
    assert(e[c] == w[c] && e[c + 1] == w[c + 1] && e[c + 2] == w[c + 2] && e[c + 3] == w[c + 3]);
    assert forall|b: int| c + 4 <= b < c + 20 implies e[b] == 0 by {}
    assert(string_at(e, c + 20, y));
}

/// A node called `y` belongs where the node at `x` refers to nothing yet, at
/// place `slot`.
pub open spec fn has_place(s: AreaState, g: Layout, x: int, slot: int, y: Seq<u8>) -> bool {
    &&& describes(g, s)
    &&& g.nodes.dom().contains(x)
    &&& is_link(slot)
    &&& slot != 16 ==> x != 0
    &&& link_of(g.nodes[x], slot) == 0
    &&& segment_ok(y)
    &&& !g.index.dom().contains(fresh_node(g, x, slot, y).path)
    &&& between(fresh_node(g, x, slot, y).lo, y, fresh_node(g, x, slot, y).hi)
}

/// A node called `y` can be added to the area as what the node at `x` refers
/// to at place `slot`.
pub open spec fn can_grow(s: AreaState, g: Layout, x: int, slot: int, y: Seq<u8>) -> bool {
    has_place(s, g, x, slot, y) && create_linked(s, x + slot, y).1 is Ok
}

/// What an area is after a node was added.
proof fn lemma_created(s: AreaState, at: int, y: Seq<u8>)
    requires
        0 <= s.used <= s.data.len() <= u32::MAX,
        y.len() > 0,
        create_linked(s, at, y).1 is Ok,
    ensures
        ({
            let size = node_size(y.len() as int);
            let laid = node_laid(zero(s.data, s.used, size), s.used, y);
            &&& create_linked(s, at, y).1 == Ok::<int, AreaFault>(s.used)
            &&& create_linked(s, at, y).0.used == s.used + size <= s.data.len()
            &&& create_linked(s, at, y).0.data == put_u32(laid, at, s.used)
        }),
{
}

/// What laying out a node behind `used` and referring to it changes.
proof fn lemma_laid_bytes(d: Seq<u8>, used: int, size: int, at: int, y: Seq<u8>)
    requires
        0 <= at,
        at + 4 <= used,
        20 + y.len() <= size,
        used + size <= d.len() <= u32::MAX,
    ensures
        ({
            let laid = node_laid(zero(d, used, size), used, y);
            let e = put_u32(laid, at, used);
            &&& e.len() == d.len()
            &&& forall|b: int|
                0 <= b < used && !(at <= b < at + 4) ==> #[trigger] e[b] == d[b]
            &&& agree(laid, e, used, size)
            &&& agree(put_u32(d, at, used), e, 0, used)
        }),
{
    lemma_le_bytes(used);
    lemma_le_bytes(y.len() as int);
}

/// What adding a node changes in the bytes.
proof fn lemma_grown_bytes(s: AreaState, g: Layout, x: int, slot: int, y: Seq<u8>)
    requires
        can_grow(s, g, x, slot, y),
    ensures
        ({
            let t = create_linked(s, x + slot, y).0;
            let size = node_size(y.len() as int);
            let laid = node_laid(zero(s.data, s.used, size), s.used, y);
            &&& create_linked(s, x + slot, y).1 == Ok::<int, AreaFault>(s.used)
            &&& t.used == s.used + size
            &&& t.used <= t.data.len() == s.data.len()
            &&& t.data == put_u32(laid, x + slot, s.used)
            &&& x + 20 <= s.used
            &&& forall|b: int|
                0 <= b < s.used && !(x + slot <= b < x + slot + 4) ==> #[trigger] t.data[b]
                    == s.data[b]
            &&& forall|b: int|
                0 <= b < s.used && #[trigger] (g.own)(b) != Owner::Node(x) ==> t.data[b]
                    == s.data[b]
            &&& agree(laid, t.data, s.used, size)
            &&& agree(put_u32(s.data, x + slot, s.used), t.data, 0, s.used)
        }),
{
    lemma_node(s, g, x);
    lemma_created(s, x + slot, y);
    lemma_laid_bytes(s.data, s.used, node_size(y.len() as int), x + slot, y);
    let t = create_linked(s, x + slot, y).0;
    assert forall|b: int| 0 <= b < s.used && #[trigger] (g.own)(b) != Owner::Node(x) implies t.data[b]
        == s.data[b] by {
        if x + slot <= b < x + slot + 4 {
            assert((g.own)(b) == Owner::Node(x));
        }
    }
}

/// The new node fits.
proof fn lemma_grown_new(s: AreaState, g: Layout, x: int, slot: int, y: Seq<u8>)
    requires
        can_grow(s, g, x, slot, y),
    ensures
        ({
            let t = create_linked(s, x + slot, y).0;
            node_fits(t, with_node(g, x, slot, y, s.used, t.used), s.used)
        }),
{
    lemma_grown_bytes(s, g, x, slot, y);
    let t = create_linked(s, x + slot, y).0;
    let h = with_node(g, x, slot, y, s.used, t.used);
    let n = fresh_node(g, x, slot, y);
    let size = node_size(y.len() as int);
    let laid = node_laid(zero(s.data, s.used, size), s.used, y);
    assert(name_of(n) == y);
    lemma_node(s, g, x);
    lemma_node_laid(s.data, s.used, n);
    lemma_node_same(laid, t.data, s.used, n);
    assert(h.nodes[s.used] == n);
    assert(link_of(h.nodes[x], slot) == s.used);
}

/// The node that refers to the new node fits.
proof fn lemma_grown_owner(s: AreaState, g: Layout, x: int, slot: int, y: Seq<u8>)
    requires
        can_grow(s, g, x, slot, y),
    ensures
        ({
            let t = create_linked(s, x + slot, y).0;
            node_fits(t, with_node(g, x, slot, y, s.used, t.used), x)
        }),
{
    lemma_grown_bytes(s, g, x, slot, y);
    let t = create_linked(s, x + slot, y).0;
    let c = s.used;
    let h = with_node(g, x, slot, y, c, t.used);
    let n = fresh_node(g, x, slot, y);
    let m = g.nodes[x];
    let room = node_size(name_of(m).len() as int);
    lemma_node(s, g, x);
    lemma_relink(s.data, x, m, slot, c);
    lemma_node_same(put_u32(s.data, x + slot, c), t.data, x, with_link(m, slot, c));
    assert(h.nodes[x] == with_link(m, slot, c));
    assert(h.nodes[c] == n);
    assert(name_of(h.nodes[x]) == name_of(m));
    assert(n.path.drop_last() =~= if slot == 16 {
        m.path
    } else {
        m.path.drop_last()
    });
    assert(link_fits(g, x, 8) && link_fits(g, x, 12) && link_fits(g, x, 16));
    assert(link_fits(h, x, slot));
    lemma_links_kept(s, g, x, slot, y, x);
    if x != 0 {
        assert(node_fits(s, g, m.from));
    }
}

/// References of an old node stay good.
proof fn lemma_links_kept(s: AreaState, g: Layout, x: int, slot: int, y: Seq<u8>, o: int)
    requires
        can_grow(s, g, x, slot, y),
        g.nodes.dom().contains(o),
    ensures
        ({
            let h = with_node(g, x, slot, y, s.used, create_linked(s, x + slot, y).0.used);
            forall|k: int|
                is_link(k) && !(o == x && k == slot) ==> #[trigger] link_fits(h, o, k)
        }),
{
    let h = with_node(g, x, slot, y, s.used, create_linked(s, x + slot, y).0.used);
    lemma_node(s, g, o);
    assert forall|k: int| is_link(k) && !(o == x && k == slot) implies #[trigger] link_fits(
        h,
        o,
        k,
    ) by {
        assert(link_fits(g, o, k));
        let d = link_of(g.nodes[o], k);
        assert(link_of(h.nodes[o], k) == d);
        if d != 0 {
            assert(node_fits(s, g, d));
            lemma_node(s, g, d);
            assert(d != s.used);
        }
    }
}

/// The other nodes fit.
proof fn lemma_grown_other(s: AreaState, g: Layout, x: int, slot: int, y: Seq<u8>, o: int)
    requires
        can_grow(s, g, x, slot, y),
        g.nodes.dom().contains(o),
        o != x,
    ensures
        ({
            let t = create_linked(s, x + slot, y).0;
            node_fits(t, with_node(g, x, slot, y, s.used, t.used), o)
        }),
{
    lemma_grown_bytes(s, g, x, slot, y);
    let t = create_linked(s, x + slot, y).0;
    let h = with_node(g, x, slot, y, s.used, t.used);
    let m = g.nodes[o];
    let room = node_size(name_of(m).len() as int);
    lemma_node(s, g, o);
    assert(agree(s.data, t.data, o, room)) by {
        assert forall|b: int| o <= b < o + room implies #[trigger] t.data[b] == s.data[b] by {
            assert((g.own)(b) == Owner::Node(o));
        }
    }
    lemma_node_same(s.data, t.data, o, m);
    assert(h.nodes[o] == m);
    lemma_links_kept(s, g, x, slot, y, o);
    assert(link_fits(h, o, 8) && link_fits(h, o, 12) && link_fits(h, o, 16));
    if o != 0 {
        assert(node_fits(s, g, m.from));
        lemma_node(s, g, m.from);
    }
}

/// Adding a node keeps the area well formed.
pub proof fn lemma_with_node(s: AreaState, g: Layout, x: int, slot: int, y: Seq<u8>)
    requires
        can_grow(s, g, x, slot, y),
    ensures
        create_linked(s, x + slot, y).1 == Ok::<int, AreaFault>(s.used),
        describes(
            with_node(g, x, slot, y, s.used, create_linked(s, x + slot, y).0.used),
            create_linked(s, x + slot, y).0,
        ),
{
    let t = create_linked(s, x + slot, y).0;
    let h = with_node(g, x, slot, y, s.used, t.used);
    lemma_grown_bytes(s, g, x, slot, y);
    assert forall|o: int| h.nodes.dom().contains(o) implies #[trigger] node_fits(t, h, o) by {
        if o == s.used {
            lemma_grown_new(s, g, x, slot, y);
        } else if o == x {
            lemma_grown_owner(s, g, x, slot, y);
        } else {
            lemma_grown_other(s, g, x, slot, y, o);
        }
    }
    assert forall|p: int| h.recs.dom().contains(p) implies #[trigger] rec_fits(t, h, p) by {
        assert(rec_fits(s, g, p));
        let r = g.recs[p];
        lemma_node(s, g, r.node);
        lemma_rec_untouched(s, g, p, t.data, x);
        lemma_rec_owned(s, g, p);
    }
    assert forall|q: Seq<Seq<u8>>| #[trigger] h.index.dom().contains(q) implies h.nodes.dom().contains(
        h.index[q],
    ) && h.nodes[h.index[q]].path == q by {
        if q != fresh_node(g, x, slot, y).path {
            lemma_node(s, g, g.index[q]);
        }
    }
}

/// The bytes of a record lie in the part of the region that is in use.
pub proof fn lemma_rec_owned(s: AreaState, g: Layout, p: int)
    requires
        describes(g, s),
        g.recs.dom().contains(p),
    ensures
        ({
            let r = g.recs[p];
            &&& 0 < p
            &&& p + rec_size(r.name.len() as int) <= s.used
            &&& r.long matches Some(at) ==> p + rec_size(r.name.len() as int) <= at && at
                + long_size(r.value.len() as int) <= s.used
        }),
{
    assert(rec_fits(s, g, p));
    reveal(rec_bytes_at);
}

/// A record stays where the bytes of one node at most were changed.
pub proof fn lemma_rec_untouched(s: AreaState, g: Layout, p: int, e: Seq<u8>, x: int)
    requires
        describes(g, s),
        g.recs.dom().contains(p),
        e.len() == s.data.len(),
        forall|b: int|
            0 <= b < s.used && #[trigger] (g.own)(b) != Owner::Node(x) ==> e[b] == s.data[b],
    ensures
        rec_bytes(e, p, g.recs[p]),
{
    assert(rec_fits(s, g, p));
    reveal(rec_bytes_at);
    let r = g.recs[p];
    assert(agree(s.data, e, p, rec_size(r.name.len() as int))) by {
        assert forall|b: int| p <= b < p + rec_size(r.name.len() as int) implies #[trigger] e[b]
            == s.data[b] by {
            assert((g.own)(b) == Owner::Record(p));
        }
    }
    if let Some(at) = r.long {
        assert(agree(s.data, e, at, long_size(r.value.len() as int))) by {
            assert forall|b: int| at <= b < at + long_size(r.value.len() as int) implies #[trigger] e[b]
                == s.data[b] by {
                assert((g.own)(b) == Owner::Long(p));
            }
        }
    }
    lemma_rec_same(s.data, e, p, r);
}

/// Both layouts hold the same values.
pub open spec fn same_values(g: Layout, h: Layout) -> bool {
    forall|q: Seq<Seq<u8>>| #[trigger] content_at(h, q) == content_at(g, q)
}

/// Why adding an object fails: the area is full, or the name is too long for
/// any area.
pub open spec fn no_room(f: AreaFault) -> bool {
    f is AreaFull || f == AreaFault::Corrupted("name too long"@)
}

/// There are fewer than `n` bytes left.
pub open spec fn lacks(s: AreaState, n: int) -> bool {
    s.used + n > s.data.len()
}

/// The bytes that the nodes of a path take.
pub open spec fn path_room(segs: Seq<Seq<u8>>) -> int
    decreases segs.len(),
{
    if segs.len() == 0 {
        0
    } else {
        node_size(segs[0].len() as int) + path_room(segs.skip(1))
    }
}

/// The bytes that the nodes take that are missing on the way from the node for
/// `base` along `segs`.
pub open spec fn missing_nodes(g: Layout, base: Seq<Seq<u8>>, segs: Seq<Seq<u8>>) -> int
    decreases segs.len(),
{
    if segs.len() == 0 {
        0
    } else {
        let next = base.push(segs[0]);
        new_room(g, next) + missing_nodes(g, next, segs.skip(1))
    }
}

/// The bytes that the node for a path takes, where it is missing.
pub open spec fn new_room(g: Layout, path: Seq<Seq<u8>>) -> int {
    if g.index.dom().contains(path) {
        0
    } else {
        node_size(path.last().len() as int)
    }
}

/// What is missing further down does not depend on the nodes up to `base`.
pub proof fn lemma_missing_below(
    g: Layout,
    h: Layout,
    base: Seq<Seq<u8>>,
    q: Seq<Seq<u8>>,
    segs: Seq<Seq<u8>>,
)
    requires
        h.index.dom() == g.index.dom().insert(q),
        q.len() <= base.len(),
    ensures
        missing_nodes(h, base, segs) == missing_nodes(g, base, segs),
    decreases segs.len(),
{
    if segs.len() > 0 {
        lemma_missing_below(g, h, base.push(segs[0]), q, segs.skip(1));
    }
}

/// What adding a node takes.
proof fn lemma_create_room(s: AreaState, at: int, y: Seq<u8>)
    requires
        0 <= s.used <= s.data.len() <= u32::MAX,
        y.len() > 0,
    ensures
        match create_linked(s, at, y) {
            (t, Ok(_)) => t.used == s.used + node_size(y.len() as int),
            (t, Err(f)) => no_room(f) && t == s && lacks(s, node_size(y.len() as int)),
        },
{
}

/// The missing nodes of a path take no more than all its nodes.
pub proof fn lemma_path_room(g: Layout, base: Seq<Seq<u8>>, segs: Seq<Seq<u8>>)
    ensures
        0 <= missing_nodes(g, base, segs) <= path_room(segs),
    decreases segs.len(),
{
    if segs.len() > 0 {
        lemma_path_room(g, base.push(segs[0]), segs.skip(1));
    }
}

/// No node is given up, and what is new starts where the area was free.
pub open spec fn grows(s: AreaState, g: Layout, t: AreaState, h: Layout) -> bool {
    &&& s.used <= t.used
    &&& forall|o: int| #[trigger] g.nodes.dom().contains(o) ==> h.nodes.dom().contains(o)
    &&& forall|o: int| #[trigger]
        h.nodes.dom().contains(o) ==> g.nodes.dom().contains(o) || o >= s.used
    &&& t == s || h.nodes.dom().contains(s.used)
    &&& records_kept(s, g, t, h)
}

/// The records stay as they are, byte by byte.
#[verifier::opaque]
pub open spec fn records_kept(s: AreaState, g: Layout, t: AreaState, h: Layout) -> bool {
    &&& forall|p: int| #[trigger]
        g.recs.dom().contains(p) ==> h.recs.dom().contains(p) && h.recs[p] == g.recs[p]
    &&& forall|b: int|
        0 <= b < s.used && !((g.own)(b) is Node) ==> #[trigger] t.data[b] == s.data[b] && (h.own)(b)
            == (g.own)(b)
}

pub proof fn lemma_kept_all(s: AreaState, g: Layout)
    ensures
        records_kept(s, g, s, g),
{
    reveal(records_kept);
}

pub proof fn lemma_kept_on(
    s: AreaState,
    g: Layout,
    t: AreaState,
    h: Layout,
    u: AreaState,
    k: Layout,
)
    requires
        records_kept(s, g, t, h),
        records_kept(t, h, u, k),
        s.used <= t.used,
    ensures
        records_kept(s, g, u, k),
{
    reveal(records_kept);
    assert forall|b: int| 0 <= b < s.used && !((g.own)(b) is Node) implies #[trigger] u.data[b]
        == s.data[b] && (k.own)(b) == (g.own)(b) by {
        assert(t.data[b] == s.data[b]);
    }
}

/// A new node changes no record.
pub proof fn lemma_kept_grown(s: AreaState, g: Layout, x: int, slot: int, y: Seq<u8>)
    requires
        can_grow(s, g, x, slot, y),
    ensures
        ({
            let t = create_linked(s, x + slot, y).0;
            records_kept(s, g, t, with_node(g, x, slot, y, s.used, t.used))
        }),
{
    reveal(records_kept);
    lemma_grown_bytes(s, g, x, slot, y);
}

/// A new node holds no value.
pub proof fn lemma_grown_values(s: AreaState, g: Layout, x: int, slot: int, y: Seq<u8>)
    requires
        can_grow(s, g, x, slot, y),
    ensures
        same_values(
            g,
            with_node(g, x, slot, y, s.used, create_linked(s, x + slot, y).0.used),
        ),
{
    let h = with_node(g, x, slot, y, s.used, create_linked(s, x + slot, y).0.used);
    assert forall|q: Seq<Seq<u8>>| #[trigger] content_at(h, q) == content_at(g, q) by {
        if g.index.dom().contains(q) {
            lemma_node(s, g, g.index[q]);
        }
    }
}

/// Looking for a sibling, and adding it where there is none, keeps the area
/// well formed and the values as they are.
pub proof fn lemma_ensure_sibling(s: AreaState, g: Layout, o: int, y: Seq<u8>, steps: nat) -> (h:
    Layout)
    requires
        describes(g, s),
        g.nodes.dom().contains(o),
        o != 0,
        segment_ok(y),
        between(g.nodes[o].lo, y, g.nodes[o].hi),
        o + 20 * steps >= s.data.len(),
    ensures
        ({
            let (t, r) = ensure_sibling(s, o, y, steps);
            &&& describes(h, t)
            &&& same_values(g, h)
            &&& grows(s, g, t, h)
            &&& t.data.len() == s.data.len()
            &&& match r {
                Ok(c) => {
                    &&& h.nodes.dom().contains(c)
                    &&& h.nodes[c].path == sibling_path(g.nodes[o], y)
                    &&& t.used == s.used + new_room(g, sibling_path(g.nodes[o], y))
                    &&& h.index.dom() == g.index.dom().insert(sibling_path(g.nodes[o], y))
                },
                Err(f) => no_room(f) && t == s && lacks(
                    s,
                    new_room(g, sibling_path(g.nodes[o], y)),
                ),
            }
        }),
    decreases steps,
{
    lemma_kept_all(s, g);
    lemma_node(s, g, o);
    let n = g.nodes[o];
    if steps == 0 {
        assert(false);
        g
    } else {
        lemma_name_total(y, name_of(n));
        match name_order(y, name_of(n)) {
            KeyOrder::Equal => {
                assert(sibling_path(n, y) =~= n.path);
                g
            },
            KeyOrder::Less => {
                if n.left == 0 {
                    lemma_add_sibling(s, g, o, 8, y)
                } else {
                    lemma_child_behind(s, g, o, 8);
                    lemma_ensure_sibling(s, g, n.left, y, (steps - 1) as nat)
                }
            },
            KeyOrder::Greater => {
                if n.right == 0 {
                    lemma_add_sibling(s, g, o, 12, y)
                } else {
                    lemma_child_behind(s, g, o, 12);
                    lemma_ensure_sibling(s, g, n.right, y, (steps - 1) as nat)
                }
            },
        }
    }
}

/// Where the search for a sibling ended is a place for it.
pub proof fn lemma_sibling_place(s: AreaState, g: Layout, o: int, slot: int, y: Seq<u8>)
    requires
        describes(g, s),
        g.nodes.dom().contains(o),
        o != 0,
        segment_ok(y),
        between(g.nodes[o].lo, y, g.nodes[o].hi),
        slot == 8 && name_order(y, name_of(g.nodes[o])) is Less || slot == 12 && name_order(
            y,
            name_of(g.nodes[o]),
        ) is Greater,
        link_of(g.nodes[o], slot) == 0,
    ensures
        has_place(s, g, o, slot, y),
        fresh_node(g, o, slot, y).path == sibling_path(g.nodes[o], y),
{
    let n = g.nodes[o];
    lemma_node(s, g, o);
    lemma_name_total(y, name_of(n));
    let q = sibling_path(n, y);
    if g.index.dom().contains(q) {
        // The search for the sibling would have found it.
        let left = lemma_search_through(s, g, o, y);
        assert(left > 0);
        assert(find_sibling(s.data, o, y, left) == Ok::<Option<int>, AreaFault>(None));
        let x = g.index[n.path.drop_last()];
        lemma_node(s, g, x);
        lemma_find_child(s, g, x, y);
        assert(g.nodes[x].path.push(y) =~= q);
        assert(false);
    }
}

/// A node without children has a place for one.
pub proof fn lemma_child_place(s: AreaState, g: Layout, o: int, y: Seq<u8>)
    requires
        describes(g, s),
        g.nodes.dom().contains(o),
        g.nodes[o].kids == 0,
        segment_ok(y),
    ensures
        has_place(s, g, o, 16, y),
        fresh_node(g, o, 16, y).path == g.nodes[o].path.push(y),
{
    lemma_node(s, g, o);
    lemma_find_child(s, g, o, y);
}

/// Adding a sibling where the search for it ended.
proof fn lemma_add_sibling(s: AreaState, g: Layout, o: int, slot: int, y: Seq<u8>) -> (h: Layout)
    requires
        describes(g, s),
        g.nodes.dom().contains(o),
        o != 0,
        segment_ok(y),
        between(g.nodes[o].lo, y, g.nodes[o].hi),
        slot == 8 && name_order(y, name_of(g.nodes[o])) is Less || slot == 12 && name_order(
            y,
            name_of(g.nodes[o]),
        ) is Greater,
        link_of(g.nodes[o], slot) == 0,
    ensures
        ({
            let (t, r) = create_linked(s, o + slot, y);
            &&& describes(h, t)
            &&& same_values(g, h)
            &&& grows(s, g, t, h)
            &&& t.data.len() == s.data.len()
            &&& match r {
                Ok(c) => {
                    &&& h.nodes.dom().contains(c)
                    &&& h.nodes[c].path == sibling_path(g.nodes[o], y)
                    &&& t.used == s.used + new_room(g, sibling_path(g.nodes[o], y))
                    &&& h.index.dom() == g.index.dom().insert(sibling_path(g.nodes[o], y))
                },
                Err(f) => no_room(f) && t == s && lacks(
                    s,
                    new_room(g, sibling_path(g.nodes[o], y)),
                ),
            }
        }),
{
    lemma_kept_all(s, g);
    lemma_sibling_place(s, g, o, slot, y);
    let (t, r) = create_linked(s, o + slot, y);
    lemma_create_room(s, o + slot, y);
    if r is Ok {
        lemma_with_node(s, g, o, slot, y);
        lemma_grown_values(s, g, o, slot, y);
        lemma_kept_grown(s, g, o, slot, y);
        with_node(g, o, slot, y, s.used, t.used)
    } else {
        g
    }
}

/// Adding the first child of a node.
proof fn lemma_add_child(s: AreaState, g: Layout, o: int, y: Seq<u8>) -> (h: Layout)
    requires
        describes(g, s),
        g.nodes.dom().contains(o),
        g.nodes[o].kids == 0,
        segment_ok(y),
    ensures
        ({
            let (t, r) = ensure_child(s, o, y);
            &&& describes(h, t)
            &&& same_values(g, h)
            &&& grows(s, g, t, h)
            &&& t.data.len() == s.data.len()
            &&& match r {
                Ok(c) => {
                    &&& h.nodes.dom().contains(c)
                    &&& h.nodes[c].path == g.nodes[o].path.push(y)
                    &&& t.used == s.used + new_room(g, g.nodes[o].path.push(y))
                    &&& h.index.dom() == g.index.dom().insert(g.nodes[o].path.push(y))
                },
                Err(f) => no_room(f) && t == s && lacks(s, new_room(g, g.nodes[o].path.push(y))),
            }
        }),
{
    lemma_kept_all(s, g);
    lemma_node(s, g, o);
    let n = g.nodes[o];
    let size = s.data.len() as int;
    lemma_find_child(s, g, o, y);
    let (t, r) = create_linked(s, o + 16, y);
    lemma_create_room(s, o + 16, y);
    if r is Ok {
        lemma_with_node(s, g, o, 16, y);
        lemma_grown_values(s, g, o, 16, y);
        lemma_kept_grown(s, g, o, 16, y);
        let h = with_node(g, o, 16, y, s.used, t.used);
        let c = s.used;
        lemma_node(t, h, c);
        assert(h.nodes[c].path == n.path.push(y));
        assert(t.data.len() == size) by {
            lemma_grown_bytes(s, g, o, 16, y);
        }
        // The new node is the sibling that is looked for.
        lemma_name_total(y, name_of(h.nodes[c]));
        assert(ensure_sibling(t, c, y, max_steps(size)) == (t, Ok::<int, AreaFault>(c)));
        h
    } else {
        g
    }
}

/// Looking for a child, and adding it where there is none, keeps the area well
/// formed and the values as they are.
pub proof fn lemma_ensure_child(s: AreaState, g: Layout, o: int, y: Seq<u8>) -> (h: Layout)
    requires
        describes(g, s),
        g.nodes.dom().contains(o),
        segment_ok(y),
    ensures
        ({
            let (t, r) = ensure_child(s, o, y);
            &&& describes(h, t)
            &&& same_values(g, h)
            &&& grows(s, g, t, h)
            &&& t.data.len() == s.data.len()
            &&& match r {
                Ok(c) => {
                    &&& h.nodes.dom().contains(c)
                    &&& h.nodes[c].path == g.nodes[o].path.push(y)
                    &&& t.used == s.used + new_room(g, g.nodes[o].path.push(y))
                    &&& h.index.dom() == g.index.dom().insert(g.nodes[o].path.push(y))
                },
                Err(f) => no_room(f) && t == s && lacks(s, new_room(g, g.nodes[o].path.push(y))),
            }
        }),
{
    lemma_kept_all(s, g);
    lemma_node(s, g, o);
    let n = g.nodes[o];
    let size = s.data.len() as int;
    assert(20 * (size / 20) + 20 > size);
    if n.kids != 0 {
        lemma_child_behind(s, g, o, 16);
        assert(sibling_path(g.nodes[n.kids], y) =~= n.path.push(y));
        lemma_ensure_sibling(s, g, n.kids, y, max_steps(size))
    } else {
        lemma_add_child(s, g, o, y)
    }
}

/// Going down a path, and adding the nodes that are missing, keeps the area
/// well formed and the values as they are.
pub proof fn lemma_ensure_path(s: AreaState, g: Layout, o: int, segs: Seq<Seq<u8>>) -> (h: Layout)
    requires
        describes(g, s),
        g.nodes.dom().contains(o),
        forall|i: int| 0 <= i < segs.len() ==> segment_ok(#[trigger] segs[i]),
    ensures
        ({
            let (t, r) = ensure_path(s, o, segs);
            &&& describes(h, t)
            &&& same_values(g, h)
            &&& grows(s, g, t, h)
            &&& t.data.len() == s.data.len()
            &&& match r {
                Ok(c) => {
                    &&& h.nodes.dom().contains(c)
                    &&& h.nodes[c].path == g.nodes[o].path + segs
                    &&& t.used == s.used + missing_nodes(g, g.nodes[o].path, segs)
                },
                Err(f) => no_room(f) && lacks(s, missing_nodes(g, g.nodes[o].path, segs)),
            }
        }),
    decreases segs.len(),
{
    lemma_kept_all(s, g);
    if segs.len() == 0 {
        assert(g.nodes[o].path + segs =~= g.nodes[o].path);
        g
    } else {
        let h = lemma_ensure_child(s, g, o, segs[0]);
        let (t, r) = ensure_child(s, o, segs[0]);
        let q = g.nodes[o].path.push(segs[0]);
        assert(q.last() == segs[0]);
        lemma_path_room(g, q, segs.skip(1));
        match r {
            Ok(c) => {
                assert(q + segs.skip(1) =~= g.nodes[o].path + segs);
                lemma_missing_below(g, h, q, q, segs.skip(1));
                let k = lemma_ensure_path(t, h, c, segs.skip(1));
                lemma_kept_on(s, g, t, h, ensure_path(t, c, segs.skip(1)).0, k);
                k
            },
            Err(f) => h,
        }
    }
}

/// A sibling that is there is not added.
pub proof fn lemma_ensure_found_sibling(s: AreaState, o: int, y: Seq<u8>, steps: nat)
    ensures
        match find_sibling(s.data, o, y, steps) {
            Ok(Some(c)) => ensure_sibling(s, o, y, steps) == (s, Ok::<int, AreaFault>(c)),
            _ => true,
        },
    decreases steps,
{
    if steps > 0 {
        if let Ok(n) = read_node(s.data, o) {
            match name_order(y, n.name) {
                KeyOrder::Equal => {},
                KeyOrder::Less => {
                    lemma_ensure_found_sibling(s, n.left, y, (steps - 1) as nat);
                },
                KeyOrder::Greater => {
                    lemma_ensure_found_sibling(s, n.right, y, (steps - 1) as nat);
                },
            }
        }
    }
}

/// A path that is there is not added to.
pub proof fn lemma_ensure_found(s: AreaState, o: int, segs: Seq<Seq<u8>>)
    ensures
        match descend(s.data, o, segs) {
            Ok(Some(c)) => ensure_path(s, o, segs) == (s, Ok::<int, AreaFault>(c)),
            _ => true,
        },
    decreases segs.len(),
{
    if segs.len() > 0 {
        if let Ok(n) = read_node(s.data, o) {
            let m = max_steps(s.data.len() as int);
            lemma_ensure_found_sibling(s, n.children, segs[0], m);
            if let Ok(Some(c)) = find_sibling(s.data, n.children, segs[0], m) {
                lemma_ensure_found(s, c, segs.skip(1));
            }
        }
    }
}

} // verus!
