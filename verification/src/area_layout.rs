//! Well-formed property areas, and what lookups find in them.
//!
//! A [`Layout`] says which objects an area holds: the trie nodes and property
//! records by offset, the node of every path, and the object that each byte
//! belongs to. An area is well formed where some layout describes it.
use crate::area_state::{
    c_string, c_text, descend, find_node, find_sibling, key_ok, long_serial, lookup_content,
    lookup_value, max_steps, name_less, name_order, read_node, read_record, segments, AreaFault,
    AreaState, Content, NodeView, RecordView,
};
use crate::bytes::{
    lemma_lex_irreflexive, lemma_lex_total, lemma_lex_transitive, lemma_nul_index_is, u32_at,
    KeyOrder,
};
use vstd::prelude::*;
use vstd::utf8::valid_utf8;

verus! {

/// A trie node of a layout.
pub struct NodeInfo {
    /// The segments of the key that leads to the node.
    pub path: Seq<Seq<u8>>,
    /// The names below and above which no name in the subtree lies.
    pub lo: Option<Seq<u8>>,
    pub hi: Option<Seq<u8>>,
    pub prop: int,
    pub left: int,
    pub right: int,
    pub kids: int,
    /// The node that refers to this one, and the place of the reference in it.
    pub from: int,
    pub slot: int,
}

/// A property record of a layout.
pub struct RecInfo {
    pub name: Seq<u8>,
    pub value: Seq<u8>,
    pub serial: int,
    /// Where a long value is stored.
    pub long: Option<int>,
    /// The node that the record belongs to.
    pub node: int,
}

/// Which object a byte belongs to.
pub enum Owner {
    Node(int),
    Record(int),
    Long(int),
}

/// The objects of an area.
pub struct Layout {
    pub nodes: Map<int, NodeInfo>,
    pub recs: Map<int, RecInfo>,
    pub index: Map<Seq<Seq<u8>>, int>,
    pub own: spec_fn(int) -> Owner,
}

/// The name of a node: the last segment of its path.
pub open spec fn name_of(n: NodeInfo) -> Seq<u8> {
    if n.path.len() == 0 {
        Seq::empty()
    } else {
        n.path.last()
    }
}

/// Text without NUL.
#[verifier::opaque]
pub open spec fn plain_text(b: Seq<u8>) -> bool {
    valid_utf8(b) && forall|i: int| 0 <= i < b.len() ==> b[i] != 0
}

/// A name that can stand in a path.
pub open spec fn segment_ok(b: Seq<u8>) -> bool {
    &&& plain_text(b)
    &&& b.len() > 0
    &&& forall|i: int| 0 <= i < b.len() ==> b[i] != 0x2e
}

/// `n` rounded up to a multiple of four.
pub open spec fn up4(n: int) -> int {
    (n + 3) / 4 * 4
}

/// Bytes that a node with a name of `len` bytes takes.
pub open spec fn node_size(len: int) -> int {
    if len == 0 {
        20
    } else {
        up4(21 + len)
    }
}

/// Bytes that a record with a name of `len` bytes takes.
pub open spec fn rec_size(len: int) -> int {
    up4(97 + len)
}

/// Bytes that a long value of `len` bytes takes.
pub open spec fn long_size(len: int) -> int {
    up4(1 + len)
}

/// `b` with its NUL stands at `at`.
pub open spec fn string_at(d: Seq<u8>, at: int, b: Seq<u8>) -> bool {
    &&& 0 <= at
    &&& at + b.len() < d.len()
    &&& forall|j: int| at <= j < at + b.len() ==> #[trigger] d[j] == b[j - at]
    &&& d[at + b.len()] == 0
}

/// The bytes at `o` are those of the node `n`.
#[verifier::opaque]
pub open spec fn node_bytes(d: Seq<u8>, o: int, n: NodeInfo) -> bool {
    &&& 0 <= o
    &&& o + node_size(name_of(n).len() as int) <= d.len()
    &&& u32_at(d, o) == name_of(n).len()
    &&& u32_at(d, o + 4) == n.prop
    &&& u32_at(d, o + 8) == n.left
    &&& u32_at(d, o + 12) == n.right
    &&& u32_at(d, o + 16) == n.kids
    &&& plain_text(name_of(n))
    &&& name_of(n).len() > 0 ==> string_at(d, o + 20, name_of(n))
}

/// The distance from a record to its long value.
pub open spec fn long_distance(p: int, r: RecInfo) -> int {
    match r.long {
        None => 0,
        Some(at) => at - p,
    }
}

/// The bytes at `p`, and those of its long value, are those of the record `r`.
pub open spec fn rec_bytes(d: Seq<u8>, p: int, r: RecInfo) -> bool {
    rec_bytes_at(d, p, r, long_distance(p, r))
}

/// As [`rec_bytes`], with `rel` stored as the distance to the long value.
#[verifier::opaque]
pub open spec fn rec_bytes_at(d: Seq<u8>, p: int, r: RecInfo, rel: int) -> bool {
    &&& 0 <= p
    &&& p + rec_size(r.name.len() as int) <= d.len()
    &&& plain_text(r.name)
    &&& plain_text(r.value)
    &&& string_at(d, p + 96, r.name)
    &&& u32_at(d, p) == r.serial
    &&& long_serial(r.serial) == (r.long is Some)
    &&& match r.long {
        None => r.value.len() < 92 && string_at(d, p + 4, r.value),
        Some(at) => {
            &&& u32_at(d, p + 60) == rel
            &&& p + rec_size(r.name.len() as int) <= at
            &&& at + long_size(r.value.len() as int) <= d.len()
            &&& string_at(d, at, r.value)
        },
    }
}

/// The reference that a node holds at place `slot`.
pub open spec fn link_of(n: NodeInfo, slot: int) -> int {
    if slot == 8 {
        n.left
    } else if slot == 12 {
        n.right
    } else {
        n.kids
    }
}

/// The node `c` is where it may stand as what `n` refers to at place `slot`.
pub open spec fn child_of(c: NodeInfo, n: NodeInfo, slot: int) -> bool {
    &&& c.path.len() > 0
    &&& if slot == 16 {
        c.path.drop_last() == n.path && c.lo is None && c.hi is None
    } else {
        &&& n.path.len() > 0
        &&& c.path.drop_last() == n.path.drop_last()
        &&& if slot == 8 {
            c.lo == n.lo && c.hi == Some(name_of(n))
        } else {
            c.lo == Some(name_of(n)) && c.hi == n.hi
        }
    }
}

/// `b` lies between two names.
pub open spec fn between(lo: Option<Seq<u8>>, b: Seq<u8>, hi: Option<Seq<u8>>) -> bool {
    &&& lo matches Some(l) ==> name_less(l, b)
    &&& hi matches Some(h) ==> name_less(b, h)
}

/// The object `who` owns `n` bytes from `o` on.
pub open spec fn owned(own: spec_fn(int) -> Owner, who: Owner, o: int, n: int) -> bool {
    forall|b: int| o <= b < o + n ==> #[trigger] own(b) == who
}

/// What the node at `o` refers to at place `slot` is a node of the layout, and
/// knows where it is referred to.
pub open spec fn link_fits(g: Layout, o: int, slot: int) -> bool {
    let c = link_of(g.nodes[o], slot);
    c != 0 ==> {
        &&& g.nodes.dom().contains(c)
        &&& c > o
        &&& g.nodes[c].from == o
        &&& g.nodes[c].slot == slot
        &&& child_of(g.nodes[c], g.nodes[o], slot)
    }
}

/// A place in a node that refers to another node.
pub open spec fn is_link(slot: int) -> bool {
    slot == 8 || slot == 12 || slot == 16
}

/// The segments of a path, joined by dots.
pub open spec fn join(path: Seq<Seq<u8>>) -> Seq<u8>
    decreases path.len(),
{
    if path.len() == 0 {
        Seq::empty()
    } else if path.len() == 1 {
        path[0]
    } else {
        join(path.drop_last()) + seq![0x2eu8] + path.last()
    }
}

/// The node at `o` fits the area and the rest of the layout.
pub open spec fn node_fits(s: AreaState, g: Layout, o: int) -> bool {
    let n = g.nodes[o];
    let size = node_size(name_of(n).len() as int);
    &&& node_bytes(s.data, o, n)
    &&& o + size <= s.used
    &&& owned(g.own, Owner::Node(o), o, size)
    &&& g.index.dom().contains(n.path)
    &&& g.index[n.path] == o
    &&& (o == 0) == (n.path.len() == 0)
    &&& o == 0 ==> n.prop == 0 && n.left == 0 && n.right == 0
    &&& o != 0 ==> {
        &&& segment_ok(name_of(n))
        &&& between(n.lo, name_of(n), n.hi)
        &&& is_link(n.slot)
        &&& g.nodes.dom().contains(n.from)
        &&& 0 <= n.from < o
        &&& link_of(g.nodes[n.from], n.slot) == o
    }
    &&& link_fits(g, o, 8)
    &&& link_fits(g, o, 12)
    &&& link_fits(g, o, 16)
    &&& n.prop != 0 ==> g.recs.dom().contains(n.prop) && g.recs[n.prop].node == o
}

/// The record at `p` fits the area and the rest of the layout.
pub open spec fn rec_fits(s: AreaState, g: Layout, p: int) -> bool {
    rec_fits_at(s, g, p, long_distance(p, g.recs[p]))
}

/// As [`rec_fits`], with `rel` stored as the distance to the long value.
pub open spec fn rec_fits_at(s: AreaState, g: Layout, p: int, rel: int) -> bool {
    let r = g.recs[p];
    let size = rec_size(r.name.len() as int);
    &&& rec_bytes_at(s.data, p, r, rel)
    &&& 0 < p
    &&& p + size <= s.used
    &&& owned(g.own, Owner::Record(p), p, size)
    &&& g.nodes.dom().contains(r.node)
    &&& r.node < p
    &&& g.nodes[r.node].prop == p
    &&& r.name == join(g.nodes[r.node].path)
    &&& r.long matches Some(at) ==> {
        &&& at + long_size(r.value.len() as int) <= s.used
        &&& owned(g.own, Owner::Long(p), at, long_size(r.value.len() as int))
    }
}

/// The nodes of the layout `g` are those of the area `s`.
pub open spec fn trie_fits(g: Layout, s: AreaState) -> bool {
    &&& 20 <= s.used <= s.data.len() <= u32::MAX
    &&& g.nodes.dom().contains(0)
    &&& forall|o: int| g.nodes.dom().contains(o) ==> #[trigger] node_fits(s, g, o)
    &&& forall|q: Seq<Seq<u8>>| #[trigger]
        g.index.dom().contains(q) ==> g.nodes.dom().contains(g.index[q]) && g.nodes[g.index[q]].path
            == q
}

/// The layout `g` describes the area `s`.
pub open spec fn describes(g: Layout, s: AreaState) -> bool {
    &&& trie_fits(g, s)
    &&& forall|p: int| g.recs.dom().contains(p) ==> #[trigger] rec_fits(s, g, p)
}

/// The area `s` is well formed.
pub open spec fn well_formed(s: AreaState) -> bool {
    exists|g: Layout| #[trigger] describes(g, s)
}

/// What is stored in a record.
pub open spec fn content_of(r: RecInfo) -> Content {
    Content { value: r.value, is_long: r.long is Some, serial: r.serial }
}

/// What a layout holds for a path.
pub open spec fn content_at(g: Layout, path: Seq<Seq<u8>>) -> Option<Content> {
    if g.index.dom().contains(path) && g.nodes[g.index[path]].prop != 0 {
        Some(content_of(g.recs[g.nodes[g.index[path]].prop]))
    } else {
        None
    }
}

// ---------------------------------------------------------------------------
// Reading objects
// ---------------------------------------------------------------------------

/// A string is found where it stands.
pub proof fn lemma_c_text(d: Seq<u8>, at: int, b: Seq<u8>, limit: int)
    requires
        string_at(d, at, b),
        plain_text(b),
        b.len() < limit <= d.len() - at,
    ensures
        c_string(d, at, limit) == Ok::<Seq<u8>, AreaFault>(b),
        c_text(d, at, limit) == Ok::<Seq<u8>, AreaFault>(b),
{
    reveal(plain_text);
    let n = at + b.len();
    assert forall|i: int| at <= i < n implies d[i] != 0 by {
        assert(d[i] == b[i - at]);
    }
    lemma_nul_index_is(d, at, at + limit, n);
    assert(d.subrange(at, n) =~= b);
}

pub open spec fn node_view(n: NodeInfo) -> NodeView {
    NodeView {
        namelen: name_of(n).len() as int,
        prop: n.prop,
        left: n.left,
        right: n.right,
        children: n.kids,
        name: name_of(n),
    }
}

/// A node is read as what it is.
pub proof fn lemma_read_node(d: Seq<u8>, o: int, n: NodeInfo)
    requires
        node_bytes(d, o, n),
        d.len() <= u32::MAX,
    ensures
        read_node(d, o) == Ok::<NodeView, AreaFault>(node_view(n)),
{
    reveal(node_bytes);
    let len = name_of(n).len();
    if len > 0 {
        lemma_c_text(d, o + 20, name_of(n), len as int + 1);
    } else {
        assert(name_of(n) =~= Seq::<u8>::empty());
    }
}

pub open spec fn rec_view(p: int, r: RecInfo) -> RecordView {
    RecordView {
        name: r.name,
        value: r.value,
        value_offset: match r.long {
            None => p + 4,
            Some(at) => at,
        },
        is_long: r.long is Some,
    }
}

/// A record is read as what it is.
pub proof fn lemma_read_record(d: Seq<u8>, p: int, r: RecInfo)
    requires
        rec_bytes(d, p, r),
        d.len() <= u32::MAX,
    ensures
        read_record(d, p) == Ok::<RecordView, AreaFault>(rec_view(p, r)),
{
    reveal(rec_bytes_at);
    lemma_c_text(d, p + 96, r.name, d.len() - (p + 96));
    reveal(plain_text);
    match r.long {
        None => {
            let n = p + 4 + r.value.len();
            assert forall|i: int| p + 4 <= i < n implies d[i] != 0 by {
                assert(d[i] == r.value[i - (p + 4)]);
            }
            lemma_nul_index_is(d, p + 4, p + 96, n);
            assert(d.subrange(p + 4, n) =~= r.value);
        },
        Some(at) => {
            lemma_c_text(d, at, r.value, d.len() - at);
        },
    }
}

/// Reading the node at `o` of a well-formed area.
pub proof fn lemma_node(s: AreaState, g: Layout, o: int)
    requires
        trie_fits(g, s),
        g.nodes.dom().contains(o),
    ensures
        node_fits(s, g, o),
        read_node(s.data, o) == Ok::<NodeView, AreaFault>(node_view(g.nodes[o])),
        0 <= o,
        o != 0 ==> o >= 20,
        u32_at(s.data, o + 4) == g.nodes[o].prop,
{
    assert(node_fits(s, g, o));
    reveal(node_bytes);
    lemma_read_node(s.data, o, g.nodes[o]);
    if o != 0 && o < 20 {
        assert(node_fits(s, g, 0));
        assert((g.own)(o) == Owner::Node(0));
        assert((g.own)(o) == Owner::Node(o));
    }
}

/// What a node refers to stands behind it.
pub proof fn lemma_child_behind(s: AreaState, g: Layout, o: int, slot: int)
    requires
        trie_fits(g, s),
        g.nodes.dom().contains(o),
        is_link(slot),
        link_of(g.nodes[o], slot) != 0,
    ensures
        ({
            let c = link_of(g.nodes[o], slot);
            &&& g.nodes.dom().contains(c)
            &&& o + 20 <= c
            &&& c + 20 <= s.used
            &&& child_of(g.nodes[c], g.nodes[o], slot)
        }),
{
    let c = link_of(g.nodes[o], slot);
    assert(node_fits(s, g, o));
    assert(link_fits(g, o, slot));
    assert(node_fits(s, g, c));
    if c < o + 20 {
        assert((g.own)(c) == Owner::Node(o));
        assert((g.own)(c) == Owner::Node(c));
    }
}

// ---------------------------------------------------------------------------
// The order of names
// ---------------------------------------------------------------------------

pub proof fn lemma_name_transitive(a: Seq<u8>, b: Seq<u8>, c: Seq<u8>)
    requires
        name_less(a, b),
        name_less(b, c),
    ensures
        name_less(a, c),
{
    if a.len() == b.len() && b.len() == c.len() {
        lemma_lex_transitive(a, b, c);
    }
}

pub proof fn lemma_name_irreflexive(a: Seq<u8>)
    ensures
        !name_less(a, a),
{
    lemma_lex_irreflexive(a);
}

pub proof fn lemma_name_total(a: Seq<u8>, b: Seq<u8>)
    ensures
        name_order(a, b) is Less ==> name_less(a, b) && a != b && !name_less(b, a),
        name_order(a, b) is Equal ==> a == b,
        name_order(a, b) is Greater ==> name_less(b, a) && a != b && !name_less(a, b),
{
    lemma_lex_total(a, b);
    lemma_name_irreflexive(a);
    lemma_name_irreflexive(b);
    if name_less(a, b) && name_less(b, a) {
        lemma_name_transitive(a, b, a);
    }
}

// ---------------------------------------------------------------------------
// Searching
// ---------------------------------------------------------------------------

/// The path of the sibling called `y` of the node `n`.
pub open spec fn sibling_path(n: NodeInfo, y: Seq<u8>) -> Seq<Seq<u8>> {
    n.path.drop_last().push(y)
}

/// A search among siblings finds only a node with the path it looks for.
pub proof fn lemma_find_sound(s: AreaState, g: Layout, o: int, y: Seq<u8>, steps: nat)
    requires
        trie_fits(g, s),
        g.nodes.dom().contains(o),
        o != 0,
        o + 20 * steps >= s.data.len(),
    ensures
        match find_sibling(s.data, o, y, steps) {
            Ok(Some(c)) => {
                let q = sibling_path(g.nodes[o], y);
                g.nodes.dom().contains(c) && g.nodes[c].path == q && g.index.dom().contains(q)
                    && g.index[q] == c
            },
            Ok(None) => true,
            Err(_) => false,
        },
    decreases steps,
{
    lemma_node(s, g, o);
    let n = g.nodes[o];
    if steps > 0 {
        lemma_name_total(y, name_of(n));
        match name_order(y, name_of(n)) {
            KeyOrder::Equal => {
                assert(sibling_path(n, y) =~= n.path);
            },
            KeyOrder::Less => {
                if n.left != 0 {
                    lemma_child_behind(s, g, o, 8);
                    lemma_find_sound(s, g, n.left, y, (steps - 1) as nat);
                }
            },
            KeyOrder::Greater => {
                if n.right != 0 {
                    lemma_child_behind(s, g, o, 12);
                    lemma_find_sound(s, g, n.right, y, (steps - 1) as nat);
                }
            },
        }
    }
}

/// The node under which `c` stands, and the first of the siblings of `c`.
pub open spec fn parent_of(g: Layout, c: int) -> int {
    g.index[g.nodes[c].path.drop_last()]
}

/// A search that starts at the first sibling of `c`, for a name that belongs
/// into the subtree of `c`, comes through `c`.
pub proof fn lemma_search_through(s: AreaState, g: Layout, c: int, y: Seq<u8>) -> (left: nat)
    requires
        trie_fits(g, s),
        g.nodes.dom().contains(c),
        c != 0,
        between(g.nodes[c].lo, y, g.nodes[c].hi),
    ensures
        g.index.dom().contains(g.nodes[c].path.drop_last()),
        g.nodes[parent_of(g, c)].kids != 0,
        g.nodes.dom().contains(parent_of(g, c)),
        parent_of(g, c) < c,
        c + 20 * left >= s.data.len(),
        find_sibling(
            s.data,
            g.nodes[parent_of(g, c)].kids,
            y,
            max_steps(s.data.len() as int),
        ) == find_sibling(s.data, c, y, left),
    decreases c,
{
    lemma_node(s, g, c);
    let n = g.nodes[c];
    let x = n.from;
    lemma_node(s, g, x);
    lemma_child_behind(s, g, x, n.slot);
    let size = s.data.len() as int;
    if n.slot == 16 {
        assert(20 * (size / 20) + 20 > size);
        max_steps(size)
    } else {
        let m = g.nodes[x];
        if n.slot == 8 {
            lemma_name_total(y, name_of(m));
            if m.hi is Some {
                lemma_name_transitive(y, name_of(m), m.hi->0);
            }
        } else {
            lemma_name_total(y, name_of(m));
            if m.lo is Some {
                lemma_name_transitive(m.lo->0, name_of(m), y);
            }
        }
        assert(x != 0);
        let left = lemma_search_through(s, g, x, y);
        if left == 0 {
            assert(x >= s.data.len());
            assert(false);
        }
        if n.slot == 8 {
            if name_order(y, name_of(m)) is Greater {
                lemma_name_total(name_of(m), y);
            }
        } else {
            assert(name_order(y, name_of(m)) is Greater);
        }
        assert(find_sibling(s.data, x, y, left) == find_sibling(s.data, c, y, (left - 1) as nat));
        (left - 1) as nat
    }
}

/// The node that the layout has for a path.
pub open spec fn node_at(g: Layout, path: Seq<Seq<u8>>) -> Option<int> {
    if g.index.dom().contains(path) {
        Some(g.index[path])
    } else {
        None
    }
}

/// A search among the children of a node finds the child that is there.
pub proof fn lemma_find_child(s: AreaState, g: Layout, x: int, y: Seq<u8>)
    requires
        trie_fits(g, s),
        g.nodes.dom().contains(x),
    ensures
        ({
            let q = g.nodes[x].path.push(y);
            let k = g.nodes[x].kids;
            &&& k == 0 ==> !g.index.dom().contains(q)
            &&& k != 0 ==> find_sibling(s.data, k, y, max_steps(s.data.len() as int)) == Ok::<
                Option<int>,
                AreaFault,
            >(node_at(g, q))
        }),
{
    let q = g.nodes[x].path.push(y);
    let k = g.nodes[x].kids;
    let size = s.data.len() as int;
    lemma_node(s, g, x);
    assert(q.drop_last() =~= g.nodes[x].path);
    if k != 0 {
        lemma_child_behind(s, g, x, 16);
        assert(20 * (size / 20) + 20 > size);
        lemma_find_sound(s, g, k, y, max_steps(size));
    }
    if g.index.dom().contains(q) {
        let c = g.index[q];
        lemma_node(s, g, c);
        let left = lemma_search_through(s, g, c, y);
        lemma_name_irreflexive(y);
        if left == 0 {
            assert(false);
        }
        assert(find_sibling(s.data, c, y, left) == Ok::<Option<int>, AreaFault>(Some(c)));
    }
}

/// The nodes above a node are in the layout.
pub proof fn lemma_prefix(s: AreaState, g: Layout, q: Seq<Seq<u8>>, k: int)
    requires
        trie_fits(g, s),
        g.index.dom().contains(q),
        0 <= k <= q.len(),
    ensures
        g.index.dom().contains(q.take(k)),
    decreases q.len(),
{
    if k == q.len() {
        assert(q.take(k) =~= q);
    } else {
        let c = g.index[q];
        lemma_node(s, g, c);
        let left = lemma_search_through(s, g, c, name_of(g.nodes[c]));
        lemma_prefix(s, g, q.drop_last(), k);
        assert(q.drop_last().take(k) =~= q.take(k));
    }
}

/// Going down from a node along `segs` reaches the node that is there.
pub proof fn lemma_descend(s: AreaState, g: Layout, o: int, segs: Seq<Seq<u8>>)
    requires
        trie_fits(g, s),
        g.nodes.dom().contains(o),
    ensures
        descend(s.data, o, segs) == Ok::<Option<int>, AreaFault>(
            node_at(g, g.nodes[o].path + segs),
        ),
    decreases segs.len(),
{
    lemma_node(s, g, o);
    let p = g.nodes[o].path;
    if segs.len() == 0 {
        assert(p + segs =~= p);
    } else {
        let q = p.push(segs[0]);
        assert((p + segs).take(p.len() as int + 1) =~= q);
        lemma_find_child(s, g, o, segs[0]);
        if g.index.dom().contains(p + segs) {
            lemma_prefix(s, g, p + segs, p.len() as int + 1);
        }
        if g.index.dom().contains(q) {
            let c = g.index[q];
            lemma_descend(s, g, c, segs.skip(1));
            assert(q + segs.skip(1) =~= p + segs);
        }
    }
}

/// The node of a key in a well-formed area.
pub proof fn lemma_find_node(s: AreaState, g: Layout, key: Seq<u8>)
    requires
        trie_fits(g, s),
        key_ok(key),
    ensures
        find_node(s.data, key) == Ok::<Option<int>, AreaFault>(node_at(g, segments(key))),
{
    lemma_node(s, g, 0);
    lemma_descend(s, g, 0, segments(key));
    assert(g.nodes[0].path + segments(key) =~= segments(key));
}

/// A lookup in a well-formed area gives what the layout holds.
pub proof fn lemma_lookup(s: AreaState, g: Layout, key: Seq<u8>)
    requires
        describes(g, s),
        key_ok(key),
    ensures
        lookup_content(s.data, key) == Ok::<Option<Content>, AreaFault>(
            content_at(g, segments(key)),
        ),
        lookup_value(s.data, key) == Ok::<Option<Seq<u8>>, AreaFault>(
            match content_at(g, segments(key)) {
                Some(c) => Some(c.value),
                None => None,
            },
        ),
{
    lemma_find_node(s, g, key);
    let q = segments(key);
    if g.index.dom().contains(q) {
        let o = g.index[q];
        lemma_node(s, g, o);
        let p = g.nodes[o].prop;
        if p != 0 {
            assert(rec_fits(s, g, p));
            lemma_read_record(s.data, p, g.recs[p]);
            reveal(rec_bytes_at);
        }
    }
}

} // verus!
