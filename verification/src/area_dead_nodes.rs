//! Pruning leaves no trie node that leads to nothing, whatever names and records
//! an area holds.
use crate::area_edit::{delete, detach_record, prune, prune_link, wipe_node, wipe_record};
use crate::area_growth::{lemma_rec_owned, lemma_rec_untouched};
use crate::area_layout::{
    content_at, describes, is_link, lemma_child_behind, lemma_find_node, lemma_node,
    lemma_read_record, link_fits, link_of, name_of, node_fits, node_view, rec_fits, rec_view,
    well_formed, Layout, Owner,
};
use crate::area_pruning::{below, lemma_below_apart, lemma_below_up};
use crate::area_records::of_record;
use crate::area_state::{
    c_text, descend, find_node, find_sibling, key_ok, max_steps, read_node, read_record, segments,
    AreaFault, AreaState, NodeView, RecordView,
};
use crate::bytes::{
    lemma_le_bytes, lemma_nul_index, lemma_put_u32, lemma_word_bounds, nul_index, put_u32, u32_at,
};
use vstd::prelude::*;

verus! {

/// The node holds no property and refers to no other node.
pub open spec fn dead(n: NodeView) -> bool {
    n.prop == 0 && n.left == 0 && n.right == 0 && n.children == 0
}

/// The node at `off`, where it can be read.
#[verifier::opaque]
pub open spec fn node_of(d: Seq<u8>, off: int) -> Option<NodeView> {
    match read_node(d, off) {
        Ok(n) => Some(n),
        Err(_) => None,
    }
}

/// The node at `o` is reached from the one at `off` in fewer than `depth` steps.
pub open spec fn reaches(d: Seq<u8>, off: int, o: int, depth: nat) -> bool
    decreases depth,
{
    &&& depth > 0
    &&& node_of(d, off) matches Some(n) && {
        let below = (depth - 1) as nat;
        ||| o == off
        ||| n.left != 0 && reaches(d, n.left, o, below)
        ||| n.right != 0 && reaches(d, n.right, o, below)
        ||| n.children != 0 && reaches(d, n.children, o, below)
    }
}

/// The node at `o` is reached from the root.
pub open spec fn reached(d: Seq<u8>, o: int) -> bool {
    exists|depth: nat| #[trigger] reaches(d, 0, o, depth)
}

/// No node that is reached from the root is dead, but for the root itself.
pub open spec fn no_dead_nodes(d: Seq<u8>) -> bool {
    forall|o: int| #[trigger]
        reached(d, o) && o != 0 ==> (node_of(d, o) matches Some(n) && !dead(n))
}

/// The end of the bytes of a node whose name has the noted length.
pub open spec fn node_end(off: int, namelen: int) -> int {
    if namelen == 0 {
        off + 20
    } else {
        off + 21 + namelen
    }
}

/// The bytes of a node.
pub open spec fn own_bytes(off: int, namelen: int) -> Set<int> {
    Set::new(|b: int| off <= b < node_end(off, namelen))
}

/// The bytes of the node at `off` and of those that are reached from it.
pub open spec fn bytes_below(d: Seq<u8>, off: int, depth: nat) -> Set<int>
    decreases depth,
{
    if depth == 0 {
        Set::empty()
    } else {
        match node_of(d, off) {
            None => Set::empty(),
            Some(n) => {
                let below = (depth - 1) as nat;
                own_bytes(off, n.namelen) + (if n.left == 0 {
                    Set::empty()
                } else {
                    bytes_below(d, n.left, below)
                }) + (if n.right == 0 {
                    Set::empty()
                } else {
                    bytes_below(d, n.right, below)
                }) + (if n.children == 0 {
                    Set::empty()
                } else {
                    bytes_below(d, n.children, below)
                })
            },
        }
    }
}

/// The bytes of what a link refers to; zero refers to nothing.
#[verifier::opaque]
pub open spec fn link_bytes(d: Seq<u8>, link: int, depth: nat) -> Set<int> {
    if link == 0 {
        Set::empty()
    } else {
        bytes_below(d, link, depth)
    }
}

/// The nodes that are reached from the one at `off` can be read, and no two of
/// them share a byte.
pub open spec fn nodes_apart(d: Seq<u8>, off: int, depth: nat) -> bool
    decreases depth,
{
    &&& depth > 0
    &&& 0 <= off
    &&& node_of(d, off) matches Some(n) && {
        let below = (depth - 1) as nat;
        let own = own_bytes(off, n.namelen);
        let left = link_bytes(d, n.left, below);
        let right = link_bytes(d, n.right, below);
        let kids = link_bytes(d, n.children, below);
        &&& node_end(off, n.namelen) <= d.len()
        &&& n.namelen < u32::MAX
        &&& n.left != 0 ==> nodes_apart(d, n.left, below)
        &&& n.right != 0 ==> nodes_apart(d, n.right, below)
        &&& n.children != 0 ==> nodes_apart(d, n.children, below)
        &&& own.disjoint(left) && own.disjoint(right) && own.disjoint(kids)
        &&& left.disjoint(right) && left.disjoint(kids) && right.disjoint(kids)
    }
}

/// As [`nodes_apart`], for what a link refers to.
#[verifier::opaque]
spec fn link_apart(d: Seq<u8>, link: int, depth: nat) -> bool {
    link != 0 ==> nodes_apart(d, link, depth)
}

/// The nodes of a trie can be read, and no two of them share a byte.
pub open spec fn trie_apart(d: Seq<u8>) -> bool {
    nodes_apart(d, 0, (d.len() + 1) as nat)
}

/// No node that is reached from the one at `off` is dead, this one included.
spec fn all_alive(d: Seq<u8>, off: int, depth: nat) -> bool
    decreases depth,
{
    &&& depth > 0
    &&& node_of(d, off) matches Some(n) && {
        let below = (depth - 1) as nat;
        &&& !dead(n)
        &&& n.left != 0 ==> all_alive(d, n.left, below)
        &&& n.right != 0 ==> all_alive(d, n.right, below)
        &&& n.children != 0 ==> all_alive(d, n.children, below)
    }
}

#[verifier::opaque]
spec fn link_alive(d: Seq<u8>, link: int, depth: nat) -> bool {
    link != 0 ==> all_alive(d, link, depth)
}

/// The bytes are the same.
spec fn same_in(d: Seq<u8>, e: Seq<u8>, s: Set<int>) -> bool {
    d.len() == e.len() && forall|b: int| s.contains(b) ==> #[trigger] e[b] == d[b]
}

/// The first NUL byte is the same where the bytes are.
proof fn lemma_nul_same(d: Seq<u8>, e: Seq<u8>, lo: int, hi: int)
    requires
        forall|b: int| lo <= b < hi ==> #[trigger] e[b] == d[b],
    ensures
        nul_index(e, lo, hi) == nul_index(d, lo, hi),
    decreases hi - lo,
{
    if lo < hi && d[lo] != 0 {
        lemma_nul_same(d, e, lo + 1, hi);
    }
}

/// A name is read from its own bytes.
proof fn lemma_text_same(d: Seq<u8>, e: Seq<u8>, off: int, limit: int)
    requires
        0 <= off,
        0 <= limit,
        e.len() == d.len(),
        off + limit <= d.len(),
        forall|b: int| off <= b < off + limit ==> #[trigger] e[b] == d[b],
    ensures
        c_text(e, off, limit) == c_text(d, off, limit),
{
    lemma_nul_same(d, e, off, off + limit);
    lemma_nul_index(d, off, off + limit);
    let end = nul_index(d, off, off + limit);
    assert(e.subrange(off, end) =~= d.subrange(off, end));
}

/// A node is read from its own bytes.
proof fn lemma_node_read_same(d: Seq<u8>, e: Seq<u8>, off: int)
    requires
        0 <= off,
        e.len() == d.len(),
        node_of(d, off) matches Some(n) && node_end(off, n.namelen) <= d.len() && n.namelen
            < u32::MAX && forall|b: int|
            off <= b < node_end(off, n.namelen) ==> #[trigger] e[b] == d[b],
    ensures
        node_of(e, off) == node_of(d, off),
{
    reveal(node_of);
    let n = node_of(d, off)->0;
    assert(u32_at(e, off) == u32_at(d, off));
    assert(u32_at(e, off + 4) == u32_at(d, off + 4));
    assert(u32_at(e, off + 8) == u32_at(d, off + 8));
    assert(u32_at(e, off + 12) == u32_at(d, off + 12));
    assert(u32_at(e, off + 16) == u32_at(d, off + 16));
    if n.namelen != 0 {
        lemma_text_same(d, e, off + 20, n.namelen + 1);
    }
}

/// The parts of what is reached from a node.
proof fn lemma_parts(d: Seq<u8>, off: int, depth: nat)
    requires
        depth > 0,
        node_of(d, off) is Some,
    ensures
        ({
            let n = node_of(d, off)->0;
            let below = (depth - 1) as nat;
            let own = own_bytes(off, n.namelen);
            let left = link_bytes(d, n.left, below);
            let right = link_bytes(d, n.right, below);
            let kids = link_bytes(d, n.children, below);
            &&& bytes_below(d, off, depth) == own + left + right + kids
            &&& nodes_apart(d, off, depth) == {
                &&& 0 <= off
                &&& node_end(off, n.namelen) <= d.len()
                &&& n.namelen < u32::MAX
                &&& link_apart(d, n.left, below)
                &&& link_apart(d, n.right, below)
                &&& link_apart(d, n.children, below)
                &&& own.disjoint(left) && own.disjoint(right) && own.disjoint(kids)
                &&& left.disjoint(right) && left.disjoint(kids) && right.disjoint(kids)
            }
            &&& all_alive(d, off, depth) == (!dead(n) && link_alive(d, n.left, below)
                && link_alive(d, n.right, below) && link_alive(d, n.children, below))
        }),
{
    reveal(link_bytes);
    reveal(link_apart);
    reveal(link_alive);
}

/// What is reached from a node depends on the bytes of these nodes only.
proof fn lemma_nodes_same(d: Seq<u8>, e: Seq<u8>, off: int, depth: nat)
    requires
        nodes_apart(d, off, depth),
        same_in(d, e, bytes_below(d, off, depth)),
    ensures
        node_of(e, off) == node_of(d, off),
        nodes_apart(e, off, depth),
        bytes_below(e, off, depth) == bytes_below(d, off, depth),
        all_alive(e, off, depth) == all_alive(d, off, depth),
    decreases depth, 0int,
{
    let n = node_of(d, off)->0;
    let below = (depth - 1) as nat;
    lemma_parts(d, off, depth);
    assert forall|b: int| off <= b < node_end(off, n.namelen) implies #[trigger] e[b] == d[b] by {
        assert(own_bytes(off, n.namelen).contains(b));
        assert(bytes_below(d, off, depth).contains(b));
    }
    lemma_node_read_same(d, e, off);
    lemma_link_same(d, e, n.left, below);
    lemma_link_same(d, e, n.right, below);
    lemma_link_same(d, e, n.children, below);
    lemma_parts(e, off, depth);
}

proof fn lemma_link_same(d: Seq<u8>, e: Seq<u8>, link: int, depth: nat)
    requires
        link_apart(d, link, depth),
        same_in(d, e, link_bytes(d, link, depth)),
    ensures
        link_apart(e, link, depth),
        link_bytes(e, link, depth) == link_bytes(d, link, depth),
        link_alive(e, link, depth) == link_alive(d, link, depth),
    decreases depth, 1int,
{
    reveal(link_bytes);
    reveal(link_apart);
    reveal(link_alive);
    if link != 0 {
        lemma_nodes_same(d, e, link, depth);
    }
}

/// The bytes of nodes lie in the region.
proof fn lemma_bytes_in_range(d: Seq<u8>, link: int, depth: nat)
    requires
        link_apart(d, link, depth),
    ensures
        forall|b: int| #[trigger] link_bytes(d, link, depth).contains(b) ==> 0 <= b < d.len(),
    decreases depth,
{
    reveal(link_bytes);
    reveal(link_apart);
    if link != 0 {
        let n = node_of(d, link)->0;
        let below = (depth - 1) as nat;
        lemma_parts(d, link, depth);
        lemma_bytes_in_range(d, n.left, below);
        lemma_bytes_in_range(d, n.right, below);
        lemma_bytes_in_range(d, n.children, below);
    }
}

/// Only bytes of the set differ.
spec fn changed_in(d: Seq<u8>, e: Seq<u8>, s: Set<int>) -> bool {
    d.len() == e.len() && forall|b: int|
        0 <= b < d.len() && !s.contains(b) ==> #[trigger] e[b] == d[b]
}

/// What pruning leaves of what a link refers to.
#[verifier::opaque]
spec fn pruned_well(d: Seq<u8>, e: Seq<u8>, link: int, depth: nat) -> bool {
    &&& link_alive(e, link, depth)
    &&& link_apart(e, link, depth)
    &&& link_bytes(e, link, depth).subset_of(link_bytes(d, link, depth))
}

/// The bytes of a word.
spec fn word_bytes(at: int) -> Set<int> {
    Set::new(|b: int| at <= b < at + 4)
}

/// What a link refers to is as before where none of its bytes changed.
proof fn lemma_untouched(d: Seq<u8>, e: Seq<u8>, s: Set<int>, link: int, depth: nat)
    requires
        link_apart(d, link, depth),
        changed_in(d, e, s),
        s.disjoint(link_bytes(d, link, depth)),
    ensures
        link_apart(e, link, depth),
        link_bytes(e, link, depth) == link_bytes(d, link, depth),
        link_alive(e, link, depth) == link_alive(d, link, depth),
{
    lemma_bytes_in_range(d, link, depth);
    assert forall|b: int| link_bytes(d, link, depth).contains(b) implies #[trigger] e[b] == d[b] by {
        if s.contains(b) {
            assert(!link_bytes(d, link, depth).contains(b));
        }
    }
    lemma_link_same(d, e, link, depth);
}

/// What was pruned stays so where none of its bytes change.
proof fn lemma_stays_pruned(
    d: Seq<u8>,
    e: Seq<u8>,
    f: Seq<u8>,
    s: Set<int>,
    link: int,
    depth: nat,
)
    requires
        pruned_well(d, e, link, depth),
        changed_in(e, f, s),
        s.disjoint(link_bytes(d, link, depth)),
    ensures
        pruned_well(d, f, link, depth),
{
    reveal(pruned_well);
    lemma_untouched(e, f, s, link, depth);
}

/// A node with the links given up that lead to nothing.
spec fn left_over(n: NodeView, kids: bool, left: bool, right: bool) -> NodeView {
    NodeView {
        children: if kids {
            0
        } else {
            n.children
        },
        left: if left {
            0
        } else {
            n.left
        },
        right: if right {
            0
        } else {
            n.right
        },
        ..n
    }
}

/// A node in whose bytes only the links differ.
proof fn lemma_left_over(
    d: Seq<u8>,
    e: Seq<u8>,
    off: int,
    n: NodeView,
    kids: bool,
    left: bool,
    right: bool,
)
    requires
        0 <= off,
        node_of(d, off) == Some(n),
        node_end(off, n.namelen) <= d.len(),
        n.namelen < u32::MAX,
        d.len() == e.len(),
        forall|b: int|
            off <= b < node_end(off, n.namelen) && !(off + 8 <= b < off + 20) ==> #[trigger] e[b]
                == d[b],
        u32_at(e, off + 16) == left_over(n, kids, left, right).children,
        u32_at(e, off + 8) == left_over(n, kids, left, right).left,
        u32_at(e, off + 12) == left_over(n, kids, left, right).right,
    ensures
        node_of(e, off) == Some(left_over(n, kids, left, right)),
{
    reveal(node_of);
    lemma_word_bounds(d, off);
    assert(u32_at(e, off) == u32_at(d, off));
    assert(u32_at(e, off + 4) == u32_at(d, off + 4));
    if n.namelen != 0 {
        lemma_text_same(d, e, off + 20, n.namelen + 1);
    }
}

/// The words of a node.
proof fn lemma_node_words(d: Seq<u8>, off: int)
    requires
        node_of(d, off) is Some,
    ensures
        off + 20 <= d.len(),
        0 <= (node_of(d, off)->0).namelen,
        u32_at(d, off) == (node_of(d, off)->0).namelen,
        u32_at(d, off + 4) == (node_of(d, off)->0).prop,
        u32_at(d, off + 8) == (node_of(d, off)->0).left,
        u32_at(d, off + 12) == (node_of(d, off)->0).right,
        u32_at(d, off + 16) == (node_of(d, off)->0).children,
{
    reveal(node_of);
    lemma_word_bounds(d, off);
}

/// How a node is pruned.
proof fn lemma_prune_node(d: Seq<u8>, off: int, depth: nat)
    requires
        depth > 0,
        node_of(d, off) is Some,
    ensures
        ({
            let n = node_of(d, off)->0;
            let below = (depth - 1) as nat;
            let (d1, k) = prune_link(d, off + 16, n.children, below);
            let (d2, l) = prune_link(d1, off + 8, n.left, below);
            let (d3, r) = prune_link(d2, off + 12, n.right, below);
            k is Ok && l is Ok && r is Ok ==> prune(d, off, depth) == if k->Ok_0 && l->Ok_0
                && r->Ok_0 && u32_at(d3, off + 4) == 0 {
                wipe_node(d3, off, n.namelen)
            } else {
                (d3, Ok::<bool, AreaFault>(false))
            }
        }),
{
    reveal(node_of);
}

/// What pruning the link at `at` does.
spec fn link_pruned(d: Seq<u8>, at: int, link: int, depth: nat) -> bool {
    let (e, r) = prune_link(d, at, link, depth);
    &&& r is Ok
    &&& changed_in(d, e, link_bytes(d, link, depth) + word_bytes(at))
    &&& u32_at(e, at) == if r->Ok_0 {
        0
    } else {
        link
    }
    &&& !r->Ok_0 ==> link != 0 && pruned_well(d, e, link, depth)
}

/// Pruning what a link refers to.
proof fn lemma_prune_link(d: Seq<u8>, at: int, link: int, depth: nat)
    requires
        link_apart(d, link, depth),
        0 <= at,
        at + 4 <= d.len(),
        u32_at(d, at) == link,
        word_bytes(at).disjoint(link_bytes(d, link, depth)),
    ensures
        link_pruned(d, at, link, depth),
    decreases depth, 2int,
{
    if link != 0 {
        assert(nodes_apart(d, link, depth)) by {
            reveal(link_apart);
        }
        assert(link_bytes(d, link, depth) == bytes_below(d, link, depth)) by {
            reveal(link_bytes);
        }
        lemma_prune(d, link, depth);
        let (e, r) = prune(d, link, depth);
        lemma_le_bytes(0);
        assert forall|b: int| at <= b < at + 4 implies #[trigger] e[b] == d[b] by {
            assert(word_bytes(at).contains(b));
        }
        assert(u32_at(e, at) == u32_at(d, at));
        if r->Ok_0 {
            lemma_put_u32(e, at, 0);
        } else {
            reveal(pruned_well);
            reveal(link_alive);
            reveal(link_apart);
            reveal(link_bytes);
        }
    }
}

/// Pruning the three links of a node one after the other.
proof fn lemma_prune_links(d: Seq<u8>, off: int, n: NodeView, below: nat)
    requires
        node_of(d, off) == Some(n),
        0 <= off,
        node_end(off, n.namelen) <= d.len(),
        n.namelen < u32::MAX,
        link_apart(d, n.left, below),
        link_apart(d, n.right, below),
        link_apart(d, n.children, below),
        ({
            let own = own_bytes(off, n.namelen);
            let left = link_bytes(d, n.left, below);
            let right = link_bytes(d, n.right, below);
            let kids = link_bytes(d, n.children, below);
            &&& own.disjoint(left) && own.disjoint(right) && own.disjoint(kids)
            &&& left.disjoint(right) && left.disjoint(kids) && right.disjoint(kids)
        }),
    ensures
        ({
            let (d1, k) = prune_link(d, off + 16, n.children, below);
            let (d2, l) = prune_link(d1, off + 8, n.left, below);
            let (d3, r) = prune_link(d2, off + 12, n.right, below);
            &&& k is Ok && l is Ok && r is Ok
            &&& changed_in(
                d,
                d3,
                own_bytes(off, n.namelen) + link_bytes(d, n.left, below) + link_bytes(
                    d,
                    n.right,
                    below,
                ) + link_bytes(d, n.children, below),
            )
            &&& node_of(d3, off) == Some(left_over(n, k->Ok_0, l->Ok_0, r->Ok_0))
            &&& !k->Ok_0 ==> n.children != 0 && pruned_well(d, d3, n.children, below)
            &&& !l->Ok_0 ==> n.left != 0 && pruned_well(d, d3, n.left, below)
            &&& !r->Ok_0 ==> n.right != 0 && pruned_well(d, d3, n.right, below)
        }),
    decreases below, 3int,
{
    let own = own_bytes(off, n.namelen);
    let kids = link_bytes(d, n.children, below);
    let left = link_bytes(d, n.left, below);
    let right = link_bytes(d, n.right, below);
    lemma_node_words(d, off);
    let k_word = word_bytes(off + 16);
    let l_word = word_bytes(off + 8);
    let r_word = word_bytes(off + 12);
    assert(k_word.subset_of(own) && l_word.subset_of(own) && r_word.subset_of(own));
    let (d1, k) = prune_link(d, off + 16, n.children, below);
    lemma_prune_link(d, off + 16, n.children, below);
    lemma_untouched(d, d1, kids + k_word, n.left, below);
    lemma_untouched(d, d1, kids + k_word, n.right, below);
    assert(u32_at(d1, off + 8) == n.left) by {
        lemma_word_kept(d, d1, off + 8, kids + k_word);
    }
    let (d2, l) = prune_link(d1, off + 8, n.left, below);
    lemma_prune_link(d1, off + 8, n.left, below);
    lemma_untouched(d1, d2, left + l_word, n.right, below);
    assert(u32_at(d2, off + 12) == n.right && u32_at(d2, off + 16) == u32_at(d1, off + 16)) by {
        lemma_word_kept(d, d1, off + 12, kids + k_word);
        lemma_word_kept(d1, d2, off + 12, left + l_word);
        lemma_word_kept(d1, d2, off + 16, left + l_word);
    }
    let (d3, r) = prune_link(d2, off + 12, n.right, below);
    lemma_prune_link(d2, off + 12, n.right, below);
    lemma_word_kept(d2, d3, off + 16, right + r_word);
    lemma_word_kept(d2, d3, off + 8, right + r_word);
    if !k->Ok_0 {
        lemma_stays_pruned(d, d1, d2, left + l_word, n.children, below);
        lemma_stays_pruned(d, d2, d3, right + r_word, n.children, below);
    }
    if !l->Ok_0 {
        assert(pruned_well(d, d2, n.left, below)) by {
            reveal(pruned_well);
        }
        lemma_stays_pruned(d, d2, d3, right + r_word, n.left, below);
    }
    if !r->Ok_0 {
        assert(pruned_well(d, d3, n.right, below)) by {
            reveal(pruned_well);
        }
    }
    assert forall|b: int|
        off <= b < node_end(off, n.namelen) && !(off + 8 <= b < off + 20) implies #[trigger] d3[b]
        == d[b] by {
        assert(own.contains(b));
        assert(d1[b] == d[b]);
        assert(d2[b] == d1[b]);
    }
    lemma_left_over(d, d3, off, n, k->Ok_0, l->Ok_0, r->Ok_0);
    assert forall|b: int|
        0 <= b < d.len() && !(own + left + right + kids).contains(b) implies #[trigger] d3[b]
        == d[b] by {
        assert(d1[b] == d[b]);
        assert(d2[b] == d1[b]);
    }
}

/// A word that is not part of the set stays.
proof fn lemma_word_kept(d: Seq<u8>, e: Seq<u8>, at: int, s: Set<int>)
    requires
        changed_in(d, e, s),
        0 <= at,
        at + 4 <= d.len(),
        word_bytes(at).disjoint(s),
    ensures
        u32_at(e, at) == u32_at(d, at),
{
    assert forall|b: int| at <= b < at + 4 implies #[trigger] e[b] == d[b] by {
        assert(word_bytes(at).contains(b));
    }
    assert(u32_at(e, at) == u32_at(d, at));
}

/// Pruning leaves no dead node below the one at `off`, and removes that one where
/// it is dead.
proof fn lemma_prune(d: Seq<u8>, off: int, depth: nat)
    requires
        nodes_apart(d, off, depth),
    ensures
        ({
            let (e, r) = prune(d, off, depth);
            &&& r is Ok
            &&& changed_in(d, e, bytes_below(d, off, depth))
            &&& !r->Ok_0 ==> {
                &&& all_alive(e, off, depth)
                &&& nodes_apart(e, off, depth)
                &&& bytes_below(e, off, depth).subset_of(bytes_below(d, off, depth))
            }
        }),
    decreases depth, 1int,
{
    let n = node_of(d, off)->0;
    let below = (depth - 1) as nat;
    lemma_parts(d, off, depth);
    lemma_prune_links(d, off, n, below);
    lemma_prune_node(d, off, depth);
    let (d1, k) = prune_link(d, off + 16, n.children, below);
    let (d2, l) = prune_link(d1, off + 8, n.left, below);
    let (d3, r) = prune_link(d2, off + 12, n.right, below);
    let all = bytes_below(d, off, depth);
    assert(changed_in(d, d3, all));
    lemma_node_words(d3, off);
    if k->Ok_0 && l->Ok_0 && r->Ok_0 && n.prop == 0 {
        lemma_wiped(d, d3, off, n.namelen, all);
    } else {
        lemma_left_standing(d, d3, off, n, k->Ok_0, l->Ok_0, r->Ok_0, depth);
    }
}

/// Wiping a node changes its own bytes only.
proof fn lemma_wiped(d: Seq<u8>, e: Seq<u8>, off: int, namelen: int, s: Set<int>)
    requires
        changed_in(d, e, s),
        own_bytes(off, namelen).subset_of(s),
        0 <= off,
        0 <= namelen < u32::MAX,
        node_end(off, namelen) <= d.len(),
    ensures
        wipe_node(e, off, namelen).1 == Ok::<bool, AreaFault>(true),
        changed_in(d, wipe_node(e, off, namelen).0, s),
{
    let f = wipe_node(e, off, namelen).0;
    assert forall|b: int| 0 <= b < d.len() && !s.contains(b) implies #[trigger] f[b] == d[b] by {
        assert(!own_bytes(off, namelen).contains(b));
        assert(e[b] == d[b]);
    }
}

/// A node that is not dead stays, with what is left of its links.
proof fn lemma_left_standing(
    d: Seq<u8>,
    e: Seq<u8>,
    off: int,
    n: NodeView,
    kids: bool,
    left: bool,
    right: bool,
    depth: nat,
)
    requires
        nodes_apart(d, off, depth),
        node_of(d, off) == Some(n),
        d.len() == e.len(),
        node_of(e, off) == Some(left_over(n, kids, left, right)),
        !(kids && left && right && n.prop == 0),
        !kids ==> n.children != 0 && pruned_well(d, e, n.children, (depth - 1) as nat),
        !left ==> n.left != 0 && pruned_well(d, e, n.left, (depth - 1) as nat),
        !right ==> n.right != 0 && pruned_well(d, e, n.right, (depth - 1) as nat),
    ensures
        all_alive(e, off, depth),
        nodes_apart(e, off, depth),
        bytes_below(e, off, depth).subset_of(bytes_below(d, off, depth)),
{
    let below = (depth - 1) as nat;
    lemma_parts(d, off, depth);
    lemma_parts(e, off, depth);
    lemma_zero_link(e, below);
    reveal(pruned_well);
}

/// Zero refers to nothing.
proof fn lemma_zero_link(d: Seq<u8>, depth: nat)
    ensures
        link_apart(d, 0, depth),
        link_alive(d, 0, depth),
        link_bytes(d, 0, depth) == Set::<int>::empty(),
{
    reveal(link_bytes);
    reveal(link_apart);
    reveal(link_alive);
}

/// Where no node that is reached is dead, none that is reached otherwise is.
proof fn lemma_alive_reached(d: Seq<u8>, off: int, depth: nat, o: int, k: nat)
    requires
        all_alive(d, off, depth),
        reaches(d, off, o, k),
    ensures
        node_of(d, o) matches Some(n) && !dead(n),
    decreases depth,
{
    if o != off {
        let n = node_of(d, off)->0;
        let below = (depth - 1) as nat;
        let less = (k - 1) as nat;
        if n.left != 0 && reaches(d, n.left, o, less) {
            lemma_alive_reached(d, n.left, below, o, less);
        } else if n.right != 0 && reaches(d, n.right, o, less) {
            lemma_alive_reached(d, n.right, below, o, less);
        } else {
            lemma_alive_reached(d, n.children, below, o, less);
        }
    }
}

/// Pruning a trie whose nodes share no bytes leaves no dead node, but for the
/// root, whatever the names of the nodes are.
pub proof fn law_prune(d: Seq<u8>)
    requires
        trie_apart(d),
    ensures
        prune(d, 0, (d.len() + 1) as nat).1 is Ok,
        no_dead_nodes(prune(d, 0, (d.len() + 1) as nat).0),
{
    let depth = (d.len() + 1) as nat;
    lemma_prune(d, 0, depth);
    let (e, r) = prune(d, 0, depth);
    assert forall|o: int| #[trigger] reached(e, o) && o != 0 implies (node_of(e, o) matches Some(n)
        && !dead(n)) by {
        let k = choose|k: nat| #[trigger] reaches(e, 0, o, k);
        if r->Ok_0 {
            lemma_bare_root(d, depth);
        } else {
            lemma_alive_reached(e, 0, depth, o, k);
        }
    }
}

/// A root that leads to nothing still leads to nothing after pruning.
proof fn lemma_bare_root(d: Seq<u8>, depth: nat)
    requires
        nodes_apart(d, 0, depth),
        prune(d, 0, depth).1 == Ok::<bool, AreaFault>(true),
    ensures
        node_of(prune(d, 0, depth).0, 0) matches Some(n) && n.left == 0 && n.right == 0
            && n.children == 0,
{
    let n = node_of(d, 0)->0;
    let below = (depth - 1) as nat;
    lemma_parts(d, 0, depth);
    lemma_prune_links(d, 0, n, below);
    lemma_prune_node(d, 0, depth);
    let e = prune(d, 0, depth).0;
    assert(node_of(e, 0) matches Some(n) && n.left == 0 && n.right == 0 && n.children == 0) by {
        reveal(node_of);
        assert(forall|b: int| 0 <= b < 20 ==> #[trigger] e[b] == 0);
        assert(u32_at(e, 0) == 0);
        assert(u32_at(e, 8) == 0);
        assert(u32_at(e, 12) == 0);
        assert(u32_at(e, 16) == 0);
    }
}

// ---------------------------------------------------------------------------
// Deleting a property
// ---------------------------------------------------------------------------

/// Reaching one node from another, and a third from that.
proof fn lemma_reach_on(d: Seq<u8>, a: int, b: int, c: int, j: nat, k: nat)
    requires
        reaches(d, a, b, j),
        reaches(d, b, c, k),
    ensures
        reaches(d, a, c, j + k),
    decreases j,
{
    if a == b {
        lemma_reach_more(d, a, c, k, j + k);
    } else {
        let n = node_of(d, a)->0;
        let less = (j - 1) as nat;
        assert((j + k - 1) as nat == less + k);
        if n.left != 0 && reaches(d, n.left, b, less) {
            lemma_reach_on(d, n.left, b, c, less, k);
        } else if n.right != 0 && reaches(d, n.right, b, less) {
            lemma_reach_on(d, n.right, b, c, less, k);
        } else {
            lemma_reach_on(d, n.children, b, c, less, k);
        }
    }
}

/// What is reached in some steps is reached in more.
proof fn lemma_reach_more(d: Seq<u8>, a: int, b: int, j: nat, k: nat)
    requires
        reaches(d, a, b, j),
        j <= k,
    ensures
        reaches(d, a, b, k),
    decreases j,
{
    if a != b {
        let n = node_of(d, a)->0;
        let less = (j - 1) as nat;
        let more = (k - 1) as nat;
        if n.left != 0 && reaches(d, n.left, b, less) {
            lemma_reach_more(d, n.left, b, less, more);
        } else if n.right != 0 && reaches(d, n.right, b, less) {
            lemma_reach_more(d, n.right, b, less, more);
        } else {
            lemma_reach_more(d, n.children, b, less, more);
        }
    }
}

/// A sibling that is found is reached.
proof fn lemma_sibling_reached(d: Seq<u8>, off: int, target: Seq<u8>, steps: nat)
    ensures
        find_sibling(d, off, target, steps) matches Ok(Some(x)) ==> reaches(d, off, x, steps),
    decreases steps,
{
    reveal(node_of);
    if steps > 0 {
        if let Ok(n) = read_node(d, off) {
            lemma_sibling_reached(d, n.left, target, (steps - 1) as nat);
            lemma_sibling_reached(d, n.right, target, (steps - 1) as nat);
        }
    }
}

/// A node that a path leads to is reached.
proof fn lemma_descend_reached(d: Seq<u8>, off: int, segs: Seq<Seq<u8>>) -> (k: nat)
    requires
        node_of(d, off) is Some,
        descend(d, off, segs) matches Ok(Some(_)),
    ensures
        reaches(d, off, (descend(d, off, segs)->Ok_0)->0, k),
    decreases segs.len(),
{
    if segs.len() == 0 {
        1
    } else {
        let n = node_of(d, off)->0;
        let steps = max_steps(d.len() as int);
        assert(read_node(d, off) == Ok::<NodeView, AreaFault>(n)) by {
            reveal(node_of);
        }
        lemma_sibling_reached(d, n.children, segs[0], steps);
        let next = (find_sibling(d, n.children, segs[0], steps)->Ok_0)->0;
        lemma_reached_read(d, n.children, next, steps);
        let k = lemma_descend_reached(d, next, segs.skip(1));
        lemma_reach_on(d, n.children, next, (descend(d, off, segs)->Ok_0)->0, steps, k);
        steps + k + 1
    }
}

/// A node that is reached can be read.
proof fn lemma_reached_read(d: Seq<u8>, off: int, o: int, k: nat)
    requires
        reaches(d, off, o, k),
    ensures
        node_of(d, o) is Some,
    decreases k,
{
    if o != off {
        let n = node_of(d, off)->0;
        let less = (k - 1) as nat;
        if n.left != 0 && reaches(d, n.left, o, less) {
            lemma_reached_read(d, n.left, o, less);
        } else if n.right != 0 && reaches(d, n.right, o, less) {
            lemma_reached_read(d, n.right, o, less);
        } else {
            lemma_reached_read(d, n.children, o, less);
        }
    }
}

/// The words of a node that is reached are among the bytes of the nodes.
proof fn lemma_reached_bytes(d: Seq<u8>, off: int, depth: nat, o: int, k: nat)
    requires
        nodes_apart(d, off, depth),
        reaches(d, off, o, k),
    ensures
        forall|b: int| o <= b < o + 20 ==> #[trigger] bytes_below(d, off, depth).contains(b),
    decreases depth,
{
    let n = node_of(d, off)->0;
    let below = (depth - 1) as nat;
    lemma_parts(d, off, depth);
    lemma_node_words(d, off);
    reveal(link_bytes);
    if o != off {
        let less = (k - 1) as nat;
        if n.left != 0 && reaches(d, n.left, o, less) {
            lemma_reached_bytes(d, n.left, below, o, less);
        } else if n.right != 0 && reaches(d, n.right, o, less) {
            lemma_reached_bytes(d, n.right, below, o, less);
        } else {
            lemma_reached_bytes(d, n.children, below, o, less);
        }
    } else {
        assert forall|b: int| o <= b < o + 20 implies #[trigger] bytes_below(
            d,
            off,
            depth,
        ).contains(b) by {
            assert(own_bytes(off, n.namelen).contains(b));
        }
    }
}

/// A node with another record.
proof fn lemma_node_prop(d: Seq<u8>, e: Seq<u8>, off: int)
    requires
        0 <= off,
        e.len() == d.len(),
        node_of(d, off) matches Some(n) && node_end(off, n.namelen) <= d.len() && n.namelen
            < u32::MAX && forall|b: int|
            off <= b < node_end(off, n.namelen) && !(off + 4 <= b < off + 8) ==> #[trigger] e[b]
                == d[b],
    ensures
        node_of(e, off) == Some(
            NodeView { prop: u32_at(e, off + 4), ..node_of(d, off)->0 },
        ),
{
    reveal(node_of);
    let n = node_of(d, off)->0;
    lemma_word_bounds(d, off);
    assert(u32_at(e, off) == u32_at(d, off));
    assert(u32_at(e, off + 8) == u32_at(d, off + 8));
    assert(u32_at(e, off + 12) == u32_at(d, off + 12));
    assert(u32_at(e, off + 16) == u32_at(d, off + 16));
    if n.namelen != 0 {
        lemma_text_same(d, e, off + 20, n.namelen + 1);
    }
}

/// Where only the word for the record of one node differs, the nodes are the same.
proof fn lemma_prop_changed(d: Seq<u8>, e: Seq<u8>, off: int, depth: nat, x: int, k: nat)
    requires
        nodes_apart(d, off, depth),
        reaches(d, off, x, k),
        e.len() == d.len(),
        forall|b: int|
            bytes_below(d, off, depth).contains(b) && !(x + 4 <= b < x + 8) ==> #[trigger] e[b]
                == d[b],
    ensures
        nodes_apart(e, off, depth),
        bytes_below(e, off, depth) == bytes_below(d, off, depth),
    decreases depth,
{
    let n = node_of(d, off)->0;
    let below = (depth - 1) as nat;
    lemma_parts(d, off, depth);
    lemma_node_words(d, off);
    let own = own_bytes(off, n.namelen);
    let left = link_bytes(d, n.left, below);
    let right = link_bytes(d, n.right, below);
    let kids = link_bytes(d, n.children, below);
    if x == off {
        assert forall|b: int|
            off <= b < node_end(off, n.namelen) && !(off + 4 <= b < off + 8) implies #[trigger] e[b]
            == d[b] by {
            assert(own.contains(b));
        }
        lemma_node_prop(d, e, off);
        assert forall|b: int| (left + right + kids).contains(b) implies #[trigger] e[b] == d[b] by {
            assert(!own.contains(b));
        }
        lemma_link_same(d, e, n.left, below);
        lemma_link_same(d, e, n.right, below);
        lemma_link_same(d, e, n.children, below);
    } else {
        let less = (k - 1) as nat;
        let c = if n.left != 0 && reaches(d, n.left, x, less) {
            n.left
        } else if n.right != 0 && reaches(d, n.right, x, less) {
            n.right
        } else {
            n.children
        };
        let part = link_bytes(d, c, below);
        assert(part == bytes_below(d, c, below) && nodes_apart(d, c, below)) by {
            reveal(link_bytes);
            reveal(link_apart);
        }
        lemma_reached_bytes(d, c, below, x, less);
        assert forall|b: int| own.contains(b) implies #[trigger] e[b] == d[b] by {
            assert(!part.contains(b));
        }
        lemma_node_read_same(d, e, off);
        lemma_prop_changed(d, e, c, below, x, less);
        assert(link_apart(e, c, below) && link_bytes(e, c, below) == part) by {
            reveal(link_bytes);
            reveal(link_apart);
        }
        if c != n.left {
            assert forall|b: int| left.contains(b) implies #[trigger] e[b] == d[b] by {
                assert(!part.contains(b));
            }
            lemma_link_same(d, e, n.left, below);
        }
        if c != n.right {
            assert forall|b: int| right.contains(b) implies #[trigger] e[b] == d[b] by {
                assert(!part.contains(b));
            }
            lemma_link_same(d, e, n.right, below);
        }
        if c != n.children {
            assert forall|b: int| kids.contains(b) implies #[trigger] e[b] == d[b] by {
                assert(!part.contains(b));
            }
            lemma_link_same(d, e, n.children, below);
        }
    }
    lemma_parts(e, off, depth);
}

/// The bytes of the record `r` at `off`, and of its long value.
pub open spec fn bytes_of_record(off: int, r: RecordView) -> Set<int> {
    Set::new(
        |b: int|
            {
                ||| off <= b <= off + 96 + r.name.len()
                ||| r.is_long && r.value_offset <= b <= r.value_offset + r.value.len()
            },
    )
}

/// The record that is removed with the key shares no byte with the nodes.
pub open spec fn record_apart(d: Seq<u8>, key: Seq<u8>) -> bool {
    match find_node(d, key) {
        Ok(Some(node)) => match read_record(put_u32(d, node + 4, 0), u32_at(d, node + 4)) {
            Ok(r) => u32_at(d, node + 4) != 0 ==> bytes_of_record(
                u32_at(d, node + 4),
                r,
            ).disjoint(bytes_below(d, 0, (d.len() + 1) as nat)),
            Err(_) => true,
        },
        _ => true,
    }
}

/// Taking a record away leaves the nodes where they are.
proof fn lemma_detached(d: Seq<u8>, key: Seq<u8>)
    requires
        trie_apart(d),
        record_apart(d, key),
        find_node(d, key) matches Ok(Some(_)),
        ({
            let node = (find_node(d, key)->Ok_0)->0;
            u32_at(d, node + 4) != 0 && detach_record(d, node, u32_at(d, node + 4)).1 is Ok
        }),
    ensures
        ({
            let node = (find_node(d, key)->Ok_0)->0;
            let e = detach_record(d, node, u32_at(d, node + 4)).0;
            e.len() == d.len() && trie_apart(e)
        }),
{
    let node = (find_node(d, key)->Ok_0)->0;
    let prop = u32_at(d, node + 4);
    let depth = (d.len() + 1) as nat;
    let k = lemma_descend_reached(d, 0, segments(key));
    let d1 = put_u32(d, node + 4, 0);
    lemma_le_bytes(0);
    lemma_below_in_range(d, 0, depth);
    lemma_prop_changed(d, d1, 0, depth, node, k);
    let r = read_record(d1, prop)->Ok_0;
    let wiped = bytes_of_record(prop, r);
    let e = detach_record(d, node, prop).0;
    lemma_wiped_record(d1, prop);
    let all = bytes_below(d1, 0, depth);
    lemma_below_in_range(d1, 0, depth);
    assert forall|b: int| all.contains(b) implies #[trigger] e[b] == d1[b] by {
        assert(!wiped.contains(b));
    }
    lemma_nodes_same(d1, e, 0, depth);
}

/// The bytes of nodes lie in the region.
proof fn lemma_below_in_range(d: Seq<u8>, off: int, depth: nat)
    requires
        nodes_apart(d, off, depth),
    ensures
        forall|b: int| #[trigger] bytes_below(d, off, depth).contains(b) ==> 0 <= b < d.len(),
{
    let n = node_of(d, off)->0;
    let below = (depth - 1) as nat;
    lemma_parts(d, off, depth);
    lemma_bytes_in_range(d, n.left, below);
    lemma_bytes_in_range(d, n.right, below);
    lemma_bytes_in_range(d, n.children, below);
}

/// Wiping a record changes its own bytes only.
proof fn lemma_wiped_record(d: Seq<u8>, off: int)
    requires
        read_record(d, off) is Ok,
    ensures
        changed_in(d, wipe_record(d, off).0, bytes_of_record(off, read_record(d, off)->Ok_0)),
{
    let r = read_record(d, off)->Ok_0;
    let e = wipe_record(d, off).0;
    assert forall|b: int|
        0 <= b < d.len() && !bytes_of_record(off, r).contains(b) implies #[trigger] e[b] == d[b] by {}
}

/// Deleting a property with pruning leaves no trie node that leads to nothing,
/// whatever the names and the records of the area are: it is enough that the
/// nodes share no bytes with each other or with what is removed.
pub proof fn law_delete_prunes(s: AreaState, key: Seq<u8>)
    requires
        trie_apart(s.data),
        record_apart(s.data, key),
        delete(s, key, true).1 == Ok::<bool, AreaFault>(true),
    ensures
        no_dead_nodes(delete(s, key, true).0.data),
{
    let d = s.data;
    let node = (find_node(d, key)->Ok_0)->0;
    lemma_detached(d, key);
    law_prune(detach_record(d, node, u32_at(d, node + 4)).0);
}

// ---------------------------------------------------------------------------
// Well-formed areas
// ---------------------------------------------------------------------------

/// The bytes of the nodes of a layout that stand below the one at `o`.
spec fn owned_below(g: Layout, o: int, s: Set<int>) -> bool {
    forall|b: int| #[trigger]
        s.contains(b) ==> (g.own)(b) is Node && below(g, (g.own)(b)->Node_0, o)
}

/// The nodes of a well-formed area share no bytes.
proof fn lemma_layout_apart(s: AreaState, g: Layout, o: int, depth: nat)
    requires
        describes(g, s),
        g.nodes.dom().contains(o),
        o + 20 * depth >= s.data.len(),
    ensures
        nodes_apart(s.data, o, depth),
        owned_below(g, o, bytes_below(s.data, o, depth)),
    decreases depth, 0int,
{
    let d = s.data;
    lemma_node(s, g, o);
    assert(node_fits(s, g, o));
    let n = g.nodes[o];
    assert(node_of(d, o) == Some(node_view(n))) by {
        reveal(node_of);
    }
    let below_depth = (depth - 1) as nat;
    lemma_layout_link(s, g, o, 8, below_depth);
    lemma_layout_link(s, g, o, 12, below_depth);
    lemma_layout_link(s, g, o, 16, below_depth);
    lemma_layout_pair(s, g, o, 8, 12, below_depth);
    lemma_layout_pair(s, g, o, 8, 16, below_depth);
    lemma_layout_pair(s, g, o, 12, 16, below_depth);
    assert forall|b: int| #[trigger]
        own_bytes(o, name_of(n).len() as int).contains(b) implies (g.own)(b) == Owner::Node(o) by {}
    lemma_parts(d, o, depth);
    assert(below(g, o, o));
}

/// What a node of a well-formed area refers to.
proof fn lemma_layout_link(s: AreaState, g: Layout, o: int, slot: int, depth: nat)
    requires
        describes(g, s),
        g.nodes.dom().contains(o),
        is_link(slot),
        o + 20 + 20 * depth >= s.data.len(),
    ensures
        ({
            let c = link_of(g.nodes[o], slot);
            let part = link_bytes(s.data, c, depth);
            &&& link_apart(s.data, c, depth)
            &&& c != 0 ==> owned_below(g, c, part)
            &&& c == 0 ==> part == Set::<int>::empty()
            &&& owned_below(g, o, part)
            &&& forall|b: int| #[trigger] part.contains(b) ==> (g.own)(b) != Owner::Node(o)
        }),
    decreases depth, 1int,
{
    reveal(link_apart);
    reveal(link_bytes);
    let c = link_of(g.nodes[o], slot);
    lemma_node(s, g, o);
    if c != 0 {
        assert(link_fits(g, o, slot));
        lemma_child_behind(s, g, o, slot);
        lemma_node(s, g, c);
        assert(o + 20 <= c);
        lemma_layout_apart(s, g, c, depth);
        let part = bytes_below(s.data, c, depth);
        assert forall|b: int| #[trigger] part.contains(b) implies (g.own)(b) is Node && below(
            g,
            (g.own)(b)->Node_0,
            o,
        ) && (g.own)(b) != Owner::Node(o) by {
            lemma_below_up(g, (g.own)(b)->Node_0, c, o);
        }
    }
}

/// What a node refers to at two places.
proof fn lemma_layout_pair(s: AreaState, g: Layout, o: int, j: int, k: int, depth: nat)
    requires
        describes(g, s),
        g.nodes.dom().contains(o),
        is_link(j),
        is_link(k),
        j != k,
        ({
            let a = link_of(g.nodes[o], j);
            let c = link_of(g.nodes[o], k);
            &&& a != 0 ==> owned_below(g, a, link_bytes(s.data, a, depth))
            &&& c != 0 ==> owned_below(g, c, link_bytes(s.data, c, depth))
            &&& a == 0 ==> link_bytes(s.data, a, depth) == Set::<int>::empty()
            &&& c == 0 ==> link_bytes(s.data, c, depth) == Set::<int>::empty()
        }),
    ensures
        link_bytes(s.data, link_of(g.nodes[o], j), depth).disjoint(
            link_bytes(s.data, link_of(g.nodes[o], k), depth),
        ),
{
    let a = link_of(g.nodes[o], j);
    let c = link_of(g.nodes[o], k);
    let x = link_bytes(s.data, a, depth);
    let y = link_bytes(s.data, c, depth);
    assert forall|b: int| x.contains(b) implies !y.contains(b) by {
        if y.contains(b) {
            lemma_below_apart(s, g, (g.own)(b)->Node_0, o, j, k);
        }
    }
}

/// In a well-formed area the nodes share no bytes with each other or with a
/// record.
pub proof fn lemma_formed_apart(s: AreaState, key: Seq<u8>)
    requires
        well_formed(s),
        key_ok(key),
    ensures
        trie_apart(s.data),
        record_apart(s.data, key),
{
    let g = choose|g: Layout| #[trigger] describes(g, s);
    let d = s.data;
    let depth = (d.len() + 1) as nat;
    lemma_node(s, g, 0);
    lemma_layout_apart(s, g, 0, depth);
    lemma_find_node(s, g, key);
    if content_at(g, segments(key)) is Some {
        let x = g.index[segments(key)];
        lemma_node(s, g, x);
        lemma_record_apart(s, g, x, depth);
    } else if g.index.dom().contains(segments(key)) {
        lemma_node(s, g, g.index[segments(key)]);
    }
}

/// The record of a node shares no bytes with the nodes.
proof fn lemma_record_apart(s: AreaState, g: Layout, x: int, depth: nat)
    requires
        describes(g, s),
        g.nodes.dom().contains(x),
        g.nodes[x].prop != 0,
        owned_below(g, 0, bytes_below(s.data, 0, depth)),
    ensures
        ({
            let p = g.nodes[x].prop;
            let r = read_record(put_u32(s.data, x + 4, 0), p);
            &&& r == Ok::<RecordView, AreaFault>(rec_view(p, g.recs[p]))
            &&& bytes_of_record(p, rec_view(p, g.recs[p])).disjoint(bytes_below(s.data, 0, depth))
        }),
{
    let d = s.data;
    lemma_node(s, g, x);
    let p = g.nodes[x].prop;
    assert(rec_fits(s, g, p));
    let e = put_u32(d, x + 4, 0);
    lemma_le_bytes(0);
    assert forall|b: int| 0 <= b < s.used && (g.own)(b) != Owner::Node(x) implies #[trigger] e[b]
        == d[b] by {
        if x + 4 <= b < x + 8 {
            assert((g.own)(b) == Owner::Node(x));
        }
    }
    lemma_rec_untouched(s, g, p, e, x);
    lemma_read_record(e, p, g.recs[p]);
    lemma_rec_owned(s, g, p);
    let r = rec_view(p, g.recs[p]);
    assert forall|b: int| bytes_of_record(p, r).contains(b) implies !bytes_below(
        d,
        0,
        depth,
    ).contains(b) by {
        assert(of_record((g.own)(b), p));
    }
}

} // verus!
