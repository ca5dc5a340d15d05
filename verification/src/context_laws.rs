//! What holds of lookups in a context table that is put together as its
//! readers expect.
use vstd::prelude::*;
use vstd::utf8::valid_utf8;
use crate::area_state::{dot_index, lemma_dot_index, lemma_dot_index_is};
use crate::bytes::{
    lemma_lex_irreflexive, lemma_lex_total, lemma_lex_transitive, lemma_nul_index,
    lemma_word_bounds, lex_less, lex_order, nul_index, KeyOrder,
};
use crate::context_table::{
    overridden, padded, piece_order, u32_be_at, ContextTable, EntryView, ExactMatch, Position,
    TableError,
    NO_CONTEXT,
};

verus! {

/// No byte of `s` is NUL.
pub open spec fn nul_free(s: Seq<u8>) -> bool {
    forall|i: int| 0 <= i < s.len() ==> s[i] != 0
}

/// The children of a node can be read and stand in the order of their names.
pub open spec fn sorted_children(t: ContextTable, node: int) -> bool {
    &&& 0 <= t.child_count(node) <= i32::MAX
    &&& forall|i: int| 0 <= i < t.child_count(node) ==> (#[trigger] t.child(node, i)) is Some
    &&& forall|i: int, j: int|
        0 <= i < j < t.child_count(node) ==> lex_less(
            ((#[trigger] t.child(node, i))->0).1,
            ((#[trigger] t.child(node, j))->0).1,
        )
}

/// The prefixes `0..n` at `list` can be read and stand in the order of their
/// lengths, the longest first.
pub open spec fn sorted_prefixes(t: ContextTable, list: int, n: int) -> bool {
    &&& forall|i: int|
        0 <= i < n ==> {
            &&& (#[trigger] t.prefix(list, i)) is Some
            &&& t.prefix(list, i)->0.name + t.prefix(list, i)->0.len <= t.data.len()
        }
    &&& forall|i: int, j: int|
        0 <= i < j < n ==> (#[trigger] t.prefix(list, i))->0.len >= (#[trigger] t.prefix(
            list,
            j,
        ))->0.len
}

/// Without NUL bytes, pieces compare as byte strings do.
proof fn lemma_piece_order(child: Seq<u8>, piece: Seq<u8>)
    requires
        nul_free(piece),
    ensures
        piece_order(child, piece) == lex_order(child, piece),
    decreases piece.len(),
{
    let n = piece.len() as int;
    let p = padded(child, n);
    lemma_lex_irreflexive(piece);
    lemma_lex_irreflexive(child);
    if n == 0 {
        assert(p =~= piece);
        if child.len() == 0 {
            assert(child =~= piece);
        }
    } else if child.len() == 0 {
        assert(p[0] == 0);
        assert(piece[0] != 0);
    } else {
        let (c, q) = (child.skip(1), piece.skip(1));
        assert(nul_free(q)) by {
            assert forall|i: int| 0 <= i < q.len() implies q[i] != 0 by {
                assert(q[i] == piece[i + 1]);
            }
        }
        lemma_piece_order(c, q);
        assert(p.skip(1) =~= padded(c, n - 1));
        assert(p[0] == child[0]);
        assert(p =~= seq![p[0]] + p.skip(1));
        assert(child =~= seq![child[0]] + c);
        assert(piece =~= seq![piece[0]] + q);
    }
}

/// A search among sorted children, from `lo` to `hi`, knows about every child
/// in between.
proof fn lemma_search(t: ContextTable, node: int, piece: Seq<u8>, lo: int, hi: int)
    requires
        sorted_children(t, node),
        nul_free(piece),
        0 <= lo,
        hi < t.child_count(node),
    ensures
        forall|k: int|
            lo <= k <= hi && ((#[trigger] t.child(node, k))->0).1 == piece ==> t.search(
                node,
                piece,
                lo,
                hi,
            ) == Some((t.child(node, k)->0).0),
        (forall|k: int| lo <= k <= hi ==> ((#[trigger] t.child(node, k))->0).1 != piece) ==> t.search(
            node,
            piece,
            lo,
            hi,
        ) is None,
    decreases hi - lo + 1,
{
    if lo <= hi {
        let mid = (lo + hi) / 2;
        let name = (t.child(node, mid)->0).1;
        lemma_piece_order(name, piece);
        lemma_lex_irreflexive(name);
        lemma_lex_irreflexive(piece);
        lemma_lex_total(name, piece);
        match piece_order(name, piece) {
            KeyOrder::Equal => {
                assert forall|k: int|
                    lo <= k <= hi && ((#[trigger] t.child(node, k))->0).1 == piece implies k
                    == mid by {}
            },
            KeyOrder::Less => {
                lemma_search(t, node, piece, mid + 1, hi);
                assert forall|k: int|
                    lo <= k <= mid implies ((#[trigger] t.child(node, k))->0).1 != piece by {
                    if (t.child(node, k)->0).1 == piece && k < mid {
                        lemma_lex_transitive(piece, name, piece);
                    }
                }
            },
            KeyOrder::Greater => {
                lemma_search(t, node, piece, lo, mid - 1);
                assert forall|k: int|
                    mid <= k <= hi implies ((#[trigger] t.child(node, k))->0).1 != piece by {
                    if (t.child(node, k)->0).1 == piece && k > mid {
                        lemma_lex_transitive(piece, name, piece);
                    }
                }
            },
        }
    }
}

/// Where the children of a node are sorted by name, a piece of a property
/// name leads to the child of that name, and to none if no child has it.
pub proof fn law_find_child(t: ContextTable, node: int, piece: Seq<u8>)
    requires
        sorted_children(t, node),
        nul_free(piece),
    ensures
        forall|k: int|
            0 <= k < t.child_count(node) && ((#[trigger] t.child(node, k))->0).1 == piece
                ==> t.find_child(node, piece) == Some((t.child(node, k)->0).0),
        (forall|k: int|
            0 <= k < t.child_count(node) ==> ((#[trigger] t.child(node, k))->0).1 != piece)
            ==> t.find_child(node, piece) is None,
{
    lemma_search(t, node, piece, 0, t.child_count(node) - 1);
}

proof fn lemma_prefixes(
    t: ContextTable,
    rest: Seq<u8>,
    list: int,
    i: int,
    n: int,
    context: int,
) -> (k: int)
    requires
        sorted_prefixes(t, list, n),
        0 <= i <= n,
    ensures
        i <= k <= n,
        forall|j: int| i <= j < k ==> !t.prefix_fits((#[trigger] t.prefix(list, j))->0, rest),
        k < n ==> t.prefix_fits(t.prefix(list, k)->0, rest),
        t.match_prefixes(rest, list, i, n, context) == (if k < n {
            overridden(context, t.prefix(list, k)->0.context)
        } else {
            context
        }),
    decreases n - i,
{
    if i >= n {
        n
    } else if t.prefix_fits(t.prefix(list, i)->0, rest) {
        i
    } else {
        lemma_prefixes(t, rest, list, i + 1, n, context)
    }
}

/// Where the prefixes are sorted by length, the longest one that a name
/// starts with decides its context, and a name that starts with none keeps
/// the context it had.
pub proof fn law_longest_prefix(t: ContextTable, rest: Seq<u8>, list: int, n: int, context: int)
    requires
        sorted_prefixes(t, list, n),
        0 <= n,
    ensures
        (forall|j: int|
            0 <= j < n ==> !t.prefix_fits((#[trigger] t.prefix(list, j))->0, rest))
            ==> t.match_prefixes(rest, list, 0, n, context) == context,
        forall|j: int|
            0 <= j < n && t.prefix_fits((#[trigger] t.prefix(list, j))->0, rest) ==> exists|k: int|
                0 <= k <= j && t.prefix_fits((#[trigger] t.prefix(list, k))->0, rest)
                    && longest_fit(t, rest, list, n, k) && t.match_prefixes(
                    rest,
                    list,
                    0,
                    n,
                    context,
                ) == overridden(context, t.prefix(list, k)->0.context),
{
    let k = lemma_prefixes(t, rest, list, 0, n, context);
    if k < n {
        assert(longest_fit(t, rest, list, n, k)) by {
            assert forall|j: int|
                0 <= j < n && t.prefix_fits((#[trigger] t.prefix(list, j))->0, rest) implies t.prefix(
                list,
                j,
            )->0.len <= t.prefix(list, k)->0.len by {
                if j < k {
                    assert(!t.prefix_fits(t.prefix(list, j)->0, rest));
                }
            }
        }
        assert(t.prefix_fits(t.prefix(list, k)->0, rest));
    }
}

/// No prefix of `0..n` at `list` that `rest` starts with is longer than
/// prefix `k`.
pub open spec fn longest_fit(t: ContextTable, rest: Seq<u8>, list: int, n: int, k: int) -> bool {
    forall|j: int|
        0 <= j < n && t.prefix_fits((#[trigger] t.prefix(list, j))->0, rest) ==> t.prefix(
            list,
            j,
        )->0.len <= t.prefix(list, k)->0.len
}

/// A piece of a property name: without dots and NUL bytes.
pub open spec fn is_piece(s: Seq<u8>) -> bool {
    nul_free(s) && forall|i: int| 0 <= i < s.len() ==> s[i] != 0x2e
}

/// The pieces, each with a dot behind it, and then `rest`.
pub open spec fn dotted(pieces: Seq<Seq<u8>>, rest: Seq<u8>) -> Seq<u8>
    decreases pieces.len(),
{
    if pieces.len() == 0 {
        rest
    } else {
        pieces[0] + seq![0x2eu8] + dotted(pieces.skip(1), rest)
    }
}

/// The children of a node are in order, and the one called `piece` is `child`.
pub open spec fn has_child(t: ContextTable, node: int, piece: Seq<u8>, child: int) -> bool {
    &&& sorted_children(t, node)
    &&& exists|k: int|
        0 <= k < t.child_count(node) && #[trigger] t.child(node, k) == Some((child, piece))
}

/// No child of a node is called `piece`.
pub open spec fn lacks_child(t: ContextTable, node: int, piece: Seq<u8>) -> bool {
    &&& sorted_children(t, node)
    &&& forall|k: int|
        0 <= k < t.child_count(node) ==> ((#[trigger] t.child(node, k))->0).1 != piece
}

/// The prefixes of a node can be read and are in order.
pub open spec fn ready_prefixes(t: ContextTable, node: int) -> bool {
    t.word(node + 16) matches Some(list) && sorted_prefixes(t, list, t.word_or_zero(node + 12))
}

/// The nodes lead from the root along the pieces of a name, as far down as
/// `rest` allows: its first piece leads to no child of the last node.
pub open spec fn leads(
    t: ContextTable,
    nodes: Seq<int>,
    pieces: Seq<Seq<u8>>,
    rest: Seq<u8>,
) -> bool {
    &&& nodes.len() == pieces.len() + 1
    &&& t.root() == Some(nodes[0])
    &&& forall|i: int| 0 <= i < pieces.len() ==> is_piece(#[trigger] pieces[i])
    &&& forall|i: int|
        0 <= i < pieces.len() ==> has_child(t, nodes[i], #[trigger] pieces[i], nodes[i + 1])
    &&& forall|i: int| 0 <= i < nodes.len() ==> ready_prefixes(t, #[trigger] nodes[i])
    &&& nul_free(rest)
    &&& dot_index(rest, 0) < rest.len() ==> lacks_child(
        t,
        nodes.last(),
        rest.take(dot_index(rest, 0)),
    )
}

/// Prefix `k` of a node is the first one that `rest` starts with, and so none
/// that it starts with is longer.
pub open spec fn decides(t: ContextTable, node: int, rest: Seq<u8>, k: int) -> bool {
    let list = t.word(node + 16)->0;
    &&& 0 <= k < t.word_or_zero(node + 12)
    &&& t.prefix_fits(t.prefix(list, k)->0, rest)
    &&& forall|j: int| 0 <= j < k ==> !t.prefix_fits((#[trigger] t.prefix(list, j))->0, rest)
}

/// The context of prefix `k` of a node.
pub open spec fn prefix_context(t: ContextTable, node: int, k: int) -> int {
    t.prefix(t.word(node + 16)->0, k)->0.context
}

/// The context that a node has for what is left of a name: that of the prefix
/// that decides, where it has one, else its own.
pub open spec fn offer(t: ContextTable, node: int, rest: Seq<u8>) -> Option<int> {
    if exists|k: int| #[trigger] decides(t, node, rest, k) && prefix_context(t, node, k) != NO_CONTEXT {
        let k = choose|k: int| #[trigger]
            decides(t, node, rest, k) && prefix_context(t, node, k) != NO_CONTEXT;
        Some(prefix_context(t, node, k))
    } else {
        match t.node_context(node) {
            Some(c) => if c != NO_CONTEXT {
                Some(c)
            } else {
                None
            },
            None => None,
        }
    }
}

/// The context that node `i` of a path has for what is left of a name there.
pub open spec fn offer_at(
    t: ContextTable,
    nodes: Seq<int>,
    pieces: Seq<Seq<u8>>,
    rest: Seq<u8>,
    i: int,
) -> Option<int> {
    offer(t, nodes[i], dotted(pieces.skip(i), rest))
}

/// Exact match `j` of a node: its name and its context.
pub open spec fn exact_entry(t: ContextTable, node: int, j: int) -> Option<(Seq<u8>, int)> {
    match t.word(node + 24) {
        Some(list) => match t.word(list + 4 * j) {
            Some(entry) => match (t.name_of_entry(entry), t.word(entry + 8)) {
                (Some(name), Some(context)) => Some((name, context)),
                _ => None,
            },
            None => None,
        },
        None => None,
    }
}

/// The number of exact matches of a node.
pub open spec fn exact_count(t: ContextTable, node: int) -> int {
    t.word_or_zero(node + 20)
}

/// The exact matches `0..n` of a node can be read, and none is called `rest`.
pub open spec fn none_called(t: ContextTable, node: int, rest: Seq<u8>, n: int) -> bool {
    forall|j: int|
        0 <= j < n ==> (#[trigger] exact_entry(t, node, j)) is Some && (exact_entry(
            t,
            node,
            j,
        )->0).0 != rest
}

/// Only one prefix decides.
proof fn lemma_decides_once(t: ContextTable, node: int, rest: Seq<u8>, k: int, l: int)
    requires
        decides(t, node, rest, k),
        decides(t, node, rest, l),
    ensures
        k == l,
{
    let list = t.word(node + 16)->0;
    if k < l {
        assert(!t.prefix_fits(t.prefix(list, k)->0, rest));
    } else if l < k {
        assert(!t.prefix_fits(t.prefix(list, l)->0, rest));
    }
}

/// What the prefixes of a node make of a context.
proof fn lemma_node_prefixes(t: ContextTable, node: int, rest: Seq<u8>, context: int)
    requires
        ready_prefixes(t, node),
    ensures
        forall|k: int| #[trigger]
            decides(t, node, rest, k) ==> t.match_node_prefixes(rest, node, context) == overridden(
                context,
                prefix_context(t, node, k),
            ),
        (forall|k: int| !(#[trigger] decides(t, node, rest, k))) ==> t.match_node_prefixes(
            rest,
            node,
            context,
        ) == context,
{
    let list = t.word(node + 16)->0;
    let n = t.word_or_zero(node + 12);
    if n > 0 {
        let k = lemma_prefixes(t, rest, list, 0, n, context);
        if k < n {
            assert(decides(t, node, rest, k));
            assert forall|l: int| #[trigger] decides(t, node, rest, l) implies l == k by {
                lemma_decides_once(t, node, rest, k, l);
            }
        } else {
            assert forall|l: int| !(#[trigger] decides(t, node, rest, l)) by {
                if decides(t, node, rest, l) {
                    assert(!t.prefix_fits(t.prefix(list, l)->0, rest));
                }
            }
        }
    } else {
        assert forall|l: int| !(#[trigger] decides(t, node, rest, l)) by {}
    }
}

/// The context at a node, where `context` was found further up.
spec fn at_node(t: ContextTable, node: int, rest: Seq<u8>, context: int) -> int {
    let own = match t.node_context(node) {
        Some(c) => overridden(context, c),
        None => context,
    };
    t.match_node_prefixes(rest, node, own)
}

/// A node gives what it has, or leaves what was found further up. Its prefixes
/// say no more a second time.
proof fn lemma_at_node(t: ContextTable, node: int, rest: Seq<u8>, context: int)
    requires
        ready_prefixes(t, node),
    ensures
        at_node(t, node, rest, context) == (match offer(t, node, rest) {
            Some(c) => c,
            None => context,
        }),
        offer(t, node, rest) matches Some(c) ==> c != NO_CONTEXT,
        t.match_node_prefixes(rest, node, at_node(t, node, rest, context)) == at_node(
            t,
            node,
            rest,
            context,
        ),
{
    let own = match t.node_context(node) {
        Some(c) => overridden(context, c),
        None => context,
    };
    lemma_node_prefixes(t, node, rest, own);
    lemma_node_prefixes(t, node, rest, at_node(t, node, rest, context));
    if exists|k: int| #[trigger] decides(t, node, rest, k) {
        let k = choose|k: int| #[trigger] decides(t, node, rest, k);
        assert forall|l: int| #[trigger] decides(t, node, rest, l) implies l == k by {
            lemma_decides_once(t, node, rest, k, l);
        }
    }
}

/// The first dot behind a piece.
proof fn lemma_piece_dot(piece: Seq<u8>, tail: Seq<u8>)
    requires
        is_piece(piece),
    ensures
        ({
            let all = piece + seq![0x2eu8] + tail;
            &&& dot_index(all, 0) == piece.len()
            &&& all.take(piece.len() as int) == piece
            &&& all.skip(piece.len() as int + 1) == tail
        }),
{
    let all = piece + seq![0x2eu8] + tail;
    lemma_dot_index_is(all, 0, piece.len() as int);
    assert(all.take(piece.len() as int) =~= piece);
    assert(all.skip(piece.len() as int + 1) =~= tail);
}

/// Where a descent along a path ends, and with which context.
proof fn lemma_descent(
    t: ContextTable,
    nodes: Seq<int>,
    pieces: Seq<Seq<u8>>,
    rest: Seq<u8>,
    i: int,
    context: int,
) -> (last: Option<int>)
    requires
        leads(t, nodes, pieces, rest),
        0 <= i < nodes.len(),
    ensures
        ({
            let p = t.descend(
                Position { rest: dotted(pieces.skip(i), rest), node: nodes[i], context },
            );
            &&& p.rest == rest
            &&& p.node == nodes.last()
            &&& match last {
                Some(k) => {
                    &&& i <= k < nodes.len()
                    &&& offer_at(t, nodes, pieces, rest, k) == Some(p.context)
                    &&& p.context != NO_CONTEXT
                    &&& forall|j: int|
                        k < j < nodes.len() ==> #[trigger] offer_at(t, nodes, pieces, rest, j) is None
                },
                None => {
                    &&& p.context == context
                    &&& forall|j: int|
                        i <= j < nodes.len() ==> #[trigger] offer_at(t, nodes, pieces, rest, j) is None
                },
            }
            &&& t.match_node_prefixes(rest, p.node, p.context) == p.context
        }),
    decreases nodes.len() - i,
{
    let left = dotted(pieces.skip(i), rest);
    let node = nodes[i];
    let here = at_node(t, node, left, context);
    assert(ready_prefixes(t, nodes[i]));
    lemma_at_node(t, node, left, context);
    assert(offer_at(t, nodes, pieces, rest, i) == offer(t, node, left));
    lemma_dot_index(left, 0);
    if i == pieces.len() {
        assert(left == rest);
        assert(nodes.last() == node);
        let dot = dot_index(rest, 0);
        if dot < rest.len() {
            assert(nul_free(rest.take(dot)));
            law_find_child(t, node, rest.take(dot));
        }
        if offer(t, node, left) is Some {
            Some(i)
        } else {
            None
        }
    } else {
        let piece = pieces[i];
        let tail = dotted(pieces.skip(i + 1), rest);
        assert(pieces.skip(i)[0] == piece);
        assert(pieces.skip(i).skip(1) =~= pieces.skip(i + 1));
        assert(left == piece + seq![0x2eu8] + tail);
        assert(is_piece(piece));
        lemma_piece_dot(piece, tail);
        assert(has_child(t, nodes[i], pieces[i], nodes[i + 1]));
        law_find_child(t, node, piece);
        assert(t.find_child(node, piece) == Some(nodes[i + 1]));
        let last = lemma_descent(t, nodes, pieces, rest, i + 1, here);
        if last is None && offer(t, node, left) is Some {
            Some(i)
        } else {
            last
        }
    }
}

/// Looking for an exact match.
proof fn lemma_exact(t: ContextTable, node: int, rest: Seq<u8>, j: int, i: int)
    requires
        t.word(node + 24) is Some,
        0 <= i <= j <= exact_count(t, node),
        none_called(t, node, rest, j),
        j < exact_count(t, node) ==> (exact_entry(t, node, j) matches Some(e) && e.0 == rest),
    ensures
        t.match_exact(rest, t.word(node + 24)->0, i, exact_count(t, node)) == if j < exact_count(
            t,
            node,
        ) {
            ExactMatch::Hit((exact_entry(t, node, j)->0).1)
        } else {
            ExactMatch::Miss
        },
    decreases j - i,
{
    if i < j {
        assert(exact_entry(t, node, i) is Some);
        lemma_exact(t, node, rest, j, i + 1);
    }
}

/// How the context of a property comes about. The lookup goes down from the root
/// along the pieces of the name as long as there is a child for the next piece,
/// whatever else the nodes on the way hold.
///
/// The first exact match of the last node that is called as what is left of the
/// name then decides, where it has a context. Else the deepest node on the way
/// decides that has a context for what is left of the name there: that of its
/// longest prefix, or its own. Without one, the property has none.
pub proof fn law_context_of_name(
    t: ContextTable,
    nodes: Seq<int>,
    pieces: Seq<Seq<u8>>,
    rest: Seq<u8>,
    j: int,
)
    requires
        leads(t, nodes, pieces, rest),
        0 <= j <= exact_count(t, nodes.last()),
        exact_count(t, nodes.last()) > 0 ==> t.word(nodes.last() + 24) is Some,
        none_called(t, nodes.last(), rest, j),
        j < exact_count(t, nodes.last()) ==> (exact_entry(t, nodes.last(), j) matches Some(e)
            && e.0 == rest),
    ensures
        ({
            let found = t.context_index(dotted(pieces, rest));
            let exact = if j < exact_count(t, nodes.last()) {
                (exact_entry(t, nodes.last(), j)->0).1
            } else {
                NO_CONTEXT as int
            };
            if exact != NO_CONTEXT {
                found == Some(exact)
            } else {
                &&& forall|k: int|
                    0 <= k < nodes.len() && (#[trigger] offer_at(t, nodes, pieces, rest, k)) is Some
                        && (forall|l: int|
                        k < l < nodes.len() ==> (#[trigger] offer_at(t, nodes, pieces, rest, l)) is None)
                        ==> found == offer_at(t, nodes, pieces, rest, k)
                &&& (forall|k: int|
                    0 <= k < nodes.len() ==> (#[trigger] offer_at(t, nodes, pieces, rest, k)) is None)
                    ==> found is None
            }
        }),
{
    let last = lemma_descent(t, nodes, pieces, rest, 0, NO_CONTEXT as int);
    assert(pieces.skip(0) =~= pieces);
    let name = dotted(pieces, rest);
    let start = Position { rest: name, node: nodes[0], context: NO_CONTEXT as int };
    let p = t.descend(start);
    if exact_count(t, nodes.last()) > 0 {
        lemma_exact(t, nodes.last(), rest, j, 0);
    }
    assert(t.context_index(name) == t.settle(p));
    if let Some(k) = last {
        assert forall|l: int|
            0 <= l < nodes.len() && (#[trigger] offer_at(t, nodes, pieces, rest, l)) is Some && (
            forall|m: int|
                l < m < nodes.len() ==> (#[trigger] offer_at(t, nodes, pieces, rest, m)) is None)
            implies l == k by {
            if l < k {
                assert(offer_at(t, nodes, pieces, rest, k) is None);
            } else if k < l {
                assert(offer_at(t, nodes, pieces, rest, l) is None);
            }
        }
    }
}

/// Exact match `j` of a node cannot be read as far as looking for `rest` needs it:
/// its place, its name or, where the name is `rest`, its context.
pub open spec fn broken_at(t: ContextTable, node: int, rest: Seq<u8>, j: int) -> bool {
    match t.word(node + 24) {
        None => true,
        Some(list) => match t.word(list + 4 * j) {
            None => true,
            Some(entry) => match t.name_of_entry(entry) {
                None => true,
                Some(name) => name == rest && t.word(entry + 8) is None,
            },
        },
    }
}

proof fn lemma_broken(t: ContextTable, node: int, rest: Seq<u8>, j: int, i: int)
    requires
        t.word(node + 24) is Some,
        0 <= i <= j < exact_count(t, node),
        none_called(t, node, rest, j),
        broken_at(t, node, rest, j),
    ensures
        t.match_exact(rest, t.word(node + 24)->0, i, exact_count(t, node)) is Broken,
    decreases j - i,
{
    if i < j {
        assert(exact_entry(t, node, i) is Some);
        lemma_broken(t, node, rest, j, i + 1);
    }
}

/// A property has no context where an exact match cannot be read before one is
/// found, whatever was found on the way.
pub proof fn law_broken_context(
    t: ContextTable,
    nodes: Seq<int>,
    pieces: Seq<Seq<u8>>,
    rest: Seq<u8>,
    j: int,
)
    requires
        leads(t, nodes, pieces, rest),
        0 <= j < exact_count(t, nodes.last()),
        none_called(t, nodes.last(), rest, j),
        broken_at(t, nodes.last(), rest, j),
    ensures
        t.context_index(dotted(pieces, rest)) is None,
{
    let last = lemma_descent(t, nodes, pieces, rest, 0, NO_CONTEXT as int);
    assert(pieces.skip(0) =~= pieces);
    if t.word(nodes.last() + 24) is Some {
        lemma_broken(t, nodes.last(), rest, j, 0);
    }
}

/// A table is loaded exactly where it has a header and does not ask for a newer
/// reader. A table that is not names the version it asks for.
pub proof fn law_table_loads(t: ContextTable)
    ensures
        t.fault() is None <==> t.data.len() >= 24 && t.word(4)->0 <= 2,
        t.fault() matches Some(TableError::UnsupportedVersion(v)) ==> t.word(4) == Some(v as int),
        t.fault() == Some(TableError::TooSmall) <==> t.data.len() < 24,
{
    if t.data.len() >= 24 {
        if t.big_endian {
            lemma_be_bounds(t.data, 4);
        } else {
            lemma_word_bounds(t.data, 4);
        }
    }
}

proof fn lemma_be_bounds(d: Seq<u8>, i: int)
    ensures
        0 <= u32_be_at(d, i) <= u32::MAX,
{
}

/// A string of a table is read up to its NUL byte, or to the end of the table.
pub proof fn law_table_text(t: ContextTable, at: int, b: Seq<u8>)
    requires
        0 <= at,
        at + b.len() <= t.data.len(),
        t.data.subrange(at, at + b.len()) == b,
        nul_free(b),
        valid_utf8(b),
        at + b.len() < t.data.len() ==> t.data[at + b.len()] == 0,
    ensures
        t.text(at) == Some(b),
{
    let n = t.data.len() as int;
    let end = at + b.len();
    assert forall|i: int| at <= i < end implies t.data[i] != 0 by {
        assert(t.data.subrange(at, end)[i - at] == t.data[i]);
        assert(b[i - at] != 0);
    }
    lemma_nul_index(t.data, at, n);
    assert(nul_index(t.data, at, n) == end);
}

/// The contexts and the types of a table are counted and listed where the header
/// says: a count, and then the places of as many strings.
pub proof fn law_table_lists(t: ContextTable, slot: int, list: int, i: int, at: int)
    requires
        slot == 12 || slot == 16,
        t.word(slot) == Some(list),
        list < t.data.len(),
        t.word(list + 4 * (i + 1)) == Some(at),
    ensures
        slot == 12 ==> t.context_text(i) == t.text(at),
        slot == 16 ==> t.type_text(i) == t.text(at),
        slot == 12 ==> t.context_count() == t.word_or_zero(list),
        slot == 16 ==> t.type_count() == t.word_or_zero(list),
{
}

/// A prefix of a table is for what starts with its bytes, and for nothing else.
pub proof fn law_prefix_fits(t: ContextTable, e: EntryView, tail: Seq<u8>, rest: Seq<u8>)
    requires
        0 <= e.name,
        0 <= e.len,
        e.name + e.len <= t.data.len(),
    ensures
        t.prefix_fits(e, t.data.subrange(e.name, e.name + e.len) + tail),
        t.prefix_fits(e, rest) ==> rest == t.data.subrange(e.name, e.name + e.len) + rest.skip(e.len),
{
    let b = t.data.subrange(e.name, e.name + e.len);
    assert((b + tail).take(e.len) =~= b);
    if t.prefix_fits(e, rest) {
        assert(rest =~= rest.take(e.len) + rest.skip(e.len));
    }
}

} // verus!
