//! Keys and the paths that they stand for.
use crate::area_layout::{join, plain_text, segment_ok};
use crate::area_state::{dot_index, key_ok, lemma_dot_index, lemma_dot_index_is, segments};
use vstd::prelude::*;
use vstd::utf8::{
    is_char_boundary, is_char_boundary_iff_is_leading_byte, is_leading_byte_width_1,
    valid_utf8, valid_utf8_split,
};

verus! {

/// Every name on the path can stand in a path.
pub open spec fn path_ok(q: Seq<Seq<u8>>) -> bool {
    forall|i: int| 0 <= i < q.len() ==> segment_ok(#[trigger] q[i])
}

/// Text split at a dot is text.
proof fn lemma_split_text(b: Seq<u8>, n: int)
    requires
        plain_text(b),
        0 <= n < b.len(),
        b[n] == 0x2e,
    ensures
        plain_text(b.take(n)),
        plain_text(b.skip(n + 1)),
{
    reveal(plain_text);
    assert(is_char_boundary(b, n)) by {
        is_char_boundary_iff_is_leading_byte(b, n);
        assert(is_leading_byte_width_1(b[n]));
    }
    valid_utf8_split(b, n);
    assert(b.take(n) =~= b.subrange(0, n));
    let tail = b.subrange(n, b.len() as int);
    assert(valid_utf8(tail));
    assert(tail[0] == 0x2e);
    reveal_with_fuel(valid_utf8, 2);
    assert(tail.subrange(1, tail.len() as int) =~= b.skip(n + 1));
}

/// Joining a name to the front of a path.
pub proof fn lemma_join_front(a: Seq<u8>, rest: Seq<Seq<u8>>)
    requires
        rest.len() > 0,
    ensures
        join(seq![a] + rest) == a + seq![0x2eu8] + join(rest),
    decreases rest.len(),
{
    let q = seq![a] + rest;
    assert(q.last() == rest.last());
    if rest.len() == 1 {
        assert(q.drop_last() =~= seq![a]);
        assert(join(q.drop_last()) == a);
    } else {
        assert(q.drop_last() =~= seq![a] + rest.drop_last());
        lemma_join_front(a, rest.drop_last());
        assert(join(q) =~= a + seq![0x2eu8] + join(rest));
    }
}

/// The names of a key, joined, are the key.
pub proof fn lemma_segments_join(key: Seq<u8>)
    ensures
        segments(key).len() > 0,
        join(segments(key)) == key,
    decreases key.len(),
{
    let n = dot_index(key, 0);
    lemma_dot_index(key, 0);
    if n < key.len() {
        let tail = key.skip(n + 1);
        lemma_segments_join(tail);
        lemma_join_front(key.take(n), segments(tail));
        assert(key.take(n) + seq![0x2eu8] + tail =~= key);
    }
}

/// The names of a text key can stand in a path.
pub proof fn lemma_segments_ok(key: Seq<u8>)
    requires
        key_ok(key),
        plain_text(key),
    ensures
        path_ok(segments(key)),
    decreases key.len(),
{
    let n = dot_index(key, 0);
    lemma_dot_index(key, 0);
    if n < key.len() {
        let tail = key.skip(n + 1);
        let rest = segments(tail);
        lemma_split_text(key, n);
        assert forall|i: int| 0 <= i < rest.len() implies (#[trigger] rest[i]).len() > 0 by {
            assert(segments(key)[i + 1] == rest[i]);
        }
        assert(segments(key)[0] == key.take(n));
        lemma_segments_ok(tail);
        assert forall|i: int| 0 <= i < segments(key).len() implies segment_ok(
            #[trigger] segments(key)[i],
        ) by {
            if i > 0 {
                assert(segments(key)[i] == rest[i - 1]);
            }
        }
    } else {
        assert(segments(key)[0] == key);
    }
}

/// The names of the key of a path are the path.
pub proof fn lemma_join_segments(q: Seq<Seq<u8>>)
    requires
        q.len() > 0,
        forall|i: int, j: int|
            0 <= i < q.len() && 0 <= j < q[i].len() ==> #[trigger] q[i][j] != 0x2e,
    ensures
        segments(join(q)) == q,
    decreases q.len(),
{
    let a = q[0];
    if q.len() == 1 {
        lemma_dot_index_is(a, 0, a.len() as int);
        assert(q =~= seq![a]);
    } else {
        let rest = q.skip(1);
        assert(q =~= seq![a] + rest);
        lemma_join_front(a, rest);
        let key = join(q);
        assert(key =~= a + seq![0x2eu8] + join(rest));
        lemma_dot_index_is(key, 0, a.len() as int);
        assert(key.take(a.len() as int) =~= a);
        assert(key.skip(a.len() as int + 1) =~= join(rest));
        assert forall|i: int, j: int|
            0 <= i < rest.len() && 0 <= j < rest[i].len() implies #[trigger] rest[i][j] != 0x2e by {
            assert(rest[i] == q[i + 1]);
            assert(q[i + 1][j] != 0x2e);
        }
        lemma_join_segments(rest);
    }
}

/// Distinct keys have distinct paths.
pub proof fn lemma_segments_distinct(a: Seq<u8>, b: Seq<u8>)
    ensures
        segments(a) == segments(b) ==> a == b,
{
    lemma_segments_join(a);
    lemma_segments_join(b);
}

} // verus!
