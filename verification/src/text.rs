//! Taking text apart: white space, words, lines and separators.
use vstd::prelude::*;
use vstd::slice::slice_subrange;
use crate::bytes::{bytes_equal, is_prefix, lemma_bytes_round_trip, starts_with, text_bytes};

verus! {

/// The characters that Unicode counts as white space.
pub open spec fn is_white(c: char) -> bool {
    let n = c as int;
    ||| 0x9 <= n <= 0xd
    ||| n == 0x20
    ||| n == 0x85
    ||| n == 0xa0
    ||| n == 0x1680
    ||| 0x2000 <= n <= 0x200a
    ||| n == 0x2028
    ||| n == 0x2029
    ||| n == 0x202f
    ||| n == 0x205f
    ||| n == 0x3000
}

/// The first position of `c` in `s` from `i` on, or the length of `s`.
pub open spec fn index_of(s: Seq<char>, c: char, i: int) -> int
    decreases s.len() - i,
{
    if i >= s.len() {
        s.len() as int
    } else if s[i] == c {
        i
    } else {
        index_of(s, c, i + 1)
    }
}

/// The first position from `i` on whose character is white space (`white`)
/// or is not, or the length of `s`.
pub open spec fn run_end(s: Seq<char>, white: bool, i: int) -> int
    decreases s.len() - i,
{
    if i >= s.len() {
        s.len() as int
    } else if is_white(s[i]) == white {
        i
    } else {
        run_end(s, white, i + 1)
    }
}

/// The least `m <= n` such that only white space stands in `m..n`.
pub open spec fn solid_end(s: Seq<char>, n: int) -> int
    decreases n,
{
    if n > 0 && is_white(s[n - 1]) {
        solid_end(s, n - 1)
    } else {
        n
    }
}

/// `s` without the white space around it.
pub open spec fn trimmed(s: Seq<char>) -> Seq<char> {
    let t = s.take(solid_end(s, s.len() as int));
    t.skip(run_end(t, false, 0))
}

/// The words of `s`: what stands between white space.
pub open spec fn words(s: Seq<char>) -> Seq<Seq<char>>
    decreases s.len(),
{
    let from = run_end(s, false, 0);
    if from >= s.len() {
        seq![]
    } else {
        proof {
            lemma_run_end(s, false, 0);
            lemma_run_end(s, true, from);
        }
        let to = run_end(s, true, from);
        seq![s.subrange(from, to)] + words(s.skip(to))
    }
}

/// What stands before and after the first `c` in `s`.
pub open spec fn split_first(s: Seq<char>, c: char) -> Option<(Seq<char>, Seq<char>)> {
    let n = index_of(s, c, 0);
    if n < s.len() {
        Some((s.take(n), s.skip(n + 1)))
    } else {
        None
    }
}

/// Whether `s` starts with `prefix`.
pub open spec fn text_starts(s: Seq<char>, prefix: Seq<char>) -> bool {
    is_prefix(text_bytes(prefix), text_bytes(s))
}

pub proof fn lemma_index_of(s: Seq<char>, c: char, i: int)
    requires
        0 <= i <= s.len(),
    ensures
        i <= index_of(s, c, i) <= s.len(),
        index_of(s, c, i) < s.len() ==> s[index_of(s, c, i)] == c,
        forall|j: int| i <= j < index_of(s, c, i) ==> s[j] != c,
    decreases s.len() - i,
{
    if i < s.len() && s[i] != c {
        lemma_index_of(s, c, i + 1);
    }
}

pub proof fn lemma_run_end(s: Seq<char>, white: bool, i: int)
    requires
        0 <= i <= s.len(),
    ensures
        i <= run_end(s, white, i) <= s.len(),
        i < s.len() && is_white(s[i]) != white ==> i < run_end(s, white, i),
        run_end(s, white, i) < s.len() ==> is_white(s[run_end(s, white, i)]) == white,
    decreases s.len() - i,
{
    if i < s.len() && is_white(s[i]) != white {
        lemma_run_end(s, white, i + 1);
    }
}

pub proof fn lemma_solid_end(s: Seq<char>, n: int)
    requires
        0 <= n <= s.len(),
    ensures
        0 <= solid_end(s, n) <= n,
    decreases n,
{
    if n > 0 && is_white(s[n - 1]) {
        lemma_solid_end(s, n - 1);
    }
}

/// Whether `c` is white space.
pub fn white(c: char) -> (r: bool)
    ensures
        r == is_white(c),
{
    let n = c as u32;
    (0x9 <= n && n <= 0xd) || n == 0x20 || n == 0x85 || n == 0xa0 || n == 0x1680 || (0x2000 <= n
        && n <= 0x200a) || n == 0x2028 || n == 0x2029 || n == 0x202f || n == 0x205f || n == 0x3000
}

/// The characters of a text.
pub fn chars_of(s: &str) -> (r: Vec<char>)
    ensures
        r@ == s@,
{
    let mut out: Vec<char> = Vec::new();
    for c in it: s.chars()
        invariant
            out@ == s@.take(it.index() as int),
            it.seq() == s@,
    {
        out.push(c);
        proof {
            assert(out@ =~= s@.take(it.index() + 1));
        }
    }
    proof {
        assert(s@.take(s@.len() as int) =~= s@);
    }
    out
}

/// `String::from_iter`: the text made of the given characters.
#[verifier::external_body]
pub(crate) fn text_of(chars: &[char]) -> (r: String)
    ensures
        r@ == chars@,
{
    String::from_iter(chars)
}

/// The first position of `c` in `s`, or the length of `s`.
pub fn find_char(s: &[char], c: char) -> (r: usize)
    ensures
        r == index_of(s@, c, 0),
        r <= s@.len(),
{
    let mut i: usize = 0;
    while i < s.len()
        invariant
            i <= s@.len(),
            index_of(s@, c, 0) == index_of(s@, c, i as int),
        decreases s@.len() - i,
    {
        if s[i] == c {
            return i;
        }
        i = i + 1;
    }
    i
}

/// The first position from `i` on whose character is white space (`wanted`)
/// or is not, or the length of `s`.
fn find_run_end(s: &[char], wanted: bool, i: usize) -> (r: usize)
    requires
        i <= s@.len(),
    ensures
        r == run_end(s@, wanted, i as int),
        i <= r <= s@.len(),
{
    let mut k: usize = i;
    while k < s.len()
        invariant
            i <= k <= s@.len(),
            run_end(s@, wanted, i as int) == run_end(s@, wanted, k as int),
        decreases s@.len() - k,
    {
        if white(s[k]) == wanted {
            return k;
        }
        k = k + 1;
    }
    k
}

/// `s` without the white space around it.
pub fn trim(s: &[char]) -> (r: &[char])
    ensures
        r@ == trimmed(s@),
{
    let mut n: usize = s.len();
    while n > 0 && white(s[n - 1])
        invariant
            n <= s@.len(),
            solid_end(s@, s@.len() as int) == solid_end(s@, n as int),
        decreases n,
    {
        n = n - 1;
    }
    let t = slice_subrange(s, 0, n);
    let from = find_run_end(t, false, 0);
    let r = slice_subrange(t, from, n);
    proof {
        assert(t@ =~= s@.take(n as int));
        assert(r@ =~= t@.skip(from as int));
    }
    r
}

/// The first word of `s` and what follows it.
pub fn next_word(s: &[char]) -> (r: Option<(&[char], &[char])>)
    ensures
        match r {
            Some((word, rest)) => words(s@) == seq![word@] + words(rest@),
            None => words(s@).len() == 0,
        },
{
    let from = find_run_end(s, false, 0);
    if from >= s.len() {
        return None;
    }
    let to = find_run_end(s, true, from);
    let rest = slice_subrange(s, to, s.len());
    proof {
        assert(rest@ =~= s@.skip(to as int));
    }
    Some((slice_subrange(s, from, to), rest))
}

/// What stands before and after the first `c` in `s`.
pub fn split_at_first(s: &[char], c: char) -> (r: Option<(&[char], &[char])>)
    ensures
        match r {
            Some((before, after)) => split_first(s@, c) == Some((before@, after@)),
            None => split_first(s@, c) is None,
        },
{
    let n = find_char(s, c);
    if n >= s.len() {
        return None;
    }
    let before = slice_subrange(s, 0, n);
    let after = slice_subrange(s, n + 1, s.len());
    proof {
        assert(before@ =~= s@.take(n as int));
        assert(after@ =~= s@.skip(n + 1));
    }
    Some((before, after))
}

/// Whether `s` starts with `prefix`.
pub fn has_prefix(s: &str, prefix: &str) -> (r: bool)
    ensures
        r == text_starts(s@, prefix@),
{
    starts_with(s.as_bytes(), prefix.as_bytes())
}

/// Whether two texts are the same.
pub fn same_text(a: &str, b: &str) -> (r: bool)
    ensures
        r == (a@ == b@),
{
    proof {
        lemma_bytes_round_trip(a@);
        lemma_bytes_round_trip(b@);
    }
    bytes_equal(a.as_bytes(), b.as_bytes())
}

/// The digit `d`.
pub open spec fn digit(d: int) -> char {
    (0x30 + d) as char
}

/// `n` in decimal.
pub open spec fn decimal(n: nat) -> Seq<char>
    decreases n,
{
    if n < 10 {
        seq![digit(n as int)]
    } else {
        decimal(n / 10).push(digit((n % 10) as int))
    }
}

fn push_decimal(n: u128, out: &mut Vec<char>)
    ensures
        final(out)@ == old(out)@ + decimal(n as nat),
    decreases n,
{
    if n >= 10 {
        push_decimal(n / 10, out);
    }
    let d = (n % 10) as u8;
    out.push((0x30 + d) as char);
    proof {
        assert(out@ =~= old(out)@ + decimal(n as nat));
    }
}

/// `n` in decimal.
pub fn decimal_text(n: u128) -> (r: String)
    ensures
        r@ == decimal(n as nat),
{
    let mut out: Vec<char> = Vec::new();
    push_decimal(n, &mut out);
    proof {
        assert(Seq::<char>::empty() + decimal(n as nat) =~= decimal(n as nat));
    }
    text_of(out.as_slice())
}

/// Only white space.
pub open spec fn all_white(s: Seq<char>) -> bool {
    forall|i: int| 0 <= i < s.len() ==> is_white(#[trigger] s[i])
}

/// No white space.
pub open spec fn no_white(s: Seq<char>) -> bool {
    forall|i: int| 0 <= i < s.len() ==> !is_white(#[trigger] s[i])
}

/// No white space at either end.
pub open spec fn is_solid(s: Seq<char>) -> bool {
    s.len() > 0 ==> !is_white(s[0]) && !is_white(s[s.len() - 1])
}

proof fn lemma_solid_end_is(s: Seq<char>, m: int, n: int)
    requires
        0 <= m <= n <= s.len(),
        forall|i: int| m <= i < n ==> is_white(#[trigger] s[i]),
        m > 0 ==> !is_white(s[m - 1]),
    ensures
        solid_end(s, n) == m,
    decreases n,
{
    if n > m {
        lemma_solid_end_is(s, m, n - 1);
    }
}

proof fn lemma_run_end_is(s: Seq<char>, white: bool, i: int, n: int)
    requires
        0 <= i <= n <= s.len(),
        forall|j: int| i <= j < n ==> is_white(#[trigger] s[j]) != white,
        n < s.len() ==> is_white(s[n]) == white,
    ensures
        run_end(s, white, i) == n,
    decreases n - i,
{
    if i < n {
        lemma_run_end_is(s, white, i + 1, n);
    }
}

/// Trimming takes away the white space on both sides and nothing else.
pub proof fn law_trimmed(a: Seq<char>, t: Seq<char>, b: Seq<char>)
    requires
        all_white(a),
        all_white(b),
        is_solid(t),
    ensures
        trimmed(a + t + b) == t,
{
    let s = a + t + b;
    let n = s.len() as int;
    if t.len() == 0 {
        assert forall|i: int| 0 <= i < n implies is_white(#[trigger] s[i]) by {
            if i < a.len() {
                assert(s[i] == a[i]);
            } else {
                assert(s[i] == b[i - a.len()]);
            }
        }
        lemma_solid_end_is(s, 0, n);
        assert(trimmed(s) =~= t);
    } else {
        let m = (a.len() + t.len()) as int;
        assert forall|i: int| m <= i < n implies is_white(#[trigger] s[i]) by {
            assert(s[i] == b[i - m]);
        }
        assert(s[m - 1] == t[t.len() - 1]);
        lemma_solid_end_is(s, m, n);
        let u = s.take(m);
        assert forall|i: int| 0 <= i < a.len() implies is_white(#[trigger] u[i]) by {
            assert(u[i] == a[i]);
        }
        assert(u[a.len() as int] == t[0]);
        lemma_run_end_is(u, false, 0, a.len() as int);
        assert(trimmed(s) =~= t);
    }
}

/// A text is split at the first separator, and only where there is one.
pub proof fn law_split_first(a: Seq<char>, c: char, b: Seq<char>)
    requires
        !a.contains(c),
    ensures
        split_first(a + seq![c] + b, c) == Some((a, b)),
        split_first(a, c) is None,
{
    let s = a + seq![c] + b;
    lemma_index_of(s, c, 0);
    lemma_index_of(a, c, 0);
    let n = index_of(s, c, 0);
    assert(s[a.len() as int] == c);
    if n < a.len() {
        assert(s[n] == a[n]);
        assert(a.contains(a[n]));
    }
    assert(s.take(n) =~= a);
    assert(s.skip(n + 1) =~= b);
    let k = index_of(a, c, 0);
    if k < a.len() {
        assert(a.contains(a[k]));
    }
}

/// The words of a text: the first one ends where white space or the end follows,
/// and white space alone holds none.
pub proof fn law_words(a: Seq<char>, w: Seq<char>, rest: Seq<char>)
    requires
        all_white(a),
        no_white(w),
        w.len() > 0,
        rest.len() > 0 ==> is_white(rest[0]),
    ensures
        words(a + w + rest) == seq![w] + words(rest),
        words(a).len() == 0,
{
    let s = a + w + rest;
    let from = a.len() as int;
    let to = from + w.len();
    assert forall|j: int| 0 <= j < from implies is_white(#[trigger] s[j]) by {
        assert(s[j] == a[j]);
    }
    assert(s[from] == w[0]);
    lemma_run_end_is(s, false, 0, from);
    assert forall|j: int| from <= j < to implies !is_white(#[trigger] s[j]) by {
        assert(s[j] == w[j - from]);
    }
    if to < s.len() {
        assert(s[to] == rest[0]);
    }
    lemma_run_end_is(s, true, from, to);
    assert(s.subrange(from, to) =~= w);
    assert(s.skip(to) =~= rest);
    lemma_run_end_is(a, false, 0, from);
}

/// The number that digits stand for.
pub open spec fn number_of(s: Seq<char>) -> int
    decreases s.len(),
{
    if s.len() == 0 {
        0
    } else {
        10 * number_of(s.drop_last()) + (s.last() as int - '0' as int)
    }
}

/// A number in decimal is made of digits that stand for it, without zeros in
/// front.
pub proof fn law_decimal(n: nat)
    ensures
        number_of(decimal(n)) == n,
        decimal(n).len() > 0,
        forall|i: int| 0 <= i < decimal(n).len() ==> '0' <= #[trigger] decimal(n)[i] <= '9',
        n > 0 ==> decimal(n)[0] != '0',
        n == 0 ==> decimal(n) == seq!['0'],
    decreases n,
{
    let s = decimal(n);
    if n < 10 {
        assert(s.drop_last() =~= Seq::<char>::empty());
        assert(number_of(s.drop_last()) == 0);
    } else {
        law_decimal(n / 10);
        let t = decimal(n / 10);
        assert(s.drop_last() =~= t);
        assert forall|i: int| 0 <= i < s.len() implies '0' <= #[trigger] s[i] <= '9' by {
            if i < t.len() {
                assert(s[i] == t[i]);
            }
        }
        assert(s[0] == t[0]);
    }
}

/// The ASCII characters that count as white space.
pub proof fn law_ascii_white(c: char)
    requires
        c as int <= 0x7f,
    ensures
        is_white(c) <==> c == ' ' || c == '\t' || c == '\n' || c as int == 0xb || c as int == 0xc || c
            == '\r',
{
}

} // verus!
