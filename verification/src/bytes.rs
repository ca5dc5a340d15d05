//! Byte-level building blocks: little-endian words, byte-wise orders, NUL
//! search, and the step between bytes and text.
use vstd::prelude::*;
use vstd::utf8::{
    decode_utf8, decode_utf8_encode_utf8, encode_utf8, encode_utf8_decode_utf8, valid_utf8,
};

verus! {

/// The little-endian word stored at `i`.
pub open spec fn u32_at(d: Seq<u8>, i: int) -> int {
    d[i] + 0x100 * d[i + 1] + 0x1_0000 * d[i + 2] + 0x100_0000 * d[i + 3]
}

/// The four little-endian bytes of `v`.
pub open spec fn le_bytes(v: int) -> Seq<u8> {
    seq![
        (v % 0x100) as u8,
        (v / 0x100 % 0x100) as u8,
        (v / 0x1_0000 % 0x100) as u8,
        (v / 0x100_0000 % 0x100) as u8,
    ]
}

/// `d` with the bytes from `at` on replaced by `b`.
pub open spec fn put(d: Seq<u8>, at: int, b: Seq<u8>) -> Seq<u8> {
    Seq::new(
        d.len(),
        |i: int|
            if at <= i < at + b.len() {
                b[i - at]
            } else {
                d[i]
            },
    )
}

/// `d` with the word at `at` replaced by `v`.
pub open spec fn put_u32(d: Seq<u8>, at: int, v: int) -> Seq<u8> {
    put(d, at, le_bytes(v))
}

/// `d` with `n` bytes from `at` on replaced by zero.
pub open spec fn zero(d: Seq<u8>, at: int, n: int) -> Seq<u8> {
    Seq::new(
        d.len(),
        |i: int|
            if at <= i < at + n {
                0u8
            } else {
                d[i]
            },
    )
}

/// The first position of a NUL byte in `lo..hi`, or `hi` if there is none.
pub open spec fn nul_index(d: Seq<u8>, lo: int, hi: int) -> int
    decreases hi - lo,
{
    if lo >= hi {
        hi
    } else if d[lo] == 0 {
        lo
    } else {
        nul_index(d, lo + 1, hi)
    }
}

/// Byte-wise lexicographic order.
pub open spec fn lex_less(a: Seq<u8>, b: Seq<u8>) -> bool
    decreases a.len(),
{
    if a.len() == 0 {
        b.len() > 0
    } else if b.len() == 0 {
        false
    } else {
        a[0] < b[0] || (a[0] == b[0] && lex_less(a.skip(1), b.skip(1)))
    }
}

/// The outcome of comparing two keys.
#[derive(Debug, Clone, Copy, PartialEq, Eq, Structural)]
pub enum KeyOrder {
    Less,
    Equal,
    Greater,
}

/// The outcome of comparing `a` with `b` byte by byte.
pub open spec fn lex_order(a: Seq<u8>, b: Seq<u8>) -> KeyOrder {
    if lex_less(a, b) {
        KeyOrder::Less
    } else if a == b {
        KeyOrder::Equal
    } else {
        KeyOrder::Greater
    }
}

pub proof fn lemma_word_bounds(d: Seq<u8>, i: int)
    ensures
        0 <= u32_at(d, i) <= u32::MAX,
{
}

pub proof fn lemma_le_bytes(v: int)
    requires
        0 <= v <= u32::MAX,
    ensures
        le_bytes(v).len() == 4,
        u32_at(le_bytes(v), 0) == v,
{
    let a = v % 0x100;
    let b = v / 0x100 % 0x100;
    let c = v / 0x1_0000 % 0x100;
    let e = v / 0x100_0000 % 0x100;
    assert(v == a + 0x100 * b + 0x1_0000 * c + 0x100_0000 * e);
}

/// A word stands for its four bytes.
pub proof fn lemma_le_bytes_of(d: Seq<u8>, i: int)
    requires
        0 <= i,
        i + 4 <= d.len(),
    ensures
        le_bytes(u32_at(d, i)) == d.subrange(i, i + 4),
{
    let v = u32_at(d, i);
    let (a, b, c, e) = (d[i] as int, d[i + 1] as int, d[i + 2] as int, d[i + 3] as int);
    assert(v % 0x100 == a);
    assert(v / 0x100 == b + 0x100 * c + 0x1_0000 * e);
    assert(v / 0x1_0000 == c + 0x100 * e);
    assert(v / 0x100_0000 == e);
    assert(le_bytes(v) =~= d.subrange(i, i + 4));
}

/// Reading back a stored word.
pub proof fn lemma_put_u32(d: Seq<u8>, at: int, v: int)
    requires
        0 <= v <= u32::MAX,
        0 <= at,
        at + 4 <= d.len(),
    ensures
        u32_at(put_u32(d, at, v), at) == v,
        forall|j: int|
            0 <= j && j + 4 <= d.len() && (j + 4 <= at || at + 4 <= j) ==> u32_at(
                put_u32(d, at, v),
                j,
            ) == #[trigger] u32_at(d, j),
{
    lemma_le_bytes(v);
    let r = put_u32(d, at, v);
    assert(r[at] == le_bytes(v)[0]);
    assert(r[at + 1] == le_bytes(v)[1]);
    assert(r[at + 2] == le_bytes(v)[2]);
    assert(r[at + 3] == le_bytes(v)[3]);
}

pub proof fn lemma_nul_index(d: Seq<u8>, lo: int, hi: int)
    requires
        lo <= hi,
    ensures
        lo <= nul_index(d, lo, hi) <= hi,
        forall|i: int| lo <= i < nul_index(d, lo, hi) ==> d[i] != 0,
        nul_index(d, lo, hi) < hi ==> d[nul_index(d, lo, hi)] == 0,
    decreases hi - lo,
{
    if lo < hi && d[lo] != 0 {
        lemma_nul_index(d, lo + 1, hi);
    }
}

/// `n` is where the first NUL byte of `lo..hi` stands.
pub proof fn lemma_nul_index_is(d: Seq<u8>, lo: int, hi: int, n: int)
    requires
        lo <= n < hi,
        d[n] == 0,
        forall|i: int| lo <= i < n ==> d[i] != 0,
    ensures
        nul_index(d, lo, hi) == n,
    decreases n - lo,
{
    if lo < n {
        lemma_nul_index_is(d, lo + 1, hi, n);
    }
}

pub proof fn lemma_lex_irreflexive(a: Seq<u8>)
    ensures
        !lex_less(a, a),
    decreases a.len(),
{
    if a.len() > 0 {
        lemma_lex_irreflexive(a.skip(1));
    }
}

pub proof fn lemma_lex_transitive(a: Seq<u8>, b: Seq<u8>, c: Seq<u8>)
    requires
        lex_less(a, b),
        lex_less(b, c),
    ensures
        lex_less(a, c),
    decreases a.len(),
{
    if a.len() > 0 && a[0] == b[0] && b[0] == c[0] {
        lemma_lex_transitive(a.skip(1), b.skip(1), c.skip(1));
    }
}

pub proof fn lemma_lex_total(a: Seq<u8>, b: Seq<u8>)
    ensures
        lex_less(a, b) || a == b || lex_less(b, a),
    decreases a.len(),
{
    if a.len() > 0 && b.len() > 0 {
        if a[0] == b[0] {
            lemma_lex_total(a.skip(1), b.skip(1));
            if a.skip(1) == b.skip(1) {
                assert(a =~= seq![a[0]] + a.skip(1));
                assert(b =~= seq![b[0]] + b.skip(1));
            }
        }
    } else if a.len() == 0 && b.len() == 0 {
        assert(a =~= b);
    }
}

/// Read the little-endian word at `offset`.
pub fn read_u32_at(buf: &[u8], offset: usize) -> (r: u32)
    requires
        offset + 4 <= buf@.len(),
    ensures
        r == u32_at(buf@, offset as int),
{
    let b0 = buf[offset] as u32;
    let b1 = buf[offset + 1] as u32;
    let b2 = buf[offset + 2] as u32;
    let b3 = buf[offset + 3] as u32;
    b0 + b1 * 0x100 + b2 * 0x1_0000 + b3 * 0x100_0000
}

/// Replace the bytes from `at` on by `bytes`.
pub fn put_bytes(buf: &mut Vec<u8>, at: usize, bytes: &[u8])
    requires
        at + bytes@.len() <= old(buf)@.len(),
    ensures
        final(buf)@ == put(old(buf)@, at as int, bytes@),
{
    let n = bytes.len();
    let total = buf.len();
    let mut i: usize = 0;
    while i < n
        invariant
            i <= n,
            n == bytes@.len(),
            at + n <= total,
            total == old(buf)@.len(),
            buf@.len() == total,
            buf@ == put(old(buf)@, at as int, bytes@.take(i as int)),
        decreases n - i,
    {
        buf.set(at + i, bytes[i]);
        i = i + 1;
        proof {
            assert(buf@ =~= put(old(buf)@, at as int, bytes@.take(i as int)));
        }
    }
    proof {
        assert(bytes@.take(n as int) =~= bytes@);
    }
}

/// Replace the word at `at` by `value`.
pub fn put_word(buf: &mut Vec<u8>, at: usize, value: u32)
    requires
        at + 4 <= old(buf)@.len(),
    ensures
        final(buf)@ == put_u32(old(buf)@, at as int, value as int),
{
    assert(at + 4 <= buf.len());
    buf.set(at, (value % 0x100) as u8);
    buf.set(at + 1, (value / 0x100 % 0x100) as u8);
    buf.set(at + 2, (value / 0x1_0000 % 0x100) as u8);
    buf.set(at + 3, (value / 0x100_0000 % 0x100) as u8);
    proof {
        assert(buf@ =~= put_u32(old(buf)@, at as int, value as int));
    }
}

/// Replace `n` bytes from `at` on by zero.
pub fn put_zeros(buf: &mut Vec<u8>, at: usize, n: usize)
    requires
        at + n <= old(buf)@.len(),
    ensures
        final(buf)@ == zero(old(buf)@, at as int, n as int),
{
    let total = buf.len();
    let mut i: usize = 0;
    proof {
        assert(buf@ =~= zero(old(buf)@, at as int, 0));
    }
    while i < n
        invariant
            i <= n,
            at + n <= total,
            total == old(buf)@.len(),
            buf@.len() == total,
            buf@ == zero(old(buf)@, at as int, i as int),
        decreases n - i,
    {
        buf.set(at + i, 0);
        i = i + 1;
        proof {
            assert(buf@ =~= zero(old(buf)@, at as int, i as int));
        }
    }
}

/// A copy of the bytes `from..to`.
pub fn copy_range(buf: &[u8], from: usize, to: usize) -> (r: Vec<u8>)
    requires
        from <= to <= buf@.len(),
    ensures
        r@ == buf@.subrange(from as int, to as int),
{
    let mut out: Vec<u8> = Vec::new();
    let mut i: usize = from;
    while i < to
        invariant
            from <= i <= to <= buf@.len(),
            out@ == buf@.subrange(from as int, i as int),
        decreases to - i,
    {
        out.push(buf[i]);
        i = i + 1;
        proof {
            assert(out@ =~= buf@.subrange(from as int, i as int));
        }
    }
    out
}

/// The position of the first NUL byte in `lo..hi`, or `hi`.
pub fn find_nul(buf: &[u8], lo: usize, hi: usize) -> (r: usize)
    requires
        lo <= hi <= buf@.len(),
    ensures
        r == nul_index(buf@, lo as int, hi as int),
        lo <= r <= hi,
{
    let mut i: usize = lo;
    while i < hi
        invariant
            lo <= i <= hi <= buf@.len(),
            nul_index(buf@, lo as int, hi as int) == nul_index(buf@, i as int, hi as int),
        decreases hi - i,
    {
        if buf[i] == 0 {
            return i;
        }
        i = i + 1;
    }
    hi
}

/// Whether two byte strings are equal.
pub fn bytes_equal(a: &[u8], b: &[u8]) -> (r: bool)
    ensures
        r == (a@ == b@),
{
    if a.len() != b.len() {
        return false;
    }
    let mut i: usize = 0;
    while i < a.len()
        invariant
            a@.len() == b@.len(),
            i <= a@.len(),
            forall|j: int| 0 <= j < i ==> a@[j] == b@[j],
        decreases a@.len() - i,
    {
        if a[i] != b[i] {
            return false;
        }
        i = i + 1;
    }
    proof {
        assert(a@ =~= b@);
    }
    true
}

/// Whether `b` starts with `prefix`.
pub open spec fn is_prefix(prefix: Seq<u8>, b: Seq<u8>) -> bool {
    prefix.len() <= b.len() && b.take(prefix.len() as int) == prefix
}

/// Whether `b` starts with `prefix`.
pub fn starts_with(b: &[u8], prefix: &[u8]) -> (r: bool)
    ensures
        r == is_prefix(prefix@, b@),
{
    if prefix.len() > b.len() {
        return false;
    }
    let mut i: usize = 0;
    while i < prefix.len()
        invariant
            prefix@.len() <= b@.len(),
            i <= prefix@.len(),
            forall|j: int| 0 <= j < i ==> prefix@[j] == b@[j],
        decreases prefix@.len() - i,
    {
        if prefix[i] != b[i] {
            proof {
                assert(b@.take(prefix@.len() as int)[i as int] == b@[i as int]);
            }
            return false;
        }
        i = i + 1;
    }
    proof {
        assert(b@.take(prefix@.len() as int) =~= prefix@);
    }
    true
}

/// Compare two byte strings byte by byte.
pub fn compare_bytes(a: &[u8], b: &[u8]) -> (r: KeyOrder)
    ensures
        r == lex_order(a@, b@),
{
    let mut i: usize = 0;
    proof {
        assert(a@.skip(0) =~= a@);
        assert(b@.skip(0) =~= b@);
    }
    while i < a.len() && i < b.len()
        invariant
            i <= a@.len(),
            i <= b@.len(),
            forall|j: int| 0 <= j < i ==> a@[j] == b@[j],
            lex_less(a@, b@) == lex_less(a@.skip(i as int), b@.skip(i as int)),
        decreases a@.len() - i,
    {
        if a[i] < b[i] {
            return KeyOrder::Less;
        }
        if a[i] > b[i] {
            return KeyOrder::Greater;
        }
        proof {
            assert(a@.skip(i as int).skip(1) =~= a@.skip(i + 1));
            assert(b@.skip(i as int).skip(1) =~= b@.skip(i + 1));
        }
        i = i + 1;
    }
    if a.len() < b.len() {
        KeyOrder::Less
    } else if a.len() == b.len() {
        proof {
            assert(a@ =~= b@);
            lemma_lex_irreflexive(a@);
        }
        KeyOrder::Equal
    } else {
        KeyOrder::Greater
    }
}

/// `String::from_utf8`: text when the bytes are well-formed UTF-8, the same
/// bytes back when they are not.
#[verifier::external_body]
pub(crate) fn text_from_utf8(bytes: Vec<u8>) -> (r: Result<String, Vec<u8>>)
    ensures
        match r {
            Ok(s) => valid_utf8(bytes@) && s@ == decode_utf8(bytes@),
            Err(b) => !valid_utf8(bytes@) && b@ == bytes@,
        },
{
    String::from_utf8(bytes).map_err(|e| e.into_bytes())
}

/// `std::str::from_utf8`: a view of well-formed UTF-8 as text, nothing for
/// other bytes.
#[verifier::external_body]
pub(crate) fn str_from_utf8(bytes: &[u8]) -> (r: Option<&str>)
    ensures
        match r {
            Some(s) => valid_utf8(bytes@) && s@ == decode_utf8(bytes@),
            None => !valid_utf8(bytes@),
        },
{
    std::str::from_utf8(bytes).ok()
}

/// The UTF-8 bytes of a text.
pub open spec fn text_bytes(s: Seq<char>) -> Seq<u8> {
    encode_utf8(s)
}

pub proof fn lemma_text_round_trip(b: Seq<u8>)
    requires
        valid_utf8(b),
    ensures
        text_bytes(decode_utf8(b)) == b,
{
    decode_utf8_encode_utf8(b);
}

pub proof fn lemma_bytes_round_trip(s: Seq<char>)
    ensures
        valid_utf8(text_bytes(s)),
        decode_utf8(text_bytes(s)) == s,
{
    vstd::utf8::encode_utf8_valid_utf8(s);
    encode_utf8_decode_utf8(s);
}

} // verus!
