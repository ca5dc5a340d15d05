//! Names in order: comparing them byte by byte, and sorting by them.
use vstd::prelude::*;
use crate::bytes::{
    compare_bytes, lemma_bytes_round_trip, lemma_lex_irreflexive, lemma_lex_total,
    lemma_lex_transitive, lex_less, lex_order, text_bytes, KeyOrder,
};

verus! {

/// The order of names: byte by byte.
pub open spec fn name_before(a: Seq<char>, b: Seq<char>) -> bool {
    lex_less(text_bytes(a), text_bytes(b))
}

/// Names that compare equal are equal.
pub proof fn lemma_name_order(a: Seq<char>, b: Seq<char>)
    ensures
        lex_order(text_bytes(a), text_bytes(b)) is Equal ==> a == b,
        lex_order(text_bytes(a), text_bytes(b)) is Less ==> name_before(a, b) && a != b,
        lex_order(text_bytes(a), text_bytes(b)) is Greater ==> name_before(b, a) && a != b,
        !(name_before(a, b) && name_before(b, a)),
        name_before(a, b) ==> a != b,
        name_before(a, b) || a == b || name_before(b, a),
{
    lemma_bytes_round_trip(a);
    lemma_bytes_round_trip(b);
    lemma_lex_total(text_bytes(a), text_bytes(b));
    lemma_lex_irreflexive(text_bytes(a));
    if name_before(a, b) && name_before(b, a) {
        lemma_lex_transitive(text_bytes(a), text_bytes(b), text_bytes(a));
    }
}

/// The order of names is transitive.
pub proof fn lemma_name_transitive(a: Seq<char>, b: Seq<char>, c: Seq<char>)
    requires
        name_before(a, b),
        name_before(b, c),
    ensures
        name_before(a, c),
{
    lemma_lex_transitive(text_bytes(a), text_bytes(b), text_bytes(c));
}

/// Something that is filed under a name.
pub trait Named {
    /// The name.
    spec fn key(&self) -> Seq<char>;

    /// The name.
    fn name(&self) -> (r: &str)
        ensures
            r@ == self.key(),
    ;
}

impl Named for (String, String) {
    open spec fn key(&self) -> Seq<char> {
        self.0@
    }

    fn name(&self) -> (r: &str) {
        self.0.as_str()
    }
}

/// No name comes before an earlier one.
pub open spec fn sorted<T: Named>(s: Seq<T>) -> bool {
    forall|i: int, j: int|
        0 <= i < j < s.len() ==> !name_before((#[trigger] s[j]).key(), (#[trigger] s[i]).key())
}

/// What is filed under `name`, in the order of `s`.
pub open spec fn filed<T: Named>(s: Seq<T>, name: Seq<char>) -> Seq<T> {
    s.filter(|t: T| t.key() == name)
}

/// `r` is `s` sorted by name; what has the same name keeps its order.
pub open spec fn sorts<T: Named>(r: Seq<T>, s: Seq<T>) -> bool {
    &&& sorted(r)
    &&& forall|name: Seq<char>| #[trigger] filed(r, name) == filed(s, name)
}

proof fn lemma_filed_add<T: Named>(a: Seq<T>, b: Seq<T>, name: Seq<char>)
    ensures
        filed(a + b, name) == filed(a, name) + filed(b, name),
{
    Seq::filter_distributes_over_add(a, b, |t: T| t.key() == name);
}

proof fn lemma_filed_none<T: Named>(a: Seq<T>, name: Seq<char>)
    requires
        forall|i: int| 0 <= i < a.len() ==> (#[trigger] a[i]).key() != name,
    ensures
        filed(a, name) == Seq::<T>::empty(),
    decreases a.len(),
{
    reveal(Seq::filter);
    if a.len() > 0 {
        lemma_filed_none(a.drop_last(), name);
    }
}

/// Putting `e` before the first name that does not come before its own keeps
/// the list sorted, and puts `e` first among those of its name.
proof fn lemma_insert<T: Named>(out: Seq<T>, p: int, e: T)
    requires
        sorted(out),
        0 <= p <= out.len(),
        forall|i: int| 0 <= i < p ==> name_before((#[trigger] out[i]).key(), e.key()),
        p < out.len() ==> !name_before(out[p].key(), e.key()),
    ensures
        sorted(out.insert(p, e)),
        forall|name: Seq<char>| #[trigger]
            filed(out.insert(p, e), name) == filed(seq![e] + out, name),
{
    let r = out.insert(p, e);
    assert forall|i: int, j: int| 0 <= i < j < r.len() implies !name_before(
        (#[trigger] r[j]).key(),
        (#[trigger] r[i]).key(),
    ) by {
        let a = if i < p {
            i
        } else {
            i - 1
        };
        let b = if j < p {
            j
        } else {
            j - 1
        };
        if i != p && j != p {
            assert(r[i] == out[a] && r[j] == out[b]);
        } else if j == p {
            assert(r[i] == out[i]);
            lemma_name_order(out[i].key(), e.key());
        } else {
            assert(r[j] == out[b]);
            if name_before(out[b].key(), e.key()) && b > p {
                assert(!name_before(out[b].key(), out[p].key()));
                lemma_name_order(out[b].key(), out[p].key());
                if name_before(out[p].key(), out[b].key()) {
                    lemma_name_transitive(out[p].key(), out[b].key(), e.key());
                }
            }
        }
    }
    assert forall|name: Seq<char>| #[trigger] filed(r, name) == filed(seq![e] + out, name) by {
        let (lo, hi) = (out.take(p), out.skip(p));
        assert(r =~= lo + (seq![e] + hi));
        assert(seq![e] + out =~= seq![e] + (lo + hi));
        lemma_filed_add(lo, seq![e] + hi, name);
        lemma_filed_add(seq![e], hi, name);
        lemma_filed_add(seq![e], lo + hi, name);
        lemma_filed_add(lo, hi, name);
        if e.key() == name {
            assert forall|i: int| 0 <= i < lo.len() implies (#[trigger] lo[i]).key() != name by {
                assert(lo[i] == out[i]);
                lemma_name_order(out[i].key(), e.key());
            }
            lemma_filed_none(lo, name);
            assert(filed(r, name) =~= filed(seq![e] + out, name));
        } else {
            assert forall|i: int| 0 <= i < seq![e].len() implies (#[trigger] seq![e][i]).key()
                != name by {}
            lemma_filed_none(seq![e], name);
            assert(filed(r, name) =~= filed(seq![e] + out, name));
        }
    }
}

/// Sort by name; what has the same name keeps its order.
pub fn sort_by_name<T: Named>(list: Vec<T>) -> (r: Vec<T>)
    ensures
        sorts(r@, list@),
{
    let mut left = list;
    let mut out: Vec<T> = Vec::new();
    proof {
        assert(list@.skip(list@.len() as int) =~= Seq::<T>::empty());
        assert(left@ =~= list@.take(list@.len() as int));
    }
    while left.len() > 0
        invariant
            left@.len() <= list@.len(),
            left@ == list@.take(left@.len() as int),
            sorts(out@, list@.skip(left@.len() as int)),
        decreases left@.len(),
    {
        let ghost k = left@.len() as int;
        let ghost tail = list@.skip(k);
        let e = left.pop().unwrap();
        let mut p: usize = 0;
        while p < out.len() && compare_bytes(out[p].name().as_bytes(), e.name().as_bytes())
            == KeyOrder::Less
            invariant
                p <= out@.len(),
                forall|i: int| 0 <= i < p ==> name_before((#[trigger] out@[i]).key(), e.key()),
            ensures
                p < out@.len() ==> !name_before(out@[p as int].key(), e.key()),
            decreases out@.len() - p,
        {
            p = p + 1;
        }
        let ghost before = out@;
        proof {
            lemma_insert(before, p as int, e);
            assert(e == list@[k - 1]);
            assert(list@.skip(k - 1) =~= seq![e] + tail);
            assert(left@ =~= list@.take(k - 1));
            assert forall|name: Seq<char>| #[trigger]
                filed(before.insert(p as int, e), name) == filed(seq![e] + tail, name) by {
                lemma_filed_add(seq![e], before, name);
                lemma_filed_add(seq![e], tail, name);
                assert(filed(before, name) == filed(tail, name));
            }
        }
        out.insert(p, e);
    }
    proof {
        assert(list@.skip(0) =~= list@);
    }
    out
}

/// What the names of a list are.
pub open spec fn names_of(list: Seq<String>) -> Seq<Seq<char>> {
    list.map_values(|s: String| s@)
}

/// Every name comes before those that follow it.
pub open spec fn ascending(names: Seq<Seq<char>>) -> bool {
    forall|i: int, j: int|
        0 <= i < j < names.len() ==> name_before(#[trigger] names[i], #[trigger] names[j])
}

/// Put `name` where it belongs, unless it is there.
fn add_name(list: &mut Vec<String>, name: &str)
    requires
        ascending(names_of(old(list)@)),
    ensures
        ascending(names_of(final(list)@)),
        forall|x: Seq<char>| #[trigger]
            names_of(final(list)@).contains(x) <==> names_of(old(list)@).contains(x) || x == name@,
{
    let ghost before = names_of(list@);
    let mut p: usize = 0;
    while p < list.len()
        invariant
            p <= list@.len(),
            before == names_of(list@),
            before == names_of(old(list)@),
            ascending(before),
            forall|i: int| 0 <= i < p ==> name_before(#[trigger] before[i], name@),
        ensures
            p < list@.len() ==> name_before(name@, before[p as int]),
        decreases list@.len() - p,
    {
        proof {
            lemma_name_order(before[p as int], name@);
        }
        match compare_bytes(list[p].as_str().as_bytes(), name.as_bytes()) {
            KeyOrder::Less => {
                p = p + 1;
            },
            KeyOrder::Equal => {
                proof {
                    assert(before[p as int] == name@);
                    assert(before.contains(name@));
                }
                return ;
            },
            KeyOrder::Greater => {
                break;
            },
        }
    }
    list.insert(p, name.to_owned());
    proof {
        let after = names_of(list@);
        assert(after =~= before.insert(p as int, name@));
        assert forall|i: int, j: int| 0 <= i < j < after.len() implies name_before(
            #[trigger] after[i],
            #[trigger] after[j],
        ) by {
            let a = if i < p {
                i
            } else {
                i - 1
            };
            let b = if j < p {
                j
            } else {
                j - 1
            };
            if i != p && j != p {
                assert(name_before(before[a], before[b]));
            } else if i == p {
                if b > p {
                    assert(name_before(before[p as int], before[b]));
                    lemma_name_transitive(name@, before[p as int], before[b]);
                }
            }
        }
        assert forall|x: Seq<char>| #[trigger] after.contains(x) <==> before.contains(x) || x
            == name@ by {
            if before.contains(x) {
                let i = before.index_of(x);
                let k = if i < p {
                    i
                } else {
                    i + 1
                };
                assert(after[k] == x);
            }
            if x == name@ {
                assert(after[p as int] == x);
            }
            if after.contains(x) {
                let k = after.index_of(x);
                if k < p {
                    assert(before[k] == x);
                } else if k > p {
                    assert(before[k - 1] == x);
                }
            }
        }
    }
}

/// The texts of a list.
pub open spec fn texts_of(list: Seq<&str>) -> Seq<Seq<char>> {
    list.map_values(|s: &str| s@)
}

/// The names of a list, each once and in order.
pub fn distinct_names(list: &Vec<&str>) -> (r: Vec<String>)
    ensures
        ascending(names_of(r@)),
        forall|x: Seq<char>| #[trigger] names_of(r@).contains(x) <==> texts_of(list@).contains(x),
{
    let mut out: Vec<String> = Vec::new();
    let mut i: usize = 0;
    let ghost all = texts_of(list@);
    while i < list.len()
        invariant
            i <= list@.len(),
            all == texts_of(list@),
            ascending(names_of(out@)),
            forall|x: Seq<char>| #[trigger]
                names_of(out@).contains(x) <==> all.take(i as int).contains(x),
        decreases list@.len() - i,
    {
        let ghost done = names_of(out@);
        add_name(&mut out, list[i]);
        proof {
            let x0 = all[i as int];
            let next = all.take(i + 1);
            assert(next =~= all.take(i as int).push(x0));
            assert forall|x: Seq<char>| #[trigger] names_of(out@).contains(x) <==> next.contains(
                x,
            ) by {
                assert(done.contains(x) <==> all.take(i as int).contains(x));
                if all.take(i as int).contains(x) {
                    assert(next[all.take(i as int).index_of(x)] == x);
                }
                assert(next[i as int] == x0);
                if next.contains(x) && x != x0 {
                    assert(all.take(i as int)[next.index_of(x)] == x);
                }
            }
        }
        i = i + 1;
    }
    proof {
        assert(all.take(all.len() as int) =~= all);
    }
    out
}

} // verus!
