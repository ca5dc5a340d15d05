//! The text form of context metadata: `property_contexts` files.
//!
//! A line holds a prefix, white space and a context; `#` starts a comment.
//! Lines whose prefix starts with `ctl.` speak of requests to init, which are
//! stored nowhere, and are passed over. The prefix `*` matches every name.
use vstd::prelude::*;
use vstd::slice::slice_subrange;
use crate::bytes::{lemma_bytes_round_trip, text_bytes};
use crate::context_table::DEFAULT_CONTEXT;
use crate::text::{
    all_white, chars_of, find_char, has_prefix, index_of, is_white, law_words, lemma_index_of,
    next_word, no_white, same_text, text_of, text_starts, words,
};

verus! {

/// A prefix and the context of the names that start with it.
pub struct PrefixEntry {
    pub prefix: String,
    pub context: String,
}

/// What an entry holds.
pub struct PrefixView {
    pub prefix: Seq<char>,
    pub context: Seq<char>,
}

impl View for PrefixEntry {
    type V = PrefixView;

    open spec fn view(&self) -> PrefixView {
        PrefixView { prefix: self.prefix@, context: self.context@ }
    }
}

/// Whether the entry matches every name.
pub open spec fn is_wildcard(e: PrefixView) -> bool {
    e.prefix == "*"@
}

/// The number of bytes of the prefix.
pub open spec fn prefix_len(e: PrefixView) -> int {
    text_bytes(e.prefix).len() as int
}

/// Whether the entry is for the property `name`.
pub open spec fn entry_fits(e: PrefixView, name: Seq<char>) -> bool {
    is_wildcard(e) || text_starts(name, e.prefix)
}

/// Whether `later` may follow `earlier`: longer prefixes go first, wildcards
/// last.
pub open spec fn may_follow(earlier: PrefixView, later: PrefixView) -> bool {
    is_wildcard(later) || (!is_wildcard(earlier) && prefix_len(earlier) >= prefix_len(later))
}

/// The entries stand in the order in which they are tried, and no prefix is
/// empty.
pub open spec fn in_order(list: Seq<PrefixView>) -> bool {
    &&& forall|i: int| 0 <= i < list.len() ==> prefix_len(#[trigger] list[i]) > 0
    &&& forall|i: int, j: int|
        0 <= i < j < list.len() ==> may_follow(#[trigger] list[i], #[trigger] list[j])
}

/// The first position from `i` on of a wildcard or of a prefix shorter than
/// `e`, or the length of the list.
pub open spec fn place_for(list: Seq<PrefixView>, e: PrefixView, i: int) -> int
    decreases list.len() - i,
{
    if i >= list.len() {
        list.len() as int
    } else if is_wildcard(list[i]) || prefix_len(list[i]) < prefix_len(e) {
        i
    } else {
        place_for(list, e, i + 1)
    }
}

/// `list` with `e` put where it belongs.
pub open spec fn with_entry(list: Seq<PrefixView>, e: PrefixView) -> Seq<PrefixView> {
    list.insert(place_for(list, e, 0), e)
}

/// The entry that a line holds.
pub open spec fn line_entry(line: Seq<char>) -> Option<PrefixView> {
    let w = words(line.take(index_of(line, '#', 0)));
    if w.len() >= 2 && !text_starts(w[0], "ctl."@) {
        Some(PrefixView { prefix: w[0], context: w[1] })
    } else {
        None
    }
}

/// `list` with the entry of a line.
pub open spec fn with_line(list: Seq<PrefixView>, line: Seq<char>) -> Seq<PrefixView> {
    match line_entry(line) {
        Some(e) => with_entry(list, e),
        None => list,
    }
}

/// `list` with the entries of all lines of `content`.
pub open spec fn with_lines(list: Seq<PrefixView>, content: Seq<char>) -> Seq<PrefixView>
    decreases content.len(),
{
    let n = index_of(content, '\n', 0);
    let next = with_line(list, content.take(n));
    if n >= content.len() {
        next
    } else {
        proof {
            lemma_index_of(content, '\n', 0);
        }
        with_lines(next, content.skip(n + 1))
    }
}

/// The first entry from `i` on that is for `name`, or the length of the list.
pub open spec fn first_fit(list: Seq<PrefixView>, name: Seq<char>, i: int) -> int
    decreases list.len() - i,
{
    if i >= list.len() {
        list.len() as int
    } else if entry_fits(list[i], name) {
        i
    } else {
        first_fit(list, name, i + 1)
    }
}

/// The context of the property `name`.
pub open spec fn listed_context(list: Seq<PrefixView>, name: Seq<char>) -> Seq<char> {
    let i = first_fit(list, name, 0);
    if i < list.len() {
        list[i].context
    } else {
        DEFAULT_CONTEXT@
    }
}

pub proof fn lemma_place(list: Seq<PrefixView>, e: PrefixView, i: int)
    requires
        0 <= i <= list.len(),
    ensures
        i <= place_for(list, e, i) <= list.len(),
        forall|j: int|
            i <= j < place_for(list, e, i) ==> !is_wildcard(#[trigger] list[j]) && prefix_len(
                list[j],
            ) >= prefix_len(e),
        place_for(list, e, i) < list.len() ==> {
            let other = list[place_for(list, e, i)];
            is_wildcard(other) || prefix_len(other) < prefix_len(e)
        },
    decreases list.len() - i,
{
    if i < list.len() && !(is_wildcard(list[i]) || prefix_len(list[i]) < prefix_len(e)) {
        lemma_place(list, e, i + 1);
    }
}

proof fn lemma_star()
    ensures
        "*"@.len() == 1,
        text_bytes("*"@).len() == 1,
{
    reveal_strlit("*");
    vstd::utf8::is_ascii_chars_encode_utf8("*"@);
}

proof fn lemma_with_entry(list: Seq<PrefixView>, e: PrefixView)
    requires
        in_order(list),
        prefix_len(e) > 0,
    ensures
        in_order(with_entry(list, e)),
{
    let p = place_for(list, e, 0);
    let r = with_entry(list, e);
    lemma_place(list, e, 0);
    lemma_star();
    assert forall|i: int| 0 <= i < r.len() implies prefix_len(#[trigger] r[i]) > 0 by {
        if i < p {
            assert(r[i] == list[i]);
        } else if i > p {
            assert(r[i] == list[i - 1]);
        }
    }
    assert forall|i: int, j: int| 0 <= i < j < r.len() implies may_follow(
        #[trigger] r[i],
        #[trigger] r[j],
    ) by {
        let a = if i < p {
            i
        } else {
            i - 1
        };
        let b = if j < p {
            j
        } else {
            j - 1
        };
        if i != p && j != p {
            assert(may_follow(list[a], list[b]));
        } else if j == p {
            assert(r[i] == list[i]);
        } else {
            assert(r[j] == list[b]);
            if b > p {
                assert(may_follow(list[p], list[b]));
            }
        }
    }
}

/// Words are not empty.
proof fn lemma_words(s: Seq<char>)
    ensures
        forall|i: int| 0 <= i < words(s).len() ==> (#[trigger] words(s)[i]).len() > 0,
    decreases s.len(),
{
    let from = crate::text::run_end(s, false, 0);
    crate::text::lemma_run_end(s, false, 0);
    if from < s.len() {
        crate::text::lemma_run_end(s, true, from);
        let to = crate::text::run_end(s, true, from);
        lemma_words(s.skip(to));
        assert forall|i: int| 0 <= i < words(s).len() implies (#[trigger] words(s)[i]).len()
            > 0 by {
            if i > 0 {
                assert(words(s)[i] == words(s.skip(to))[i - 1]);
            }
        }
    }
}

/// Reading lines keeps longer prefixes before shorter ones and wildcards at
/// the end.
pub proof fn law_lines_keep_order(list: Seq<PrefixView>, content: Seq<char>)
    requires
        in_order(list),
    ensures
        in_order(with_lines(list, content)),
    decreases content.len(),
{
    let n = index_of(content, '\n', 0);
    lemma_index_of(content, '\n', 0);
    let line = content.take(n);
    let next = with_line(list, line);
    if let Some(e) = line_entry(line) {
        lemma_words(line.take(index_of(line, '#', 0)));
        lemma_bytes_round_trip(e.prefix);
        assert(prefix_len(e) > 0) by {
            if text_bytes(e.prefix).len() == 0 {
                assert(text_bytes(e.prefix) =~= seq![]);
                lemma_bytes_round_trip(seq![]);
                assert(text_bytes(seq![]) =~= seq![]);
                assert(e.prefix =~= seq![]);
            }
        }
        lemma_with_entry(list, e);
    }
    if n < content.len() {
        law_lines_keep_order(next, content.skip(n + 1));
    }
}

pub proof fn lemma_first_fit(list: Seq<PrefixView>, name: Seq<char>, i: int)
    requires
        0 <= i <= list.len(),
    ensures
        i <= first_fit(list, name, i) <= list.len(),
        forall|j: int| i <= j < first_fit(list, name, i) ==> !entry_fits(#[trigger] list[j], name),
        first_fit(list, name, i) < list.len() ==> entry_fits(list[first_fit(list, name, i)], name),
    decreases list.len() - i,
{
    if i < list.len() && !entry_fits(list[i], name) {
        lemma_first_fit(list, name, i + 1);
    }
}

/// The context of a name is that of the longest prefix that it starts with;
/// a wildcard decides only where no other prefix is for the name, and without
/// one the name has the default context.
pub proof fn law_longest_entry(list: Seq<PrefixView>, name: Seq<char>)
    requires
        in_order(list),
    ensures
        forall|j: int|
            0 <= j < list.len() && entry_fits(#[trigger] list[j], name) ==> {
                let i = first_fit(list, name, 0);
                &&& 0 <= i <= j
                &&& entry_fits(list[i], name)
                &&& may_follow(list[i], list[j]) || i == j
                &&& listed_context(list, name) == list[i].context
            },
        (forall|j: int| 0 <= j < list.len() ==> !entry_fits(#[trigger] list[j], name))
            ==> listed_context(list, name) == DEFAULT_CONTEXT@,
{
    lemma_first_fit(list, name, 0);
    let i = first_fit(list, name, 0);
    assert forall|j: int| 0 <= j < list.len() && entry_fits(#[trigger] list[j], name) implies {
        &&& 0 <= i <= j
        &&& entry_fits(list[i], name)
        &&& may_follow(list[i], list[j]) || i == j
        &&& listed_context(list, name) == list[i].context
    } by {
        if i < j {
            assert(may_follow(list[i], list[j]));
        }
    }
}

/// Prefixes and their contexts, in the order in which they are tried.
pub struct SplitContext {
    entries: Vec<PrefixEntry>,
}

impl View for SplitContext {
    type V = Seq<PrefixView>;

    closed spec fn view(&self) -> Seq<PrefixView> {
        self.entries@.map_values(|e: PrefixEntry| e@)
    }
}

impl SplitContext {
    /// Longer prefixes stand before shorter ones, wildcards at the end.
    pub open spec fn valid(&self) -> bool {
        in_order(self@)
    }

    /// No prefixes.
    pub fn new() -> (r: SplitContext)
        ensures
            r@ == Seq::<PrefixView>::empty(),
            r.valid(),
    {
        let r = SplitContext { entries: Vec::new() };
        proof {
            assert(r@ =~= Seq::<PrefixView>::empty());
        }
        r
    }

    /// The entries, in the order in which they are tried.
    pub fn entries(&self) -> (r: &Vec<PrefixEntry>)
        ensures
            r@.map_values(|e: PrefixEntry| e@) == self@,
    {
        &self.entries
    }

    /// Put an entry where it belongs.
    fn add_entry(&mut self, entry: PrefixEntry)
        ensures
            final(self)@ == with_entry(old(self)@, entry@),
    {
        let ghost before = self@;
        let len = entry.prefix.as_str().as_bytes().len();
        let mut i: usize = 0;
        proof {
            lemma_place(before, entry@, 0);
        }
        while i < self.entries.len() && !(same_text(self.entries[i].prefix.as_str(), "*")
            || self.entries[i].prefix.as_str().as_bytes().len() < len)
            invariant
                i <= self.entries@.len(),
                self@ == before,
                before == old(self)@,
                len == prefix_len(entry@),
                place_for(before, entry@, 0) == place_for(before, entry@, i as int),
            ensures
                i == place_for(before, entry@, 0),
            decreases self.entries@.len() - i,
        {
            i = i + 1;
        }
        let ghost e = entry@;
        self.entries.insert(i, entry);
        proof {
            assert(self@ =~= before.insert(i as int, e));
        }
    }

    /// Put the entry of a line where it belongs.
    fn add_line(&mut self, line: &[char])
        ensures
            final(self)@ == with_line(old(self)@, line@),
    {
        let body = slice_subrange(line, 0, find_char(line, '#'));
        proof {
            lemma_index_of(line@, '#', 0);
            assert(body@ =~= line@.take(index_of(line@, '#', 0)));
        }
        if let Some((first, rest)) = next_word(body) {
            proof {
                assert(words(body@)[0] == first@);
            }
            if let Some((second, after)) = next_word(rest) {
                proof {
                    assert(words(rest@)[0] == second@);
                    assert(words(body@)[1] == second@);
                }
                let prefix = text_of(first);
                if !has_prefix(prefix.as_str(), "ctl.") {
                    self.add_entry(PrefixEntry { prefix, context: text_of(second) });
                }
            }
        }
    }

    /// Add the entries of a `property_contexts` file.
    pub fn load_file(&mut self, content: &str)
        requires
            old(self).valid(),
        ensures
            final(self)@ == with_lines(old(self)@, content@),
            final(self).valid(),
    {
        let all = chars_of(content);
        let chars = all.as_slice();
        let mut from: usize = 0;
        let mut more = true;
        proof {
            assert(content@.skip(0) =~= content@);
            law_lines_keep_order(self@, content@);
        }
        while more
            invariant
                chars@ == content@,
                from <= chars@.len(),
                with_lines(old(self)@, content@) == (if more {
                    with_lines(self@, content@.skip(from as int))
                } else {
                    self@
                }),
            decreases chars@.len() - from + (if more {
                1int
            } else {
                0int
            }),
        {
            let rest = slice_subrange(chars, from, chars.len());
            let n = find_char(rest, '\n');
            let line = slice_subrange(rest, 0, n);
            proof {
                assert(rest@ =~= content@.skip(from as int));
                assert(line@ =~= rest@.take(n as int));
            }
            self.add_line(line);
            if n < rest.len() {
                proof {
                    assert(rest@.skip(n + 1) =~= content@.skip(from + n + 1));
                }
                from = from + n + 1;
            } else {
                more = false;
            }
        }
    }

    /// The context of the property `name`.
    pub fn get_context_for_name(&self, name: &str) -> (r: &str)
        ensures
            r@ == listed_context(self@, name@),
    {
        let mut i: usize = 0;
        while i < self.entries.len()
            invariant
                i <= self.entries@.len(),
                first_fit(self@, name@, 0) == first_fit(self@, name@, i as int),
            decreases self.entries@.len() - i,
        {
            let prefix = self.entries[i].prefix.as_str();
            if same_text(prefix, "*") || has_prefix(name, prefix) {
                return self.entries[i].context.as_str();
            }
            i = i + 1;
        }
        DEFAULT_CONTEXT
    }
}

/// What a line holds: a prefix, white space and a context, with white space and
/// more words around them and a comment at the end. Lines for init hold nothing.
pub proof fn law_line_entry(
    a: Seq<char>,
    prefix: Seq<char>,
    b: Seq<char>,
    context: Seq<char>,
    more: Seq<char>,
    comment: Seq<char>,
)
    requires
        all_white(a),
        all_white(b),
        b.len() > 0,
        no_white(prefix),
        prefix.len() > 0,
        !prefix.contains('#'),
        no_white(context),
        context.len() > 0,
        !context.contains('#'),
        more.len() > 0 ==> is_white(more[0]),
        !more.contains('#'),
        comment.len() > 0 ==> comment[0] == '#',
    ensures
        line_entry(a + prefix + b + context + more + comment) == if text_starts(prefix, "ctl."@) {
            None
        } else {
            Some(PrefixView { prefix, context })
        },
{
    let rest = b + context + more;
    let body = a + prefix + rest;
    let line = a + prefix + b + context + more + comment;
    assert(line =~= body + comment);
    lemma_body(body, comment, a, prefix, b, context, more);
    law_words(a, prefix, rest);
    law_words(b, context, more);
    assert(rest[0] == b[0]);
    let w = words(body);
    assert(w[0] == prefix);
    assert(w[1] == context);
}

/// The comment of a line starts behind its body.
proof fn lemma_body(
    body: Seq<char>,
    comment: Seq<char>,
    a: Seq<char>,
    prefix: Seq<char>,
    b: Seq<char>,
    context: Seq<char>,
    more: Seq<char>,
)
    requires
        body == a + prefix + (b + context + more),
        all_white(a),
        all_white(b),
        !prefix.contains('#'),
        !context.contains('#'),
        !more.contains('#'),
        comment.len() > 0 ==> comment[0] == '#',
    ensures
        (body + comment).take(index_of(body + comment, '#', 0)) == body,
{
    let line = body + comment;
    lemma_index_of(line, '#', 0);
    let n = index_of(line, '#', 0);
    if n < body.len() {
        let i = a.len() as int;
        let j = i + prefix.len();
        let k = j + b.len();
        let m = k + context.len();
        if n < i {
            assert(line[n] == a[n]);
        } else if n < j {
            assert(line[n] == prefix[n - i]);
            assert(prefix.contains(prefix[n - i]));
        } else if n < k {
            assert(line[n] == b[n - j]);
        } else if n < m {
            assert(line[n] == context[n - k]);
            assert(context.contains(context[n - k]));
        } else {
            assert(line[n] == more[n - m]);
            assert(more.contains(more[n - m]));
        }
    }
    if n > body.len() {
        assert(line[body.len() as int] == comment[0]);
    }
    assert(line.take(n) =~= body);
}

/// A line with no word, or with one word only, holds nothing.
pub proof fn law_line_without_entry(
    a: Seq<char>,
    word: Seq<char>,
    b: Seq<char>,
    comment: Seq<char>,
)
    requires
        all_white(a),
        no_white(word),
        !word.contains('#'),
        all_white(b),
        comment.len() > 0 ==> comment[0] == '#',
    ensures
        line_entry(a + word + b + comment) is None,
{
    let none = Seq::<char>::empty();
    let body = a + word + b;
    assert(a + word + b + comment =~= body + comment);
    assert(body =~= a + word + (b + none + none));
    lemma_body(body, comment, a, word, b, none, none);
    if word.len() > 0 {
        law_words(a, word, b);
        law_words(b, word, none);
    } else {
        assert(all_white(body)) by {
            assert forall|i: int| 0 <= i < body.len() implies is_white(#[trigger] body[i]) by {
                if i < a.len() {
                    assert(body[i] == a[i]);
                } else {
                    assert(body[i] == b[i - a.len()]);
                }
            }
        }
        let some = seq!['x'];
        law_words(body, some, none);
    }
}

/// The lines of a file are taken one after the other.
pub proof fn law_lines_in_turn(list: Seq<PrefixView>, line: Seq<char>, rest: Seq<char>)
    requires
        !line.contains('\n'),
    ensures
        with_lines(list, line + seq!['\n'] + rest) == with_lines(with_line(list, line), rest),
        with_lines(list, line) == with_line(list, line),
{
    let all = line + seq!['\n'] + rest;
    let n = index_of(all, '\n', 0);
    lemma_index_of(all, '\n', 0);
    lemma_index_of(line, '\n', 0);
    assert(all[line.len() as int] == '\n');
    if n < line.len() {
        assert(all[n] == line[n]);
        assert(line.contains(line[n]));
    }
    assert(all.take(n) =~= line);
    assert(all.skip(n + 1) =~= rest);
    let k = index_of(line, '\n', 0);
    if k < line.len() {
        assert(line.contains(line[k]));
    }
    assert(line.take(k) =~= line);
}

/// A new entry is put behind those with prefixes that are no shorter, and in front
/// of the shorter ones and of wildcards. The other entries keep their order.
pub proof fn law_entry_place(list: Seq<PrefixView>, e: PrefixView) -> (p: int)
    requires
        in_order(list),
    ensures
        0 <= p <= list.len(),
        with_entry(list, e) == list.insert(p, e),
        forall|j: int|
            0 <= j < p ==> (#[trigger] list[j]).prefix != "*"@ && text_bytes(list[j].prefix).len()
                >= text_bytes(e.prefix).len(),
        forall|j: int|
            p <= j < list.len() ==> (#[trigger] list[j]).prefix == "*"@ || text_bytes(
                list[j].prefix,
            ).len() < text_bytes(e.prefix).len(),
{
    let p = place_for(list, e, 0);
    lemma_place(list, e, 0);
    assert forall|j: int| p <= j < list.len() implies (#[trigger] list[j]).prefix == "*"@
        || text_bytes(list[j].prefix).len() < text_bytes(e.prefix).len() by {
        if j > p {
            assert(may_follow(list[p], list[j]));
        }
    }
    p
}

/// An entry is for every name if its prefix is a star, and else for the names that
/// start with the bytes of its prefix.
pub proof fn law_entry_fits(e: PrefixView, name: Seq<char>)
    ensures
        e.prefix == "*"@ ==> entry_fits(e, name),
        e.prefix != "*"@ ==> (entry_fits(e, name) <==> text_bytes(name).len() >= text_bytes(
            e.prefix,
        ).len() && text_bytes(name).take(text_bytes(e.prefix).len() as int) == text_bytes(e.prefix)),
{
}

} // verus!
