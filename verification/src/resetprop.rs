//! The rules of `resetprop`: where a property is looked for, when persistent
//! storage is written as well, how listings are put together, and how
//! property files are read.
use vstd::prelude::*;
use crate::name_order::{filed, name_before, sort_by_name, sorts, Named};
use crate::property_context::{PropertyContext, StorageView};
use crate::sys_prop::{bypasses_service, goes_direct};
use crate::text::{
    all_white, chars_of, has_prefix, is_solid, is_white, law_split_first, law_trimmed, same_text,
    split_at_first, split_first, text_of, text_starts, trim, trimmed,
};

verus! {

/// What the names of persistent properties start with.
pub const PERSIST_PREFIX: &'static str = "persist.";

/// What was asked for.
#[derive(Debug, Clone, Copy, PartialEq, Eq, Structural)]
pub struct ResetProp {
    /// Go around the property service.
    pub skip_svc: bool,
    /// Work on persistent storage as well.
    pub persistent: bool,
    /// Read persistent storage only.
    pub persist_only: bool,
    /// Say what is done.
    pub verbose: bool,
    /// Show contexts in place of values.
    pub show_context: bool,
}

/// The name and the value of a property.
pub type PairView = (Seq<char>, Seq<char>);

/// What the properties of a list are.
pub open spec fn pairs(list: Seq<(String, String)>) -> Seq<PairView> {
    list.map_values(|p: (String, String)| (p.0@, p.1@))
}

/// The text that may be there.
pub open spec fn text_in(s: Option<String>) -> Option<Seq<char>> {
    match s {
        Some(s) => Some(s@),
        None => None,
    }
}

/// Whether a property called `name` is in the list.
pub open spec fn listed(list: Seq<PairView>, name: Seq<char>) -> bool {
    exists|i: int| 0 <= i < list.len() && (#[trigger] list[i]).0 == name
}

/// `list` with the value of `p` wherever its name is.
pub open spec fn overridden(list: Seq<PairView>, p: PairView) -> Seq<PairView> {
    list.map_values(
        |q: PairView|
            if q.0 == p.0 {
                p
            } else {
                q
            },
    )
}

/// `list` with the properties of `more`, whose values count where a name is in
/// both; new names come last.
pub open spec fn merged(list: Seq<PairView>, more: Seq<PairView>) -> Seq<PairView>
    decreases more.len(),
{
    if more.len() == 0 {
        list
    } else {
        let before = merged(list, more.drop_last());
        if listed(before, more.last().0) {
            overridden(before, more.last())
        } else {
            before.push(more.last())
        }
    }
}

/// The properties called `name`, in the order of the list.
pub open spec fn called(list: Seq<PairView>, name: Seq<char>) -> Seq<PairView> {
    list.filter(|p: PairView| p.0 == name)
}

/// `r` is `list` sorted by name; properties of the same name keep their order.
pub open spec fn sorted_pairs(r: Seq<PairView>, list: Seq<PairView>) -> bool {
    &&& forall|i: int, j: int|
        0 <= i < j < r.len() ==> !name_before((#[trigger] r[j]).0, (#[trigger] r[i]).0)
    &&& forall|name: Seq<char>| #[trigger] called(r, name) == called(list, name)
}

proof fn lemma_called(list: Seq<(String, String)>, name: Seq<char>)
    ensures
        called(pairs(list), name) == pairs(filed(list, name)),
    decreases list.len(),
{
    reveal(Seq::filter);
    if list.len() == 0 {
        assert(called(pairs(list), name) =~= pairs(filed(list, name)));
    } else {
        lemma_called(list.drop_last(), name);
        assert(pairs(list).drop_last() =~= pairs(list.drop_last()));
        assert(pairs(list).last() == (list.last().0@, list.last().1@));
        assert(called(pairs(list), name) =~= pairs(filed(list, name)));
    }
}

proof fn lemma_sorted_pairs(r: Seq<(String, String)>, list: Seq<(String, String)>)
    requires
        sorts(r, list),
    ensures
        sorted_pairs(pairs(r), pairs(list)),
{
    assert forall|i: int, j: int| 0 <= i < j < pairs(r).len() implies !name_before(
        (#[trigger] pairs(r)[j]).0,
        (#[trigger] pairs(r)[i]).0,
    ) by {
        assert(!name_before(r[j].key(), r[i].key()));
    }
    assert forall|name: Seq<char>| #[trigger]
        called(pairs(r), name) == called(pairs(list), name) by {
        lemma_called(r, name);
        lemma_called(list, name);
        assert(filed(r, name) == filed(list, name));
    }
}

/// The key and the value of a line, each without the white space around it.
/// Empty lines, comments and lines without a key or without `=` hold none.
pub open spec fn line_property(line: Seq<char>) -> Option<(Seq<char>, Seq<char>)> {
    let t = trimmed(line);
    if t.len() == 0 || t[0] == '#' {
        None
    } else {
        match split_first(t, '=') {
            None => None,
            Some((key, value)) => if trimmed(key).len() == 0 {
                None
            } else {
                Some((trimmed(key), trimmed(value)))
            },
        }
    }
}

/// The property that a line sets.
pub fn parse_line(line: &str) -> (r: Option<(String, String)>)
    ensures
        match r {
            Some((key, value)) => line_property(line@) == Some((key@, value@)),
            None => line_property(line@) is None,
        },
{
    let chars = chars_of(line);
    let t = trim(chars.as_slice());
    if t.len() == 0 || t[0] == '#' {
        return None;
    }
    match split_at_first(t, '=') {
        None => None,
        Some((key, value)) => {
            let key = trim(key);
            if key.len() == 0 {
                return None;
            }
            Some((text_of(key), text_of(trim(value))))
        },
    }
}

/// Give the properties called `name` the value `value`, and say whether there
/// is one.
fn override_value(list: &mut Vec<(String, String)>, name: &str, value: &str) -> (r: bool)
    ensures
        r == listed(pairs(old(list)@), name@),
        pairs(final(list)@) == overridden(pairs(old(list)@), (name@, value@)),
{
    let ghost before = pairs(list@);
    let ghost after = overridden(before, (name@, value@));
    let mut found = false;
    let mut i: usize = 0;
    while i < list.len()
        invariant
            i <= list@.len(),
            list@.len() == before.len(),
            after == overridden(before, (name@, value@)),
            forall|j: int|
                0 <= j < before.len() ==> #[trigger] pairs(list@)[j] == if j < i {
                    after[j]
                } else {
                    before[j]
                },
            found ==> listed(before, name@),
            !found ==> forall|j: int| 0 <= j < i ==> (#[trigger] before[j]).0 != name@,
        decreases list@.len() - i,
    {
        proof {
            assert(pairs(list@)[i as int] == before[i as int]);
            assert(pairs(list@)[i as int] == (list@[i as int].0@, list@[i as int].1@));
        }
        let ghost now = list@;
        if same_text(list[i].0.as_str(), name) {
            let entry = (String::from_str(name), String::from_str(value));
            list[i] = entry;
            found = true;
            proof {
                assert(before[i as int].0 == name@);
                assert(list@ =~= now.update(i as int, entry));
                assert(pairs(list@) =~= pairs(now).update(i as int, (name@, value@)));
            }
        }
        i = i + 1;
    }
    proof {
        assert(pairs(list@) =~= after);
    }
    found
}

/// Merge the properties of `more` into `list`.
fn merge(list: Vec<(String, String)>, more: &Vec<(String, String)>) -> (r: Vec<(String, String)>)
    ensures
        pairs(r@) == merged(pairs(list@), pairs(more@)),
{
    let mut out = list;
    let mut i: usize = 0;
    let ghost all = pairs(more@);
    proof {
        assert(all.take(0) =~= Seq::<PairView>::empty());
    }
    while i < more.len()
        invariant
            i <= more@.len(),
            all == pairs(more@),
            pairs(out@) == merged(pairs(list@), all.take(i as int)),
        decreases more@.len() - i,
    {
        let ghost next = all.take(i + 1);
        proof {
            assert(next.drop_last() =~= all.take(i as int));
            assert(next.last() == all[i as int]);
        }
        let ghost so_far = pairs(out@);
        if !override_value(&mut out, more[i].0.as_str(), more[i].1.as_str()) {
            proof {
                assert(pairs(out@) =~= so_far);
            }
            let copy = (more[i].0.clone(), more[i].1.clone());
            proof {
                assert(pairs(out@.push(copy)) =~= pairs(out@).push(all[i as int]));
            }
            out.push(copy);
        }
        i = i + 1;
    }
    proof {
        assert(all.take(all.len() as int) =~= all);
    }
    out
}

/// `list` with contexts in place of values; without knowledge of contexts,
/// with nothing in their place.
pub open spec fn with_contexts(list: Seq<PairView>, storage: Option<StorageView>) -> Seq<PairView> {
    list.map_values(
        |p: PairView|
            (
                p.0,
                match storage {
                    Some(v) => v.context_for(p.0),
                    None => Seq::empty(),
                },
            ),
    )
}

fn show_contexts(list: &Vec<(String, String)>, context: Option<&PropertyContext>) -> (r: Vec<
    (String, String),
>)
    ensures
        pairs(r@) == with_contexts(
            pairs(list@),
            match context {
                Some(c) => Some(c@),
                None => None,
            },
        ),
{
    let ghost storage = match context {
        Some(c) => Some(c@),
        None => None,
    };
    let ghost all = with_contexts(pairs(list@), storage);
    let mut out: Vec<(String, String)> = Vec::new();
    let mut i: usize = 0;
    while i < list.len()
        invariant
            i <= list@.len(),
            all == with_contexts(pairs(list@), storage),
            storage == (match context {
                Some(c) => Some(c@),
                None => None,
            }),
            pairs(out@) == all.take(i as int),
        decreases list@.len() - i,
    {
        let label = match context {
            Some(c) => c.get_property_for_name(list[i].0.as_str()),
            None => String::new(),
        };
        proof {
            assert(label@ =~= all[i as int].1);
            assert(pairs(list@)[i as int].0 == list@[i as int].0@);
        }
        let entry = (list[i].0.clone(), label);
        proof {
            assert(pairs(out@.push(entry)) =~= pairs(out@).push(all[i as int]));
            assert(pairs(out@).push(all[i as int]) =~= all.take(i + 1));
        }
        out.push(entry);
        i = i + 1;
    }
    proof {
        assert(all.take(all.len() as int) =~= all);
    }
    out
}

/// The properties that the lines of a file set, in order.
pub open spec fn lines_properties(lines: Seq<String>) -> Seq<PairView>
    decreases lines.len(),
{
    if lines.len() == 0 {
        Seq::empty()
    } else {
        let before = lines_properties(lines.drop_last());
        match line_property(lines.last()@) {
            Some(p) => before.push(p),
            None => before,
        }
    }
}

impl ResetProp {
    /// The properties that the lines of a file set, in order.
    pub fn load_props(lines: &Vec<String>) -> (r: Vec<(String, String)>)
        ensures
            pairs(r@) == lines_properties(lines@),
    {
        let mut out: Vec<(String, String)> = Vec::new();
        let mut i: usize = 0;
        proof {
            assert(lines@.take(0) =~= Seq::<String>::empty());
            assert(pairs(out@) =~= Seq::<PairView>::empty());
        }
        while i < lines.len()
            invariant
                i <= lines@.len(),
                pairs(out@) == lines_properties(lines@.take(i as int)),
            decreases lines@.len() - i,
        {
            proof {
                let next = lines@.take(i + 1);
                assert(next.drop_last() =~= lines@.take(i as int));
                assert(next.last() == lines@[i as int]);
            }
            if let Some(p) = parse_line(lines[i].as_str()) {
                proof {
                    assert(pairs(out@.push(p)) =~= pairs(out@).push((p.0@, p.1@)));
                }
                out.push(p);
            }
            i = i + 1;
        }
        proof {
            assert(lines@.take(lines@.len() as int) =~= lines@);
        }
        out
    }

    /// Whether the running system is asked for a value.
    pub fn asks_system(&self) -> (r: bool)
        ensures
            r == (!self.show_context && !self.persist_only),
    {
        !self.show_context && !self.persist_only
    }

    /// Whether persistent storage is asked for the value of `name`, given
    /// whether the running system had one.
    pub fn asks_storage(&self, name: &str, found: bool) -> (r: bool)
        ensures
            r == (!self.show_context && !found && (self.persistent || self.persist_only)
                && text_starts(name@, PERSIST_PREFIX@)),
    {
        !self.show_context && !found && (self.persistent || self.persist_only) && has_prefix(
            name,
            PERSIST_PREFIX,
        )
    }

    /// What is shown for a property, out of what the sources have for it: its
    /// context, its value in the running system and its stored value.
    pub open spec fn answer(
        self,
        name: Seq<char>,
        context: Option<Seq<char>>,
        system: Option<Seq<char>>,
        stored: Option<Seq<char>>,
    ) -> Option<Seq<char>> {
        if self.show_context {
            context
        } else if !self.persist_only && system is Some {
            system
        } else if (self.persistent || self.persist_only) && text_starts(name, PERSIST_PREFIX@) {
            stored
        } else {
            None
        }
    }

    /// What is shown for a property, out of what the sources have for it.
    pub fn get(
        &self,
        name: &str,
        context: Option<String>,
        system: Option<String>,
        stored: Option<String>,
    ) -> (r: Option<String>)
        ensures
            text_in(r) == self.answer(name@, text_in(context), text_in(system), text_in(stored)),
    {
        if self.show_context {
            return context;
        }
        let found = !self.persist_only && system.is_some();
        if found {
            system
        } else if self.asks_storage(name, found) {
            stored
        } else {
            None
        }
    }

    /// Whether a property that was set is written to persistent storage too.
    /// The property service takes care of that by itself, so it is done only
    /// for writes that go around it.
    pub fn stores_set(&self, name: &str) -> (r: bool)
        ensures
            r == (goes_direct(name@, self.skip_svc) && self.persistent && text_starts(
                name@,
                PERSIST_PREFIX@,
            )),
    {
        bypasses_service(name, self.skip_svc) && self.persistent && has_prefix(
            name,
            PERSIST_PREFIX,
        )
    }

    /// Whether the command-line tool writes a property that was set to persistent
    /// storage too. It does so whichever way the write took: what the property
    /// service has stored already is stored once more.
    pub fn tool_stores_set(&self, name: &str) -> (r: bool)
        ensures
            r == (self.persistent && text_starts(name@, PERSIST_PREFIX@)),
    {
        self.persistent && has_prefix(name, PERSIST_PREFIX)
    }

    /// Whether a property that was asked to be deleted is deleted from persistent
    /// storage too: only where it was there and is deleted now.
    pub fn stores_delete(&self, name: &str, deleted: bool) -> (r: bool)
        ensures
            r == (deleted && self.persistent && text_starts(name@, PERSIST_PREFIX@)),
    {
        deleted && self.persistent && has_prefix(name, PERSIST_PREFIX)
    }

    /// The properties to list, unsorted: those of the running system and those
    /// of persistent storage. A stored value is shown in place of a running one.
    pub open spec fn sources(self, system: Seq<PairView>, stored: Seq<PairView>) -> Seq<PairView> {
        merged(
            if self.persist_only {
                seq![]
            } else {
                system
            },
            if self.persistent || self.persist_only {
                stored
            } else {
                seq![]
            },
        )
    }

    /// All properties in order of their names, with contexts in place of
    /// values where that is asked for.
    pub fn list_all(
        &self,
        system: Vec<(String, String)>,
        stored: Vec<(String, String)>,
        context: Option<&PropertyContext>,
    ) -> (r: Vec<(String, String)>)
        ensures
            exists|list: Seq<PairView>| #[trigger]
                sorted_pairs(list, self.sources(pairs(system@), pairs(stored@))) && pairs(r@)
                    == if self.show_context {
                    with_contexts(
                        list,
                        match context {
                            Some(c) => Some(c@),
                            None => None,
                        },
                    )
                } else {
                    list
                },
    {
        let none: Vec<(String, String)> = Vec::new();
        proof {
            assert(pairs(none@) =~= Seq::<PairView>::empty());
        }
        let first = if self.persist_only {
            let empty: Vec<(String, String)> = Vec::new();
            proof {
                assert(pairs(empty@) =~= Seq::<PairView>::empty());
            }
            empty
        } else {
            system
        };
        let all = if self.persistent || self.persist_only {
            merge(first, &stored)
        } else {
            merge(first, &none)
        };
        let list = sort_by_name(all);
        proof {
            lemma_sorted_pairs(list@, all@);
            assert(Seq::<PairView>::empty() =~= seq![]);
            assert(sorted_pairs(
                pairs(list@),
                self.sources(pairs(system@), pairs(stored@)),
            ));
        }
        if self.show_context {
            show_contexts(&list, context)
        } else {
            list
        }
    }
}

/// What a line of the form `key = value` sets, with any white space around the
/// two.
pub proof fn law_line(
    a: Seq<char>,
    key: Seq<char>,
    b: Seq<char>,
    c: Seq<char>,
    value: Seq<char>,
    d: Seq<char>,
)
    requires
        all_white(a),
        all_white(b),
        all_white(c),
        all_white(d),
        is_solid(key),
        is_solid(value),
        key.len() > 0,
        key[0] != '#',
        !key.contains('='),
    ensures
        line_property(a + key + b + seq!['='] + c + value + d) == Some((key, value)),
{
    let line = a + key + b + seq!['='] + c + value + d;
    let none = Seq::<char>::empty();
    let body = if value.len() == 0 {
        key + b + seq!['=']
    } else {
        key + b + seq!['='] + (c + value)
    };
    let tail = if value.len() == 0 {
        c + d
    } else {
        d
    };
    assert(line =~= a + body + tail);
    assert(all_white(tail)) by {
        assert forall|i: int| 0 <= i < tail.len() implies is_white(#[trigger] tail[i]) by {
            if value.len() == 0 {
                if i < c.len() {
                    assert(tail[i] == c[i]);
                } else {
                    assert(tail[i] == d[i - c.len()]);
                }
            }
        }
    }
    assert(is_solid(body)) by {
        assert(body[0] == key[0]);
        if value.len() > 0 {
            assert(body[body.len() - 1] == value[value.len() - 1]);
        } else {
            assert(body[body.len() - 1] == '=');
        }
    }
    law_trimmed(a, body, tail);
    assert(body[0] == key[0]);
    let front = key + b;
    assert(!front.contains('=')) by {
        if front.contains('=') {
            let i = choose|i: int| 0 <= i < front.len() && front[i] == '=';
            if i < key.len() {
                assert(key[i] == '=');
                assert(key.contains(key[i]));
            } else {
                assert(is_white(b[i - key.len()]));
            }
        }
    }
    let back = if value.len() == 0 {
        none
    } else {
        c + value
    };
    assert(body =~= front + seq!['='] + back);
    law_split_first(front, '=', back);
    law_trimmed(none, key, b);
    assert(none + key + b =~= front);
    if value.len() == 0 {
        law_trimmed(none, none, none);
        assert(none + none + none =~= none);
        assert(value =~= none);
    } else {
        law_trimmed(c, value, none);
        assert(c + value + none =~= back);
    }
}

/// Comments, lines without a key and lines without `=` set nothing.
pub proof fn law_line_without_property(a: Seq<char>, b: Seq<char>)
    requires
        all_white(a),
    ensures
        line_property(a) is None,
        is_solid(b) ==> line_property(a + seq!['#'] + b) is None,
        is_solid(b) ==> line_property(a + seq!['='] + b) is None,
        is_solid(b) && !b.contains('=') ==> line_property(a + b) is None,
{
    let none = Seq::<char>::empty();
    law_trimmed(a, none, none);
    assert(a + none + none =~= a);
    if is_solid(b) {
        let comment = seq!['#'] + b;
        assert(comment[comment.len() - 1] == if b.len() > 0 {
            b[b.len() - 1]
        } else {
            '#'
        });
        law_trimmed(a, comment, none);
        assert(a + comment + none =~= a + seq!['#'] + b);
        assert(comment[0] == '#');
        let keyless = seq!['='] + b;
        assert(keyless[keyless.len() - 1] == if b.len() > 0 {
            b[b.len() - 1]
        } else {
            '='
        });
        law_trimmed(a, keyless, none);
        assert(a + keyless + none =~= a + seq!['='] + b);
        assert(keyless[0] == '=');
        law_split_first(none, '=', b);
        assert(none + seq!['='] + b =~= keyless);
        law_trimmed(none, none, none);
        assert(none + none + none =~= none);
        if !b.contains('=') {
            law_trimmed(a, b, none);
            assert(a + b + none =~= a + b);
            law_split_first(b, '=', none);
        }
    }
}

/// The lines of a file are taken one after the other, each for itself.
pub proof fn law_lines_in_turn(a: Seq<String>, b: Seq<String>)
    ensures
        lines_properties(a + b) == lines_properties(a) + lines_properties(b),
    decreases b.len(),
{
    if b.len() == 0 {
        assert(a + b =~= a);
        assert(lines_properties(a) + lines_properties(b) =~= lines_properties(a));
    } else {
        law_lines_in_turn(a, b.drop_last());
        assert((a + b).drop_last() =~= a + b.drop_last());
        assert((a + b).last() == b.last());
        assert(lines_properties(a + b) =~= lines_properties(a) + lines_properties(b));
    }
}

/// A file of one line sets what that line sets.
pub proof fn law_one_line(line: String)
    ensures
        lines_properties(seq![line]) == match line_property(line@) {
            Some(p) => seq![p],
            None => seq![],
        },
{
    assert(seq![line].drop_last() =~= Seq::<String>::empty());
    assert(lines_properties(seq![line].drop_last()) =~= Seq::<PairView>::empty());
    assert(seq![line].last() == line);
    assert(lines_properties(seq![line]) =~= match line_property(line@) {
        Some(p) => seq![p],
        None => seq![],
    });
}

/// Where the answer for a property comes from. With contexts asked for it is the
/// context. Else it is the value of the running system, unless only stored ones
/// are asked for; where there is none, the stored value, if stored values are
/// asked for and the property is a persistent one; and else nothing.
pub proof fn law_answer(
    r: ResetProp,
    name: Seq<char>,
    context: Option<Seq<char>>,
    system: Option<Seq<char>>,
    stored: Option<Seq<char>>,
)
    ensures
        ({
            let answer = r.answer(name, context, system, stored);
            let runs = !r.persist_only && system is Some;
            let kept = (r.persistent || r.persist_only) && text_starts(name, "persist."@);
            &&& r.show_context ==> answer == context
            &&& !r.show_context && runs ==> answer == system
            &&& !r.show_context && !runs && kept ==> answer == stored
            &&& !r.show_context && !runs && !kept ==> answer is None
        }),
{
}

/// The value that the last property called `name` has in a list.
pub open spec fn last_value(list: Seq<PairView>, name: Seq<char>) -> Option<Seq<char>>
    decreases list.len(),
{
    if list.len() == 0 {
        None
    } else if list.last().0 == name {
        Some(list.last().1)
    } else {
        last_value(list.drop_last(), name)
    }
}

proof fn lemma_last_value(list: Seq<PairView>, name: Seq<char>)
    ensures
        last_value(list, name) is Some <==> listed(list, name),
    decreases list.len(),
{
    if list.len() > 0 {
        let before = list.drop_last();
        lemma_last_value(before, name);
        if listed(before, name) {
            let i = choose|i: int| 0 <= i < before.len() && (#[trigger] before[i]).0 == name;
            assert(list[i].0 == name);
        }
        if listed(list, name) && list.last().0 != name {
            let i = choose|i: int| 0 <= i < list.len() && (#[trigger] list[i]).0 == name;
            assert(before[i].0 == name);
        }
        if list.last().0 == name {
            assert(list[list.len() - 1].0 == name);
        }
    }
}

/// The properties of two lists as one: the names of the first come first and in
/// their order, and every other name of the second follows once. A property has
/// the value that it has last in the second list; where it is not there, that of
/// the first one.
pub proof fn law_merged(list: Seq<PairView>, more: Seq<PairView>)
    ensures
        ({
            let all = merged(list, more);
            let n = list.len() as int;
            &&& all.len() >= n
            &&& forall|name: Seq<char>| #[trigger]
                listed(all, name) <==> listed(list, name) || listed(more, name)
            &&& forall|i: int| 0 <= i < n ==> (#[trigger] all[i]).0 == list[i].0
            &&& forall|i: int, j: int|
                n <= i < all.len() && 0 <= j < i ==> (#[trigger] all[i]).0 != (#[trigger] all[j]).0
            &&& forall|i: int|
                0 <= i < all.len() ==> (#[trigger] all[i]).1 == match last_value(more, all[i].0) {
                    Some(v) => v,
                    None => list[i].1,
                }
        }),
    decreases more.len(),
{
    let all = merged(list, more);
    let n = list.len() as int;
    if more.len() > 0 {
        let p = more.last();
        let less = more.drop_last();
        let before = merged(list, less);
        law_merged(list, less);
        assert(more[more.len() - 1] == p);
        let there = listed(before, p.0);
        assert(all.len() == if there {
            before.len()
        } else {
            before.len() + 1
        });
        assert forall|i: int| 0 <= i < before.len() implies (#[trigger] all[i]).0 == before[i].0 && (
        before[i].0 == p.0 ==> all[i].1 == p.1) && (before[i].0 != p.0 ==> all[i] == before[i]) by {
            if !there && before[i].0 == p.0 {
                assert(listed(before, p.0));
            }
        }
        assert forall|name: Seq<char>| #[trigger] listed(all, name) <==> listed(list, name)
            || listed(more, name) by {
            lemma_listed_more(more, name);
            assert(listed(before, name) <==> listed(list, name) || listed(less, name));
            if listed(all, name) {
                let i = choose|i: int| 0 <= i < all.len() && (#[trigger] all[i]).0 == name;
                if i < before.len() {
                    assert(before[i].0 == name);
                }
            }
            if listed(before, name) {
                let i = choose|i: int| 0 <= i < before.len() && (#[trigger] before[i]).0 == name;
                assert(all[i].0 == name);
            }
            if name == p.0 && !there {
                assert(all[before.len() as int].0 == name);
            }
        }
        assert forall|i: int, j: int| n <= i < all.len() && 0 <= j < i implies (#[trigger] all[i]).0
            != (#[trigger] all[j]).0 by {
            if i < before.len() {
                assert(before[i].0 != before[j].0);
            } else {
                assert(all[j].0 == before[j].0);
            }
        }
        assert forall|i: int| 0 <= i < all.len() implies (#[trigger] all[i]).1 == match last_value(
            more,
            all[i].0,
        ) {
            Some(v) => v,
            None => list[i].1,
        } by {
            if i < before.len() {
                assert(all[i].0 == before[i].0);
                assert(before[i].1 == match last_value(less, before[i].0) {
                    Some(v) => v,
                    None => list[i].1,
                });
            }
        }
    } else {
        assert forall|name: Seq<char>| #[trigger] listed(all, name) <==> listed(list, name)
            || listed(more, name) by {}
    }
}

proof fn lemma_listed_more(list: Seq<PairView>, name: Seq<char>)
    requires
        list.len() > 0,
    ensures
        listed(list, name) <==> listed(list.drop_last(), name) || list.last().0 == name,
{
    let before = list.drop_last();
    if listed(list, name) {
        let i = choose|i: int| 0 <= i < list.len() && (#[trigger] list[i]).0 == name;
        if i < before.len() {
            assert(before[i].0 == name);
        }
    }
    if listed(before, name) {
        let i = choose|i: int| 0 <= i < before.len() && (#[trigger] before[i]).0 == name;
        assert(list[i].0 == name);
    }
    if list.last().0 == name {
        assert(list[list.len() - 1].0 == name);
    }
}

/// Which properties are listed: those of the running system, unless only stored
/// ones are asked for, and the stored ones where they are asked for.
pub proof fn law_sources(r: ResetProp, system: Seq<PairView>, stored: Seq<PairView>)
    ensures
        ({
            let all = r.sources(system, stored);
            let keeps = r.persistent || r.persist_only;
            &&& forall|name: Seq<char>| #[trigger]
                listed(all, name) <==> (!r.persist_only && listed(system, name)) || (keeps && listed(
                    stored,
                    name,
                ))
            &&& !keeps ==> all == system
            &&& forall|i: int|
                0 <= i < all.len() && keeps && listed(stored, (#[trigger] all[i]).0) ==> Some(
                    all[i].1,
                ) == last_value(stored, all[i].0)
        }),
{
    let first = if r.persist_only {
        seq![]
    } else {
        system
    };
    let second = if r.persistent || r.persist_only {
        stored
    } else {
        seq![]
    };
    law_merged(first, second);
    let all = r.sources(system, stored);
    assert forall|name: Seq<char>| #[trigger] listed(all, name) <==> (!r.persist_only && listed(
        system,
        name,
    )) || ((r.persistent || r.persist_only) && listed(stored, name)) by {
        assert(listed(all, name) <==> listed(first, name) || listed(second, name));
    }
    assert forall|i: int|
        0 <= i < all.len() && (r.persistent || r.persist_only) && listed(
            stored,
            (#[trigger] all[i]).0,
        ) implies Some(all[i].1) == last_value(stored, all[i].0) by {
        lemma_last_value(stored, all[i].0);
    }
}

/// With contexts asked for, every property is listed with its context, or with
/// nothing where contexts are not known.
pub proof fn law_with_contexts(list: Seq<PairView>, storage: Option<StorageView>)
    ensures
        ({
            let shown = with_contexts(list, storage);
            &&& shown.len() == list.len()
            &&& forall|i: int|
                0 <= i < list.len() ==> (#[trigger] shown[i]).0 == list[i].0 && match storage {
                    Some(v) => shown[i].1 == v.context_for(list[i].0),
                    None => shown[i].1.len() == 0,
                }
        }),
{
}

} // verus!
