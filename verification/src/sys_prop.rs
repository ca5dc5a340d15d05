//! Decisions around the live property service: which way a write takes, under
//! which name an override is kept, and when waiting for a property ends.
use vstd::prelude::*;
use vstd::utf8::{
    is_char_boundary, length_of_first_scalar, pop_first_scalar, valid_utf8,
};
use crate::bytes::{lemma_bytes_round_trip, text_bytes};
use crate::prop_info::PROP_VALUE_MAX;
use crate::text::{has_prefix, same_text, text_starts};

verus! {

/// What the names of read-only properties start with.
pub const READ_ONLY_PREFIX: &'static str = "ro.";

/// What the names of overrides for compatibility start with.
pub const APPCOMPAT_PREFIX: &'static str = "ro.appcompat_override.";

/// The way that a write takes.
#[derive(Debug, Clone, Copy, PartialEq, Eq, Structural)]
pub enum SetRoute {
    /// Straight to shared memory.
    Direct,
    /// Through the property service.
    Service,
    /// Nowhere: the value is too long for a property that can change.
    TooLong { len: usize, max_len: usize },
}

/// Whether a write goes around the property service.
pub open spec fn goes_direct(key: Seq<char>, skip_svc: bool) -> bool {
    skip_svc || text_starts(key, READ_ONLY_PREFIX@)
}

/// The way that a write takes. Only read-only properties take values of any
/// length.
pub open spec fn set_route(key: Seq<char>, value: Seq<char>, skip_svc: bool) -> SetRoute {
    if !text_starts(key, READ_ONLY_PREFIX@) && text_bytes(value).len() >= PROP_VALUE_MAX {
        SetRoute::TooLong { len: text_bytes(value).len() as usize, max_len: PROP_VALUE_MAX }
    } else if goes_direct(key, skip_svc) {
        SetRoute::Direct
    } else {
        SetRoute::Service
    }
}

/// The way that a write takes.
pub fn route_set(key: &str, value: &str, skip_svc: bool) -> (r: SetRoute)
    ensures
        r == set_route(key@, value@, skip_svc),
{
    let read_only = has_prefix(key, READ_ONLY_PREFIX);
    let len = value.as_bytes().len();
    if !read_only && len >= PROP_VALUE_MAX {
        SetRoute::TooLong { len, max_len: PROP_VALUE_MAX }
    } else if skip_svc || read_only {
        SetRoute::Direct
    } else {
        SetRoute::Service
    }
}

/// Whether a write goes around the property service.
pub fn bypasses_service(key: &str, skip_svc: bool) -> (r: bool)
    ensures
        r == goes_direct(key@, skip_svc),
{
    skip_svc || has_prefix(key, READ_ONLY_PREFIX)
}

/// Behind ASCII bytes there is a boundary between characters.
proof fn lemma_ascii_boundary(b: Seq<u8>, n: int)
    requires
        valid_utf8(b),
        0 <= n <= b.len(),
        forall|i: int| 0 <= i < n ==> b[i] < 0x80,
    ensures
        is_char_boundary(b, n),
    decreases n,
{
    if n > 0 {
        assert(b[0] < 0x80);
        let rest = pop_first_scalar(b);
        assert(length_of_first_scalar(b) == 1);
        assert(rest =~= b.subrange(1, b.len() as int));
        assert forall|i: int| 0 <= i < n - 1 implies rest[i] < 0x80 by {
            assert(rest[i] == b[i + 1]);
        }
        lemma_ascii_boundary(rest, n - 1);
    }
}

/// The name of the property that a compatibility override is for: the name
/// without the prefix of overrides.
pub fn strip_appcompat_prefix(key: &str) -> (r: &str)
    ensures
        text_starts(key@, APPCOMPAT_PREFIX@) ==> text_bytes(key@) == text_bytes(
            APPCOMPAT_PREFIX@,
        ) + text_bytes(r@),
        !text_starts(key@, APPCOMPAT_PREFIX@) ==> r@ == key@,
{
    if !has_prefix(key, APPCOMPAT_PREFIX) {
        return key;
    }
    let n = APPCOMPAT_PREFIX.as_bytes().len();
    proof {
        reveal_strlit("ro.appcompat_override.");
        vstd::utf8::is_ascii_chars_encode_utf8(APPCOMPAT_PREFIX@);
        lemma_bytes_round_trip(key@);
        let b = text_bytes(key@);
        let p = text_bytes(APPCOMPAT_PREFIX@);
        assert forall|i: int| 0 <= i < n implies b[i] < 0x80 by {
            assert(b.take(n as int)[i] == b[i]);
            assert(p[i] < 0x80);
        }
        lemma_ascii_boundary(b, n as int);
    }
    let (head, tail) = key.split_at(n);
    proof {
        let b = text_bytes(key@);
        assert(b =~= b.take(n as int) + b.skip(n as int));
        assert(b.skip(n as int) =~= b.subrange(n as int, b.len() as int));
    }
    tail
}

/// What someone who waits for a property does next.
#[derive(Debug, Clone, Copy, PartialEq, Eq, Structural)]
pub enum WaitAction {
    /// Look whether the time is up.
    CheckTime,
    /// Look for the property.
    Find,
    /// Read the value of the property.
    Read,
    /// Sleep until the serial of all changes moves, or the time is up.
    SleepOnAll,
    /// Sleep until the serial of the property moves, or the time is up.
    SleepOnProperty,
    /// Report whether what was waited for came about.
    Finish(bool),
}

/// What came of it.
pub enum WaitEvent {
    /// The time is up, or not.
    Time { expired: bool },
    /// The property is there, or not.
    Found(bool),
    /// The value of the property, where it could be read.
    Value(Option<String>),
    /// The serial moved, or not.
    Woken { changed: bool },
}

/// What came of it.
pub enum EventView {
    Time(bool),
    Found(bool),
    Value(Option<Seq<char>>),
    Woken(bool),
}

impl View for WaitEvent {
    type V = EventView;

    open spec fn view(&self) -> EventView {
        match *self {
            WaitEvent::Time { expired } => EventView::Time(expired),
            WaitEvent::Found(found) => EventView::Found(found),
            WaitEvent::Value(Some(value)) => EventView::Value(Some(value@)),
            WaitEvent::Value(None) => EventView::Value(None),
            WaitEvent::Woken { changed } => EventView::Woken(changed),
        }
    }
}

/// Waiting for a property to be there, and to have another value than the
/// given one where one is given.
pub struct Wait {
    old_value: Option<String>,
    timed: bool,
    on_all: bool,
    present: bool,
    action: WaitAction,
}

/// Where waiting for a property stands.
pub struct WaitView {
    /// The value that the property is to leave.
    pub old_value: Option<Seq<char>>,
    /// Whether there is a time limit.
    pub timed: bool,
    /// Whether there is a serial of all changes to sleep on.
    pub on_all: bool,
    /// Whether the property was found.
    pub present: bool,
    /// What to do next.
    pub action: WaitAction,
}

impl View for Wait {
    type V = WaitView;

    closed spec fn view(&self) -> WaitView {
        WaitView {
            old_value: match self.old_value {
                Some(s) => Some(s@),
                None => None,
            },
            timed: self.timed,
            on_all: self.on_all,
            present: self.present,
            action: self.action,
        }
    }
}

impl WaitView {
    /// What to do once an event came in. An event that was not asked for
    /// changes nothing.
    pub open spec fn after(self, event: EventView) -> WaitView {
        let next = |action: WaitAction| WaitView { action, ..self };
        match (self.action, event) {
            (WaitAction::Find, EventView::Found(found)) => if !found {
                next(WaitAction::CheckTime)
            } else {
                WaitView {
                    present: true,
                    action: if self.old_value is None {
                        WaitAction::Finish(true)
                    } else {
                        WaitAction::Read
                    },
                    ..self
                }
            },
            (WaitAction::Read, EventView::Value(value)) => next(
                if value is Some && value != self.old_value {
                    WaitAction::Finish(true)
                } else {
                    WaitAction::CheckTime
                },
            ),
            (WaitAction::CheckTime, EventView::Time(expired)) => next(
                if expired && self.timed {
                    WaitAction::Finish(false)
                } else if self.present && !self.on_all {
                    WaitAction::SleepOnProperty
                } else {
                    WaitAction::SleepOnAll
                },
            ),
            (WaitAction::SleepOnAll, EventView::Woken(changed)) => next(self.awake(changed)),
            (WaitAction::SleepOnProperty, EventView::Woken(changed)) => next(self.awake(changed)),
            _ => self,
        }
    }

    /// What to do after sleeping: look again, unless the time ran out meanwhile.
    pub open spec fn awake(self, changed: bool) -> WaitAction {
        if !changed && self.timed {
            WaitAction::Finish(false)
        } else if self.present {
            WaitAction::Read
        } else {
            WaitAction::Find
        }
    }

    /// Where waiting stands after a number of events.
    pub open spec fn after_all(self, events: Seq<EventView>) -> WaitView
        decreases events.len(),
    {
        if events.len() == 0 {
            self
        } else {
            self.after_all(events.drop_last()).after(events.last())
        }
    }
}

impl Wait {
    /// Start to wait for a property.
    pub fn new(old_value: Option<String>, timed: bool, on_all: bool) -> (r: Wait)
        ensures
            r@ == (WaitView {
                old_value: match old_value {
                    Some(s) => Some(s@),
                    None => None,
                },
                timed,
                on_all,
                present: false,
                action: WaitAction::Find,
            }),
    {
        Wait { old_value, timed, on_all, present: false, action: WaitAction::Find }
    }

    /// What to do next.
    pub fn action(&self) -> (r: WaitAction)
        ensures
            r == self@.action,
    {
        self.action
    }

    fn awake(&self, changed: bool) -> (r: WaitAction)
        ensures
            r == self@.awake(changed),
    {
        if !changed && self.timed {
            WaitAction::Finish(false)
        } else if self.present {
            WaitAction::Read
        } else {
            WaitAction::Find
        }
    }

    /// Whether a value is another than the one to leave.
    fn has_left(&self, value: &Option<String>) -> (r: bool)
        ensures
            r == (match *value {
                Some(v) => self@.old_value != Some(v@),
                None => false,
            }),
    {
        match value {
            None => false,
            Some(v) => match &self.old_value {
                None => true,
                Some(old) => !same_text(v.as_str(), old.as_str()),
            },
        }
    }

    /// Take in an event.
    pub fn advance(&mut self, event: &WaitEvent)
        ensures
            final(self)@ == old(self)@.after(event@),
    {
        match (self.action, event) {
            (WaitAction::Find, WaitEvent::Found(found)) => {
                if !*found {
                    self.action = WaitAction::CheckTime;
                } else {
                    self.present = true;
                    self.action = if self.old_value.is_none() {
                        WaitAction::Finish(true)
                    } else {
                        WaitAction::Read
                    };
                }
            },
            (WaitAction::Read, WaitEvent::Value(value)) => {
                self.action = if self.has_left(value) {
                    WaitAction::Finish(true)
                } else {
                    WaitAction::CheckTime
                };
            },
            (WaitAction::CheckTime, WaitEvent::Time { expired }) => {
                self.action = if *expired && self.timed {
                    WaitAction::Finish(false)
                } else if self.present && !self.on_all {
                    WaitAction::SleepOnProperty
                } else {
                    WaitAction::SleepOnAll
                };
            },
            (WaitAction::SleepOnAll, WaitEvent::Woken { changed }) => {
                self.action = self.awake(*changed);
            },
            (WaitAction::SleepOnProperty, WaitEvent::Woken { changed }) => {
                self.action = self.awake(*changed);
            },
            _ => {},
        }
    }
}

/// The event shows another value than `v`.
pub open spec fn shows_other(event: EventView, v: Seq<char>) -> bool {
    event matches EventView::Value(Some(w)) && w != v
}

/// The events show what was waited for: the property was found, or its value
/// was read and is another than the one to leave.
pub open spec fn fulfilled(old_value: Option<Seq<char>>, events: Seq<EventView>) -> bool {
    match old_value {
        None => events.contains(EventView::Found(true)),
        Some(v) => exists|i: int| 0 <= i < events.len() && shows_other(#[trigger] events[i], v),
    }
}

/// The events show that the time ran out.
pub open spec fn ran_out(events: Seq<EventView>) -> bool {
    events.contains(EventView::Time(true)) || events.contains(EventView::Woken(false))
}

/// The first look for the property finds it.
pub open spec fn found_at_once(events: Seq<EventView>, i: int) -> bool {
    &&& 0 <= i < events.len()
    &&& events[i] == EventView::Found(true)
    &&& forall|k: int| 0 <= k < i ==> !(#[trigger] events[k] is Found)
}

/// The first value that is read after the event at `i` is another than `v`.
pub open spec fn left_at_once(events: Seq<EventView>, i: int, j: int, v: Seq<char>) -> bool {
    &&& i < j < events.len()
    &&& shows_other(events[j], v)
    &&& forall|k: int| i < k < j ==> !(#[trigger] events[k] is Value)
}

proof fn lemma_wait(start: WaitView, events: Seq<EventView>)
    requires
        start.action == WaitAction::Find,
        !start.present,
    ensures
        ({
            let w = start.after_all(events);
            &&& w.old_value == start.old_value
            &&& w.timed == start.timed
            &&& w.on_all == start.on_all
            &&& w.action == WaitAction::Finish(true) ==> fulfilled(start.old_value, events)
            &&& w.action == WaitAction::Finish(false) ==> start.timed && ran_out(events)
            &&& w.present && w.action != WaitAction::Finish(true) ==> start.old_value is Some
            &&& w.action == WaitAction::Read ==> w.present
        }),
    decreases events.len(),
{
    if events.len() > 0 {
        let before = events.drop_last();
        lemma_wait(start, before);
        let w = start.after_all(before);
        if w.action == WaitAction::Finish(true) {
            match start.old_value {
                None => {
                    let i = before.index_of(EventView::Found(true));
                    assert(events[i] == EventView::Found(true));
                },
                Some(v) => {
                    let i = choose|i: int|
                        0 <= i < before.len() && shows_other(#[trigger] before[i], v);
                    assert(events[i] == before[i]);
                },
            }
        } else if w.action == WaitAction::Finish(false) {
            if before.contains(EventView::Time(true)) {
                let i = before.index_of(EventView::Time(true));
                assert(events[i] == EventView::Time(true));
            } else {
                let i = before.index_of(EventView::Woken(false));
                assert(events[i] == EventView::Woken(false));
            }
        } else {
            let n = events.len() - 1;
            assert(events[n] == events.last());
        }
    }
}

/// Where waiting stands while the first look is under way.
proof fn lemma_first_look(start: WaitView, events: Seq<EventView>, i: int, j: int, n: int)
    requires
        start.action == WaitAction::Find,
        found_at_once(events, i),
        0 <= n <= events.len(),
    ensures
        n <= i ==> start.after_all(events.take(n)) == start,
        n > i && start.old_value is None ==> start.after_all(events.take(n)).action
            == WaitAction::Finish(true),
        n > i && start.old_value is Some && left_at_once(events, i, j, start.old_value->0)
            ==> start.after_all(events.take(n)) == (WaitView {
            present: true,
            action: if n > j {
                WaitAction::Finish(true)
            } else {
                WaitAction::Read
            },
            ..start
        }),
    decreases n,
{
    if n > 0 {
        lemma_first_look(start, events, i, j, n - 1);
        assert(events.take(n).drop_last() =~= events.take(n - 1));
        assert(events.take(n).last() == events[n - 1]);
    }
}

/// Waiting reports success only where what was waited for was seen, and
/// failure only where there is a time limit and the time ran out.
///
/// Where the first look finds what is waited for, waiting succeeds, however
/// little time there is.
pub proof fn law_wait(start: WaitView, events: Seq<EventView>)
    requires
        start.action == WaitAction::Find,
        !start.present,
    ensures
        start.after_all(events).action == WaitAction::Finish(true) ==> fulfilled(
            start.old_value,
            events,
        ),
        start.after_all(events).action == WaitAction::Finish(false) ==> start.timed && ran_out(
            events,
        ),
        match start.old_value {
            None => forall|i: int| #[trigger]
                found_at_once(events, i) ==> start.after_all(events).action
                    == WaitAction::Finish(true),
            Some(v) => forall|i: int, j: int|
                #![trigger left_at_once(events, i, j, v)]
                found_at_once(events, i) && left_at_once(events, i, j, v) ==> start.after_all(
                    events,
                ).action == WaitAction::Finish(true),
        },
{
    lemma_wait(start, events);
    let n = events.len() as int;
    assert(events.take(n) =~= events);
    match start.old_value {
        None => {
            assert forall|i: int| #[trigger] found_at_once(events, i) implies start.after_all(
                events,
            ).action == WaitAction::Finish(true) by {
                lemma_first_look(start, events, i, i, n);
            }
        },
        Some(v) => {
            assert forall|i: int, j: int|
                #![trigger left_at_once(events, i, j, v)]
                found_at_once(events, i) && left_at_once(events, i, j, v) implies start.after_all(
                events,
            ).action == WaitAction::Finish(true) by {
                lemma_first_look(start, events, i, j, n);
            }
        },
    }
}

/// Looks that do not end the wait: after each of them the time is not up, and
/// the sleep that follows ends because something changed.
pub open spec fn rounds(looks: Seq<EventView>) -> Seq<EventView>
    decreases looks.len(),
{
    if looks.len() == 0 {
        Seq::empty()
    } else {
        rounds(looks.drop_last()) + seq![
            looks.last(),
            EventView::Time(false),
            EventView::Woken(true),
        ]
    }
}

/// Every look finds no property.
pub open spec fn all_missing(looks: Seq<EventView>) -> bool {
    forall|i: int| 0 <= i < looks.len() ==> #[trigger] looks[i] == EventView::Found(false)
}

/// The event shows `v`, or that the value could not be read.
pub open spec fn shows_same(event: EventView, v: Seq<char>) -> bool {
    event == EventView::Value(Some(v)) || event == EventView::Value(None)
}

/// Every look reads `v`, or nothing.
pub open spec fn all_same(looks: Seq<EventView>, v: Seq<char>) -> bool {
    forall|i: int| 0 <= i < looks.len() ==> shows_same(#[trigger] looks[i], v)
}

/// Events are taken in one after the other.
proof fn lemma_after_more(w: WaitView, a: Seq<EventView>, b: Seq<EventView>)
    ensures
        w.after_all(a + b) == w.after_all(a).after_all(b),
    decreases b.len(),
{
    if b.len() == 0 {
        assert(a + b =~= a);
    } else {
        lemma_after_more(w, a, b.drop_last());
        assert((a + b).drop_last() =~= a + b.drop_last());
        assert((a + b).last() == b.last());
    }
}

/// Three events in a row.
proof fn lemma_after_three(w: WaitView, a: EventView, b: EventView, c: EventView)
    ensures
        w.after_all(seq![a, b, c]) == w.after(a).after(b).after(c),
{
    let abc = seq![a, b, c];
    let ab = abc.drop_last();
    let just = ab.drop_last();
    assert(just.drop_last() =~= Seq::<EventView>::empty());
    assert(w.after_all(just.drop_last()) == w);
    assert(w.after_all(just) == w.after(a));
    assert(w.after_all(ab) == w.after(a).after(b));
}

/// One event more.
proof fn lemma_after_one(w: WaitView, events: Seq<EventView>, e: EventView)
    ensures
        w.after_all(events.push(e)) == w.after_all(events).after(e),
{
    assert(events.push(e).drop_last() =~= events);
}

/// Looks that find nothing lead back to the first look.
proof fn lemma_missing_rounds(w: WaitView, looks: Seq<EventView>)
    requires
        w.action == WaitAction::Find,
        !w.present,
        all_missing(looks),
    ensures
        w.after_all(rounds(looks)) == w,
    decreases looks.len(),
{
    if looks.len() > 0 {
        let before = looks.drop_last();
        assert(all_missing(before)) by {
            assert forall|i: int| 0 <= i < before.len() implies #[trigger] before[i]
                == EventView::Found(false) by {
                assert(before[i] == looks[i]);
            }
        }
        lemma_missing_rounds(w, before);
        let (e, t, c) = (looks.last(), EventView::Time(false), EventView::Woken(true));
        assert(looks[looks.len() - 1] == e);
        lemma_after_more(w, rounds(before), seq![e, t, c]);
        lemma_after_three(w, e, t, c);
    }
}

/// Looks that read the value to leave lead back to reading.
proof fn lemma_same_rounds(w: WaitView, looks: Seq<EventView>, v: Seq<char>)
    requires
        w.action == WaitAction::Read,
        w.present,
        w.old_value == Some(v),
        all_same(looks, v),
    ensures
        w.after_all(rounds(looks)) == w,
    decreases looks.len(),
{
    if looks.len() > 0 {
        let before = looks.drop_last();
        assert(all_same(before, v)) by {
            assert forall|i: int| 0 <= i < before.len() implies shows_same(#[trigger] before[i], v) by {
                assert(before[i] == looks[i]);
            }
        }
        lemma_same_rounds(w, before, v);
        let (e, t, c) = (looks.last(), EventView::Time(false), EventView::Woken(true));
        assert(shows_same(looks[looks.len() - 1], v));
        lemma_after_more(w, rounds(before), seq![e, t, c]);
        lemma_after_three(w, e, t, c);
    }
}

/// Waiting for a property to be there: however often it was not, it is looked
/// for again after every sleep that a change ended, and finding it ends the wait
/// with success, or leads to reading its value where one is to be left. While it
/// is missing, waiting sleeps on the serial of all changes.
///
/// Where there is a time limit, waiting fails as soon as the time is up, whether
/// that shows before a sleep or after it. Where there is none, it goes on.
pub proof fn law_wait_for_property(start: WaitView, looks: Seq<EventView>)
    requires
        start.action == WaitAction::Find,
        !start.present,
        all_missing(looks),
    ensures
        ({
            let w = start.after_all(rounds(looks));
            let before = w.after(EventView::Found(false));
            let asleep = before.after(EventView::Time(false));
            &&& w == start
            &&& w.after(EventView::Found(true)) == (WaitView {
                present: true,
                action: if start.old_value is None {
                    WaitAction::Finish(true)
                } else {
                    WaitAction::Read
                },
                ..start
            })
            &&& before.action == WaitAction::CheckTime
            &&& asleep.action == WaitAction::SleepOnAll
            &&& asleep.after(EventView::Woken(true)).action == WaitAction::Find
            &&& start.timed ==> before.after(EventView::Time(true)).action == WaitAction::Finish(
                false,
            )
            &&& start.timed ==> asleep.after(EventView::Woken(false)).action == WaitAction::Finish(
                false,
            )
            &&& !start.timed ==> before.after(EventView::Time(true)) == asleep
            &&& !start.timed ==> asleep.after(EventView::Woken(false)).action == WaitAction::Find
        }),
{
    lemma_missing_rounds(start, looks);
}

/// Waiting for a property to leave a value: however often that value was read,
/// or none could be, the value is read again after every sleep that a change
/// ended, and any other value ends the wait with success. Waiting sleeps on the
/// serial of all changes where there is one, else on that of the property.
///
/// Where there is a time limit, waiting fails as soon as the time is up, whether
/// that shows before a sleep or after it. Where there is none, it goes on.
pub proof fn law_wait_for_change(
    start: WaitView,
    looks: Seq<EventView>,
    reads: Seq<EventView>,
    v: Seq<char>,
    read: EventView,
)
    requires
        start.action == WaitAction::Find,
        !start.present,
        start.old_value == Some(v),
        all_missing(looks),
        all_same(reads, v),
        shows_same(read, v),
    ensures
        ({
            let w = start.after_all(
                rounds(looks).push(EventView::Found(true)) + rounds(reads),
            );
            let before = w.after(read);
            let asleep = before.after(EventView::Time(false));
            &&& w.action == WaitAction::Read
            &&& forall|x: Seq<char>|
                x != v ==> (#[trigger] w.after(EventView::Value(Some(x)))).action
                    == WaitAction::Finish(true)
            &&& before.action == WaitAction::CheckTime
            &&& asleep.action == if start.on_all {
                WaitAction::SleepOnAll
            } else {
                WaitAction::SleepOnProperty
            }
            &&& asleep.after(EventView::Woken(true)).action == WaitAction::Read
            &&& start.timed ==> before.after(EventView::Time(true)).action == WaitAction::Finish(
                false,
            )
            &&& start.timed ==> asleep.after(EventView::Woken(false)).action == WaitAction::Finish(
                false,
            )
            &&& !start.timed ==> before.after(EventView::Time(true)) == asleep
            &&& !start.timed ==> asleep.after(EventView::Woken(false)).action == WaitAction::Read
        }),
{
    lemma_missing_rounds(start, looks);
    let found = rounds(looks).push(EventView::Found(true));
    lemma_after_one(start, rounds(looks), EventView::Found(true));
    let w = start.after_all(found);
    lemma_after_more(start, found, rounds(reads));
    lemma_same_rounds(w, reads, v);
}

/// The event answers what was asked for.
pub open spec fn answers(action: WaitAction, event: EventView) -> bool {
    match event {
        EventView::Time(_) => action == WaitAction::CheckTime,
        EventView::Found(_) => action == WaitAction::Find,
        EventView::Value(_) => action == WaitAction::Read,
        EventView::Woken(_) => action == WaitAction::SleepOnAll || action
            == WaitAction::SleepOnProperty,
    }
}

/// What was not asked for changes nothing, and nothing changes once waiting has
/// ended.
pub proof fn law_wait_unasked(w: WaitView, event: EventView)
    ensures
        !answers(w.action, event) ==> w.after(event) == w,
        w.action is Finish ==> w.after(event) == w,
{
}

/// A value of 92 bytes or more is refused exactly for properties that are not
/// read-only. What is not refused goes straight to shared memory exactly where
/// that is asked for or the property is read-only, and else through the property
/// service.
pub proof fn law_set_route(key: Seq<char>, value: Seq<char>, skip_svc: bool)
    ensures
        ({
            let read_only = text_starts(key, "ro."@);
            let len = text_bytes(value).len();
            let r = set_route(key, value, skip_svc);
            &&& r is TooLong <==> !read_only && len >= 92
            &&& r == SetRoute::Direct <==> (read_only || (skip_svc && len < 92))
            &&& r == SetRoute::Service <==> !read_only && !skip_svc && len < 92
            &&& r matches SetRoute::TooLong { len: l, max_len } ==> l == len as usize && max_len
                == 92
            &&& goes_direct(key, skip_svc) <==> read_only || skip_svc
        }),
{
}

} // verus!
