//! What the serials of properties say.
//!
//! The upper byte of a serial records a length. Below it stands a counter of
//! updates, whose bit 16 marks the long layout.
use crate::area_edit::{initial_serial, next_counter, set_with_serial, updated_serial};
use crate::area_laws::{
    counter_carries, fits, good_key, lemma_set, set_content, shown_len,
};
use crate::area_layout::{describes, lemma_lookup, plain_text, well_formed, Layout};
use crate::area_places::law_lookup_places;
use crate::area_room::law_live_upsert_room;
use crate::area_state::{
    long_serial, lookup, lookup_content, AreaFault, AreaState, Content,
};
use crate::bytes::lemma_word_bounds;
use crate::live_area::{dirty, hidden_serial, live_upsert, visible_serial, Live};
use crate::live_laws::{held, lemma_live_upsert, upserted};
use vstd::prelude::*;

verus! {

/// The length that a serial records.
pub open spec fn recorded_len(serial: int) -> int {
    serial / 0x100_0000
}

/// The counter of a serial, with the bit that marks the long layout.
pub open spec fn counter(serial: int) -> int {
    serial % 0x100_0000
}

/// A length and a counter make a serial that records both.
proof fn lemma_composed(len: int, c: int)
    requires
        0 <= c < 0x100_0000,
        0 <= len,
    ensures
        recorded_len(len % 0x100 * 0x100_0000 + c) == len % 0x100,
        counter(len % 0x100 * 0x100_0000 + c) == c,
        (len % 0x100 * 0x100_0000 + c) % 2 == c % 2,
        0 <= len % 0x100 * 0x100_0000 + c <= u32::MAX,
        long_serial(len % 0x100 * 0x100_0000 + c) == (c / 0x1_0000 % 2 == 1),
{
    let top = len % 0x100;
    assert((top * 0x100_0000 + c) / 0x1_0000 == top * 0x100 + c / 0x1_0000);
    assert((top * 0x100 + c / 0x1_0000) % 2 == c / 0x1_0000 % 2);
}

/// Setting the bit of the long layout.
proof fn lemma_flagged(c: int)
    requires
        0 <= c < 0x100_0000,
        c / 0x1_0000 % 2 == 0,
    ensures
        c + 0x1_0000 < 0x100_0000,
        (c + 0x1_0000) / 0x1_0000 % 2 == 1,
        (c + 0x1_0000) % 2 == c % 2,
{
    let k = c / 0x1_0000;
    assert(c == 0x1_0000 * k + c % 0x1_0000);
    assert((c + 0x1_0000) / 0x1_0000 == k + 1);
}

/// The serial of a new property records its length and its layout, and its counter
/// starts at zero.
pub proof fn law_new_serial(len: int, is_long: bool)
    requires
        0 <= len,
    ensures
        ({
            let v = initial_serial(len, is_long);
            &&& recorded_len(v) == len % 0x100
            &&& long_serial(v) == is_long
            &&& counter(v) == if is_long {
                0x1_0000int
            } else {
                0
            }
        }),
{
    lemma_composed(
        len,
        if is_long {
            0x1_0000
        } else {
            0
        },
    );
}

/// The serial of an updated property records the new length, is even, and has
/// another counter than before: the next even number, unless the counter runs
/// over. The serial of a long property marks the long layout in any case.
pub proof fn law_updated_serial(old: int, len: int, is_long: bool)
    requires
        0 <= old <= u32::MAX,
        0 <= len,
    ensures
        ({
            let v = updated_serial(old, len, is_long);
            let c = counter(old);
            let next = c + 2 - c % 2;
            let fits = next < 0x100_0000 && (is_long ==> next / 0x1_0000 % 2 == 1);
            &&& recorded_len(v) == len % 0x100
            &&& v % 2 == 0
            &&& counter(v) != c
            &&& is_long ==> long_serial(v)
            &&& fits ==> counter(v) == next
        }),
{
    let c = counter(old);
    let n = (c / 2 * 2 + 2) % 0x100_0000;
    assert(0 <= n < 0x100_0000);
    assert(n % 2 == 0) by {
        assert(c / 2 * 2 + 2 <= 0x100_0000);
    }
    if is_long && n / 0x1_0000 % 2 == 0 {
        lemma_flagged(n);
        lemma_composed(len, n + 0x1_0000);
    } else {
        lemma_composed(len, n);
    }
}

/// The serials of an update that others may watch. While the value changes the
/// serial is odd, and is otherwise that of before. Then it is even again and
/// records the new length; the counter has gone on by one from the odd one,
/// unless it runs over. In the end the counter is that of before.
pub proof fn law_watched_serials(old: int, len: int, is_long: bool)
    requires
        0 <= old <= u32::MAX,
        0 <= len,
    ensures
        ({
            let d = dirty(old);
            let v = visible_serial(d, len, is_long);
            let h = hidden_serial(d, len, is_long);
            let c = counter(old);
            let even = c - c % 2;
            &&& d % 2 == 1
            &&& d / 2 == old / 2
            &&& v % 2 == 0
            &&& recorded_len(v) == len % 0x100
            &&& even + 2 < 0x100_0000 && (is_long ==> (even + 2) / 0x1_0000 % 2 == 1)
                ==> counter(v) == even + 2
            &&& h % 2 == 0
            &&& recorded_len(h) == len % 0x100
            &&& (is_long ==> even / 0x1_0000 % 2 == 1) ==> counter(h) == even
            &&& is_long ==> long_serial(v) && long_serial(h)
        }),
{
    let d = dirty(old);
    let c = counter(old);
    let even = c - c % 2;
    assert(d == old / 2 * 2 + 1);
    assert(counter(d) == even + 1) by {
        let top = old / 0x100_0000;
        assert(old == 0x100_0000 * top + c);
        assert(old / 2 == 0x80_0000 * top + c / 2);
        assert(d == 0x100_0000 * top + (c / 2 * 2 + 1));
    }
    let up = (d + 1) % 0x100_0000;
    assert(up == (even + 2) % 0x100_0000) by {
        let top = d / 0x100_0000;
        assert(d == 0x100_0000 * top + (even + 1));
        if even + 2 == 0x100_0000 {
            assert(d + 1 == 0x100_0000 * (top + 1));
        } else {
            assert(d + 1 == 0x100_0000 * top + (even + 2));
        }
    }
    assert(up % 2 == 0);
    let back = counter(d) / 2 * 2;
    assert(back == even);
    if is_long && up / 0x1_0000 % 2 == 0 {
        lemma_flagged(up);
        lemma_composed(len, up + 0x1_0000);
    } else {
        lemma_composed(len, up);
    }
    if is_long && back / 0x1_0000 % 2 == 0 {
        lemma_flagged(back);
        lemma_composed(len, back + 0x1_0000);
    } else {
        lemma_composed(len, back);
    }
}

/// What is stored after a property was set: the value, in the layout of before
/// where it fits there and else in the one that its length asks for. The serial
/// records the length of a short value; for a long one, that of the message which
/// stands in its place. It is even, and where a property was there its counter
/// differs from that of before.
pub proof fn law_set_stored(s: AreaState, key: Seq<u8>, value: Seq<u8>)
    requires
        well_formed(s),
        good_key(key),
        plain_text(value),
        !counter_carries(s, key),
        set_with_serial(s, key, value).1 is Ok,
    ensures
        lookup_content(s.data, key) is Ok,
        lookup_content(set_with_serial(s, key, value).0.data, key) matches Ok(Some(c)) && {
            &&& c.value == value
            &&& recorded_len(c.serial) == if c.is_long {
                50
            } else {
                value.len() as int
            }
            &&& c.serial % 2 == 0
            &&& long_serial(c.serial) == c.is_long
            &&& match lookup_content(s.data, key)->Ok_0 {
                Some(b) => if (b.is_long && value.len() <= b.value.len()) || (!b.is_long
                    && value.len() < 92) {
                    c.is_long == b.is_long && counter(c.serial) != counter(b.serial)
                } else {
                    c.is_long == (value.len() >= 92)
                },
                None => c.is_long == (value.len() >= 92),
            }
        },
{
    lemma_set_found(s, key, value);
    let before = lookup_content(s.data, key)->Ok_0;
    if before is Some {
        lemma_stored_serial(s, key);
    }
    lemma_set_content(before, value);
}

/// What a lookup finds after a set.
proof fn lemma_set_found(s: AreaState, key: Seq<u8>, value: Seq<u8>)
    requires
        well_formed(s),
        good_key(key),
        plain_text(value),
        !counter_carries(s, key),
        set_with_serial(s, key, value).1 is Ok,
    ensures
        lookup_content(s.data, key) is Ok,
        lookup_content(set_with_serial(s, key, value).0.data, key) == Ok::<
            Option<Content>,
            AreaFault,
        >(Some(set_content(lookup_content(s.data, key)->Ok_0, value))),
{
    let g = choose|g: Layout| #[trigger] describes(g, s);
    let h = lemma_set(s, g, key, value);
    lemma_lookup(s, g, key);
    lemma_lookup(set_with_serial(s, key, value).0, h, key);
}

/// What a set stores.
proof fn lemma_set_content(before: Option<Content>, value: Seq<u8>)
    requires
        before matches Some(b) ==> 0 <= b.serial <= u32::MAX && (b.is_long || next_counter(b.serial)
            / 0x1_0000 % 2 == 0),
    ensures
        ({
            let c = set_content(before, value);
            &&& c.value == value
            &&& recorded_len(c.serial) == if c.is_long {
                50
            } else {
                value.len() as int
            }
            &&& c.serial % 2 == 0
            &&& long_serial(c.serial) == c.is_long
            &&& match before {
                Some(b) => if (b.is_long && value.len() <= b.value.len()) || (!b.is_long
                    && value.len() < 92) {
                    c.is_long == b.is_long && counter(c.serial) != counter(b.serial)
                } else {
                    c.is_long == (value.len() >= 92)
                },
                None => c.is_long == (value.len() >= 92),
            }
        }),
{
    let c = set_content(before, value);
    let n = shown_len(value, c.is_long);
    if let Some(b) = before {
        if fits(b, value) {
            law_updated_serial(b.serial, n, b.is_long);
            lemma_updated_layout(b.serial, n, b.is_long);
        }
    }
    law_new_serial(n, c.is_long);
    lemma_composed(
        n,
        if c.is_long {
            0x1_0000
        } else {
            0
        },
    );
}

/// The serial of a stored property is a word, and its counter does not run into
/// the bit of the long layout where that is not allowed to happen.
proof fn lemma_stored_serial(s: AreaState, key: Seq<u8>)
    requires
        !counter_carries(s, key),
        lookup_content(s.data, key) matches Ok(Some(_)),
    ensures
        ({
            let c = lookup_content(s.data, key)->Ok_0->0;
            &&& 0 <= c.serial <= u32::MAX
            &&& c.is_long || next_counter(c.serial) / 0x1_0000 % 2 == 0
        }),
{
    let p = lookup(s.data, key)->Ok_0->0;
    lemma_word_bounds(s.data, p.prop_offset);
}

proof fn lemma_updated_layout(old: int, len: int, is_long: bool)
    requires
        0 <= old <= u32::MAX,
        0 <= len,
        is_long || next_counter(old) / 0x1_0000 % 2 == 0,
    ensures
        long_serial(updated_serial(old, len, is_long)) == is_long,
{
    let n = next_counter(old);
    if is_long && n / 0x1_0000 % 2 == 0 {
        lemma_flagged(n);
        lemma_composed(len, n + 0x1_0000);
    } else {
        lemma_composed(len, n);
    }
}

/// What is stored after a property was written to a shared area: the value, in the
/// layout of before, or for a new property in the one that its length asks for.
/// The serial records the length as that of a set does. It is even, and where a
/// property was there its counter is the one of before.
pub proof fn law_live_stored(l: Live, key: Seq<u8>, value: Seq<u8>)
    requires
        well_formed(held(l)),
        good_key(key),
        plain_text(value),
        live_upsert(l, key, value).1 is Ok,
    ensures
        lookup_content(l.data, key) is Ok,
        lookup_content(live_upsert(l, key, value).0.data, key) matches Ok(Some(c)) && {
            &&& c.value == value
            &&& recorded_len(c.serial) == if c.is_long {
                50
            } else {
                value.len() as int
            }
            &&& c.serial % 2 == 0
            &&& match lookup_content(l.data, key)->Ok_0 {
                Some(b) => c.is_long == b.is_long && counter(c.serial) == counter(b.serial)
                    - counter(b.serial) % 2,
                None => c.is_long == (value.len() >= 92) && counter(c.serial) == if c.is_long {
                    0x1_0000int
                } else {
                    0
                },
            }
        },
{
    lemma_upsert_found(l, key, value);
    law_live_upsert_room(l, key, value);
    let before = lookup_content(l.data, key)->Ok_0;
    if before is Some {
        let p = lookup(l.data, key)->Ok_0->0;
        lemma_word_bounds(l.data, p.prop_offset);
        law_lookup_places(held(l), key);
    }
    lemma_upserted(before, value);
}

/// What a lookup finds after a write to a shared area.
proof fn lemma_upsert_found(l: Live, key: Seq<u8>, value: Seq<u8>)
    requires
        well_formed(held(l)),
        good_key(key),
        plain_text(value),
        live_upsert(l, key, value).1 is Ok,
    ensures
        lookup_content(l.data, key) is Ok,
        lookup_content(live_upsert(l, key, value).0.data, key) == Ok::<Option<Content>, AreaFault>(
            Some(upserted(lookup_content(l.data, key)->Ok_0, value)),
        ),
{
    let s = held(l);
    let g = choose|g: Layout| #[trigger] describes(g, s);
    let h = lemma_live_upsert(l, s, g, key, value);
    lemma_lookup(s, g, key);
    lemma_lookup(held(live_upsert(l, key, value).0), h, key);
}

/// What a write to a shared area stores.
proof fn lemma_upserted(before: Option<Content>, value: Seq<u8>)
    requires
        before matches Some(b) ==> 0 <= b.serial <= u32::MAX && long_serial(b.serial) == b.is_long
            && (!b.is_long ==> value.len() < 92),
    ensures
        ({
            let c = upserted(before, value);
            &&& c.value == value
            &&& recorded_len(c.serial) == if c.is_long {
                50
            } else {
                value.len() as int
            }
            &&& c.serial % 2 == 0
            &&& match before {
                Some(b) => c.is_long == b.is_long && counter(c.serial) == counter(b.serial)
                    - counter(b.serial) % 2,
                None => c.is_long == (value.len() >= 92) && counter(c.serial) == if c.is_long {
                    0x1_0000int
                } else {
                    0
                },
            }
        }),
{
    let c = upserted(before, value);
    let n = shown_len(value, c.is_long);
    match before {
        Some(b) => {
            law_watched_serials(b.serial, n, b.is_long);
            lemma_even_layout(b.serial, b.is_long);
        },
        None => {
            law_new_serial(n, c.is_long);
            lemma_composed(
                n,
                if c.is_long {
                    0x1_0000
                } else {
                    0
                },
            );
        },
    }
}

/// The even part of a counter marks the same layout.
proof fn lemma_even_layout(old: int, is_long: bool)
    requires
        0 <= old <= u32::MAX,
        long_serial(old) == is_long,
    ensures
        (counter(old) - counter(old) % 2) / 0x1_0000 % 2 == 1 <==> is_long,
{
    let c = counter(old);
    let top = old / 0x100_0000;
    let k = c / 0x1_0000;
    let low = c % 0x1_0000;
    assert(old == 0x100_0000 * top + c);
    assert(c == 0x1_0000 * k + low);
    assert(old / 0x1_0000 == 0x100 * top + k);
    assert((0x100 * top + k) % 2 == k % 2);
    assert(c - c % 2 == 0x1_0000 * k + (low - low % 2));
    assert((c - c % 2) / 0x1_0000 == k);
}

} // verus!
