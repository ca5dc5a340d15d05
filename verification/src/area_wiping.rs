//! What is left of values that are gone.
use crate::area_edit::{
    delete, detach_record, prune, prune_link, serial_len, set_with_serial, updated_serial,
    wipe_node,
};
use crate::area_growth::{lemma_ensure_found, lemma_rec_owned, lemma_rec_untouched};
use crate::area_layout::{
    describes, lemma_find_node, lemma_node, lemma_read_record, name_of, node_size, rec_bytes,
    rec_bytes_at, rec_fits, rec_view, well_formed, Layout, Owner, RecInfo,
};
use crate::area_records::updated;
use crate::area_state::{key_ok, lookup, read_node, segments, AreaFault, AreaState};
use crate::bytes::{lemma_le_bytes, lemma_nul_index, lemma_word_bounds, put_u32, u32_at};
use crate::live_area::{
    dirty, hidden_serial, live_update, live_value, value_slot, visible_serial, Live, OpView, Slot,
};
use crate::live_laws::law_update_refused;
use vstd::prelude::*;

verus! {

/// Every byte is as before or zero.
pub open spec fn only_zeroed(d: Seq<u8>, e: Seq<u8>) -> bool {
    e.len() == d.len() && forall|b: int|
        0 <= b < d.len() ==> #[trigger] e[b] == d[b] || e[b] == 0
}

/// The bytes from `from` to `to` are zero.
pub open spec fn blank(d: Seq<u8>, from: int, to: int) -> bool {
    forall|b: int| from <= b < to ==> #[trigger] d[b] == 0
}

proof fn lemma_zeroed_on(d: Seq<u8>, e: Seq<u8>, f: Seq<u8>)
    requires
        only_zeroed(d, e),
        only_zeroed(e, f),
    ensures
        only_zeroed(d, f),
{
    assert forall|b: int| 0 <= b < d.len() implies #[trigger] f[b] == d[b] || f[b] == 0 by {
        assert(e[b] == d[b] || e[b] == 0);
    }
}

proof fn lemma_word_zeroed(d: Seq<u8>, at: int)
    ensures
        only_zeroed(d, put_u32(d, at, 0)),
{
    lemma_le_bytes(0);
}

/// Pruning only zeroes bytes.
proof fn lemma_prune_zeroes(d: Seq<u8>, off: int, depth: nat)
    ensures
        only_zeroed(d, prune(d, off, depth).0),
    decreases depth, 0int,
{
    if depth > 0 && read_node(d, off) is Ok {
        let n = read_node(d, off)->Ok_0;
        let below = (depth - 1) as nat;
        lemma_prune_link_zeroes(d, off + 16, n.children, below);
        let d1 = prune_link(d, off + 16, n.children, below).0;
        lemma_prune_link_zeroes(d1, off + 8, n.left, below);
        let d2 = prune_link(d1, off + 8, n.left, below).0;
        lemma_zeroed_on(d, d1, d2);
        lemma_prune_link_zeroes(d2, off + 12, n.right, below);
        let d3 = prune_link(d2, off + 12, n.right, below).0;
        lemma_zeroed_on(d, d2, d3);
        assert(only_zeroed(d3, wipe_node(d3, off, n.namelen).0));
        lemma_zeroed_on(d, d3, wipe_node(d3, off, n.namelen).0);
    }
}

proof fn lemma_prune_link_zeroes(d: Seq<u8>, at: int, link: int, depth: nat)
    ensures
        only_zeroed(d, prune_link(d, at, link, depth).0),
    decreases depth, 1int,
{
    if link != 0 {
        lemma_prune_zeroes(d, link, depth);
        let e = prune(d, link, depth).0;
        lemma_word_zeroed(e, at);
        lemma_zeroed_on(d, e, put_u32(e, at, 0));
    }
}

/// Taking a record away zeroes it.
proof fn lemma_detached_bytes(s: AreaState, g: Layout, x: int)
    requires
        describes(g, s),
        g.nodes.dom().contains(x),
        g.nodes[x].prop != 0,
    ensures
        ({
            let p = g.nodes[x].prop;
            let r = g.recs[p];
            let (e, q) = detach_record(s.data, x, p);
            &&& q is Ok
            &&& only_zeroed(s.data, e)
            &&& blank(e, p, p + 96 + r.name.len() + 1)
            &&& r.long matches Some(at) ==> blank(e, at, at + r.value.len() + 1)
        }),
{
    let p = g.nodes[x].prop;
    let r = g.recs[p];
    lemma_node(s, g, x);
    assert(rec_fits(s, g, p));
    let d = put_u32(s.data, x + 4, 0);
    lemma_le_bytes(0);
    lemma_word_zeroed(s.data, x + 4);
    assert forall|b: int| 0 <= b < s.used && #[trigger] (g.own)(b) != Owner::Node(x) implies d[b]
        == s.data[b] by {
        if x + 4 <= b < x + 8 {
            assert(node_size(name_of(g.nodes[x]).len() as int) >= 20);
            assert((g.own)(b) == Owner::Node(x));
        }
    }
    lemma_rec_untouched(s, g, p, d, x);
    lemma_read_record(d, p, r);
    let e = detach_record(s.data, x, p).0;
    assert(only_zeroed(d, e));
    lemma_zeroed_on(s.data, d, e);
}

/// Deleting a property zeroes its record and, where it has one, its long value.
/// Other bytes stay as they are or are zeroed too.
pub proof fn law_delete_wipes(s: AreaState, key: Seq<u8>, pruned: bool)
    requires
        well_formed(s),
        key_ok(key),
        lookup(s.data, key) matches Ok(Some(_)),
    ensures
        ({
            let p = lookup(s.data, key)->Ok_0->0;
            let e = delete(s, key, pruned).0.data;
            &&& only_zeroed(s.data, e)
            &&& blank(e, p.prop_offset, p.prop_offset + 96 + p.name.len() + 1)
            &&& p.is_long ==> blank(e, p.value_offset, p.value_offset + p.value.len() + 1)
        }),
{
    let g = choose|g: Layout| #[trigger] describes(g, s);
    lemma_find_node(s, g, key);
    let x = g.index[segments(key)];
    lemma_node(s, g, x);
    let p = g.nodes[x].prop;
    assert(rec_fits(s, g, p));
    lemma_read_record(s.data, p, g.recs[p]);
    lemma_rec_owned(s, g, p);
    lemma_detached_bytes(s, g, x);
    let d = detach_record(s.data, x, p).0;
    assert(p + 97 + g.recs[p].name.len() <= d.len()) by {
        reveal(rec_bytes_at);
    }
    if pruned {
        lemma_prune_zeroes(d, 0, (d.len() + 1) as nat);
        let e = prune(d, 0, (d.len() + 1) as nat).0;
        lemma_zeroed_on(s.data, d, e);
        lemma_blank_on(d, e, p, p + 96 + g.recs[p].name.len() + 1);
        if let Some(at) = g.recs[p].long {
            assert(at >= 0 && at + g.recs[p].value.len() + 1 <= d.len()) by {
                reveal(rec_bytes_at);
            }
            lemma_blank_on(d, e, at, at + g.recs[p].value.len() + 1);
        }
    }
}

/// What is zero stays so where bytes are only zeroed.
proof fn lemma_blank_on(d: Seq<u8>, e: Seq<u8>, from: int, to: int)
    requires
        only_zeroed(d, e),
        0 <= from,
        to <= d.len(),
        blank(d, from, to),
    ensures
        blank(e, from, to),
{
    assert forall|b: int| from <= b < to implies #[trigger] e[b] == 0 by {
        assert(e[b] == d[b] || e[b] == 0);
        assert(d[b] == 0);
    }
}

/// A value that is put in the place of the old one leaves nothing of it: what
/// follows the new value is zero, to the end of the record's slot or of the old
/// value.
pub proof fn law_update_clears(s: AreaState, key: Seq<u8>, value: Seq<u8>)
    requires
        well_formed(s),
        key_ok(key),
        lookup(s.data, key) matches Ok(Some(p)) && if p.is_long {
            value.len() <= p.value.len()
        } else {
            value.len() < 92
        },
    ensures
        ({
            let p = lookup(s.data, key)->Ok_0->0;
            let e = set_with_serial(s, key, value).0.data;
            let end = if p.is_long {
                p.value_offset + p.value.len() + 1
            } else {
                p.value_offset + 92
            };
            &&& e.subrange(p.value_offset, p.value_offset + value.len()) == value
            &&& blank(e, p.value_offset + value.len(), end)
        }),
{
    let g = choose|g: Layout| #[trigger] describes(g, s);
    lemma_find_node(s, g, key);
    lemma_ensure_found(s, 0, segments(key));
    let x = g.index[segments(key)];
    lemma_node(s, g, x);
    let p = g.nodes[x].prop;
    let rec = g.recs[p];
    assert(rec_fits(s, g, p));
    lemma_read_record(s.data, p, rec);
    lemma_rec_owned(s, g, p);
    let is_long = rec.long is Some;
    let len = serial_len(value, is_long)->Ok_0;
    let v = updated_serial(u32_at(s.data, p), len, is_long);
    lemma_word_bounds(s.data, p);
    let e = updated(s.data, p, rec, value, v);
    assert(set_with_serial(s, key, value) == (s.with(e), Ok::<(), AreaFault>(())));
    lemma_updated_slot(s.data, p, rec, value, v);
}

/// The bytes of an updated slot.
proof fn lemma_updated_slot(
    d: Seq<u8>,
    p: int,
    r: RecInfo,
    value: Seq<u8>,
    v: int,
)
    requires
        rec_bytes(d, p, r),
        if r.long is Some {
            value.len() <= r.value.len()
        } else {
            value.len() < 92
        },
    ensures
        ({
            let e = updated(d, p, r, value, v);
            let at = rec_view(p, r).value_offset;
            let end = if r.long is Some {
                at + r.value.len() + 1
            } else {
                at + 92
            };
            &&& e.subrange(at, at + value.len()) == value
            &&& blank(e, at + value.len(), end)
        }),
{
    reveal(rec_bytes_at);
    let e = updated(d, p, r, value, v);
    let at = rec_view(p, r).value_offset;
    assert(e.subrange(at, at + value.len()) =~= value);
}

/// A value that is replaced in a shared area leaves nothing of the old one: what
/// follows the new value is zero, to the end of the place of the value.
pub proof fn law_live_update_clears(l: Live, off: int, value: Seq<u8>)
    requires
        0 <= off,
        live_update(l, off, value).1 is Ok,
        ({
            let slot = value_slot(l.data, off)->Ok_0;
            slot.at >= off + 4 || slot.at + slot.room < off
        }),
    ensures
        ({
            let e = live_update(l, off, value).0.data;
            let slot = value_slot(l.data, off)->Ok_0;
            &&& e.subrange(slot.at, slot.at + value.len()) == value
            &&& e[slot.at + value.len()] == 0
            &&& blank(e, slot.at + value.len(), slot.at + slot.room)
        }),
{
    law_update_refused(l, off, value);
    let slot = value_slot(l.data, off)->Ok_0;
    let old = u32_at(l.data, off);
    let k = l.emit(OpView::StoreRelaxed(off, dirty(old)));
    assert(k.data.len() == l.data.len()) by {
        reveal(Live::emit);
    }
    lemma_nul_index(l.data, slot.at, l.data.len() as int);
    lemma_value_blank(k, slot, value);
    let f = live_value(k, slot, value).data;
    let (v, h) = lemma_update_data(l, off, value);
    let e = live_update(l, off, value).0.data;
    assert(e == put_u32(put_u32(f, off, v), off, h));
    assert forall|b: int| slot.at <= b <= slot.at + slot.room implies #[trigger] e[b] == f[b] by {}
    assert(e.subrange(slot.at, slot.at + value.len()) =~= f.subrange(
        slot.at,
        slot.at + value.len(),
    ));
}

/// The bytes of a slot that a value was written to.
proof fn lemma_value_blank(l: Live, slot: Slot, value: Seq<u8>)
    requires
        0 <= slot.at,
        slot.at + slot.room < l.data.len(),
        value.len() <= slot.room,
        !slot.is_long ==> slot.room == 91,
    ensures
        ({
            let f = live_value(l, slot, value).data;
            &&& f.len() == l.data.len()
            &&& f.subrange(slot.at, slot.at + value.len()) == value
            &&& f[slot.at + value.len()] == 0
            &&& blank(f, slot.at + value.len(), slot.at + slot.room)
        }),
{
    reveal(Live::emit);
    let f = live_value(l, slot, value).data;
    assert(f.subrange(slot.at, slot.at + value.len()) =~= value);
}

/// What an update leaves once the value is written: two more words at the place of
/// the serial.
proof fn lemma_update_data(l: Live, off: int, value: Seq<u8>) -> (r: (int, int))
    requires
        live_update(l, off, value).1 is Ok,
    ensures
        ({
            let slot = value_slot(l.data, off)->Ok_0;
            let k = l.emit(OpView::StoreRelaxed(off, dirty(u32_at(l.data, off))));
            live_update(l, off, value).0.data == put_u32(
                put_u32(live_value(k, slot, value).data, off, r.0),
                off,
                r.1,
            )
        }),
{
    reveal(live_update);
    reveal(Live::emit);
    let slot = value_slot(l.data, off)->Ok_0;
    let old = u32_at(l.data, off);
    let len = if slot.is_long {
        50
    } else {
        value.len() as int
    };
    (
        visible_serial(dirty(old), len, slot.is_long),
        hidden_serial(dirty(old), len, slot.is_long),
    )
}

} // verus!
