//! Where the parts of a property stand, and what is refused.
use crate::area_dead_nodes::reached;
use crate::area_edit::{delete, set_with_serial};
use crate::area_keys::lemma_segments_join;
use crate::area_layout::{
    describes, lemma_find_node, lemma_node, lemma_read_record, plain_text, rec_bytes_at, rec_fits,
    string_at, well_formed, Layout,
};
use crate::area_state::{
    dot_index, key_ok, lemma_dot_index, long_serial, lookup, name_order, open_area, read_node,
    segments, AreaFault, AreaState,
};
use crate::area_records::lemma_detach;
use crate::area_scan_kinds::lemma_reached;
use crate::bytes::{
    lemma_lex_irreflexive, lemma_lex_transitive, lemma_nul_index, lemma_nul_index_is,
    lemma_word_bounds, lex_less, nul_index, u32_at, KeyOrder,
};
use crate::live_area::{nonzero_count, slot_view, Live};
use crate::live_laws::{held, lemma_slot};
use crate::prop_info::PropView;
use vstd::prelude::*;

verus! {

/// A property that is found has the name that was asked for, and its name and its
/// value stand where the lookup says, each with its NUL byte. The name follows the
/// record's header. A short value stands in the header; a long one, which the
/// serial marks, at the distance that the header tells.
pub proof fn law_lookup_places(s: AreaState, key: Seq<u8>)
    requires
        well_formed(s),
        lookup(s.data, key) matches Ok(Some(_)),
    ensures
        ({
            let p = lookup(s.data, key)->Ok_0->0;
            &&& p.name == key
            &&& p.name_offset == p.prop_offset + 96
            &&& string_at(s.data, p.name_offset, p.name)
            &&& string_at(s.data, p.value_offset, p.value)
            &&& p.is_long == long_serial(u32_at(s.data, p.prop_offset))
            &&& !p.is_long ==> p.value_offset == p.prop_offset + 4 && p.value.len() < 92
            &&& p.is_long ==> p.value_offset == p.prop_offset + u32_at(s.data, p.prop_offset + 60)
        }),
{
    let g = choose|g: Layout| #[trigger] describes(g, s);
    lemma_place(s, g, key);
}

/// The record of a property that is found.
proof fn lemma_place(s: AreaState, g: Layout, key: Seq<u8>)
    requires
        describes(g, s),
        lookup(s.data, key) matches Ok(Some(_)),
    ensures
        ({
            let p = lookup(s.data, key)->Ok_0->0;
            let r = g.recs[p.prop_offset];
            &&& g.recs.dom().contains(p.prop_offset)
            &&& p.name == key
            &&& p.value == r.value
            &&& p.is_long == (r.long is Some)
            &&& p.name_offset == p.prop_offset + 96
            &&& string_at(s.data, p.name_offset, p.name)
            &&& string_at(s.data, p.value_offset, p.value)
            &&& p.is_long == long_serial(u32_at(s.data, p.prop_offset))
            &&& !p.is_long ==> p.value_offset == p.prop_offset + 4 && p.value.len() < 92
            &&& p.is_long ==> p.value_offset == p.prop_offset + u32_at(s.data, p.prop_offset + 60)
            &&& p.prop_offset + 96 <= s.data.len()
            &&& u32_at(s.data, p.prop_offset) == r.serial
        }),
{
    lemma_find_node(s, g, key);
    lemma_segments_join(key);
    let x = g.index[segments(key)];
    lemma_node(s, g, x);
    let p = g.nodes[x].prop;
    assert(rec_fits(s, g, p));
    lemma_read_record(s.data, p, g.recs[p]);
    reveal(rec_bytes_at);
}

/// How many bytes of `b` are not NUL.
pub open spec fn written_bytes(b: Seq<u8>) -> int {
    b.filter(|x: u8| x != 0).len() as int
}

proof fn lemma_nonzero_count(d: Seq<u8>, from: int, to: int)
    requires
        0 <= from <= to <= d.len(),
    ensures
        nonzero_count(d, from, to) == written_bytes(d.subrange(from, to)),
    decreases to - from,
{
    reveal(Seq::filter);
    let b = d.subrange(from, to);
    if from < to {
        lemma_nonzero_count(d, from, to - 1);
        assert(b.drop_last() =~= d.subrange(from, to - 1));
        assert(b.last() == d[to - 1]);
    } else {
        assert(b =~= Seq::<u8>::empty());
    }
}

/// What the slot of a property that is found looks like. That of a long value is
/// the value. That of a short one has 92 bytes: the value, as the serial records
/// its length, and a tail, whose bytes that are not NUL are counted.
pub proof fn law_slot_view(l: Live, key: Seq<u8>)
    requires
        well_formed(held(l)),
        lookup(l.data, key) matches Ok(Some(_)),
    ensures
        ({
            let p = lookup(l.data, key)->Ok_0->0;
            let n = u32_at(l.data, p.prop_offset) / 0x100_0000;
            slot_view(l.data, p.prop_offset) matches Ok(v) && {
                &&& v.is_long == p.is_long
                &&& p.is_long ==> v.value_len == p.value.len() && v.tail_size == 0
                    && v.tail_nonzero == 0
                &&& !p.is_long ==> {
                    &&& v.value_len == if n <= 92 {
                        n
                    } else {
                        92
                    }
                    &&& v.value_len + v.tail_size == 92
                    &&& v.tail_nonzero == written_bytes(
                        l.data.subrange(
                            p.prop_offset + 4 + v.value_len,
                            p.prop_offset + 4 + 92,
                        ),
                    )
                }
            }
        }),
{
    let s = held(l);
    let g = choose|g: Layout| #[trigger] describes(g, s);
    lemma_place(s, g, key);
    let p = lookup(l.data, key)->Ok_0->0;
    lemma_slot(s, g, p.prop_offset);
    let n = u32_at(l.data, p.prop_offset) / 0x100_0000;
    lemma_word_bounds(l.data, p.prop_offset);
    if !p.is_long {
        let m = if n <= 92 {
            n
        } else {
            92
        };
        lemma_nonzero_count(l.data, p.prop_offset + 4 + m, p.prop_offset + 96);
    } else {
        let at = p.value_offset;
        assert(rec_fits(s, g, p.prop_offset));
        reveal(rec_bytes_at);
        reveal(plain_text);
        assert forall|i: int| at <= i < at + p.value.len() implies l.data[i] != 0 by {
            assert(l.data[i] == p.value[i - at]);
        }
        lemma_nul_index_is(
            l.data,
            at,
            l.data.len() as int,
            at + p.value.len(),
        );
    }
}

/// A key with an empty piece is refused, whatever the area holds, and changes
/// nothing.
pub proof fn law_bad_key(s: AreaState, key: Seq<u8>, value: Seq<u8>, pruned: bool)
    requires
        !key_ok(key),
    ensures
        lookup(s.data, key) == Err::<Option<PropView>, AreaFault>(AreaFault::InvalidKey(key)),
        set_with_serial(s, key, value) == (s, Err::<(), AreaFault>(AreaFault::InvalidKey(key))),
        delete(s, key, pruned) == (s, Err::<bool, AreaFault>(AreaFault::InvalidKey(key))),
{
}

/// A key is refused exactly where it is empty, starts or ends with a dot, or has
/// two dots in a row.
pub proof fn law_key_ok(key: Seq<u8>)
    ensures
        key_ok(key) <==> key.len() > 0 && key[0] != 0x2e && key[key.len() - 1] != 0x2e && forall|
            i: int,
        |
            0 <= i < key.len() - 1 ==> !(#[trigger] key[i] == 0x2e && key[i + 1] == 0x2e),
    decreases key.len(),
{
    let dot = dot_index(key, 0);
    lemma_dot_index(key, 0);
    let segs = segments(key);
    if dot < key.len() {
        let tail = key.skip(dot + 1);
        law_key_ok(tail);
        let next = segments(tail);
        assert(segs =~= seq![key.take(dot)] + next);
        assert(key_ok(key) <==> dot > 0 && key_ok(tail)) by {
            if key_ok(key) {
                assert(segs[0].len() > 0);
                assert forall|i: int| 0 <= i < next.len() implies (#[trigger] next[i]).len() > 0 by {
                    assert(segs[i + 1] == next[i]);
                }
            }
            if dot > 0 && key_ok(tail) {
                assert forall|i: int| 0 <= i < segs.len() implies (#[trigger] segs[i]).len() > 0 by {
                    if i > 0 {
                        assert(segs[i] == next[i - 1]);
                    }
                }
            }
        }
        lemma_dots(key, dot);
    } else {
        assert(segs =~= seq![key]);
        assert(segs[0] == key);
        if key.len() > 0 {
            assert(key[0] != 0x2e && key[key.len() - 1] != 0x2e);
        }
    }
}

/// No dot at either end, and no two in a row.
spec fn dots_apart(key: Seq<u8>) -> bool {
    key.len() > 0 && key[0] != 0x2e && key[key.len() - 1] != 0x2e && forall|i: int|
        0 <= i < key.len() - 1 ==> !(#[trigger] key[i] == 0x2e && key[i + 1] == 0x2e)
}

/// Dots in front of and behind the first one.
proof fn lemma_dots(key: Seq<u8>, dot: int)
    requires
        0 <= dot < key.len(),
        key[dot] == 0x2e,
        forall|j: int| 0 <= j < dot ==> key[j] != 0x2e,
    ensures
        dots_apart(key) <==> dot > 0 && dots_apart(key.skip(dot + 1)),
{
    let tail = key.skip(dot + 1);
    if dots_apart(key) {
        assert(dot < key.len() - 1);
        assert(!(key[dot] == 0x2e && key[dot + 1] == 0x2e));
        assert(tail[0] == key[dot + 1]);
        assert(tail[tail.len() - 1] == key[key.len() - 1]);
        assert forall|i: int| 0 <= i < tail.len() - 1 implies !(#[trigger] tail[i] == 0x2e && tail[i
            + 1] == 0x2e) by {
            assert(tail[i] == key[dot + 1 + i]);
            assert(!(key[dot + 1 + i] == 0x2e && key[dot + 1 + i + 1] == 0x2e));
        }
    }
    if dot > 0 && dots_apart(tail) {
        assert(key[0] != 0x2e);
        assert(tail[tail.len() - 1] == key[key.len() - 1]);
        assert forall|i: int| 0 <= i < key.len() - 1 implies !(#[trigger] key[i] == 0x2e && key[i
            + 1] == 0x2e) by {
            if i == dot {
                assert(key[i + 1] == tail[0]);
            } else if i > dot {
                assert(tail[i - dot - 1] == key[i]);
                assert(tail[i - dot - 1 + 1] == key[i + 1]);
            }
        }
    }
}

/// A block is opened exactly where it is large enough for a header and no larger
/// than a region can be, the words at 8 and 12 mark an area, and the fill mark lies
/// in the region, behind the root. The first of these that fails is reported.
pub proof fn law_open(b: Seq<u8>, size: int)
    ensures
        ({
            let r = open_area(b, size);
            let marked = u32_at(b, 8) == 0x504f_5250;
            let current = u32_at(b, 12) == 0xfc6e_d0ab;
            let used = u32_at(b, 0);
            &&& r matches Ok(s) ==> s.used == used && s.data == b.subrange(128, size)
            &&& r is Ok <==> 128 <= size <= 128 + u32::MAX && marked && current && 20 <= used
                <= size - 128
            &&& r matches Err(e) ==> e == (if size < 128 {
                AreaFault::AreaTooSmall(size)
            } else if size > 128 + u32::MAX {
                AreaFault::AreaTooLarge(size)
            } else if !marked {
                AreaFault::InvalidMagic(u32_at(b, 8))
            } else if !current {
                AreaFault::InvalidVersion(u32_at(b, 12))
            } else {
                AreaFault::InvalidBytesUsed(used)
            })
        }),
{
}

/// Names are in order of their lengths, and among names of the same length the
/// first byte that differs decides.
pub proof fn law_name_order(a: Seq<u8>, b: Seq<u8>, c: Seq<u8>, x: u8, y: u8)
    requires
        x < y,
        a.len() == b.len(),
    ensures
        name_order(c + seq![x] + a, c + seq![y] + b) == KeyOrder::Less,
        name_order(c + seq![y] + b, c + seq![x] + a) == KeyOrder::Greater,
        forall|p: Seq<u8>, q: Seq<u8>|
            p.len() < q.len() ==> #[trigger] name_order(p, q) == KeyOrder::Less && name_order(q, p)
                == KeyOrder::Greater,
        name_order(a, a) == KeyOrder::Equal,
{
    let p = c + seq![x] + a;
    let q = c + seq![y] + b;
    lemma_lex_at(a, b, c, x, y);
    lemma_lex_irreflexive(a);
    assert(p[c.len() as int] == x && q[c.len() as int] == y);
    if lex_less(q, p) {
        lemma_lex_transitive(p, q, p);
        lemma_lex_irreflexive(p);
    }
}

proof fn lemma_lex_at(a: Seq<u8>, b: Seq<u8>, c: Seq<u8>, x: u8, y: u8)
    requires
        x < y,
    ensures
        lex_less(c + seq![x] + a, c + seq![y] + b),
    decreases c.len(),
{
    let p = c + seq![x] + a;
    let q = c + seq![y] + b;
    if c.len() > 0 {
        lemma_lex_at(a, b, c.skip(1), x, y);
        assert(p.skip(1) =~= c.skip(1) + seq![x] + a);
        assert(q.skip(1) =~= c.skip(1) + seq![y] + b);
        assert(p[0] == c[0] && q[0] == c[0]);
    } else {
        assert(p[0] == x && q[0] == y);
    }
}

/// How a node is laid out: five words, which are the length of the name, the place
/// of the record, the siblings with smaller and with greater names and the
/// children, and behind them the name.
pub proof fn law_node_layout(d: Seq<u8>, off: int)
    requires
        0 <= off,
    ensures
        read_node(d, off) matches Ok(n) ==> {
            &&& n.namelen == u32_at(d, off)
            &&& n.prop == u32_at(d, off + 4)
            &&& n.left == u32_at(d, off + 8)
            &&& n.right == u32_at(d, off + 12)
            &&& n.children == u32_at(d, off + 16)
            &&& n.namelen == 0 ==> n.name.len() == 0
            &&& n.namelen > 0 ==> n.name == d.subrange(off + 20, off + 20 + n.name.len())
        },
{
    if let Ok(n) = read_node(d, off) {
        if n.namelen > 0 {
            let limit = (n.namelen + 1) % 0x1_0000_0000;
            let room = d.len() - (off + 20);
            let span = if limit <= room {
                limit
            } else {
                room / 92 * 92
            };
            let end = nul_index(d, off + 20, off + 20 + span);
            lemma_nul_index(d, off + 20, off + 20 + span);
            assert(n.name == d.subrange(off + 20, end));
            assert(n.name.len() == end - (off + 20));
        }
    }
}

/// A deletion without pruning keeps all nodes.
pub proof fn law_delete_keeps_nodes(s: AreaState, key: Seq<u8>, o: int)
    requires
        well_formed(s),
        key_ok(key),
    ensures
        reached(delete(s, key, false).0.data, o) <==> reached(s.data, o),
{
    let g = choose|g: Layout| #[trigger] describes(g, s);
    lemma_find_node(s, g, key);
    lemma_reached(s, g, o);
    if g.index.dom().contains(segments(key)) {
        let x = g.index[segments(key)];
        lemma_node(s, g, x);
        if g.nodes[x].prop != 0 {
            let h = lemma_detach(s, g, x);
            lemma_reached(delete(s, key, false).0, h, o);
        }
    }
}

} // verus!
