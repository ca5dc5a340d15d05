//! What holds of every area that operations make out of a fresh one.
use crate::area_compact::compact;
use crate::area_compact_laws::law_compact;
use crate::area_dead_nodes::{law_delete_prunes, lemma_formed_apart, no_dead_nodes};
use crate::area_edit::{delete, next_counter, set_with_serial};
use crate::area_laws::{
    counter_carries, good_key, law_delete, law_fresh_area, law_set_then_get,
    set_content, shown_len,
};
use crate::area_layout::{describes, lemma_lookup, plain_text, well_formed, Layout};
use crate::area_state::{
    dot_index, fresh_area, key_ok, lookup, lookup_content, lookup_value, segments, AreaFault,
    AreaState, Content,
};
use crate::bytes::{lemma_word_bounds, u32_at};
use vstd::prelude::*;

verus! {

/// An operation that changes an area.
pub enum AreaOp {
    /// Set a property.
    Assign { key: Seq<u8>, value: Seq<u8> },
    /// Delete a property, with or without pruning.
    Remove { key: Seq<u8>, pruned: bool },
    /// Pack the allocations.
    Pack,
}

/// The keys are keys, and keys and values that are stored are text without NUL.
pub open spec fn proper_op(op: AreaOp) -> bool {
    match op {
        AreaOp::Assign { key, value } => good_key(key) && plain_text(value),
        AreaOp::Remove { key, .. } => key_ok(key),
        AreaOp::Pack => true,
    }
}

/// The area after an operation, whether it succeeds or not.
pub open spec fn apply(s: AreaState, op: AreaOp) -> AreaState {
    match op {
        AreaOp::Assign { key, value } => set_with_serial(s, key, value).0,
        AreaOp::Remove { key, pruned } => delete(s, key, pruned).0,
        AreaOp::Pack => compact(s).0,
    }
}

/// The area after a number of operations.
pub open spec fn run(s: AreaState, ops: Seq<AreaOp>) -> AreaState
    decreases ops.len(),
{
    if ops.len() == 0 {
        s
    } else {
        apply(run(s, ops.drop_last()), ops.last())
    }
}

/// How many of the operations set a property.
pub open spec fn assignments(ops: Seq<AreaOp>) -> int
    decreases ops.len(),
{
    if ops.len() == 0 {
        0
    } else {
        assignments(ops.drop_last()) + if ops.last() is Assign {
            1int
        } else {
            0
        }
    }
}

/// Where an operation sets a property, its update counter does not run into the
/// bit that marks the long layout.
pub open spec fn steady(s: AreaState, ops: Seq<AreaOp>) -> bool
    decreases ops.len(),
{
    ops.len() > 0 ==> {
        &&& steady(s, ops.drop_last())
        &&& ops.last() matches AreaOp::Assign { key, .. } ==> !counter_carries(
            run(s, ops.drop_last()),
            key,
        )
    }
}

/// All operations are proper.
pub open spec fn proper_ops(ops: Seq<AreaOp>) -> bool {
    forall|i: int| 0 <= i < ops.len() ==> proper_op(#[trigger] ops[i])
}

/// No property that is stored inline was updated as often as `n` times.
#[verifier::opaque]
pub open spec fn young(s: AreaState, n: int) -> bool {
    forall|key: Seq<u8>| #[trigger]
        key_ok(key) ==> young_content(lookup_content(s.data, key), n)
}

pub open spec fn young_content(c: Result<Option<Content>, AreaFault>, n: int) -> bool {
    match c {
        Ok(Some(x)) => x.is_long || (x.serial >= 0 && x.serial % 0x100_0000 + 2 <= 2 * n),
        _ => true,
    }
}

/// Where no property was updated too often, no counter runs into the bit that
/// marks the long layout.
proof fn lemma_no_carry(s: AreaState, n: int, key: Seq<u8>)
    requires
        young(s, n),
        n < 32768,
        key_ok(key),
    ensures
        !counter_carries(s, key),
{
    reveal(young);
    assert(young_content(lookup_content(s.data, key), n));
    if let Ok(Some(p)) = lookup(s.data, key) {
        lemma_word_bounds(s.data, p.prop_offset);
        if !p.is_long {
            let c = u32_at(s.data, p.prop_offset) % 0x100_0000;
            assert(c + 2 <= 65534);
            assert(next_counter(u32_at(s.data, p.prop_offset)) <= 65534);
        }
    }
}

/// A set counts one update.
proof fn lemma_young_set(before: Option<Content>, value: Seq<u8>, n: int)
    requires
        young_content(Ok(before), n),
        0 <= n,
    ensures
        young_content(Ok(Some(set_content(before, value))), n + 1),
{
    let c = set_content(before, value);
    if !c.is_long {
        let len = shown_len(value, false);
        if before is Some && !before->0.is_long && value.len() < 92 {
            let k = next_counter(before->0.serial);
            assert(0 <= k <= before->0.serial % 0x100_0000 + 2);
            assert(k < 0x100_0000);
            assert(c.serial == len % 0x100 * 0x100_0000 + k);
            assert(c.serial % 0x100_0000 == k);
        } else {
            assert(c.serial == len % 0x100 * 0x100_0000);
            assert(c.serial % 0x100_0000 == 0);
        }
    }
}

/// One operation.
proof fn lemma_step(s: AreaState, op: AreaOp, n: int)
    requires
        well_formed(s),
        young(s, n),
        0 <= n,
        proper_op(op),
        op is Assign ==> n < 32768,
    ensures
        well_formed(apply(s, op)),
        young(
            apply(s, op),
            n + if op is Assign {
                1int
            } else {
                0
            },
        ),
{
    reveal(young);
    let t = apply(s, op);
    let m = n + if op is Assign {
        1int
    } else {
        0
    };
    assert forall|any: Seq<u8>| #[trigger] key_ok(any) implies young_content(
        lookup_content(t.data, any),
        m,
    ) && well_formed(t) by {
        assert(young_content(lookup_content(s.data, any), n));
        lemma_step_key(s, op, n, any);
    }
    lemma_letter(0x61);
}

/// A single letter is a key.
proof fn lemma_letter(b: u8)
    requires
        b != 0x2e,
    ensures
        key_ok(seq![b]),
{
    let key = seq![b];
    reveal_with_fuel(dot_index, 2);
    assert(dot_index(key, 0) == 1);
    assert(segments(key) =~= seq![key]);
}

/// There is a key besides any other.
proof fn lemma_other_key(key: Seq<u8>) -> (other: Seq<u8>)
    ensures
        key_ok(other),
        other != key,
{
    lemma_letter(0x61);
    lemma_letter(0x62);
    if key == seq![0x61u8] {
        assert(key[0] == 0x61);
        assert(seq![0x62u8][0] == 0x62);
        seq![0x62u8]
    } else {
        seq![0x61u8]
    }
}

/// What one operation leaves for a key.
proof fn lemma_step_key(s: AreaState, op: AreaOp, n: int, any: Seq<u8>)
    requires
        well_formed(s),
        young(s, n),
        0 <= n,
        proper_op(op),
        op is Assign ==> n < 32768,
        key_ok(any),
        young_content(lookup_content(s.data, any), n),
    ensures
        well_formed(apply(s, op)),
        young_content(
            lookup_content(apply(s, op).data, any),
            n + if op is Assign {
                1int
            } else {
                0
            },
        ),
{
    match op {
        AreaOp::Pack => {
            law_compact(s, any);
        },
        AreaOp::Remove { key, pruned } => {
            if any == key {
                let other = lemma_other_key(key);
                law_delete(s, key, pruned, other);
            } else {
                law_delete(s, key, pruned, any);
            }
        },
        AreaOp::Assign { key, value } => {
            lemma_no_carry(s, n, key);
            lemma_assign_key(s, key, value, n, any);
        },
    }
}

/// What a set leaves for a key.
proof fn lemma_assign_key(s: AreaState, key: Seq<u8>, value: Seq<u8>, n: int, any: Seq<u8>)
    requires
        well_formed(s),
        0 <= n,
        good_key(key),
        plain_text(value),
        !counter_carries(s, key),
        key_ok(any),
        young_content(lookup_content(s.data, any), n),
    ensures
        well_formed(set_with_serial(s, key, value).0),
        young_content(lookup_content(set_with_serial(s, key, value).0.data, any), n + 1),
{
    let (t, r) = set_with_serial(s, key, value);
    if any == key {
        let other = lemma_other_key(key);
        law_set_then_get(s, key, value, other);
        lemma_found(s, key);
        if r is Ok {
            lemma_young_set(lookup_content(s.data, key)->Ok_0, value, n);
        }
    } else {
        law_set_then_get(s, key, value, any);
    }
}

/// A lookup in a well-formed area does not fail.
proof fn lemma_found(s: AreaState, key: Seq<u8>)
    requires
        well_formed(s),
        key_ok(key),
    ensures
        lookup_content(s.data, key) is Ok,
{
    let g = choose|g: Layout| #[trigger] describes(g, s);
    lemma_lookup(s, g, key);
}

/// The operations before the last one.
pub proof fn lemma_proper_before(ops: Seq<AreaOp>)
    requires
        proper_ops(ops),
        ops.len() > 0,
    ensures
        proper_ops(ops.drop_last()),
        proper_op(ops.last()),
{
    let before = ops.drop_last();
    assert(proper_op(ops[ops.len() - 1]));
    assert forall|i: int| 0 <= i < before.len() implies proper_op(#[trigger] before[i]) by {
        assert(before[i] == ops[i]);
    }
}

proof fn lemma_few(n: int, ops: Seq<AreaOp>)
    requires
        112 <= n <= u32::MAX,
        proper_ops(ops),
        assignments(ops) <= 32768,
    ensures
        well_formed(run(fresh_area(n), ops)),
        young(run(fresh_area(n), ops), assignments(ops)),
        0 <= assignments(ops),
        steady(fresh_area(n), ops),
    decreases ops.len(),
{
    if ops.len() == 0 {
        reveal(young);
        lemma_letter(0x61);
        law_fresh_area(n, seq![0x61u8]);
        assert forall|key: Seq<u8>| #[trigger] key_ok(key) implies young_content(
            lookup_content(fresh_area(n).data, key),
            0,
        ) by {
            law_fresh_area(n, key);
        }
    } else {
        let before = ops.drop_last();
        lemma_proper_before(ops);
        lemma_few(n, before);
        let s = run(fresh_area(n), before);
        lemma_step(s, ops.last(), assignments(before));
        if let AreaOp::Assign { key, value } = ops.last() {
            lemma_no_carry(s, assignments(before), key);
        }
    }
}

/// Where no more than 32768 operations set a property, no update counter runs
/// into the bit that marks the long layout.
pub proof fn law_few_sets(n: int, ops: Seq<AreaOp>)
    requires
        112 <= n <= u32::MAX,
        proper_ops(ops),
        assignments(ops) <= 32768,
    ensures
        steady(fresh_area(n), ops),
        assignments(ops) < 32768 ==> forall|key: Seq<u8>|
            key_ok(key) ==> !#[trigger] counter_carries(run(fresh_area(n), ops), key),
{
    lemma_few(n, ops);
    if assignments(ops) < 32768 {
        assert forall|key: Seq<u8>| key_ok(key) implies !#[trigger] counter_carries(
            run(fresh_area(n), ops),
            key,
        ) by {
            lemma_no_carry(run(fresh_area(n), ops), assignments(ops), key);
        }
    }
}

/// One operation keeps an area well formed.
proof fn lemma_step_formed(s: AreaState, op: AreaOp)
    requires
        well_formed(s),
        proper_op(op),
        op matches AreaOp::Assign { key, .. } ==> !counter_carries(s, key),
    ensures
        well_formed(apply(s, op)),
{
    match op {
        AreaOp::Pack => {
            lemma_letter(0x61);
            law_compact(s, seq![0x61u8]);
        },
        AreaOp::Remove { key, pruned } => {
            let other = lemma_other_key(key);
            law_delete(s, key, pruned, other);
        },
        AreaOp::Assign { key, value } => {
            let other = lemma_other_key(key);
            law_set_then_get(s, key, value, other);
        },
    }
}

/// An area that operations made out of a fresh one is well formed, as long as
/// no update counter ran into the bit that marks the long layout.
pub proof fn law_history(n: int, ops: Seq<AreaOp>)
    requires
        112 <= n <= u32::MAX,
        proper_ops(ops),
        steady(fresh_area(n), ops),
    ensures
        well_formed(run(fresh_area(n), ops)),
    decreases ops.len(),
{
    if ops.len() == 0 {
        lemma_letter(0x61);
        law_fresh_area(n, seq![0x61u8]);
    } else {
        lemma_proper_before(ops);
        law_history(n, ops.drop_last());
        lemma_step_formed(run(fresh_area(n), ops.drop_last()), ops.last());
    }
}

/// In an area that operations made out of a fresh one, what is set is found
/// again and nothing else changes, as long as no update counter runs into the
/// bit that marks the long layout.
pub proof fn law_history_set(
    n: int,
    ops: Seq<AreaOp>,
    key: Seq<u8>,
    value: Seq<u8>,
    other: Seq<u8>,
)
    requires
        112 <= n <= u32::MAX,
        proper_ops(ops),
        steady(fresh_area(n), ops.push(AreaOp::Assign { key, value })),
        good_key(key),
        plain_text(value),
        key_ok(other),
        other != key,
    ensures
        ({
            let s = run(fresh_area(n), ops);
            let (t, r) = set_with_serial(s, key, value);
            &&& r is Ok ==> lookup_value(t.data, key) == Ok::<Option<Seq<u8>>, AreaFault>(
                Some(value),
            )
            &&& lookup_value(t.data, other) == lookup_value(s.data, other)
            &&& lookup_content(t.data, other) == lookup_content(s.data, other)
        }),
{
    let all = ops.push(AreaOp::Assign { key, value });
    assert(all.drop_last() =~= ops);
    assert(all.last() == (AreaOp::Assign { key, value }));
    law_history(n, ops);
    law_set_then_get(run(fresh_area(n), ops), key, value, other);
}

/// In an area that operations made out of a fresh one, a deleted property is
/// gone, nothing else changes, and no node is left that leads to nothing, as
/// long as no update counter ran into the bit that marks the long layout.
pub proof fn law_history_delete(n: int, ops: Seq<AreaOp>, key: Seq<u8>, other: Seq<u8>)
    requires
        112 <= n <= u32::MAX,
        proper_ops(ops),
        steady(fresh_area(n), ops),
        key_ok(key),
        key_ok(other),
        other != key,
    ensures
        ({
            let s = run(fresh_area(n), ops);
            let (t, r) = delete(s, key, true);
            &&& r == Ok::<bool, AreaFault>(
                lookup_value(s.data, key) != Ok::<Option<Seq<u8>>, AreaFault>(None),
            )
            &&& lookup_value(t.data, key) == Ok::<Option<Seq<u8>>, AreaFault>(None)
            &&& lookup_content(t.data, other) == lookup_content(s.data, other)
            &&& r->Ok_0 ==> no_dead_nodes(t.data)
        }),
{
    law_history(n, ops);
    let s = run(fresh_area(n), ops);
    law_delete(s, key, true, other);
    if lookup_value(s.data, key) != Ok::<Option<Seq<u8>>, AreaFault>(None) {
        lemma_formed_apart(s, key);
        law_delete_prunes(s, key);
    }
}

} // verus!
