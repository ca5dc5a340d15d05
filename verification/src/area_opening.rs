//! Areas are opened again as they were.
use crate::area_compact::compact;
use crate::area_compact_laws::lemma_compact;
use crate::area_edit::{
    attach_record, create_linked, delete, detach_record, ensure_child, ensure_path, ensure_sibling,
    lemma_prune_len, replace_value, set_with_serial,
};
use crate::area_history::{law_history, proper_ops, run, steady, AreaOp};
use crate::area_layout::{describes, well_formed, Layout};
use crate::area_state::{
    find_node, fresh_area, marks_area, max_steps, open_area, segments, AreaFault, AreaState,
};
use crate::bytes::{le_bytes, lemma_le_bytes, u32_at};
use crate::prop_area::PropArea;
use vstd::prelude::*;

verus! {

/// The fill mark lies in the data region, behind the root.
pub open spec fn mark_fits(s: AreaState) -> bool {
    20 <= s.used <= s.data.len() <= u32::MAX
}

/// A block that starts with the fill mark and a header that marks an area, and
/// goes on with the data, is opened as what it is.
pub proof fn law_opened_again(header: Seq<u8>, s: AreaState)
    requires
        header.len() == 124,
        marks_area(header),
        mark_fits(s),
    ensures
        open_area(le_bytes(s.used) + header + s.data, 128 + s.data.len() as int) == Ok::<
            AreaState,
            AreaFault,
        >(s),
{
    let b = le_bytes(s.used) + header + s.data;
    lemma_le_bytes(s.used);
    assert(u32_at(b, 0) == u32_at(le_bytes(s.used), 0));
    assert(u32_at(b, 8) == u32_at(header, 4));
    assert(u32_at(b, 12) == u32_at(header, 8));
    assert(b.subrange(128, 128 + s.data.len() as int) =~= s.data);
}

/// An area with nothing behind it is opened again as it was, out of the block
/// that it is kept in: what it holds and the rest of its header are the same.
pub proof fn law_area_opened_again(a: PropArea)
    requires
        a.valid(),
        a.outside().1.len() == 0,
        mark_fits(a@),
    ensures
        a.image().len() == 128 + a@.data.len(),
        open_area(a.image(), a.image().len() as int) == Ok::<AreaState, AreaFault>(a@),
        a.image().subrange(4, 128) == a.outside().0,
{
    a.lemma_valid();
    lemma_le_bytes(a@.used);
    assert(a.image() =~= le_bytes(a@.used) + a.outside().0 + a@.data);
    law_opened_again(a.outside().0, a@);
    assert(a.image().subrange(4, 128) =~= a.outside().0);
}

/// The mark stays in the data region while nodes are added.
proof fn lemma_sibling_mark(s: AreaState, off: int, y: Seq<u8>, steps: nat)
    requires
        mark_fits(s),
    ensures
        mark_fits(ensure_sibling(s, off, y, steps).0),
        ensure_sibling(s, off, y, steps).0.data.len() == s.data.len(),
    decreases steps,
{
    if steps > 0 {
        lemma_sibling_mark(s, u32_at(s.data, off + 8), y, (steps - 1) as nat);
        lemma_sibling_mark(s, u32_at(s.data, off + 12), y, (steps - 1) as nat);
    }
}

proof fn lemma_path_mark(s: AreaState, off: int, segs: Seq<Seq<u8>>)
    requires
        mark_fits(s),
    ensures
        mark_fits(ensure_path(s, off, segs).0),
        ensure_path(s, off, segs).0.data.len() == s.data.len(),
    decreases segs.len(),
{
    if segs.len() > 0 {
        let steps = max_steps(s.data.len() as int);
        let y = segs[0];
        lemma_sibling_mark(s, u32_at(s.data, off + 16), y, steps);
        let (t, r) = create_linked(s, off + 16, y);
        if let Ok(new) = r {
            lemma_sibling_mark(t, new, y, steps);
        }
        let (u, c) = ensure_child(s, off, y);
        if let Ok(next) = c {
            lemma_path_mark(u, next, segs.skip(1));
        }
    }
}

proof fn lemma_attach_mark(s: AreaState, node: int, key: Seq<u8>, value: Seq<u8>)
    requires
        mark_fits(s),
    ensures
        mark_fits(attach_record(s, node, key, value).0),
        attach_record(s, node, key, value).0.data.len() == s.data.len(),
{
}

proof fn lemma_replace_mark(s: AreaState, node: int, off: int, key: Seq<u8>, value: Seq<u8>)
    requires
        mark_fits(s),
    ensures
        mark_fits(replace_value(s, node, off, key, value).0),
        replace_value(s, node, off, key, value).0.data.len() == s.data.len(),
{
    let u = s.with(detach_record(s.data, node, off).0);
    lemma_attach_mark(u, node, key, value);
}

/// A set keeps the mark in the data region, and the region its size, whatever the
/// area holds and whether the set succeeds or not.
pub proof fn law_set_mark(s: AreaState, key: Seq<u8>, value: Seq<u8>)
    requires
        mark_fits(s),
    ensures
        mark_fits(set_with_serial(s, key, value).0),
        set_with_serial(s, key, value).0.data.len() == s.data.len(),
{
    lemma_path_mark(s, 0, segments(key));
    let (t, r) = ensure_path(s, 0, segments(key));
    if let Ok(node) = r {
        lemma_attach_mark(t, node, key, value);
        lemma_replace_mark(t, node, u32_at(t.data, node + 4), key, value);
    }
}

/// A deletion leaves the mark where it is, and the region its size, whatever the
/// area holds and whether the deletion succeeds or not.
pub proof fn law_delete_mark(s: AreaState, key: Seq<u8>, pruned: bool)
    ensures
        delete(s, key, pruned).0.used == s.used,
        delete(s, key, pruned).0.data.len() == s.data.len(),
{
    if let Ok(Some(node)) = find_node(s.data, key) {
        let d = detach_record(s.data, node, u32_at(s.data, node + 4)).0;
        lemma_prune_len(d, 0, (d.len() + 1) as nat);
    }
}

/// Packing a well-formed area keeps the mark in the data region, and the region
/// its size.
pub proof fn law_compact_mark(s: AreaState)
    requires
        well_formed(s),
    ensures
        mark_fits(s),
        mark_fits(compact(s).0),
        compact(s).0.data.len() == s.data.len(),
{
    let g = choose|g: Layout| #[trigger] describes(g, s);
    let h = lemma_compact(s, g);
}

/// An area that operations made out of a fresh one is opened again as it was, out
/// of the block that it is kept in, as long as no update counter ran into the bit
/// that marks the long layout.
pub proof fn law_history_opened_again(n: int, ops: Seq<AreaOp>, a: PropArea)
    requires
        112 <= n <= u32::MAX,
        proper_ops(ops),
        steady(fresh_area(n), ops),
        a.valid(),
        a.outside().1.len() == 0,
        a@ == run(fresh_area(n), ops),
    ensures
        a.image().len() == 128 + a@.data.len(),
        open_area(a.image(), a.image().len() as int) == Ok::<AreaState, AreaFault>(a@),
{
    law_history(n, ops);
    law_compact_mark(a@);
    law_area_opened_again(a);
}

} // verus!
