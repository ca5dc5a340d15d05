//! How the allocations of a property area are packed.
use crate::area_scan::{dirty_backup, first_allocation};
use crate::area_state::{read_node, read_record, AreaFault, AreaState, NodeView};
use crate::bytes::{put, put_u32, zero};
use crate::prop_info::align4;
use vstd::prelude::*;

verus! {

/// The low 32 bits of a number.
pub open spec fn wrap(n: int) -> int {
    n % 0x1_0000_0000
}

/// An allocation that may be moved.
pub struct MoveView {
    pub offset: int,
    pub size: int,
    /// The object that refers to the allocation, and the place of the
    /// reference in it.
    pub referer: Option<(int, int)>,
    /// Whether the reference counts from the object that holds it.
    pub relative: bool,
}

/// What a walk has met so far.
#[verifier::ext_equal]
pub struct Gathered {
    pub nodes: Set<int>,
    pub props: Set<int>,
    pub longs: Set<int>,
    pub records: Seq<MoveView>,
}

/// What a compaction did.
pub enum CompactView {
    NoHoles,
    AdjustedBytesUsed { old: int, new: int },
    MovedObjects { old: int, new: int, objects_moved: int },
}

/// The bytes that the node `n` takes.
pub open spec fn node_room(n: NodeView) -> int {
    align4(
        if n.namelen == 0 {
            20
        } else {
            wrap(21 + n.namelen)
        },
    )
}

/// The record at `prop` of the node at `off`, and its long value, where they
/// were not met before.
pub open spec fn gather_record(d: Seq<u8>, off: int, prop: int, g: Gathered) -> Result<
    Gathered,
    AreaFault,
> {
    if prop == 0 || g.props.contains(prop) {
        Ok(g)
    } else {
        match read_record(d, prop) {
            Err(e) => Err(e),
            Ok(r) => {
                let own = MoveView {
                    offset: prop,
                    size: align4(97 + r.name.len() as int),
                    referer: Some((off, 4int)),
                    relative: false,
                };
                let g1 = Gathered {
                    props: g.props.insert(prop),
                    records: g.records.push(own),
                    ..g
                };
                if r.is_long && !g.longs.contains(r.value_offset) {
                    let long = MoveView {
                        offset: r.value_offset,
                        size: align4(r.value.len() as int + 1),
                        referer: Some((prop, 60int)),
                        relative: true,
                    };
                    Ok(
                        Gathered {
                            longs: g.longs.insert(r.value_offset),
                            records: g1.records.push(long),
                            ..g1
                        },
                    )
                } else {
                    Ok(g1)
                }
            },
        }
    }
}

/// The allocations reached from the node at `off` that were not met before.
/// `depth` bounds the nodes on a path.
pub open spec fn gather_node(
    d: Seq<u8>,
    off: int,
    referer: Option<(int, int)>,
    g: Gathered,
    depth: nat,
) -> Result<Gathered, AreaFault>
    decreases depth, 0int,
{
    if g.nodes.contains(off) {
        Ok(g)
    } else if depth == 0 {
        Err(AreaFault::Corrupted("cycle detected while collecting allocations"@))
    } else {
        match read_node(d, off) {
            Err(e) => Err(e),
            Ok(n) => {
                let own = MoveView { offset: off, size: node_room(n), referer, relative: false };
                let g1 = Gathered {
                    nodes: g.nodes.insert(off),
                    records: g.records.push(own),
                    ..g
                };
                match gather_record(d, off, n.prop, g1) {
                    Err(e) => Err(e),
                    Ok(g2) => gather_links(d, off, n, g2, (depth - 1) as nat),
                }
            },
        }
    }
}

/// The allocations reached from the links of the node `n` at `off`.
pub open spec fn gather_links(d: Seq<u8>, off: int, n: NodeView, g: Gathered, depth: nat) -> Result<
    Gathered,
    AreaFault,
>
    decreases depth, 2int,
{
    match gather_link(d, off, 8, n.left, g, depth) {
        Err(e) => Err(e),
        Ok(g1) => match gather_link(d, off, 16, n.children, g1, depth) {
            Err(e) => Err(e),
            Ok(g2) => gather_link(d, off, 12, n.right, g2, depth),
        },
    }
}

/// The allocations reached from one link, which may be zero.
pub open spec fn gather_link(
    d: Seq<u8>,
    off: int,
    field: int,
    link: int,
    g: Gathered,
    depth: nat,
) -> Result<Gathered, AreaFault>
    decreases depth, 1int,
{
    if link == 0 {
        Ok(g)
    } else {
        gather_node(d, link, Some((off, field)), g, depth)
    }
}

/// `s`, which is in order of offsets, with `m` put behind everything that does
/// not come after it.
pub open spec fn insert_move(s: Seq<MoveView>, m: MoveView) -> Seq<MoveView>
    decreases s.len(),
{
    if s.len() == 0 || m.offset >= s.last().offset {
        s.push(m)
    } else {
        insert_move(s.drop_last(), m).push(s.last())
    }
}

/// `s` in order of offsets; equal offsets keep their order.
pub open spec fn sort_moves(s: Seq<MoveView>) -> Seq<MoveView>
    decreases s.len(),
{
    if s.len() == 0 {
        s
    } else {
        insert_move(sort_moves(s.drop_last()), s.last())
    }
}

/// The index of the first allocation from `i` on that leaves a gap behind
/// `cursor`, and the end of the bytes covered before it.
pub open spec fn first_gap(s: Seq<MoveView>, i: int, cursor: int) -> (Option<int>, int)
    decreases s.len() - i,
{
    if i >= s.len() {
        (None, cursor)
    } else if s[i].offset > cursor {
        (Some(i), cursor)
    } else {
        let end = wrap(s[i].offset + s[i].size);
        first_gap(
            s,
            i + 1,
            if end > cursor {
                end
            } else {
                cursor
            },
        )
    }
}

/// Where the allocations of `s` from `i` on go when they are packed from
/// `cursor` on, and the end of the last one.
pub open spec fn pack(s: Seq<MoveView>, i: int, cursor: int, m: Map<int, int>) -> (
    Map<int, int>,
    int,
)
    decreases s.len() - i,
{
    if i >= s.len() {
        (m, cursor)
    } else {
        pack(s, i + 1, wrap(cursor + s[i].size), m.insert(s[i].offset, cursor))
    }
}

/// Where the object that was at `off` goes.
pub open spec fn moved(m: Map<int, int>, off: int) -> int {
    if m.dom().contains(off) {
        m[off]
    } else {
        off
    }
}

/// The region with the reference to `r` changed for its new place.
pub open spec fn patch_reference(d: Seq<u8>, r: MoveView, m: Map<int, int>) -> Result<
    Seq<u8>,
    AreaFault,
> {
    match r.referer {
        None => Ok(d),
        Some((owner, place)) => {
            let field = wrap(moved(m, owner) + place);
            let target = if r.relative {
                wrap(moved(m, r.offset) - moved(m, owner))
            } else {
                moved(m, r.offset)
            };
            if field + 4 > d.len() {
                Err(AreaFault::InvalidOffset(field))
            } else {
                Ok(put_u32(d, field, target))
            }
        },
    }
}

/// The region with the bytes of `r` copied to its new place.
pub open spec fn copy_object(d: Seq<u8>, r: MoveView, m: Map<int, int>) -> Result<
    Seq<u8>,
    AreaFault,
> {
    let to = moved(m, r.offset);
    if to == r.offset {
        Ok(d)
    } else if r.offset + r.size > d.len() {
        Err(AreaFault::InvalidOffset(r.offset))
    } else if to + r.size > d.len() {
        Err(AreaFault::InvalidOffset(to))
    } else {
        Ok(put(d, to, d.subrange(r.offset, r.offset + r.size)))
    }
}

/// The region with the allocations of `s` from `i` on moved, each one after
/// the reference to it was changed.
pub open spec fn move_objects(d: Seq<u8>, s: Seq<MoveView>, i: int, m: Map<int, int>) -> (
    Seq<u8>,
    Result<(), AreaFault>,
)
    decreases s.len() - i,
{
    if i >= s.len() {
        (d, Ok(()))
    } else {
        match patch_reference(d, s[i], m) {
            Err(e) => (d, Err(e)),
            Ok(d1) => match copy_object(d1, s[i], m) {
                Err(e) => (d1, Err(e)),
                Ok(d2) => move_objects(d2, s, i + 1, m),
            },
        }
    }
}

/// What a walk starts with.
pub open spec fn gathered_at_start(dirty: bool) -> Gathered {
    Gathered {
        nodes: Set::empty(),
        props: Set::empty(),
        longs: Set::empty(),
        records: if dirty {
            seq![MoveView { offset: 20, size: 92, referer: None, relative: false }]
        } else {
            Seq::empty()
        },
    }
}

/// The allocations of an area in order of their offsets, and whether it has a
/// dirty-backup area.
pub open spec fn gather(s: AreaState) -> Result<(Seq<MoveView>, bool), AreaFault> {
    match dirty_backup(s) {
        Err(e) => Err(e),
        Ok(dirty) => match gather_node(
            s.data,
            0,
            None,
            gathered_at_start(dirty),
            (s.data.len() + 1) as nat,
        ) {
            Err(e) => Err(e),
            Ok(g) => Ok((sort_moves(g.records), dirty)),
        },
    }
}

/// Move the allocations of `r` from `i` on to `cursor` and behind it.
pub open spec fn close_gaps(s: AreaState, r: Seq<MoveView>, i: int, cursor: int) -> (
    AreaState,
    Result<CompactView, AreaFault>,
) {
    let (m, end) = pack(r, i, cursor, Map::empty());
    match move_objects(s.data, r, i, m) {
        (d, Err(e)) => (s.with(d), Err(e)),
        (d, Ok(_)) => if end + wrap(s.used - end) > d.len() {
            (s.with(d), Err(AreaFault::InvalidOffset(end)))
        } else {
            (
                AreaState { used: end, data: zero(d, end, wrap(s.used - end)) },
                Ok(
                    CompactView::MovedObjects {
                        old: s.used,
                        new: end,
                        objects_moved: r.len() - i,
                    },
                ),
            )
        },
    }
}

/// Pack the allocations of an area.
pub open spec fn compact(s: AreaState) -> (AreaState, Result<CompactView, AreaFault>) {
    match gather(s) {
        Err(e) => (s, Err(e)),
        Ok((r, dirty)) => match first_gap(r, 0, first_allocation(dirty)) {
            (None, cursor) => if cursor < s.used {
                (
                    AreaState { used: cursor, data: s.data },
                    Ok(CompactView::AdjustedBytesUsed { old: s.used, new: cursor }),
                )
            } else {
                (s, Ok(CompactView::NoHoles))
            },
            (Some(i), cursor) => close_gaps(s, r, i, cursor),
        },
    }
}

} // verus!
