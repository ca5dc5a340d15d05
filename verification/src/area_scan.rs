//! What the allocations of a property area are.
use crate::area_state::{read_node, read_record, AreaFault, AreaState, NodeView};
use crate::bytes::text_bytes;
use crate::prop_info::align4;
use vstd::prelude::*;

verus! {

/// What an allocation in an area holds.
#[derive(Debug, Clone, Copy, PartialEq, Eq, PartialOrd, Ord, Structural)]
pub enum PropAreaObjectKind {
    TrieNode,
    DirtyBackup,
    PropInfo,
    LongValue,
}

/// The rank of a kind in the order of a scan.
pub open spec fn kind_rank(k: PropAreaObjectKind) -> int {
    match k {
        PropAreaObjectKind::TrieNode => 0,
        PropAreaObjectKind::DirtyBackup => 1,
        PropAreaObjectKind::PropInfo => 2,
        PropAreaObjectKind::LongValue => 3,
    }
}

/// An allocation.
pub struct ObjectView {
    pub kind: PropAreaObjectKind,
    pub offset: int,
    pub size: int,
    pub aligned_size: int,
    pub end_offset: int,
    pub aligned_end_offset: int,
    pub detail: Seq<u8>,
}

/// Bytes in use that belong to no allocation.
pub struct HoleView {
    pub start_offset: int,
    pub end_offset: int,
    pub size: int,
    pub aligned_size: int,
}

/// The outcome of a scan.
#[verifier::ext_equal]
pub struct ScanView {
    pub bytes_used: int,
    pub has_dirty_backup: bool,
    pub objects: Seq<ObjectView>,
    pub holes: Seq<HoleView>,
}

/// What a walk over the allocations has met so far.
#[verifier::ext_equal]
pub struct Found {
    pub nodes: Set<int>,
    pub props: Set<int>,
    pub longs: Set<int>,
    pub objects: Seq<ObjectView>,
}

/// An allocation of `size` bytes at `off`.
pub open spec fn object_at(kind: PropAreaObjectKind, off: int, size: int, detail: Seq<u8>) -> Result<
    ObjectView,
    AreaFault,
> {
    let n = align4(size);
    if off + size > u32::MAX || off + n > u32::MAX {
        Err(AreaFault::InvalidOffset(off))
    } else {
        Ok(
            ObjectView {
                kind,
                offset: off,
                size,
                aligned_size: n,
                end_offset: off + size,
                aligned_end_offset: off + n,
                detail,
            },
        )
    }
}

/// The allocation of the node `n` at `off`.
pub open spec fn node_object(off: int, n: NodeView) -> Result<ObjectView, AreaFault> {
    if n.namelen == 0 {
        object_at(PropAreaObjectKind::TrieNode, off, 20, text_bytes("<root>"@))
    } else if 21 + n.namelen > u32::MAX {
        Err(AreaFault::InvalidOffset(off))
    } else {
        object_at(PropAreaObjectKind::TrieNode, off, 21 + n.namelen, n.name)
    }
}

impl Found {
    /// One more allocation, if there is one.
    pub open spec fn adding(self, object: Result<ObjectView, AreaFault>) -> Result<
        Found,
        AreaFault,
    > {
        match object {
            Err(e) => Err(e),
            Ok(o) => Ok(Found { objects: self.objects.push(o), ..self }),
        }
    }
}

/// The allocations of the record at `prop`, where it is not zero and was not
/// met before.
pub open spec fn scan_record(d: Seq<u8>, prop: int, f: Found) -> Result<Found, AreaFault> {
    if prop == 0 || f.props.contains(prop) {
        Ok(f)
    } else {
        match read_record(d, prop) {
            Err(e) => Err(e),
            Ok(r) => match (Found { props: f.props.insert(prop), ..f }).adding(
                object_at(PropAreaObjectKind::PropInfo, prop, 97 + r.name.len() as int, r.name),
            ) {
                Err(e) => Err(e),
                Ok(g) => if r.is_long && !g.longs.contains(r.value_offset) {
                    (Found { longs: g.longs.insert(r.value_offset), ..g }).adding(
                        object_at(
                            PropAreaObjectKind::LongValue,
                            r.value_offset,
                            r.value.len() as int + 1,
                            r.name,
                        ),
                    )
                } else {
                    Ok(g)
                },
            },
        }
    }
}

/// The allocations reached from the node at `off` that were not met before.
/// `depth` bounds the nodes on a path.
pub open spec fn scan_node(d: Seq<u8>, off: int, f: Found, depth: nat) -> Result<Found, AreaFault>
    decreases depth, 0int,
{
    if f.nodes.contains(off) {
        Ok(f)
    } else if depth == 0 {
        Err(AreaFault::Corrupted("cycle detected while scanning allocation trie"@))
    } else {
        match read_node(d, off) {
            Err(e) => Err(e),
            Ok(n) => match (Found { nodes: f.nodes.insert(off), ..f }).adding(node_object(off, n)) {
                Err(e) => Err(e),
                Ok(f1) => match scan_record(d, n.prop, f1) {
                    Err(e) => Err(e),
                    Ok(f2) => scan_links(d, n, f2, (depth - 1) as nat),
                },
            },
        }
    }
}

/// The allocations reached from the links of the node `n`.
pub open spec fn scan_links(d: Seq<u8>, n: NodeView, f: Found, depth: nat) -> Result<
    Found,
    AreaFault,
>
    decreases depth, 2int,
{
    match scan_link(d, n.left, f, depth) {
        Err(e) => Err(e),
        Ok(f1) => match scan_link(d, n.children, f1, depth) {
            Err(e) => Err(e),
            Ok(f2) => scan_link(d, n.right, f2, depth),
        },
    }
}

/// The allocations reached from a link, which may be zero.
pub open spec fn scan_link(d: Seq<u8>, link: int, f: Found, depth: nat) -> Result<Found, AreaFault>
    decreases depth, 1int,
{
    if link == 0 {
        Ok(f)
    } else {
        scan_node(d, link, f, depth)
    }
}

/// Whether the slot behind the root is the dirty-backup area. An area whose
/// first node stands right behind the root has none.
pub open spec fn dirty_backup(s: AreaState) -> Result<bool, AreaFault> {
    match read_node(s.data, 0) {
        Err(e) => Err(e),
        Ok(root) => if root.children == 0 {
            Ok(s.used == 112)
        } else {
            Ok(root.children != 20)
        },
    }
}

/// The order of a scan: by offset, then by kind, then by end.
pub open spec fn object_before(a: ObjectView, b: ObjectView) -> bool {
    ||| a.offset < b.offset
    ||| a.offset == b.offset && kind_rank(a.kind) < kind_rank(b.kind)
    ||| a.offset == b.offset && kind_rank(a.kind) == kind_rank(b.kind) && a.aligned_end_offset
        < b.aligned_end_offset
}

/// `s`, which is in order, with `o` put behind everything that does not come
/// after it.
pub open spec fn insert_object(s: Seq<ObjectView>, o: ObjectView) -> Seq<ObjectView>
    decreases s.len(),
{
    if s.len() == 0 || !object_before(o, s.last()) {
        s.push(o)
    } else {
        insert_object(s.drop_last(), o).push(s.last())
    }
}

/// `s` in order; what counts as equal keeps its order.
pub open spec fn sort_objects(s: Seq<ObjectView>) -> Seq<ObjectView>
    decreases s.len(),
{
    if s.len() == 0 {
        s
    } else {
        insert_object(sort_objects(s.drop_last()), s.last())
    }
}

/// The hole between two offsets.
pub open spec fn hole_between(start: int, end: int) -> HoleView {
    HoleView { start_offset: start, end_offset: end, size: end - start, aligned_size: align4(end - start) }
}

/// The end of the bytes that are covered after `s`, from `cursor` on.
pub open spec fn covered(s: Seq<ObjectView>, cursor: int) -> int
    decreases s.len(),
{
    if s.len() == 0 {
        cursor
    } else {
        let c = covered(s.drop_last(), cursor);
        if s.last().aligned_end_offset > c {
            s.last().aligned_end_offset
        } else {
            c
        }
    }
}

/// The holes in front of the objects of `s`, from `cursor` on.
pub open spec fn holes_in(s: Seq<ObjectView>, cursor: int) -> Seq<HoleView>
    decreases s.len(),
{
    if s.len() == 0 {
        Seq::empty()
    } else {
        let h = holes_in(s.drop_last(), cursor);
        let c = covered(s.drop_last(), cursor);
        if s.last().offset > c {
            h.push(hole_between(c, s.last().offset))
        } else {
            h
        }
    }
}

/// All holes below `used`.
pub open spec fn all_holes(s: Seq<ObjectView>, cursor: int, used: int) -> Seq<HoleView> {
    let c = covered(s, cursor);
    if used > c {
        holes_in(s, cursor).push(hole_between(c, used))
    } else {
        holes_in(s, cursor)
    }
}

/// Where the allocations behind the root start.
pub open spec fn first_allocation(dirty: bool) -> int {
    if dirty {
        112
    } else {
        20
    }
}

/// What a walk starts with.
pub open spec fn found_at_start(dirty: bool) -> Found {
    Found {
        nodes: Set::empty(),
        props: Set::empty(),
        longs: Set::empty(),
        objects: if dirty {
            seq![
                ObjectView {
                    kind: PropAreaObjectKind::DirtyBackup,
                    offset: 20,
                    size: 92,
                    aligned_size: 92,
                    end_offset: 112,
                    aligned_end_offset: 112,
                    detail: text_bytes("<dirty-backup>"@),
                },
            ]
        } else {
            Seq::empty()
        },
    }
}

/// All allocations of an area, in order, and the holes between them.
pub open spec fn scan_area(s: AreaState) -> Result<ScanView, AreaFault> {
    match dirty_backup(s) {
        Err(e) => Err(e),
        Ok(dirty) => match scan_node(s.data, 0, found_at_start(dirty), (s.data.len() + 1) as nat) {
            Err(e) => Err(e),
            Ok(f) => {
                let objects = sort_objects(f.objects);
                let cursor = if first_allocation(dirty) <= s.used {
                    first_allocation(dirty)
                } else {
                    s.used
                };
                if exists|i: int|
                    0 <= i < objects.len() && (#[trigger] objects[i]).aligned_end_offset > s.used {
                    Err(AreaFault::Corrupted("allocation object extends beyond bytes_used"@))
                } else {
                    Ok(
                        ScanView {
                            bytes_used: s.used,
                            has_dirty_backup: dirty,
                            objects,
                            holes: all_holes(objects, cursor, s.used),
                        },
                    )
                }
            },
        },
    }
}

} // verus!
