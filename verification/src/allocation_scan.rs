//! Listing the allocations of a property area and the holes between them.
use crate::area_scan::{
    all_holes, covered, dirty_backup, found_at_start, hole_between, holes_in, insert_object,
    kind_rank, node_object, object_at, object_before, scan_area, scan_link, scan_node, scan_record,
    sort_objects, Found, HoleView, ObjectView, PropAreaObjectKind, ScanView,
};
use crate::area_state::lemma_record_in_range;
use crate::bytes::text_bytes;
use crate::offset_set::OffsetSet;
use crate::prop_area::{PropArea, PropAreaError, Result, TrieNodeRecord};
use crate::prop_info::{
    align_up, DIRTY_BACKUP_SIZE, INITIAL_BYTES_USED, PROP_INFO_SIZE, PROP_TRIE_NODE_HEADER_SIZE,
};
use vstd::prelude::*;

verus! {

/// An allocation in an area.
#[derive(Debug, Clone, PartialEq, Eq)]
pub struct PropAreaObjectInfo {
    pub kind: PropAreaObjectKind,
    pub offset: u32,
    pub size: u32,
    pub aligned_size: u32,
    pub end_offset: u32,
    pub aligned_end_offset: u32,
    pub detail: String,
}

impl View for PropAreaObjectInfo {
    type V = ObjectView;

    open spec fn view(&self) -> ObjectView {
        ObjectView {
            kind: self.kind,
            offset: self.offset as int,
            size: self.size as int,
            aligned_size: self.aligned_size as int,
            end_offset: self.end_offset as int,
            aligned_end_offset: self.aligned_end_offset as int,
            detail: text_bytes(self.detail@),
        }
    }
}

/// Bytes in use that belong to no allocation.
#[derive(Debug, Clone, PartialEq, Eq)]
pub struct PropAreaHoleInfo {
    pub start_offset: u32,
    pub end_offset: u32,
    pub size: u32,
    pub aligned_size: u32,
}

impl View for PropAreaHoleInfo {
    type V = HoleView;

    open spec fn view(&self) -> HoleView {
        HoleView {
            start_offset: self.start_offset as int,
            end_offset: self.end_offset as int,
            size: self.size as int,
            aligned_size: self.aligned_size as int,
        }
    }
}

/// The allocations of an area, in order, and the holes between them.
#[derive(Debug, Clone, PartialEq, Eq)]
pub struct PropAreaAllocationScan {
    pub bytes_used: u32,
    pub has_dirty_backup: bool,
    pub objects: Vec<PropAreaObjectInfo>,
    pub holes: Vec<PropAreaHoleInfo>,
}

/// The views of a list of allocations.
pub open spec fn object_views(v: Seq<PropAreaObjectInfo>) -> Seq<ObjectView> {
    v.map(|_i: int, o: PropAreaObjectInfo| o@)
}

/// The views of a list of holes.
pub open spec fn hole_views(v: Seq<PropAreaHoleInfo>) -> Seq<HoleView> {
    v.map(|_i: int, h: PropAreaHoleInfo| h@)
}

impl View for PropAreaAllocationScan {
    type V = ScanView;

    open spec fn view(&self) -> ScanView {
        ScanView {
            bytes_used: self.bytes_used as int,
            has_dirty_backup: self.has_dirty_backup,
            objects: object_views(self.objects@),
            holes: hole_views(self.holes@),
        }
    }
}

/// What a walk over the allocations has met so far, the allocations in order.
struct ScanWalk {
    nodes: OffsetSet,
    props: OffsetSet,
    longs: OffsetSet,
    objects: Vec<PropAreaObjectInfo>,
    met: Ghost<Seq<ObjectView>>,
}

impl ScanWalk {
    spec fn ordered(&self) -> bool {
        object_views(self.objects@) == sort_objects(self.met@)
    }

    spec fn found(&self) -> Found {
        Found {
            nodes: self.nodes@,
            props: self.props@,
            longs: self.longs@,
            objects: self.met@,
        }
    }
}

/// Whether `a` comes before `b` in a scan.
fn comes_before(a: &PropAreaObjectInfo, b: &PropAreaObjectInfo) -> (r: bool)
    ensures
        r == object_before(a@, b@),
{
    let (ka, kb) = (rank_of(a.kind), rank_of(b.kind));
    a.offset < b.offset || (a.offset == b.offset && (ka < kb || (ka == kb && a.aligned_end_offset
        < b.aligned_end_offset)))
}

/// The rank of a kind in the order of a scan.
fn rank_of(kind: PropAreaObjectKind) -> (r: u8)
    ensures
        r == kind_rank(kind),
{
    match kind {
        PropAreaObjectKind::TrieNode => 0,
        PropAreaObjectKind::DirtyBackup => 1,
        PropAreaObjectKind::PropInfo => 2,
        PropAreaObjectKind::LongValue => 3,
    }
}

/// Put `object` in its place in a list that is in order.
fn push_in_order(objects: &mut Vec<PropAreaObjectInfo>, object: PropAreaObjectInfo)
    ensures
        object_views(final(objects)@) == insert_object(object_views(old(objects)@), object@),
{
    let ghost all = object_views(objects@);
    let mut i: usize = objects.len();
    proof {
        assert(all.take(all.len() as int) =~= all);
        assert(insert_object(all, object@) + all.skip(all.len() as int) =~= insert_object(
            all,
            object@,
        ));
    }
    while i > 0 && comes_before(&object, &objects[i - 1])
        invariant
            i <= objects@.len(),
            all == object_views(objects@),
            insert_object(all, object@) == insert_object(all.take(i as int), object@) + all.skip(
                i as int,
            ),
        decreases i,
    {
        proof {
            let head = all.take(i as int);
            assert(head.last() == objects@[i - 1]@);
            assert(head.drop_last() =~= all.take(i - 1));
            assert(insert_object(head.drop_last(), object@).push(head.last()) + all.skip(i as int)
                =~= insert_object(all.take(i - 1), object@) + all.skip(i - 1));
        }
        i = i - 1;
    }
    proof {
        let head = all.take(i as int);
        if i > 0 {
            assert(head.last() == objects@[i - 1]@);
        }
        assert(insert_object(head, object@) == head.push(object@));
    }
    objects.insert(i, object);
    proof {
        assert(object_views(objects@) =~= all.take(i as int).push(object@) + all.skip(i as int));
    }
}

/// Describe an allocation.
fn make_scan_object(kind: PropAreaObjectKind, offset: u32, size: u32, detail: String) -> (r: Result<
    PropAreaObjectInfo,
>)
    ensures
        match (r, object_at(kind, offset as int, size as int, text_bytes(detail@))) {
            (Ok(o), Ok(v)) => o@ == v,
            (Err(e), Err(f)) => e@ == f,
            _ => false,
        },
{
    let aligned_size = align_up(size, 4);
    match (offset.checked_add(size), offset.checked_add(aligned_size)) {
        (Some(end_offset), Some(aligned_end_offset)) => Ok(
            PropAreaObjectInfo {
                kind,
                offset,
                size,
                aligned_size,
                end_offset,
                aligned_end_offset,
                detail,
            },
        ),
        _ => Err(PropAreaError::InvalidOffset(offset)),
    }
}

/// Describe a hole.
fn make_scan_hole(start_offset: u32, end_offset: u32) -> (r: PropAreaHoleInfo)
    requires
        start_offset <= end_offset,
    ensures
        r@ == hole_between(start_offset as int, end_offset as int),
{
    let size = end_offset - start_offset;
    PropAreaHoleInfo { start_offset, end_offset, size, aligned_size: align_up(size, 4) }
}

impl ScanWalk {
    /// Add an allocation.
    fn push(&mut self, kind: PropAreaObjectKind, offset: u32, size: u32, detail: String) -> (r:
        Result<()>)
        requires
            old(self).ordered(),
        ensures
            match (
                r,
                old(self).found().adding(
                    object_at(kind, offset as int, size as int, text_bytes(detail@)),
                ),
            ) {
                (Ok(_), Ok(v)) => final(self).ordered() && final(self).found() == v,
                (Err(e), Err(f)) => e@ == f,
                _ => false,
            },
    {
        let object = make_scan_object(kind, offset, size, detail)?;
        proof {
            let grown = self.met@.push(object@);
            assert(grown.drop_last() =~= self.met@);
            self.met@ = grown;
        }
        push_in_order(&mut self.objects, object);
        Ok(())
    }

    /// Add the node at its offset, which was not met before.
    fn push_node(&mut self, node: &TrieNodeRecord) -> (r: Result<()>)
        requires
            old(self).ordered(),
        ensures
            match (
                r,
                (Found {
                    nodes: old(self).nodes@.insert(node.offset as int),
                    ..old(self).found()
                }).adding(node_object(node.offset as int, node@)),
            ) {
                (Ok(_), Ok(v)) => final(self).ordered() && final(self).found() == v,
                (Err(e), Err(f)) => e@ == f,
                _ => false,
            },
    {
        self.nodes.insert(node.offset);
        if node.namelen == 0 {
            self.push(
                PropAreaObjectKind::TrieNode,
                node.offset,
                PROP_TRIE_NODE_HEADER_SIZE,
                "<root>".to_owned(),
            )
        } else if node.namelen > u32::MAX - 21 {
            Err(PropAreaError::InvalidOffset(node.offset))
        } else {
            self.push(
                PropAreaObjectKind::TrieNode,
                node.offset,
                PROP_TRIE_NODE_HEADER_SIZE + node.namelen + 1,
                node.name.clone(),
            )
        }
    }

    /// Add the record at `prop` of `area`, and its long value.
    fn push_record(&mut self, area: &PropArea, prop: u32) -> (r: Result<()>)
        requires
            area.valid(),
            old(self).ordered(),
        ensures
            match (r, scan_record(area@.data, prop as int, old(self).found())) {
                (Ok(_), Ok(v)) => final(self).ordered() && final(self).found() == v,
                (Err(e), Err(f)) => e@ == f,
                _ => false,
            },
    {
        if prop == 0 || !self.props.insert(prop) {
            proof {
                assert(prop != 0 ==> self.props@ =~= old(self).props@);
            }
            return Ok(());
        }
        let record = area.read_prop_record(prop)?;
        proof {
            lemma_record_in_range(area@.data, prop as int);
        }
        let total = area.data_size();
        let name_len = record.name.as_str().as_bytes().len() as u32;
        self.push(
            PropAreaObjectKind::PropInfo,
            prop,
            PROP_INFO_SIZE + name_len + 1,
            record.name.clone(),
        )?;
        if record.is_long {
            if self.longs.insert(record.value_offset) {
                let value_len = record.value.as_str().as_bytes().len() as u32;
                self.push(
                    PropAreaObjectKind::LongValue,
                    record.value_offset,
                    value_len + 1,
                    record.name,
                )?;
            } else {
                proof {
                    let f = scan_record(area@.data, prop as int, old(self).found())->Ok_0;
                    assert(self.longs@ =~= f.longs);
                }
            }
        }
        Ok(())
    }
}

impl PropArea {
    /// Whether the slot behind the root is the dirty-backup area.
    pub(crate) fn has_dirty_backup(&self) -> (r: Result<bool>)
        requires
            self.valid(),
        ensures
            match (r, dirty_backup(self@)) {
                (Ok(o), Ok(v)) => o == v,
                (Err(e), Err(f)) => e@ == f,
                _ => false,
            },
    {
        let root = self.read_node(0)?;
        if root.children == 0 {
            Ok(self.bytes_used() == INITIAL_BYTES_USED)
        } else {
            Ok(root.children != PROP_TRIE_NODE_HEADER_SIZE)
        }
    }

    /// Add the allocations reached from the node at `offset`.
    fn scan_allocations_from(&self, offset: u32, walk: &mut ScanWalk, depth: u64) -> (r: Result<()>)
        requires
            self.valid(),
            old(walk).ordered(),
        ensures
            match (r, scan_node(self@.data, offset as int, old(walk).found(), depth as nat)) {
                (Ok(_), Ok(v)) => final(walk).ordered() && final(walk).found() == v,
                (Err(e), Err(f)) => e@ == f,
                _ => false,
            },
        decreases depth, 0int,
    {
        if walk.nodes.contains(offset) {
            return Ok(());
        }
        if depth == 0 {
            return Err(
                PropAreaError::Corrupted("cycle detected while scanning allocation trie"),
            );
        }
        let node = self.read_node(offset)?;
        walk.push_node(&node)?;
        walk.push_record(self, node.prop)?;
        self.scan_link(node.left, walk, depth - 1)?;
        self.scan_link(node.children, walk, depth - 1)?;
        self.scan_link(node.right, walk, depth - 1)
    }

    /// As [`Self::scan_allocations_from`], for a link that may be zero.
    fn scan_link(&self, link: u32, walk: &mut ScanWalk, depth: u64) -> (r: Result<()>)
        requires
            self.valid(),
            old(walk).ordered(),
        ensures
            match (r, scan_link(self@.data, link as int, old(walk).found(), depth as nat)) {
                (Ok(_), Ok(v)) => final(walk).ordered() && final(walk).found() == v,
                (Err(e), Err(f)) => e@ == f,
                _ => false,
            },
        decreases depth, 1int,
    {
        if link == 0 {
            return Ok(());
        }
        self.scan_allocations_from(link, walk, depth)
    }

    /// All allocations of the area, in order, and the holes between them.
    pub fn scan_allocations(&self) -> (r: Result<PropAreaAllocationScan>)
        requires
            self.valid(),
        ensures
            match (r, scan_area(self@)) {
                (Ok(o), Ok(v)) => o@ == v,
                (Err(e), Err(f)) => e@ == f,
                _ => false,
            },
    {
        let bytes_used = self.bytes_used();
        let has_dirty_backup = self.has_dirty_backup()?;
        let mut walk = ScanWalk {
            nodes: OffsetSet::new(),
            props: OffsetSet::new(),
            longs: OffsetSet::new(),
            objects: Vec::new(),
            met: Ghost(Seq::empty()),
        };
        proof {
            assert(object_views(walk.objects@) =~= sort_objects(walk.met@));
        }
        if has_dirty_backup {
            walk.push(
                PropAreaObjectKind::DirtyBackup,
                PROP_TRIE_NODE_HEADER_SIZE,
                DIRTY_BACKUP_SIZE,
                "<dirty-backup>".to_owned(),
            )?;
        }
        proof {
            assert(walk.found() =~= found_at_start(has_dirty_backup));
        }
        let depth = self.data_size() as u64 + 1;
        self.scan_allocations_from(0, &mut walk, depth)?;
        if any_beyond(&walk.objects, bytes_used) {
            return Err(PropAreaError::Corrupted("allocation object extends beyond bytes_used"));
        }
        let initial = if has_dirty_backup {
            INITIAL_BYTES_USED
        } else {
            PROP_TRIE_NODE_HEADER_SIZE
        };
        let start = if initial <= bytes_used {
            initial
        } else {
            bytes_used
        };
        let holes = holes_between(&walk.objects, start, bytes_used);
        Ok(PropAreaAllocationScan { bytes_used, has_dirty_backup, objects: walk.objects, holes })
    }
}

/// Whether some allocation ends behind `bytes_used`.
fn any_beyond(objects: &Vec<PropAreaObjectInfo>, bytes_used: u32) -> (r: bool)
    ensures
        r == exists|i: int|
            0 <= i < objects@.len() && (#[trigger] object_views(objects@)[i]).aligned_end_offset
                > bytes_used,
{
    let ghost all = object_views(objects@);
    let mut i: usize = 0;
    while i < objects.len()
        invariant
            i <= objects@.len(),
            all == object_views(objects@),
            forall|j: int| 0 <= j < i ==> (#[trigger] all[j]).aligned_end_offset <= bytes_used,
        decreases objects@.len() - i,
    {
        proof {
            assert(all[i as int] == objects@[i as int]@);
        }
        if objects[i].aligned_end_offset > bytes_used {
            return true;
        }
        i = i + 1;
    }
    false
}

/// The holes below `bytes_used` that the allocations leave, from `start` on.
fn holes_between(objects: &Vec<PropAreaObjectInfo>, start: u32, bytes_used: u32) -> (r: Vec<
    PropAreaHoleInfo,
>)
    ensures
        hole_views(r@) == all_holes(object_views(objects@), start as int, bytes_used as int),
{
    let ghost all = object_views(objects@);
    let mut holes: Vec<PropAreaHoleInfo> = Vec::new();
    let mut cursor = start;
    let mut i: usize = 0;
    proof {
        assert(hole_views(holes@) =~= Seq::<HoleView>::empty());
    }
    while i < objects.len()
        invariant
            i <= objects@.len(),
            all == object_views(objects@),
            hole_views(holes@) == holes_in(all.take(i as int), start as int),
            cursor == covered(all.take(i as int), start as int),
        decreases objects@.len() - i,
    {
        let object = &objects[i];
        let ghost before = hole_views(holes@);
        proof {
            assert(all.take(i + 1).drop_last() =~= all.take(i as int));
            assert(all.take(i + 1).last() == object@);
        }
        if object.offset > cursor {
            let hole = make_scan_hole(cursor, object.offset);
            holes.push(hole);
            proof {
                assert(hole_views(holes@) =~= before.push(hole@));
            }
        }
        if object.aligned_end_offset > cursor {
            cursor = object.aligned_end_offset;
        }
        i = i + 1;
    }
    proof {
        assert(all.take(i as int) =~= all);
    }
    if bytes_used > cursor {
        let ghost before = hole_views(holes@);
        let hole = make_scan_hole(cursor, bytes_used);
        holes.push(hole);
        proof {
            assert(hole_views(holes@) =~= before.push(hole@));
        }
    }
    holes
}

} // verus!
