//! Packing the allocations of a property area.
use crate::area_compact::{
    close_gaps, compact, copy_object, first_gap, gather, gather_link, gather_node, gather_record,
    gathered_at_start, insert_move, move_objects, node_room, pack, patch_reference, sort_moves,
    CompactView, Gathered, MoveView,
};
use crate::area_state::lemma_record_in_range;
use crate::offset_map::OffsetMap;
use crate::offset_set::OffsetSet;
use crate::prop_area::{PropArea, PropAreaError, Result, TrieNodeRecord};
use crate::prop_info::{
    align_up, DIRTY_BACKUP_SIZE, INITIAL_BYTES_USED, LONG_OFFSET_IN_INFO, PROP_INFO_SIZE,
    PROP_TRIE_NODE_HEADER_SIZE,
};
use vstd::prelude::*;

verus! {

/// What a compaction did.
#[derive(Debug, Clone, PartialEq, Eq, Structural)]
pub enum CompactResult {
    /// There were no holes.
    NoHoles,
    /// There was a hole at the end only; the fill mark was lowered.
    AdjustedBytesUsed { old: u32, new: u32 },
    /// The allocations behind the first hole were moved.
    MovedObjects { old: u32, new: u32, objects_moved: usize },
}

impl View for CompactResult {
    type V = CompactView;

    open spec fn view(&self) -> CompactView {
        match *self {
            CompactResult::NoHoles => CompactView::NoHoles,
            CompactResult::AdjustedBytesUsed { old, new } => CompactView::AdjustedBytesUsed {
                old: old as int,
                new: new as int,
            },
            CompactResult::MovedObjects { old, new, objects_moved } => CompactView::MovedObjects {
                old: old as int,
                new: new as int,
                objects_moved: objects_moved as int,
            },
        }
    }
}

/// An allocation that may be moved.
struct CompactRecord {
    offset: u32,
    aligned_size: u32,
    /// The object that refers to the allocation, and the place of the
    /// reference in it.
    referer: Option<(u32, u32)>,
    /// Whether the reference counts from the object that holds it.
    relative: bool,
}

spec fn referer_view(r: Option<(u32, u32)>) -> Option<(int, int)> {
    match r {
        None => None,
        Some((a, b)) => Some((a as int, b as int)),
    }
}

impl View for CompactRecord {
    type V = MoveView;

    closed spec fn view(&self) -> MoveView {
        MoveView {
            offset: self.offset as int,
            size: self.aligned_size as int,
            referer: referer_view(self.referer),
            relative: self.relative,
        }
    }
}

spec fn move_views(v: Seq<CompactRecord>) -> Seq<MoveView> {
    v.map(|_i: int, r: CompactRecord| r@)
}

/// What a walk has met so far, the allocations in order of their offsets.
struct CompactWalk {
    nodes: OffsetSet,
    props: OffsetSet,
    longs: OffsetSet,
    records: Vec<CompactRecord>,
    met: Ghost<Seq<MoveView>>,
}

/// Put `record` in its place in a list that is in order.
fn push_in_order(records: &mut Vec<CompactRecord>, record: CompactRecord)
    ensures
        move_views(final(records)@) == insert_move(move_views(old(records)@), record@),
{
    let ghost all = move_views(records@);
    let mut i: usize = records.len();
    proof {
        assert(all.take(all.len() as int) =~= all);
        assert(insert_move(all, record@) + all.skip(all.len() as int) =~= insert_move(
            all,
            record@,
        ));
    }
    while i > 0 && record.offset < records[i - 1].offset
        invariant
            i <= records@.len(),
            all == move_views(records@),
            insert_move(all, record@) == insert_move(all.take(i as int), record@) + all.skip(
                i as int,
            ),
        decreases i,
    {
        proof {
            let head = all.take(i as int);
            assert(head.last() == records@[i - 1]@);
            assert(head.drop_last() =~= all.take(i - 1));
            assert(insert_move(head.drop_last(), record@).push(head.last()) + all.skip(i as int)
                =~= insert_move(all.take(i - 1), record@) + all.skip(i - 1));
        }
        i = i - 1;
    }
    proof {
        let head = all.take(i as int);
        if i > 0 {
            assert(head.last() == records@[i - 1]@);
        }
        assert(insert_move(head, record@) == head.push(record@));
    }
    records.insert(i, record);
    proof {
        assert(move_views(records@) =~= all.take(i as int).push(record@) + all.skip(i as int));
    }
}

impl CompactWalk {
    spec fn ordered(&self) -> bool {
        move_views(self.records@) == sort_moves(self.met@)
    }

    spec fn gathered(&self) -> Gathered {
        Gathered {
            nodes: self.nodes@,
            props: self.props@,
            longs: self.longs@,
            records: self.met@,
        }
    }

    /// Add an allocation.
    fn push(&mut self, record: CompactRecord)
        requires
            old(self).ordered(),
        ensures
            final(self).ordered(),
            final(self).gathered() == (Gathered {
                records: old(self).met@.push(record@),
                ..old(self).gathered()
            }),
    {
        proof {
            let grown = self.met@.push(record@);
            assert(grown.drop_last() =~= self.met@);
            self.met@ = grown;
        }
        push_in_order(&mut self.records, record);
    }

    /// Add the record at `prop` of the node at `offset`, and its long value.
    fn push_record(&mut self, area: &PropArea, offset: u32, prop: u32) -> (r: Result<()>)
        requires
            area.valid(),
            old(self).ordered(),
        ensures
            match (r, gather_record(area@.data, offset as int, prop as int, old(self).gathered())) {
                (Ok(_), Ok(v)) => final(self).ordered() && final(self).gathered() == v,
                (Err(e), Err(f)) => e@ == f,
                _ => false,
            },
    {
        if prop == 0 || !self.props.insert(prop) {
            proof {
                assert(prop != 0 ==> self.props@ =~= old(self).props@);
            }
            return Ok(());
        }
        let record = area.read_prop_record(prop)?;
        proof {
            lemma_record_in_range(area@.data, prop as int);
        }
        let total = area.data_size();
        let name_len = record.name.as_str().as_bytes().len() as u32;
        self.push(
            CompactRecord {
                offset: prop,
                aligned_size: align_up(PROP_INFO_SIZE + name_len + 1, 4),
                referer: Some((offset, 4)),
                relative: false,
            },
        );
        if record.is_long {
            if self.longs.insert(record.value_offset) {
                let value_len = record.value.as_str().as_bytes().len() as u32;
                self.push(
                    CompactRecord {
                        offset: record.value_offset,
                        aligned_size: align_up(value_len + 1, 4),
                        referer: Some((prop, LONG_OFFSET_IN_INFO)),
                        relative: true,
                    },
                );
            } else {
                proof {
                    assert(self.longs@ =~= old(self).longs@);
                }
            }
        }
        Ok(())
    }
}

/// The bytes that a node takes.
fn room_of(node: &TrieNodeRecord) -> (r: u32)
    ensures
        r == node_room(node@),
{
    let size = if node.namelen == 0 {
        PROP_TRIE_NODE_HEADER_SIZE
    } else {
        node.namelen.wrapping_add(PROP_TRIE_NODE_HEADER_SIZE + 1)
    };
    align_up(size, 4)
}

impl PropArea {
    /// Add the allocations reached from the node at `offset`.
    fn collect_compact_records_from(
        &self,
        offset: u32,
        referer: Option<(u32, u32)>,
        walk: &mut CompactWalk,
        depth: u64,
    ) -> (r: Result<()>)
        requires
            self.valid(),
            old(walk).ordered(),
        ensures
            match (
                r,
                gather_node(
                    self@.data,
                    offset as int,
                    referer_view(referer),
                    old(walk).gathered(),
                    depth as nat,
                ),
            ) {
                (Ok(_), Ok(v)) => final(walk).ordered() && final(walk).gathered() == v,
                (Err(e), Err(f)) => e@ == f,
                _ => false,
            },
        decreases depth, 0int,
    {
        if walk.nodes.contains(offset) {
            return Ok(());
        }
        if depth == 0 {
            return Err(PropAreaError::Corrupted("cycle detected while collecting allocations"));
        }
        let node = self.read_node(offset)?;
        walk.nodes.insert(offset);
        walk.push(
            CompactRecord { offset, aligned_size: room_of(&node), referer, relative: false },
        );
        walk.push_record(self, offset, node.prop)?;
        self.collect_link(offset, 8, node.left, walk, depth - 1)?;
        self.collect_link(offset, 16, node.children, walk, depth - 1)?;
        self.collect_link(offset, 12, node.right, walk, depth - 1)
    }

    /// As [`Self::collect_compact_records_from`], for a link that may be zero.
    fn collect_link(
        &self,
        offset: u32,
        field: u32,
        link: u32,
        walk: &mut CompactWalk,
        depth: u64,
    ) -> (r: Result<()>)
        requires
            self.valid(),
            old(walk).ordered(),
        ensures
            match (
                r,
                gather_link(
                    self@.data,
                    offset as int,
                    field as int,
                    link as int,
                    old(walk).gathered(),
                    depth as nat,
                ),
            ) {
                (Ok(_), Ok(v)) => final(walk).ordered() && final(walk).gathered() == v,
                (Err(e), Err(f)) => e@ == f,
                _ => false,
            },
        decreases depth, 1int,
    {
        if link == 0 {
            return Ok(());
        }
        self.collect_compact_records_from(link, Some((offset, field)), walk, depth)
    }

    /// The allocations of the area in order of their offsets, and whether it
    /// has a dirty-backup area.
    fn collect_compact_records(&self) -> (r: Result<(Vec<CompactRecord>, bool)>)
        requires
            self.valid(),
        ensures
            match (r, gather(self@)) {
                (Ok(o), Ok(v)) => move_views(o.0@) == v.0 && o.1 == v.1,
                (Err(e), Err(f)) => e@ == f,
                _ => false,
            },
    {
        let has_dirty = self.has_dirty_backup()?;
        let mut walk = CompactWalk {
            nodes: OffsetSet::new(),
            props: OffsetSet::new(),
            longs: OffsetSet::new(),
            records: Vec::new(),
            met: Ghost(Seq::empty()),
        };
        proof {
            assert(move_views(walk.records@) =~= sort_moves(walk.met@));
        }
        if has_dirty {
            walk.push(
                CompactRecord {
                    offset: PROP_TRIE_NODE_HEADER_SIZE,
                    aligned_size: DIRTY_BACKUP_SIZE,
                    referer: None,
                    relative: false,
                },
            );
        }
        proof {
            assert(walk.gathered() =~= gathered_at_start(has_dirty));
        }
        let depth = self.data_size() as u64 + 1;
        self.collect_compact_records_from(0, None, &mut walk, depth)?;
        Ok((walk.records, has_dirty))
    }

    /// Change the reference to an allocation for its new place.
    fn patch_reference(&mut self, rec: &CompactRecord, remap: &OffsetMap) -> (r: Result<()>)
        requires
            old(self).valid(),
        ensures
            final(self).valid(),
            final(self).outside() == old(self).outside(),
            match (r, patch_reference(old(self)@.data, rec@, remap@)) {
                (Ok(_), Ok(d)) => final(self)@ == old(self)@.with(d),
                (Err(e), Err(f)) => e@ == f && final(self)@ == old(self)@,
                _ => false,
            },
    {
        if let Some((owner, place)) = rec.referer {
            let new_offset = remap.get_or_same(rec.offset);
            let new_owner = remap.get_or_same(owner);
            let field = new_owner.wrapping_add(place);
            let target = if rec.relative {
                new_offset.wrapping_sub(new_owner)
            } else {
                new_offset
            };
            self.write_u32_data(field, target)
        } else {
            Ok(())
        }
    }

    /// Copy the bytes of an allocation to its new place.
    fn copy_object(&mut self, rec: &CompactRecord, remap: &OffsetMap) -> (r: Result<()>)
        requires
            old(self).valid(),
        ensures
            final(self).valid(),
            final(self).outside() == old(self).outside(),
            match (r, copy_object(old(self)@.data, rec@, remap@)) {
                (Ok(_), Ok(d)) => final(self)@ == old(self)@.with(d),
                (Err(e), Err(f)) => e@ == f && final(self)@ == old(self)@,
                _ => false,
            },
    {
        let new_offset = remap.get_or_same(rec.offset);
        if new_offset == rec.offset {
            return Ok(());
        }
        let bytes = self.read_data(rec.offset, rec.aligned_size)?;
        self.check_range(new_offset, rec.aligned_size)?;
        self.write_bytes_data(new_offset, bytes.as_slice());
        Ok(())
    }

    /// Move the allocations of `records` from `first` on to `cursor` and
    /// behind it.
    fn close_gaps(&mut self, records: &Vec<CompactRecord>, first: usize, cursor: u32) -> (r: Result<
        CompactResult,
    >)
        requires
            old(self).valid(),
            first <= records@.len(),
        ensures
            final(self).valid(),
            final(self).outside() == old(self).outside(),
            ({
                let c = close_gaps(
                    old(self)@,
                    move_views(records@),
                    first as int,
                    cursor as int,
                );
                &&& final(self)@ == c.0
                &&& match (r, c.1) {
                    (Ok(o), Ok(v)) => o@ == v,
                    (Err(e), Err(f)) => e@ == f,
                    _ => false,
                }
            }),
    {
        let ghost all = move_views(records@);
        let old_used = self.bytes_used();
        let mut remap = OffsetMap::new();
        let mut new_cursor = cursor;
        let mut i: usize = first;
        while i < records.len()
            invariant
                first <= i <= records@.len(),
                all == move_views(records@),
                pack(all, first as int, cursor as int, Map::empty()) == pack(
                    all,
                    i as int,
                    new_cursor as int,
                    remap@,
                ),
            decreases records@.len() - i,
        {
            proof {
                assert(all[i as int] == records@[i as int]@);
            }
            remap.insert(records[i].offset, new_cursor);
            new_cursor = new_cursor.wrapping_add(records[i].aligned_size);
            i = i + 1;
        }
        self.move_objects(records, first, &remap)?;
        self.zero_data(new_cursor, old_used.wrapping_sub(new_cursor))?;
        self.write_bytes_used(new_cursor);
        Ok(
            CompactResult::MovedObjects {
                old: old_used,
                new: new_cursor,
                objects_moved: records.len() - first,
            },
        )
    }

    /// Move the allocations of `records` from `first` on.
    fn move_objects(&mut self, records: &Vec<CompactRecord>, first: usize, remap: &OffsetMap) -> (r:
        Result<()>)
        requires
            old(self).valid(),
            first <= records@.len(),
        ensures
            final(self).valid(),
            final(self).outside() == old(self).outside(),
            ({
                let c = move_objects(
                    old(self)@.data,
                    move_views(records@),
                    first as int,
                    remap@,
                );
                &&& final(self)@ == old(self)@.with(c.0)
                &&& match (r, c.1) {
                    (Ok(_), Ok(_)) => true,
                    (Err(e), Err(f)) => e@ == f,
                    _ => false,
                }
            }),
    {
        let ghost all = move_views(records@);
        let mut i: usize = first;
        while i < records.len()
            invariant
                first <= i <= records@.len(),
                self.valid(),
                self.outside() == old(self).outside(),
                self@.used == old(self)@.used,
                all == move_views(records@),
                move_objects(old(self)@.data, all, first as int, remap@) == move_objects(
                    self@.data,
                    all,
                    i as int,
                    remap@,
                ),
            decreases records@.len() - i,
        {
            proof {
                assert(all[i as int] == records@[i as int]@);
            }
            self.patch_reference(&records[i], remap)?;
            self.copy_object(&records[i], remap)?;
            i = i + 1;
        }
        Ok(())
    }

    /// Pack the allocations of the area.
    ///
    /// Without holes nothing changes. Where the only hole is at the end, the
    /// fill mark is lowered. Else every allocation behind the first hole is
    /// moved towards the front, in order, and the references follow.
    pub fn compact_allocations(&mut self) -> (r: Result<CompactResult>)
        requires
            old(self).valid(),
        ensures
            final(self).valid(),
            final(self).outside() == old(self).outside(),
            final(self)@ == compact(old(self)@).0,
            match (r, compact(old(self)@).1) {
                (Ok(o), Ok(v)) => o@ == v,
                (Err(e), Err(f)) => e@ == f,
                _ => false,
            },
    {
        let bytes_used = self.bytes_used();
        let (records, has_dirty) = self.collect_compact_records()?;
        let initial = if has_dirty {
            INITIAL_BYTES_USED
        } else {
            PROP_TRIE_NODE_HEADER_SIZE
        };
        let (first_hole, cursor) = find_first_gap(&records, initial);
        match first_hole {
            None => {
                if cursor < bytes_used {
                    self.write_bytes_used(cursor);
                    return Ok(CompactResult::AdjustedBytesUsed { old: bytes_used, new: cursor });
                }
                Ok(CompactResult::NoHoles)
            },
            Some(first) => self.close_gaps(&records, first, cursor),
        }
    }
}

/// The index of the first allocation that leaves a gap behind `initial`, and
/// the end of the bytes covered before it.
fn find_first_gap(records: &Vec<CompactRecord>, initial: u32) -> (r: (Option<usize>, u32))
    ensures
        match (r.0, first_gap(move_views(records@), 0, initial as int).0) {
            (Some(i), Some(j)) => i == j && i < records@.len(),
            (None, None) => true,
            _ => false,
        },
        r.1 == first_gap(move_views(records@), 0, initial as int).1,
{
    let ghost all = move_views(records@);
    let mut cursor = initial;
    let mut i: usize = 0;
    while i < records.len()
        invariant
            i <= records@.len(),
            all == move_views(records@),
            first_gap(all, 0, initial as int) == first_gap(all, i as int, cursor as int),
        decreases records@.len() - i,
    {
        proof {
            assert(all[i as int] == records@[i as int]@);
        }
        if records[i].offset > cursor {
            return (Some(i), cursor);
        }
        let end = records[i].offset.wrapping_add(records[i].aligned_size);
        if end > cursor {
            cursor = end;
        }
        i = i + 1;
    }
    (None, cursor)
}

} // verus!
