//! Writing a property area that others read at the same time.
//!
//! [`MmapPropArea`] works on a copy of the area and lists the memory
//! operations that bring the shared area to the same state. Carrying them out
//! in order, with the memory ordering that each asks for, is left to whoever
//! holds the mapping.
use vstd::prelude::*;
use vstd::slice::slice_subrange;
use crate::area_edit::{initial_serial, lemma_legacy_message};
use crate::area_state::{lemma_dot_index, max_steps};
use crate::bytes::{
    find_nul, put_bytes, put_word, put_zeros, read_u32_at, str_from_utf8, text_bytes, u32_at,
    KeyOrder,
};
use crate::live_area::{
    hidden_serial, lemma_traverse_unchanged, live_add, live_allocate, live_child, live_find,
    live_inline_record, live_linked, live_long_record, live_node, live_prune, live_prune_link,
    live_read, live_remove, live_sibling, live_traverse, live_update, live_upsert, live_value,
    live_wipe, live_wipe_node, nonzero_count, outside, short_text, slot_view, string_len,
    tagged_serial, text_from_utf8_lossy, value_slot, visible_serial, whole_words, word, Live,
    MmapPropAreaError, MmapResult, OpView, Slot, SlotView,
};
use crate::context_table::find_dot;
use crate::prop_area::compare_names;
use crate::prop_info::{
    LONG_LEGACY_ERROR, PROP_AREA_MAGIC, PROP_AREA_VERSION, PROP_INFO_LONG_FLAG,
    PROP_VALUE_MAX,
};

verus! {

/// One operation on a shared area. Offsets count from the start of the data
/// region.
#[derive(Debug, Clone, PartialEq, Eq)]
pub enum MemOp {
    /// Copy bytes in.
    Bytes { at: u32, bytes: Vec<u8> },
    /// Zero some bytes.
    Zero { at: u32, len: u32 },
    /// Write a word that nobody reads yet.
    Word { at: u32, value: u32 },
    /// Store a word atomically.
    StoreRelaxed { at: u32, value: u32 },
    /// Store a word atomically, after all that was written before.
    StoreRelease { at: u32, value: u32 },
    /// Keep what was written before ahead of what is stored later.
    ReleaseFence,
    /// Wake those who wait for the word to change.
    Wake { at: u32 },
    /// Store the fill mark.
    StoreUsed { value: u32 },
    /// Store the serial of the area, after all that was written before.
    StoreAreaSerial { value: u32 },
    /// Wake those who wait for the serial of the area to change.
    WakeArea,
    /// Bump the serial of the area that counts all changes, and wake those
    /// who wait for it.
    BumpGlobalSerial,
}

impl View for MemOp {
    type V = OpView;

    open spec fn view(&self) -> OpView {
        match *self {
            MemOp::Bytes { at, bytes } => OpView::Bytes(at as int, bytes@),
            MemOp::Zero { at, len } => OpView::Zero(at as int, len as int),
            MemOp::Word { at, value } => OpView::Word(at as int, value as int),
            MemOp::StoreRelaxed { at, value } => OpView::StoreRelaxed(at as int, value as int),
            MemOp::StoreRelease { at, value } => OpView::StoreRelease(at as int, value as int),
            MemOp::ReleaseFence => OpView::ReleaseFence,
            MemOp::Wake { at } => OpView::Wake(at as int),
            MemOp::StoreUsed { value } => OpView::StoreUsed(value as int),
            MemOp::StoreAreaSerial { value } => OpView::StoreAreaSerial(value as int),
            MemOp::WakeArea => OpView::WakeArea,
            MemOp::BumpGlobalSerial => OpView::BumpGlobalSerial,
        }
    }
}

/// The serial of a new property.
pub fn compose_initial_serial(serial_len: u32, is_long: bool) -> (r: u32)
    ensures
        r == initial_serial(serial_len as int, is_long),
{
    let top = serial_len % 0x100 * 0x100_0000;
    if is_long {
        top + PROP_INFO_LONG_FLAG
    } else {
        top
    }
}

/// A serial with the given counter, length and layout.
fn compose_serial(counter: u32, serial_len: u32, is_long: bool) -> (r: u32)
    requires
        counter < 0x100_0000,
    ensures
        r == tagged_serial(counter as int, serial_len as int, is_long),
{
    let top = serial_len % 0x100 * 0x100_0000;
    if is_long && counter / 0x1_0000 % 2 == 0 {
        proof {
            assert((counter + 0x1_0000) < 0x100_0000) by (bit_vector)
                requires
                    counter < 0x100_0000,
                    counter / 0x1_0000 % 2 == 0,
            ;
        }
        top + (counter + PROP_INFO_LONG_FLAG)
    } else {
        top + counter
    }
}

/// The serial that shows an update.
pub fn compose_visible_serial(serial_dirty: u32, serial_len: u32, is_long: bool) -> (r: u32)
    ensures
        r == visible_serial(serial_dirty as int, serial_len as int, is_long),
{
    let counter = (serial_dirty % 0x100_0000 + 1) % 0x100_0000;
    compose_serial(counter, serial_len, is_long)
}

/// The serial that hides an update.
pub fn compose_hidden_serial(serial_dirty: u32, serial_len: u32, is_long: bool) -> (r: u32)
    ensures
        r == hidden_serial(serial_dirty as int, serial_len as int, is_long),
{
    compose_serial(serial_dirty % 0x100_0000 / 2 * 2, serial_len, is_long)
}

/// What the slot of a value looks like.
#[derive(Debug, Clone, Copy, PartialEq, Eq, Structural)]
pub struct ValueSlotInspect {
    pub is_long: bool,
    pub value_len: usize,
    pub tail_size: usize,
    pub tail_nonzero: usize,
}

impl View for ValueSlotInspect {
    type V = SlotView;

    open spec fn view(&self) -> SlotView {
        SlotView {
            is_long: self.is_long,
            value_len: self.value_len as int,
            tail_size: self.tail_size as int,
            tail_nonzero: self.tail_nonzero as int,
        }
    }
}

/// A copy of a shared area, and what has been done to it.
pub struct MmapPropArea {
    used: u32,
    serial: u32,
    data: Vec<u8>,
    ops: Vec<MemOp>,
}

impl View for MmapPropArea {
    type V = Live;

    closed spec fn view(&self) -> Live {
        Live {
            used: self.used as int,
            serial: self.serial as int,
            data: self.data@,
            ops: self.ops@.map_values(|op: MemOp| op@),
        }
    }
}

/// Whether an executable outcome is the given one.
pub open spec fn same_place(r: MmapResult<Option<u32>>, v: MmapResult<Option<int>>) -> bool {
    match (r, v) {
        (Ok(Some(a)), Ok(Some(b))) => a == b,
        (Ok(None), Ok(None)) => true,
        (Err(e), Err(f)) => e == f,
        _ => false,
    }
}

/// The number that an error reports for an offset.
fn offset_error(base: u32, delta: u32) -> (r: MmapPropAreaError)
    ensures
        r == outside(base + delta),
{
    MmapPropAreaError::InvalidOffset(if base > u32::MAX - delta { u32::MAX } else { base + delta })
}

impl MmapPropArea {
    /// Offsets fit in a word.
    pub closed spec fn valid(&self) -> bool {
        self.data@.len() <= u32::MAX
    }

    /// Start from a copy of the area, its header included.
    pub fn new(image: Vec<u8>) -> (r: MmapResult<MmapPropArea>)
        requires
            128 <= image@.len() <= 128 + u32::MAX,
        ensures
            match r {
                Ok(a) => {
                    &&& u32_at(image@, 8) == PROP_AREA_MAGIC
                    &&& u32_at(image@, 12) == PROP_AREA_VERSION
                    &&& a.valid()
                    &&& a@ == (Live {
                        used: u32_at(image@, 0),
                        serial: u32_at(image@, 4),
                        data: image@.skip(128),
                        ops: Seq::empty(),
                    })
                },
                Err(e) => if u32_at(image@, 8) != PROP_AREA_MAGIC {
                    e == MmapPropAreaError::InvalidMagic(u32_at(image@, 8) as u32)
                } else {
                    &&& u32_at(image@, 12) != PROP_AREA_VERSION
                    &&& e == MmapPropAreaError::InvalidVersion(u32_at(image@, 12) as u32)
                },
            },
    {
        let magic = read_u32_at(image.as_slice(), 8);
        let version = read_u32_at(image.as_slice(), 12);
        if magic != PROP_AREA_MAGIC {
            return Err(MmapPropAreaError::InvalidMagic(magic));
        }
        if version != PROP_AREA_VERSION {
            return Err(MmapPropAreaError::InvalidVersion(version));
        }
        let used = read_u32_at(image.as_slice(), 0);
        let serial = read_u32_at(image.as_slice(), 4);
        let data = crate::bytes::copy_range(image.as_slice(), 128, image.len());
        let a = MmapPropArea { used, serial, data, ops: Vec::new() };
        proof {
            assert(a@.data =~= image@.skip(128));
            assert(a@.ops =~= Seq::<OpView>::empty());
        }
        Ok(a)
    }

    /// Hand over the operations that were listed so far.
    pub fn take_ops(&mut self) -> (r: Vec<MemOp>)
        requires
            old(self).valid(),
        ensures
            r@.map_values(|op: MemOp| op@) == old(self)@.ops,
            final(self)@ == (Live { ops: Seq::empty(), ..old(self)@ }),
            final(self).valid(),
    {
        let mut out: Vec<MemOp> = Vec::new();
        core::mem::swap(&mut out, &mut self.ops);
        proof {
            assert(self@.ops =~= Seq::<OpView>::empty());
        }
        out
    }

    /// List an operation that was carried out on the copy.
    fn log(&mut self, op: MemOp)
        ensures
            final(self).used == old(self).used,
            final(self).serial == old(self).serial,
            final(self).data == old(self).data,
            final(self)@.ops == old(self)@.ops.push(op@),
    {
        let ghost v = op@;
        self.ops.push(op);
        proof {
            assert(self@.ops =~= old(self)@.ops.push(v));
        }
    }

    fn copy_in(&mut self, at: u32, bytes: &[u8])
        requires
            old(self).valid(),
            at + bytes@.len() <= old(self)@.data.len(),
        ensures
            final(self).valid(),
            final(self)@ == old(self)@.emit(OpView::Bytes(at as int, bytes@)),
            final(self)@.data.len() == old(self)@.data.len(),
    {
        reveal(Live::emit);
        put_bytes(&mut self.data, at as usize, bytes);
        let copy = crate::bytes::copy_range(bytes, 0, bytes.len());
        proof {
            assert(copy@ =~= bytes@);
        }
        self.log(MemOp::Bytes { at, bytes: copy });
    }

    fn zero_out(&mut self, at: u32, len: u32)
        requires
            old(self).valid(),
            at + len <= old(self)@.data.len(),
        ensures
            final(self).valid(),
            final(self)@ == old(self)@.emit(OpView::Zero(at as int, len as int)),
            final(self)@.data.len() == old(self)@.data.len(),
    {
        reveal(Live::emit);
        put_zeros(&mut self.data, at as usize, len as usize);
        self.log(MemOp::Zero { at, len });
    }

    fn write_word(&mut self, at: u32, value: u32)
        requires
            old(self).valid(),
            at + 4 <= old(self)@.data.len(),
        ensures
            final(self).valid(),
            final(self)@ == old(self)@.emit(OpView::Word(at as int, value as int)),
            final(self)@.data.len() == old(self)@.data.len(),
    {
        reveal(Live::emit);
        put_word(&mut self.data, at as usize, value);
        self.log(MemOp::Word { at, value });
    }

    fn store_relaxed(&mut self, at: u32, value: u32)
        requires
            old(self).valid(),
            at + 4 <= old(self)@.data.len(),
        ensures
            final(self).valid(),
            final(self)@ == old(self)@.emit(OpView::StoreRelaxed(at as int, value as int)),
            final(self)@.data.len() == old(self)@.data.len(),
    {
        reveal(Live::emit);
        put_word(&mut self.data, at as usize, value);
        self.log(MemOp::StoreRelaxed { at, value });
    }

    fn store_release(&mut self, at: u32, value: u32)
        requires
            old(self).valid(),
            at + 4 <= old(self)@.data.len(),
        ensures
            final(self).valid(),
            final(self)@ == old(self)@.emit(OpView::StoreRelease(at as int, value as int)),
            final(self)@.data.len() == old(self)@.data.len(),
    {
        reveal(Live::emit);
        put_word(&mut self.data, at as usize, value);
        self.log(MemOp::StoreRelease { at, value });
    }

    fn release_fence(&mut self)
        requires
            old(self).valid(),
        ensures
            final(self).valid(),
            final(self)@ == old(self)@.emit(OpView::ReleaseFence),
            final(self)@.data.len() == old(self)@.data.len(),
    {
        reveal(Live::emit);
        self.log(MemOp::ReleaseFence);
    }

    fn wake(&mut self, at: u32)
        requires
            old(self).valid(),
        ensures
            final(self).valid(),
            final(self)@ == old(self)@.emit(OpView::Wake(at as int)),
            final(self)@.data.len() == old(self)@.data.len(),
    {
        reveal(Live::emit);
        self.log(MemOp::Wake { at });
    }

    fn bump_global_serial(&mut self)
        requires
            old(self).valid(),
        ensures
            final(self).valid(),
            final(self)@ == old(self)@.emit(OpView::BumpGlobalSerial),
            final(self)@.data.len() == old(self)@.data.len(),
    {
        reveal(Live::emit);
        self.log(MemOp::BumpGlobalSerial);
    }

    /// Count one more change in the serial of the area, and wake those who
    /// wait for it.
    pub fn bump_area_serial_and_wake(&mut self)
        requires
            old(self).valid(),
        ensures
            final(self).valid(),
            final(self)@ == old(self)@.emit(
                OpView::StoreAreaSerial((old(self)@.serial + 1) % 0x1_0000_0000),
            ).emit(OpView::WakeArea),
    {
        reveal(Live::emit);
        let value = self.serial.wrapping_add(1);
        self.serial = value;
        self.log(MemOp::StoreAreaSerial { value });
        self.log(MemOp::WakeArea);
    }

    /// The word at `base + delta`.
    fn read_word(&self, base: u32, delta: u32) -> (r: Option<u32>)
        requires
            self.valid(),
        ensures
            match r {
                Some(v) => word(self@.data, base + delta) == Some(v as int),
                None => word(self@.data, base + delta) is None,
            },
    {
        let n = self.data.len();
        if n < 4 || base as usize > n - 4 || delta as usize > n - 4 - base as usize {
            return None;
        }
        Some(read_u32_at(self.data.as_slice(), base as usize + delta as usize))
    }

    fn store_used(&mut self, value: u32)
        requires
            old(self).valid(),
        ensures
            final(self).valid(),
            final(self)@ == old(self)@.emit(OpView::StoreUsed(value as int)),
            final(self)@.data.len() == old(self)@.data.len(),
    {
        reveal(Live::emit);
        self.used = value;
        self.log(MemOp::StoreUsed { value });
    }

    /// Take `size` bytes, rounded up to words, at the fill mark.
    fn allocate(&mut self, size: usize) -> (r: MmapResult<u32>)
        requires
            old(self).valid(),
        ensures
            final(self).valid(),
            match (r, live_allocate(old(self)@, size as int)) {
                (Ok(off), (m, Some(v))) => {
                    &&& off == v
                    &&& final(self)@ == m
                    &&& off + size <= m.data.len()
                    &&& m.data.len() == old(self)@.data.len()
                },
                (Err(e), (m, None)) => e == MmapPropAreaError::AreaFull && final(self)@ == m,
                _ => false,
            },
    {
        let total = self.data.len();
        let used = self.used;
        if used as usize > total || size > total - used as usize {
            return Err(MmapPropAreaError::AreaFull);
        }
        let room = total - used as usize;
        let odd = size % 4;
        let pad = if odd == 0 { 0 } else { 4 - odd };
        if pad > room - size {
            proof {
                assert(whole_words(size as int) == size + pad);
            }
            return Err(MmapPropAreaError::AreaFull);
        }
        proof {
            assert(whole_words(size as int) == size + pad);
        }
        self.store_used(used + (size + pad) as u32);
        Ok(used)
    }

    /// Add an unlinked node.
    fn new_trie_node(&mut self, name: &[u8]) -> (r: MmapResult<u32>)
        requires
            old(self).valid(),
        ensures
            final(self).valid(),
            match (r, live_node(old(self)@, name@)) {
                (Ok(off), (m, Some(v))) => {
                    &&& off == v
                    &&& final(self)@ == m
                    &&& off + 21 + name@.len() <= m.data.len()
                    &&& m.data.len() == old(self)@.data.len()
                },
                (Err(e), (m, None)) => e == MmapPropAreaError::AreaFull && final(self)@ == m,
                _ => false,
            },
    {
        if name.len() > self.data.len() {
            return Err(MmapPropAreaError::AreaFull);
        }
        if name.len() > usize::MAX - 21 {
            return Err(MmapPropAreaError::AreaFull);
        }
        let off = self.allocate(21 + name.len())?;
        let n = name.len() as u32;
        self.write_word(off, n);
        self.write_word(off + 4, 0);
        self.write_word(off + 8, 0);
        self.write_word(off + 12, 0);
        self.write_word(off + 16, 0);
        self.copy_in(off + 20, name);
        self.zero_out(off + 20 + n, 1);
        Ok(off)
    }

    /// Add a node and let the word at `at` refer to it.
    fn new_linked_node(&mut self, at: u32, name: &[u8]) -> (r: MmapResult<u32>)
        requires
            old(self).valid(),
            at + 4 <= old(self)@.data.len(),
        ensures
            final(self).valid(),
            match (r, live_linked(old(self)@, at as int, name@)) {
                (Ok(off), (m, Ok(Some(v)))) => off == v && final(self)@ == m,
                (Err(e), (m, Err(f))) => e == f && final(self)@ == m,
                _ => false,
            },
    {
        let off = self.new_trie_node(name)?;
        self.store_release(at, off);
        Ok(off)
    }

    /// How many siblings a search visits at most.
    fn sibling_limit(&self) -> (r: usize)
        ensures
            r == max_steps(self@.data.len() as int),
    {
        let n = self.data.len() / 20;
        if n >= 1 {
            n
        } else {
            1
        }
    }

    /// The sibling called `key` in the search tree at `trie_off`. Where there
    /// is none, one is added if `alloc_if_needed` says so.
    fn find_trie_node(&mut self, trie_off: u32, key: &[u8], alloc_if_needed: bool, limit: usize)
        -> (r: MmapResult<Option<u32>>)
        requires
            old(self).valid(),
        ensures
            final(self).valid(),
            ({
                let (m, v) = live_sibling(
                    old(self)@,
                    trie_off as int,
                    key@,
                    alloc_if_needed,
                    limit as nat,
                );
                final(self)@ == m && same_place(r, v)
            }),
    {
        let mut current = trie_off;
        let mut left: usize = limit;
        while left > 0
            invariant
                self.valid(),
                self@ == old(self)@,
                live_sibling(
                    old(self)@,
                    trie_off as int,
                    key@,
                    alloc_if_needed,
                    limit as nat,
                ) == live_sibling(
                    self@,
                    current as int,
                    key@,
                    alloc_if_needed,
                    left as nat,
                ),
            decreases left,
        {
            let total = self.data.len();
            let at = current as usize;
            if total < 20 || at > total - 20 {
                return Err(offset_error(current, 0));
            }
            let n = read_u32_at(self.data.as_slice(), at);
            if n as usize > total - 20 - at {
                return Err(offset_error(current, 0));
            }
            let name = slice_subrange(self.data.as_slice(), at + 20, at + 20 + n as usize);
            let link = match compare_names(key, name) {
                KeyOrder::Equal => {
                    return Ok(Some(current));
                },
                KeyOrder::Less => current + 8,
                KeyOrder::Greater => current + 12,
            };
            let next = read_u32_at(self.data.as_slice(), link as usize);
            if next == 0 {
                if alloc_if_needed {
                    let new = self.new_linked_node(link, key)?;
                    return Ok(Some(new));
                }
                return Ok(None);
            }
            current = next;
            left = left - 1;
        }
        Err(offset_error(current, 0))
    }

    /// The child called `piece` of the node at `off`.
    fn find_child(&mut self, off: u32, piece: &[u8], alloc_if_needed: bool) -> (r: MmapResult<
        Option<u32>,
    >)
        requires
            old(self).valid(),
        ensures
            final(self).valid(),
            ({
                let (m, v) = live_child(old(self)@, off as int, piece@, alloc_if_needed);
                final(self)@ == m && same_place(r, v)
            }),
    {
        if piece.len() == 0 {
            return Err(MmapPropAreaError::InvalidKey);
        }
        let limit = self.sibling_limit();
        let children = match self.read_word(off, 16) {
            Some(children) => children,
            None => {
                return Err(offset_error(off, 16));
            },
        };
        if children != 0 {
            return self.find_trie_node(children, piece, alloc_if_needed, limit);
        }
        if !alloc_if_needed {
            return Ok(None);
        }
        let new = self.new_linked_node(off + 16, piece)?;
        self.find_trie_node(new, piece, alloc_if_needed, limit)
    }

    /// The node of the property called `name`. Nodes that are missing are
    /// added if `alloc_if_needed` says so.
    fn traverse_trie(&mut self, name: &[u8], alloc_if_needed: bool) -> (r: MmapResult<Option<u32>>)
        requires
            old(self).valid(),
        ensures
            final(self).valid(),
            ({
                let (m, v) = live_traverse(old(self)@, 0, name@, alloc_if_needed);
                final(self)@ == m && same_place(r, v)
            }),
    {
        let mut current: u32 = 0;
        let mut from: usize = 0;
        let total = name.len();
        proof {
            assert(name@.skip(0) =~= name@);
        }
        loop
            invariant
                self.valid(),
                from <= total == name@.len(),
                live_traverse(old(self)@, 0, name@, alloc_if_needed) == live_traverse(
                    self@,
                    current as int,
                    name@.skip(from as int),
                    alloc_if_needed,
                ),
            decreases total - from,
        {
            let rest = slice_subrange(name, from, total);
            let dot = find_dot(rest);
            proof {
                assert(rest@ =~= name@.skip(from as int));
                lemma_dot_index(rest@, 0);
            }
            let piece = slice_subrange(rest, 0, dot);
            proof {
                assert(piece@ =~= rest@.take(dot as int));
            }
            match self.find_child(current, piece, alloc_if_needed)? {
                None => {
                    return Ok(None);
                },
                Some(next) => {
                    if dot >= rest.len() {
                        return Ok(Some(next));
                    }
                    proof {
                        assert(rest@.skip(dot + 1) =~= name@.skip(from + dot + 1));
                    }
                    current = next;
                    from = from + dot + 1;
                },
            }
        }
    }

    /// Where the record of the property called `name` stands.
    pub fn find(&mut self, name: &str) -> (r: MmapResult<Option<u32>>)
        requires
            old(self).valid(),
        ensures
            final(self).valid(),
            final(self)@ == old(self)@,
            same_place(r, live_find(old(self)@, text_bytes(name@))),
    {
        proof {
            lemma_traverse_unchanged(self@, 0, text_bytes(name@));
        }
        match self.traverse_trie(name.as_bytes(), false)? {
            None => Ok(None),
            Some(node) => match self.read_word(node, 4) {
                None => Err(offset_error(node, 4)),
                Some(prop) => Ok(
                    if prop != 0 {
                        Some(prop)
                    } else {
                        None
                    },
                ),
            },
        }
    }

    /// Take the bytes of a record.
    fn allocate_record(&mut self, name: &[u8]) -> (r: MmapResult<u32>)
        requires
            old(self).valid(),
        ensures
            final(self).valid(),
            match (r, live_allocate(old(self)@, 97 + name@.len() as int)) {
                (Ok(off), (m, Some(v))) => {
                    &&& off == v
                    &&& final(self)@ == m
                    &&& off + 97 + name@.len() <= m.data.len()
                    &&& m.data.len() == old(self)@.data.len()
                },
                (Err(e), (m, None)) => e == MmapPropAreaError::AreaFull && final(self)@ == m,
                _ => false,
            },
    {
        if name.len() > self.data.len() || name.len() > usize::MAX - 97 {
            return Err(MmapPropAreaError::AreaFull);
        }
        self.allocate(97 + name.len())
    }

    /// Add an unlinked record with an inline value.
    fn new_prop_info_inline(&mut self, name: &[u8], value: &[u8]) -> (r: MmapResult<u32>)
        requires
            old(self).valid(),
            value@.len() < 92,
        ensures
            final(self).valid(),
            match (r, live_inline_record(old(self)@, name@, value@)) {
                (Ok(off), (m, Some(v))) => {
                    &&& off == v
                    &&& final(self)@ == m
                    &&& m.data.len() == old(self)@.data.len()
                },
                (Err(e), (m, None)) => e == MmapPropAreaError::AreaFull && final(self)@ == m,
                _ => false,
            },
    {
        let off = self.allocate_record(name)?;
        let n = name.len() as u32;
        let len = value.len() as u32;
        self.copy_in(off + 4, value);
        self.zero_out(off + 4 + len, 1);
        self.copy_in(off + 96, name);
        self.zero_out(off + 96 + n, 1);
        self.store_relaxed(off, compose_initial_serial(len, false));
        Ok(off)
    }

    /// Add an unlinked record with a long value.
    fn new_prop_info_long(&mut self, name: &[u8], value: &[u8]) -> (r: MmapResult<u32>)
        requires
            old(self).valid(),
        ensures
            final(self).valid(),
            match (r, live_long_record(old(self)@, name@, value@)) {
                (Ok(off), (m, Some(v))) => {
                    &&& off == v
                    &&& final(self)@ == m
                    &&& m.data.len() == old(self)@.data.len()
                },
                (Err(e), (m, None)) => e == MmapPropAreaError::AreaFull && final(self)@ == m,
                _ => false,
            },
    {
        let off = self.allocate_record(name)?;
        if value.len() >= self.data.len() {
            return Err(MmapPropAreaError::AreaFull);
        }
        proof {
            reveal(Live::emit);
            lemma_legacy_message();
        }
        let at = self.allocate(value.len() + 1)?;
        let n = name.len() as u32;
        let len = value.len() as u32;
        self.copy_in(off + 4, LONG_LEGACY_ERROR.as_bytes());
        self.zero_out(off + 54, 1);
        self.write_word(off + 60, at - off);
        self.copy_in(at, value);
        self.zero_out(at + len, 1);
        self.copy_in(off + 96, name);
        self.zero_out(off + 96 + n, 1);
        self.store_relaxed(off, compose_initial_serial(50, true));
        Ok(off)
    }

    /// The length of the NUL-terminated string at `base + delta`.
    fn string_length(&self, base: u32, delta: u32) -> (r: Option<u32>)
        requires
            self.valid(),
        ensures
            match r {
                Some(n) => string_len(self@.data, base + delta) == Some(n as int)
                    && base + delta + n < self@.data.len(),
                None => string_len(self@.data, base + delta) is None,
            },
    {
        let total = self.data.len();
        if base as usize >= total || delta as usize >= total - base as usize {
            return None;
        }
        let at = base as usize + delta as usize;
        let end = find_nul(self.data.as_slice(), at, total);
        if end >= total {
            None
        } else {
            Some((end - at) as u32)
        }
    }

    /// Where the value of the record at `off` goes.
    fn find_slot(&self, off: u32) -> (r: MmapResult<(bool, u32, u32)>)
        requires
            self.valid(),
        ensures
            match (r, value_slot(self@.data, off as int)) {
                (Ok((is_long, at, room)), Ok(slot)) => {
                    &&& slot == (Slot { is_long, at: at as int, room: room as int })
                    &&& off + 96 <= self@.data.len()
                    &&& is_long ==> at + room < self@.data.len()
                    &&& !is_long ==> at == off + 4 && room == 91
                },
                (Err(e), Err(f)) => e == f,
                _ => false,
            },
    {
        let total = self.data.len();
        if total < 96 || off as usize > total - 96 {
            return Err(offset_error(off, 0));
        }
        let serial = read_u32_at(self.data.as_slice(), off as usize);
        if serial / 0x1_0000 % 2 == 0 {
            return Ok((false, off + 4, 91));
        }
        let rel = read_u32_at(self.data.as_slice(), off as usize + 60);
        let n = match self.string_length(off, rel) {
            Some(n) => n,
            None => {
                return Err(offset_error(off, rel));
            },
        };
        let at = off + rel;
        let odd = (n as usize + 1) % 4;
        let pad = if odd == 0 { 0 } else { 4 - odd };
        proof {
            assert(whole_words(n + 1) == n + 1 + pad);
        }
        if pad > total - at as usize - (n as usize + 1) {
            return Err(offset_error(off, rel));
        }
        Ok((true, at, n + pad as u32))
    }

    /// Write a value to a slot.
    fn write_value(&mut self, is_long: bool, at: u32, room: u32, value: &[u8])
        requires
            old(self).valid(),
            value@.len() <= room,
            is_long ==> at + room < old(self)@.data.len(),
            !is_long ==> room == 91 && at + 92 <= old(self)@.data.len(),
        ensures
            final(self).valid(),
            final(self)@ == live_value(
                old(self)@,
                (Slot { is_long, at: at as int, room: room as int }),
                value@,
            ),
            final(self)@.data.len() == old(self)@.data.len(),
    {
        let n = value.len() as u32;
        self.copy_in(at, value);
        if !is_long {
            self.zero_out(at + n, 92 - n);
        } else {
            self.zero_out(at + n, 1);
            if n < room {
                self.zero_out(at + n + 1, room - (n + 1));
            }
        }
    }

    /// Give the record at `data_off` a new value.
    pub fn update(&mut self, data_off: u32, value: &str) -> (r: MmapResult<()>)
        requires
            old(self).valid(),
        ensures
            final(self).valid(),
            ({
                let (m, v) = live_update(old(self)@, data_off as int, text_bytes(value@));
                final(self)@ == m && r == v
            }),
    {
        reveal(live_update);
        let bytes = value.as_bytes();
        let (is_long, at, room) = self.find_slot(data_off)?;
        if bytes.len() > room as usize {
            return Err(MmapPropAreaError::ValueTooLong { len: bytes.len() });
        }
        let old_serial = read_u32_at(self.data.as_slice(), data_off as usize);
        let serial_dirty = old_serial / 2 * 2 + 1;
        self.store_relaxed(data_off, serial_dirty);
        self.write_value(is_long, at, room, bytes);
        let len: u32 = if is_long { 50 } else { bytes.len() as u32 };
        self.release_fence();
        self.store_relaxed(data_off, compose_visible_serial(serial_dirty, len, is_long));
        self.wake(data_off);
        self.bump_global_serial();
        self.release_fence();
        self.store_relaxed(data_off, compose_hidden_serial(serial_dirty, len, is_long));
        Ok(())
    }

    /// Add the property called `name`; update it where it is there.
    pub fn add(&mut self, name: &str, value: &str) -> (r: MmapResult<()>)
        requires
            old(self).valid(),
        ensures
            final(self).valid(),
            ({
                let (m, v) = live_add(old(self)@, text_bytes(name@), text_bytes(value@));
                final(self)@ == m && r == v
            }),
    {
        let node = match self.traverse_trie(name.as_bytes(), true)? {
            Some(node) => node,
            None => {
                return Err(MmapPropAreaError::InvalidKey);
            },
        };
        let existing = match self.read_word(node, 4) {
            Some(existing) => existing,
            None => {
                return Err(offset_error(node, 4));
            },
        };
        if existing != 0 {
            return self.update(existing, value);
        }
        let bytes = value.as_bytes();
        let off = if bytes.len() >= PROP_VALUE_MAX {
            self.new_prop_info_long(name.as_bytes(), bytes)?
        } else {
            self.new_prop_info_inline(name.as_bytes(), bytes)?
        };
        self.store_release(node + 4, off);
        self.bump_global_serial();
        Ok(())
    }

    /// Update the property called `name`, or add it where there is none.
    pub fn upsert(&mut self, name: &str, value: &str) -> (r: MmapResult<()>)
        requires
            old(self).valid(),
        ensures
            final(self).valid(),
            ({
                let (m, v) = live_upsert(old(self)@, text_bytes(name@), text_bytes(value@));
                final(self)@ == m && r == v
            }),
    {
        match self.find(name)? {
            Some(off) => self.update(off, value),
            None => self.add(name, value),
        }
    }

    /// Remove the nodes below `node_off` that lead to no property; whether
    /// the node itself was removed.
    fn prune_trie(&mut self, node_off: u32, depth: u64) -> (r: MmapResult<bool>)
        requires
            old(self).valid(),
        ensures
            final(self).valid(),
            final(self)@.data.len() == old(self)@.data.len(),
            ({
                let (m, v) = live_prune(old(self)@, node_off as int, depth as nat);
                final(self)@ == m && r == v
            }),
        decreases depth, 0int,
    {
        let total = self.data.len();
        if depth == 0 || total < 20 || node_off as usize > total - 20 {
            return Err(offset_error(node_off, 0));
        }
        let kids = self.prune_link(node_off + 16, depth - 1)?;
        let left = self.prune_link(node_off + 8, depth - 1)?;
        let right = self.prune_link(node_off + 12, depth - 1)?;
        let prop = read_u32_at(self.data.as_slice(), node_off as usize + 4);
        if kids && left && right && prop == 0 {
            self.wipe_node(node_off);
            Ok(true)
        } else {
            Ok(false)
        }
    }

    /// Prune what the word at `at` refers to; whether nothing is left there.
    fn prune_link(&mut self, at: u32, depth: u64) -> (r: MmapResult<bool>)
        requires
            old(self).valid(),
            at + 4 <= old(self)@.data.len(),
        ensures
            final(self).valid(),
            final(self)@.data.len() == old(self)@.data.len(),
            ({
                let (m, v) = live_prune_link(old(self)@, at as int, depth as nat);
                final(self)@ == m && r == v
            }),
        decreases depth, 1int,
    {
        let link = read_u32_at(self.data.as_slice(), at as usize);
        if link == 0 {
            return Ok(true);
        }
        let gone = self.prune_trie(link, depth)?;
        if gone {
            self.store_release(at, 0);
        }
        Ok(gone)
    }

    /// Zero a node.
    fn wipe_node(&mut self, off: u32)
        requires
            old(self).valid(),
            off + 20 <= old(self)@.data.len(),
        ensures
            final(self).valid(),
            final(self)@.data.len() == old(self)@.data.len(),
            final(self)@ == live_wipe_node(old(self)@, off as int),
    {
        let n = read_u32_at(self.data.as_slice(), off as usize);
        if n as usize <= self.data.len() - 20 - off as usize {
            self.zero_out(off + 20, n);
        }
        self.zero_out(off, 20);
    }

    /// Zero the record at `off`, and its long value where it has one.
    fn wipe_prop_info(&mut self, off: u32, is_long: bool) -> (r: MmapResult<()>)
        requires
            old(self).valid(),
            off + 96 <= old(self)@.data.len(),
        ensures
            final(self).valid(),
            final(self)@.data.len() == old(self)@.data.len(),
            ({
                let (m, v) = live_wipe(old(self)@, off as int, is_long);
                final(self)@ == m && r == v
            }),
    {
        if is_long {
            let rel = read_u32_at(self.data.as_slice(), off as usize + 60);
            match self.string_length(off, rel) {
                Some(n) => {
                    self.zero_out(off + rel, n);
                },
                None => {
                    return Err(offset_error(off, rel));
                },
            }
        }
        match self.string_length(off, 96) {
            Some(n) => {
                self.zero_out(off + 96, n);
            },
            None => {
                return Err(offset_error(off, 96));
            },
        }
        self.zero_out(off, 96);
        Ok(())
    }

    /// Remove the property called `name`; whether there was one.
    pub fn remove(&mut self, name: &str) -> (r: MmapResult<bool>)
        requires
            old(self).valid(),
        ensures
            final(self).valid(),
            ({
                let (m, v) = live_remove(old(self)@, text_bytes(name@), true);
                final(self)@ == m && r == v
            }),
    {
        self.remove_with_prune(name, true)
    }

    /// Remove the property called `name`, and the nodes that lead to no
    /// property any more if `prune` says so; whether there was one.
    pub fn remove_with_prune(&mut self, name: &str, prune: bool) -> (r: MmapResult<bool>)
        requires
            old(self).valid(),
        ensures
            final(self).valid(),
            ({
                let (m, v) = live_remove(old(self)@, text_bytes(name@), prune);
                final(self)@ == m && r == v
            }),
    {
        proof {
            lemma_traverse_unchanged(self@, 0, text_bytes(name@));
        }
        let node = match self.traverse_trie(name.as_bytes(), false)? {
            Some(node) => node,
            None => {
                return Ok(false);
            },
        };
        let prop = match self.read_word(node, 4) {
            Some(prop) => prop,
            None => {
                return Err(offset_error(node, 4));
            },
        };
        if prop == 0 {
            return Ok(false);
        }
        let total = self.data.len();
        if total < 96 || prop as usize > total - 96 {
            return Err(offset_error(prop, 0));
        }
        let serial = read_u32_at(self.data.as_slice(), prop as usize);
        self.store_release(node + 4, 0);
        self.wipe_prop_info(prop, serial / 0x1_0000 % 2 == 1)?;
        if prune {
            let _ = self.prune_trie(0, total as u64 + 1);
        }
        Ok(true)
    }

    /// The serial of the record at `data_off`.
    pub fn read_serial(&self, data_off: u32) -> (r: MmapResult<u32>)
        requires
            self.valid(),
        ensures
            match word(self@.data, data_off as int) {
                Some(v) => r is Ok && r->Ok_0 == v,
                None => r == MmapResult::<u32>::Err(outside(data_off as int)),
            },
    {
        match self.read_word(data_off, 0) {
            Some(v) => Ok(v),
            None => Err(offset_error(data_off, 0)),
        }
    }

    /// The text that ends at a NUL byte among the `limit + 1` bytes at
    /// `base + delta`.
    fn read_cstr_data(&self, base: u32, delta: u32, limit: usize) -> (r: Option<String>)
        requires
            self.valid(),
            limit < 0x1_0000,
        ensures
            match r {
                Some(s) => short_text(self@.data, base + delta, limit as int) == Some(s@),
                None => short_text(self@.data, base + delta, limit as int) is None,
            },
    {
        let total = self.data.len();
        if base as usize >= total || delta as usize >= total - base as usize {
            return None;
        }
        let at = base as usize + delta as usize;
        let end = if total - at <= limit + 1 { total } else { at + limit + 1 };
        let nul = find_nul(self.data.as_slice(), at, end);
        if nul >= end {
            return None;
        }
        match str_from_utf8(slice_subrange(self.data.as_slice(), at, nul)) {
            Some(s) => Some(s.to_owned()),
            None => None,
        }
    }

    /// The name and the value of the record at `data_off`.
    pub fn read_prop(&self, data_off: u32) -> (r: Option<(String, String)>)
        requires
            self.valid(),
        ensures
            match r {
                Some((name, value)) => live_read(self@.data, data_off as int) == Some(
                    (name@, value@),
                ),
                None => live_read(self@.data, data_off as int) is None,
            },
    {
        let total = self.data.len();
        if total < 96 || data_off as usize > total - 96 {
            return None;
        }
        let serial = read_u32_at(self.data.as_slice(), data_off as usize);
        let name = match self.read_cstr_data(data_off, 96, 256) {
            Some(name) => name,
            None => {
                return None;
            },
        };
        if serial / 0x1_0000 % 2 == 1 {
            let rel = read_u32_at(self.data.as_slice(), data_off as usize + 60);
            return match self.read_cstr_data(data_off, rel, 1024) {
                Some(value) => Some((name, value)),
                None => None,
            };
        }
        let noted = (serial / 0x100_0000) as usize;
        let len = if noted <= PROP_VALUE_MAX { noted } else { PROP_VALUE_MAX };
        let at = data_off as usize + 4;
        let value = text_from_utf8_lossy(slice_subrange(self.data.as_slice(), at, at + len));
        Some((name, value))
    }

    /// What the slot of the property called `name` looks like.
    pub fn inspect_value_slot(&mut self, name: &str) -> (r: MmapResult<Option<ValueSlotInspect>>)
        requires
            old(self).valid(),
        ensures
            final(self).valid(),
            final(self)@ == old(self)@,
            match live_find(old(self)@, text_bytes(name@)) {
                Err(e) => r == MmapResult::<Option<ValueSlotInspect>>::Err(e),
                Ok(None) => r is Ok && r->Ok_0 is None,
                Ok(Some(off)) => match slot_view(old(self)@.data, off) {
                    Err(e) => r == MmapResult::<Option<ValueSlotInspect>>::Err(e),
                    Ok(v) => r is Ok && r->Ok_0 is Some && (r->Ok_0->0)@ == v,
                },
            },
    {
        let off = match self.find(name)? {
            Some(off) => off,
            None => {
                return Ok(None);
            },
        };
        let total = self.data.len();
        if total < 96 || off as usize > total - 96 {
            return Err(offset_error(off, 0));
        }
        let serial = read_u32_at(self.data.as_slice(), off as usize);
        if serial / 0x1_0000 % 2 == 1 {
            let rel = read_u32_at(self.data.as_slice(), off as usize + 60);
            return match self.string_length(off, rel) {
                None => Err(offset_error(off, rel)),
                Some(n) => Ok(
                    Some(
                        ValueSlotInspect {
                            is_long: true,
                            value_len: n as usize,
                            tail_size: 0,
                            tail_nonzero: 0,
                        },
                    ),
                ),
            };
        }
        let noted = (serial / 0x100_0000) as usize;
        let value_len = if noted <= PROP_VALUE_MAX { noted } else { PROP_VALUE_MAX };
        let from = off as usize + 4 + value_len;
        let to = off as usize + 96;
        let mut i: usize = from;
        let mut tail_nonzero: usize = 0;
        while i < to
            invariant
                from <= i <= to <= self.data@.len(),
                tail_nonzero == nonzero_count(self.data@, from as int, i as int),
                tail_nonzero <= i - from,
            decreases to - i,
        {
            if self.data[i] != 0 {
                tail_nonzero = tail_nonzero + 1;
            }
            i = i + 1;
        }
        Ok(
            Some(
                ValueSlotInspect {
                    is_long: false,
                    value_len,
                    tail_size: PROP_VALUE_MAX - value_len,
                    tail_nonzero,
                },
            ),
        )
    }
}

} // verus!
