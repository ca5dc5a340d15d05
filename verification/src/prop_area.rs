//! Property areas: a trie of property records in one block of bytes.
use crate::area_edit::{
    allocate, attach_record, create_linked, create_node, create_record, delete, detach_record,
    ensure_child, ensure_path, ensure_sibling, initial_serial, inline_laid, lemma_legacy_message,
    lemma_prune_len, long_laid, prune, prune_link, serial_len, set_value, set_with_serial,
    updated_serial, wipe_node, wipe_record,
};
use crate::area_state::{
    all_properties, c_string, c_text, descend, find_node, find_sibling, key_ok,
    lemma_record_in_range, lemma_dot_index_is, long_serial, lookup, lookup_value, max_steps,
    name_order, own_property, prop_view, read_node, read_record, segments, walk, walk_link,
    fresh_area, fresh_header, lemma_fresh_header, marks_area, open_area, AreaFault, AreaState,
    NodeView, RecordView, WriteView,
};
use crate::bytes::{
    compare_bytes, copy_range, find_nul, le_bytes, lemma_le_bytes_of, lemma_nul_index,
    lemma_put_u32, lemma_text_round_trip, lemma_word_bounds, put, put_bytes, put_u32, put_word,
    put_zeros, read_u32_at, text_bytes, text_from_utf8, u32_at, zero, KeyOrder,
};
use crate::prop_info::{
    align4, align_up, PropView, PropertyInfo, INITIAL_BYTES_USED, LONG_LEGACY_ERROR,
    LONG_LEGACY_ERROR_LEN, LONG_OFFSET_IN_INFO, PROP_AREA_HEADER_SIZE, PROP_AREA_MAGIC,
    PROP_AREA_VERSION, PROP_INFO_LONG_FLAG, PROP_INFO_SIZE, PROP_TRIE_NODE_HEADER_SIZE,
    PROP_VALUE_MAX,
};
use crate::offset_set::OffsetSet;
use vstd::prelude::*;
use vstd::utf8::valid_utf8;

verus! {

/// Why an operation on a property area fails.
#[derive(Debug)]
pub enum PropAreaError {
    /// A stored string is not UTF-8; the offending bytes.
    Utf8(Vec<u8>),
    AreaTooSmall(u64),
    AreaTooLarge(u64),
    InvalidMagic(u32),
    InvalidVersion(u32),
    InvalidBytesUsed(u32),
    InvalidOffset(u32),
    InvalidKey(String),
    InPlaceUpdateTooLong { name: String, new_len: usize, max_len: usize },
    Corrupted(&'static str),
    AreaFull { requested: u32, available: u32 },
}

impl View for PropAreaError {
    type V = AreaFault;

    open spec fn view(&self) -> AreaFault {
        match *self {
            PropAreaError::Utf8(b) => AreaFault::Utf8(b@),
            PropAreaError::AreaTooSmall(n) => AreaFault::AreaTooSmall(n as int),
            PropAreaError::AreaTooLarge(n) => AreaFault::AreaTooLarge(n as int),
            PropAreaError::InvalidMagic(n) => AreaFault::InvalidMagic(n as int),
            PropAreaError::InvalidVersion(n) => AreaFault::InvalidVersion(n as int),
            PropAreaError::InvalidBytesUsed(n) => AreaFault::InvalidBytesUsed(n as int),
            PropAreaError::InvalidOffset(n) => AreaFault::InvalidOffset(n as int),
            PropAreaError::InvalidKey(k) => AreaFault::InvalidKey(text_bytes(k@)),
            PropAreaError::InPlaceUpdateTooLong { name, new_len, max_len } =>
                AreaFault::InPlaceUpdateTooLong {
                    name: text_bytes(name@),
                    new_len: new_len as int,
                    max_len: max_len as int,
                },
            PropAreaError::Corrupted(m) => AreaFault::Corrupted(m@),
            PropAreaError::AreaFull { requested, available } => AreaFault::AreaFull {
                requested: requested as int,
                available: available as int,
            },
        }
    }
}

pub type Result<T> = std::result::Result<T, PropAreaError>;

/// A trie node as it was read.
pub struct TrieNodeRecord {
    pub offset: u32,
    pub namelen: u32,
    pub prop: u32,
    pub left: u32,
    pub right: u32,
    pub children: u32,
    pub name: String,
}

impl View for TrieNodeRecord {
    type V = NodeView;

    open spec fn view(&self) -> NodeView {
        NodeView {
            namelen: self.namelen as int,
            prop: self.prop as int,
            left: self.left as int,
            right: self.right as int,
            children: self.children as int,
            name: text_bytes(self.name@),
        }
    }
}

/// A property record as it was read.
pub struct PropRecord {
    pub name: String,
    pub value: String,
    pub prop_offset: u32,
    pub value_offset: u32,
    pub is_long: bool,
}

impl View for PropRecord {
    type V = RecordView;

    open spec fn view(&self) -> RecordView {
        RecordView {
            name: text_bytes(self.name@),
            value: text_bytes(self.value@),
            value_offset: self.value_offset as int,
            is_long: self.is_long,
        }
    }
}

/// A property area held in memory.
///
/// The bytes are kept in three parts: the header, the data region, and what
/// lies behind the area in the block that it was taken from.
pub struct PropArea {
    header: Vec<u8>,
    data: Vec<u8>,
    rest: Vec<u8>,
}

impl View for PropArea {
    type V = AreaState;

    closed spec fn view(&self) -> AreaState {
        AreaState { used: u32_at(self.header@, 0), data: self.data@ }
    }
}

/// Compare two sibling names: by length first, byte-wise among equal lengths.
pub(crate) fn compare_names(one: &[u8], two: &[u8]) -> (r: KeyOrder)
    ensures
        r == name_order(one@, two@),
{
    if one.len() < two.len() {
        KeyOrder::Less
    } else if one.len() > two.len() {
        KeyOrder::Greater
    } else {
        compare_bytes(one, two)
    }
}

/// `n` zero bytes.
fn zeros(n: usize) -> (r: Vec<u8>)
    ensures
        r@ == Seq::new(n as nat, |_i: int| 0u8),
{
    let mut out: Vec<u8> = Vec::new();
    out.resize(n, 0);
    proof {
        assert(out@ =~= Seq::new(n as nat, |_i: int| 0u8));
    }
    out
}

impl PropArea {
    /// What holds of every area: a whole header that marks an area, and a data
    /// region whose offsets fit in a word.
    pub closed spec fn valid(&self) -> bool {
        &&& self.header@.len() == 128
        &&& marks_area(self.header@.skip(4))
        &&& self.data@.len() <= u32::MAX
    }

    /// The header of a valid area behind the fill mark, and the size of its data
    /// region.
    pub proof fn lemma_valid(&self)
        requires
            self.valid(),
        ensures
            self.outside().0.len() == 124,
            marks_area(self.outside().0),
            self@.data.len() <= u32::MAX,
            0 <= self@.used <= u32::MAX,
    {
        lemma_word_bounds(self.header@, 0);
    }

    /// The bytes around the data region that no operation on the trie changes:
    /// the header behind the fill mark, and what lies behind the area.
    pub closed spec fn outside(&self) -> (Seq<u8>, Seq<u8>) {
        (self.header@.skip(4), self.rest@)
    }

    /// The block of bytes that the area is kept in.
    pub open spec fn image(&self) -> Seq<u8> {
        le_bytes(self@.used) + self.outside().0 + self@.data + self.outside().1
    }

    /// The parts of a block make up the block again.
    proof fn lemma_image(&self)
        requires
            self.valid(),
        ensures
            self.image() == self.header@ + self.data@ + self.rest@,
            le_bytes(self@.used) == self.header@.take(4),
    {
        lemma_le_bytes_of(self.header@, 0);
        assert(le_bytes(self@.used) =~= self.header@.take(4));
        assert(self.image() =~= self.header@ + self.data@ + self.rest@);
    }

    /// Take the first `area_size` bytes of a block as an area.
    fn from_inner_with_size(inner: Vec<u8>, area_size: u64) -> (r: Result<PropArea>)
        requires
            area_size <= inner@.len(),
        ensures
            match (r, open_area(inner@, area_size as int)) {
                (Ok(a), Ok(v)) => {
                    &&& a.valid()
                    &&& a@ == v
                    &&& a.image() == inner@
                    &&& a.outside() == (inner@.subrange(4, 128), inner@.skip(area_size as int))
                },
                (Err(e), Err(f)) => e@ == f,
                _ => false,
            },
    {
        if area_size < PROP_AREA_HEADER_SIZE {
            return Err(PropAreaError::AreaTooSmall(area_size));
        }
        if area_size - PROP_AREA_HEADER_SIZE > u32::MAX as u64 {
            return Err(PropAreaError::AreaTooLarge(area_size));
        }
        let block = inner.as_slice();
        let magic = read_u32_at(block, 8);
        if magic != PROP_AREA_MAGIC {
            return Err(PropAreaError::InvalidMagic(magic));
        }
        let version = read_u32_at(block, 12);
        if version != PROP_AREA_VERSION {
            return Err(PropAreaError::InvalidVersion(version));
        }
        let used = read_u32_at(block, 0);
        if used < PROP_TRIE_NODE_HEADER_SIZE || used as u64 > area_size - PROP_AREA_HEADER_SIZE {
            return Err(PropAreaError::InvalidBytesUsed(used));
        }
        assert(block.len() == inner@.len());
        let size = area_size as usize;
        let area = PropArea {
            header: copy_range(block, 0, 128),
            data: copy_range(block, 128, size),
            rest: copy_range(block, size, block.len()),
        };
        proof {
            assert(area.header@.skip(4) =~= inner@.subrange(4, 128));
            assert(area.rest@ =~= inner@.skip(size as int));
            assert(u32_at(area.header@.skip(4), 4) == u32_at(inner@, 8));
            assert(u32_at(area.header@.skip(4), 8) == u32_at(inner@, 12));
            area.lemma_image();
            assert(area.header@ + area.data@ + area.rest@ =~= inner@);
        }
        Ok(area)
    }

    /// Take a whole block as an area.
    pub fn new(inner: Vec<u8>) -> (r: Result<PropArea>)
        ensures
            match (r, open_area(inner@, inner@.len() as int)) {
                (Ok(a), Ok(v)) => {
                    &&& a.valid()
                    &&& a@ == v
                    &&& a.image() == inner@
                    &&& a.outside() == (inner@.subrange(4, 128), Seq::<u8>::empty())
                },
                (Err(e), Err(f)) => e@ == f,
                _ => false,
            },
    {
        let size = inner.len() as u64;
        proof {
            assert(inner@.skip(size as int) =~= Seq::<u8>::empty());
        }
        Self::from_inner_with_size(inner, size)
    }

    /// Lay out a fresh area in the first `area_size` bytes of a block.
    ///
    /// A shorter block is extended. What lies behind the area stays.
    pub fn create(inner: Vec<u8>, area_size: u64) -> (r: Result<PropArea>)
        requires
            area_size <= usize::MAX,
        ensures
            match r {
                Ok(a) => {
                    &&& 240 <= area_size <= 128 + u32::MAX
                    &&& a.valid()
                    &&& a@ == fresh_area(area_size - 128)
                    &&& a.outside() == (
                        fresh_header().skip(4),
                        if area_size <= inner@.len() {
                            inner@.skip(area_size as int)
                        } else {
                            Seq::empty()
                        },
                    )
                    &&& a.image() == fresh_header() + fresh_area(area_size - 128).data + (
                    if area_size <= inner@.len() {
                        inner@.skip(area_size as int)
                    } else {
                        Seq::empty()
                    })
                },
                Err(e) => if area_size < 148 {
                    e@ == AreaFault::AreaTooSmall(area_size as int)
                } else if area_size > 128 + u32::MAX {
                    e@ == AreaFault::AreaTooLarge(area_size as int)
                } else {
                    area_size < 240 && e@ == AreaFault::InvalidBytesUsed(112)
                },
            },
    {
        if area_size < PROP_AREA_HEADER_SIZE + PROP_TRIE_NODE_HEADER_SIZE as u64 {
            return Err(PropAreaError::AreaTooSmall(area_size));
        }
        if area_size - PROP_AREA_HEADER_SIZE > u32::MAX as u64 {
            return Err(PropAreaError::AreaTooLarge(area_size));
        }
        if area_size - PROP_AREA_HEADER_SIZE < INITIAL_BYTES_USED as u64 {
            return Err(PropAreaError::InvalidBytesUsed(INITIAL_BYTES_USED));
        }
        let size = area_size as usize;
        let rest = if size <= inner.len() {
            copy_range(inner.as_slice(), size, inner.len())
        } else {
            Vec::new()
        };
        let mut header = zeros(128);
        put_word(&mut header, 0, INITIAL_BYTES_USED);
        put_word(&mut header, 8, PROP_AREA_MAGIC);
        put_word(&mut header, 12, PROP_AREA_VERSION);
        let area = PropArea { header, data: zeros(size - 128), rest };
        proof {
            let z = Seq::new(128, |_i: int| 0u8);
            lemma_put_u32(z, 0, INITIAL_BYTES_USED as int);
            let h1 = put_u32(z, 0, INITIAL_BYTES_USED as int);
            lemma_put_u32(h1, 8, PROP_AREA_MAGIC as int);
            let h2 = put_u32(h1, 8, PROP_AREA_MAGIC as int);
            lemma_put_u32(h2, 12, PROP_AREA_VERSION as int);
            assert(header@ == fresh_header());
            lemma_fresh_header();
            assert(size <= inner@.len() ==> area.rest@ =~= inner@.skip(size as int));
            area.lemma_image();
        }
        Ok(area)
    }

    /// The size of the area, its header counted.
    pub fn area_size(&self) -> (r: u64)
        requires
            self.valid(),
        ensures
            r == 128 + self@.data.len(),
    {
        PROP_AREA_HEADER_SIZE + self.data.len() as u64
    }

    /// The size of the data region.
    pub fn data_size(&self) -> (r: u32)
        requires
            self.valid(),
        ensures
            r == self@.data.len(),
    {
        self.data.len() as u32
    }

    /// The block of bytes that the area is kept in.
    pub fn into_inner(self) -> (r: Vec<u8>)
        requires
            self.valid(),
        ensures
            r@ == self.image(),
    {
        proof {
            self.lemma_image();
        }
        let mut out = self.header;
        out.extend_from_slice(self.data.as_slice());
        out.extend_from_slice(self.rest.as_slice());
        proof {
            assert(out@ =~= self.header@ + self.data@ + self.rest@);
        }
        out
    }

    /// The bytes in use, as the header records it.
    pub(crate) fn bytes_used(&self) -> (r: u32)
        requires
            self.valid(),
        ensures
            r == self@.used,
    {
        read_u32_at(self.header.as_slice(), 0)
    }

    /// The pieces of a property key between its dots.
    fn validate_key(&self, key: &str) -> (r: Result<Vec<Vec<u8>>>)
        ensures
            match r {
                Ok(v) => key_ok(text_bytes(key@)) && v@.len() == segments(text_bytes(key@)).len()
                    && forall|i: int|
                    0 <= i < v@.len() ==> (#[trigger] v@[i])@ == segments(text_bytes(key@))[i],
                Err(e) => !key_ok(text_bytes(key@)) && e@ == AreaFault::InvalidKey(
                    text_bytes(key@),
                ),
            },
    {
        let bytes = key.as_bytes();
        let ghost b = text_bytes(key@);
        let mut out: Vec<Vec<u8>> = Vec::new();
        let mut start: usize = 0;
        let mut i: usize = 0;
        proof {
            assert(b.skip(0) =~= b);
            assert(Seq::<Seq<u8>>::empty() + segments(b) =~= segments(b));
        }
        let ghost mut done: Seq<Seq<u8>> = Seq::empty();
        while i < bytes.len()
            invariant
                bytes@ == b,
                b == text_bytes(key@),
                start <= i <= b.len(),
                forall|j: int| start <= j < i ==> b[j] != 0x2e,
                done + segments(b.skip(start as int)) == segments(b),
                done.len() == out@.len(),
                forall|j: int| 0 <= j < done.len() ==> (#[trigger] out@[j])@ == done[j],
                forall|j: int| 0 <= j < done.len() ==> (#[trigger] done[j]).len() > 0,
            decreases b.len() - i,
        {
            if bytes[i] == 0x2e {
                proof {
                    let tail = b.skip(start as int);
                    assert forall|j: int| 0 <= j < i - start implies tail[j] != 0x2e by {
                        assert(tail[j] == b[start + j]);
                    }
                    lemma_dot_index_is(tail, 0, i - start);
                    assert(tail.take(i - start) =~= b.subrange(start as int, i as int));
                    assert(tail.skip(i - start + 1) =~= b.skip(i + 1));
                    assert(segments(tail) == seq![b.subrange(start as int, i as int)] + segments(
                        b.skip(i + 1),
                    ));
                    assert(done.push(b.subrange(start as int, i as int)) + segments(b.skip(i + 1))
                        =~= done + segments(tail));
                    if i == start {
                        assert(segments(b)[done.len() as int] == b.subrange(
                            start as int,
                            i as int,
                        ));
                    }
                }
                if i == start {
                    return Err(PropAreaError::InvalidKey(key.to_owned()));
                }
                out.push(copy_range(bytes, start, i));
                proof {
                    done = done.push(b.subrange(start as int, i as int));
                }
                start = i + 1;
            }
            i = i + 1;
        }
        proof {
            let tail = b.skip(start as int);
            assert forall|j: int| 0 <= j < tail.len() implies tail[j] != 0x2e by {
                assert(tail[j] == b[start + j]);
            }
            lemma_dot_index_is(tail, 0, tail.len() as int);
            assert(tail =~= b.subrange(start as int, b.len() as int));
            assert(segments(tail) == seq![tail]);
            assert(segments(b) =~= done.push(tail));
            if start == b.len() {
                assert(segments(b)[done.len() as int] == tail);
            }
        }
        if start == bytes.len() {
            return Err(PropAreaError::InvalidKey(key.to_owned()));
        }
        out.push(copy_range(bytes, start, bytes.len()));
        Ok(out)
    }

    /// Check that `len` bytes from `data_offset` on lie in the data region.
    pub(crate) fn check_range(&self, data_offset: u32, len: u32) -> (r: Result<usize>)
        requires
            self.valid(),
        ensures
            match r {
                Ok(at) => data_offset + len <= self@.data.len() && at == data_offset,
                Err(e) => data_offset + len > self@.data.len() && e@ == AreaFault::InvalidOffset(
                    data_offset as int,
                ),
            },
    {
        match data_offset.checked_add(len) {
            None => Err(PropAreaError::InvalidOffset(data_offset)),
            Some(end) => if end as usize > self.data.len() {
                Err(PropAreaError::InvalidOffset(data_offset))
            } else {
                Ok(data_offset as usize)
            },
        }
    }

    /// The word at `data_offset`.
    pub(crate) fn read_u32_data(&self, data_offset: u32) -> (r: Result<u32>)
        requires
            self.valid(),
        ensures
            match r {
                Ok(v) => data_offset + 4 <= self@.data.len() && v == u32_at(
                    self@.data,
                    data_offset as int,
                ),
                Err(e) => data_offset + 4 > self@.data.len() && e@ == AreaFault::InvalidOffset(
                    data_offset as int,
                ),
            },
    {
        let at = self.check_range(data_offset, 4)?;
        Ok(read_u32_at(self.data.as_slice(), at))
    }

    /// A copy of `len` bytes at `data_offset`.
    pub(crate) fn read_data(&self, data_offset: u32, len: u32) -> (r: Result<Vec<u8>>)
        requires
            self.valid(),
        ensures
            match r {
                Ok(v) => data_offset + len <= self@.data.len() && v@ == self@.data.subrange(
                    data_offset as int,
                    data_offset + len,
                ),
                Err(e) => data_offset + len > self@.data.len() && e@ == AreaFault::InvalidOffset(
                    data_offset as int,
                ),
            },
    {
        let at = self.check_range(data_offset, len)?;
        Ok(copy_range(self.data.as_slice(), at, at + len as usize))
    }

    /// The bytes of the NUL-terminated string at `data_offset`.
    fn read_c_string_bytes(&self, data_offset: u32, max_len: Option<u32>) -> (r: Result<Vec<u8>>)
        requires
            self.valid(),
        ensures
            match (
                r,
                c_string(
                    self@.data,
                    data_offset as int,
                    match max_len {
                        Some(n) => n as int,
                        None => self@.data.len() - data_offset,
                    },
                ),
            ) {
                (Ok(v), Ok(b)) => v@ == b,
                (Err(e), Err(f)) => e@ == f,
                _ => false,
            },
    {
        let start = data_offset as usize;
        let size = self.data.len();
        if start > size {
            return Err(PropAreaError::InvalidOffset(data_offset));
        }
        let room = size - start;
        let limit = match max_len {
            Some(n) => n as usize,
            None => room,
        };
        let span = if limit <= room {
            limit
        } else {
            room / PROP_VALUE_MAX * PROP_VALUE_MAX
        };
        assert(span <= room);
        let end = find_nul(self.data.as_slice(), start, start + span);
        if end < start + span {
            return Ok(copy_range(self.data.as_slice(), start, end));
        }
        if limit <= room {
            Err(PropAreaError::Corrupted("unterminated c string"))
        } else {
            Err(PropAreaError::InvalidOffset((start + span) as u32))
        }
    }

    /// The text of the NUL-terminated string at `data_offset`.
    fn read_c_string(&self, data_offset: u32, max_len: Option<u32>) -> (r: Result<String>)
        requires
            self.valid(),
        ensures
            match (
                r,
                c_text(
                    self@.data,
                    data_offset as int,
                    match max_len {
                        Some(n) => n as int,
                        None => self@.data.len() - data_offset,
                    },
                ),
            ) {
                (Ok(v), Ok(b)) => text_bytes(v@) == b && valid_utf8(b),
                (Err(e), Err(f)) => e@ == f,
                _ => false,
            },
    {
        let bytes = self.read_c_string_bytes(data_offset, max_len)?;
        match text_from_utf8(bytes) {
            Ok(s) => {
                proof {
                    lemma_text_round_trip(bytes@);
                }
                Ok(s)
            },
            Err(b) => Err(PropAreaError::Utf8(b)),
        }
    }

    /// The trie node at `offset`.
    pub(crate) fn read_node(&self, offset: u32) -> (r: Result<TrieNodeRecord>)
        requires
            self.valid(),
        ensures
            match (r, read_node(self@.data, offset as int)) {
                (Ok(n), Ok(v)) => n@ == v && n.offset == offset && offset + 20 <= self@.data.len(),
                (Err(e), Err(f)) => e@ == f,
                _ => false,
            },
    {
        let at = self.check_range(offset, PROP_TRIE_NODE_HEADER_SIZE)?;
        let data = self.data.as_slice();
        let namelen = read_u32_at(data, at);
        let prop = read_u32_at(data, at + 4);
        let left = read_u32_at(data, at + 8);
        let right = read_u32_at(data, at + 12);
        let children = read_u32_at(data, at + 16);
        let name = if namelen == 0 {
            let empty = String::new();
            proof {
                assert(text_bytes(empty@) =~= Seq::<u8>::empty());
            }
            empty
        } else {
            self.read_c_string(offset + PROP_TRIE_NODE_HEADER_SIZE, Some(namelen.wrapping_add(1)))?
        };
        Ok(TrieNodeRecord { offset, namelen, prop, left, right, children, name })
    }

    /// Whether the record at `at` uses the long layout.
    fn is_long_prop(&self, at: usize) -> (r: bool)
        requires
            self.valid(),
            at + 4 <= self@.data.len(),
        ensures
            r == long_serial(u32_at(self@.data, at as int)),
    {
        let serial = read_u32_at(self.data.as_slice(), at);
        proof {
            assert((serial & 0x1_0000u32 != 0) == (serial / 0x1_0000 % 2 == 1)) by (bit_vector);
        }
        (serial & PROP_INFO_LONG_FLAG) != 0
    }

    /// The property record at `prop_offset`.
    pub(crate) fn read_prop_record(&self, prop_offset: u32) -> (r: Result<PropRecord>)
        requires
            self.valid(),
        ensures
            match (r, read_record(self@.data, prop_offset as int)) {
                (Ok(n), Ok(v)) => n@ == v && n.prop_offset == prop_offset && prop_offset + 96
                    <= self@.data.len(),
                (Err(e), Err(f)) => e@ == f,
                _ => false,
            },
    {
        let at = self.check_range(prop_offset, PROP_INFO_SIZE)?;
        let name = self.read_c_string(prop_offset + PROP_INFO_SIZE, None)?;
        let data = self.data.as_slice();
        let ghost d = self@.data;
        proof {
            lemma_nul_index(d, prop_offset + 96, d.len() as int);
        }
        if self.is_long_prop(at) {
            let long_offset = read_u32_at(data, at + LONG_OFFSET_IN_INFO as usize);
            let min_long_offset = align_up(
                PROP_INFO_SIZE + name.as_str().as_bytes().len() as u32 + 1,
                4,
            );
            if long_offset < min_long_offset {
                return Err(PropAreaError::Corrupted("long property offset points into prop_info"));
            }
            let value_offset = match prop_offset.checked_add(long_offset) {
                Some(v) => v,
                None => {
                    return Err(PropAreaError::InvalidOffset(prop_offset));
                },
            };
            let value = self.read_c_string(value_offset, None)?;
            Ok(PropRecord { name, value, prop_offset, value_offset, is_long: true })
        } else {
            let end = find_nul(data, at + 4, at + 4 + PROP_VALUE_MAX);
            if end == at + 4 + PROP_VALUE_MAX {
                return Err(PropAreaError::Corrupted("inline property value is not null terminated"));
            }
            let raw = copy_range(data, at + 4, end);
            match text_from_utf8(raw) {
                Ok(value) => {
                    proof {
                        lemma_text_round_trip(raw@);
                    }
                    Ok(PropRecord {
                        name,
                        value,
                        prop_offset,
                        value_offset: prop_offset + 4,
                        is_long: false,
                    })
                },
                Err(b) => Err(PropAreaError::Utf8(b)),
            }
        }
    }

    /// How many siblings a search visits at most.
    fn sibling_limit(&self) -> (r: usize)
        requires
            self.valid(),
        ensures
            r == max_steps(self@.data.len() as int),
    {
        let n = self.data.len() / PROP_TRIE_NODE_HEADER_SIZE as usize;
        if n >= 1 {
            n
        } else {
            1
        }
    }

    /// The sibling called `target` in the search tree at `root_offset`.
    fn find_sibling(&self, root_offset: u32, target: &[u8]) -> (r: Result<Option<u32>>)
        requires
            self.valid(),
        ensures
            match (
                r,
                find_sibling(
                    self@.data,
                    root_offset as int,
                    target@,
                    max_steps(self@.data.len() as int),
                ),
            ) {
                (Ok(Some(o)), Ok(Some(v))) => o == v && o + 20 <= self@.data.len(),
                (Ok(None), Ok(None)) => true,
                (Err(e), Err(f)) => e@ == f,
                _ => false,
            },
    {
        let mut current_offset = root_offset;
        let mut left: usize = self.sibling_limit();
        while left > 0
            invariant
                self.valid(),
                find_sibling(
                    self@.data,
                    root_offset as int,
                    target@,
                    max_steps(self@.data.len() as int),
                ) == find_sibling(self@.data, current_offset as int, target@, left as nat),
            decreases left,
        {
            let current = self.read_node(current_offset)?;
            match compare_names(target, current.name.as_str().as_bytes()) {
                KeyOrder::Equal => {
                    return Ok(Some(current_offset));
                },
                KeyOrder::Less => {
                    if current.left == 0 {
                        return Ok(None);
                    }
                    current_offset = current.left;
                },
                KeyOrder::Greater => {
                    if current.right == 0 {
                        return Ok(None);
                    }
                    current_offset = current.right;
                },
            }
            left = left - 1;
        }
        Err(PropAreaError::Corrupted("possible cycle in sibling tree"))
    }

    /// The trie node of `key`.
    fn traverse_trie(&self, key: &str) -> (r: Result<Option<u32>>)
        requires
            self.valid(),
        ensures
            match (r, find_node(self@.data, text_bytes(key@))) {
                (Ok(Some(o)), Ok(Some(v))) => o == v && o + 20 <= self@.data.len(),
                (Ok(None), Ok(None)) => true,
                (Err(e), Err(f)) => e@ == f,
                _ => false,
            },
    {
        let parts = self.validate_key(key)?;
        let ghost segs = segments(text_bytes(key@));
        let mut current_offset: u32 = 0;
        let mut i: usize = 0;
        proof {
            assert(segs.skip(0) =~= segs);
        }
        while i < parts.len()
            invariant
                self.valid(),
                segs == segments(text_bytes(key@)),
                key_ok(text_bytes(key@)),
                segs.len() > 0,
                i <= parts@.len() == segs.len(),
                i > 0 ==> current_offset + 20 <= self@.data.len(),
                forall|j: int| 0 <= j < segs.len() ==> (#[trigger] parts@[j])@ == segs[j],
                descend(self@.data, 0, segs) == descend(
                    self@.data,
                    current_offset as int,
                    segs.skip(i as int),
                ),
            decreases parts@.len() - i,
        {
            let current = self.read_node(current_offset)?;
            if current.children == 0 {
                return Ok(None);
            }
            match self.find_sibling(current.children, parts[i].as_slice())? {
                None => {
                    return Ok(None);
                },
                Some(next) => {
                    proof {
                        assert(segs.skip(i as int).skip(1) =~= segs.skip(i + 1));
                    }
                    current_offset = next;
                },
            }
            i = i + 1;
        }
        Ok(Some(current_offset))
    }

    /// What is reported of a property record.
    fn to_property_info(&self, record: PropRecord) -> (r: PropertyInfo)
        requires
            record.prop_offset + 96 <= u32::MAX,
        ensures
            r@ == prop_view(record.prop_offset as int, record@),
    {
        PropertyInfo {
            name: record.name,
            value: record.value,
            prop_offset: record.prop_offset,
            name_offset: record.prop_offset + PROP_INFO_SIZE,
            value_offset: record.value_offset,
            is_long: record.is_long,
        }
    }

    /// The property called `key`, with where it is stored.
    pub fn get_property_info(&self, key: &str) -> (r: Result<Option<PropertyInfo>>)
        requires
            self.valid(),
        ensures
            match (r, lookup(self@.data, text_bytes(key@))) {
                (Ok(Some(p)), Ok(Some(v))) => p@ == v,
                (Ok(None), Ok(None)) => true,
                (Err(e), Err(f)) => e@ == f,
                _ => false,
            },
    {
        let node_offset = match self.traverse_trie(key)? {
            Some(offset) => offset,
            None => {
                return Ok(None);
            },
        };
        let prop_offset = self.read_u32_data(node_offset + 4)?;
        if prop_offset == 0 {
            return Ok(None);
        }
        let record = self.read_prop_record(prop_offset)?;
        Ok(Some(self.to_property_info(record)))
    }

    /// The value of the property called `key`.
    pub fn get_property(&self, key: &str) -> (r: Result<Option<String>>)
        requires
            self.valid(),
        ensures
            match (r, lookup_value(self@.data, text_bytes(key@))) {
                (Ok(Some(p)), Ok(Some(v))) => text_bytes(p@) == v,
                (Ok(None), Ok(None)) => true,
                (Err(e), Err(f)) => e@ == f,
                _ => false,
            },
    {
        match self.get_property_info(key)? {
            Some(info) => Ok(Some(info.value)),
            None => Ok(None),
        }
    }

    /// Append the properties below the node at `offset` to `out`.
    fn for_each_from(
        &self,
        offset: u32,
        visited: &mut OffsetSet,
        depth: u64,
        out: &mut Vec<PropertyInfo>,
    ) -> (r: Result<()>)
        requires
            self.valid(),
        ensures
            ({
                let w = walk(self@.data, offset as int, old(visited)@, depth as nat);
                &&& views(final(out)@) == views(old(out)@) + w.0
                &&& match (r, w.1) {
                    (Ok(_), Ok(_)) => final(visited)@ == old(visited)@,
                    (Err(e), Err(f)) => e@ == f,
                    _ => false,
                }
            }),
        decreases depth, 0int,
    {
        proof {
            assert(views(out@) + Seq::<PropView>::empty() =~= views(out@));
        }
        if depth == 0 {
            return Err(PropAreaError::Corrupted("cycle detected while iterating trie"));
        }
        if !visited.insert(offset) {
            return Err(PropAreaError::Corrupted("cycle detected while iterating trie"));
        }
        let ghost inner = visited@;
        let ghost d = self@.data;
        let ghost base = views(out@);
        let node = self.read_node(offset)?;
        self.for_each_link(node.left, visited, depth - 1, out)?;
        let ghost left = walk_link(d, node.left as int, inner, (depth - 1) as nat).0;
        self.push_property(node.prop, out)?;
        let ghost own = own_property(d, node.prop as int).0;
        proof {
            assert(base + left + own =~= base + (left + own));
        }
        let ghost kids = walk_link(d, node.children as int, inner, (depth - 1) as nat).0;
        proof {
            assert(base + (left + own) + kids =~= base + (left + own + kids));
        }
        self.for_each_link(node.children, visited, depth - 1, out)?;
        let ghost right = walk_link(d, node.right as int, inner, (depth - 1) as nat).0;
        proof {
            assert(base + (left + own + kids) + right =~= base + (left + own + kids + right));
        }
        self.for_each_link(node.right, visited, depth - 1, out)?;
        visited.remove(offset);
        proof {
            assert(visited@ =~= old(visited)@);
        }
        Ok(())
    }

    /// Append the property record at `prop`, where it is not zero, to `out`.
    fn push_property(&self, prop: u32, out: &mut Vec<PropertyInfo>) -> (r: Result<()>)
        requires
            self.valid(),
        ensures
            views(final(out)@) == views(old(out)@) + own_property(self@.data, prop as int).0,
            match (r, own_property(self@.data, prop as int).1) {
                (Ok(_), Ok(_)) => true,
                (Err(e), Err(f)) => e@ == f,
                _ => false,
            },
    {
        let ghost before = views(out@);
        proof {
            assert(before + Seq::<PropView>::empty() =~= before);
        }
        if prop != 0 {
            let record = self.read_prop_record(prop)?;
            let info = self.to_property_info(record);
            out.push(info);
            proof {
                assert(views(out@) =~= before + seq![info@]);
            }
        }
        Ok(())
    }

    /// As [`Self::for_each_from`], for a link that may be zero.
    fn for_each_link(
        &self,
        link: u32,
        visited: &mut OffsetSet,
        depth: u64,
        out: &mut Vec<PropertyInfo>,
    ) -> (r: Result<()>)
        requires
            self.valid(),
        ensures
            ({
                let w = walk_link(self@.data, link as int, old(visited)@, depth as nat);
                &&& views(final(out)@) == views(old(out)@) + w.0
                &&& match (r, w.1) {
                    (Ok(_), Ok(_)) => final(visited)@ == old(visited)@,
                    (Err(e), Err(f)) => e@ == f,
                    _ => false,
                }
            }),
        decreases depth, 1int,
    {
        if link == 0 {
            proof {
                assert(views(out@) + Seq::<PropView>::empty() =~= views(out@));
            }
            return Ok(());
        }
        self.for_each_from(link, visited, depth, out)
    }

    /// Append every property of the area to `out`, in the order of the trie.
    ///
    /// Where the walk fails, the properties met before are in `out`.
    pub fn for_each_property(&self, out: &mut Vec<PropertyInfo>) -> (r: Result<()>)
        requires
            self.valid(),
        ensures
            views(final(out)@) == views(old(out)@) + all_properties(self@.data).0,
            match (r, all_properties(self@.data).1) {
                (Ok(_), Ok(_)) => true,
                (Err(e), Err(f)) => e@ == f,
                _ => false,
            },
    {
        let mut visited = OffsetSet::new();
        let depth = self.data.len() as u64 + 1;
        self.for_each_from(0, &mut visited, depth, out)
    }

    /// As [`Self::for_each_property`].
    pub fn for_each_property_info(&self, out: &mut Vec<PropertyInfo>) -> (r: Result<()>)
        requires
            self.valid(),
        ensures
            views(final(out)@) == views(old(out)@) + all_properties(self@.data).0,
            match (r, all_properties(self@.data).1) {
                (Ok(_), Ok(_)) => true,
                (Err(e), Err(f)) => e@ == f,
                _ => false,
            },
    {
        self.for_each_property(out)
    }
}

/// What a write to an area reports.
#[derive(Debug, Clone, Copy, PartialEq, Eq, Structural)]
pub struct PropWriteResult {
    /// Offset of the property record in the data region.
    pub prop_offset: u32,
    /// The serial before an update; zero for a new property.
    pub serial: u32,
    /// Whether the property got a new record.
    pub created: bool,
    /// The length that the serial is to record in its upper byte.
    pub serial_len: u32,
    /// Whether the property uses the long layout.
    pub is_long: bool,
}

impl View for PropWriteResult {
    type V = WriteView;

    open spec fn view(&self) -> WriteView {
        WriteView {
            prop_offset: self.prop_offset as int,
            serial: self.serial as int,
            created: self.created,
            serial_len: self.serial_len as int,
            is_long: self.is_long,
        }
    }
}

impl PropArea {
    /// Record how many bytes are in use.
    pub(crate) fn write_bytes_used(&mut self, used: u32)
        requires
            old(self).valid(),
        ensures
            final(self).valid(),
            final(self).outside() == old(self).outside(),
            final(self)@ == (AreaState { used: used as int, data: old(self)@.data }),
    {
        put_word(&mut self.header, 0, used);
        proof {
            lemma_put_u32(old(self).header@, 0, used as int);
            assert(self.header@.skip(4) =~= old(self).header@.skip(4));
        }
    }

    /// Store a word.
    pub(crate) fn write_u32_data(&mut self, data_offset: u32, value: u32) -> (r: Result<()>)
        requires
            old(self).valid(),
        ensures
            final(self).valid(),
            final(self).outside() == old(self).outside(),
            match r {
                Ok(_) => data_offset + 4 <= old(self)@.data.len() && final(self)@ == old(
                    self,
                )@.with(put_u32(old(self)@.data, data_offset as int, value as int)),
                Err(e) => data_offset + 4 > old(self)@.data.len() && final(self)@ == old(self)@
                    && e@ == AreaFault::InvalidOffset(data_offset as int),
            },
    {
        let at = self.check_range(data_offset, 4)?;
        put_word(&mut self.data, at, value);
        Ok(())
    }

    /// Store bytes that are known to fit.
    pub(crate) fn write_bytes_data(&mut self, data_offset: u32, bytes: &[u8])
        requires
            old(self).valid(),
            data_offset + bytes@.len() <= old(self)@.data.len(),
        ensures
            final(self).valid(),
            final(self).outside() == old(self).outside(),
            final(self)@ == old(self)@.with(put(old(self)@.data, data_offset as int, bytes@)),
    {
        put_bytes(&mut self.data, data_offset as usize, bytes);
    }

    /// Clear a range.
    pub(crate) fn zero_data(&mut self, data_offset: u32, len: u32) -> (r: Result<()>)
        requires
            old(self).valid(),
        ensures
            final(self).valid(),
            final(self).outside() == old(self).outside(),
            match r {
                Ok(_) => data_offset + len <= old(self)@.data.len() && final(self)@ == old(
                    self,
                )@.with(zero(old(self)@.data, data_offset as int, len as int)),
                Err(e) => data_offset + len > old(self)@.data.len() && final(self)@ == old(self)@
                    && e@ == AreaFault::InvalidOffset(data_offset as int),
            },
    {
        let at = self.check_range(data_offset, len)?;
        put_zeros(&mut self.data, at, len as usize);
        Ok(())
    }

    /// Take `size` zeroed bytes at the fill mark.
    fn allocate_obj(&mut self, size: u32) -> (r: Result<u32>)
        requires
            old(self).valid(),
        ensures
            final(self).valid(),
            final(self).outside() == old(self).outside(),
            final(self)@ == allocate(old(self)@, size as int).0,
            match (r, allocate(old(self)@, size as int).1) {
                (Ok(o), Ok(v)) => o == v && o + align4(size as int) <= final(self)@.data.len(),
                (Err(e), Err(f)) => e@ == f,
                _ => false,
            },
    {
        let aligned = align_up(size, 4);
        let used = self.bytes_used();
        let total = self.data.len();
        let available = if total >= used as usize {
            (total - used as usize) as u32
        } else {
            0
        };
        if available < aligned {
            return Err(PropAreaError::AreaFull { requested: aligned, available });
        }
        if used as usize > total {
            return Err(PropAreaError::AreaFull { requested: aligned, available });
        }
        self.write_bytes_used(used + aligned);
        self.zero_data(used, aligned)?;
        Ok(used)
    }

    /// Add an unlinked node.
    fn create_trie_node(&mut self, name: &[u8]) -> (r: Result<u32>)
        requires
            old(self).valid(),
        ensures
            final(self).valid(),
            final(self).outside() == old(self).outside(),
            final(self)@ == create_node(old(self)@, name@).0,
            match (r, create_node(old(self)@, name@).1) {
                (Ok(o), Ok(v)) => o == v && o + 21 + name@.len() <= final(self)@.data.len(),
                (Err(e), Err(f)) => e@ == f,
                _ => false,
            },
    {
        if name.len() > (u32::MAX - 24) as usize {
            return Err(PropAreaError::Corrupted("name too long"));
        }
        let name_len = name.len() as u32;
        let offset = self.allocate_obj(PROP_TRIE_NODE_HEADER_SIZE + name_len + 1)?;
        self.write_u32_data(offset, name_len)?;
        self.write_bytes_data(offset + PROP_TRIE_NODE_HEADER_SIZE, name);
        Ok(offset)
    }

    /// Add a node and let the word at `at` refer to it.
    fn create_linked_node(&mut self, at: u32, name: &[u8]) -> (r: Result<u32>)
        requires
            old(self).valid(),
            at + 4 <= old(self)@.data.len(),
        ensures
            final(self).valid(),
            final(self).outside() == old(self).outside(),
            final(self)@ == create_linked(old(self)@, at as int, name@).0,
            match (r, create_linked(old(self)@, at as int, name@).1) {
                (Ok(o), Ok(v)) => o == v && o + 20 <= final(self)@.data.len(),
                (Err(e), Err(f)) => e@ == f,
                _ => false,
            },
    {
        let offset = self.create_trie_node(name)?;
        self.write_u32_data(at, offset)?;
        Ok(offset)
    }

    /// The sibling called `target` in the search tree at `root_offset`, added
    /// where there is none.
    fn ensure_sibling(&mut self, root_offset: u32, target: &[u8]) -> (r: Result<u32>)
        requires
            old(self).valid(),
        ensures
            final(self).valid(),
            final(self).outside() == old(self).outside(),
            ({
                let e = ensure_sibling(
                    old(self)@,
                    root_offset as int,
                    target@,
                    max_steps(old(self)@.data.len() as int),
                );
                &&& final(self)@ == e.0
                &&& match (r, e.1) {
                    (Ok(o), Ok(v)) => o == v && o + 20 <= final(self)@.data.len(),
                    (Err(e), Err(f)) => e@ == f,
                    _ => false,
                }
            }),
    {
        let mut current_offset = root_offset;
        let mut left: usize = self.sibling_limit();
        while left > 0
            invariant
                self.valid(),
                *self == *old(self),
                ensure_sibling(
                    self@,
                    root_offset as int,
                    target@,
                    max_steps(self@.data.len() as int),
                ) == ensure_sibling(self@, current_offset as int, target@, left as nat),
            decreases left,
        {
            let current = self.read_node(current_offset)?;
            match compare_names(target, current.name.as_str().as_bytes()) {
                KeyOrder::Equal => {
                    return Ok(current_offset);
                },
                KeyOrder::Less => {
                    if current.left == 0 {
                        return self.create_linked_node(current_offset + 8, target);
                    }
                    current_offset = current.left;
                },
                KeyOrder::Greater => {
                    if current.right == 0 {
                        return self.create_linked_node(current_offset + 12, target);
                    }
                    current_offset = current.right;
                },
            }
            left = left - 1;
        }
        Err(PropAreaError::Corrupted("possible cycle while inserting sibling node"))
    }

    /// The child called `target` of the node at `offset`, added where there is
    /// none.
    fn ensure_child(&mut self, offset: u32, target: &[u8]) -> (r: Result<u32>)
        requires
            old(self).valid(),
        ensures
            final(self).valid(),
            final(self).outside() == old(self).outside(),
            ({
                let e = ensure_child(old(self)@, offset as int, target@);
                &&& final(self)@ == e.0
                &&& match (r, e.1) {
                    (Ok(o), Ok(v)) => o == v && o + 20 <= final(self)@.data.len(),
                    (Err(e), Err(f)) => e@ == f,
                    _ => false,
                }
            }),
    {
        let current = self.read_node(offset)?;
        let child_root = if current.children != 0 {
            current.children
        } else {
            self.create_linked_node(offset + 16, target)?
        };
        self.ensure_sibling(child_root, target)
    }

    /// The trie node of `key`, with the nodes that are missing added.
    fn ensure_traverse_trie(&mut self, key: &str) -> (r: Result<u32>)
        requires
            old(self).valid(),
        ensures
            final(self).valid(),
            final(self).outside() == old(self).outside(),
            if key_ok(text_bytes(key@)) {
                let e = ensure_path(old(self)@, 0, segments(text_bytes(key@)));
                &&& final(self)@ == e.0
                &&& match (r, e.1) {
                    (Ok(o), Ok(v)) => o == v && o + 20 <= final(self)@.data.len(),
                    (Err(e), Err(f)) => e@ == f,
                    _ => false,
                }
            } else {
                final(self)@ == old(self)@ && r is Err && r->Err_0@ == AreaFault::InvalidKey(
                    text_bytes(key@),
                )
            },
    {
        let parts = self.validate_key(key)?;
        let ghost segs = segments(text_bytes(key@));
        let mut current_offset: u32 = 0;
        let mut i: usize = 0;
        proof {
            assert(segs.skip(0) =~= segs);
        }
        while i < parts.len()
            invariant
                self.valid(),
                self.outside() == old(self).outside(),
                segs == segments(text_bytes(key@)),
                key_ok(text_bytes(key@)),
                segs.len() > 0,
                i <= parts@.len() == segs.len(),
                i > 0 ==> current_offset + 20 <= self@.data.len(),
                forall|j: int| 0 <= j < segs.len() ==> (#[trigger] parts@[j])@ == segs[j],
                ensure_path(old(self)@, 0, segs) == ensure_path(
                    self@,
                    current_offset as int,
                    segs.skip(i as int),
                ),
            decreases parts@.len() - i,
        {
            proof {
                assert(segs.skip(i as int).skip(1) =~= segs.skip(i + 1));
            }
            current_offset = self.ensure_child(current_offset, parts[i].as_slice())?;
            i = i + 1;
        }
        Ok(current_offset)
    }
}

/// The serial of a new property.
fn compose_initial_serial(value_len: u32, is_long: bool) -> (r: u32)
    ensures
        r == initial_serial(value_len as int, is_long),
{
    let top = value_len % 0x100 * 0x100_0000;
    if is_long {
        top + PROP_INFO_LONG_FLAG
    } else {
        top
    }
}

/// The serial of an updated property.
fn compose_updated_serial(old_serial: u32, value_len: u32, is_long: bool) -> (r: u32)
    ensures
        r == updated_serial(old_serial as int, value_len as int, is_long),
{
    let top = value_len % 0x100 * 0x100_0000;
    assert((((old_serial & 0x00ff_ffffu32) | 1) + 1) <= 0x100_0000) by (bit_vector);
    let counter = (((old_serial & 0x00ff_ffff) | 1) + 1) & 0x00ff_ffff;
    proof {
        assert(counter == (old_serial % 0x100_0000 / 2 * 2 + 2) % 0x100_0000) by (bit_vector)
            requires
                counter == (((old_serial & 0x00ff_ffffu32) | 1) + 1) as u32 & 0x00ff_ffff,
        ;
        assert(counter | 0x1_0000u32 == if counter / 0x1_0000 % 2 == 0 {
            (counter + 0x1_0000) as u32
        } else {
            counter
        }) by (bit_vector)
            requires
                counter < 0x100_0000,
        ;
    }
    if is_long {
        top + (counter | PROP_INFO_LONG_FLAG)
    } else {
        top + counter
    }
}

impl PropArea {
    /// The length that a serial records for a value.
    fn serial_len_for_layout(&self, value: &[u8], is_long: bool) -> (r: Result<u32>)
        ensures
            match (r, serial_len(value@, is_long)) {
                (Ok(o), Ok(v)) => o == v,
                (Err(e), Err(f)) => e@ == f,
                _ => false,
            },
    {
        if is_long {
            Ok(LONG_LEGACY_ERROR_LEN)
        } else if value.len() > u32::MAX as usize {
            Err(PropAreaError::Corrupted("value length overflow"))
        } else {
            Ok(value.len() as u32)
        }
    }

    /// Put an inline value into the slot of the record at `prop_offset`.
    fn write_inline_value_bytes(&mut self, prop_offset: u32, value: &[u8])
        requires
            old(self).valid(),
            prop_offset + 96 <= old(self)@.data.len(),
            value@.len() < 92,
        ensures
            final(self).valid(),
            final(self).outside() == old(self).outside(),
            final(self)@ == old(self)@.with(
                inline_laid(old(self)@.data, prop_offset as int, value@),
            ),
    {
        put_zeros(&mut self.data, prop_offset as usize + 4, PROP_VALUE_MAX);
        put_bytes(&mut self.data, prop_offset as usize + 4, value);
    }

    /// Store a long value at `long_value_offset` and refer to it in the slot
    /// of the record at `prop_offset`.
    fn write_long_layout(&mut self, prop_offset: u32, long_value_offset: u32, value: &[u8])
        requires
            old(self).valid(),
            prop_offset + 96 <= long_value_offset,
            long_value_offset + value@.len() <= old(self)@.data.len(),
        ensures
            final(self).valid(),
            final(self).outside() == old(self).outside(),
            final(self)@ == old(self)@.with(
                long_laid(
                    old(self)@.data,
                    prop_offset as int,
                    long_value_offset as int,
                    value@,
                ),
            ),
    {
        let at = prop_offset as usize;
        proof {
            lemma_legacy_message();
        }
        put_zeros(&mut self.data, at + 4, PROP_VALUE_MAX);
        put_bytes(&mut self.data, at + 4, LONG_LEGACY_ERROR.as_bytes());
        put_word(&mut self.data, at + LONG_OFFSET_IN_INFO as usize, long_value_offset - prop_offset);
        put_bytes(&mut self.data, long_value_offset as usize, value);
    }

    /// Add an unlinked property record, its serial zero.
    fn create_prop_info_no_serial(&mut self, name: &[u8], value: &[u8]) -> (r: Result<u32>)
        requires
            old(self).valid(),
        ensures
            final(self).valid(),
            final(self).outside() == old(self).outside(),
            final(self)@ == create_record(old(self)@, name@, value@).0,
            match (r, create_record(old(self)@, name@, value@).1) {
                (Ok(o), Ok(v)) => o == v && o + 97 <= final(self)@.data.len(),
                (Err(e), Err(f)) => e@ == f,
                _ => false,
            },
    {
        if name.len() > (u32::MAX - 100) as usize {
            return Err(PropAreaError::Corrupted("name too long"));
        }
        let name_len = name.len() as u32;
        let prop_offset = self.allocate_obj(PROP_INFO_SIZE + name_len + 1)?;
        if value.len() >= PROP_VALUE_MAX {
            if value.len() > (u32::MAX - 4) as usize {
                return Err(PropAreaError::Corrupted("value too large to store"));
            }
            let long_value_offset = self.allocate_obj(value.len() as u32 + 1)?;
            self.write_long_layout(prop_offset, long_value_offset, value);
        } else {
            self.write_inline_value_bytes(prop_offset, value);
        }
        self.write_bytes_data(prop_offset + PROP_INFO_SIZE, name);
        Ok(prop_offset)
    }

    /// Zero the record at `prop_offset`, and its long value where it has one.
    fn wipe_prop_info(&mut self, prop_offset: u32) -> (r: Result<()>)
        requires
            old(self).valid(),
        ensures
            final(self).valid(),
            final(self).outside() == old(self).outside(),
            final(self)@ == old(self)@.with(wipe_record(old(self)@.data, prop_offset as int).0),
            match (r, wipe_record(old(self)@.data, prop_offset as int).1) {
                (Ok(_), Ok(_)) => true,
                (Err(e), Err(f)) => e@ == f,
                _ => false,
            },
    {
        let record = self.read_prop_record(prop_offset)?;
        proof {
            lemma_record_in_range(self@.data, prop_offset as int);
        }
        if record.is_long {
            put_zeros(
                &mut self.data,
                record.value_offset as usize,
                record.value.as_str().as_bytes().len() + 1,
            );
        }
        put_zeros(
            &mut self.data,
            prop_offset as usize + PROP_INFO_SIZE as usize,
            record.name.as_str().as_bytes().len() + 1,
        );
        put_zeros(&mut self.data, prop_offset as usize, PROP_INFO_SIZE as usize);
        Ok(())
    }

    /// Give the node at `node_offset` a new record.
    fn attach_prop_info(&mut self, node_offset: u32, key: &[u8], value: &[u8]) -> (r: Result<
        PropWriteResult,
    >)
        requires
            old(self).valid(),
            node_offset + 20 <= old(self)@.data.len(),
        ensures
            final(self).valid(),
            final(self).outside() == old(self).outside(),
            final(self)@ == attach_record(old(self)@, node_offset as int, key@, value@).0,
            match (r, attach_record(old(self)@, node_offset as int, key@, value@).1) {
                (Ok(o), Ok(v)) => o@ == v && o.prop_offset + 4 <= final(self)@.data.len(),
                (Err(e), Err(f)) => e@ == f,
                _ => false,
            },
    {
        let is_long = value.len() >= PROP_VALUE_MAX;
        let serial_len = self.serial_len_for_layout(value, is_long)?;
        let prop_offset = self.create_prop_info_no_serial(key, value)?;
        self.write_u32_data(node_offset + 4, prop_offset)?;
        Ok(PropWriteResult { prop_offset, serial: 0, created: true, serial_len, is_long })
    }

    /// Take the record at `prop_offset` away from the node at `node_offset`.
    fn detach_prop_info(&mut self, node_offset: u32, prop_offset: u32) -> (r: Result<()>)
        requires
            old(self).valid(),
            node_offset + 20 <= old(self)@.data.len(),
        ensures
            final(self).valid(),
            final(self).outside() == old(self).outside(),
            final(self)@ == old(self)@.with(
                detach_record(old(self)@.data, node_offset as int, prop_offset as int).0,
            ),
            match (r, detach_record(old(self)@.data, node_offset as int, prop_offset as int).1) {
                (Ok(_), Ok(_)) => true,
                (Err(e), Err(f)) => e@ == f,
                _ => false,
            },
    {
        self.write_u32_data(node_offset + 4, 0)?;
        self.wipe_prop_info(prop_offset)
    }

    /// Give the record at `prop_offset` a new value in the place of the old
    /// one.
    fn update_in_place(&mut self, record: &PropRecord, value: &[u8]) -> (r: Result<()>)
        requires
            old(self).valid(),
            read_record(old(self)@.data, record.prop_offset as int) == Ok::<
                RecordView,
                AreaFault,
            >(record@),
        ensures
            final(self).valid(),
            final(self).outside() == old(self).outside(),
            ({
                let d = old(self)@.data;
                let old_len = text_bytes(record.value@).len();
                let max_len = if record.is_long {
                    old_len as int
                } else {
                    91
                };
                if value@.len() > max_len {
                    &&& final(self)@ == old(self)@
                    &&& r is Err
                    &&& r->Err_0@ == AreaFault::InPlaceUpdateTooLong {
                        name: text_bytes(record.name@),
                        new_len: value@.len() as int,
                        max_len,
                    }
                } else {
                    &&& r is Ok
                    &&& final(self)@ == old(self)@.with(
                        if record.is_long {
                            put(
                                zero(d, record.value_offset as int, old_len as int + 1),
                                record.value_offset as int,
                                value@,
                            )
                        } else {
                            inline_laid(d, record.prop_offset as int, value@)
                        },
                    )
                }
            }),
    {
        proof {
            lemma_record_in_range(self@.data, record.prop_offset as int);
        }
        if record.is_long {
            let current_len = record.value.as_str().as_bytes().len();
            if value.len() > current_len {
                return Err(
                    PropAreaError::InPlaceUpdateTooLong {
                        name: record.name.clone(),
                        new_len: value.len(),
                        max_len: current_len,
                    },
                );
            }
            put_zeros(&mut self.data, record.value_offset as usize, current_len + 1);
            put_bytes(&mut self.data, record.value_offset as usize, value);
        } else {
            if value.len() >= PROP_VALUE_MAX {
                return Err(
                    PropAreaError::InPlaceUpdateTooLong {
                        name: record.name.clone(),
                        new_len: value.len(),
                        max_len: PROP_VALUE_MAX - 1,
                    },
                );
            }
            self.write_inline_value_bytes(record.prop_offset, value);
        }
        Ok(())
    }

    /// Set or create a property and leave its serial to the caller.
    pub fn set_property_no_serial(&mut self, key: &str, value: &str) -> (r: Result<PropWriteResult>)
        requires
            old(self).valid(),
        ensures
            final(self).valid(),
            final(self).outside() == old(self).outside(),
            final(self)@ == set_value(old(self)@, text_bytes(key@), text_bytes(value@)).0,
            match (r, set_value(old(self)@, text_bytes(key@), text_bytes(value@)).1) {
                (Ok(o), Ok(v)) => o@ == v && o.prop_offset + 4 <= final(self)@.data.len(),
                (Err(e), Err(f)) => e@ == f,
                _ => false,
            },
    {
        let node_offset = self.ensure_traverse_trie(key)?;
        let prop_offset = self.read_u32_data(node_offset + 4)?;
        let key_bytes = key.as_bytes();
        let value_bytes = value.as_bytes();
        if prop_offset == 0 {
            return self.attach_prop_info(node_offset, key_bytes, value_bytes);
        }
        let record = self.read_prop_record(prop_offset)?;
        let serial = self.read_u32_data(prop_offset)?;
        let serial_len = self.serial_len_for_layout(value_bytes, record.is_long)?;
        match self.update_in_place(&record, value_bytes) {
            Ok(()) => Ok(
                PropWriteResult {
                    prop_offset,
                    serial,
                    created: false,
                    serial_len,
                    is_long: record.is_long,
                },
            ),
            Err(PropAreaError::InPlaceUpdateTooLong { .. }) => {
                self.detach_prop_info(node_offset, prop_offset)?;
                self.attach_prop_info(node_offset, key_bytes, value_bytes)
            },
            Err(e) => Err(e),
        }
    }

    /// Set or create a property, its serial with it.
    pub fn set_property(&mut self, key: &str, value: &str) -> (r: Result<()>)
        requires
            old(self).valid(),
        ensures
            final(self).valid(),
            final(self).outside() == old(self).outside(),
            final(self)@ == set_with_serial(old(self)@, text_bytes(key@), text_bytes(value@)).0,
            match (r, set_with_serial(old(self)@, text_bytes(key@), text_bytes(value@)).1) {
                (Ok(_), Ok(_)) => true,
                (Err(e), Err(f)) => e@ == f,
                _ => false,
            },
    {
        let write = self.set_property_no_serial(key, value)?;
        let serial = if write.created {
            compose_initial_serial(write.serial_len, write.is_long)
        } else {
            compose_updated_serial(write.serial, write.serial_len, write.is_long)
        };
        self.write_u32_data(write.prop_offset, serial)
    }
}

impl PropArea {
    /// Remove the nodes below `offset` that lead to no property; whether the
    /// node at `offset` itself was removed.
    fn prune_trie(&mut self, offset: u32, depth: u64) -> (r: Result<bool>)
        requires
            old(self).valid(),
        ensures
            final(self).valid(),
            final(self).outside() == old(self).outside(),
            final(self)@ == old(self)@.with(prune(old(self)@.data, offset as int, depth as nat).0),
            match (r, prune(old(self)@.data, offset as int, depth as nat).1) {
                (Ok(o), Ok(v)) => o == v,
                (Err(e), Err(f)) => e@ == f,
                _ => false,
            },
        decreases depth, 0int,
    {
        if depth == 0 {
            return Err(PropAreaError::Corrupted("possible cycle while pruning trie"));
        }
        let ghost d = self@.data;
        let ghost below = (depth - 1) as nat;
        let node = self.read_node(offset)?;
        let kids = self.prune_link(offset + 16, node.children, depth - 1)?;
        let ghost d1 = self@.data;
        assert(prune_link(d, offset + 16, node.children as int, below) == (
            d1,
            Ok::<bool, AreaFault>(kids),
        ));
        let left = self.prune_link(offset + 8, node.left, depth - 1)?;
        let ghost d2 = self@.data;
        assert(prune_link(d1, offset + 8, node.left as int, below) == (
            d2,
            Ok::<bool, AreaFault>(left),
        ));
        let right = self.prune_link(offset + 12, node.right, depth - 1)?;
        let ghost d3 = self@.data;
        assert(prune_link(d2, offset + 12, node.right as int, below) == (
            d3,
            Ok::<bool, AreaFault>(right),
        ));
        let prop = self.read_u32_data(offset + 4)?;
        if kids && left && right && prop == 0 {
            self.wipe_node(offset, node.namelen)
        } else {
            Ok(false)
        }
    }

    /// Zero the node at `offset`.
    fn wipe_node(&mut self, offset: u32, namelen: u32) -> (r: Result<bool>)
        requires
            old(self).valid(),
            offset + 20 <= old(self)@.data.len(),
        ensures
            final(self).valid(),
            final(self).outside() == old(self).outside(),
            final(self)@ == old(self)@.with(
                wipe_node(old(self)@.data, offset as int, namelen as int).0,
            ),
            match (r, wipe_node(old(self)@.data, offset as int, namelen as int).1) {
                (Ok(o), Ok(v)) => o == v,
                (Err(e), Err(f)) => e@ == f,
                _ => false,
            },
    {
        let name_size = if namelen == 0 {
            0
        } else {
            namelen.wrapping_add(1)
        };
        self.zero_data(offset + PROP_TRIE_NODE_HEADER_SIZE, name_size)?;
        self.zero_data(offset, PROP_TRIE_NODE_HEADER_SIZE)?;
        Ok(true)
    }

    /// Prune what the word at `at`, holding `link`, refers to; whether nothing
    /// is left there.
    fn prune_link(&mut self, at: u32, link: u32, depth: u64) -> (r: Result<bool>)
        requires
            old(self).valid(),
            at + 4 <= old(self)@.data.len(),
        ensures
            final(self).valid(),
            final(self).outside() == old(self).outside(),
            final(self)@ == old(self)@.with(
                prune_link(old(self)@.data, at as int, link as int, depth as nat).0,
            ),
            final(self)@.data.len() == old(self)@.data.len(),
            match (r, prune_link(old(self)@.data, at as int, link as int, depth as nat).1) {
                (Ok(o), Ok(v)) => o == v,
                (Err(e), Err(f)) => e@ == f,
                _ => false,
            },
        decreases depth, 1int,
    {
        if link == 0 {
            return Ok(true);
        }
        proof {
            lemma_prune_len(self@.data, link as int, depth as nat);
        }
        let removed = self.prune_trie(link, depth)?;
        if removed {
            self.write_u32_data(at, 0)?;
        }
        Ok(removed)
    }

    fn delete_property_inner(&mut self, key: &str, pruned: bool) -> (r: Result<bool>)
        requires
            old(self).valid(),
        ensures
            final(self).valid(),
            final(self).outside() == old(self).outside(),
            final(self)@ == delete(old(self)@, text_bytes(key@), pruned).0,
            match (r, delete(old(self)@, text_bytes(key@), pruned).1) {
                (Ok(o), Ok(v)) => o == v,
                (Err(e), Err(f)) => e@ == f,
                _ => false,
            },
    {
        let node_offset = match self.traverse_trie(key)? {
            Some(offset) => offset,
            None => {
                return Ok(false);
            },
        };
        let prop_offset = self.read_u32_data(node_offset + 4)?;
        if prop_offset == 0 {
            return Ok(false);
        }
        self.detach_prop_info(node_offset, prop_offset)?;
        if pruned {
            let depth = self.data.len() as u64 + 1;
            self.prune_trie(0, depth)?;
        }
        Ok(true)
    }

    /// Delete a property and the trie nodes that lead to no property after
    /// that; whether there was such a property.
    pub fn delete_property(&mut self, key: &str) -> (r: Result<bool>)
        requires
            old(self).valid(),
        ensures
            final(self).valid(),
            final(self).outside() == old(self).outside(),
            final(self)@ == delete(old(self)@, text_bytes(key@), true).0,
            match (r, delete(old(self)@, text_bytes(key@), true).1) {
                (Ok(o), Ok(v)) => o == v,
                (Err(e), Err(f)) => e@ == f,
                _ => false,
            },
    {
        self.delete_property_inner(key, true)
    }

    /// Delete a property and keep its trie node; whether there was such a
    /// property.
    pub fn delete_property_no_prune(&mut self, key: &str) -> (r: Result<bool>)
        requires
            old(self).valid(),
        ensures
            final(self).valid(),
            final(self).outside() == old(self).outside(),
            final(self)@ == delete(old(self)@, text_bytes(key@), false).0,
            match (r, delete(old(self)@, text_bytes(key@), false).1) {
                (Ok(o), Ok(v)) => o == v,
                (Err(e), Err(f)) => e@ == f,
                _ => false,
            },
    {
        self.delete_property_inner(key, false)
    }
}

/// The views of a list of properties.
pub open spec fn views(v: Seq<PropertyInfo>) -> Seq<PropView> {
    v.map(|_i: int, p: PropertyInfo| p@)
}

} // verus!
