//! The binary context table kept in `property_info`: which SELinux context a
//! property name belongs to.
//!
//! All numbers are words in the byte order of the machine that wrote the
//! table. The header holds six of them:
//!
//! | at | word                       |
//! |----|----------------------------|
//! | 0  | version                    |
//! | 4  | least supported version    |
//! | 8  | size                       |
//! | 12 | where the contexts stand   |
//! | 16 | where the types stand      |
//! | 20 | where the root node stands |
//!
//! Contexts and types are a count followed by as many places of
//! NUL-terminated strings. A node is seven words: its entry, then the count
//! and the place of its children, of its prefixes and of its exact matches.
//! An entry is four words: the place and the length of its name, its context
//! and its type.
use vstd::prelude::*;
use vstd::slice::slice_subrange;
use vstd::utf8::{decode_utf8, valid_utf8};
use crate::area_state::{dot_index, lemma_dot_index};
use crate::bytes::{
    bytes_equal, compare_bytes, find_nul, lex_order, nul_index, read_u32_at,
    str_from_utf8, text_bytes, u32_at, KeyOrder,
};

verus! {

/// The newest table layout that is understood.
pub const SUPPORTED_VERSION: u32 = 2;

/// The context index of an entry that has no context.
pub const NO_CONTEXT: u32 = 0xffff_ffff;

/// The context of a property that nothing else matches.
pub const DEFAULT_CONTEXT: &'static str = "u:object_r:default_prop:s0";

/// Why a table was not loaded.
#[derive(Debug, Clone, Copy, PartialEq, Eq, Structural)]
pub enum TableError {
    /// The table is shorter than its header.
    TooSmall,
    /// The table asks for a newer reader than this one.
    UnsupportedVersion(u32),
}

/// The big-endian word stored at `i`.
pub open spec fn u32_be_at(d: Seq<u8>, i: int) -> int {
    d[i + 3] + 0x100 * d[i + 2] + 0x1_0000 * d[i + 1] + 0x100_0000 * d[i]
}

/// An entry as far as a lookup reads it.
pub struct EntryView {
    pub name: int,
    pub len: int,
    pub context: int,
}

/// How far a lookup has come: the part of the name that is left, the node it
/// stands at and the context found so far.
pub struct Position {
    pub rest: Seq<u8>,
    pub node: int,
    pub context: int,
}

/// What looking for an exact match gave.
pub enum ExactMatch {
    /// A word or a name could not be read.
    Broken,
    /// No entry has the name.
    Miss,
    /// The first entry with the name has this context index.
    Hit(int),
}

/// What a table holds: its bytes and their order within a word.
pub struct ContextTable {
    pub data: Seq<u8>,
    pub big_endian: bool,
}

/// `child` as `n` bytes: cut off, or filled up with NUL bytes.
pub open spec fn padded(child: Seq<u8>, n: int) -> Seq<u8> {
    Seq::new(
        n as nat,
        |i: int|
            if i < child.len() {
                child[i]
            } else {
                0u8
            },
    )
}

/// How a child's name compares with one piece of a property name: by the
/// length of the piece first, a longer name then being the greater.
pub open spec fn piece_order(child: Seq<u8>, piece: Seq<u8>) -> KeyOrder {
    let order = lex_order(padded(child, piece.len() as int), piece);
    if order == KeyOrder::Equal && child.len() > piece.len() {
        KeyOrder::Greater
    } else {
        order
    }
}

/// `newer` where it is a context, else `older`.
pub open spec fn overridden(older: int, newer: int) -> int {
    if newer != NO_CONTEXT {
        newer
    } else {
        older
    }
}

/// The index that `context` stands for.
pub open spec fn known(context: int) -> Option<int> {
    if context == NO_CONTEXT {
        None
    } else {
        Some(context)
    }
}

impl ContextTable {
    /// The word at `at`, where there is one.
    pub open spec fn word(self, at: int) -> Option<int> {
        if 0 <= at && at + 4 <= self.data.len() {
            Some(
                if self.big_endian {
                    u32_be_at(self.data, at)
                } else {
                    u32_at(self.data, at)
                },
            )
        } else {
            None
        }
    }

    /// The word at `at`, zero where there is none.
    pub open spec fn word_or_zero(self, at: int) -> int {
        match self.word(at) {
            Some(v) => v,
            None => 0,
        }
    }

    /// The string that starts at `at` and ends at a NUL byte or with the
    /// table, where it is well-formed text.
    pub open spec fn text(self, at: int) -> Option<Seq<u8>> {
        if 0 <= at <= self.data.len() {
            let s = self.data.subrange(at, nul_index(self.data, at, self.data.len() as int));
            if valid_utf8(s) {
                Some(s)
            } else {
                None
            }
        } else {
            None
        }
    }

    /// Why the table is not loaded, if it is not.
    pub open spec fn fault(self) -> Option<TableError> {
        if self.data.len() < 24 {
            Some(TableError::TooSmall)
        } else if self.word_or_zero(4) > SUPPORTED_VERSION {
            Some(TableError::UnsupportedVersion(self.word_or_zero(4) as u32))
        } else {
            None
        }
    }

    /// Where the list stands that the header word at `slot` points to.
    pub open spec fn list_at(self, slot: int) -> Option<int> {
        match self.word(slot) {
            Some(off) => if off < self.data.len() {
                Some(off)
            } else {
                None
            },
            None => None,
        }
    }

    /// Where the root node stands.
    pub open spec fn root(self) -> Option<int> {
        match self.word(20) {
            Some(off) => if off + 28 <= self.data.len() {
                Some(off)
            } else {
                None
            },
            None => None,
        }
    }

    /// The number of strings in a list.
    pub open spec fn count(self, list: Option<int>) -> int {
        match list {
            Some(off) => self.word_or_zero(off),
            None => 0,
        }
    }

    /// String `index` of a list.
    pub open spec fn item(self, list: Option<int>, index: int) -> Option<Seq<u8>> {
        match list {
            Some(off) => match self.word(off + 4 + 4 * index) {
                Some(at) => self.text(at),
                None => None,
            },
            None => None,
        }
    }

    /// The number of contexts.
    pub open spec fn context_count(self) -> int {
        self.count(self.list_at(12))
    }

    /// Context `index`.
    pub open spec fn context_text(self, index: int) -> Option<Seq<u8>> {
        self.item(self.list_at(12), index)
    }

    /// The number of types.
    pub open spec fn type_count(self) -> int {
        self.count(self.list_at(16))
    }

    /// Type `index`.
    pub open spec fn type_text(self, index: int) -> Option<Seq<u8>> {
        self.item(self.list_at(16), index)
    }

    /// The context index in the entry of the node at `node`.
    pub open spec fn node_context(self, node: int) -> Option<int> {
        match self.word(node) {
            Some(entry) => self.word(entry + 8),
            None => None,
        }
    }

    /// The entry whose place stands at `at`.
    pub open spec fn entry(self, at: int) -> Option<EntryView> {
        match self.word(at) {
            Some(e) => match (self.word(e), self.word(e + 4), self.word(e + 8)) {
                (Some(name), Some(len), Some(context)) => Some(EntryView { name, len, context }),
                _ => None,
            },
            None => None,
        }
    }

    /// Entry `i` of the prefixes that stand at `list`.
    pub open spec fn prefix(self, list: int, i: int) -> Option<EntryView> {
        self.entry(list + 4 * i)
    }

    /// Whether `rest` starts with the name of `e`.
    pub open spec fn prefix_fits(self, e: EntryView, rest: Seq<u8>) -> bool {
        &&& e.len <= rest.len()
        &&& e.name + e.len <= self.data.len()
        &&& rest.take(e.len) == self.data.subrange(e.name, e.name + e.len)
    }

    /// The context after looking through the prefixes `i..n` at `list`: the
    /// first one that `rest` starts with decides. A prefix that cannot be
    /// read ends the search.
    pub open spec fn match_prefixes(
        self,
        rest: Seq<u8>,
        list: int,
        i: int,
        n: int,
        context: int,
    ) -> int
        decreases n - i,
    {
        if i >= n {
            context
        } else {
            match self.prefix(list, i) {
                None => context,
                Some(e) => if e.len <= rest.len() && e.name + e.len > self.data.len() {
                    context
                } else if self.prefix_fits(e, rest) {
                    overridden(context, e.context)
                } else {
                    self.match_prefixes(rest, list, i + 1, n, context)
                },
            }
        }
    }

    /// The context after looking through the prefixes of a node.
    pub open spec fn match_node_prefixes(self, rest: Seq<u8>, node: int, context: int) -> int {
        match self.word(node + 16) {
            Some(list) => self.match_prefixes(
                rest,
                list,
                0,
                self.word_or_zero(node + 12),
                context,
            ),
            None => context,
        }
    }

    /// Child `i` of a node: where it stands and its name.
    pub open spec fn child(self, node: int, i: int) -> Option<(int, Seq<u8>)> {
        match self.word(node + 8) {
            Some(list) => match self.word(list + 4 * i) {
                Some(off) => match self.name_of(off) {
                    Some(name) => Some((off, name)),
                    None => None,
                },
                None => None,
            },
            None => None,
        }
    }

    /// The name of the node at `off`.
    pub open spec fn name_of(self, off: int) -> Option<Seq<u8>> {
        match self.word(off) {
            Some(entry) => match self.word(entry) {
                Some(name) => self.text(name),
                None => None,
            },
            None => None,
        }
    }

    /// The number of children of a node.
    pub open spec fn child_count(self, node: int) -> int {
        self.word_or_zero(node + 4)
    }

    /// The outcome of halving the children `lo..=hi` of a node in search of
    /// `piece`. A child that cannot be read ends the search.
    pub open spec fn search(self, node: int, piece: Seq<u8>, lo: int, hi: int) -> Option<int>
        decreases hi - lo + 1,
    {
        if lo > hi {
            None
        } else {
            let mid = (lo + hi) / 2;
            match self.child(node, mid) {
                None => None,
                Some((off, name)) => match piece_order(name, piece) {
                    KeyOrder::Equal => Some(off),
                    KeyOrder::Less => self.search(node, piece, mid + 1, hi),
                    KeyOrder::Greater => self.search(node, piece, lo, mid - 1),
                },
            }
        }
    }

    /// The child of a node for one piece of a name. More children than a
    /// signed word counts are none at all.
    pub open spec fn find_child(self, node: int, piece: Seq<u8>) -> Option<int> {
        let n = self.child_count(node);
        if n > i32::MAX {
            None
        } else {
            self.search(node, piece, 0, n - 1)
        }
    }

    /// Where a lookup ends that goes down from `p`, one piece of the name at
    /// a time.
    pub open spec fn descend(self, p: Position) -> Position
        decreases p.rest.len(),
    {
        let own = match self.node_context(p.node) {
            Some(c) => overridden(p.context, c),
            None => p.context,
        };
        let context = self.match_node_prefixes(p.rest, p.node, own);
        let dot = dot_index(p.rest, 0);
        let here = Position { rest: p.rest, node: p.node, context };
        if dot >= p.rest.len() {
            here
        } else {
            proof {
                lemma_dot_index(p.rest, 0);
            }
            match self.find_child(p.node, p.rest.take(dot)) {
                Some(child) => self.descend(
                    Position { rest: p.rest.skip(dot + 1), node: child, context },
                ),
                None => here,
            }
        }
    }

    /// The outcome of looking for `rest` among the exact matches `i..n` at
    /// `list`.
    pub open spec fn match_exact(self, rest: Seq<u8>, list: int, i: int, n: int) -> ExactMatch
        decreases n - i,
    {
        if i >= n {
            ExactMatch::Miss
        } else {
            match self.word(list + 4 * i) {
                None => ExactMatch::Broken,
                Some(entry) => match self.name_of_entry(entry) {
                    None => ExactMatch::Broken,
                    Some(name) => if name != rest {
                        self.match_exact(rest, list, i + 1, n)
                    } else {
                        match self.word(entry + 8) {
                            Some(context) => ExactMatch::Hit(context),
                            None => ExactMatch::Broken,
                        }
                    },
                },
            }
        }
    }

    /// The name of the entry at `entry`.
    pub open spec fn name_of_entry(self, entry: int) -> Option<Seq<u8>> {
        match self.word(entry) {
            Some(name) => self.text(name),
            None => None,
        }
    }

    /// The context index at the end of a descent: an exact match goes first,
    /// then the prefixes of the node once more.
    pub open spec fn settle(self, p: Position) -> Option<int> {
        let n = self.word_or_zero(p.node + 20);
        let by_prefix = known(self.match_node_prefixes(p.rest, p.node, p.context));
        if n == 0 {
            by_prefix
        } else {
            match self.word(p.node + 24) {
                None => None,
                Some(list) => match self.match_exact(p.rest, list, 0, n) {
                    ExactMatch::Broken => None,
                    ExactMatch::Hit(context) => known(overridden(p.context, context)),
                    ExactMatch::Miss => by_prefix,
                },
            }
        }
    }

    /// The index of the context of the property `name`.
    pub open spec fn context_index(self, name: Seq<u8>) -> Option<int> {
        match self.root() {
            None => None,
            Some(node) => self.settle(
                self.descend(Position { rest: name, node, context: NO_CONTEXT as int }),
            ),
        }
    }

    /// The context of the property `name`.
    pub open spec fn context_for(self, name: Seq<u8>) -> Seq<char> {
        match self.context_index(name) {
            Some(index) => match self.context_text(index) {
                Some(s) => decode_utf8(s),
                None => DEFAULT_CONTEXT@,
            },
            None => DEFAULT_CONTEXT@,
        }
    }
}

/// What a reader made of an optional number.
pub open spec fn as_number(r: Option<u32>) -> Option<int> {
    match r {
        Some(v) => Some(v as int),
        None => None,
    }
}

/// What a reader made of an optional place.
pub open spec fn as_place(r: Option<usize>) -> Option<int> {
    match r {
        Some(v) => Some(v as int),
        None => None,
    }
}

/// Whether a reader's text is the string `s`.
pub open spec fn reads_text(r: Option<&str>, s: Option<Seq<u8>>) -> bool {
    match r {
        Some(t) => s == Some(text_bytes(t@)),
        None => s is None,
    }
}

/// `u32::from_ne_bytes`: the word in the byte order of this machine. Which of
/// the two orders that is, is left open.
#[verifier::external_body]
fn native_word(bytes: [u8; 4]) -> (r: u32)
    ensures
        r == u32_at(bytes@, 0) || r == u32_be_at(bytes@, 0),
{
    u32::from_ne_bytes(bytes)
}

/// Whether this machine stores the most significant byte of a word first.
fn native_big_endian() -> (r: bool) {
    native_word([1u8, 0u8, 0u8, 0u8]) != 1
}

/// Compare a child's name with one piece of a property name.
pub fn compare_piece(child: &[u8], piece: &[u8]) -> (r: KeyOrder)
    ensures
        r == piece_order(child@, piece@),
{
    let n = piece.len();
    let mut filled: Vec<u8> = Vec::new();
    let mut i: usize = 0;
    while i < n
        invariant
            i <= n,
            filled@ == padded(child@, i as int),
        decreases n - i,
    {
        filled.push(if i < child.len() { child[i] } else { 0 });
        i = i + 1;
        proof {
            assert(filled@ =~= padded(child@, i as int));
        }
    }
    let order = compare_bytes(filled.as_slice(), piece);
    if order == KeyOrder::Equal && child.len() > n {
        KeyOrder::Greater
    } else {
        order
    }
}

/// The first position of a dot in `s`, or the length of `s`.
pub(crate) fn find_dot(s: &[u8]) -> (r: usize)
    ensures
        r == dot_index(s@, 0),
{
    let mut i: usize = 0;
    while i < s.len()
        invariant
            i <= s@.len(),
            dot_index(s@, 0) == dot_index(s@, i as int),
        decreases s@.len() - i,
    {
        if s[i] == 0x2e {
            return i;
        }
        i = i + 1;
    }
    i
}

/// A loaded context table.
pub struct SerializedContext {
    data: Vec<u8>,
    big_endian: bool,
}

impl View for SerializedContext {
    type V = ContextTable;

    closed spec fn view(&self) -> ContextTable {
        ContextTable { data: self.data@, big_endian: self.big_endian }
    }
}

/// Whether `r` is what loading `table` gives.
pub open spec fn loads(
    table: ContextTable,
    r: core::result::Result<SerializedContext, TableError>,
) -> bool {
    match r {
        Ok(c) => table.fault() is None && c@ == table,
        Err(e) => table.fault() == Some(e),
    }
}

impl SerializedContext {
    /// Load a table whose words are in this machine's byte order.
    pub fn load(data: Vec<u8>) -> (r: core::result::Result<SerializedContext, TableError>)
        ensures
            exists|big_endian: bool|
                #[trigger] loads((ContextTable { data: data@, big_endian }), r),
    {
        let big_endian = native_big_endian();
        let ghost table = ContextTable { data: data@, big_endian };
        let r = SerializedContext::parse(data, big_endian);
        proof {
            assert(loads(table, r));
        }
        r
    }

    /// Load a table whose words are in the given byte order.
    pub fn parse(data: Vec<u8>, big_endian: bool) -> (r: core::result::Result<
        SerializedContext,
        TableError,
    >)
        ensures
            loads((ContextTable { data: data@, big_endian }), r),
    {
        if data.len() < 24 {
            return Err(TableError::TooSmall);
        }
        let table = SerializedContext { data, big_endian };
        match table.read_u32(4) {
            Some(version) => {
                if version > SUPPORTED_VERSION {
                    return Err(TableError::UnsupportedVersion(version));
                }
            },
            None => {},
        }
        Ok(table)
    }

    /// Read the word at `offset`.
    pub fn read_u32(&self, offset: usize) -> (r: Option<u32>)
        ensures
            as_number(r) == self@.word(offset as int),
    {
        let n = self.data.len();
        if n < 4 || offset > n - 4 {
            return None;
        }
        if self.big_endian {
            let b0 = self.data[offset] as u32;
            let b1 = self.data[offset + 1] as u32;
            let b2 = self.data[offset + 2] as u32;
            let b3 = self.data[offset + 3] as u32;
            Some(b3 + b2 * 0x100 + b1 * 0x1_0000 + b0 * 0x100_0000)
        } else {
            Some(read_u32_at(self.data.as_slice(), offset))
        }
    }

    /// Read the word `delta` bytes after `base`.
    fn read_after(&self, base: usize, delta: usize) -> (r: Option<u32>)
        ensures
            as_number(r) == self@.word(base + delta),
    {
        proof {
            assert(self.data.len() == self.data@.len());
        }
        match base.checked_add(delta) {
            Some(at) => self.read_u32(at),
            None => None,
        }
    }

    /// Read word `index` of the words that stand at `base`.
    fn read_item(&self, base: usize, index: usize) -> (r: Option<u32>)
        ensures
            as_number(r) == self@.word(base + 4 * index),
    {
        if index > self.data.len() / 4 {
            return None;
        }
        self.read_after(base, 4 * index)
    }

    /// Read the NUL-terminated string at `offset`.
    pub fn read_cstr(&self, offset: usize) -> (r: Option<&str>)
        ensures
            reads_text(r, self@.text(offset as int)),
    {
        let n = self.data.len();
        if offset > n {
            return None;
        }
        let end = find_nul(self.data.as_slice(), offset, n);
        let r = str_from_utf8(slice_subrange(self.data.as_slice(), offset, end));
        proof {
            let s = self.data@.subrange(offset as int, end as int);
            if valid_utf8(s) {
                crate::bytes::lemma_text_round_trip(s);
            }
        }
        r
    }

    /// The version of the table.
    pub fn current_version(&self) -> (r: u32)
        ensures
            r == self@.word_or_zero(0),
    {
        match self.read_u32(0) {
            Some(v) => v,
            None => 0,
        }
    }

    /// The size that the table states of itself.
    pub fn size(&self) -> (r: usize)
        ensures
            r == self@.word_or_zero(8),
    {
        match self.read_u32(8) {
            Some(v) => v as usize,
            None => 0,
        }
    }

    fn list_offset(&self, slot: usize) -> (r: Option<usize>)
        ensures
            as_place(r) == self@.list_at(slot as int),
    {
        match self.read_u32(slot) {
            Some(off) => if (off as usize) < self.data.len() {
                Some(off as usize)
            } else {
                None
            },
            None => None,
        }
    }

    /// Where the contexts stand.
    pub fn contexts_offset(&self) -> (r: Option<usize>)
        ensures
            as_place(r) == self@.list_at(12),
    {
        self.list_offset(12)
    }

    /// Where the types stand.
    pub fn types_offset(&self) -> (r: Option<usize>)
        ensures
            as_place(r) == self@.list_at(16),
    {
        self.list_offset(16)
    }

    /// Where the root node stands.
    pub fn root_offset(&self) -> (r: Option<usize>)
        ensures
            as_place(r) == self@.root(),
    {
        match self.read_u32(20) {
            Some(off) => {
                let n = self.data.len();
                if n >= 28 && off as usize <= n - 28 {
                    Some(off as usize)
                } else {
                    None
                }
            },
            None => None,
        }
    }

    fn item_count(&self, list: Option<usize>) -> (r: usize)
        ensures
            r == self@.count(as_place(list)),
    {
        match list {
            Some(off) => match self.read_u32(off) {
                Some(v) => v as usize,
                None => 0,
            },
            None => 0,
        }
    }

    /// The number of contexts.
    pub fn num_contexts(&self) -> (r: usize)
        ensures
            r == self@.context_count(),
    {
        self.item_count(self.contexts_offset())
    }

    /// Context `index`.
    pub fn context(&self, index: usize) -> (r: Option<&str>)
        ensures
            reads_text(r, self@.context_text(index as int)),
    {
        self.list_text(self.contexts_offset(), index)
    }

    /// The number of types.
    pub fn num_types(&self) -> (r: usize)
        ensures
            r == self@.type_count(),
    {
        self.item_count(self.types_offset())
    }

    /// Type `index`.
    pub fn type_str(&self, index: usize) -> (r: Option<&str>)
        ensures
            reads_text(r, self@.type_text(index as int)),
    {
        self.list_text(self.types_offset(), index)
    }

    fn list_text(&self, list: Option<usize>, index: usize) -> (r: Option<&str>)
        ensures
            reads_text(r, self@.item(as_place(list), index as int)),
    {
        proof {
            assert(self.data.len() == self.data@.len());
        }
        match list {
            Some(off) => match off.checked_add(4) {
                Some(base) => match self.read_item(base, index) {
                    Some(at) => self.read_cstr(at as usize),
                    None => None,
                },
                None => None,
            },
            None => None,
        }
    }

    /// Where the entry of a node stands.
    pub fn node_pe_offset(&self, node_off: usize) -> (r: Option<usize>)
        ensures
            as_place(r) == self@.word(node_off as int),
    {
        match self.read_u32(node_off) {
            Some(v) => Some(v as usize),
            None => None,
        }
    }

    /// The context index in the entry of a node.
    pub fn node_context_index(&self, node_off: usize) -> (r: Option<u32>)
        ensures
            as_number(r) == self@.node_context(node_off as int),
    {
        match self.node_pe_offset(node_off) {
            Some(entry) => self.read_after(entry, 8),
            None => None,
        }
    }

    /// The number of children of a node.
    pub fn node_num_children(&self, node_off: usize) -> (r: usize)
        ensures
            r == self@.child_count(node_off as int),
    {
        self.number_after(node_off, 4)
    }

    fn number_after(&self, node_off: usize, delta: usize) -> (r: usize)
        ensures
            r == self@.word_or_zero(node_off + delta),
            r <= u32::MAX,
    {
        match self.read_after(node_off, delta) {
            Some(v) => v as usize,
            None => 0,
        }
    }

    fn place_after(&self, node_off: usize, delta: usize) -> (r: Option<usize>)
        ensures
            as_place(r) == self@.word(node_off + delta),
    {
        match self.read_after(node_off, delta) {
            Some(v) => Some(v as usize),
            None => None,
        }
    }

    /// Where the places of the children of a node stand.
    pub fn node_child_arr_off(&self, node_off: usize) -> (r: Option<usize>)
        ensures
            as_place(r) == self@.word(node_off + 8),
    {
        self.place_after(node_off, 8)
    }

    /// Where child `i` of a node stands.
    pub fn node_child_offset(&self, node_off: usize, i: usize) -> (r: Option<usize>)
        ensures
            as_place(r) == (match self@.word(node_off + 8) {
                Some(list) => self@.word(list + 4 * i),
                None => None,
            }),
    {
        match self.node_child_arr_off(node_off) {
            Some(list) => match self.read_item(list, i) {
                Some(v) => Some(v as usize),
                None => None,
            },
            None => None,
        }
    }

    /// The name of a node.
    pub fn node_child_name(&self, child_off: usize) -> (r: Option<&str>)
        ensures
            reads_text(r, self@.name_of(child_off as int)),
    {
        match self.node_pe_offset(child_off) {
            Some(entry) => match self.read_u32(entry) {
                Some(name) => self.read_cstr(name as usize),
                None => None,
            },
            None => None,
        }
    }

    /// The number of prefixes of a node.
    pub fn node_num_prefixes(&self, node_off: usize) -> (r: usize)
        ensures
            r == self@.word_or_zero(node_off + 12),
    {
        self.number_after(node_off, 12)
    }

    /// Where the places of the prefixes of a node stand.
    pub fn node_prefix_arr_off(&self, node_off: usize) -> (r: Option<usize>)
        ensures
            as_place(r) == self@.word(node_off + 16),
    {
        self.place_after(node_off, 16)
    }

    /// The number of exact matches of a node.
    pub fn node_num_exact_matches(&self, node_off: usize) -> (r: usize)
        ensures
            r == self@.word_or_zero(node_off + 20),
    {
        self.number_after(node_off, 20)
    }

    /// Where the places of the exact matches of a node stand.
    pub fn node_exact_arr_off(&self, node_off: usize) -> (r: Option<usize>)
        ensures
            as_place(r) == self@.word(node_off + 24),
    {
        self.place_after(node_off, 24)
    }

    /// Let the first prefix of a node that `rest` starts with decide the
    /// context.
    pub fn check_prefix_match(&self, rest: &[u8], node_off: usize, context: u32) -> (r: u32)
        ensures
            r == self@.match_node_prefixes(rest@, node_off as int, context as int),
    {
        let list = match self.node_prefix_arr_off(node_off) {
            Some(list) => list,
            None => {
                return context;
            },
        };
        let n = self.node_num_prefixes(node_off);
        let mut i: usize = 0;
        while i < n
            invariant
                i <= n,
                self@.match_prefixes(rest@, list as int, 0, n as int, context as int)
                    == self@.match_prefixes(rest@, list as int, i as int, n as int, context as int),
                self@.match_node_prefixes(rest@, node_off as int, context as int)
                    == self@.match_prefixes(rest@, list as int, 0, n as int, context as int),
            decreases n - i,
        {
            let entry = match self.read_item(list, i) {
                Some(entry) => entry as usize,
                None => {
                    return context;
                },
            };
            let name = match self.read_u32(entry) {
                Some(name) => name as usize,
                None => {
                    return context;
                },
            };
            let len = match self.read_after(entry, 4) {
                Some(len) => len as usize,
                None => {
                    return context;
                },
            };
            let own = match self.read_after(entry, 8) {
                Some(own) => own,
                None => {
                    return context;
                },
            };
            if len <= rest.len() {
                let total = self.data.len();
                if name > total || len > total - name {
                    return context;
                }
                let prefix = slice_subrange(self.data.as_slice(), name, name + len);
                if bytes_equal(slice_subrange(rest, 0, len), prefix) {
                    return if own != NO_CONTEXT {
                        own
                    } else {
                        context
                    };
                }
            }
            i = i + 1;
        }
        context
    }

    /// The child of a node for one piece of a name.
    pub fn find_child(&self, node_off: usize, piece: &[u8]) -> (r: Option<usize>)
        ensures
            as_place(r) == self@.find_child(node_off as int, piece@),
    {
        let n = self.node_num_children(node_off);
        if n > 0x7fff_ffff {
            return None;
        }
        let mut lo: usize = 0;
        let mut hi: usize = n;
        while lo < hi
            invariant
                lo <= hi <= n <= 0x7fff_ffff,
                self@.search(node_off as int, piece@, 0, n - 1) == self@.search(
                    node_off as int,
                    piece@,
                    lo as int,
                    hi - 1,
                ),
                self@.find_child(node_off as int, piece@) == self@.search(
                    node_off as int,
                    piece@,
                    0,
                    n - 1,
                ),
            decreases hi - lo,
        {
            let mid = (lo + hi - 1) / 2;
            let child = match self.node_child_offset(node_off, mid) {
                Some(child) => child,
                None => {
                    return None;
                },
            };
            let name = match self.node_child_name(child) {
                Some(name) => name,
                None => {
                    return None;
                },
            };
            match compare_piece(name.as_bytes(), piece) {
                KeyOrder::Equal => {
                    return Some(child);
                },
                KeyOrder::Less => {
                    lo = mid + 1;
                },
                KeyOrder::Greater => {
                    hi = mid;
                },
            }
        }
        None
    }

    /// Look for `rest` among the exact matches of a node that stand at `list`.
    fn find_exact(&self, rest: &[u8], list: usize, n: usize) -> (r: core::result::Result<
        Option<u32>,
        (),
    >)
        ensures
            match self@.match_exact(rest@, list as int, 0, n as int) {
                ExactMatch::Broken => r is Err,
                ExactMatch::Miss => r matches Ok(None),
                ExactMatch::Hit(context) => r matches Ok(Some(c)) && c == context,
            },
    {
        let mut i: usize = 0;
        while i < n
            invariant
                i <= n,
                self@.match_exact(rest@, list as int, 0, n as int) == self@.match_exact(
                    rest@,
                    list as int,
                    i as int,
                    n as int,
                ),
            decreases n - i,
        {
            let entry = match self.read_item(list, i) {
                Some(entry) => entry as usize,
                None => {
                    return Err(());
                },
            };
            let at = match self.read_u32(entry) {
                Some(at) => at as usize,
                None => {
                    return Err(());
                },
            };
            let name = match self.read_cstr(at) {
                Some(name) => name,
                None => {
                    return Err(());
                },
            };
            if bytes_equal(name.as_bytes(), rest) {
                return match self.read_after(entry, 8) {
                    Some(context) => Ok(Some(context)),
                    None => Err(()),
                };
            }
            i = i + 1;
        }
        Ok(None)
    }

    /// The index of the context of the property `name`.
    pub fn get_context_index(&self, name: &str) -> (r: Option<usize>)
        ensures
            as_place(r) == self@.context_index(text_bytes(name@)),
    {
        let bytes = name.as_bytes();
        let total = bytes.len();
        let mut node = match self.root_offset() {
            Some(node) => node,
            None => {
                return None;
            },
        };
        let mut context: u32 = NO_CONTEXT;
        let mut from: usize = 0;
        let ghost start = Position {
            rest: bytes@,
            node: node as int,
            context: NO_CONTEXT as int,
        };
        proof {
            assert(bytes@.skip(0) =~= bytes@);
        }
        loop
            invariant_except_break
                self@.descend(start) == self@.descend(
                    Position {
                        rest: bytes@.skip(from as int),
                        node: node as int,
                        context: context as int,
                    },
                ),
            invariant
                from <= total == bytes@.len(),
            ensures
                self@.descend(start) == (Position {
                    rest: bytes@.skip(from as int),
                    node: node as int,
                    context: context as int,
                }),
            decreases total - from,
        {
            let rest = slice_subrange(bytes, from, total);
            proof {
                assert(rest@ =~= bytes@.skip(from as int));
                lemma_dot_index(rest@, 0);
            }
            match self.node_context_index(node) {
                Some(own) => {
                    if own != NO_CONTEXT {
                        context = own;
                    }
                },
                None => {},
            }
            context = self.check_prefix_match(rest, node, context);
            let dot = find_dot(rest);
            if dot >= rest.len() {
                break;
            }
            match self.find_child(node, slice_subrange(rest, 0, dot)) {
                Some(child) => {
                    proof {
                        assert(rest@.take(dot as int) =~= rest@.subrange(0, dot as int));
                        assert(rest@.skip(dot + 1) =~= bytes@.skip(from + dot + 1));
                    }
                    node = child;
                    from = from + dot + 1;
                },
                None => {
                    proof {
                        assert(rest@.take(dot as int) =~= rest@.subrange(0, dot as int));
                    }
                    break;
                },
            }
        }
        let rest = slice_subrange(bytes, from, total);
        proof {
            assert(rest@ =~= bytes@.skip(from as int));
        }
        let n = self.node_num_exact_matches(node);
        if n > 0 {
            let list = match self.node_exact_arr_off(node) {
                Some(list) => list,
                None => {
                    return None;
                },
            };
            match self.find_exact(rest, list, n) {
                Err(()) => {
                    return None;
                },
                Ok(Some(own)) => {
                    if own != NO_CONTEXT {
                        context = own;
                    }
                    return if context == NO_CONTEXT {
                        None
                    } else {
                        Some(context as usize)
                    };
                },
                Ok(None) => {},
            }
        }
        context = self.check_prefix_match(rest, node, context);
        if context == NO_CONTEXT {
            None
        } else {
            Some(context as usize)
        }
    }

    /// The context of the property `name`.
    pub fn get_context_for_name(&self, name: &str) -> (r: &str)
        ensures
            r@ == self@.context_for(text_bytes(name@)),
    {
        match self.get_context_index(name) {
            Some(index) => match self.context(index) {
                Some(s) => {
                    proof {
                        crate::bytes::lemma_bytes_round_trip(s@);
                    }
                    s
                },
                None => DEFAULT_CONTEXT,
            },
            None => DEFAULT_CONTEXT,
        }
    }
}

} // verus!
