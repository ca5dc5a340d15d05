//! The fixed layout of a property area and the constants that follow from it.
use crate::bytes::text_bytes;
use vstd::prelude::*;

verus! {

/// First word of the magic pair in an area header.
pub const PROP_AREA_MAGIC: u32 = 0x504f_5250;

/// Layout version in an area header.
pub const PROP_AREA_VERSION: u32 = 0xfc6e_d0ab;

/// Size of the inline value slot of a property record, its NUL byte counted.
pub const PROP_VALUE_MAX: usize = 92;

/// Historic limit on the length of a property name.
pub const PROP_NAME_MAX: usize = 32;

/// Size of the legacy message buffer in the slot of a long property.
pub const LONG_LEGACY_ERROR_BUFFER_SIZE: usize = 56;

/// Text that stands in the inline slot of a long property.
pub const LONG_LEGACY_ERROR: &'static str = "Must use __system_property_read_callback() to read";

/// Length of [`LONG_LEGACY_ERROR`] in bytes.
pub const LONG_LEGACY_ERROR_LEN: u32 = 50;

/// Bit of a property serial that marks the long layout.
pub const PROP_INFO_LONG_FLAG: u32 = 0x1_0000;

/// Byte offset of the serial in an area header.
pub const AREA_SERIAL_OFFSET: u64 = 4;

/// Byte offset of the serial in a property record.
pub const PROP_INFO_SERIAL_OFFSET: u32 = 0;

/// Size of the area header; the data region starts right behind it.
pub const PROP_AREA_HEADER_SIZE: u64 = 128;

/// Size of the fixed part of a trie node.
pub const PROP_TRIE_NODE_HEADER_SIZE: u32 = 20;

/// Size of the fixed part of a property record.
pub const PROP_INFO_SIZE: u32 = 96;

/// Byte offset, in a property record, of the relative offset of a long value.
pub const LONG_OFFSET_IN_INFO: u32 = 60;

/// Size of the dirty-backup slot behind the root node.
pub const DIRTY_BACKUP_SIZE: u32 = 92;

/// Bytes in use in a fresh area: the root node and the dirty-backup slot.
pub const INITIAL_BYTES_USED: u32 = 112;

/// Header of an area, in front of its data region.
///
/// ```text
/// offset   0  bytes_used
/// offset   4  serial
/// offset   8  magic
/// offset  12  version
/// offset  16  reserved (28 words)
/// ```
pub struct RawPropAreaHeader {
    pub bytes_used: u32,
    pub serial: u32,
    pub magic: u32,
    pub version: u32,
    pub reserved: [u32; 28],
}

/// Fixed part of a trie node; the NUL-terminated name segment follows it.
///
/// ```text
/// offset  0  namelen
/// offset  4  prop
/// offset  8  left
/// offset 12  right
/// offset 16  children
/// ```
#[derive(Debug, Clone, Copy)]
pub struct RawTrieNodeHeader {
    pub namelen: u32,
    pub prop: u32,
    pub left: u32,
    pub right: u32,
    pub children: u32,
}

/// What the inline slot of a long property holds.
pub struct RawLongProperty {
    pub error_message: [u8; 56],
    pub offset: u32,
}

/// Fixed part of a property record; the NUL-terminated name follows it.
pub struct RawPropInfoHeader {
    pub serial: u32,
    pub value: [u8; 92],
}

/// A property as it was found in an area.
#[derive(Debug, Clone, PartialEq, Eq)]
pub struct PropertyInfo {
    pub name: String,
    pub value: String,
    pub prop_offset: u32,
    pub name_offset: u32,
    pub value_offset: u32,
    pub is_long: bool,
}

/// A property as bytes and offsets.
pub struct PropView {
    pub name: Seq<u8>,
    pub value: Seq<u8>,
    pub prop_offset: int,
    pub name_offset: int,
    pub value_offset: int,
    pub is_long: bool,
}

impl View for PropertyInfo {
    type V = PropView;

    open spec fn view(&self) -> PropView {
        PropView {
            name: text_bytes(self.name@),
            value: text_bytes(self.value@),
            prop_offset: self.prop_offset as int,
            name_offset: self.name_offset as int,
            value_offset: self.value_offset as int,
            is_long: self.is_long,
        }
    }
}

/// `v` rounded up to a multiple of four, in 32-bit arithmetic.
pub open spec fn align4(v: int) -> int {
    (v + 3) % 0x1_0000_0000 / 4 * 4
}

/// Round `value` up to a multiple of `align`, a power of two.
///
/// The sum wraps around at 32 bits; an `align` of zero leaves the value alone.
pub fn align_up(value: u32, align: u32) -> (r: u32)
    ensures
        align == 0 ==> r == value,
        align != 0 ==> r == (((value + align - 1) % 0x1_0000_0000) as u32 & !((align - 1) as u32)),
        align == 4 ==> r == align4(value as int),
{
    if align == 0 {
        return value;
    }
    let mask = align - 1;
    let sum = value.wrapping_add(mask);
    proof {
        assert(sum & !3u32 == sum / 4 * 4) by (bit_vector);
    }
    sum & !mask
}

} // verus!
