//! Reading, editing and resolving Android system-property storage.
//!
//! Public functions state what they return and what they change in their
//! contracts.
//!
//! | modules                                    | subject                             |
//! |--------------------------------------------|-------------------------------------|
//! | `prop_area`, `allocation_scan`, `compaction` | property areas                    |
//! | `area_state`, `area_edit`, `area_scan`, `area_compact` | what operations on areas mean |
//! | `area_layout` and what builds on it        | well-formed areas and their laws    |
//! | `serial_laws`                              | what the serials of properties say  |
//! | `mmap_prop_area`, `live_area`, `live_growth`, `live_laws`, `live_order`, `live_reading`, `live_removal` | areas that others read meanwhile |
//! | `property_context`, `context_table`, `context_list`, `context_laws` | contexts of properties |
//! | `persistent_prop`, `wire_format`, `legacy_props`, `atomic_write` | persistent properties |
//! | `sys_prop`, `resetprop`, `commands`, `deploy` | what the tools decide            |
pub mod allocation_scan;
pub mod area_compact;
pub mod area_compact_laws;
pub mod area_dead_nodes;
pub mod area_edit;
pub mod area_growth;
pub mod area_history;
pub mod area_keys;
pub mod area_laws;
pub mod area_layout;
pub mod area_listing;
pub mod area_moving;
pub mod area_opening;
pub mod area_order;
pub mod area_packing;
pub mod area_places;
pub mod area_pruning;
pub mod area_records;
pub mod area_relocation;
pub mod area_report;
pub mod area_room;
pub mod area_scan;
pub mod area_scan_kinds;
pub mod area_scan_laws;
pub mod area_settled;
pub mod area_state;
pub mod area_wiping;
pub mod atomic_write;
pub mod bytes;
pub mod commands;
pub mod compaction;
pub mod context_laws;
pub mod context_list;
pub mod context_table;
pub mod deploy;
pub mod legacy_props;
pub mod live_area;
pub mod live_growth;
pub mod live_laws;
pub mod live_order;
pub mod live_reading;
pub mod live_removal;
pub mod mmap_prop_area;
pub mod name_order;
pub mod offset_map;
pub mod offset_set;
pub mod persistent_prop;
pub mod prop_area;
pub mod prop_info;
pub mod property_context;
pub mod resetprop;
pub mod serial_laws;
pub mod sys_prop;
pub mod text;
pub mod wire_format;

pub use allocation_scan::{PropAreaAllocationScan, PropAreaHoleInfo, PropAreaObjectInfo};
pub use area_scan::PropAreaObjectKind;
pub use compaction::CompactResult;
pub use persistent_prop::{
    PersistentPropError, PersistentProperty, PersistentPropertyFile, PersistentResult,
    ANDROID_PERSISTENT_PROP_DIR, ANDROID_PERSISTENT_PROP_FILE,
};
pub use prop_area::{PropArea, PropAreaError, PropWriteResult, Result};
pub use prop_info::{
    PropertyInfo, AREA_SERIAL_OFFSET, PROP_AREA_HEADER_SIZE, PROP_AREA_MAGIC, PROP_AREA_VERSION,
    PROP_INFO_SERIAL_OFFSET, PROP_NAME_MAX, PROP_VALUE_MAX,
};
pub use property_context::{ContextType, PropertyContext};
