//! Which SELinux context a property belongs to, whatever the form in which
//! the system keeps that knowledge.
//!
//! | properties directory | `property_info` | form       |
//! |----------------------|-----------------|------------|
//! | directory            | there           | serialized |
//! | directory            | missing         | split      |
//! | plain file           |                 | pre-split  |
use vstd::prelude::*;
use vstd::utf8::decode_utf8;
use crate::bytes::{lemma_bytes_round_trip, text_bytes};
use crate::context_list::{
    first_fit, lemma_first_fit, listed_context, PrefixEntry, PrefixView, SplitContext,
};
use crate::context_table::{ContextTable, SerializedContext};
use crate::name_order::{ascending, distinct_names, names_of, texts_of};
use crate::text::same_text;

verus! {

/// The context of every property where there is one area only.
pub const PRE_SPLIT_CONTEXT: &'static str = "u:object_r:properties_device:s0";

/// The form in which contexts are kept.
#[derive(Debug, Clone, Copy, PartialEq, Eq, Structural)]
pub enum ContextType {
    /// A binary table in `property_info`.
    Serialized,
    /// Text in `property_contexts` files.
    Split,
    /// One area for all properties.
    PreSplit,
}

impl ContextType {
    /// The form of what is found at the properties directory.
    pub fn detect(is_dir: bool, has_property_info: bool) -> (r: ContextType)
        ensures
            r == (if !is_dir {
                ContextType::PreSplit
            } else if has_property_info {
                ContextType::Serialized
            } else {
                ContextType::Split
            }),
    {
        if is_dir {
            if has_property_info {
                ContextType::Serialized
            } else {
                ContextType::Split
            }
        } else {
            ContextType::PreSplit
        }
    }

    /// What the form is called.
    pub open spec fn label(self) -> Seq<char> {
        match self {
            ContextType::Serialized => "Serialized"@,
            ContextType::Split => "Split"@,
            ContextType::PreSplit => "PreSplit"@,
        }
    }

    /// What the form is called.
    pub fn name(&self) -> (r: &'static str)
        ensures
            r@ == self.label(),
    {
        match self {
            ContextType::Serialized => "Serialized",
            ContextType::Split => "Split",
            ContextType::PreSplit => "PreSplit",
        }
    }
}

/// A text file with prefixes and contexts, by its path below the system root.
#[derive(Debug, Clone, Copy, PartialEq, Eq, Structural)]
pub enum ContextFile {
    /// `property_contexts`
    Legacy,
    /// `system/etc/selinux/plat_property_contexts`
    Plat,
    /// `vendor/etc/selinux/vendor_property_contexts`
    Vendor,
    /// `vendor/etc/selinux/nonplat_property_contexts`
    Nonplat,
    /// `plat_property_contexts`
    RootPlat,
    /// `vendor_property_contexts`
    RootVendor,
    /// `nonplat_property_contexts`
    RootNonplat,
}

impl ContextFile {
    /// The path below the system root.
    pub open spec fn location(self) -> Seq<char> {
        match self {
            ContextFile::Legacy => "property_contexts"@,
            ContextFile::Plat => "system/etc/selinux/plat_property_contexts"@,
            ContextFile::Vendor => "vendor/etc/selinux/vendor_property_contexts"@,
            ContextFile::Nonplat => "vendor/etc/selinux/nonplat_property_contexts"@,
            ContextFile::RootPlat => "plat_property_contexts"@,
            ContextFile::RootVendor => "vendor_property_contexts"@,
            ContextFile::RootNonplat => "nonplat_property_contexts"@,
        }
    }

    /// The path below the system root.
    pub fn path(&self) -> (r: &'static str)
        ensures
            r@ == self.location(),
    {
        match self {
            ContextFile::Legacy => "property_contexts",
            ContextFile::Plat => "system/etc/selinux/plat_property_contexts",
            ContextFile::Vendor => "vendor/etc/selinux/vendor_property_contexts",
            ContextFile::Nonplat => "vendor/etc/selinux/nonplat_property_contexts",
            ContextFile::RootPlat => "plat_property_contexts",
            ContextFile::RootVendor => "vendor_property_contexts",
            ContextFile::RootNonplat => "nonplat_property_contexts",
        }
    }
}

/// Which of the text files there are.
#[derive(Debug, Clone, Copy, PartialEq, Eq, Structural)]
pub struct ContextFiles {
    pub legacy: bool,
    pub plat: bool,
    pub vendor: bool,
    pub root_plat: bool,
    pub root_vendor: bool,
}

/// The text files to read: the first has to be readable, the second need not.
#[derive(Debug, Clone, Copy, PartialEq, Eq, Structural)]
pub struct LoadPlan {
    pub required: ContextFile,
    pub optional: Option<ContextFile>,
}

impl ContextFiles {
    /// The files to read, where there are any: a single file goes first, then
    /// files below `system` and `vendor`, then files at the root.
    pub open spec fn plan(self) -> Option<LoadPlan> {
        if self.legacy {
            Some(LoadPlan { required: ContextFile::Legacy, optional: None })
        } else if self.plat {
            let vendor = if self.vendor {
                ContextFile::Vendor
            } else {
                ContextFile::Nonplat
            };
            Some(LoadPlan { required: ContextFile::Plat, optional: Some(vendor) })
        } else if self.root_plat {
            let vendor = if self.root_vendor {
                ContextFile::RootVendor
            } else {
                ContextFile::RootNonplat
            };
            Some(LoadPlan { required: ContextFile::RootPlat, optional: Some(vendor) })
        } else {
            None
        }
    }

    /// The files to read, where there are any.
    pub fn load_plan(&self) -> (r: Option<LoadPlan>)
        ensures
            r == self.plan(),
    {
        if self.legacy {
            return Some(LoadPlan { required: ContextFile::Legacy, optional: None });
        }
        let (required, vendor) = if self.plat {
            (
                ContextFile::Plat,
                if self.vendor {
                    ContextFile::Vendor
                } else {
                    ContextFile::Nonplat
                },
            )
        } else if self.root_plat {
            (
                ContextFile::RootPlat,
                if self.root_vendor {
                    ContextFile::RootVendor
                } else {
                    ContextFile::RootNonplat
                },
            )
        } else {
            return None;
        };
        Some(LoadPlan { required, optional: Some(vendor) })
    }
}

/// What is known about contexts.
pub enum ContextStorage {
    Serialized(SerializedContext),
    Split(SplitContext),
    PreSplit,
}

/// What is known about contexts.
pub enum StorageView {
    Serialized(ContextTable),
    Split(Seq<PrefixView>),
    PreSplit,
}

impl View for ContextStorage {
    type V = StorageView;

    open spec fn view(&self) -> StorageView {
        match self {
            ContextStorage::Serialized(table) => StorageView::Serialized(table@),
            ContextStorage::Split(list) => StorageView::Split(list@),
            ContextStorage::PreSplit => StorageView::PreSplit,
        }
    }
}

/// The readable contexts among the first `n` of a table.
pub open spec fn table_contexts(t: ContextTable, n: int) -> Seq<Seq<char>>
    decreases n,
{
    if n <= 0 {
        seq![]
    } else {
        let before = table_contexts(t, n - 1);
        match t.context_text(n - 1) {
            Some(s) => before.push(decode_utf8(s)),
            None => before,
        }
    }
}

/// The contexts of the first `n` entries, each once.
pub open spec fn entry_contexts(list: Seq<PrefixView>, n: int) -> Seq<Seq<char>>
    decreases n,
{
    if n <= 0 {
        seq![]
    } else {
        let before = entry_contexts(list, n - 1);
        if before.contains(list[n - 1].context) {
            before
        } else {
            before.push(list[n - 1].context)
        }
    }
}

impl StorageView {
    /// The context of the property `name`.
    pub open spec fn context_for(self, name: Seq<char>) -> Seq<char> {
        match self {
            StorageView::Serialized(t) => t.context_for(text_bytes(name)),
            StorageView::Split(list) => listed_context(list, name),
            StorageView::PreSplit => PRE_SPLIT_CONTEXT@,
        }
    }

    /// All contexts that are known.
    pub open spec fn contexts(self) -> Seq<Seq<char>> {
        match self {
            StorageView::Serialized(t) => table_contexts(t, t.context_count()),
            StorageView::Split(list) => entry_contexts(list, list.len() as int),
            StorageView::PreSplit => seq![PRE_SPLIT_CONTEXT@],
        }
    }
}

/// Where the area of a context is kept.
#[derive(Debug, Clone, PartialEq, Eq)]
pub enum AreaPath {
    /// What is called the properties directory is the area itself.
    PropsDir,
    /// A file of this name in the properties directory.
    InPropsDir(String),
}

impl AreaPath {
    /// Whether this is where the area of `context` is kept.
    pub open spec fn holds(&self, storage: StorageView, context: Seq<char>) -> bool {
        match *self {
            AreaPath::PropsDir => storage is PreSplit,
            AreaPath::InPropsDir(file) => !(storage is PreSplit) && file@ == context,
        }
    }
}

/// The contexts of a list of areas.
pub open spec fn area_contexts(files: Seq<(String, AreaPath)>) -> Seq<Seq<char>> {
    files.map_values(|f: (String, AreaPath)| f.0@)
}

/// What is known about contexts, ready for lookups.
pub struct PropertyContext {
    storage: ContextStorage,
}

impl View for PropertyContext {
    type V = StorageView;

    closed spec fn view(&self) -> StorageView {
        self.storage@
    }
}

impl PropertyContext {
    /// Look things up in `storage`.
    pub fn new(storage: ContextStorage) -> (r: PropertyContext)
        ensures
            r@ == storage@,
    {
        PropertyContext { storage }
    }

    /// What is looked things up in.
    pub fn storage(&self) -> (r: &ContextStorage)
        ensures
            r@ == self@,
    {
        &self.storage
    }

    /// The context of the property `prop_name`.
    pub fn get_context_for_name(&self, prop_name: &str) -> (r: &str)
        ensures
            r@ == self@.context_for(prop_name@),
    {
        match &self.storage {
            ContextStorage::Serialized(table) => table.get_context_for_name(prop_name),
            ContextStorage::Split(list) => list.get_context_for_name(prop_name),
            ContextStorage::PreSplit => PRE_SPLIT_CONTEXT,
        }
    }

    /// The context of the property `prop_name`, as a text of its own.
    pub fn get_property_for_name(&self, prop_name: &str) -> (r: String)
        ensures
            r@ == self@.context_for(prop_name@),
    {
        self.get_context_for_name(prop_name).to_owned()
    }

    /// The form in which contexts are kept.
    pub fn context_type(&self) -> (r: ContextType)
        ensures
            r == (match self@ {
                StorageView::Serialized(_) => ContextType::Serialized,
                StorageView::Split(_) => ContextType::Split,
                StorageView::PreSplit => ContextType::PreSplit,
            }),
    {
        match &self.storage {
            ContextStorage::Serialized(_) => ContextType::Serialized,
            ContextStorage::Split(_) => ContextType::Split,
            ContextStorage::PreSplit => ContextType::PreSplit,
        }
    }

    /// All contexts that are known.
    pub fn list_all_contexts(&self) -> (r: Vec<&str>)
        ensures
            texts_of(r@) == self@.contexts(),
    {
        match &self.storage {
            ContextStorage::Serialized(table) => table_context_list(table),
            ContextStorage::Split(list) => entry_context_list(list),
            ContextStorage::PreSplit => {
                let mut out: Vec<&str> = Vec::new();
                out.push(PRE_SPLIT_CONTEXT);
                proof {
                    assert(texts_of(out@) =~= seq![PRE_SPLIT_CONTEXT@]);
                }
                out
            },
        }
    }

    /// Where the area of `context` is kept.
    pub fn context_file_path(&self, context: &str) -> (r: AreaPath)
        ensures
            r.holds(self@, context@),
    {
        match &self.storage {
            ContextStorage::PreSplit => AreaPath::PropsDir,
            _ => AreaPath::InPropsDir(context.to_owned()),
        }
    }

    /// The areas of all known contexts, each once and in order of the
    /// contexts.
    pub fn prop_area_files(&self) -> (r: Vec<(String, AreaPath)>)
        ensures
            ascending(area_contexts(r@)),
            forall|x: Seq<char>| #[trigger]
                area_contexts(r@).contains(x) <==> self@.contexts().contains(x),
            forall|i: int| 0 <= i < r@.len() ==> (#[trigger] r@[i]).1.holds(self@, r@[i].0@),
    {
        let names = distinct_names(&self.list_all_contexts());
        let mut out: Vec<(String, AreaPath)> = Vec::new();
        let mut i: usize = 0;
        while i < names.len()
            invariant
                i <= names@.len(),
                out@.len() == i,
                forall|j: int| 0 <= j < i ==> (#[trigger] out@[j]).0@ == names@[j]@,
                forall|j: int|
                    0 <= j < i ==> (#[trigger] out@[j]).1.holds(self@, out@[j].0@),
            decreases names@.len() - i,
        {
            let path = self.context_file_path(names[i].as_str());
            out.push((names[i].clone(), path));
            i = i + 1;
        }
        proof {
            assert(area_contexts(out@) =~= names_of(names@));
        }
        out
    }
}

/// The readable contexts of a table.
fn table_context_list(table: &SerializedContext) -> (r: Vec<&str>)
    ensures
        texts_of(r@) == table_contexts(table@, table@.context_count()),
{
    let n = table.num_contexts();
    let mut out: Vec<&str> = Vec::new();
    let mut i: usize = 0;
    proof {
        assert(texts_of(out@) =~= table_contexts(table@, 0));
    }
    while i < n
        invariant
            i <= n,
            texts_of(out@) == table_contexts(table@, i as int),
        decreases n - i,
    {
        if let Some(s) = table.context(i) {
            proof {
                lemma_bytes_round_trip(s@);
                assert(texts_of(out@.push(s)) =~= texts_of(out@).push(s@));
            }
            out.push(s);
        }
        i = i + 1;
    }
    out
}

/// Whether `list` holds the text `s`.
fn holds_text(list: &Vec<&str>, s: &str) -> (r: bool)
    ensures
        r == texts_of(list@).contains(s@),
{
    let mut i: usize = 0;
    while i < list.len()
        invariant
            i <= list@.len(),
            forall|j: int| 0 <= j < i ==> #[trigger] texts_of(list@)[j] != s@,
        decreases list@.len() - i,
    {
        if same_text(list[i], s) {
            proof {
                assert(texts_of(list@)[i as int] == s@);
            }
            return true;
        }
        i = i + 1;
    }
    false
}

/// The contexts of a list of prefixes, each once.
fn entry_context_list(list: &SplitContext) -> (r: Vec<&str>)
    ensures
        texts_of(r@) == entry_contexts(list@, list@.len() as int),
{
    let entries = list.entries();
    let mut out: Vec<&str> = Vec::new();
    let mut i: usize = 0;
    proof {
        assert(texts_of(out@) =~= entry_contexts(list@, 0));
    }
    while i < entries.len()
        invariant
            i <= entries@.len(),
            entries@.map_values(|e: PrefixEntry| e@) == list@,
            texts_of(out@) == entry_contexts(list@, i as int),
        decreases entries@.len() - i,
    {
        let s = entries[i].context.as_str();
        proof {
            assert(list@[i as int].context == s@);
            assert(texts_of(out@.push(s)) =~= texts_of(out@).push(s@));
        }
        if !holds_text(&out, s) {
            out.push(s);
        }
        i = i + 1;
    }
    out
}

/// Which files are read. The single file excludes all others. Else the platform's
/// file below `system` goes before the one at the root, each with the vendor's
/// file of the same place, or the older one where that is missing. Without any of
/// the first files nothing can be read.
pub proof fn law_load_plan(files: ContextFiles)
    ensures
        files.plan() is None <==> !files.legacy && !files.plat && !files.root_plat,
        files.plan() matches Some(p) ==> {
            &&& p.required == ContextFile::Legacy <==> files.legacy
            &&& p.required == ContextFile::Plat <==> !files.legacy && files.plat
            &&& p.required == ContextFile::RootPlat <==> !files.legacy && !files.plat
            &&& p.optional is None <==> files.legacy
            &&& p.required == ContextFile::Plat ==> p.optional == Some(
                if files.vendor {
                    ContextFile::Vendor
                } else {
                    ContextFile::Nonplat
                },
            )
            &&& p.required == ContextFile::RootPlat ==> p.optional == Some(
                if files.root_vendor {
                    ContextFile::RootVendor
                } else {
                    ContextFile::RootNonplat
                },
            )
        },
{
}

proof fn lemma_table_contexts(t: ContextTable, n: int, x: Seq<char>)
    ensures
        table_contexts(t, n).contains(x) <==> exists|i: int|
            0 <= i < n && (#[trigger] t.context_text(i)) is Some && decode_utf8(
                t.context_text(i)->0,
            ) == x,
    decreases n,
{
    if n > 0 {
        lemma_table_contexts(t, n - 1, x);
        let before = table_contexts(t, n - 1);
        let all = table_contexts(t, n);
        if let Some(s) = t.context_text(n - 1) {
            assert(all == before.push(decode_utf8(s)));
            assert(all[before.len() as int] == decode_utf8(s));
            if before.contains(x) {
                let k = choose|k: int| 0 <= k < before.len() && before[k] == x;
                assert(all[k] == x);
            }
        }
    }
}

proof fn lemma_entry_contexts(list: Seq<PrefixView>, n: int, x: Seq<char>)
    requires
        n <= list.len(),
    ensures
        entry_contexts(list, n).contains(x) <==> exists|i: int|
            0 <= i < n && (#[trigger] list[i]).context == x,
        entry_contexts(list, n).no_duplicates(),
    decreases n,
{
    if n > 0 {
        lemma_entry_contexts(list, n - 1, x);
        let before = entry_contexts(list, n - 1);
        let all = entry_contexts(list, n);
        let c = list[n - 1].context;
        if !before.contains(c) {
            assert(all == before.push(c));
            assert(all[before.len() as int] == c);
            if before.contains(x) {
                let k = choose|k: int| 0 <= k < before.len() && before[k] == x;
                assert(all[k] == x);
            }
        }
    }
}

/// The contexts that are known are exactly those of the table that can be read,
/// or those of the entries, each of these once; or the one of the single area.
pub proof fn law_known_contexts(storage: StorageView, x: Seq<char>)
    ensures
        match storage {
            StorageView::Serialized(t) => storage.contexts().contains(x) <==> exists|i: int|
                0 <= i < t.context_count() && (#[trigger] t.context_text(i)) is Some && decode_utf8(
                    t.context_text(i)->0,
                ) == x,
            StorageView::Split(list) => storage.contexts().no_duplicates() && (
            storage.contexts().contains(x) <==> exists|i: int|
                0 <= i < list.len() && (#[trigger] list[i]).context == x),
            StorageView::PreSplit => storage.contexts() == seq![
                "u:object_r:properties_device:s0"@,
            ],
        },
{
    match storage {
        StorageView::Serialized(t) => {
            lemma_table_contexts(t, t.context_count(), x);
        },
        StorageView::Split(list) => {
            lemma_entry_contexts(list, list.len() as int, x);
        },
        StorageView::PreSplit => {},
    }
}

/// The context of a property is one that is known, or the default context.
pub proof fn law_context_is_known(storage: StorageView, name: Seq<char>)
    ensures
        match storage {
            StorageView::Serialized(t) => match t.context_index(text_bytes(name)) {
                Some(i) => match t.context_text(i) {
                    Some(s) => storage.context_for(name) == decode_utf8(s),
                    None => storage.context_for(name) == "u:object_r:default_prop:s0"@,
                },
                None => storage.context_for(name) == "u:object_r:default_prop:s0"@,
            },
            StorageView::Split(list) => storage.context_for(name) == "u:object_r:default_prop:s0"@
                || storage.contexts().contains(storage.context_for(name)),
            StorageView::PreSplit => storage.context_for(name)
                == "u:object_r:properties_device:s0"@,
        },
{
    if let StorageView::Split(list) = storage {
        let i = first_fit(list, name, 0);
        lemma_first_fit(list, name, 0);
        lemma_entry_contexts(list, list.len() as int, storage.context_for(name));
        if i < list.len() {
            assert(list[i].context == storage.context_for(name));
        }
    }
}

} // verus!
