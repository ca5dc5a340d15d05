use prop_rs::context_list::SplitContext;
use prop_rs::context_table::{compare_piece, SerializedContext, TableError};
use prop_rs::bytes::KeyOrder;
use prop_rs::property_context::{
    AreaPath, ContextFile, ContextFiles, ContextStorage, LoadPlan, PRE_SPLIT_CONTEXT,
};
use prop_rs::{ContextType, PropertyContext};

const DEFAULT: &str = "u:object_r:default_prop:s0";

/// A table under construction.
struct Builder {
    data: Vec<u8>,
    big_endian: bool,
}

impl Builder {
    fn new(big_endian: bool) -> Builder {
        Builder { data: vec![0; 24], big_endian }
    }

    fn bytes(&self, v: u32) -> [u8; 4] {
        if self.big_endian {
            v.to_be_bytes()
        } else {
            v.to_le_bytes()
        }
    }

    fn put(&mut self, at: usize, v: u32) {
        let b = self.bytes(v);
        self.data[at..at + 4].copy_from_slice(&b);
    }

    fn word(&mut self, v: u32) -> u32 {
        let at = self.data.len() as u32;
        let b = self.bytes(v);
        self.data.extend_from_slice(&b);
        at
    }

    fn words(&mut self, list: &[u32]) -> u32 {
        let at = self.data.len() as u32;
        for v in list {
            self.word(*v);
        }
        at
    }

    fn text(&mut self, s: &str) -> u32 {
        let at = self.data.len() as u32;
        self.data.extend_from_slice(s.as_bytes());
        self.data.push(0);
        at
    }

    fn list(&mut self, texts: &[&str]) -> u32 {
        let places: Vec<u32> = texts.iter().map(|s| self.text(s)).collect();
        let at = self.word(places.len() as u32);
        self.words(&places);
        at
    }

    fn entry(&mut self, name: &str, context: u32) -> u32 {
        let at = self.text(name);
        self.words(&[at, name.len() as u32, context, !0])
    }

    fn node(&mut self, name: &str, context: u32, children: &[u32], prefixes: &[u32], exact: &[u32]) -> u32 {
        let own = self.entry(name, context);
        let c = self.words(children);
        let p = self.words(prefixes);
        let e = self.words(exact);
        self.words(&[
            own,
            children.len() as u32,
            c,
            prefixes.len() as u32,
            p,
            exact.len() as u32,
            e,
        ])
    }

    fn finish(mut self, contexts: u32, types: u32, root: u32) -> Vec<u8> {
        let n = self.data.len() as u32;
        self.put(0, 1);
        self.put(4, 1);
        self.put(8, n);
        self.put(12, contexts);
        self.put(16, types);
        self.put(20, root);
        self.data
    }
}

fn sample(big_endian: bool) -> Vec<u8> {
    let mut b = Builder::new(big_endian);
    let contexts = b.list(&["u:root", "u:ro", "u:build", "u:exact", "u:prefix"]);
    let types = b.list(&["string", "bool"]);
    let exact = b.entry("fingerprint", 3);
    let inherited = b.entry("host", !0);
    let build = b.node("build", 2, &[], &[], &[exact, inherited]);
    let long_prefix = b.entry("hardware.rev", 4);
    let short_prefix = b.entry("hard", 2);
    let ro = b.node("ro", 1, &[build], &[long_prefix, short_prefix], &[]);
    let persist = b.node("persist", !0, &[], &[], &[]);
    let root = b.node("", 0, &[persist, ro], &[], &[]);
    b.finish(contexts, types, root)
}

#[test]
fn serialized_lookup_follows_the_trie() {
    for big_endian in [false, true] {
        let table = SerializedContext::parse(sample(big_endian), big_endian).unwrap();
        assert_eq!(table.get_context_for_name("other"), "u:root");
        assert_eq!(table.get_context_for_name("persist.sys.locale"), "u:root");
        assert_eq!(table.get_context_for_name("ro.product"), "u:ro");
        assert_eq!(table.get_context_for_name("ro.build.id"), "u:build");
        assert_eq!(table.get_context_for_name("ro.build.fingerprint"), "u:exact");
        assert_eq!(table.get_context_for_name("ro.build.host"), "u:build");
        assert_eq!(table.get_context_for_name("ro.hardware"), "u:build");
        assert_eq!(table.get_context_for_name("ro.hardware.revision"), "u:prefix");
        assert_eq!(table.get_context_index("ro.hardware.revision"), Some(4));
    }
}

#[test]
fn serialized_header_and_lists() {
    let table = SerializedContext::parse(sample(false), false).unwrap();
    assert_eq!(table.current_version(), 1);
    assert_eq!(table.size(), sample(false).len());
    assert_eq!(table.num_contexts(), 5);
    assert_eq!(table.context(2), Some("u:build"));
    assert_eq!(table.context(5000), None);
    assert_eq!(table.num_types(), 2);
    assert_eq!(table.type_str(1), Some("bool"));
    assert_eq!(table.type_str(usize::MAX), None);
}

#[test]
fn native_byte_order_is_used_for_files() {
    let native = SerializedContext::load(sample(is_big_endian())).unwrap();
    assert_eq!(native.get_context_for_name("ro.build.fingerprint"), "u:exact");
}

fn is_big_endian() -> bool {
    u16::from_ne_bytes([0, 1]) == 1
}

#[test]
fn tables_that_cannot_be_loaded() {
    assert_eq!(
        SerializedContext::parse(vec![0; 23], false).err(),
        Some(TableError::TooSmall)
    );
    let mut newer = sample(false);
    newer[4] = 3;
    assert_eq!(
        SerializedContext::parse(newer, false).err(),
        Some(TableError::UnsupportedVersion(3))
    );
    let mut newest = sample(false);
    newest[4] = 2;
    assert!(SerializedContext::parse(newest, false).is_ok());
}

#[test]
fn tables_that_lead_nowhere_give_the_default() {
    let table = SerializedContext::parse(vec![0; 24], false).unwrap();
    assert_eq!(table.get_context_for_name("ro.a"), DEFAULT);
    assert_eq!(table.num_contexts(), 0);
    let mut b = Builder::new(false);
    let root = b.node("", 7, &[], &[], &[]);
    let table = SerializedContext::parse(b.finish(0xffff_ff00, 0, root), false).unwrap();
    assert_eq!(table.get_context_index("ro.a"), Some(7));
    assert_eq!(table.get_context_for_name("ro.a"), DEFAULT);
}

#[test]
fn pieces_compare_by_their_length_first() {
    assert_eq!(compare_piece(b"ro", b"ro"), KeyOrder::Equal);
    assert_eq!(compare_piece(b"rom", b"ro"), KeyOrder::Greater);
    assert_eq!(compare_piece(b"r", b"ro"), KeyOrder::Less);
    assert_eq!(compare_piece(b"sa", b"ro"), KeyOrder::Greater);
    assert_eq!(compare_piece(b"aa", b"ro"), KeyOrder::Less);
}

fn split(content: &str) -> SplitContext {
    let mut list = SplitContext::new();
    list.load_file(content);
    list
}

#[test]
fn split_lookup_takes_the_longest_prefix() {
    let list = split(
        "# contexts\n* u:any\nro. u:ro\r\n  ro.build.\tu:build # inline\nctl.start u:ctl\nbroken\n\nro.b u:b",
    );
    let order: Vec<&str> = list.entries().iter().map(|e| e.prefix.as_str()).collect();
    assert_eq!(order, vec!["ro.build.", "ro.b", "ro.", "*"]);
    assert_eq!(list.get_context_for_name("ro.build.id"), "u:build");
    assert_eq!(list.get_context_for_name("ro.boot"), "u:b");
    assert_eq!(list.get_context_for_name("ro.x"), "u:ro");
    assert_eq!(list.get_context_for_name("ctl.start"), "u:any");
}

#[test]
fn split_lookup_without_a_match_gives_the_default() {
    let list = split("persist. u:persist");
    assert_eq!(list.get_context_for_name("ro.a"), DEFAULT);
    assert_eq!(split("").get_context_for_name("ro.a"), DEFAULT);
}

#[test]
fn equal_prefixes_keep_their_order() {
    let mut list = split("aa u:first\nbb u:second");
    list.load_file("aa u:third");
    let order: Vec<&str> = list.entries().iter().map(|e| e.context.as_str()).collect();
    assert_eq!(order, vec!["u:first", "u:second", "u:third"]);
    assert_eq!(list.get_context_for_name("aa.b"), "u:first");
}

#[test]
fn white_space_of_any_script_separates_words() {
    let list = split("ro.\u{3000}u:wide\u{a0}rest");
    assert_eq!(list.get_context_for_name("ro.a"), "u:wide");
}

#[test]
fn storage_is_detected() {
    assert_eq!(ContextType::detect(true, true), ContextType::Serialized);
    assert_eq!(ContextType::detect(true, false), ContextType::Split);
    assert_eq!(ContextType::detect(false, true), ContextType::PreSplit);
    assert_eq!(ContextType::PreSplit.name(), "PreSplit");
    assert_eq!(ContextType::Split.name(), "Split");
    assert_eq!(ContextType::Serialized.name(), "Serialized");
}

#[test]
fn context_files_are_chosen() {
    let none = ContextFiles { legacy: false, plat: false, vendor: false, root_plat: false, root_vendor: false };
    assert_eq!(none.load_plan(), None);
    let legacy = ContextFiles { legacy: true, plat: true, ..none };
    assert_eq!(
        legacy.load_plan(),
        Some(LoadPlan { required: ContextFile::Legacy, optional: None })
    );
    let plat = ContextFiles { plat: true, root_plat: true, ..none };
    assert_eq!(
        plat.load_plan(),
        Some(LoadPlan { required: ContextFile::Plat, optional: Some(ContextFile::Nonplat) })
    );
    let root = ContextFiles { root_plat: true, root_vendor: true, vendor: true, ..none };
    assert_eq!(
        root.load_plan(),
        Some(LoadPlan { required: ContextFile::RootPlat, optional: Some(ContextFile::RootVendor) })
    );
    assert_eq!(ContextFile::Plat.path(), "system/etc/selinux/plat_property_contexts");
}

#[test]
fn contexts_and_areas_of_each_storage() {
    let table = PropertyContext::new(ContextStorage::Serialized(
        SerializedContext::parse(sample(false), false).unwrap(),
    ));
    assert_eq!(table.context_type(), ContextType::Serialized);
    assert_eq!(
        table.list_all_contexts(),
        vec!["u:root", "u:ro", "u:build", "u:exact", "u:prefix"]
    );
    let files: Vec<String> = table.prop_area_files().into_iter().map(|f| f.0).collect();
    assert_eq!(files, vec!["u:build", "u:exact", "u:prefix", "u:ro", "u:root"]);
    assert_eq!(
        table.context_file_path("u:ro"),
        AreaPath::InPropsDir("u:ro".to_owned())
    );

    let list = PropertyContext::new(ContextStorage::Split(split("ro. u:b\nsys. u:a\nx u:b")));
    assert_eq!(list.context_type(), ContextType::Split);
    assert_eq!(list.list_all_contexts(), vec!["u:a", "u:b"]);
    assert_eq!(list.get_property_for_name("sys.x"), "u:a");
    assert_eq!(list.prop_area_files().len(), 2);

    let single = PropertyContext::new(ContextStorage::PreSplit);
    assert_eq!(single.context_type(), ContextType::PreSplit);
    assert_eq!(single.get_context_for_name("any"), PRE_SPLIT_CONTEXT);
    assert_eq!(
        single.prop_area_files(),
        vec![(PRE_SPLIT_CONTEXT.to_owned(), AreaPath::PropsDir)]
    );
    assert_eq!(single.context_file_path("u:x"), AreaPath::PropsDir);
}
