use prop_rs::prop_info::align_up;
use prop_rs::{CompactResult, PropArea, PropAreaError, PropAreaObjectKind, PropertyInfo};

fn new_area(size: usize) -> PropArea {
    PropArea::create(vec![0; size], size as u64).unwrap()
}

fn word(image: &[u8], at: usize) -> u32 {
    u32::from_le_bytes([image[at], image[at + 1], image[at + 2], image[at + 3]])
}

fn listing(area: &PropArea) -> Vec<(String, String)> {
    let mut found: Vec<PropertyInfo> = Vec::new();
    area.for_each_property(&mut found).unwrap();
    let mut props: Vec<(String, String)> = found.into_iter().map(|p| (p.name, p.value)).collect();
    props.sort();
    props
}

#[test]
fn add_get_update_and_delete_short_property() {
    let mut area = new_area(4096);

    assert_eq!(area.get_property("ro.secure").unwrap(), None);

    area.set_property("ro.secure", "1").unwrap();
    assert_eq!(area.get_property("ro.secure").unwrap(), Some("1".to_owned()));

    area.set_property("ro.secure", "0").unwrap();
    let info = area.get_property_info("ro.secure").unwrap().unwrap();
    assert_eq!(info.name, "ro.secure");
    assert_eq!(info.value, "0");
    assert!(!info.is_long);

    assert!(area.delete_property("ro.secure").unwrap());
    assert_eq!(area.get_property("ro.secure").unwrap(), None);
}

#[test]
fn long_property_round_trip_and_update() {
    let mut area = new_area(8192);
    let long_value = "x".repeat(140);

    area.set_property("persist.sys.long", &long_value).unwrap();

    let info = area.get_property_info("persist.sys.long").unwrap().unwrap();
    assert_eq!(info.value, long_value);
    assert!(info.is_long);

    area.set_property("persist.sys.long", "short").unwrap();
    let updated = area.get_property_info("persist.sys.long").unwrap().unwrap();
    assert_eq!(updated.value, "short");
    assert!(updated.is_long);
}

#[test]
fn foreach_reports_all_properties() {
    let mut area = new_area(8192);
    area.set_property("ro.secure", "1").unwrap();
    area.set_property("persist.sys.locale", "en-US").unwrap();
    area.set_property("persist.sys.timezone", "UTC").unwrap();

    let mut found: Vec<PropertyInfo> = Vec::new();
    area.for_each_property(&mut found).unwrap();
    let mut props: Vec<(String, String)> = found.into_iter().map(|info| (info.name, info.value)).collect();

    props.sort();
    assert_eq!(
        props,
        vec![
            ("persist.sys.locale".to_owned(), "en-US".to_owned()),
            ("persist.sys.timezone".to_owned(), "UTC".to_owned()),
            ("ro.secure".to_owned(), "1".to_owned()),
        ]
    );
}

#[test]
fn delete_prunes_only_removed_branch() {
    let mut area = new_area(8192);
    area.set_property("persist.sys.locale", "en-US").unwrap();
    area.set_property("persist.sys.timezone", "UTC").unwrap();

    assert!(area.delete_property("persist.sys.locale").unwrap());
    assert_eq!(area.get_property("persist.sys.locale").unwrap(), None);
    assert_eq!(
        area.get_property("persist.sys.timezone").unwrap(),
        Some("UTC".to_owned())
    );
}

#[test]
fn fresh_area_is_empty_and_has_its_header() {
    let area = new_area(4096);
    assert_eq!(area.area_size(), 4096);
    assert_eq!(area.data_size(), 4096 - 128);
    assert_eq!(listing(&area), vec![]);
    let image = area.into_inner();
    assert_eq!(word(&image, 0), 112);
    assert_eq!(word(&image, 8), 0x504f_5250);
    assert_eq!(word(&image, 12), 0xfc6e_d0ab);
}

#[test]
fn a_written_area_is_opened_again() {
    let mut area = new_area(4096);
    area.set_property("ro.a", "1").unwrap();
    let again = PropArea::new(area.into_inner()).unwrap();
    assert_eq!(again.get_property("ro.a").unwrap(), Some("1".to_owned()));
}

#[test]
fn serials_count_updates_and_note_lengths() {
    let mut area = new_area(4096);
    area.set_property("a", "one").unwrap();
    let at = 128 + area.get_property_info("a").unwrap().unwrap().prop_offset as usize;
    let image = area.into_inner();
    assert_eq!(word(&image, at), 3 << 24);

    let mut area = PropArea::new(image).unwrap();
    area.set_property("a", "longer").unwrap();
    let image = area.into_inner();
    assert_eq!(word(&image, at), (6 << 24) | 2);

    let mut area = PropArea::new(image).unwrap();
    let write = area.set_property_no_serial("a", "x").unwrap();
    assert!(!write.created);
    assert_eq!(write.serial, (6 << 24) | 2);
    assert_eq!(write.serial_len, 1);
    let image = area.into_inner();
    assert_eq!(word(&image, at), (6 << 24) | 2);
}

#[test]
fn new_long_property_has_the_message_and_the_flag() {
    let mut area = new_area(4096);
    let value = "v".repeat(92);
    area.set_property("a", &value).unwrap();
    let info = area.get_property_info("a").unwrap().unwrap();
    let at = 128 + info.prop_offset as usize;
    let image = area.into_inner();
    assert_eq!(word(&image, at), (50 << 24) | (1 << 16));
    assert_eq!(
        &image[at + 4..at + 55],
        b"Must use __system_property_read_callback() to read\0"
    );
    assert_eq!(word(&image, at + 60), info.value_offset - info.prop_offset);
}

#[test]
fn value_of_91_bytes_stays_inline_and_of_92_does_not() {
    let mut area = new_area(4096);
    area.set_property("in", &"v".repeat(91)).unwrap();
    area.set_property("out", &"v".repeat(92)).unwrap();
    assert!(!area.get_property_info("in").unwrap().unwrap().is_long);
    assert!(area.get_property_info("out").unwrap().unwrap().is_long);
}

#[test]
fn inline_property_becomes_long_and_others_stay() {
    let mut area = new_area(8192);
    area.set_property("a.b", "1").unwrap();
    area.set_property("a.c", "2").unwrap();
    let long_value = "z".repeat(300);
    area.set_property("a.b", &long_value).unwrap();
    let info = area.get_property_info("a.b").unwrap().unwrap();
    assert!(info.is_long);
    assert_eq!(info.value, long_value);
    assert_eq!(area.get_property("a.c").unwrap(), Some("2".to_owned()));
}

#[test]
fn longer_long_value_gets_a_new_record() {
    let mut area = new_area(8192);
    area.set_property("a", &"1".repeat(100)).unwrap();
    area.set_property("a", &"2".repeat(200)).unwrap();
    assert_eq!(area.get_property("a").unwrap(), Some("2".repeat(200)));
}

#[test]
fn set_then_delete_leaves_other_lookups_alone() {
    let mut area = new_area(8192);
    area.set_property("x.y", "kept").unwrap();
    area.set_property("x.z", "gone").unwrap();
    assert!(area.delete_property_no_prune("x.z").unwrap());
    assert!(!area.delete_property("x.z").unwrap());
    assert_eq!(listing(&area), vec![("x.y".to_owned(), "kept".to_owned())]);
}

#[test]
fn invalid_keys_are_refused() {
    let mut area = new_area(4096);
    assert!(matches!(area.set_property("", "1"), Err(PropAreaError::InvalidKey(k)) if k == ""));
    assert!(matches!(area.get_property("a..b"), Err(PropAreaError::InvalidKey(k)) if k == "a..b"));
    assert!(matches!(area.delete_property(".a"), Err(PropAreaError::InvalidKey(_))));
}

#[test]
fn full_area_says_how_much_is_missing() {
    let mut area = new_area(128 + 112 + 24 + 100);
    area.set_property("a", "1").unwrap();
    assert!(matches!(
        area.set_property("b", "2"),
        Err(PropAreaError::AreaFull { requested: 24, available: 0 })
    ));
    assert_eq!(area.get_property("a").unwrap(), Some("1".to_owned()));
}

#[test]
fn broken_headers_are_told_apart() {
    assert!(matches!(PropArea::new(vec![0; 100]), Err(PropAreaError::AreaTooSmall(100))));
    assert!(matches!(PropArea::create(vec![], 64), Err(PropAreaError::AreaTooSmall(64))));
    assert!(matches!(PropArea::new(vec![0; 4096]), Err(PropAreaError::InvalidMagic(0))));
    let good = new_area(4096).into_inner();
    let mut image = good.clone();
    image[12] = 0;
    assert!(matches!(PropArea::new(image), Err(PropAreaError::InvalidVersion(_))));
    let mut image = good.clone();
    image[0] = 19;
    assert!(matches!(PropArea::new(image), Err(PropAreaError::InvalidBytesUsed(19))));
}

#[test]
fn broken_contents_are_told_apart() {
    let mut area = new_area(4096);
    area.set_property("a", "1").unwrap();
    let info = area.get_property_info("a").unwrap().unwrap();
    let good = area.into_inner();

    let mut image = good.clone();
    image[128 + info.value_offset as usize] = 0xff;
    let broken = PropArea::new(image).unwrap();
    assert!(matches!(broken.get_property("a"), Err(PropAreaError::Utf8(b)) if b == vec![0xff]));

    let mut image = good.clone();
    for i in 0..92 {
        image[128 + info.value_offset as usize + i] = b'x';
    }
    let broken = PropArea::new(image).unwrap();
    assert!(matches!(
        broken.get_property("a"),
        Err(PropAreaError::Corrupted("inline property value is not null terminated"))
    ));

    // The children of the root lie outside the area.
    let mut image = good.clone();
    image[128 + 16 + 2] = 0xff;
    let broken = PropArea::new(image).unwrap();
    assert!(matches!(broken.get_property("a"), Err(PropAreaError::InvalidOffset(_))));

    // The first node is its own right sibling.
    let mut image = good.clone();
    image[128 + 112 + 12] = 112;
    let broken = PropArea::new(image).unwrap();
    assert!(matches!(
        broken.get_property("b"),
        Err(PropAreaError::Corrupted("possible cycle in sibling tree"))
    ));
}

#[test]
fn scan_lists_objects_and_holes() {
    let mut area = new_area(8192);
    area.set_property("a", "1").unwrap();
    area.set_property("b", "1").unwrap();
    let scan = area.scan_allocations().unwrap();
    assert!(scan.has_dirty_backup);
    assert_eq!(scan.bytes_used, 360);
    let kinds: Vec<(PropAreaObjectKind, u32, u32)> =
        scan.objects.iter().map(|o| (o.kind, o.offset, o.aligned_size)).collect();
    assert_eq!(
        kinds,
        vec![
            (PropAreaObjectKind::TrieNode, 0, 20),
            (PropAreaObjectKind::DirtyBackup, 20, 92),
            (PropAreaObjectKind::TrieNode, 112, 24),
            (PropAreaObjectKind::PropInfo, 136, 100),
            (PropAreaObjectKind::TrieNode, 236, 24),
            (PropAreaObjectKind::PropInfo, 260, 100),
        ]
    );
    assert!(scan.holes.is_empty());

    area.delete_property("a").unwrap();
    let scan = area.scan_allocations().unwrap();
    assert_eq!(scan.holes.len(), 1);
    assert_eq!(scan.holes[0].start_offset, 136);
    assert_eq!(scan.holes[0].end_offset, 236);
    assert_eq!(scan.holes[0].size, 100);
}

#[test]
fn compaction_closes_holes_and_keeps_properties() {
    let mut area = new_area(8192);
    assert!(matches!(area.compact_allocations().unwrap(), CompactResult::NoHoles));
    area.set_property("a", "1").unwrap();
    area.set_property("b", "2").unwrap();
    area.delete_property("a").unwrap();
    assert!(matches!(
        area.compact_allocations().unwrap(),
        CompactResult::MovedObjects { old: 360, new: 260, objects_moved: 2 }
    ));
    assert_eq!(area.get_property("b").unwrap(), Some("2".to_owned()));
    assert!(area.scan_allocations().unwrap().holes.is_empty());
    assert!(matches!(area.compact_allocations().unwrap(), CompactResult::NoHoles));
}

#[test]
fn compaction_lowers_the_fill_mark_when_the_end_is_free() {
    let mut area = new_area(8192);
    area.set_property("a", "1").unwrap();
    area.set_property("b", "2").unwrap();
    area.delete_property("b").unwrap();
    assert!(matches!(
        area.compact_allocations().unwrap(),
        CompactResult::AdjustedBytesUsed { old: 360, new: 236 }
    ));
    assert_eq!(area.get_property("a").unwrap(), Some("1".to_owned()));
}

#[test]
fn compaction_moves_long_values_with_their_records() {
    let mut area = new_area(16384);
    area.set_property("first", &"1".repeat(120)).unwrap();
    area.set_property("second", &"2".repeat(150)).unwrap();
    area.set_property("third.part", &"3".repeat(200)).unwrap();
    area.delete_property("first").unwrap();
    area.compact_allocations().unwrap();
    assert_eq!(
        listing(&area),
        vec![
            ("second".to_owned(), "2".repeat(150)),
            ("third.part".to_owned(), "3".repeat(200)),
        ]
    );
    let image = area.into_inner();
    let again = PropArea::new(image).unwrap();
    assert_eq!(again.get_property("third.part").unwrap(), Some("3".repeat(200)));
}

#[test]
fn many_properties_are_all_found_and_listed() {
    let mut area = new_area(128 * 1024);
    let mut expected: Vec<(String, String)> = Vec::new();
    for i in 0..200 {
        let key = format!("ro.group{}.entry.n{}", i % 7, i);
        let value = format!("value-{}", i * i);
        area.set_property(&key, &value).unwrap();
        expected.push((key, value));
    }
    expected.sort();
    assert_eq!(listing(&area), expected);
    for (key, value) in &expected {
        assert_eq!(area.get_property(key).unwrap().as_ref(), Some(value));
    }
}

#[test]
fn align_up_rounds_to_powers_of_two() {
    assert_eq!(align_up(0, 4), 0);
    assert_eq!(align_up(97, 4), 100);
    assert_eq!(align_up(5, 0), 5);
}

fn fragmented() -> PropArea {
    let mut area = PropArea::create(Vec::new(), 8192).unwrap();
    for (key, value) in [
        ("ro.a", "1".to_owned()),
        ("ro.b", "x".repeat(100)),
        ("persist.sys.c", "3".to_owned()),
        ("ro.d", "4".to_owned()),
    ] {
        area.set_property(key, &value).unwrap();
    }
    area.delete_property("ro.b").unwrap();
    area
}

#[test]
fn bytes_in_use_belong_to_an_object_or_to_a_hole() {
    let scan = fragmented().scan_allocations().unwrap();
    assert!(!scan.holes.is_empty());
    for byte in 0..scan.bytes_used {
        let objects = scan
            .objects
            .iter()
            .filter(|o| o.offset <= byte && byte < o.aligned_end_offset)
            .count();
        let holes = scan
            .holes
            .iter()
            .filter(|h| h.start_offset <= byte && byte < h.end_offset)
            .count();
        assert_eq!(objects + holes, 1, "byte {byte}");
    }
}

#[test]
fn packing_leaves_no_holes() {
    let mut area = fragmented();
    let before = area.scan_allocations().unwrap();
    assert!(matches!(
        area.compact_allocations().unwrap(),
        CompactResult::MovedObjects { .. }
    ));
    let after = area.scan_allocations().unwrap();
    assert!(after.holes.is_empty());
    let reclaimed: u32 = before.holes.iter().map(|h| h.size).sum();
    assert_eq!(after.bytes_used + reclaimed, before.bytes_used);
    assert_eq!(area.compact_allocations().unwrap(), CompactResult::NoHoles);
    assert_eq!(area.get_property("persist.sys.c").unwrap(), Some("3".to_owned()));
    assert_eq!(area.get_property("ro.d").unwrap(), Some("4".to_owned()));
}

#[test]
fn values_that_fit_stay_in_place() {
    let mut area = PropArea::create(Vec::new(), 8192).unwrap();
    area.set_property("a", "short").unwrap();
    area.set_property("l", &"x".repeat(120)).unwrap();
    let used = area.scan_allocations().unwrap().bytes_used;
    let short = area.get_property_info("a").unwrap().unwrap();
    let long = area.get_property_info("l").unwrap().unwrap();
    area.set_property("a", &"y".repeat(91)).unwrap();
    area.set_property("l", "now short").unwrap();
    assert_eq!(area.scan_allocations().unwrap().bytes_used, used);
    let short_now = area.get_property_info("a").unwrap().unwrap();
    let long_now = area.get_property_info("l").unwrap().unwrap();
    assert_eq!(short_now.prop_offset, short.prop_offset);
    assert_eq!(short_now.value, "y".repeat(91));
    assert_eq!(long_now.value_offset, long.value_offset);
    assert_eq!(long_now.value, "now short");
    assert!(long_now.is_long);
}

#[test]
fn there_is_room_for_what_is_counted() {
    // The header, the root with the dirty-backup area, a node and a record.
    let exact = 128 + 112 + 24 + 100;
    let mut area = PropArea::create(Vec::new(), exact).unwrap();
    assert!(area.set_property("a", "1").is_ok());
    let mut area = PropArea::create(Vec::new(), exact - 4).unwrap();
    assert!(matches!(
        area.set_property("a", "1"),
        Err(PropAreaError::AreaFull { requested: 100, available: 96 })
    ));
}

fn listed_names(area: &PropArea) -> Vec<String> {
    let mut found: Vec<PropertyInfo> = Vec::new();
    area.for_each_property(&mut found).unwrap();
    found.into_iter().map(|p| p.name).collect()
}

#[test]
fn listings_are_in_order_of_names_whatever_came_first() {
    // Shorter segments come first, then lesser ones, and a name before those
    // that continue it.
    let expected = vec!["b", "ab.c", "ab.ca", "ro", "ro.a", "ro.a.b", "ro.b", "ro.aa", "abc"];
    let mut keys = expected.clone();
    for _ in 0..keys.len() {
        keys.rotate_left(4);
        let mut area = new_area(8192);
        for key in &keys {
            area.set_property(key, "1").unwrap();
        }
        assert_eq!(listed_names(&area), expected);
        area.delete_property("ro.a").unwrap();
        let left: Vec<&str> = expected.iter().copied().filter(|k| *k != "ro.a").collect();
        assert_eq!(listed_names(&area), left);
        area.compact_allocations().unwrap();
        assert_eq!(listed_names(&area), left);
    }
}

#[test]
fn packing_reports_what_a_scan_finds() {
    let mut area = fragmented();
    area.set_property("ro.e", "5").unwrap();
    area.delete_property("ro.a").unwrap();
    let before = area.scan_allocations().unwrap();
    assert!(before.holes.len() > 1);
    let first = before.holes[0].end_offset;
    let behind = before.objects.iter().filter(|o| o.offset >= first).count();
    let holes: u32 = before.holes.iter().map(|h| h.size).sum();
    let report = area.compact_allocations().unwrap();
    assert_eq!(
        report,
        CompactResult::MovedObjects {
            old: before.bytes_used,
            new: before.bytes_used - holes,
            objects_moved: behind,
        }
    );
    let image = area.into_inner();
    let from = 128 + (before.bytes_used - holes) as usize;
    let to = 128 + before.bytes_used as usize;
    assert!(image[from..to].iter().all(|b| *b == 0));
}

#[test]
fn packing_changes_nothing_that_is_stored() {
    let mut area = fragmented();
    area.set_property("ro.d", "44").unwrap();
    let serial = |area: &PropArea, key: &str| {
        let info = area.get_property_info(key).unwrap().unwrap();
        (info.value, info.is_long, info.prop_offset)
    };
    let before = serial(&area, "ro.d");
    let image = area.into_inner();
    let word_before = word(&image, 128 + before.2 as usize);
    let mut area = PropArea::new(image).unwrap();
    area.compact_allocations().unwrap();
    let after = serial(&area, "ro.d");
    assert_eq!((&after.0, after.1), (&before.0, before.1));
    assert!(after.2 < before.2);
    let image = area.into_inner();
    assert_eq!(word(&image, 128 + after.2 as usize), word_before);
    assert_eq!(word_before, (2 << 24) | 2);
}

#[test]
fn objects_do_not_overlap() {
    let scan = fragmented().scan_allocations().unwrap();
    for pair in scan.objects.windows(2) {
        assert!(pair[0].aligned_end_offset <= pair[1].offset);
    }
    for pair in scan.holes.windows(2) {
        assert!(pair[0].end_offset <= pair[1].start_offset);
    }
}

#[test]
fn an_emptied_area_starts_anew_behind_the_root() {
    let mut area = new_area(4096);
    area.set_property("a.b", "1").unwrap();
    area.delete_property("a.b").unwrap();
    assert_eq!(
        area.compact_allocations().unwrap(),
        CompactResult::AdjustedBytesUsed { old: 260, new: 20 }
    );
    let scan = area.scan_allocations().unwrap();
    assert!(!scan.has_dirty_backup);
    assert_eq!((scan.objects.len(), scan.holes.len()), (1, 0));
    area.set_property("c", "2").unwrap();
    let scan = area.scan_allocations().unwrap();
    assert!(!scan.has_dirty_backup);
    assert_eq!(scan.objects[1].offset, 20);
    assert_eq!(scan.bytes_used, 144);
}

#[test]
fn areas_are_opened_again_as_they_were() {
    let mut area = fragmented();
    area.set_property("ro.long", &"z".repeat(130)).unwrap();
    area.compact_allocations().unwrap();
    let before = listing(&area);
    let scan = area.scan_allocations().unwrap();
    let again = PropArea::new(area.into_inner()).unwrap();
    assert_eq!(listing(&again), before);
    assert_eq!(again.scan_allocations().unwrap(), scan);
}

#[test]
fn many_sets_over_many_keys_are_all_kept() {
    let mut area = PropArea::create(Vec::new(), 65536).unwrap();
    for round in 0..400 {
        for key in 0..100 {
            area.set_property(&format!("ro.k{key}"), &format!("{round}")).unwrap();
        }
    }
    for key in 0..100 {
        assert_eq!(area.get_property(&format!("ro.k{key}")).unwrap(), Some("399".to_owned()));
    }
    assert!(area.scan_allocations().unwrap().holes.is_empty());
    for key in 0..50 {
        assert!(area.delete_property(&format!("ro.k{key}")).unwrap());
    }
    let before = listing(&area);
    assert!(!area.scan_allocations().unwrap().holes.is_empty());
    area.compact_allocations().unwrap();
    assert!(area.scan_allocations().unwrap().holes.is_empty());
    assert_eq!(listing(&area), before);
    assert_eq!(area.compact_allocations().unwrap(), CompactResult::NoHoles);
}

#[test]
fn headers_are_kept_by_changes() {
    let fresh = new_area(4096).into_inner();
    let mut area = PropArea::new(fresh.clone()).unwrap();
    area.set_property("ro.a", "1").unwrap();
    area.set_property("ro.b", "2").unwrap();
    area.delete_property("ro.a").unwrap();
    area.compact_allocations().unwrap();
    let image = area.into_inner();
    assert_eq!(image.len(), fresh.len());
    assert_eq!(image[4..128], fresh[4..128]);
    assert_ne!(image[0..4], fresh[0..4]);
    let again = PropArea::new(image.clone()).unwrap();
    assert_eq!(again.into_inner(), image);
}

fn node_offsets(area: &PropArea) -> Vec<u32> {
    let scan = area.scan_allocations().unwrap();
    scan.objects
        .iter()
        .filter(|o| o.kind == PropAreaObjectKind::TrieNode)
        .map(|o| o.offset)
        .collect()
}

#[test]
fn deletion_leaves_no_dead_nodes() {
    let mut area = new_area(8192);
    area.set_property("a.b.c.d", "1").unwrap();
    area.set_property("a.b", "2").unwrap();
    assert_eq!(node_offsets(&area).len(), 5);
    assert!(area.delete_property("a.b.c.d").unwrap());
    assert_eq!(node_offsets(&area).len(), 3);
    assert!(area.delete_property("a.b").unwrap());
    assert_eq!(node_offsets(&area), vec![0]);
}

#[test]
fn deletion_leaves_no_dead_nodes_where_a_key_holds_a_nul() {
    let mut area = new_area(8192);
    area.set_property("a\0b.c", "1").unwrap();
    assert_eq!(area.get_property("a\0b.c").unwrap(), None);
    let before = node_offsets(&area);
    area.set_property("d.e", "2").unwrap();
    assert_eq!(node_offsets(&area).len(), before.len() + 2);
    assert!(area.delete_property("d.e").unwrap());
    assert_eq!(node_offsets(&area), before);
}
