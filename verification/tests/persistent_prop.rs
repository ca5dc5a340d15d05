use prop_rs::atomic_write::{make_temp_name, WriteAction, WriteEvent, WriteOutcome};
use prop_rs::legacy_props::{keeps_property, legacy_list_props, LegacyFile};
use prop_rs::name_order::sort_by_name;
use prop_rs::{PersistentPropError, PersistentProperty, PersistentPropertyFile};

#[test]
fn persistent_props_set_get_delete_and_sorted_iteration() {
    let mut props = PersistentPropertyFile::default();
    props.set("persist.z", "3");
    props.set("persist.a", "1");
    props.set("persist.m", "2");

    assert_eq!(props.get("persist.a"), Some("1"));
    assert_eq!(props.get("persist.m"), Some("2"));
    assert_eq!(props.get("persist.z"), Some("3"));

    // Update existing key.
    props.set("persist.m", "updated");
    assert_eq!(props.get("persist.m"), Some("updated"));

    let names: Vec<&str> = props.iter().map(|p| p.name.as_str()).collect();
    assert_eq!(names, vec!["persist.a", "persist.m", "persist.z"]);

    assert!(props.delete("persist.a"));
    assert!(!props.delete("persist.unknown"));
    assert_eq!(props.get("persist.a"), None);
}

#[test]
fn persistent_props_binary_round_trip() {
    let mut props = PersistentPropertyFile::default();
    props.set("persist.locale", "en-US");
    props.set("persist.demo", "1");

    let bytes = props.to_bytes().expect("encode failed");
    let decoded = PersistentPropertyFile::from_bytes(&bytes).expect("decode failed");

    assert_eq!(decoded.get("persist.locale"), Some("en-US"));
    assert_eq!(decoded.get("persist.demo"), Some("1"));
}

#[test]
fn empty_file_has_no_bytes_and_no_properties() {
    let props = PersistentPropertyFile::default();
    assert!(props.is_empty());
    assert_eq!(props.to_bytes().unwrap(), Vec::<u8>::new());
    assert!(PersistentPropertyFile::from_bytes(&[]).unwrap().is_empty());
}

#[test]
fn bytes_of_one_property() {
    let mut props = PersistentPropertyFile::default();
    props.set("a", "b");
    assert_eq!(
        props.to_bytes().unwrap(),
        vec![0x0a, 6, 0x0a, 1, b'a', 0x12, 1, b'b']
    );
}

#[test]
fn the_later_of_two_records_of_a_name_counts() {
    let bytes = [
        0x0a, 6, 0x0a, 1, b'a', 0x12, 1, b'b', 0x0a, 6, 0x0a, 1, b'a', 0x12, 1, b'c',
    ];
    let props = PersistentPropertyFile::from_bytes(&bytes).unwrap();
    assert_eq!(props.get("a"), Some("c"));
    assert_eq!(props.iter().count(), 1);
}

#[test]
fn records_without_a_part_are_passed_over() {
    // A record with a name alone, then one with a value alone.
    let bytes = [0x0a, 3, 0x0a, 1, b'a', 0x0a, 3, 0x12, 1, b'b'];
    let props = PersistentPropertyFile::from_bytes(&bytes).unwrap();
    assert!(props.is_empty());
}

#[test]
fn unknown_fields_are_skipped() {
    // Field 3 as a number, field 4 as a group that holds a number, and
    // unknown fields of each kind within a record.
    let bytes = [
        0x18, 0x96, 0x01, 0x23, 0x08, 0x01, 0x24, 0x0a, 18, 0x0a, 1, b'a', 0x12, 1, b'b', 0x1d, 1,
        2, 3, 4, 0x22, 1, 9, 0x28, 7, 0x33, 0x34,
    ];
    let props = PersistentPropertyFile::from_bytes(&bytes).unwrap();
    assert_eq!(props.get("a"), Some("b"));
}

#[test]
fn bytes_that_are_no_file_are_refused() {
    // A record that is longer than the file.
    assert!(matches!(
        PersistentPropertyFile::from_bytes(&[0x0a, 9, 0x0a]),
        Err(PersistentPropError::Decode(_))
    ));
    // A name that is not text.
    assert!(PersistentPropertyFile::from_bytes(&[0x0a, 3, 0x0a, 1, 0xff]).is_err());
    // A field number of zero.
    assert!(PersistentPropertyFile::from_bytes(&[0x02, 0]).is_err());
    // The properties field as a number.
    assert!(PersistentPropertyFile::from_bytes(&[0x08, 0]).is_err());
    // A key that never ends.
    assert!(PersistentPropertyFile::from_bytes(&[0xff; 12]).is_err());
}

#[test]
fn long_texts_round_trip() {
    let mut props = PersistentPropertyFile::default();
    let value = "\u{e9}".repeat(400);
    props.set("persist.text", &value);
    let decoded = PersistentPropertyFile::from_bytes(&props.to_bytes().unwrap()).unwrap();
    assert_eq!(decoded, props);
}

#[test]
fn names_are_ordered_byte_by_byte() {
    let list = vec![
        PersistentProperty { name: "b".to_owned(), value: "1".to_owned() },
        PersistentProperty { name: "a.b".to_owned(), value: "2".to_owned() },
        PersistentProperty { name: "a".to_owned(), value: "3".to_owned() },
        PersistentProperty { name: "B".to_owned(), value: "4".to_owned() },
        PersistentProperty { name: "a".to_owned(), value: "5".to_owned() },
    ];
    let sorted: Vec<(String, String)> =
        sort_by_name(list).into_iter().map(|p| (p.name, p.value)).collect();
    let expected: Vec<(String, String)> = [("B", "4"), ("a", "3"), ("a", "5"), ("a.b", "2"), ("b", "1")]
        .iter()
        .map(|(n, v)| (n.to_string(), v.to_string()))
        .collect();
    assert_eq!(sorted, expected);
}

#[test]
fn files_of_single_properties() {
    assert!(keeps_property("persist.sys.locale"));
    assert!(!keeps_property("persistent_properties"));
    assert!(!keeps_property(".persist.tmp"));
    assert!(keeps_property("persistent_properties2"));
}

#[test]
fn temporary_names() {
    assert_eq!(make_temp_name("file", 12, 345, 0), ".file.12.345.0.tmp");
    assert_eq!(make_temp_name("a.pb", 0, 18446744073709551616, 63), ".a.pb.0.18446744073709551616.63.tmp");
    assert_ne!(make_temp_name("f", 1, 1, 1), make_temp_name("f", 1, 1, 2));
}

fn follow(events: &[WriteEvent]) -> WriteAction {
    let mut action = WriteAction::first();
    for event in events {
        action = action.next(*event);
    }
    action
}

#[test]
fn replacing_a_file_step_by_step() {
    assert_eq!(follow(&[]), WriteAction::CreateTemp { attempt: 0 });
    assert_eq!(follow(&[WriteEvent::NameTaken]), WriteAction::CreateTemp { attempt: 1 });
    assert_eq!(
        follow(&[WriteEvent::Failed]),
        WriteAction::Finish(WriteOutcome::Failed)
    );
    assert_eq!(
        follow(&[WriteEvent::Done, WriteEvent::Done, WriteEvent::Done]),
        WriteAction::Finish(WriteOutcome::Written)
    );
    assert_eq!(follow(&[WriteEvent::Done, WriteEvent::Failed]), WriteAction::RemoveTemp);
    assert_eq!(
        follow(&[WriteEvent::Done, WriteEvent::Failed, WriteEvent::Done]),
        WriteAction::Finish(WriteOutcome::Failed)
    );
    let refused = [
        WriteEvent::Done,
        WriteEvent::Done,
        WriteEvent::Refused,
        WriteEvent::TargetExists(true),
        WriteEvent::Done,
        WriteEvent::Done,
    ];
    assert_eq!(follow(&refused[..3]), WriteAction::CheckTarget);
    assert_eq!(follow(&refused[..4]), WriteAction::RemoveTarget);
    assert_eq!(follow(&refused[..5]), WriteAction::RenameOver);
    assert_eq!(follow(&refused), WriteAction::Finish(WriteOutcome::Written));
}

#[test]
fn names_run_out_after_64_attempts() {
    let mut events: Vec<WriteEvent> = vec![WriteEvent::NameTaken; 63];
    assert_eq!(follow(&events), WriteAction::CreateTemp { attempt: 63 });
    events.push(WriteEvent::NameTaken);
    assert_eq!(follow(&events), WriteAction::Finish(WriteOutcome::NoName));
}

#[test]
fn a_missing_file_holds_no_properties() {
    assert!(PersistentPropertyFile::load_or_default(None).unwrap().is_empty());
    let mut props = PersistentPropertyFile::default();
    props.set("persist.a", "1");
    let bytes = props.to_bytes().unwrap();
    let loaded = PersistentPropertyFile::load_or_default(Some(bytes.as_slice())).unwrap();
    assert_eq!(loaded.get("persist.a"), Some("1"));
    assert!(PersistentPropertyFile::load_or_default(Some([0x0au8, 9].as_slice())).is_err());
}

#[test]
fn files_of_single_properties_are_listed_in_order() {
    let file = |name: &str, contents: Option<&str>| LegacyFile {
        name: name.to_owned(),
        contents: contents.map(str::to_owned),
    };
    let files = vec![
        file("persist.z", Some("26")),
        file(".persist.z.1.2.0.tmp", Some("x")),
        file("persistent_properties", Some("x")),
        file("persist.broken", None),
        file("persist.a", Some("1")),
    ];
    let listed: Vec<(String, String)> =
        legacy_list_props(&files).into_iter().map(|p| (p.name, p.value)).collect();
    assert_eq!(
        listed,
        vec![
            ("persist.a".to_owned(), "1".to_owned()),
            ("persist.z".to_owned(), "26".to_owned()),
        ]
    );
}

#[test]
fn groups_are_skipped_up_to_a_hundred_levels() {
    let nested = |levels: usize| {
        let mut bytes = vec![0x1bu8; levels];
        bytes.extend(vec![0x1cu8; levels]);
        bytes
    };
    assert!(PersistentPropertyFile::from_bytes(&nested(100)).is_ok());
    assert!(PersistentPropertyFile::from_bytes(&nested(101)).is_err());
    // A record counts as a level.
    let in_record = |levels: usize| {
        let inner = nested(levels);
        let mut bytes = vec![0x0au8, (inner.len() % 128 + 128) as u8, (inner.len() / 128) as u8];
        bytes.extend(inner);
        bytes
    };
    assert!(PersistentPropertyFile::from_bytes(&in_record(99)).is_ok());
    assert!(PersistentPropertyFile::from_bytes(&in_record(100)).is_err());
    // A group that another key ends.
    assert!(PersistentPropertyFile::from_bytes(&[0x1b, 0x24]).is_err());
}

#[test]
fn written_files_are_loaded_again() {
    let mut props = PersistentPropertyFile::default();
    props.set("persist.b", "2");
    props.set("persist.a", "");
    props.set("persist.a.long", &"x".repeat(300));
    let bytes = props.to_bytes().unwrap();
    let loaded = PersistentPropertyFile::load(&bytes).unwrap();
    let names: Vec<&str> = loaded.iter().map(|p| p.name.as_str()).collect();
    assert_eq!(names, vec!["persist.a", "persist.a.long", "persist.b"]);
    assert_eq!(loaded.get("persist.a"), Some(""));
    assert_eq!(loaded.get("persist.a.long"), Some("x".repeat(300).as_str()));
    assert_eq!(loaded.to_bytes().unwrap(), bytes);
    assert!(PersistentPropertyFile::load(&bytes[..bytes.len() - 1]).is_err());
}
