use prop_rs::live_area::MmapPropAreaError;
use prop_rs::mmap_prop_area::{
    compose_hidden_serial, compose_initial_serial, compose_visible_serial, MemOp, MmapPropArea,
    ValueSlotInspect,
};
use prop_rs::PropArea;

fn image(props: &[(&str, &str)]) -> Vec<u8> {
    let mut area = PropArea::create(vec![0; 16384], 16384).unwrap();
    for (key, value) in props {
        area.set_property(key, value).unwrap();
    }
    area.into_inner()
}

/// Carry operations out on a plain copy of the area.
fn replay(image: &mut [u8], ops: &[MemOp]) {
    for op in ops {
        match op {
            MemOp::Bytes { at, bytes } => {
                let at = 128 + *at as usize;
                image[at..at + bytes.len()].copy_from_slice(bytes);
            }
            MemOp::Zero { at, len } => {
                let at = 128 + *at as usize;
                for i in 0..*len as usize {
                    image[at + i] = 0;
                }
            }
            MemOp::Word { at, value }
            | MemOp::StoreRelaxed { at, value }
            | MemOp::StoreRelease { at, value } => {
                let at = 128 + *at as usize;
                image[at..at + 4].copy_from_slice(&value.to_le_bytes());
            }
            MemOp::StoreUsed { value } => image[0..4].copy_from_slice(&value.to_le_bytes()),
            MemOp::StoreAreaSerial { value } => image[4..8].copy_from_slice(&value.to_le_bytes()),
            MemOp::ReleaseFence | MemOp::Wake { .. } | MemOp::WakeArea | MemOp::BumpGlobalSerial => {}
        }
    }
}

#[test]
fn written_properties_are_found_in_the_replayed_area() {
    let mut mapped = image(&[("ro.a", "1"), ("persist.sys.long", &"x".repeat(150))]);
    let mut area = MmapPropArea::new(mapped.clone()).unwrap();
    area.upsert("ro.a", "changed").unwrap();
    area.upsert("ro.new.one", "fresh").unwrap();
    area.upsert("ro.new.two", &"y".repeat(200)).unwrap();
    area.upsert("persist.sys.long", "short now").unwrap();
    let ops = area.take_ops();
    replay(&mut mapped, &ops);
    let read = PropArea::new(mapped).unwrap();
    assert_eq!(read.get_property("ro.a").unwrap(), Some("changed".to_owned()));
    assert_eq!(read.get_property("ro.new.one").unwrap(), Some("fresh".to_owned()));
    assert_eq!(read.get_property("ro.new.two").unwrap(), Some("y".repeat(200)));
    assert_eq!(read.get_property("persist.sys.long").unwrap(), Some("short now".to_owned()));
}

#[test]
fn removed_properties_are_gone_from_the_replayed_area() {
    let mut mapped = image(&[("a.b", "1"), ("a.c", "2"), ("long", &"l".repeat(120))]);
    let mut area = MmapPropArea::new(mapped.clone()).unwrap();
    assert_eq!(area.remove("a.b"), Ok(true));
    assert_eq!(area.remove("a.b"), Ok(false));
    assert_eq!(area.remove("long"), Ok(true));
    assert_eq!(area.remove_with_prune("missing", false), Ok(false));
    let ops = area.take_ops();
    assert!(matches!(ops[0], MemOp::StoreRelease { value: 0, .. }));
    replay(&mut mapped, &ops);
    let read = PropArea::new(mapped).unwrap();
    assert_eq!(read.get_property("a.b").unwrap(), None);
    assert_eq!(read.get_property("a.c").unwrap(), Some("2".to_owned()));
    assert_eq!(read.get_property("long").unwrap(), None);
}

#[test]
fn an_update_is_announced_and_then_hidden() {
    let mut area = MmapPropArea::new(image(&[("a", "one")])).unwrap();
    let off = area.find("a").unwrap().unwrap();
    assert_eq!(area.read_serial(off), Ok(3 << 24));
    area.update(off, "two!").unwrap();
    let ops = area.take_ops();
    assert_eq!(
        ops,
        vec![
            MemOp::StoreRelaxed { at: off, value: (3 << 24) | 1 },
            MemOp::Bytes { at: off + 4, bytes: b"two!".to_vec() },
            MemOp::Zero { at: off + 8, len: 88 },
            MemOp::ReleaseFence,
            MemOp::StoreRelaxed { at: off, value: (4 << 24) | 2 },
            MemOp::Wake { at: off },
            MemOp::BumpGlobalSerial,
            MemOp::ReleaseFence,
            MemOp::StoreRelaxed { at: off, value: 4 << 24 },
        ]
    );
    assert_eq!(area.read_serial(off), Ok(4 << 24));
    assert_eq!(area.read_prop(off), Some(("a".to_owned(), "two!".to_owned())));
}

#[test]
fn an_addition_is_published_last() {
    let mut area = MmapPropArea::new(image(&[])).unwrap();
    area.add("k", "v").unwrap();
    let ops = area.take_ops();
    let n = ops.len();
    assert_eq!(ops[n - 1], MemOp::BumpGlobalSerial);
    assert_eq!(ops[n - 2], MemOp::StoreRelease { at: 112 + 4, value: 136 });
    assert_eq!(ops[n - 3], MemOp::StoreRelaxed { at: 136, value: 1 << 24 });
}

#[test]
fn values_that_do_not_fit_change_nothing() {
    let mut area = MmapPropArea::new(image(&[("a", "1"), ("l", &"x".repeat(93))])).unwrap();
    assert_eq!(
        area.upsert("a", &"v".repeat(92)),
        Err(MmapPropAreaError::ValueTooLong { len: 92 })
    );
    assert_eq!(area.take_ops(), vec![]);
    // 93 bytes and a NUL take 96 bytes, so 95 fit.
    assert_eq!(area.upsert("l", &"v".repeat(95)), Ok(()));
    assert_eq!(
        area.upsert("l", &"v".repeat(96)),
        Err(MmapPropAreaError::ValueTooLong { len: 96 })
    );
}

#[test]
fn full_areas_and_bad_keys_are_refused() {
    let mut small = PropArea::create(vec![0; 128 + 112 + 24], 128 + 112 + 24).unwrap();
    let _ = small.data_size();
    let mut area = MmapPropArea::new(small.into_inner()).unwrap();
    assert_eq!(area.upsert("a", "1"), Err(MmapPropAreaError::AreaFull));
    assert_eq!(area.upsert("", "1"), Err(MmapPropAreaError::InvalidKey));
    assert_eq!(area.find(".x"), Err(MmapPropAreaError::InvalidKey));
}

#[test]
fn broken_areas_are_refused() {
    assert_eq!(
        MmapPropArea::new(vec![0; 256]).err(),
        Some(MmapPropAreaError::InvalidMagic(0))
    );
    let mut bad = image(&[]);
    bad[12] = 1;
    assert!(matches!(MmapPropArea::new(bad).err(), Some(MmapPropAreaError::InvalidVersion(_))));
    let mut bad = image(&[("a", "1")]);
    bad[128 + 16 + 2] = 0xff;
    let mut area = MmapPropArea::new(bad).unwrap();
    assert!(matches!(area.find("a"), Err(MmapPropAreaError::InvalidOffset(_))));
    assert_eq!(area.read_serial(0xffff_fff0), Err(MmapPropAreaError::InvalidOffset(0xffff_fff0)));
    assert_eq!(area.read_prop(0xffff_fff0), None);
}

#[test]
fn text_that_is_not_utf8_is_still_shown() {
    let mut bad = image(&[("a", "xyz")]);
    let area = PropArea::new(bad.clone()).unwrap();
    let info = area.get_property_info("a").unwrap().unwrap();
    bad[128 + info.value_offset as usize + 1] = 0xff;
    let area = MmapPropArea::new(bad).unwrap();
    assert_eq!(
        area.read_prop(info.prop_offset),
        Some(("a".to_owned(), "x\u{fffd}z".to_owned()))
    );
}

#[test]
fn value_slots_are_described() {
    let mut area = MmapPropArea::new(image(&[("a", "12345"), ("l", &"x".repeat(100))])).unwrap();
    assert_eq!(
        area.inspect_value_slot("a").unwrap(),
        Some(ValueSlotInspect { is_long: false, value_len: 5, tail_size: 87, tail_nonzero: 0 })
    );
    assert_eq!(
        area.inspect_value_slot("l").unwrap(),
        Some(ValueSlotInspect { is_long: true, value_len: 100, tail_size: 0, tail_nonzero: 0 })
    );
    assert_eq!(area.inspect_value_slot("none").unwrap(), None);
}

#[test]
fn area_serial_wraps_around() {
    let mut start = image(&[]);
    for i in 4..8 {
        start[i] = 0xff;
    }
    let mut area = MmapPropArea::new(start).unwrap();
    area.bump_area_serial_and_wake();
    area.bump_area_serial_and_wake();
    assert_eq!(
        area.take_ops(),
        vec![
            MemOp::StoreAreaSerial { value: 0 },
            MemOp::WakeArea,
            MemOp::StoreAreaSerial { value: 1 },
            MemOp::WakeArea,
        ]
    );
}

#[test]
fn serials_are_put_together() {
    assert_eq!(compose_initial_serial(5, false), 5 << 24);
    assert_eq!(compose_initial_serial(50, true), (50 << 24) | (1 << 16));
    assert_eq!(compose_visible_serial(7, 3, false), (3 << 24) | 8);
    assert_eq!(compose_visible_serial(0x00ff_ffff, 3, false), 3 << 24);
    assert_eq!(compose_visible_serial(0x0001_0003, 50, true), (50 << 24) | 0x0001_0004);
    assert_eq!(compose_hidden_serial(7, 3, false), (3 << 24) | 6);
    assert_eq!(compose_hidden_serial(7, 3, true), (3 << 24) | (1 << 16) | 6);
    assert_eq!(compose_hidden_serial(0xffff_ffff, 0x101, false), (1 << 24) | 0x00ff_fffe);
}

#[test]
fn what_is_written_is_read_where_it_is_found() {
    let mut area = MmapPropArea::new(image(&[("ro.a", "1"), ("long", &"x".repeat(150))])).unwrap();
    let long = area.find("long").unwrap().unwrap();
    let kept = area.find("ro.a").unwrap().unwrap();
    for (key, value) in [("long", "now short"), ("ro.new", "n"), ("ro.wide", &"w".repeat(300))] {
        area.take_ops();
        area.upsert(key, value).unwrap();
        let ops = area.take_ops();
        let told = ops.iter().filter(|op| **op == MemOp::BumpGlobalSerial).count();
        assert_eq!(told, 1);
        let off = area.find(key).unwrap().unwrap();
        assert_eq!(area.read_prop(off), Some((key.to_owned(), value.to_owned())));
        assert_eq!(area.find("ro.a"), Ok(Some(kept)));
        assert_eq!(area.read_prop(kept), Some(("ro.a".to_owned(), "1".to_owned())));
    }
    assert_eq!(area.find("long"), Ok(Some(long)));
}

#[test]
fn bytes_behind_the_fill_mark_make_no_difference() {
    let mut mapped = image(&[("ro.a", "1")]);
    let used = u32::from_le_bytes([mapped[0], mapped[1], mapped[2], mapped[3]]) as usize;
    for byte in &mut mapped[128 + used..] {
        *byte = 0xa5;
    }
    let mut area = MmapPropArea::new(mapped.clone()).unwrap();
    area.upsert("ro.b.c", "two").unwrap();
    area.upsert("ro.long", &"y".repeat(120)).unwrap();
    area.upsert("ro.a", "changed").unwrap();
    replay(&mut mapped, &area.take_ops());
    let read = PropArea::new(mapped).unwrap();
    assert_eq!(read.get_property("ro.a").unwrap(), Some("changed".to_owned()));
    assert_eq!(read.get_property("ro.b.c").unwrap(), Some("two".to_owned()));
    assert_eq!(read.get_property("ro.long").unwrap(), Some("y".repeat(120)));
    assert_eq!(read.get_property("ro.b").unwrap(), None);
}

#[test]
fn what_is_removed_can_be_written_again() {
    let mut mapped = image(&[("a.b", "1"), ("a.c", "2")]);
    let mut area = MmapPropArea::new(mapped.clone()).unwrap();
    assert_eq!(area.remove("a.b"), Ok(true));
    area.upsert("a.b", "again").unwrap();
    area.upsert("d", "4").unwrap();
    replay(&mut mapped, &area.take_ops());
    let read = PropArea::new(mapped).unwrap();
    assert_eq!(read.get_property("a.b").unwrap(), Some("again".to_owned()));
    assert_eq!(read.get_property("a.c").unwrap(), Some("2".to_owned()));
    assert_eq!(read.get_property("d").unwrap(), Some("4".to_owned()));
}
