use usbloom::inventory::{
    caption_text, class_text, control_packet_size, interface_caption, interface_title, parents_terminate,
    title_text, decoded, device_class, device_key, has_duplicate_keys, hex16, ids,
    interfaces, speed, visible_rows, Snapshot, SnapshotError,
};
use usbloom::usb::{
    Bus, Configuration, Device, DeviceExtra, DeviceLocation, Interface, Speed, SystemProfile,
    Version,
};

fn device(name: &str, port: u8) -> Device {
    Device {
        name: name.into(),
        vendor_id: Some(0x1234),
        product_id: Some(0xabcd),
        location_id: DeviceLocation {
            bus: 1,
            number: 2,
            tree_positions: vec![port],
        },
        ..Default::default()
    }
}

fn sample_profile() -> SystemProfile {
    let mut hub = device("Example hub", 1);
    let mut child = device("Example MCU", 2);
    child.location_id.tree_positions = vec![1, 2];
    child.profiler_error = Some("Descriptor unavailable".into());
    hub.devices = Some(vec![child]);
    let mut bus = Bus::default();
    bus.name = "USB bus".into();
    bus.usb_bus_number = Some(1);
    bus.devices = Some(vec![hub]);
    SystemProfile { buses: vec![bus] }
}

fn sample() -> Snapshot {
    Snapshot::from_profile(sample_profile(), 0)
}

#[test]
fn selection_identity_survives_address_change_but_not_device_replacement() {
    let a = device("Board", 2);
    let mut b = device("Board", 2);
    b.location_id.number = 17;
    assert_eq!(device_key(&a), device_key(&b));
    b.product_id = Some(0xeeee);
    assert_ne!(device_key(&a), device_key(&b));
}

#[test]
fn search_retains_ancestors_and_overrides_collapsed_branches() {
    let rows = sample().rows();
    let collapsed = vec![rows[0].key.clone()];
    assert_eq!(visible_rows(&rows, "", &collapsed).len(), 1);
    assert_eq!(visible_rows(&rows, "mcu", &collapsed).len(), 2);
    assert!(visible_rows(&rows, "not here", &collapsed).is_empty());
}

#[test]
fn snapshot_roundtrip_preserves_topology_and_partial_read_errors() {
    let original = sample();
    let loaded = Snapshot::decode(4096, Some(sample())).unwrap();
    assert_eq!(loaded.rows().len(), 2);
    assert_eq!(loaded.read_errors, original.read_errors);
    assert_eq!(loaded.rows()[1].parent, Some(loaded.rows()[0].key.clone()));
}

#[test]
fn invalid_and_future_snapshots_are_rejected() {
    assert!(Snapshot::decode(b"{broken}".len() as u64, None).is_err());
    let mut future = sample();
    future.schema_version = 999;
    assert!(Snapshot::decode(4096, Some(future)).is_err());
}

#[test]
fn duplicate_identity_is_rejected_before_tree_navigation() {
    let mut snapshot = sample();
    let copy = sample_profile().buses.remove(0).devices.unwrap().remove(0);
    let devices = snapshot.profile.buses[0].devices.as_mut().unwrap();
    devices.push(copy);
    assert!(Snapshot::decode(4096, Some(snapshot)).is_err());
}

#[test]
fn unknown_is_not_reported_as_zero_or_full_speed() {
    let device = Device::default();
    assert_eq!(hex16(device.vendor_id), "Unknown");
    assert_eq!(speed(&device), "Unavailable");
    assert_eq!(decoded(None, None), "Unavailable");
}

#[test]
fn device_key_format() {
    let mut d = device("Board", 3);
    d.location_id.tree_positions = vec![1, 4, 3];
    d.serial_num = Some("SN42".into());
    assert_eq!(device_key(&d), "1-1.4.3:1234:abcd:SN42");
    let root = Device::default();
    assert_eq!(device_key(&root), "0-0:0000:0000:");
}

#[test]
fn rows_carry_bus_labels_depth_and_parents() {
    let mut profile = sample_profile();
    let mut unnamed = Bus::default();
    unnamed.name = "   ".into();
    unnamed.devices = Some(vec![device("Mouse", 3)]);
    profile.buses.push(unnamed);
    let snapshot = Snapshot::from_profile(profile, 7);
    assert_eq!(snapshot.captured_at, 7);
    assert_eq!(snapshot.schema_version, 1);
    let rows = snapshot.rows();
    assert_eq!(rows.len(), 3);
    assert_eq!(rows[0].bus, "USB bus");
    assert_eq!(rows[0].bus_key, "bus-1");
    assert_eq!(rows[0].depth, 0);
    assert!(rows[0].has_children);
    assert_eq!(rows[0].parent, None);
    assert_eq!(rows[1].depth, 1);
    assert!(!rows[1].has_children);
    assert!(rows[1].device.devices.is_none());
    assert_eq!(rows[1].device.name, "Example MCU");
    // A blank bus name falls back to its position.
    assert_eq!(rows[2].bus, "USB bus 1");
    assert_eq!(rows[2].bus_key, "bus-1");
    assert_eq!(rows[2].parent, None);
    assert!(has_duplicate_keys(&rows) == false);
}

#[test]
fn read_errors_are_found_by_identity() {
    let snapshot = sample();
    let rows = snapshot.rows();
    assert_eq!(snapshot.read_errors.len(), 1);
    assert_eq!(
        snapshot.read_error(&rows[1].key).map(|e| e.as_str()),
        Some("Descriptor unavailable")
    );
    assert_eq!(snapshot.read_error(&rows[0].key), None);
}

#[test]
fn each_refusal_has_its_reason() {
    assert_eq!(
        Snapshot::decode(16 * 1024 * 1024 + 1, Some(sample())).unwrap_err(),
        SnapshotError::TooLarge
    );
    assert_eq!(
        Snapshot::decode(16 * 1024 * 1024, None).unwrap_err(),
        SnapshotError::NotASnapshot
    );
    let mut future = sample();
    future.schema_version = 2;
    assert_eq!(
        Snapshot::decode(10, Some(future)).unwrap_err(),
        SnapshotError::UnsupportedVersion(2)
    );
    assert_eq!(
        SnapshotError::UnsupportedVersion(2).message(),
        "Unsupported snapshot version 2"
    );
    assert_eq!(SnapshotError::TooLarge.message(), "Snapshot exceeds 16 MB");

    // A chain of 32 devices: the deepest sits at depth 31 and is accepted.
    let chain = |length: usize| {
        let mut node = device("Leaf", 1);
        for _ in 1..length {
            let mut parent = device("Hub", 1);
            parent.devices = Some(vec![node]);
            node = parent;
        }
        let mut bus = Bus::default();
        bus.devices = Some(vec![node]);
        let mut snapshot = sample();
        snapshot.profile = SystemProfile { buses: vec![bus] };
        snapshot
    };
    // Identical devices on one chain share an identity, so only the depth
    // refusal is checked with them.
    assert_eq!(
        Snapshot::decode(10, Some(chain(33))).unwrap_err(),
        SnapshotError::TooDeep
    );
    assert_eq!(
        Snapshot::decode(10, Some(chain(32))).unwrap_err(),
        SnapshotError::DuplicateIdentity
    );

    let mut many = Bus::default();
    let mut devices = Vec::new();
    for port in 0..=255u8 {
        for bus in 0..40u8 {
            let mut d = device("Many", port);
            d.location_id.bus = bus;
            devices.push(d);
        }
    }
    many.devices = Some(devices);
    let mut snapshot = sample();
    snapshot.profile = SystemProfile { buses: vec![many] };
    assert_eq!(
        Snapshot::decode(10, Some(snapshot)).unwrap_err(),
        SnapshotError::TooManyDevices
    );
}

#[test]
fn formatting_of_ids_classes_and_codes() {
    let mut d = device("Board", 1);
    assert_eq!(ids(&d), "1234 : ABCD");
    d.vendor_id = None;
    assert_eq!(ids(&d), "Unknown : ABCD");
    assert_eq!(hex16(Some(0x00af)), "00AF");
    assert_eq!(decoded(Some(0x0e), Some("Video")), "Video · 0x0E");
    assert_eq!(decoded(Some(0xab), None), "Unassigned · 0xAB");
    d.class = Some(0);
    assert_eq!(device_class(&d), "Composite / per interface");
    d.class = Some(0xff);
    assert_eq!(device_class(&d), "Vendor specific");
    d.class = None;
    assert_eq!(device_class(&d), "USB device");
    d.class = Some(0x09);
    assert_eq!(device_class(&d), "Hub");
}

#[test]
fn speeds_and_control_packet_sizes() {
    let mut d = device("Board", 1);
    assert_eq!(control_packet_size(&d), "Unavailable");
    d.extra = Some(DeviceExtra {
        max_packet_size: 9,
        negotiated_speed: Some(Speed::SuperSpeed),
        configurations: vec![],
    });
    d.bcd_usb = Some(Version(3, 0, 0));
    assert_eq!(control_packet_size(&d), "512 bytes");
    assert_eq!(speed(&d), "5 Gb/s");
    d.bcd_usb = Some(Version(2, 0, 0));
    assert_eq!(control_packet_size(&d), "9 bytes");
    d.bcd_usb = None;
    assert_eq!(control_packet_size(&d), "0x09 (raw)");
    d.bcd_usb = Some(Version(3, 2, 0));
    d.extra.as_mut().unwrap().max_packet_size = 32;
    assert_eq!(control_packet_size(&d), "Invalid descriptor");
    d.extra.as_mut().unwrap().max_packet_size = 0;
    assert_eq!(control_packet_size(&d), "Unavailable");
    d.extra.as_mut().unwrap().negotiated_speed = Some(Speed::HighBandwidth);
    assert_eq!(speed(&d), "480 Mb/s");
    d.extra.as_mut().unwrap().negotiated_speed = Some(Speed::Unknown);
    assert_eq!(speed(&d), "Unavailable");
}

#[test]
fn interfaces_group_alternate_settings() {
    let config = Configuration {
        number: 1,
        active: true,
        interfaces: vec![
            Interface { number: 1, alt_setting: 1, active: false },
            Interface { number: 0, alt_setting: 0, active: true },
            Interface { number: 1, alt_setting: 0, active: true },
            Interface { number: 1, alt_setting: 1, active: false },
        ],
    };
    let groups = interfaces(&config);
    assert_eq!(groups, vec![(0, vec![1]), (1, vec![2, 0, 3])]);
    let empty = Configuration { number: 1, active: false, interfaces: vec![] };
    assert!(interfaces(&empty).is_empty());
}

#[test]
fn search_matches_any_field_case_insensitively() {
    let rows = sample().rows();
    let none: Vec<String> = vec![];
    assert_eq!(visible_rows(&rows, "  EXAMPLE  ", &none).len(), 2);
    assert_eq!(visible_rows(&rows, "abcd", &none).len(), 2);
    assert_eq!(visible_rows(&rows, "1-1.2", &none).len(), 2);
    assert_eq!(visible_rows(&rows, "hub", &none).len(), 1);
    assert_eq!(visible_rows(&rows, "", &none).len(), 2);
    assert_eq!(visible_rows(&rows, "   ", &none).len(), 2);
}

#[test]
fn oversized_documents_are_not_written() {
    assert_eq!(Snapshot::check_size(16 * 1024 * 1024), Ok(()));
    assert_eq!(
        Snapshot::check_size(16 * 1024 * 1024 + 1),
        Err(SnapshotError::TooLarge)
    );
}

#[test]
fn shallow_profiles_fit_in_rows() {
    assert!(sample().rows_fit());
}

#[test]
fn class_names_come_from_the_repository_except_for_reserved_codes() {
    assert_eq!(class_text(Some(3), Some("Human Interface Device".into())), "Human Interface Device");
    assert_eq!(class_text(Some(3), None), "USB device");
    assert_eq!(class_text(Some(0), Some("ignored".into())), "Composite / per interface");
    assert_eq!(class_text(Some(0xff), Some("ignored".into())), "Vendor specific");
    assert_eq!(class_text(None, Some("ignored".into())), "USB device");
}

#[test]
fn parents_listed_after_their_children_are_still_followed() {
    let mut rows = sample().rows();
    assert!(parents_terminate(&rows));
    rows.reverse();
    assert!(parents_terminate(&rows));
    let hub = rows[1].key.clone();
    let collapsed = vec![hub.clone()];
    let shown = visible_rows(&rows, "", &collapsed);
    assert_eq!(shown.len(), 1);
    assert_eq!(shown[0].key, hub);
    let found = visible_rows(&rows, "mcu", &collapsed);
    assert_eq!(found.len(), 2);
    assert_eq!(found[0].key, rows[0].key);
}

#[test]
fn cyclic_parents_are_detected() {
    let mut rows = sample().rows();
    let child = rows[1].key.clone();
    rows[0].parent = Some(child);
    assert!(!parents_terminate(&rows));
}

#[test]
fn interface_titles_prefer_a_named_subclass() {
    assert_eq!(title_text(1, Some("Boot".into()), Some("HID".into())), "Boot");
    assert_eq!(title_text(0, Some("No Subclass".into()), Some("HID".into())), "HID");
    assert_eq!(title_text(1, None, Some("HID".into())), "HID");
    assert_eq!(title_text(1, None, None), "Vendor specific");
    assert_eq!(interface_title(3, 1), "Boot Interface Subclass");
    assert_eq!(interface_title(3, 0), "Human Interface Device");
    assert_eq!(caption_text(2, Some("Audio".into())), "Interface 2 · Audio");
    assert_eq!(caption_text(12, None), "Interface 12 · Unassigned class");
    assert_eq!(interface_caption(0, 9), "Interface 0 · Hub");
}
