use usbloom::explorer::{shown_alternative, shown_config, ViewState};
use usbloom::inventory::Snapshot;
use usbloom::settings::{platform, Platform};
use usbloom::usb::{Bus, Configuration, Device, DeviceLocation, Interface, SystemProfile};

fn device(name: &str, product: u16, ports: Vec<u8>) -> Device {
    Device {
        name: name.into(),
        vendor_id: Some(0x1234),
        product_id: Some(product),
        location_id: DeviceLocation {
            bus: 1,
            number: 2,
            tree_positions: ports,
        },
        ..Default::default()
    }
}

fn profile() -> SystemProfile {
    let mut hub = device("Hub", 0x0001, vec![1]);
    hub.devices = Some(vec![device("Keyboard", 0x0002, vec![1, 2])]);
    let mut bus = Bus::default();
    bus.name = "USB bus".into();
    bus.usb_bus_number = Some(1);
    bus.devices = Some(vec![hub, device("Mouse", 0x0003, vec![3])]);
    SystemProfile { buses: vec![bus] }
}

fn config(number: u8, active: bool) -> Configuration {
    Configuration {
        number,
        active,
        interfaces: vec![],
    }
}

fn interface(number: u8, alt_setting: u8, active: bool) -> Interface {
    Interface {
        number,
        alt_setting,
        active,
    }
}

#[test]
fn first_scan_selects_the_first_leaf_device() {
    let rows = Snapshot::from_profile(profile(), 0).rows();
    let mut state = ViewState::new();
    state.apply_rows(&rows);
    assert_eq!(state.selected, Some(rows[1].key.clone()));
    assert!(rows[1].device.name == "Keyboard");
}

#[test]
fn disconnected_selection_is_kept_on_rescan() {
    let rows = Snapshot::from_profile(profile(), 0).rows();
    let mut state = ViewState::new();
    state.select("gone".to_string());
    state.apply_rows(&rows);
    assert_eq!(state.selected, Some("gone".to_string()));
}

#[test]
fn opening_a_snapshot_drops_a_selection_it_does_not_hold() {
    let rows = Snapshot::from_profile(profile(), 0).rows();
    let mut state = ViewState::new();
    state.select("gone".to_string());
    state.choose_config(2);
    state.choose_alternative(1, 0, 1);
    state.open_rows(&rows);
    assert_eq!(state.selected, Some(rows[1].key.clone()));
    assert_eq!(state.config, None);
    assert_eq!(state.alternative(1, 0), None);

    state.select(rows[2].key.clone());
    state.open_rows(&rows);
    assert_eq!(state.selected, Some(rows[2].key.clone()));
}

#[test]
fn selecting_another_device_resets_the_viewed_settings() {
    let mut state = ViewState::new();
    assert!(state.select("a".to_string()));
    state.choose_config(2);
    state.choose_alternative(2, 1, 3);
    assert!(!state.select("a".to_string()));
    assert_eq!(state.config, Some(2));
    assert_eq!(state.alternative(2, 1), Some(3));
    assert!(state.select("b".to_string()));
    assert_eq!(state.config, None);
    assert_eq!(state.alternative(2, 1), None);
}

#[test]
fn the_last_alternate_setting_chosen_is_read_back() {
    let mut state = ViewState::new();
    state.choose_alternative(1, 0, 1);
    state.choose_alternative(1, 1, 2);
    state.choose_alternative(1, 0, 3);
    assert_eq!(state.alternative(1, 0), Some(3));
    assert_eq!(state.alternative(1, 1), Some(2));
    assert_eq!(state.alternative(2, 0), None);
}

#[test]
fn toggling_a_hub_twice_restores_it() {
    let mut state = ViewState::new();
    let hub = "hub".to_string();
    let other = "other".to_string();
    state.toggle_collapsed(&other);
    state.toggle_collapsed(&hub);
    assert_eq!(state.collapsed.len(), 2);
    state.toggle_collapsed(&hub);
    assert_eq!(state.collapsed, vec![other.clone()]);
}

#[test]
fn shown_configuration_prefers_choice_then_active_then_first() {
    let configs = vec![config(1, false), config(2, true), config(3, false)];
    assert_eq!(shown_config(&configs, Some(3)), Some(2));
    assert_eq!(shown_config(&configs, Some(9)), Some(1));
    assert_eq!(shown_config(&configs, None), Some(1));
    let idle = vec![config(1, false), config(2, false)];
    assert_eq!(shown_config(&idle, None), Some(0));
    assert_eq!(shown_config(&vec![], Some(1)), None);
}

#[test]
fn shown_alternate_setting_prefers_choice_then_active_then_first() {
    let ifs = vec![
        interface(0, 0, false),
        interface(1, 0, false),
        interface(1, 1, true),
        interface(1, 2, false),
    ];
    let variants = vec![1, 2, 3];
    assert_eq!(shown_alternative(&ifs, &variants, Some(2)), 3);
    assert_eq!(shown_alternative(&ifs, &variants, None), 2);
    assert_eq!(shown_alternative(&ifs, &vec![0], Some(5)), 0);
}

#[test]
fn platform_follows_the_target_os() {
    assert_eq!(platform("macos"), Platform::Mac);
    assert_eq!(platform("windows"), Platform::Windows);
    assert_eq!(platform("linux"), Platform::Linux);
    assert_eq!(platform("freebsd"), Platform::Linux);
}
