use usbloom::descriptors::{direction_help, endpoint_is_input, endpoint_label, interval, transfer_help};
use usbloom::usb::{Speed, TransferType};

#[test]
fn interval_depends_on_speed_and_transfer_type() {
    assert_eq!(
        interval(&TransferType::Interrupt, Some(&Speed::FullSpeed), 4),
        "4 ms"
    );
    assert_eq!(
        interval(&TransferType::Interrupt, Some(&Speed::HighSpeed), 4),
        "1 ms"
    );
    assert_eq!(
        interval(&TransferType::Isochronous, Some(&Speed::HighSpeed), 1),
        "125 µs"
    );
    assert_eq!(
        interval(&TransferType::Isochronous, Some(&Speed::FullSpeed), 4),
        "8 ms"
    );
    assert_eq!(
        interval(&TransferType::Bulk, Some(&Speed::HighSpeed), 0),
        "Not periodic"
    );
}

#[test]
fn invalid_or_unknown_timing_is_not_invented() {
    assert_eq!(
        interval(&TransferType::Interrupt, None, 4),
        "Timing unavailable"
    );
    assert_eq!(
        interval(&TransferType::Isochronous, Some(&Speed::HighSpeed), 0),
        "Invalid interval"
    );
    assert_eq!(
        interval(&TransferType::Isochronous, Some(&Speed::HighSpeed), 17),
        "Invalid interval"
    );
}

#[test]
fn interval_edges_of_the_exponent_range() {
    // 125 µs · 2^15 = 4096 ms
    assert_eq!(
        interval(&TransferType::Isochronous, Some(&Speed::SuperSpeed), 16),
        "4096 ms"
    );
    // 1 ms · 2^15 at full speed
    assert_eq!(
        interval(&TransferType::Isochronous, Some(&Speed::FullSpeed), 16),
        "32768 ms"
    );
    assert_eq!(
        interval(&TransferType::Interrupt, Some(&Speed::HighSpeed), 2),
        "250 µs"
    );
    assert_eq!(
        interval(&TransferType::Interrupt, Some(&Speed::LowSpeed), 0),
        "Invalid interval"
    );
    assert_eq!(
        interval(&TransferType::Interrupt, Some(&Speed::LowSpeed), 255),
        "255 ms"
    );
    assert_eq!(
        interval(&TransferType::Isochronous, Some(&Speed::LowSpeed), 4),
        "Timing unavailable"
    );
    assert_eq!(
        interval(&TransferType::Isochronous, Some(&Speed::Unknown), 4),
        "Timing unavailable"
    );
    assert_eq!(
        interval(&TransferType::Control, None, 9),
        "Not periodic"
    );
}

#[test]
fn every_transfer_type_is_explained() {
    assert_eq!(
        transfer_help(&TransferType::Control),
        "Commands and device setup, with error recovery."
    );
    assert_eq!(
        transfer_help(&TransferType::Bulk),
        "Reliable data transfer using available bus bandwidth."
    );
    assert_eq!(
        transfer_help(&TransferType::Interrupt),
        "Periodic service for small, time-sensitive transfers."
    );
    assert_eq!(
        transfer_help(&TransferType::Isochronous),
        "Reserved periodic bandwidth; failed packets are not retried."
    );
}

#[test]
fn endpoint_direction_comes_from_bit_seven() {
    assert!(endpoint_is_input(0x81));
    assert!(!endpoint_is_input(0x01));
    assert_eq!(direction_help(0x82), "IN: device to host.");
    assert_eq!(direction_help(0x02), "OUT: host to device.");
    assert_eq!(endpoint_label(1, 0x81), "EP 1 IN");
    assert_eq!(endpoint_label(15, 0x0f), "EP 15 OUT");
}
