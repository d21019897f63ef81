//! Presentation of standard endpoint fields (USB 2.0, table 9-13).
use crate::text::{decimal, decimal_string, lemma_pow2_monotone, pow2, power_of_two, push_decimal, push_str};
use crate::usb::{Speed, TransferType};
use vstd::prelude::*;

verus! {

/// Whether the endpoint kind is serviced periodically.
pub open spec fn is_periodic(kind: TransferType) -> bool {
    kind is Isochronous || kind is Interrupt
}

/// The length of one service-interval unit in microseconds at a bus speed,
/// for the kinds whose interval is exponential; `None` where the speed does
/// not say.
pub open spec fn interval_unit(speed: Option<Speed>) -> Option<nat> {
    match speed {
        Some(Speed::FullSpeed) => Some(1000),
        Some(Speed::HighSpeed) | Some(Speed::HighBandwidth) | Some(Speed::SuperSpeed) | Some(
            Speed::SuperSpeedPlus,
        ) | Some(Speed::SuperSpeedPlusX2) | Some(Speed::Usb40Gbps) | Some(Speed::Usb80Gbps) => Some(
            125,
        ),
        _ => None,
    }
}

/// A duration in microseconds, in whole milliseconds where it is one.
pub open spec fn duration_text(micros: nat) -> Seq<char> {
    if micros % 1000 == 0 {
        decimal(micros / 1000) + " ms"@
    } else {
        decimal(micros) + " µs"@
    }
}

/// The descriptor's requested service interval (bInterval), decoded for the
/// endpoint kind and the negotiated bus speed.
pub open spec fn interval_text(kind: TransferType, speed: Option<Speed>, raw: u8) -> Seq<char> {
    if !is_periodic(kind) {
        "Not periodic"@
    } else if kind is Interrupt && (speed == Some(Speed::LowSpeed) || speed == Some(Speed::FullSpeed)) {
        // Low- and full-speed interrupt endpoints give the interval in frames.
        if raw == 0 {
            "Invalid interval"@
        } else {
            decimal(raw as nat) + " ms"@
        }
    } else if interval_unit(speed) is None {
        "Timing unavailable"@
    } else if !(1 <= raw <= 16) {
        "Invalid interval"@
    } else {
        duration_text(interval_unit(speed).unwrap() * pow2((raw - 1) as nat))
    }
}

/// The description of an endpoint kind.
pub open spec fn transfer_help_text(kind: TransferType) -> Seq<char> {
    match kind {
        TransferType::Control => "Commands and device setup, with error recovery."@,
        TransferType::Bulk => "Reliable data transfer using available bus bandwidth."@,
        TransferType::Interrupt => "Periodic service for small, time-sensitive transfers."@,
        TransferType::Isochronous => "Reserved periodic bandwidth; failed packets are not retried."@,
    }
}

/// A new string holding `t`.
pub fn owned(t: &str) -> (s: String)
    ensures
        s@ == t@,
{
    let mut s = String::new();
    push_str(&mut s, t);
    s
}

/// Decode the descriptor's requested service interval, not measured timing.
pub fn interval(kind: &TransferType, speed: Option<&Speed>, raw: u8) -> (text: String)
    ensures
        text@ == interval_text(*kind, match speed {
            Some(s) => Some(*s),
            None => None,
        }, raw),
{
    let sp: Option<Speed> = match speed {
        Some(s) => Some(*s),
        None => None,
    };
    proof {
        reveal_strlit("Not periodic");
        reveal_strlit("Invalid interval");
        reveal_strlit("Timing unavailable");
        reveal_strlit(" ms");
        reveal_strlit(" µs");
    }
    match kind {
        TransferType::Bulk | TransferType::Control => {
            return owned("Not periodic");
        },
        _ => {},
    }
    let low_or_full = match sp {
        Some(Speed::LowSpeed) | Some(Speed::FullSpeed) => true,
        _ => false,
    };
    let interrupt = match kind {
        TransferType::Interrupt => true,
        _ => false,
    };
    if low_or_full && interrupt {
        if raw == 0 {
            return owned("Invalid interval");
        }
        let mut text = decimal_string(raw as u64);
        push_str(&mut text, " ms");
        return text;
    }
    let unit: u32 = match sp {
        Some(Speed::FullSpeed) => 1000,
        Some(Speed::HighSpeed) | Some(Speed::HighBandwidth) | Some(Speed::SuperSpeed) | Some(
            Speed::SuperSpeedPlus,
        ) | Some(Speed::SuperSpeedPlusX2) | Some(Speed::Usb40Gbps) | Some(Speed::Usb80Gbps) => 125,
        _ => {
            return owned("Timing unavailable");
        },
    };
    if raw < 1 || raw > 16 {
        return owned("Invalid interval");
    }
    let p = power_of_two(raw - 1);
    proof {
        lemma_pow2_monotone((raw - 1) as nat, 15);
        assert(pow2(15) == 32768) by {
            reveal_with_fuel(pow2, 16);
        }
    }
    assert(unit * p <= 32768000) by (nonlinear_arith)
        requires
            unit <= 1000,
            p <= 32768,
    ;
    let micros: u32 = (unit as u64 * p) as u32;
    if micros % 1000 == 0 {
        let mut text = decimal_string((micros / 1000) as u64);
        push_str(&mut text, " ms");
        text
    } else {
        let mut text = decimal_string(micros as u64);
        push_str(&mut text, " µs");
        text
    }
}

/// What an endpoint kind is used for.
pub fn transfer_help(kind: &TransferType) -> (help: &'static str)
    ensures
        help@ == transfer_help_text(*kind),
{
    proof {
        reveal_strlit("Commands and device setup, with error recovery.");
        reveal_strlit("Reliable data transfer using available bus bandwidth.");
        reveal_strlit("Periodic service for small, time-sensitive transfers.");
        reveal_strlit("Reserved periodic bandwidth; failed packets are not retried.");
    }
    match kind {
        TransferType::Control => "Commands and device setup, with error recovery.",
        TransferType::Bulk => "Reliable data transfer using available bus bandwidth.",
        TransferType::Interrupt => "Periodic service for small, time-sensitive transfers.",
        TransferType::Isochronous => "Reserved periodic bandwidth; failed packets are not retried.",
    }
}

/// Whether an endpoint address names an IN endpoint (bit 7 set).
pub open spec fn is_input(address: u8) -> bool {
    address >= 0x80
}

/// Whether an endpoint carries data from the device to the host.
pub fn endpoint_is_input(address: u8) -> (input: bool)
    ensures
        input == is_input(address),
{
    assert((address & 0x80 != 0) == (address >= 0x80)) by (bit_vector);
    address & 0x80 != 0
}

/// The direction of an endpoint, explained.
pub open spec fn direction_help_text(address: u8) -> Seq<char> {
    if is_input(address) {
        "IN: device to host."@
    } else {
        "OUT: host to device."@
    }
}

pub fn direction_help(address: u8) -> (help: &'static str)
    ensures
        help@ == direction_help_text(address),
{
    proof {
        reveal_strlit("IN: device to host.");
        reveal_strlit("OUT: host to device.");
    }
    if endpoint_is_input(address) {
        "IN: device to host."
    } else {
        "OUT: host to device."
    }
}

/// The short name of an endpoint: its number and direction.
pub open spec fn endpoint_label_text(number: u8, address: u8) -> Seq<char> {
    "EP "@ + decimal(number as nat) + if is_input(address) {
        " IN"@
    } else {
        " OUT"@
    }
}

pub fn endpoint_label(number: u8, address: u8) -> (label: String)
    ensures
        label@ == endpoint_label_text(number, address),
{
    proof {
        reveal_strlit("EP ");
        reveal_strlit(" IN");
        reveal_strlit(" OUT");
    }
    let mut label = owned("EP ");
    push_decimal(&mut label, number as u64);
    if endpoint_is_input(address) {
        push_str(&mut label, " IN");
    } else {
        push_str(&mut label, " OUT");
    }
    label
}

/// Only low- and full-speed interrupt endpoints give their interval as a
/// count of 1 ms frames. At high speed and above, interrupt and isochronous
/// endpoints alike give an exponent of 125 µs microframes, and full-speed
/// isochronous endpoints an exponent of 1 ms frames; control and bulk
/// endpoints are not periodic.
pub proof fn law_interval_units(speed: Speed, raw: u8)
    ensures
        (speed is HighSpeed || speed is HighBandwidth || speed is SuperSpeed || speed is SuperSpeedPlus
            || speed is SuperSpeedPlusX2 || speed is Usb40Gbps || speed is Usb80Gbps) && 1 <= raw <= 16 ==> {
            &&& interval_text(TransferType::Interrupt, Some(speed), raw) == interval_text(
                TransferType::Isochronous,
                Some(speed),
                raw,
            )
            &&& interval_text(TransferType::Interrupt, Some(speed), raw) == duration_text(
                125 * pow2((raw - 1) as nat),
            )
        },
        (speed is LowSpeed || speed is FullSpeed) && raw >= 1 ==> interval_text(
            TransferType::Interrupt,
            Some(speed),
            raw,
        ) == decimal(raw as nat) + " ms"@,
        speed is FullSpeed && 1 <= raw <= 16 ==> interval_text(TransferType::Isochronous, Some(speed), raw)
            == duration_text(1000 * pow2((raw - 1) as nat)),
        interval_text(TransferType::Control, Some(speed), raw) == "Not periodic"@,
        interval_text(TransferType::Bulk, Some(speed), raw) == "Not periodic"@,
        (speed is LowSpeed || speed is FullSpeed) && raw == 0 ==> interval_text(
            TransferType::Interrupt,
            Some(speed),
            raw,
        ) == "Invalid interval"@,
        !(speed is LowSpeed || speed is Unknown) && !(1 <= raw <= 16) ==> interval_text(
            TransferType::Isochronous,
            Some(speed),
            raw,
        ) == "Invalid interval"@,
        interval_text(TransferType::Isochronous, Some(Speed::LowSpeed), raw) == "Timing unavailable"@,
        interval_text(TransferType::Isochronous, Some(Speed::Unknown), raw) == "Timing unavailable"@,
        interval_text(TransferType::Interrupt, None, raw) == "Timing unavailable"@,
{
}

/// A duration is shown in whole milliseconds when it is a whole number of
/// them, and in microseconds otherwise.
pub proof fn law_duration_units(micros: nat)
    ensures
        micros % 1000 == 0 ==> duration_text(micros) == decimal(micros / 1000) + " ms"@,
        micros % 1000 != 0 ==> duration_text(micros) == decimal(micros) + " µs"@,
{
}

} // verus!
