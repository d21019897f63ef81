//! The device inventory: identities, the flattened device tree, search, and
//! the values shown for a device.
use crate::descriptors::owned;
use crate::text::{
    hex_digits, lemma_hex_digits_injective, lemma_hex_digits_shape, lemma_pow2_monotone,
    pow16, pow2, power_of_two, push_decimal, push_hex, push_str,
};
use crate::text::{
    contains, decimal, lowercase, occurs_in, push_decimal as push_number, str_eq, to_lowercase, trim,
    trimmed,
};
use crate::usb::{
    bus_devices, children, lemma_port_path_chars, opt_view, port_path_text, text_or_empty, Bus,
    Configuration, Device, Interface, Speed, SystemProfile,
};
use vstd::prelude::*;

verus! {

/// The identity of a device: its port path, vendor and product id in
/// four lower-case hex digits (zero when unknown) and its serial number,
/// separated by colons. The device address is left out because it changes
/// on re-enumeration; physical ports generally do not.
pub open spec fn key_text(d: Device) -> Seq<char> {
    port_path_text(d.location_id.bus, d.location_id.tree_positions@) + ":"@ + hex_digits(
        d.vendor_id.unwrap_or(0) as nat,
        4,
        false,
    ) + ":"@ + hex_digits(d.product_id.unwrap_or(0) as nat, 4, false) + ":"@ + text_or_empty(
        d.serial_num,
    )
}

pub fn device_key(device: &Device) -> (key: String)
    ensures
        key@ == key_text(*device),
{
    proof {
        reveal_strlit(":");
    }
    let mut key = device.port_path();
    push_str(&mut key, ":");
    push_hex(&mut key, device.vendor_id.unwrap_or(0) as u64, 4, false);
    push_str(&mut key, ":");
    push_hex(&mut key, device.product_id.unwrap_or(0) as u64, 4, false);
    push_str(&mut key, ":");
    match &device.serial_num {
        Some(serial) => push_str(&mut key, serial.as_str()),
        None => {},
    }
    key
}

/// A device keeps its identity when only its address changes.
pub proof fn law_identity_ignores_address(a: Device, b: Device)
    requires
        a.location_id.bus == b.location_id.bus,
        a.location_id.tree_positions@ == b.location_id.tree_positions@,
        a.vendor_id.unwrap_or(0) == b.vendor_id.unwrap_or(0),
        a.product_id.unwrap_or(0) == b.product_id.unwrap_or(0),
        text_or_empty(a.serial_num) == text_or_empty(b.serial_num),
    ensures
        key_text(a) == key_text(b),
{
}

/// Two devices share an identity only if they sit at the same port and
/// report the same vendor id, product id and serial number: replacing a
/// device by another product at the same port changes the identity.
pub proof fn law_identity_distinguishes_devices(a: Device, b: Device)
    requires
        key_text(a) == key_text(b),
    ensures
        port_path_text(a.location_id.bus, a.location_id.tree_positions@) == port_path_text(
            b.location_id.bus,
            b.location_id.tree_positions@,
        ),
        a.vendor_id.unwrap_or(0) == b.vendor_id.unwrap_or(0),
        a.product_id.unwrap_or(0) == b.product_id.unwrap_or(0),
        text_or_empty(a.serial_num) == text_or_empty(b.serial_num),
{
    let pa = port_path_text(a.location_id.bus, a.location_id.tree_positions@);
    let pb = port_path_text(b.location_id.bus, b.location_id.tree_positions@);
    let ra = key_rest(a);
    let rb = key_rest(b);
    lemma_key_parts(a);
    lemma_key_parts(b);
    lemma_split_at_colon(pa, ra, pb, rb);
    lemma_rest_parts(a, b);
}

/// The part of a key after the port path and its colon.
spec fn key_rest(d: Device) -> Seq<char> {
    hex_digits(d.vendor_id.unwrap_or(0) as nat, 4, false) + seq![':'] + hex_digits(
        d.product_id.unwrap_or(0) as nat,
        4,
        false,
    ) + seq![':'] + text_or_empty(d.serial_num)
}

proof fn lemma_key_parts(d: Device)
    ensures
        key_text(d) == port_path_text(d.location_id.bus, d.location_id.tree_positions@) + seq![':']
            + key_rest(d),
        forall|i: int|
            0 <= i < port_path_text(d.location_id.bus, d.location_id.tree_positions@).len()
                ==> port_path_text(d.location_id.bus, d.location_id.tree_positions@)[i] != ':',
{
    reveal_strlit(":");
    let p = port_path_text(d.location_id.bus, d.location_id.tree_positions@);
    lemma_port_path_chars(d.location_id.bus, d.location_id.tree_positions@);
    assert forall|i: int| 0 <= i < p.len() implies p[i] != ':' by {
        let c = p[i];
        assert((48 <= c as int <= 57) || c == '-' || c == '.');
    }
    assert(key_text(d) =~= p + seq![':'] + key_rest(d));
}

proof fn lemma_rest_parts(a: Device, b: Device)
    requires
        key_rest(a) == key_rest(b),
    ensures
        a.vendor_id.unwrap_or(0) == b.vendor_id.unwrap_or(0),
        a.product_id.unwrap_or(0) == b.product_id.unwrap_or(0),
        text_or_empty(a.serial_num) == text_or_empty(b.serial_num),
{
    let va = hex_digits(a.vendor_id.unwrap_or(0) as nat, 4, false);
    let vb = hex_digits(b.vendor_id.unwrap_or(0) as nat, 4, false);
    let da = hex_digits(a.product_id.unwrap_or(0) as nat, 4, false);
    let db = hex_digits(b.product_id.unwrap_or(0) as nat, 4, false);
    lemma_hex_digits_shape(a.vendor_id.unwrap_or(0) as nat, 4, false);
    lemma_hex_digits_shape(b.vendor_id.unwrap_or(0) as nat, 4, false);
    lemma_hex_digits_shape(a.product_id.unwrap_or(0) as nat, 4, false);
    lemma_hex_digits_shape(b.product_id.unwrap_or(0) as nat, 4, false);
    lemma_fixed_parts(va, da, text_or_empty(a.serial_num), vb, db, text_or_empty(b.serial_num));
    lemma_hex_digits_injective(a.vendor_id.unwrap_or(0) as nat, b.vendor_id.unwrap_or(0) as nat, 4, false);
    lemma_hex_digits_injective(a.product_id.unwrap_or(0) as nat, b.product_id.unwrap_or(0) as nat, 4, false);
    assert(pow16(4) == 65536) by {
        reveal_with_fuel(pow16, 5);
    }
}

/// Text before the first colon, and text after it, are determined by the whole.
proof fn lemma_split_at_colon(p1: Seq<char>, r1: Seq<char>, p2: Seq<char>, r2: Seq<char>)
    requires
        p1 + seq![':'] + r1 == p2 + seq![':'] + r2,
        forall|i: int| 0 <= i < p1.len() ==> p1[i] != ':',
        forall|i: int| 0 <= i < p2.len() ==> p2[i] != ':',
    ensures
        p1 == p2,
        r1 == r2,
{
    let k = p1 + seq![':'] + r1;
    let k2 = p2 + seq![':'] + r2;
    assert(k[p1.len() as int] == ':');
    assert(k2[p2.len() as int] == ':');
    if p1.len() < p2.len() {
        assert(k2[p1.len() as int] == p2[p1.len() as int]);
        assert(false);
    }
    if p2.len() < p1.len() {
        assert(k[p2.len() as int] == p1[p2.len() as int]);
        assert(false);
    }
    assert(p1 =~= k.subrange(0, p1.len() as int));
    assert(p2 =~= k2.subrange(0, p2.len() as int));
    assert(r1 =~= k.subrange(p1.len() as int + 1, k.len() as int));
    assert(r2 =~= k2.subrange(p2.len() as int + 1, k2.len() as int));
}

/// Fields of fixed width separated by colons are determined by the whole.
proof fn lemma_fixed_parts(
    v1: Seq<char>,
    d1: Seq<char>,
    s1: Seq<char>,
    v2: Seq<char>,
    d2: Seq<char>,
    s2: Seq<char>,
)
    requires
        v1.len() == 4,
        d1.len() == 4,
        v2.len() == 4,
        d2.len() == 4,
        v1 + seq![':'] + d1 + seq![':'] + s1 == v2 + seq![':'] + d2 + seq![':'] + s2,
    ensures
        v1 == v2,
        d1 == d2,
        s1 == s2,
{
    let k1 = v1 + seq![':'] + d1 + seq![':'] + s1;
    let k2 = v2 + seq![':'] + d2 + seq![':'] + s2;
    assert(v1 =~= k1.subrange(0, 4));
    assert(v2 =~= k2.subrange(0, 4));
    assert(d1 =~= k1.subrange(5, 9));
    assert(d2 =~= k2.subrange(5, 9));
    assert(s1 =~= k1.subrange(10, k1.len() as int));
    assert(s2 =~= k2.subrange(10, k2.len() as int));
}

/// An optional 16-bit id in four upper-case hex digits, or `Unknown`.
pub open spec fn hex16_text(value: Option<u16>) -> Seq<char> {
    match value {
        Some(v) => hex_digits(v as nat, 4, true),
        None => "Unknown"@,
    }
}

pub fn hex16(value: Option<u16>) -> (text: String)
    ensures
        text@ == hex16_text(value),
{
    proof {
        reveal_strlit("Unknown");
    }
    match value {
        Some(v) => {
            let mut text = String::new();
            push_hex(&mut text, v as u64, 4, true);
            text
        },
        None => owned("Unknown"),
    }
}

/// Vendor and product id of a device, as `VVVV : PPPP`.
pub open spec fn ids_text(d: Device) -> Seq<char> {
    hex16_text(d.vendor_id) + " : "@ + hex16_text(d.product_id)
}

pub fn ids(device: &Device) -> (text: String)
    ensures
        text@ == ids_text(*device),
{
    proof {
        reveal_strlit(" : ");
    }
    let mut text = hex16(device.vendor_id);
    push_str(&mut text, " : ");
    let product = hex16(device.product_id);
    push_str(&mut text, product.as_str());
    text
}

/// A coded descriptor value with its assigned name, as `Name · 0xVV`;
/// `Unassigned` when the code has no name, `Unavailable` without a code.
pub open spec fn decoded_text(value: Option<u8>, name: Option<Seq<char>>) -> Seq<char> {
    match value {
        Some(v) => name.unwrap_or("Unassigned"@) + " · 0x"@ + hex_digits(v as nat, 2, true),
        None => "Unavailable"@,
    }
}

pub fn decoded(value: Option<u8>, name: Option<&str>) -> (text: String)
    ensures
        text@ == decoded_text(
            value,
            match name {
                Some(n) => Some(n@),
                None => None,
            },
        ),
{
    proof {
        reveal_strlit("Unavailable");
        reveal_strlit("Unassigned");
        reveal_strlit(" · 0x");
    }
    match value {
        None => owned("Unavailable"),
        Some(v) => {
            let mut text = match name {
                Some(n) => owned(n),
                None => owned("Unassigned"),
            };
            push_str(&mut text, " · 0x");
            push_hex(&mut text, v as u64, 2, true);
            text
        },
    }
}

/// The name that the USB ID repository, as bundled with cyme, gives a base
/// class code; depends on the code alone.
pub uninterp spec fn usb_class_name(code: u8) -> Option<Seq<char>>;

/// cyme `Device::class_name` for a device of the given base class: the name
/// of the class in the USB ID repository, if it has one. The repository
/// tables are not restated; the result is named.
#[verifier::external_body]
fn class_name(code: u8) -> (name: Option<String>)
    ensures
        opt_view(name) == usb_class_name(code),
{
    let device = cyme::profiler::Device { class: Some(cyme::usb::BaseClass::from(code)), ..Default::default() };
    device.class_name().map(|name| name.to_string())
}

/// The name that the USB ID repository, as bundled with cyme, gives a
/// subclass of a base class; depends on the two codes alone.
pub uninterp spec fn usb_subclass_name(class: u8, sub_class: u8) -> Option<Seq<char>>;

/// cyme `Device::sub_class_name` for a device of the given base class and
/// subclass: the name of the subclass in the USB ID repository, if it has
/// one. The repository tables are not restated; the result is named.
#[verifier::external_body]
fn subclass_name(class: u8, sub_class: u8) -> (name: Option<String>)
    ensures
        opt_view(name) == usb_subclass_name(class, sub_class),
{
    let device = cyme::profiler::Device {
        class: Some(cyme::usb::BaseClass::from(class)),
        sub_class: Some(sub_class),
        ..Default::default()
    };
    device.sub_class_name().map(|name| name.to_string())
}

/// The title of an interface: its subclass name when the subclass is not 0
/// and has one, else its class name, else "Vendor specific".
pub open spec fn interface_title_of(
    sub_class: u8,
    subclass_name: Option<Seq<char>>,
    class_name: Option<Seq<char>>,
) -> Seq<char> {
    if sub_class != 0 && subclass_name is Some {
        subclass_name.unwrap()
    } else if class_name is Some {
        class_name.unwrap()
    } else {
        "Vendor specific"@
    }
}

/// The title of an interface, given the repository's names for its subclass
/// and class.
pub fn title_text(sub_class: u8, subclass_name: Option<String>, class_name: Option<String>) -> (text: String)
    ensures
        text@ == interface_title_of(sub_class, opt_view(subclass_name), opt_view(class_name)),
{
    proof {
        reveal_strlit("Vendor specific");
    }
    match subclass_name {
        Some(n) if sub_class != 0 => n,
        _ => match class_name {
            Some(n) => n,
            None => owned("Vendor specific"),
        },
    }
}

/// The title of an interface with the given class and subclass codes.
pub fn interface_title(class: u8, sub_class: u8) -> (text: String)
    ensures
        text@ == interface_title_of(sub_class, usb_subclass_name(class, sub_class), usb_class_name(class)),
{
    title_text(sub_class, subclass_name(class, sub_class), class_name(class))
}

/// The line under an interface's title: its number and its class name.
pub open spec fn interface_caption_of(number: u8, class_name: Option<Seq<char>>) -> Seq<char> {
    "Interface "@ + decimal(number as nat) + " · "@ + match class_name {
        Some(n) => n,
        None => "Unassigned class"@,
    }
}

/// The line under an interface's title, given the repository's name for its
/// class.
pub fn caption_text(number: u8, class_name: Option<String>) -> (text: String)
    ensures
        text@ == interface_caption_of(number, opt_view(class_name)),
{
    proof {
        reveal_strlit("Interface ");
        reveal_strlit(" · ");
        reveal_strlit("Unassigned class");
    }
    let mut text = owned("Interface ");
    push_decimal(&mut text, number as u64);
    push_str(&mut text, " · ");
    match class_name {
        Some(n) => push_str(&mut text, n.as_str()),
        None => push_str(&mut text, "Unassigned class"),
    }
    text
}

/// The line under the title of an interface with the given number and class.
pub fn interface_caption(number: u8, class: u8) -> (text: String)
    ensures
        text@ == interface_caption_of(number, usb_class_name(class)),
{
    caption_text(number, class_name(class))
}

/// The class shown for a base class code, given the name that the USB ID
/// repository has for it.
pub open spec fn class_text_of(code: Option<u8>, repository_name: Option<Seq<char>>) -> Seq<char> {
    match code {
        Some(0) => "Composite / per interface"@,
        Some(255) => "Vendor specific"@,
        Some(_) => match repository_name {
            Some(n) => n,
            None => "USB device"@,
        },
        None => "USB device"@,
    }
}

/// The class shown for a device.
pub open spec fn device_class_text(d: Device) -> Seq<char> {
    class_text_of(
        d.class,
        match d.class {
            Some(c) => usb_class_name(c),
            None => None,
        },
    )
}

/// The class shown for a base class code, given the name that the USB ID
/// repository has for it.
pub fn class_text(code: Option<u8>, repository_name: Option<String>) -> (text: String)
    ensures
        text@ == class_text_of(code, opt_view(repository_name)),
{
    proof {
        reveal_strlit("Composite / per interface");
        reveal_strlit("Vendor specific");
        reveal_strlit("USB device");
    }
    match code {
        Some(0) => owned("Composite / per interface"),
        Some(0xff) => owned("Vendor specific"),
        Some(_) => match repository_name {
            Some(n) => n,
            None => owned("USB device"),
        },
        None => owned("USB device"),
    }
}

pub fn device_class(device: &Device) -> (text: String)
    ensures
        text@ == device_class_text(*device),
{
    let code = device.base_class_code();
    let name = match code {
        Some(c) => class_name(c),
        None => None,
    };
    class_text(code, name)
}

/// The signalling rate of a negotiated speed.
pub open spec fn speed_text(speed: Option<Speed>) -> Seq<char> {
    match speed {
        Some(Speed::LowSpeed) => "1.5 Mb/s"@,
        Some(Speed::FullSpeed) => "12 Mb/s"@,
        Some(Speed::HighSpeed) | Some(Speed::HighBandwidth) => "480 Mb/s"@,
        Some(Speed::SuperSpeed) => "5 Gb/s"@,
        Some(Speed::SuperSpeedPlus) => "10 Gb/s"@,
        Some(Speed::SuperSpeedPlusX2) => "20 Gb/s"@,
        Some(Speed::Usb40Gbps) => "40 Gb/s"@,
        Some(Speed::Usb80Gbps) => "80 Gb/s"@,
        _ => "Unavailable"@,
    }
}

/// A known speed is shown as its nominal signalling rate, and only an
/// unknown or unavailable speed as "Unavailable"; high speed and high
/// bandwidth share the 480 Mb/s rate.
pub proof fn law_speed_names_the_signalling_rate(s: Speed)
    ensures
        (speed_text(Some(s)) == "Unavailable"@) <==> s is Unknown,
        speed_text(None) == "Unavailable"@,
        s is LowSpeed ==> speed_text(Some(s)) == "1.5 Mb/s"@,
        s is FullSpeed ==> speed_text(Some(s)) == "12 Mb/s"@,
        s is HighSpeed ==> speed_text(Some(s)) == "480 Mb/s"@,
        s is HighBandwidth ==> speed_text(Some(s)) == "480 Mb/s"@,
        s is SuperSpeed ==> speed_text(Some(s)) == "5 Gb/s"@,
        s is SuperSpeedPlus ==> speed_text(Some(s)) == "10 Gb/s"@,
        s is SuperSpeedPlusX2 ==> speed_text(Some(s)) == "20 Gb/s"@,
        s is Usb40Gbps ==> speed_text(Some(s)) == "40 Gb/s"@,
        s is Usb80Gbps ==> speed_text(Some(s)) == "80 Gb/s"@,
{
    reveal_strlit("Unavailable");
    reveal_strlit("1.5 Mb/s");
    reveal_strlit("12 Mb/s");
    reveal_strlit("480 Mb/s");
    reveal_strlit("5 Gb/s");
    reveal_strlit("10 Gb/s");
    reveal_strlit("20 Gb/s");
    reveal_strlit("40 Gb/s");
    reveal_strlit("80 Gb/s");
    assert("Unavailable"@.len() == 11);
    assert("1.5 Mb/s"@.len() == 8);
    assert("12 Mb/s"@.len() == 7);
    assert("480 Mb/s"@.len() == 8);
    assert("5 Gb/s"@.len() == 6);
    assert("10 Gb/s"@.len() == 7);
    assert("20 Gb/s"@.len() == 7);
    assert("40 Gb/s"@.len() == 7);
    assert("80 Gb/s"@.len() == 7);
}

/// The negotiated speed of a device, if its descriptors could be read.
pub open spec fn negotiated_speed(d: Device) -> Option<Speed> {
    match d.extra {
        Some(e) => e.negotiated_speed,
        None => None,
    }
}

pub fn speed(device: &Device) -> (text: String)
    ensures
        text@ == speed_text(negotiated_speed(*device)),
{
    proof {
        reveal_strlit("1.5 Mb/s");
        reveal_strlit("12 Mb/s");
        reveal_strlit("480 Mb/s");
        reveal_strlit("5 Gb/s");
        reveal_strlit("10 Gb/s");
        reveal_strlit("20 Gb/s");
        reveal_strlit("40 Gb/s");
        reveal_strlit("80 Gb/s");
        reveal_strlit("Unavailable");
    }
    let negotiated = match &device.extra {
        Some(extra) => extra.negotiated_speed,
        None => None,
    };
    let text = match negotiated {
        Some(Speed::LowSpeed) => "1.5 Mb/s",
        Some(Speed::FullSpeed) => "12 Mb/s",
        Some(Speed::HighSpeed) | Some(Speed::HighBandwidth) => "480 Mb/s",
        Some(Speed::SuperSpeed) => "5 Gb/s",
        Some(Speed::SuperSpeedPlus) => "10 Gb/s",
        Some(Speed::SuperSpeedPlusX2) => "20 Gb/s",
        Some(Speed::Usb40Gbps) => "40 Gb/s",
        Some(Speed::Usb80Gbps) => "80 Gb/s",
        _ => "Unavailable",
    };
    owned(text)
}

/// The maximum packet size of endpoint zero. From USB 3.0 on the descriptor
/// holds an exponent of two; before, the size itself; without a version the
/// raw byte is shown.
pub open spec fn control_packet_size_text(d: Device) -> Seq<char> {
    match d.extra {
        None => "Unavailable"@,
        Some(extra) => if extra.max_packet_size == 0 {
            "Unavailable"@
        } else {
            match d.bcd_usb {
                Some(version) => if version.0 >= 3 {
                    if extra.max_packet_size < 32 {
                        decimal(pow2(extra.max_packet_size as nat)) + " bytes"@
                    } else {
                        "Invalid descriptor"@
                    }
                } else {
                    decimal(extra.max_packet_size as nat) + " bytes"@
                },
                None => "0x"@ + hex_digits(extra.max_packet_size as nat, 2, true) + " (raw)"@,
            }
        },
    }
}

/// bMaxPacketSize0 is a byte count before USB 3.0 and a power-of-two
/// exponent from USB 3.0 on (an exponent too large for a packet is an
/// invalid descriptor); without a version it is shown raw, and a zero size
/// or a device whose descriptors could not be read shows "Unavailable".
pub proof fn law_control_packet_size_by_version(d: Device)
    ensures
        d.extra is None ==> control_packet_size_text(d) == "Unavailable"@,
        d.extra is Some && d.extra.unwrap().max_packet_size == 0 ==> control_packet_size_text(d) == "Unavailable"@,
        d.extra is Some && d.extra.unwrap().max_packet_size != 0 && d.bcd_usb is Some && d.bcd_usb.unwrap().0 < 3
            ==> control_packet_size_text(d) == decimal(d.extra.unwrap().max_packet_size as nat) + " bytes"@,
        d.extra is Some && d.extra.unwrap().max_packet_size != 0 && d.extra.unwrap().max_packet_size < 32
            && d.bcd_usb is Some && d.bcd_usb.unwrap().0 >= 3 ==> control_packet_size_text(d) == decimal(
            pow2(d.extra.unwrap().max_packet_size as nat),
        ) + " bytes"@,
        d.extra is Some && d.extra.unwrap().max_packet_size >= 32 && d.bcd_usb is Some && d.bcd_usb.unwrap().0 >= 3
            ==> control_packet_size_text(d) == "Invalid descriptor"@,
        d.extra is Some && d.extra.unwrap().max_packet_size != 0 && d.bcd_usb is None ==> control_packet_size_text(d)
            == "0x"@ + hex_digits(d.extra.unwrap().max_packet_size as nat, 2, true) + " (raw)"@,
{
}

pub fn control_packet_size(device: &Device) -> (text: String)
    ensures
        text@ == control_packet_size_text(*device),
{
    proof {
        reveal_strlit("Unavailable");
        reveal_strlit(" bytes");
        reveal_strlit("Invalid descriptor");
        reveal_strlit("0x");
        reveal_strlit(" (raw)");
    }
    let extra = match &device.extra {
        Some(extra) => extra,
        None => {
            return owned("Unavailable");
        },
    };
    if extra.max_packet_size == 0 {
        return owned("Unavailable");
    }
    let size = extra.max_packet_size;
    match device.bcd_usb {
        Some(version) => {
            let bytes: Option<u64> = if version.0 >= 3 {
                if size < 32 {
                    Some(power_of_two(size))
                } else {
                    None
                }
            } else {
                Some(size as u64)
            };
            match bytes {
                Some(n) => {
                    let mut text = String::new();
                    push_decimal(&mut text, n);
                    push_str(&mut text, " bytes");
                    text
                },
                None => owned("Invalid descriptor"),
            }
        },
        None => {
            let mut text = owned("0x");
            push_hex(&mut text, size as u64, 2, true);
            push_str(&mut text, " (raw)");
            text
        },
    }
}

} // verus!

verus! {

/// A row of the flattened device tree, as plain values.
pub struct RowView {
    pub key: Seq<char>,
    pub parent: Option<Seq<char>>,
    pub bus: Seq<char>,
    pub bus_key: Seq<char>,
    pub depth: nat,
    pub has_children: bool,
}

/// The rows of a list of sibling devices and of everything below them, in
/// depth-first order (each device before the devices attached to it), each
/// with the device it stands for.
pub open spec fn forest_rows(
    devs: Seq<Device>,
    bus: Seq<char>,
    bus_key: Seq<char>,
    depth: nat,
    parent: Option<Seq<char>>,
) -> Seq<(RowView, Device)>
    decreases devs,
{
    if devs.len() == 0 {
        Seq::empty()
    } else {
        forest_rows(devs.drop_last(), bus, bus_key, depth, parent) + device_rows(
            devs.last(),
            bus,
            bus_key,
            depth,
            parent,
        )
    }
}

/// The rows of one device and of everything below it.
pub open spec fn device_rows(
    d: Device,
    bus: Seq<char>,
    bus_key: Seq<char>,
    depth: nat,
    parent: Option<Seq<char>>,
) -> Seq<(RowView, Device)>
    decreases d,
{
    let row = RowView {
        key: key_text(d),
        parent,
        bus,
        bus_key,
        depth,
        has_children: children(d).len() > 0,
    };
    seq![(row, d)] + match d.devices {
        Some(v) => forest_rows(v@, bus, bus_key, depth + 1, Some(key_text(d))),
        None => Seq::empty(),
    }
}

} // verus!

verus! {

/// Every device below the list sits at a depth whose successor still fits
/// in a `usize`.
pub open spec fn forest_fits(devs: Seq<Device>, depth: nat) -> bool
    decreases devs,
{
    devs.len() == 0 || (forest_fits(devs.drop_last(), depth) && device_fits(devs.last(), depth))
}

pub open spec fn device_fits(d: Device, depth: nat) -> bool
    decreases d,
{
    depth < usize::MAX && match d.devices {
        Some(v) => forest_fits(v@, depth + 1),
        None => true,
    }
}

proof fn lemma_forest_fits_element(devs: Seq<Device>, depth: nat, i: int)
    requires
        forest_fits(devs, depth),
        0 <= i < devs.len(),
    ensures
        device_fits(devs[i], depth),
    decreases devs.len(),
{
    if i < devs.len() - 1 {
        lemma_forest_fits_element(devs.drop_last(), depth, i);
    }
}

/// A row of the flattened device tree.
#[derive(Debug)]
pub struct DeviceRow {
    pub key: String,
    pub parent: Option<String>,
    pub bus: String,
    pub bus_key: String,
    pub depth: usize,
    pub has_children: bool,
    /// A copy of the device, without the devices attached below it.
    pub device: Device,
}

impl DeviceRow {
    /// The row as plain values.
    pub open spec fn view_row(self) -> RowView {
        RowView {
            key: self.key@,
            parent: opt_view(self.parent),
            bus: self.bus@,
            bus_key: self.bus_key@,
            depth: self.depth as nat,
            has_children: self.has_children,
        }
    }

    /// Whether the row stands for the given row of the device tree.
    pub open spec fn matches(self, expected: (RowView, Device)) -> bool {
        &&& self.view_row() == expected.0
        &&& self.device.same_info(expected.1)
        &&& self.device.devices is None
    }
}

/// Whether `rows` extends `before` by rows that stand for `expected`.
pub open spec fn rows_extend(rows: Seq<DeviceRow>, before: Seq<DeviceRow>, expected: Seq<(RowView, Device)>) -> bool {
    &&& rows.len() == before.len() + expected.len()
    &&& forall|j: int| 0 <= j < before.len() ==> rows[j] == before[j]
    &&& forall|j: int| 0 <= j < expected.len() ==> (#[trigger] rows[before.len() + j]).matches(expected[j])
}

fn copy_key(key: &Option<String>) -> (c: Option<String>)
    ensures
        c == *key,
{
    match key {
        Some(k) => Some(k.clone()),
        None => None,
    }
}

fn walk(
    devices: &Vec<Device>,
    bus: &String,
    bus_key: &String,
    depth: usize,
    parent: &Option<String>,
    rows: &mut Vec<DeviceRow>,
)
    requires
        forest_fits(devices@, depth as nat),
    ensures
        rows_extend(
            final(rows)@,
            old(rows)@,
            forest_rows(devices@, bus@, bus_key@, depth as nat, opt_view(*parent)),
        ),
    decreases devices@,
{
    let ghost start = rows@;
    let n = devices.len();
    for i in 0..n
        invariant
            n == devices@.len(),
            forest_fits(devices@, depth as nat),
            rows_extend(
                rows@,
                start,
                forest_rows(devices@.take(i as int), bus@, bus_key@, depth as nat, opt_view(*parent)),
            ),
    {
        let device = &devices[i];
        proof {
            lemma_forest_fits_element(devices@, depth as nat, i as int);
            assert(devices@.take(i + 1).drop_last() =~= devices@.take(i as int));
            assert(devices@.take(i + 1).last() == devices@[i as int]);
        }
        let key = device_key(device);
        let has_children = match &device.devices {
            Some(children) => children.len() > 0,
            None => false,
        };
        let ghost before = rows@;
        let ghost prefix = forest_rows(devices@.take(i as int), bus@, bus_key@, depth as nat, opt_view(*parent));
        rows.push(
            DeviceRow {
                key: key.clone(),
                parent: copy_key(parent),
                bus: bus.clone(),
                bus_key: bus_key.clone(),
                depth,
                has_children,
                device: device.detached(),
            },
        );
        let ghost mid = rows@;
        let child_parent = Some(key);
        match &device.devices {
            Some(children) => {
                proof {
                    assert(decreases_to!(devices@ => children@)) by {
                        assert(decreases_to!(devices@ => devices@[i as int]));
                    }
                }
                walk(children, bus, bus_key, depth + 1, &child_parent, rows);
            },
            None => {},
        }
        proof {
            let own = device_rows(*device, bus@, bus_key@, depth as nat, opt_view(*parent));
            let d = *device;
            let below = match d.devices {
                Some(v) => forest_rows(v@, bus@, bus_key@, depth as nat + 1, Some(key_text(d))),
                None => Seq::empty(),
            };
            assert(own == seq![own[0]] + below);
            assert(forest_rows(devices@.take(i + 1), bus@, bus_key@, depth as nat, opt_view(*parent))
                == prefix + own);
            assert forall|j: int| 0 <= j < (prefix + own).len() implies (#[trigger] rows@[start.len() + j]).matches(
                (prefix + own)[j],
            ) by {
                if j < prefix.len() {
                    assert(rows@[start.len() + j] == before[start.len() + j]);
                } else if j == prefix.len() {
                    assert(rows@[start.len() + j] == mid[start.len() + j]);
                } else {
                    assert(rows@[mid.len() + (j - prefix.len() - 1)].matches(below[j - prefix.len() - 1]));
                }
            }
        }
    }
    proof {
        assert(devices@.take(n as int) =~= devices@);
    }
}

/// Whether every device of the list, and every device below them, sits at a
/// depth whose successor fits in a `usize`.
fn forest_fits_check(devices: &Vec<Device>, depth: usize) -> (ok: bool)
    ensures
        ok == forest_fits(devices@, depth as nat),
    decreases devices@,
{
    let n = devices.len();
    for i in 0..n
        invariant
            n == devices@.len(),
            forest_fits(devices@.take(i as int), depth as nat),
    {
        proof {
            assert(devices@.take(i + 1).drop_last() =~= devices@.take(i as int));
            assert(devices@.take(i + 1).last() == devices@[i as int]);
        }
        if depth == usize::MAX {
            proof {
                if forest_fits(devices@, depth as nat) {
                    lemma_forest_fits_element(devices@, depth as nat, i as int);
                }
            }
            return false;
        }
        match &devices[i].devices {
            Some(children) => {
                proof {
                    assert(decreases_to!(devices@ => children@)) by {
                        assert(decreases_to!(devices@ => devices@[i as int]));
                    }
                }
                if !forest_fits_check(children, depth + 1) {
                    proof {
                        if forest_fits(devices@, depth as nat) {
                            lemma_forest_fits_element(devices@, depth as nat, i as int);
                        }
                    }
                    return false;
                }
            },
            None => {},
        }
        proof {
            assert(device_fits(devices@[i as int], depth as nat));
            assert(forest_fits(devices@.take(i + 1), depth as nat));
        }
    }
    proof {
        assert(devices@.take(n as int) =~= devices@);
    }
    true
}

} // verus!

verus! {

/// A saved or captured view of all USB buses.
#[derive(Debug)]
pub struct Snapshot {
    pub schema_version: u32,
    /// Seconds since the Unix epoch when the profile was taken.
    pub captured_at: u64,
    pub profile: SystemProfile,
    /// Device identity and why some of its descriptors could not be read,
    /// in depth-first device order; for an identity that occurs more than
    /// once, the last entry holds.
    pub read_errors: Vec<(String, String)>,
}

/// The number of a bus: its USB bus number, or its position when it has none.
pub open spec fn bus_number_text(b: Bus, index: nat) -> Seq<char> {
    match b.usb_bus_number {
        Some(n) => decimal(n as nat),
        None => decimal(index),
    }
}

/// The label of a bus: its name, or `USB bus {number}` when the name is blank.
pub open spec fn bus_label(b: Bus, index: nat) -> Seq<char> {
    if trimmed(b.name@).len() == 0 {
        "USB bus "@ + bus_number_text(b, index)
    } else {
        b.name@
    }
}

/// The key of a bus: `bus-{number}`.
pub open spec fn bus_key_text(b: Bus, index: nat) -> Seq<char> {
    "bus-"@ + bus_number_text(b, index)
}

/// The rows of all buses, bus by bus in order.
pub open spec fn profile_rows(buses: Seq<Bus>) -> Seq<(RowView, Device)>
    decreases buses.len(),
{
    if buses.len() == 0 {
        Seq::empty()
    } else {
        let index = (buses.len() - 1) as nat;
        let b = buses.last();
        profile_rows(buses.drop_last()) + forest_rows(
            bus_devices(b),
            bus_label(b, index),
            bus_key_text(b, index),
            0,
            None,
        )
    }
}

/// Every device of every bus sits at a depth whose successor fits in a `usize`.
pub open spec fn profile_fits(buses: Seq<Bus>) -> bool {
    forall|i: int| 0 <= i < buses.len() ==> forest_fits(bus_devices(#[trigger] buses[i]), 0)
}

impl Snapshot {
    /// The device tree flattened into rows: bus by bus, each device before
    /// the devices attached to it, with its identity, its parent's identity
    /// and its depth below the bus.
    /// Whether the device tree is shallow enough for `rows`.
    pub fn rows_fit(&self) -> (ok: bool)
        ensures
            ok == profile_fits(self.profile.buses@),
    {
        let buses = &self.profile.buses;
        let n = buses.len();
        for index in 0..n
            invariant
                n == buses@.len(),
                buses@ == self.profile.buses@,
                forall|j: int| 0 <= j < index ==> forest_fits(bus_devices(#[trigger] buses@[j]), 0),
        {
            let bus_fits = match &buses[index].devices {
                Some(devices) => forest_fits_check(devices, 0),
                None => true,
            };
            proof {
                assert(bus_fits == forest_fits(bus_devices(buses@[index as int]), 0));
            }
            if !bus_fits {
                return false;
            }
        }
        true
    }

    pub fn rows(&self) -> (rows: Vec<DeviceRow>)
        requires
            profile_fits(self.profile.buses@),
        ensures
            rows_extend(rows@, Seq::empty(), profile_rows(self.profile.buses@)),
    {
        proof {
            reveal_strlit("USB bus ");
            reveal_strlit("bus-");
        }
        let mut rows: Vec<DeviceRow> = Vec::new();
        let buses = &self.profile.buses;
        let n = buses.len();
        let no_parent: Option<String> = None;
        for index in 0..n
            invariant
                n == buses@.len(),
                profile_fits(buses@),
                no_parent is None,
                rows_extend(rows@, Seq::empty(), profile_rows(buses@.take(index as int))),
        {
            let bus = &buses[index];
            let mut number = String::new();
            match bus.usb_bus_number {
                Some(b) => push_number(&mut number, b as u64),
                None => push_number(&mut number, index as u64),
            }
            let label = if trim(bus.name.as_str()).unicode_len() == 0 {
                let mut label = owned("USB bus ");
                push_str(&mut label, number.as_str());
                label
            } else {
                bus.name.clone()
            };
            let mut bus_key = owned("bus-");
            push_str(&mut bus_key, number.as_str());
            let ghost before = rows@;
            let empty: Vec<Device> = Vec::new();
            let devices = match &bus.devices {
                Some(devices) => devices,
                None => &empty,
            };
            proof {
                assert(devices@ == bus_devices(*bus));
                assert(forest_fits(bus_devices(buses@[index as int]), 0));
            }
            walk(devices, &label, &bus_key, 0, &no_parent, &mut rows);
            proof {
                let prefix = profile_rows(buses@.take(index as int));
                let own = forest_rows(bus_devices(*bus), label@, bus_key@, 0, None);
                assert(buses@.take(index + 1).drop_last() =~= buses@.take(index as int));
                assert(buses@.take(index + 1).last() == *bus);
                assert(profile_rows(buses@.take(index + 1)) == prefix + own);
                assert forall|j: int| 0 <= j < (prefix + own).len() implies (#[trigger] rows@[0 + j]).matches(
                    (prefix + own)[j],
                ) by {
                    if j < prefix.len() {
                        assert(rows@[j] == before[j]);
                        assert(before[0 + j].matches(prefix[j]));
                    } else {
                        assert(rows@[before.len() + (j - prefix.len())].matches(own[j - prefix.len()]));
                    }
                }
            }
        }
        proof {
            assert(buses@.take(n as int) =~= buses@);
        }
        rows
    }
}

} // verus!

verus! {

/// The read errors of a list of sibling devices and of everything below
/// them, in depth-first order, each with the identity of its device.
pub open spec fn forest_errors(devs: Seq<Device>) -> Seq<(Seq<char>, Seq<char>)>
    decreases devs,
{
    if devs.len() == 0 {
        Seq::empty()
    } else {
        forest_errors(devs.drop_last()) + device_errors(devs.last())
    }
}

pub open spec fn device_errors(d: Device) -> Seq<(Seq<char>, Seq<char>)>
    decreases d,
{
    let own = match d.profiler_error {
        Some(e) => seq![(key_text(d), e@)],
        None => Seq::empty(),
    };
    let below = match d.devices {
        Some(v) => forest_errors(v@),
        None => Seq::empty(),
    };
    own + below
}

/// The read errors of all buses, bus by bus.
pub open spec fn profile_errors(buses: Seq<Bus>) -> Seq<(Seq<char>, Seq<char>)>
    decreases buses.len(),
{
    if buses.len() == 0 {
        Seq::empty()
    } else {
        profile_errors(buses.drop_last()) + forest_errors(bus_devices(buses.last()))
    }
}

/// Pairs of strings as plain values.
pub open spec fn entries_view(entries: Seq<(String, String)>) -> Seq<(Seq<char>, Seq<char>)> {
    entries.map_values(|e: (String, String)| (e.0@, e.1@))
}

/// The map that a list of entries describes: a later entry for the same
/// identity replaces an earlier one.
pub open spec fn error_map(entries: Seq<(Seq<char>, Seq<char>)>) -> Map<Seq<char>, Seq<char>>
    decreases entries.len(),
{
    if entries.len() == 0 {
        Map::empty()
    } else {
        error_map(entries.drop_last()).insert(entries.last().0, entries.last().1)
    }
}

fn collect_errors(devices: &Vec<Device>, out: &mut Vec<(String, String)>)
    ensures
        entries_view(final(out)@) == entries_view(old(out)@) + forest_errors(devices@),
    decreases devices@,
{
    let n = devices.len();
    for i in 0..n
        invariant
            n == devices@.len(),
            entries_view(out@) == entries_view(old(out)@) + forest_errors(devices@.take(i as int)),
    {
        let device = &devices[i];
        proof {
            assert(devices@.take(i + 1).drop_last() =~= devices@.take(i as int));
            assert(devices@.take(i + 1).last() == devices@[i as int]);
        }
        let ghost before = out@;
        match &device.profiler_error {
            Some(error) => {
                let key = device_key(device);
                out.push((key, error.clone()));
                proof {
                    assert(entries_view(out@) =~= entries_view(before) + seq![(key_text(*device), error@)]);
                }
            },
            None => {
                assert(entries_view(out@) =~= entries_view(before) + Seq::empty());
            },
        }
        let ghost mid = out@;
        match &device.devices {
            Some(children) => {
                proof {
                    assert(decreases_to!(devices@ => children@)) by {
                        assert(decreases_to!(devices@ => devices@[i as int]));
                    }
                }
                collect_errors(children, out);
            },
            None => {},
        }
        proof {
            let d = *device;
            let own = match d.profiler_error {
                Some(e) => seq![(key_text(d), e@)],
                None => Seq::empty(),
            };
            let below = match d.devices {
                Some(v) => forest_errors(v@),
                None => Seq::empty(),
            };
            assert(device_errors(d) == own + below);
            assert(entries_view(mid) =~= entries_view(before) + own);
            assert(entries_view(out@) =~= entries_view(old(out)@) + forest_errors(devices@.take(i + 1)));
        }
    }
    proof {
        assert(devices@.take(n as int) =~= devices@);
    }
}

impl Snapshot {
    /// A snapshot of a freshly captured profile, taken at `captured_at`
    /// (seconds since the Unix epoch), with the read error of every device
    /// that has one.
    pub fn from_profile(profile: SystemProfile, captured_at: u64) -> (snapshot: Snapshot)
        ensures
            snapshot.schema_version == 1,
            snapshot.captured_at == captured_at,
            snapshot.profile == profile,
            entries_view(snapshot.read_errors@) == profile_errors(profile.buses@),
    {
        let mut read_errors: Vec<(String, String)> = Vec::new();
        let n = profile.buses.len();
        for index in 0..n
            invariant
                n == profile.buses@.len(),
                entries_view(read_errors@) == profile_errors(profile.buses@.take(index as int)),
        {
            let bus = &profile.buses[index];
            match &bus.devices {
                Some(devices) => collect_errors(devices, &mut read_errors),
                None => {},
            }
            proof {
                assert(profile.buses@.take(index + 1).drop_last() =~= profile.buses@.take(index as int));
                assert(profile.buses@.take(index + 1).last() == *bus);
                assert(entries_view(read_errors@) =~= profile_errors(profile.buses@.take(index + 1)));
            }
        }
        proof {
            assert(profile.buses@.take(n as int) =~= profile.buses@);
        }
        Snapshot { schema_version: 1, captured_at, profile, read_errors }
    }

    /// The read error recorded for a device identity.
    pub fn read_error(&self, key: &str) -> (error: Option<&String>)
        ensures
            match error {
                Some(e) => error_map(entries_view(self.read_errors@)).contains_key(key@)
                    && error_map(entries_view(self.read_errors@))[key@] == e@,
                None => !error_map(entries_view(self.read_errors@)).contains_key(key@),
            },
    {
        let entries = &self.read_errors;
        let ghost view = entries_view(entries@);
        let mut i = entries.len();
        while i > 0
            invariant
                i <= entries@.len(),
                view == entries_view(entries@),
                view == entries_view(self.read_errors@),
                forall|k: int| i <= k < view.len() ==> (#[trigger] view[k]).0 != key@,
            decreases i,
        {
            let entry = &entries[i - 1];
            if str_eq(entry.0.as_str(), key) {
                proof {
                    assert(view[i - 1] == (entry.0@, entry.1@));
                    lemma_error_map_last(view, key@, i - 1);
                }
                return Some(&entry.1);
            }
            assert(view[i - 1] == (entry.0@, entry.1@));
            i = i - 1;
        }
        proof {
            lemma_error_map_absent(view, key@);
        }
        None
    }
}

/// The value for an identity is that of its last entry.
proof fn lemma_error_map_last(s: Seq<(Seq<char>, Seq<char>)>, key: Seq<char>, j: int)
    requires
        0 <= j < s.len(),
        s[j].0 == key,
        forall|k: int| j < k < s.len() ==> (#[trigger] s[k]).0 != key,
    ensures
        error_map(s).contains_key(key),
        error_map(s)[key] == s[j].1,
    decreases s.len(),
{
    if j < s.len() - 1 {
        lemma_error_map_last(s.drop_last(), key, j);
        assert(s.last() == s[s.len() - 1]);
    }
}

/// An identity without entries has no value.
proof fn lemma_error_map_absent(s: Seq<(Seq<char>, Seq<char>)>, key: Seq<char>)
    requires
        forall|k: int| 0 <= k < s.len() ==> (#[trigger] s[k]).0 != key,
    ensures
        !error_map(s).contains_key(key),
    decreases s.len(),
{
    if s.len() > 0 {
        lemma_error_map_absent(s.drop_last(), key);
        assert(s.last() == s[s.len() - 1]);
    }
}

} // verus!

verus! {

/// Largest snapshot file that is read or written, in bytes.
pub const SNAPSHOT_LIMIT: u64 = 16 * 1024 * 1024;

/// Most devices that a snapshot may hold.
pub const DEVICE_LIMIT: usize = 10000;

/// Devices at this depth below their bus, or deeper, are refused in snapshots.
pub const DEPTH_LIMIT: usize = 32;

/// Why a snapshot was refused.
#[derive(Clone, Copy, Debug, PartialEq, Eq, Structural)]
pub enum SnapshotError {
    /// The file exceeds [`SNAPSHOT_LIMIT`].
    TooLarge,
    /// The file is not a snapshot document.
    NotASnapshot,
    /// The snapshot was written by a format version this library does not read.
    UnsupportedVersion(u32),
    /// A device sits too deep below its bus.
    TooDeep,
    /// The snapshot holds more than [`DEVICE_LIMIT`] devices.
    TooManyDevices,
    /// Two devices share an identity.
    DuplicateIdentity,
}

impl SnapshotError {
    /// The message shown for the error.
    pub fn message(&self) -> (text: String)
        ensures
            text@ == match *self {
                SnapshotError::TooLarge => "Snapshot exceeds 16 MB"@,
                SnapshotError::NotASnapshot => "Not a USBloom snapshot"@,
                SnapshotError::UnsupportedVersion(v) => "Unsupported snapshot version "@ + decimal(v as nat),
                SnapshotError::TooDeep => "Snapshot device tree is too deep"@,
                SnapshotError::TooManyDevices => "Snapshot contains too many devices"@,
                SnapshotError::DuplicateIdentity => "Snapshot contains duplicate device identities"@,
            },
    {
        proof {
            reveal_strlit("Snapshot exceeds 16 MB");
            reveal_strlit("Not a USBloom snapshot");
            reveal_strlit("Unsupported snapshot version ");
            reveal_strlit("Snapshot device tree is too deep");
            reveal_strlit("Snapshot contains too many devices");
            reveal_strlit("Snapshot contains duplicate device identities");
        }
        match self {
            SnapshotError::TooLarge => owned("Snapshot exceeds 16 MB"),
            SnapshotError::NotASnapshot => owned("Not a USBloom snapshot"),
            SnapshotError::UnsupportedVersion(v) => {
                let mut text = owned("Unsupported snapshot version ");
                push_number(&mut text, *v as u64);
                text
            },
            SnapshotError::TooDeep => owned("Snapshot device tree is too deep"),
            SnapshotError::TooManyDevices => owned("Snapshot contains too many devices"),
            SnapshotError::DuplicateIdentity => owned("Snapshot contains duplicate device identities"),
        }
    }
}

/// The depth of every device below a list of siblings, in depth-first order.
pub open spec fn forest_depths(devs: Seq<Device>, depth: nat) -> Seq<nat>
    decreases devs,
{
    if devs.len() == 0 {
        Seq::empty()
    } else {
        forest_depths(devs.drop_last(), depth) + device_depths(devs.last(), depth)
    }
}

pub open spec fn device_depths(d: Device, depth: nat) -> Seq<nat>
    decreases d,
{
    let below = match d.devices {
        Some(v) => forest_depths(v@, depth + 1),
        None => Seq::empty(),
    };
    seq![depth] + below
}

/// The depth of every device of every bus, bus by bus, in depth-first order.
pub open spec fn profile_depths(buses: Seq<Bus>) -> Seq<nat>
    decreases buses.len(),
{
    if buses.len() == 0 {
        Seq::empty()
    } else {
        profile_depths(buses.drop_last()) + forest_depths(bus_devices(buses.last()), 0)
    }
}

/// The size limits of a snapshot, checked device by device in depth-first
/// order after `counted` devices: the first device that is beyond the
/// device limit, or else at or beyond the depth limit, refuses the snapshot.
pub open spec fn tree_limits(depths: Seq<nat>, counted: nat) -> Result<(), SnapshotError>
    decreases depths.len(),
{
    if depths.len() == 0 {
        Ok(())
    } else {
        match tree_limits(depths.drop_last(), counted) {
            Err(e) => Err(e),
            Ok(()) => if counted + depths.len() > DEVICE_LIMIT {
                Err(SnapshotError::TooManyDevices)
            } else if depths.last() >= DEPTH_LIMIT {
                Err(SnapshotError::TooDeep)
            } else {
                Ok(())
            },
        }
    }
}

proof fn lemma_tree_limits_concat(a: Seq<nat>, b: Seq<nat>, counted: nat)
    ensures
        tree_limits(a + b, counted) == match tree_limits(a, counted) {
            Err(e) => Err(e),
            Ok(()) => tree_limits(b, counted + a.len()),
        },
    decreases b.len(),
{
    if b.len() == 0 {
        assert(a + b =~= a);
    } else {
        lemma_tree_limits_concat(a, b.drop_last(), counted);
        assert((a + b).drop_last() =~= a + b.drop_last());
    }
}

/// Within the limits, every device is below the depth limit.
proof fn lemma_tree_limits_depths(depths: Seq<nat>, counted: nat)
    requires
        tree_limits(depths, counted) is Ok,
    ensures
        forall|k: int| 0 <= k < depths.len() ==> depths[k] < DEPTH_LIMIT,
        depths.len() > 0 ==> counted + depths.len() <= DEVICE_LIMIT,
    decreases depths.len(),
{
    if depths.len() > 0 {
        lemma_tree_limits_depths(depths.drop_last(), counted);
        assert forall|k: int| 0 <= k < depths.len() implies depths[k] < DEPTH_LIMIT by {
            if k < depths.len() - 1 {
                assert(depths[k] == depths.drop_last()[k]);
            }
        }
    }
}

/// Shallow trees fit the row walk.
proof fn lemma_shallow_forest_fits(devs: Seq<Device>, depth: nat)
    requires
        forall|k: int| 0 <= k < forest_depths(devs, depth).len() ==> forest_depths(devs, depth)[k] < DEPTH_LIMIT,
    ensures
        forest_fits(devs, depth),
    decreases devs,
{
    if devs.len() > 0 {
        let a = forest_depths(devs.drop_last(), depth);
        let b = device_depths(devs.last(), depth);
        assert forall|k: int| 0 <= k < a.len() implies a[k] < DEPTH_LIMIT by {
            assert(forest_depths(devs, depth)[k] == a[k]);
        }
        lemma_shallow_forest_fits(devs.drop_last(), depth);
        assert(forest_depths(devs, depth)[a.len() as int] == depth);
        let d = devs.last();
        match d.devices {
            Some(v) => {
                let c = forest_depths(v@, depth + 1);
                assert(b == seq![depth] + c);
                assert forall|k: int| 0 <= k < c.len() implies c[k] < DEPTH_LIMIT by {
                    assert(forest_depths(devs, depth)[a.len() + 1 + k] == c[k]);
                }
                lemma_shallow_forest_fits(v@, depth + 1);
            },
            None => {},
        }
        assert(device_fits(d, depth));
    }
}

proof fn lemma_forest_depths_append(a: Seq<Device>, b: Seq<Device>, depth: nat)
    ensures
        forest_depths(a + b, depth) == forest_depths(a, depth) + forest_depths(b, depth),
    decreases b.len(),
{
    if b.len() == 0 {
        assert(a + b =~= a);
        assert(forest_depths(a, depth) + forest_depths(b, depth) =~= forest_depths(a, depth));
    } else {
        lemma_forest_depths_append(a, b.drop_last(), depth);
        assert((a + b).drop_last() =~= a + b.drop_last());
        assert((a + b).last() == b.last());
        assert(forest_depths(a + b, depth) =~= forest_depths(a, depth) + forest_depths(b, depth));
    }
}

/// A refusal among the first devices refuses the whole list.
proof fn lemma_refusal_spreads(devs: Seq<Device>, k: int, depth: nat, counted: nat)
    requires
        0 <= k <= devs.len(),
        tree_limits(forest_depths(devs.take(k), depth), counted) is Err,
    ensures
        tree_limits(forest_depths(devs, depth), counted) == tree_limits(forest_depths(devs.take(k), depth), counted),
{
    assert(devs =~= devs.take(k) + devs.skip(k));
    lemma_forest_depths_append(devs.take(k), devs.skip(k), depth);
    lemma_tree_limits_concat(forest_depths(devs.take(k), depth), forest_depths(devs.skip(k), depth), counted);
}

fn count(devices: &Vec<Device>, depth: usize, total: &mut usize) -> (outcome: Result<(), SnapshotError>)
    requires
        depth <= DEPTH_LIMIT,
        *old(total) <= DEVICE_LIMIT,
    ensures
        outcome == tree_limits(forest_depths(devices@, depth as nat), *old(total) as nat),
        outcome is Ok ==> *final(total) == *old(total) + forest_depths(devices@, depth as nat).len(),
    decreases devices@,
{
    let ghost start = *total;
    let n = devices.len();
    for i in 0..n
        invariant
            n == devices@.len(),
            depth <= DEPTH_LIMIT,
            start <= DEVICE_LIMIT,
            start == *old(total),
            tree_limits(forest_depths(devices@.take(i as int), depth as nat), start as nat) is Ok,
            *total == start + forest_depths(devices@.take(i as int), depth as nat).len(),
            *total <= DEVICE_LIMIT,
    {
        let device = &devices[i];
        let ghost prefix = forest_depths(devices@.take(i as int), depth as nat);
        let ghost d = *device;
        let ghost below = match d.devices {
            Some(v) => forest_depths(v@, depth as nat + 1),
            None => Seq::empty(),
        };
        let ghost t: nat = (start + prefix.len()) as nat;
        proof {
            assert(devices@.take(i + 1).drop_last() =~= devices@.take(i as int));
            assert(devices@.take(i + 1).last() == devices@[i as int]);
            assert(forest_depths(devices@.take(i + 1), depth as nat) == prefix + device_depths(d, depth as nat));
            assert(device_depths(d, depth as nat) == seq![depth as nat] + below);
            lemma_tree_limits_concat(prefix, device_depths(d, depth as nat), start as nat);
            lemma_tree_limits_concat(seq![depth as nat], below, t);
            assert(seq![depth as nat].drop_last() =~= Seq::<nat>::empty());
            assert(tree_limits(Seq::<nat>::empty(), t) is Ok);
            assert(tree_limits(seq![depth as nat], t) == if t + 1 > DEVICE_LIMIT {
                Err(SnapshotError::TooManyDevices)
            } else if depth >= DEPTH_LIMIT {
                Err(SnapshotError::TooDeep)
            } else {
                Ok(())
            });
        }
        *total = *total + 1;
        if *total > DEVICE_LIMIT {
            proof {
                lemma_refusal_spreads(devices@, i + 1, depth as nat, start as nat);
            }
            return Err(SnapshotError::TooManyDevices);
        }
        if depth >= DEPTH_LIMIT {
            proof {
                lemma_refusal_spreads(devices@, i + 1, depth as nat, start as nat);
            }
            return Err(SnapshotError::TooDeep);
        }
        match &device.devices {
            Some(children) => {
                proof {
                    assert(decreases_to!(devices@ => children@)) by {
                        assert(decreases_to!(devices@ => devices@[i as int]));
                    }
                }
                let outcome = count(children, depth + 1, total);
                match outcome {
                    Ok(()) => {},
                    Err(e) => {
                        proof {
                            lemma_refusal_spreads(devices@, i + 1, depth as nat, start as nat);
                        }
                        return Err(e);
                    },
                }
            },
            None => {
                assert(below =~= Seq::<nat>::empty());
            },
        }
    }
    proof {
        assert(devices@.take(n as int) =~= devices@);
    }
    Ok(())
}

/// Whether no two rows share an identity.
pub open spec fn keys_distinct(rows: Seq<(RowView, Device)>) -> bool {
    forall|i: int, j: int| 0 <= i < j < rows.len() ==> (#[trigger] rows[i]).0.key != (#[trigger] rows[j]).0.key
}

/// Whether some two rows share an identity.
pub fn has_duplicate_keys(rows: &Vec<DeviceRow>) -> (duplicate: bool)
    ensures
        duplicate == exists|i: int, j: int|
            0 <= i < j < rows@.len() && (#[trigger] rows@[i]).key@ == (#[trigger] rows@[j]).key@,
{
    let n = rows.len();
    for j in 0..n
        invariant
            n == rows@.len(),
            forall|a: int, b: int| 0 <= a < b < j ==> (#[trigger] rows@[a]).key@ != (#[trigger] rows@[b]).key@,
    {
        for i in 0..j
            invariant
                n == rows@.len(),
                j < n,
                forall|a: int, b: int| 0 <= a < b < j ==> (#[trigger] rows@[a]).key@ != (#[trigger] rows@[b]).key@,
                forall|a: int| 0 <= a < i ==> (#[trigger] rows@[a]).key@ != rows@[j as int].key@,
        {
            if rows[i].key == rows[j].key {
                assert(rows@[i as int].key@ == rows@[j as int].key@);
                return true;
            }
        }
    }
    false
}

/// What decoding a snapshot file yields: the file is refused when it is too
/// large, when it is not a snapshot document, when its format version is
/// not 1, when its device tree exceeds the size limits, or when two of its
/// devices share an identity; otherwise the parsed snapshot is accepted.
pub open spec fn decode_outcome(byte_len: nat, parsed: Option<Snapshot>) -> Result<Snapshot, SnapshotError> {
    if byte_len > SNAPSHOT_LIMIT {
        Err(SnapshotError::TooLarge)
    } else {
        match parsed {
            None => Err(SnapshotError::NotASnapshot),
            Some(s) => if s.schema_version != 1 {
                Err(SnapshotError::UnsupportedVersion(s.schema_version))
            } else {
                match tree_limits(profile_depths(s.profile.buses@), 0) {
                    Err(e) => Err(e),
                    Ok(()) => if keys_distinct(profile_rows(s.profile.buses@)) {
                        Ok(s)
                    } else {
                        Err(SnapshotError::DuplicateIdentity)
                    },
                }
            },
        }
    }
}

/// A snapshot document within the size limit, of format version 1, within
/// the tree limits and with distinct device identities is read back exactly
/// as it was written.
pub proof fn law_decode_keeps_valid_snapshot(byte_len: nat, s: Snapshot)
    requires
        byte_len <= SNAPSHOT_LIMIT,
        s.schema_version == 1,
        tree_limits(profile_depths(s.profile.buses@), 0) is Ok,
        keys_distinct(profile_rows(s.profile.buses@)),
    ensures
        decode_outcome(byte_len, Some(s)) == Ok::<Snapshot, SnapshotError>(s),
{
}

proof fn lemma_shallow_profile_fits(buses: Seq<Bus>)
    requires
        forall|k: int| 0 <= k < profile_depths(buses).len() ==> profile_depths(buses)[k] < DEPTH_LIMIT,
    ensures
        profile_fits(buses),
    decreases buses.len(),
{
    if buses.len() > 0 {
        let a = profile_depths(buses.drop_last());
        let f = forest_depths(bus_devices(buses.last()), 0);
        assert forall|k: int| 0 <= k < a.len() implies a[k] < DEPTH_LIMIT by {
            assert(profile_depths(buses)[k] == a[k]);
        }
        assert forall|k: int| 0 <= k < f.len() implies f[k] < DEPTH_LIMIT by {
            assert(profile_depths(buses)[a.len() + k] == f[k]);
        }
        lemma_shallow_profile_fits(buses.drop_last());
        lemma_shallow_forest_fits(bus_devices(buses.last()), 0);
        assert forall|i: int| 0 <= i < buses.len() implies forest_fits(bus_devices(#[trigger] buses[i]), 0) by {
            if i < buses.len() - 1 {
                assert(buses[i] == buses.drop_last()[i]);
            }
        }
    }
}

impl Snapshot {
    /// Check the size of a serialised snapshot before it is written: a
    /// document over [`SNAPSHOT_LIMIT`] is refused, as it could not be read
    /// back.
    pub fn check_size(byte_len: u64) -> (checked: Result<(), SnapshotError>)
        ensures
            checked == (if byte_len > SNAPSHOT_LIMIT {
                Err(SnapshotError::TooLarge)
            } else {
                Ok(())
            }),
    {
        if byte_len > SNAPSHOT_LIMIT {
            Err(SnapshotError::TooLarge)
        } else {
            Ok(())
        }
    }

    /// Check a parsed snapshot file. `byte_len` is the size of the file and
    /// `parsed` the snapshot document read from it, or `None` when it holds
    /// none; a file over [`SNAPSHOT_LIMIT`] is refused before it is parsed.
    pub fn decode(byte_len: u64, parsed: Option<Snapshot>) -> (outcome: Result<Snapshot, SnapshotError>)
        ensures
            outcome == decode_outcome(byte_len as nat, parsed),
    {
        if byte_len > SNAPSHOT_LIMIT {
            return Err(SnapshotError::TooLarge);
        }
        let snapshot = match parsed {
            Some(snapshot) => snapshot,
            None => {
                return Err(SnapshotError::NotASnapshot);
            },
        };
        if snapshot.schema_version != 1 {
            return Err(SnapshotError::UnsupportedVersion(snapshot.schema_version));
        }
        let mut total: usize = 0;
        let buses = &snapshot.profile.buses;
        let n = buses.len();
        for index in 0..n
            invariant
                n == buses@.len(),
                buses@ == snapshot.profile.buses@,
                parsed == Some(snapshot),
                byte_len <= SNAPSHOT_LIMIT,
                snapshot.schema_version == 1,
                tree_limits(profile_depths(buses@.take(index as int)), 0) is Ok,
                total == profile_depths(buses@.take(index as int)).len(),
                total <= DEVICE_LIMIT,
        {
            let bus = &buses[index];
            let empty: Vec<Device> = Vec::new();
            let devices = match &bus.devices {
                Some(devices) => devices,
                None => &empty,
            };
            let ghost prefix = profile_depths(buses@.take(index as int));
            proof {
                assert(devices@ == bus_devices(*bus));
                assert(buses@.take(index + 1).drop_last() =~= buses@.take(index as int));
                assert(buses@.take(index + 1).last() == *bus);
                lemma_tree_limits_concat(prefix, forest_depths(devices@, 0), 0);
            }
            let outcome = count(devices, 0, &mut total);
            match outcome {
                Ok(()) => {
                    proof {
                        let f = forest_depths(devices@, 0);
                        if f.len() > 0 {
                            lemma_tree_limits_depths(f, prefix.len());
                        }
                    }
                },
                Err(e) => {
                    proof {
                        let all = buses@;
                        assert(all =~= all.take(index + 1) + all.skip(index + 1));
                        lemma_profile_depths_append(all.take(index + 1), all.skip(index + 1));
                        lemma_tree_limits_concat(
                            profile_depths(all.take(index + 1)),
                            profile_depths(all.skip(index + 1)),
                            0,
                        );
                    }
                    return Err(e);
                },
            }
        }
        proof {
            assert(buses@.take(n as int) =~= buses@);
            lemma_tree_limits_depths(profile_depths(buses@), 0);
            lemma_shallow_profile_fits(buses@);
        }
        let rows = snapshot.rows();
        if has_duplicate_keys(&rows) {
            proof {
                let i = choose|i: int| exists|j: int| 0 <= i < j < rows@.len() && (#[trigger] rows@[i]).key@ == (#[trigger] rows@[j]).key@;
                let j = choose|j: int| 0 <= i < j < rows@.len() && (#[trigger] rows@[i]).key@ == (#[trigger] rows@[j]).key@;
                let expected = profile_rows(buses@);
                assert(rows@[0 + i].matches(expected[i]));
                assert(rows@[0 + j].matches(expected[j]));
            }
            return Err(SnapshotError::DuplicateIdentity);
        }
        proof {
            let expected = profile_rows(buses@);
            assert forall|i: int, j: int| 0 <= i < j < expected.len() implies (#[trigger] expected[i]).0.key != (
            #[trigger] expected[j]).0.key by {
                assert(rows@[0 + i].matches(expected[i]));
                assert(rows@[0 + j].matches(expected[j]));
            }
        }
        Ok(snapshot)
    }
}

proof fn lemma_profile_depths_append(a: Seq<Bus>, b: Seq<Bus>)
    ensures
        profile_depths(a + b) == profile_depths(a) + profile_depths(b),
    decreases b.len(),
{
    if b.len() == 0 {
        assert(a + b =~= a);
        assert(profile_depths(a) + profile_depths(b) =~= profile_depths(a));
    } else {
        lemma_profile_depths_append(a, b.drop_last());
        assert((a + b).drop_last() =~= a + b.drop_last());
        assert((a + b).last() == b.last());
        assert(profile_depths(a + b) =~= profile_depths(a) + profile_depths(b));
    }
}

/// The text that a search looks in: name, manufacturer, ids, serial
/// number, port path and class, separated by spaces.
pub open spec fn searchable_text(d: Device) -> Seq<char> {
    d.name@ + " "@ + text_or_empty(d.manufacturer) + " "@ + ids_text(d) + " "@ + text_or_empty(
        d.serial_num,
    ) + " "@ + port_path_text(d.location_id.bus, d.location_id.tree_positions@) + " "@
        + device_class_text(d)
}

proof fn lemma_occurs_between(before: Seq<char>, x: Seq<char>, after: Seq<char>)
    ensures
        occurs_in(before + x + after, x),
{
    let t = before + x + after;
    assert(t.subrange(before.len() as int, before.len() + x.len() as int) =~= x);
}

/// A search looks in every field of a device: its name, manufacturer, ids,
/// serial number, port path and class each appear in the searchable text.
pub proof fn law_search_looks_in_every_field(d: Device)
    ensures
        occurs_in(searchable_text(d), d.name@),
        occurs_in(searchable_text(d), text_or_empty(d.manufacturer)),
        occurs_in(searchable_text(d), ids_text(d)),
        occurs_in(searchable_text(d), text_or_empty(d.serial_num)),
        occurs_in(searchable_text(d), port_path_text(d.location_id.bus, d.location_id.tree_positions@)),
        occurs_in(searchable_text(d), device_class_text(d)),
{
    let sp = " "@;
    let a = d.name@;
    let b = text_or_empty(d.manufacturer);
    let c = ids_text(d);
    let e = text_or_empty(d.serial_num);
    let f = port_path_text(d.location_id.bus, d.location_id.tree_positions@);
    let g = device_class_text(d);
    let t = searchable_text(d);
    assert(t == a + sp + b + sp + c + sp + e + sp + f + sp + g);
    lemma_occurs_between(Seq::empty(), a, sp + b + sp + c + sp + e + sp + f + sp + g);
    assert(t =~= Seq::<char>::empty() + a + (sp + b + sp + c + sp + e + sp + f + sp + g));
    lemma_occurs_between(a + sp, b, sp + c + sp + e + sp + f + sp + g);
    assert(t =~= (a + sp) + b + (sp + c + sp + e + sp + f + sp + g));
    lemma_occurs_between(a + sp + b + sp, c, sp + e + sp + f + sp + g);
    assert(t =~= (a + sp + b + sp) + c + (sp + e + sp + f + sp + g));
    lemma_occurs_between(a + sp + b + sp + c + sp, e, sp + f + sp + g);
    assert(t =~= (a + sp + b + sp + c + sp) + e + (sp + f + sp + g));
    lemma_occurs_between(a + sp + b + sp + c + sp + e + sp, f, sp + g);
    assert(t =~= (a + sp + b + sp + c + sp + e + sp) + f + (sp + g));
    lemma_occurs_between(a + sp + b + sp + c + sp + e + sp + f + sp, g, Seq::empty());
    assert(t =~= (a + sp + b + sp + c + sp + e + sp + f + sp) + g + Seq::<char>::empty());
}

fn searchable(d: &Device) -> (text: String)
    ensures
        text@ == searchable_text(*d),
{
    proof {
        reveal_strlit(" ");
    }
    let mut text = d.name.clone();
    push_str(&mut text, " ");
    match &d.manufacturer {
        Some(m) => push_str(&mut text, m.as_str()),
        None => {},
    }
    push_str(&mut text, " ");
    let ids_part = ids(d);
    push_str(&mut text, ids_part.as_str());
    push_str(&mut text, " ");
    match &d.serial_num {
        Some(serial) => push_str(&mut text, serial.as_str()),
        None => {},
    }
    push_str(&mut text, " ");
    let path = d.port_path();
    push_str(&mut text, path.as_str());
    push_str(&mut text, " ");
    let class = device_class(d);
    push_str(&mut text, class.as_str());
    text
}

/// The index of the last of the first `n` rows with the given identity, or
/// -1 when none has it.
pub open spec fn find_key(rows: Seq<DeviceRow>, key: Seq<char>, n: int) -> int
    decreases n,
{
    if n <= 0 {
        -1
    } else if rows[n - 1].key@ == key {
        n - 1
    } else {
        find_key(rows, key, n - 1)
    }
}

/// The index of the row that a row names as its parent (the last row with
/// that identity), or -1.
pub open spec fn parent_index(rows: Seq<DeviceRow>, i: int) -> int {
    match rows[i].parent {
        Some(p) => find_key(rows, p@, rows.len() as int),
        None => -1,
    }
}

/// Every row's parent comes before it, so that following parents ends.
pub open spec fn parents_precede(rows: Seq<DeviceRow>) -> bool {
    forall|i: int| 0 <= i < rows.len() ==> #[trigger] parent_index(rows, i) < i
}

/// One step up from row `x`: its parent, or -1 above the top or outside the rows.
pub open spec fn parent_step(rows: Seq<DeviceRow>, x: int) -> int {
    if 0 <= x < rows.len() {
        parent_index(rows, x)
    } else {
        -1
    }
}

/// The row `k` steps up from row `m` along its parents, or -1 once the
/// chain has ended.
pub open spec fn ancestor(rows: Seq<DeviceRow>, m: int, k: nat) -> int
    decreases k,
{
    if k == 0 {
        m
    } else {
        parent_step(rows, ancestor(rows, m, (k - 1) as nat))
    }
}

/// Following parents from any row ends. A chain without cycles ends within
/// as many steps as there are rows, and one that takes more steps repeats a
/// row, so this is exactly that no chain of parents cycles.
pub open spec fn parent_chains_end(rows: Seq<DeviceRow>) -> bool {
    forall|i: int| 0 <= i < rows.len() ==> #[trigger] ancestor(rows, i, rows.len()) < 0
}

/// Whether row `a` is row `m` or one of its ancestors, following parents.
pub open spec fn on_parent_chain(rows: Seq<DeviceRow>, a: int, m: int) -> bool {
    0 <= a < rows.len() && exists|k: nat| #[trigger] ancestor(rows, m, k) == a
}

/// Whether row `x` names a collapsed identity as its parent.
pub open spec fn parent_collapsed(rows: Seq<DeviceRow>, collapsed: Seq<String>, x: int) -> bool {
    0 <= x < rows.len() && match rows[x].parent {
        Some(p) => is_collapsed(collapsed, p@),
        None => false,
    }
}

/// Whether row `i` or one of its ancestors names a collapsed identity as
/// its parent.
pub open spec fn under_collapsed(rows: Seq<DeviceRow>, collapsed: Seq<String>, i: int) -> bool {
    exists|k: nat| parent_collapsed(rows, collapsed, #[trigger] ancestor(rows, i, k))
}

proof fn lemma_find_key_range(rows: Seq<DeviceRow>, key: Seq<char>, n: int)
    requires
        n <= rows.len(),
    ensures
        find_key(rows, key, n) == -1 || 0 <= find_key(rows, key, n) < n,
    decreases n,
{
    if n > 0 {
        lemma_find_key_range(rows, key, n - 1);
    }
}

proof fn lemma_parent_range(rows: Seq<DeviceRow>, x: int)
    ensures
        parent_step(rows, x) == -1 || 0 <= parent_step(rows, x) < rows.len(),
{
    if 0 <= x < rows.len() {
        if let Some(p) = rows[x].parent {
            lemma_find_key_range(rows, p@, rows.len() as int);
        }
    }
}

/// Once a chain has ended it stays ended.
proof fn lemma_ancestor_ended(rows: Seq<DeviceRow>, m: int, j: nat, t: nat)
    requires
        ancestor(rows, m, j) < 0,
        j <= t,
    ensures
        ancestor(rows, m, t) < 0,
    decreases t,
{
    if j < t {
        lemma_ancestor_ended(rows, m, j, (t - 1) as nat);
    }
}

/// Going `k + 1` steps up from a row is going `k` steps up from its parent.
proof fn lemma_ancestor_shift(rows: Seq<DeviceRow>, m: int, k: nat)
    requires
        0 <= m < rows.len(),
    ensures
        ancestor(rows, m, k + 1) == ancestor(rows, parent_index(rows, m), k),
    decreases k,
{
    let p = parent_index(rows, m);
    assert(ancestor(rows, m, 0) == m);
    if k > 0 {
        lemma_ancestor_shift(rows, m, (k - 1) as nat);
        assert(ancestor(rows, m, k + 1) == parent_step(rows, ancestor(rows, m, k)));
        assert(ancestor(rows, p, k) == parent_step(rows, ancestor(rows, p, (k - 1) as nat)));
    } else {
        assert(ancestor(rows, m, 1) == parent_step(rows, ancestor(rows, m, 0)));
    }
}

/// Whether an identity is in the collapsed set.
pub open spec fn is_collapsed(collapsed: Seq<String>, key: Seq<char>) -> bool {
    exists|c: int| 0 <= c < collapsed.len() && (#[trigger] collapsed[c])@ == key
}

/// The search text of a query: trimmed and in lower case.
pub open spec fn search_text(query: Seq<char>) -> Seq<char> {
    lowercase(trimmed(query))
}

/// Whether a row's device matches a (non-empty) search text.
pub open spec fn row_matches_search(rows: Seq<DeviceRow>, q: Seq<char>, m: int) -> bool {
    occurs_in(lowercase(searchable_text(rows[m].device)), q)
}

/// Whether row `i` is shown. With a search, a row is shown when its
/// identity is that of a matching row or of one of its ancestors,
/// regardless of collapsed branches; without, a row is shown unless an
/// ancestor is collapsed.
pub open spec fn is_visible(rows: Seq<DeviceRow>, query: Seq<char>, collapsed: Seq<String>, i: int) -> bool {
    let q = search_text(query);
    if q.len() > 0 {
        exists|m: int, a: int|
            0 <= m < rows.len() && #[trigger] row_matches_search(rows, q, m) && #[trigger] on_parent_chain(rows, a, m)
                && rows[a].key@ == rows[i].key@
    } else {
        !under_collapsed(rows, collapsed, i)
    }
}

/// Whether `shown` lists the rows at the given indices, in order.
pub open spec fn lists_rows(shown: Seq<&DeviceRow>, rows: Seq<DeviceRow>, idx: Seq<int>) -> bool {
    &&& shown.len() == idx.len()
    &&& forall|k: int| 0 <= k < idx.len() ==> *(#[trigger] shown[k]) == rows[idx[k]]
}

/// The indices of the first `n` rows that are shown, in order.
pub open spec fn visible_indices(rows: Seq<DeviceRow>, query: Seq<char>, collapsed: Seq<String>, n: int) -> Seq<int>
    decreases n,
{
    if n <= 0 {
        Seq::empty()
    } else if is_visible(rows, query, collapsed, n - 1) {
        visible_indices(rows, query, collapsed, n - 1).push(n - 1)
    } else {
        visible_indices(rows, query, collapsed, n - 1)
    }
}

fn find_row(rows: &Vec<DeviceRow>, key: &String) -> (index: Option<usize>)
    ensures
        match index {
            Some(k) => k < rows@.len() && find_key(rows@, key@, rows@.len() as int) == k as int,
            None => find_key(rows@, key@, rows@.len() as int) == -1,
        },
{
    let mut n = rows.len();
    while n > 0
        invariant
            n <= rows@.len(),
            find_key(rows@, key@, rows@.len() as int) == find_key(rows@, key@, n as int),
        decreases n,
    {
        if rows[n - 1].key == *key {
            return Some(n - 1);
        }
        n = n - 1;
    }
    None
}

fn in_collapsed(collapsed: &Vec<String>, key: &String) -> (found: bool)
    ensures
        found == is_collapsed(collapsed@, key@),
{
    let n = collapsed.len();
    for c in 0..n
        invariant
            n == collapsed@.len(),
            forall|d: int| 0 <= d < c ==> (#[trigger] collapsed@[d])@ != key@,
    {
        if collapsed[c] == *key {
            return true;
        }
    }
    false
}

/// Whether row `a` is one of the first `j` rows of the chain up from row `m`.
spec fn chain_prefix(rows: Seq<DeviceRow>, m: int, j: nat, a: int) -> bool {
    exists|t: nat| t < j && #[trigger] ancestor(rows, m, t) == a
}

/// Mark row `m` and all its ancestors.
fn mark_chain(rows: &Vec<DeviceRow>, marked: &mut Vec<bool>, m: usize)
    requires
        parent_chains_end(rows@),
        m < rows@.len(),
        old(marked)@.len() == rows@.len(),
    ensures
        final(marked)@.len() == rows@.len(),
        forall|a: int|
            0 <= a < rows@.len() ==> (final(marked)@[a] <==> (old(marked)@[a] || on_parent_chain(
                rows@,
                a,
                m as int,
            ))),
{
    let n = rows.len();
    let ghost before = marked@;
    let mut cur = m;
    let ghost mut j: nat = 0;
    loop
        invariant_except_break
            cur as int == ancestor(rows@, m as int, j),
            cur < n,
            j < n,
            forall|a: int| 0 <= a < n ==> (#[trigger] marked@[a] <==> (before[a] || chain_prefix(rows@, m as int, j, a))),
        invariant
            n == rows@.len(),
            parent_chains_end(rows@),
            m < n,
            marked@.len() == n,
            before.len() == n,
        ensures
            marked@.len() == n,
            forall|a: int|
                0 <= a < n ==> (marked@[a] <==> (before[a] || on_parent_chain(rows@, a, m as int))),
        decreases n - j,
    {
        let ghost prior = marked@;
        marked.set(cur, true);
        proof {
            assert forall|a: int| 0 <= a < n implies (#[trigger] marked@[a] <==> (before[a] || chain_prefix(
                rows@,
                m as int,
                j + 1,
                a,
            ))) by {
                assert(prior[a] <==> (before[a] || chain_prefix(rows@, m as int, j, a)));
                if chain_prefix(rows@, m as int, j, a) {
                    let t = choose|t: nat| t < j && #[trigger] ancestor(rows@, m as int, t) == a;
                    assert(t < j + 1 && ancestor(rows@, m as int, t) == a);
                }
                if a != cur {
                    assert(marked@[a] == prior[a]);
                    if chain_prefix(rows@, m as int, j + 1, a) {
                        let t = choose|t: nat| t < j + 1 && #[trigger] ancestor(rows@, m as int, t) == a;
                        assert(t != j);
                        assert(chain_prefix(rows@, m as int, j, a));
                    }
                } else {
                    assert(ancestor(rows@, m as int, j) == a);
                    assert(chain_prefix(rows@, m as int, j + 1, a));
                }
            }
            assert(ancestor(rows@, m as int, j + 1) == parent_index(rows@, cur as int));
        }
        let next: Option<usize> = match &rows[cur].parent {
            Some(p) => find_row(rows, p),
            None => None,
        };
        proof {
            assert(match next {
                Some(k) => parent_index(rows@, cur as int) == k,
                None => parent_index(rows@, cur as int) == -1,
            });
        }
        match next {
            Some(k) => {
                proof {
                    assert(ancestor(rows@, m as int, n as nat) < 0);
                    j = j + 1;
                }
                cur = k;
            },
            None => {
                proof {
                    assert forall|a: int|
                        0 <= a < n implies (marked@[a] <==> (before[a] || on_parent_chain(rows@, a, m as int))) by {
                        if on_parent_chain(rows@, a, m as int) {
                            let t = choose|t: nat| #[trigger] ancestor(rows@, m as int, t) == a;
                            if t > j {
                                lemma_ancestor_ended(rows@, m as int, j + 1, t);
                            }
                            assert(t < j + 1 && ancestor(rows@, m as int, t) == a);
                            assert(chain_prefix(rows@, m as int, j + 1, a));
                        }
                        if chain_prefix(rows@, m as int, j + 1, a) {
                            let t = choose|t: nat| t < j + 1 && #[trigger] ancestor(rows@, m as int, t) == a;
                            assert(on_parent_chain(rows@, a, m as int));
                        }
                    }
                }
                break;
            },
        }
    }
}

/// Whether row `i` or one of its ancestors names a collapsed identity as
/// its parent.
fn hidden_by_collapse(rows: &Vec<DeviceRow>, collapsed: &Vec<String>, i: usize) -> (hidden: bool)
    requires
        parent_chains_end(rows@),
        i < rows@.len(),
    ensures
        hidden == under_collapsed(rows@, collapsed@, i as int),
{
    let n = rows.len();
    let mut k = i;
    let ghost mut j: nat = 0;
    loop
        invariant
            n == rows@.len(),
            parent_chains_end(rows@),
            i < n,
            k < n,
            j < n,
            k as int == ancestor(rows@, i as int, j),
            forall|t: nat| t < j ==> !parent_collapsed(rows@, collapsed@, #[trigger] ancestor(rows@, i as int, t)),
        decreases n - j,
    {
        proof {
            assert(ancestor(rows@, i as int, j + 1) == parent_index(rows@, k as int));
        }
        let next: Option<usize> = match &rows[k].parent {
            None => None,
            Some(p) => {
                if in_collapsed(collapsed, p) {
                    proof {
                        assert(parent_collapsed(rows@, collapsed@, ancestor(rows@, i as int, j)));
                    }
                    return true;
                }
                find_row(rows, p)
            },
        };
        proof {
            assert(!parent_collapsed(rows@, collapsed@, ancestor(rows@, i as int, j)));
            assert(match next {
                Some(x) => parent_index(rows@, k as int) == x,
                None => parent_index(rows@, k as int) == -1,
            });
        }
        match next {
            Some(x) => {
                proof {
                    assert(ancestor(rows@, i as int, n as nat) < 0);
                    j = j + 1;
                }
                k = x;
            },
            None => {
                proof {
                    assert forall|t: nat| !parent_collapsed(rows@, collapsed@, #[trigger] ancestor(rows@, i as int, t)) by {
                        if t > j {
                            lemma_ancestor_ended(rows@, i as int, j + 1, t);
                        }
                    }
                }
                return false;
            },
        }
    }
}

/// Whether following parents from every row ends.
pub fn parents_terminate(rows: &Vec<DeviceRow>) -> (ok: bool)
    ensures
        ok == parent_chains_end(rows@),
{
    let n = rows.len();
    for i in 0..n
        invariant
            n == rows@.len(),
            forall|i2: int| 0 <= i2 < i ==> #[trigger] ancestor(rows@, i2, n as nat) < 0,
    {
        let mut cur: Option<usize> = Some(i);
        for step in 0..n
            invariant
                n == rows@.len(),
                i < n,
                match cur {
                    Some(c) => c < n && c as int == ancestor(rows@, i as int, step as nat),
                    None => ancestor(rows@, i as int, step as nat) < 0,
                },
        {
            let ghost was = cur;
            cur = match cur {
                Some(c) => match &rows[c].parent {
                    Some(p) => find_row(rows, p),
                    None => None,
                },
                None => None,
            };
            proof {
                assert(ancestor(rows@, i as int, (step + 1) as nat) == parent_step(
                    rows@,
                    ancestor(rows@, i as int, step as nat),
                ));
            }
        }
        if cur.is_some() {
            return false;
        }
    }
    true
}

/// The rows to show for a search query and a set of collapsed identities,
/// in their order.
pub fn visible_rows<'a>(rows: &'a Vec<DeviceRow>, query: &str, collapsed: &Vec<String>) -> (shown: Vec<&'a DeviceRow>)
    requires
        parent_chains_end(rows@),
    ensures
        lists_rows(shown@, rows@, visible_indices(rows@, query@, collapsed@, rows@.len() as int)),
{
    let trimmed_query = trim(query);
    let q = to_lowercase(trimmed_query);
    let n = rows.len();
    let mut flags: Vec<bool> = Vec::new();
    if q.unicode_len() > 0 {
        let mut marked: Vec<bool> = Vec::new();
        for i in 0..n
            invariant
                n == rows@.len(),
                marked@.len() == i,
                forall|k: int| 0 <= k < i ==> !marked@[k],
        {
            marked.push(false);
        }
        for m in 0..n
            invariant
                n == rows@.len(),
                parent_chains_end(rows@),
                q@ == search_text(query@),
                marked@.len() == n,
                forall|a: int|
                    0 <= a < n ==> (marked@[a] <==> exists|m2: int|
                        0 <= m2 < m && #[trigger] row_matches_search(rows@, q@, m2) && on_parent_chain(rows@, a, m2)),
        {
            let text = searchable(&rows[m].device);
            let lower = to_lowercase(text.as_str());
            let ghost before = marked@;
            if contains(lower.as_str(), q.as_str()) {
                assert(row_matches_search(rows@, q@, m as int));
                mark_chain(rows, &mut marked, m);
            }
            proof {
                assert forall|a: int|
                    0 <= a < n implies (marked@[a] <==> exists|m2: int|
                        0 <= m2 < m + 1 && #[trigger] row_matches_search(rows@, q@, m2) && on_parent_chain(rows@, a, m2)) by {
                    if marked@[a] && !before[a] {
                        assert(row_matches_search(rows@, q@, m as int) && on_parent_chain(rows@, a, m as int));
                    }
                }
            }
        }
        for i in 0..n
            invariant
                n == rows@.len(),
                q@ == search_text(query@),
                q@.len() > 0,
                marked@.len() == n,
                flags@.len() == i,
                forall|a: int|
                    0 <= a < n ==> (marked@[a] <==> exists|m2: int|
                        0 <= m2 < n && #[trigger] row_matches_search(rows@, q@, m2) && on_parent_chain(rows@, a, m2)),
                forall|k: int| 0 <= k < i ==> flags@[k] == is_visible(rows@, query@, collapsed@, k),
        {
            let mut shown_here = false;
            for a in 0..n
                invariant
                    n == rows@.len(),
                    i < n,
                    marked@.len() == n,
                    shown_here <==> exists|a2: int|
                        0 <= a2 < a && marked@[a2] && (#[trigger] rows@[a2]).key@ == rows@[i as int].key@,
            {
                if marked[a] && rows[a].key == rows[i].key {
                    shown_here = true;
                }
            }
            proof {
                if shown_here {
                    let a2 = choose|a2: int|
                        0 <= a2 < n && marked@[a2] && (#[trigger] rows@[a2]).key@ == rows@[i as int].key@;
                    assert(marked@[a2]);
                    let m2 = choose|m2: int|
                        0 <= m2 < n && #[trigger] row_matches_search(rows@, q@, m2) && on_parent_chain(rows@, a2, m2);
                    assert(row_matches_search(rows@, q@, m2) && on_parent_chain(rows@, a2, m2));
                } else {
                    if is_visible(rows@, query@, collapsed@, i as int) {
                        let (m2, a2) = choose|m2: int, a2: int|
                            0 <= m2 < rows@.len() && #[trigger] row_matches_search(rows@, q@, m2)
                                && #[trigger] on_parent_chain(rows@, a2, m2) && rows@[a2].key@ == rows@[i as int].key@;
                        assert(on_parent_chain(rows@, a2, m2));
                        assert(marked@[a2]);
                        assert(rows@[a2].key@ == rows@[i as int].key@);
                    }
                }
            }
            flags.push(shown_here);
        }
    } else {
        for i in 0..n
            invariant
                n == rows@.len(),
                parent_chains_end(rows@),
                q@ == search_text(query@),
                q@.len() == 0,
                flags@.len() == i,
                forall|k: int| 0 <= k < i ==> flags@[k] == is_visible(rows@, query@, collapsed@, k),
        {
            let hidden = hidden_by_collapse(rows, collapsed, i);
            flags.push(!hidden);
        }
    }
    let mut shown: Vec<&'a DeviceRow> = Vec::new();
    for i in 0..n
        invariant
            n == rows@.len(),
            flags@.len() == n,
            forall|k: int| 0 <= k < n ==> flags@[k] == is_visible(rows@, query@, collapsed@, k),
            lists_rows(shown@, rows@, visible_indices(rows@, query@, collapsed@, i as int)),
    {
        let ghost prev = visible_indices(rows@, query@, collapsed@, i as int);
        let ghost old_shown = shown@;
        proof {
            lemma_visible_indices_bounded(rows@, query@, collapsed@, i as int);
            lemma_visible_indices_bounded(rows@, query@, collapsed@, i + 1);
        }
        if flags[i] {
            shown.push(&rows[i]);
            proof {
                assert(visible_indices(rows@, query@, collapsed@, i + 1) == prev.push(i as int));
                assert forall|k: int| 0 <= k < prev.len() + 1 implies *(#[trigger] shown@[k]) == rows@[prev.push(i as int)[k]] by {
                    if k < prev.len() {
                        assert(prev.push(i as int)[k] == prev[k]);
                        assert(shown@[k] == old_shown[k]);
                        assert(*old_shown[k] == rows@[prev[k]]);
                    } else {
                        assert(prev.push(i as int)[k] == i);
                        assert(*shown@[k] == rows@[i as int]);
                    }
                }
            }
        } else {
            proof {
                assert(visible_indices(rows@, query@, collapsed@, i + 1) == prev);
            }
        }
    }
    proof {
        lemma_visible_indices_bounded(rows@, query@, collapsed@, n as int);
    }
    shown
}

proof fn lemma_visible_indices_bounded(rows: Seq<DeviceRow>, query: Seq<char>, collapsed: Seq<String>, n: int)
    ensures
        forall|k: int|
            0 <= k < visible_indices(rows, query, collapsed, n).len() ==> 0 <= #[trigger] visible_indices(
                rows,
                query,
                collapsed,
                n,
            )[k] < n,
    decreases n,
{
    if n > 0 {
        lemma_visible_indices_bounded(rows, query, collapsed, n - 1);
        let prev = visible_indices(rows, query, collapsed, n - 1);
        if is_visible(rows, query, collapsed, n - 1) {
            assert forall|k: int| 0 <= k < prev.len() + 1 implies 0 <= #[trigger] prev.push(n - 1)[k] < n by {
                if k < prev.len() {
                    assert(prev.push(n - 1)[k] == prev[k]);
                }
            }
        }
    }
}

/// Whether every row names as parent either `outer` or an earlier row.
pub open spec fn parents_listed_before(rs: Seq<(RowView, Device)>, outer: Option<Seq<char>>) -> bool {
    forall|i: int|
        0 <= i < rs.len() && (#[trigger] rs[i]).0.parent is Some ==> rs[i].0.parent == outer || exists|j: int|
            0 <= j < i && Some(rs[j].0.key) == rs[i].0.parent
}

proof fn lemma_forest_parents(
    devs: Seq<Device>,
    bus: Seq<char>,
    bus_key: Seq<char>,
    depth: nat,
    parent: Option<Seq<char>>,
)
    ensures
        parents_listed_before(forest_rows(devs, bus, bus_key, depth, parent), parent),
    decreases devs,
{
    if devs.len() > 0 {
        let a = forest_rows(devs.drop_last(), bus, bus_key, depth, parent);
        let b = device_rows(devs.last(), bus, bus_key, depth, parent);
        lemma_forest_parents(devs.drop_last(), bus, bus_key, depth, parent);
        lemma_device_parents(devs.last(), bus, bus_key, depth, parent);
        let all = a + b;
        assert forall|i: int|
            0 <= i < all.len() && (#[trigger] all[i]).0.parent is Some implies all[i].0.parent == parent
                || exists|j: int| 0 <= j < i && Some(all[j].0.key) == all[i].0.parent by {
            if i >= a.len() {
                assert(all[i] == b[i - a.len()]);
                if b[i - a.len()].0.parent != parent {
                    let j = choose|j: int| 0 <= j < i - a.len() && Some(b[j].0.key) == b[i - a.len()].0.parent;
                    assert(all[a.len() + j] == b[j]);
                }
            } else {
                assert(all[i] == a[i]);
                if a[i].0.parent != parent {
                    let j = choose|j: int| 0 <= j < i && Some(a[j].0.key) == a[i].0.parent;
                    assert(all[j] == a[j]);
                }
            }
        }
    }
}

proof fn lemma_device_parents(
    d: Device,
    bus: Seq<char>,
    bus_key: Seq<char>,
    depth: nat,
    parent: Option<Seq<char>>,
)
    ensures
        parents_listed_before(device_rows(d, bus, bus_key, depth, parent), parent),
    decreases d,
{
    let rs = device_rows(d, bus, bus_key, depth, parent);
    match d.devices {
        Some(v) => {
            let below = forest_rows(v@, bus, bus_key, depth + 1, Some(key_text(d)));
            lemma_forest_parents(v@, bus, bus_key, depth + 1, Some(key_text(d)));
            assert forall|i: int|
                0 <= i < rs.len() && (#[trigger] rs[i]).0.parent is Some implies rs[i].0.parent == parent
                    || exists|j: int| 0 <= j < i && Some(rs[j].0.key) == rs[i].0.parent by {
                if i > 0 {
                    assert(rs[i] == below[i - 1]);
                    if below[i - 1].0.parent == Some(key_text(d)) {
                        assert(Some(rs[0].0.key) == rs[i].0.parent);
                    } else {
                        let j = choose|j: int| 0 <= j < i - 1 && Some(below[j].0.key) == below[i - 1].0.parent;
                        assert(rs[j + 1] == below[j]);
                    }
                }
            }
        },
        None => {},
    }
}

proof fn lemma_profile_parents(buses: Seq<Bus>)
    ensures
        parents_listed_before(profile_rows(buses), None),
    decreases buses.len(),
{
    if buses.len() > 0 {
        let index = (buses.len() - 1) as nat;
        let bl = buses.last();
        let a = profile_rows(buses.drop_last());
        let b = forest_rows(bus_devices(bl), bus_label(bl, index), bus_key_text(bl, index), 0, None);
        lemma_profile_parents(buses.drop_last());
        lemma_forest_parents(bus_devices(bl), bus_label(bl, index), bus_key_text(bl, index), 0, None);
        let all = a + b;
        assert forall|i: int|
            0 <= i < all.len() && (#[trigger] all[i]).0.parent is Some implies all[i].0.parent == None::<Seq<char>>
                || exists|j: int| 0 <= j < i && Some(all[j].0.key) == all[i].0.parent by {
            if i >= a.len() {
                assert(all[i] == b[i - a.len()]);
                let j = choose|j: int| 0 <= j < i - a.len() && Some(b[j].0.key) == b[i - a.len()].0.parent;
                assert(all[a.len() + j] == b[j]);
            } else {
                assert(all[i] == a[i]);
                let j = choose|j: int| 0 <= j < i && Some(a[j].0.key) == a[i].0.parent;
                assert(all[j] == a[j]);
            }
        }
    }
}

/// Whether no two rows share an identity.
pub open spec fn row_keys_distinct(rows: Seq<DeviceRow>) -> bool {
    forall|i: int, j: int| 0 <= i < j < rows.len() ==> (#[trigger] rows[i]).key@ != (#[trigger] rows[j]).key@
}

proof fn lemma_find_unique(rows: Seq<DeviceRow>, key: Seq<char>, j: int, n: int)
    requires
        row_keys_distinct(rows),
        0 <= j < n <= rows.len(),
        rows[j].key@ == key,
    ensures
        find_key(rows, key, n) == j,
    decreases n,
{
    if n - 1 != j {
        assert(rows[j].key@ != rows[n - 1].key@);
        lemma_find_unique(rows, key, j, n - 1);
    }
}

proof fn lemma_ancestor_descends(rows: Seq<DeviceRow>, i: int, k: nat)
    requires
        parents_precede(rows),
        0 <= i < rows.len(),
    ensures
        ancestor(rows, i, k) < 0 || ancestor(rows, i, k) <= i - k,
    decreases k,
{
    if k > 0 {
        lemma_ancestor_descends(rows, i, (k - 1) as nat);
        let x = ancestor(rows, i, (k - 1) as nat);
        if 0 <= x < rows.len() {
            assert(parent_index(rows, x) < x);
        }
    }
}

/// When every row's parent comes before it, following parents ends.
pub proof fn lemma_precede_ends(rows: Seq<DeviceRow>)
    requires
        parents_precede(rows),
    ensures
        parent_chains_end(rows),
{
    assert forall|i: int| 0 <= i < rows.len() implies #[trigger] ancestor(rows, i, rows.len()) < 0 by {
        lemma_ancestor_descends(rows, i, rows.len());
    }
}

/// In the rows of a snapshot whose identities are distinct, every row's
/// parent is a row listed before it: following parents always ends.
pub proof fn law_rows_list_parents_first(s: Snapshot, rows: Seq<DeviceRow>)
    requires
        rows_extend(rows, Seq::empty(), profile_rows(s.profile.buses@)),
        row_keys_distinct(rows),
    ensures
        parents_precede(rows),
        parent_chains_end(rows),
        forall|i: int|
            0 <= i < rows.len() && (#[trigger] rows[i]).parent is Some ==> 0 <= parent_index(rows, i) < i
                && Some(rows[parent_index(rows, i)].key@) == opt_view(rows[i].parent),
{
    let expected = profile_rows(s.profile.buses@);
    lemma_profile_parents(s.profile.buses@);
    assert forall|i: int| 0 <= i < rows.len() implies #[trigger] parent_index(rows, i) < i && (rows[i].parent is Some ==> 0 <= parent_index(rows, i) && Some(rows[parent_index(rows, i)].key@) == opt_view(rows[i].parent)) by {
        assert(rows[0 + i].matches(expected[i]));
        match rows[i].parent {
            Some(p) => {
                assert(expected[i].0.parent is Some);
                let j = choose|j: int| 0 <= j < i && Some(expected[j].0.key) == expected[i].0.parent;
                assert(rows[0 + j].matches(expected[j]));
                lemma_find_unique(rows, p@, j, rows.len() as int);
                assert(rows[j].key@ == p@);
            },
            None => {},
        }
    }
    lemma_precede_ends(rows);
}

/// A search shows every row whose device matches it.
pub proof fn law_search_shows_matches(rows: Seq<DeviceRow>, query: Seq<char>, collapsed: Seq<String>, i: int)
    requires
        0 <= i < rows.len(),
        search_text(query).len() > 0,
        row_matches_search(rows, search_text(query), i),
    ensures
        is_visible(rows, query, collapsed, i),
{
    assert(ancestor(rows, i, 0) == i);
    assert(on_parent_chain(rows, i, i));
}

/// A search keeps the parent of every row it shows, and collapsed branches
/// do not hide anything from it.
pub proof fn law_search_keeps_ancestors(
    rows: Seq<DeviceRow>,
    query: Seq<char>,
    collapsed: Seq<String>,
    other_collapsed: Seq<String>,
    i: int,
)
    requires
        row_keys_distinct(rows),
        0 <= i < rows.len(),
        search_text(query).len() > 0,
        is_visible(rows, query, collapsed, i),
        0 <= parent_index(rows, i),
    ensures
        is_visible(rows, query, collapsed, parent_index(rows, i)),
        is_visible(rows, query, other_collapsed, i),
{
    let q = search_text(query);
    let (m, a) = choose|m: int, a: int|
        0 <= m < rows.len() && #[trigger] row_matches_search(rows, q, m) && #[trigger] on_parent_chain(rows, a, m)
            && rows[a].key@ == rows[i].key@;
    if a != i {
        if a < i {
            assert(rows[a].key@ != rows[i].key@);
        } else {
            assert(rows[i].key@ != rows[a].key@);
        }
    }
    let k = choose|k: nat| #[trigger] ancestor(rows, m, k) == a;
    let up = parent_index(rows, i);
    lemma_parent_range(rows, i);
    assert(ancestor(rows, m, k + 1) == up);
    assert(on_parent_chain(rows, up, m));
    assert(row_matches_search(rows, q, m) && on_parent_chain(rows, up, m) && rows[up].key@ == rows[up].key@);
}

/// Without a search, a row is hidden exactly when some ancestor is
/// collapsed: top-level rows are always shown, a row below a collapsed row
/// is hidden, and the parent of a shown row is shown.
pub proof fn law_collapse_hides_descendants(rows: Seq<DeviceRow>, query: Seq<char>, collapsed: Seq<String>, i: int)
    requires
        0 <= i < rows.len(),
        search_text(query).len() == 0,
    ensures
        rows[i].parent is None ==> is_visible(rows, query, collapsed, i),
        (rows[i].parent matches Some(p) && is_collapsed(collapsed, p@)) ==> !is_visible(rows, query, collapsed, i),
        (is_visible(rows, query, collapsed, i) && 0 <= parent_index(rows, i)) ==> is_visible(
            rows,
            query,
            collapsed,
            parent_index(rows, i),
        ),
{
    assert(ancestor(rows, i, 0) == i);
    if rows[i].parent is None {
        assert(ancestor(rows, i, 1) == -1);
        assert forall|t: nat| !parent_collapsed(rows, collapsed, #[trigger] ancestor(rows, i, t)) by {
            if t > 1 {
                lemma_ancestor_ended(rows, i, 1, t);
            }
        }
    }
    if rows[i].parent matches Some(p) && is_collapsed(collapsed, p@) {
        assert(parent_collapsed(rows, collapsed, ancestor(rows, i, 0)));
    }
    let up = parent_index(rows, i);
    if 0 <= up && under_collapsed(rows, collapsed, up) {
        let t = choose|t: nat| parent_collapsed(rows, collapsed, #[trigger] ancestor(rows, up, t));
        lemma_ancestor_shift(rows, i, t);
        assert(parent_collapsed(rows, collapsed, ancestor(rows, i, t + 1)));
    }
}

/// Whether alternate setting `i` is listed before `j`: by alternate setting
/// number, and in descriptor order among equal numbers.
pub open spec fn listed_before(ifs: Seq<Interface>, i: int, j: int) -> bool {
    ifs[i].alt_setting < ifs[j].alt_setting || (ifs[i].alt_setting == ifs[j].alt_setting && i < j)
}

/// Whether some group has the given interface number.
pub open spec fn has_group(groups: Seq<(u8, Seq<usize>)>, number: u8) -> bool {
    exists|k: int| 0 <= k < groups.len() && (#[trigger] groups[k]).0 == number
}

/// Whether `groups` holds, for each interface number of `ifs` in ascending
/// order, the positions of all its alternate settings, listed by alternate
/// setting number (stable among equal numbers).
pub open spec fn grouped_by_number(ifs: Seq<Interface>, groups: Seq<(u8, Seq<usize>)>) -> bool {
    &&& forall|k: int, l: int| 0 <= k < l < groups.len() ==> (#[trigger] groups[k]).0 < (#[trigger] groups[l]).0
    &&& forall|i: int| 0 <= i < ifs.len() ==> has_group(groups, #[trigger] ifs[i].number)
    &&& forall|k: int, i: usize|
        #![trigger groups[k].1.contains(i)]
        0 <= k < groups.len() ==> (groups[k].1.contains(i) <==> (i < ifs.len() && ifs[i as int].number
            == groups[k].0))
    &&& forall|k: int, a: int, b: int|
        #![trigger groups[k].1[a], groups[k].1[b]]
        0 <= k < groups.len() && 0 <= a < b < groups[k].1.len() ==> listed_before(
            ifs,
            groups[k].1[a] as int,
            groups[k].1[b] as int,
        )
    &&& forall|k: int| 0 <= k < groups.len() ==> (#[trigger] groups[k]).1.len() > 0
}

/// Interface groups as plain values.
pub open spec fn groups_view(groups: Seq<(u8, Vec<usize>)>) -> Seq<(u8, Seq<usize>)> {
    groups.map_values(|g: (u8, Vec<usize>)| (g.0, g.1@))
}

/// The interfaces of a configuration grouped by interface number, in
/// ascending order; each group lists the positions (in the configuration)
/// of its alternate settings, ordered by alternate setting number.
pub fn interfaces(config: &Configuration) -> (groups: Vec<(u8, Vec<usize>)>)
    ensures
        grouped_by_number(config.interfaces@, groups_view(groups@)),
{
    let ifs = &config.interfaces;
    let n = ifs.len();
    let ghost s = ifs@;
    let mut groups: Vec<(u8, Vec<usize>)> = Vec::new();
    let mut v: u16 = 0;
    while v < 256
        invariant
            v <= 256,
            n == s.len(),
            s == ifs@,
            s == config.interfaces@,
            forall|k: int, l: int| 0 <= k < l < groups@.len() ==> (#[trigger] groups@[k]).0 < (#[trigger] groups@[l]).0,
            forall|k: int| 0 <= k < groups@.len() ==> (#[trigger] groups@[k]).0 < v,
            forall|i: int|
                #![trigger s[i]]
                0 <= i < n && s[i].number < v ==> exists|k: int| 0 <= k < groups@.len() && (#[trigger] groups@[k]).0 == s[i].number,
            forall|k: int, i: usize|
                #![trigger groups@[k].1@.contains(i)]
                0 <= k < groups@.len() ==> (groups@[k].1@.contains(i) <==> (i < n && s[i as int].number
                    == groups@[k].0)),
            forall|k: int, a: int, b: int|
                #![trigger groups@[k].1@[a], groups@[k].1@[b]]
                0 <= k < groups@.len() && 0 <= a < b < groups@[k].1@.len() ==> listed_before(
                    s,
                    groups@[k].1@[a] as int,
                    groups@[k].1@[b] as int,
                ),
            forall|k: int| 0 <= k < groups@.len() ==> (#[trigger] groups@[k]).1@.len() > 0,
        decreases 256 - v,
    {
        let number = v as u8;
        let mut members: Vec<usize> = Vec::new();
        for alt in 0..256u16
            invariant
                n == s.len(),
                s == ifs@,
                number == v,
                forall|i: usize| #[trigger] members@.contains(i) <==> (i < n && s[i as int].number == number && s[i as int].alt_setting < alt),
                forall|a: int, b: int| 0 <= a < b < members@.len() ==> listed_before(s, members@[a] as int, members@[b] as int),
                forall|a: int| 0 <= a < members@.len() ==> members@[a] < n && s[members@[a] as int].number == number && s[members@[a] as int].alt_setting < alt,
        {
            for i in 0..n
                invariant
                    n == s.len(),
                    s == ifs@,
                    number == v,
                    alt < 256,
                    forall|j: usize| #[trigger] members@.contains(j) <==> (j < n && s[j as int].number == number && (s[j as int].alt_setting < alt || (s[j as int].alt_setting == alt && j < i))),
                    forall|a: int, b: int| 0 <= a < b < members@.len() ==> listed_before(s, members@[a] as int, members@[b] as int),
                    forall|a: int| 0 <= a < members@.len() ==> members@[a] < n && s[members@[a] as int].number == number && (s[members@[a] as int].alt_setting < alt || (s[members@[a] as int].alt_setting == alt && members@[a] < i)),
            {
                let item = ifs[i];
                if item.number == number && item.alt_setting as u16 == alt {
                    let ghost before = members@;
                    members.push(i);
                    proof {
                        assert(members@ == before.push(i));
                        assert forall|j: usize| #[trigger] members@.contains(j) <==> (before.contains(j) || j == i) by {
                            if members@.contains(j) && j != i {
                                let a = choose|a: int| 0 <= a < members@.len() && members@[a] == j;
                                assert(a < before.len());
                                assert(before[a] == j);
                            }
                            if before.contains(j) {
                                let a = choose|a: int| 0 <= a < before.len() && before[a] == j;
                                assert(members@[a] == j);
                            }
                            if j == i {
                                assert(members@[before.len() as int] == i);
                            }
                        }
                        assert forall|j: usize| #[trigger] members@.contains(j) <==> (j < n && s[j as int].number == number && (s[j as int].alt_setting < alt || (s[j as int].alt_setting == alt && j < i + 1))) by {
                            assert(before.contains(j) <==> (j < n && s[j as int].number == number && (s[j as int].alt_setting < alt || (s[j as int].alt_setting == alt && j < i))));
                        }
                    }
                }
            }
        }
        if members.len() > 0 {
            let ghost before = groups@;
            groups.push((number, members));
            proof {
                assert forall|k: int, i: usize|
                    #![trigger groups@[k].1@.contains(i)]
                    0 <= k < groups@.len() implies (groups@[k].1@.contains(i) <==> (i < n && s[i as int].number
                        == groups@[k].0)) by {
                    if k < before.len() {
                        assert(groups@[k] == before[k]);
                    }
                }
                assert forall|i: int|
                    #![trigger s[i]]
                    0 <= i < n && s[i].number < v + 1 implies exists|k: int| 0 <= k < groups@.len() && (#[trigger] groups@[k]).0 == s[i].number by {
                    if s[i].number == number {
                        assert(groups@[before.len() as int].0 == s[i].number);
                    } else {
                        let k = choose|k: int| 0 <= k < before.len() && (#[trigger] before[k]).0 == s[i].number;
                        assert(groups@[k] == before[k]);
                    }
                }
            }
        } else {
            proof {
                assert forall|i: int| 0 <= i < n implies s[i].number != number by {
                    if s[i].number == number {
                        assert(s[i].alt_setting < 256);
                        assert(members@.contains(i as usize));
                    }
                }
            }
        }
        v = v + 1;
    }
    proof {
        assert(v == 256);
        let gv = groups_view(groups@);
        assert forall|k: int| 0 <= k < groups@.len() implies #[trigger] gv[k] == (groups@[k].0, groups@[k].1@) by {}
        assert(grouped_by_number(s, gv)) by {
            assert forall|i: int| 0 <= i < s.len() implies has_group(gv, #[trigger] s[i].number) by {
                assert(s[i].number < v);
                let k = choose|k: int| 0 <= k < groups@.len() && (#[trigger] groups@[k]).0 == s[i].number;
                assert(gv[k].0 == s[i].number);
            }
            assert forall|k: int, l: int| 0 <= k < l < gv.len() implies (#[trigger] gv[k]).0 < (#[trigger] gv[l]).0 by {
                assert(groups@[k].0 < groups@[l].0);
            }
            assert forall|k: int, i: usize|
                #![trigger gv[k].1.contains(i)]
                0 <= k < gv.len() implies (gv[k].1.contains(i) <==> (i < n && s[i as int].number == gv[k].0)) by {
                assert(gv[k] == (groups@[k].0, groups@[k].1@));
            }
            assert forall|k: int, a: int, b: int|
                #![trigger gv[k].1[a], gv[k].1[b]]
                0 <= k < gv.len() && 0 <= a < b < gv[k].1.len() implies listed_before(s, gv[k].1[a] as int, gv[k].1[b] as int) by {
                assert(gv[k] == (groups@[k].0, groups@[k].1@));
                assert(listed_before(s, groups@[k].1@[a] as int, groups@[k].1@[b] as int));
            }
            assert forall|k: int| 0 <= k < gv.len() implies (#[trigger] gv[k]).1.len() > 0 by {
                assert(gv[k] == (groups@[k].0, groups@[k].1@));
            }

        }

    }
    groups
}

} // verus!
