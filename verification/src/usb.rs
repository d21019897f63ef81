//! The USB device model: the parts of a profiled device that the inventory
//! reads, as plain values.
use crate::text::{decimal, lemma_decimal_digits, push_decimal, push_str};
use vstd::prelude::*;

verus! {

/// Negotiated bus speed of a device.
#[derive(Clone, Copy, Debug, PartialEq, Eq, Structural)]
pub enum Speed {
    Unknown,
    LowSpeed,
    FullSpeed,
    HighSpeed,
    HighBandwidth,
    SuperSpeed,
    SuperSpeedPlus,
    SuperSpeedPlusX2,
    Usb40Gbps,
    Usb80Gbps,
}

/// Endpoint transfer type.
#[derive(Clone, Copy, Debug, PartialEq, Eq, Structural)]
pub enum TransferType {
    Control,
    Isochronous,
    Bulk,
    Interrupt,
}

} // verus!

verus! {

/// A version number as the device reports it (major, minor, sub-minor).
#[derive(Clone, Copy, Debug, PartialEq, Eq, Structural)]
pub struct Version(pub u8, pub u8, pub u8);

/// One alternate setting of an interface.
#[derive(Clone, Copy, Debug, PartialEq, Eq, Structural)]
pub struct Interface {
    /// bInterfaceNumber
    pub number: u8,
    /// bAlternateSetting
    pub alt_setting: u8,
    /// Whether this alternate setting is the one in use.
    pub active: bool,
}

/// One configuration of a device, with every alternate setting of its interfaces.
#[derive(Clone, Debug)]
pub struct Configuration {
    /// bConfigurationValue
    pub number: u8,
    /// Whether this is the configuration in use.
    pub active: bool,
    pub interfaces: Vec<Interface>,
}

/// Descriptor data that is only available once the device could be opened.
#[derive(Clone, Debug)]
pub struct DeviceExtra {
    /// bMaxPacketSize0, as it is encoded in the device descriptor.
    pub max_packet_size: u8,
    pub negotiated_speed: Option<Speed>,
    pub configurations: Vec<Configuration>,
}

/// Where a device sits: its bus, its address on the bus, and the port at
/// each tier from the root (empty for the bus controller itself).
#[derive(Clone, Debug)]
pub struct DeviceLocation {
    pub bus: u8,
    /// Device address; reassigned on every enumeration.
    pub number: u8,
    pub tree_positions: Vec<u8>,
}

/// A profiled USB device and the devices attached below it.
#[derive(Debug)]
pub struct Device {
    pub name: String,
    pub vendor_id: Option<u16>,
    pub product_id: Option<u16>,
    pub location_id: DeviceLocation,
    pub serial_num: Option<String>,
    pub manufacturer: Option<String>,
    pub bcd_usb: Option<Version>,
    /// Base class code from the device descriptor.
    pub class: Option<u8>,
    pub sub_class: Option<u8>,
    pub protocol: Option<u8>,
    pub extra: Option<DeviceExtra>,
    /// Why some descriptors of this device could not be read.
    pub profiler_error: Option<String>,
    pub devices: Option<Vec<Device>>,
}

/// A USB bus and the devices attached to it.
#[derive(Debug)]
pub struct Bus {
    pub name: String,
    pub usb_bus_number: Option<u8>,
    pub devices: Option<Vec<Device>>,
}

/// All buses of the system.
#[derive(Debug)]
pub struct SystemProfile {
    pub buses: Vec<Bus>,
}

impl Default for Device {
    fn default() -> (d: Self)
        ensures
            d.name@ == Seq::<char>::empty(),
            d.vendor_id is None,
            d.product_id is None,
            d.location_id.bus == 0,
            d.location_id.number == 0,
            d.location_id.tree_positions@ == Seq::<u8>::empty(),
            d.serial_num is None,
            d.manufacturer is None,
            d.bcd_usb is None,
            d.class is None,
            d.sub_class is None,
            d.protocol is None,
            d.extra is None,
            d.profiler_error is None,
            d.devices is None,
    {
        Device {
            name: String::new(),
            vendor_id: None,
            product_id: None,
            location_id: DeviceLocation { bus: 0, number: 0, tree_positions: Vec::new() },
            serial_num: None,
            manufacturer: None,
            bcd_usb: None,
            class: None,
            sub_class: None,
            protocol: None,
            extra: None,
            profiler_error: None,
            devices: None,
        }
    }
}

impl Default for Bus {
    fn default() -> (b: Self)
        ensures
            b.name@ == Seq::<char>::empty(),
            b.usb_bus_number is None,
            b.devices is None,
    {
        Bus { name: String::new(), usb_bus_number: None, devices: None }
    }
}

/// The text of an optional string, empty when absent.
pub open spec fn text_or_empty(s: Option<String>) -> Seq<char> {
    match s {
        Some(t) => t@,
        None => Seq::empty(),
    }
}

/// The view of an optional string.
pub open spec fn opt_view(s: Option<String>) -> Option<Seq<char>> {
    match s {
        Some(t) => Some(t@),
        None => None,
    }
}

/// A configuration as plain values.
pub open spec fn configuration_view(c: Configuration) -> (u8, bool, Seq<Interface>) {
    (c.number, c.active, c.interfaces@)
}

/// The descriptor data of a device as plain values.
pub open spec fn extra_view(e: Option<DeviceExtra>) -> Option<(u8, Option<Speed>, Seq<(u8, bool, Seq<Interface>)>)> {
    match e {
        Some(x) => Some(
            (x.max_packet_size, x.negotiated_speed, x.configurations@.map_values(|c: Configuration| configuration_view(c))),
        ),
        None => None,
    }
}

/// The devices attached directly below a device.
pub open spec fn children(d: Device) -> Seq<Device> {
    match d.devices {
        Some(v) => v@,
        None => Seq::empty(),
    }
}

/// The devices attached directly to a bus.
pub open spec fn bus_devices(b: Bus) -> Seq<Device> {
    match b.devices {
        Some(v) => v@,
        None => Seq::empty(),
    }
}

impl Configuration {
    /// A copy of this configuration.
    pub fn duplicate(&self) -> (c: Configuration)
        ensures
            configuration_view(c) == configuration_view(*self),
    {
        let interfaces = self.interfaces.clone();
        assert(interfaces@ =~= self.interfaces@);
        Configuration { number: self.number, active: self.active, interfaces }
    }
}

impl DeviceExtra {
    /// A copy of this descriptor data.
    pub fn duplicate(&self) -> (e: DeviceExtra)
        ensures
            extra_view(Some(e)) == extra_view(Some(*self)),
    {
        let mut configurations: Vec<Configuration> = Vec::new();
        let n = self.configurations.len();
        for i in 0..n
            invariant
                n == self.configurations@.len(),
                configurations@.len() == i,
                forall|j: int|
                    0 <= j < i ==> configuration_view(#[trigger] configurations@[j]) == configuration_view(
                        self.configurations@[j],
                    ),
        {
            configurations.push(self.configurations[i].duplicate());
        }
        let e = DeviceExtra {
            max_packet_size: self.max_packet_size,
            negotiated_speed: self.negotiated_speed,
            configurations,
        };
        assert(e.configurations@.map_values(|c: Configuration| configuration_view(c))
            =~= self.configurations@.map_values(|c: Configuration| configuration_view(c)));
        e
    }
}

fn copy_text(s: &Option<String>) -> (c: Option<String>)
    ensures
        c == *s,
{
    match s {
        Some(t) => Some(t.clone()),
        None => None,
    }
}

impl Device {
    /// Whether two devices carry the same information, not counting the
    /// devices attached below them.
    pub open spec fn same_info(self, other: Device) -> bool {
        &&& self.name == other.name
        &&& self.vendor_id == other.vendor_id
        &&& self.product_id == other.product_id
        &&& self.location_id.bus == other.location_id.bus
        &&& self.location_id.number == other.location_id.number
        &&& self.location_id.tree_positions@ == other.location_id.tree_positions@
        &&& self.serial_num == other.serial_num
        &&& self.manufacturer == other.manufacturer
        &&& self.bcd_usb == other.bcd_usb
        &&& self.class == other.class
        &&& self.sub_class == other.sub_class
        &&& self.protocol == other.protocol
        &&& extra_view(self.extra) == extra_view(other.extra)
        &&& self.profiler_error == other.profiler_error
    }

    /// A copy of this device without the devices attached below it.
    pub fn detached(&self) -> (d: Device)
        ensures
            d.same_info(*self),
            d.devices is None,
    {
        let tree_positions = self.location_id.tree_positions.clone();
        assert(tree_positions@ =~= self.location_id.tree_positions@);
        Device {
            name: self.name.clone(),
            vendor_id: self.vendor_id,
            product_id: self.product_id,
            location_id: DeviceLocation {
                bus: self.location_id.bus,
                number: self.location_id.number,
                tree_positions,
            },
            serial_num: copy_text(&self.serial_num),
            manufacturer: copy_text(&self.manufacturer),
            bcd_usb: self.bcd_usb,
            class: self.class,
            sub_class: self.sub_class,
            protocol: self.protocol,
            extra: match &self.extra {
                Some(e) => Some(e.duplicate()),
                None => None,
            },
            profiler_error: copy_text(&self.profiler_error),
            devices: None,
        }
    }

    /// The port path of the device: its bus and the port at each tier.
    pub fn port_path(&self) -> (path: String)
        ensures
            path@ == port_path_text(self.location_id.bus, self.location_id.tree_positions@),
    {
        port_path_string(self.location_id.bus, &self.location_id.tree_positions)
    }

    /// Gets the base class code byte.
    pub fn base_class_code(&self) -> (code: Option<u8>)
        ensures
            code == self.class,
    {
        self.class
    }
}

} // verus!

verus! {

/// Port numbers joined by dots.
pub open spec fn dotted(ports: Seq<u8>) -> Seq<char>
    decreases ports.len(),
{
    if ports.len() == 0 {
        Seq::empty()
    } else if ports.len() == 1 {
        decimal(ports[0] as nat)
    } else {
        dotted(ports.drop_last()) + "."@ + decimal(ports.last() as nat)
    }
}

/// The text of a port path: `{bus}-0` for a bus controller, otherwise
/// `{bus}-{port}.{port}...`.
pub open spec fn port_path_text(bus: u8, ports: Seq<u8>) -> Seq<char> {
    if ports.len() == 0 {
        decimal(bus as nat) + "-0"@
    } else {
        decimal(bus as nat) + "-"@ + dotted(ports)
    }
}

/// The port path text, written as cyme's `PortPath` displays it.
fn port_path_string(bus: u8, ports: &Vec<u8>) -> (path: String)
    ensures
        path@ == port_path_text(bus, ports@),
{
    proof {
        reveal_strlit("-0");
        reveal_strlit("-");
        reveal_strlit(".");
    }
    let mut path = String::new();
    push_decimal(&mut path, bus as u64);
    let n = ports.len();
    if n == 0 {
        push_str(&mut path, "-0");
        return path;
    }
    push_str(&mut path, "-");
    let ghost head = path@;
    for i in 0..n
        invariant
            n == ports@.len(),
            n > 0,
            head == decimal(bus as nat) + "-"@,
            path@ == head + dotted(ports@.take(i as int)),
    {
        proof {
            assert(ports@.take(i + 1).drop_last() =~= ports@.take(i as int));
            assert(ports@.take(i + 1).last() == ports@[i as int]);
        }
        if i > 0 {
            push_str(&mut path, ".");
        }
        push_decimal(&mut path, ports[i] as u64);
        proof {
            if i == 0 {
                assert(ports@.take(1)[0] == ports@[0]);
                assert(path@ =~= head + dotted(ports@.take(1)));
            } else {
                assert(path@ =~= head + dotted(ports@.take(i + 1)));
            }
        }
    }
    proof {
        assert(ports@.take(n as int) =~= ports@);
    }
    path
}

/// A port path holds only digits, dashes and dots.
pub proof fn lemma_port_path_chars(bus: u8, ports: Seq<u8>)
    ensures
        forall|i: int|
            0 <= i < port_path_text(bus, ports).len() ==> {
                let c = #[trigger] port_path_text(bus, ports)[i];
                (48 <= c as int <= 57) || c == '-' || c == '.'
            },
{
    reveal_strlit("-0");
    reveal_strlit("-");
    lemma_decimal_digits(bus as nat);
    lemma_dotted_chars(ports);
    let t = port_path_text(bus, ports);
    let d = decimal(bus as nat);
    assert forall|i: int| 0 <= i < t.len() implies {
        let c = #[trigger] t[i];
        (48 <= c as int <= 57) || c == '-' || c == '.'
    } by {
        if i < d.len() {
            assert(t[i] == d[i]);
        } else if ports.len() == 0 {
            assert(t[i] == "-0"@[i - d.len()]);
        } else if i == d.len() {
            assert(t[i] == '-');
        } else {
            assert(t[i] == dotted(ports)[i - d.len() - 1]);
        }
    }
}

proof fn lemma_dotted_chars(ports: Seq<u8>)
    ensures
        forall|i: int|
            0 <= i < dotted(ports).len() ==> {
                let c = #[trigger] dotted(ports)[i];
                (48 <= c as int <= 57) || c == '.'
            },
    decreases ports.len(),
{
    reveal_strlit(".");
    if ports.len() == 1 {
        lemma_decimal_digits(ports[0] as nat);
    } else if ports.len() > 1 {
        lemma_dotted_chars(ports.drop_last());
        lemma_decimal_digits(ports.last() as nat);
        let p = dotted(ports.drop_last());
        let d = decimal(ports.last() as nat);
        let t = dotted(ports);
        assert forall|i: int| 0 <= i < t.len() implies {
            let c = #[trigger] t[i];
            (48 <= c as int <= 57) || c == '.'
        } by {
            if i < p.len() {
                assert(t[i] == p[i]);
            } else if i == p.len() {
                assert(t[i] == '.');
            } else {
                assert(t[i] == d[i - p.len() - 1]);
            }
        }
    }
}

} // verus!
