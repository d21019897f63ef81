//! USB device inventory, descriptor presentation and hotplug scan coalescing.
pub mod descriptors;
pub mod explorer;
pub mod inventory;
pub mod monitor;
pub mod settings;
pub mod text;
pub mod usb;
