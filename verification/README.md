# usbloom

A USB device explorer: a searchable tree of the devices on every bus, with
their configurations, interfaces and endpoints, kept current as devices come
and go, and snapshots that can be saved and explored without the hardware.

The library under `src/` holds the explorer's logic, verified with Verus:

- `usb` — the device model as plain values, and device port paths.
- `inventory` — device identities, the rows of the device tree, search and
  collapsed hubs, read errors, the checks a snapshot file must pass, and the
  text shown for ids, classes, speeds and packet sizes.
- `explorer` — the navigation state: selection, collapsed hubs, and the
  configuration and alternate settings being viewed.
- `monitor` — coalescing of hotplug notifications into one scan at a time.
- `descriptors` — endpoint service intervals and transfer descriptions.
- `settings` — desktop preferences and the scrollbar policy.
- `text` — decimal and hexadecimal formatting and string helpers.

`app/` is the desktop application around it: profiling with cyme, hotplug
events from nusb, snapshot files, and the window drawn with GPUI Kit.
