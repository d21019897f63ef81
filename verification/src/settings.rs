//! Desktop preferences read from the settings portal, and the scrollbar
//! policy that follows from them and from the platform.
use crate::text::str_eq;
use vstd::prelude::*;

verus! {

/// The cross-desktop appearance namespace of the settings portal.
pub const APPEARANCE: &'static str = "org.freedesktop.appearance";

/// Optional backend extension, not part of the cross-desktop portal contract.
pub const GTK_INTERFACE: &'static str = "org.gnome.desktop.interface";

/// Preferences that change how scrollbars are drawn.
#[derive(Clone, Copy, Debug, PartialEq, Eq, Structural)]
pub struct DesktopPreferences {
    pub overlay_scrolling: Option<bool>,
    pub high_contrast: bool,
    pub reduced_motion: bool,
}

impl Default for DesktopPreferences {
    fn default() -> (prefs: Self)
        ensures
            prefs == (DesktopPreferences { overlay_scrolling: None, high_contrast: false, reduced_motion: false }),
    {
        DesktopPreferences { overlay_scrolling: None, high_contrast: false, reduced_motion: false }
    }
}

/// A setting's value as the portal delivers it, by the type it converts to:
/// a boolean, an unsigned 32-bit number, or anything else.
#[derive(Clone, Copy, Debug, PartialEq, Eq, Structural)]
pub enum SettingValue {
    Bool(bool),
    U32(u32),
    Other,
}

/// The preferences after one setting is read.
pub open spec fn updated(
    prefs: DesktopPreferences,
    namespace: Seq<char>,
    key: Seq<char>,
    value: SettingValue,
) -> DesktopPreferences {
    if namespace == GTK_INTERFACE@ && key == "overlay-scrolling"@ {
        DesktopPreferences {
            overlay_scrolling: match value {
                SettingValue::Bool(b) => Some(b),
                _ => None,
            },
            ..prefs
        }
    } else if namespace == APPEARANCE@ && key == "contrast"@ {
        DesktopPreferences { high_contrast: value == SettingValue::U32(1), ..prefs }
    } else if namespace == APPEARANCE@ && key == "reduced-motion"@ {
        DesktopPreferences { reduced_motion: value == SettingValue::U32(1), ..prefs }
    } else {
        prefs
    }
}

/// Apply one setting; returns whether the preferences changed.
pub fn update(prefs: &mut DesktopPreferences, namespace: &str, key: &str, value: &SettingValue) -> (changed: bool)
    ensures
        *final(prefs) == updated(*old(prefs), namespace@, key@, *value),
        changed == (*final(prefs) != *old(prefs)),
{
    proof {
        reveal_strlit("overlay-scrolling");
        reveal_strlit("contrast");
        reveal_strlit("reduced-motion");
    }
    let previous = *prefs;
    if str_eq(namespace, GTK_INTERFACE) && str_eq(key, "overlay-scrolling") {
        prefs.overlay_scrolling = match value {
            SettingValue::Bool(b) => Some(*b),
            _ => None,
        };
    } else if str_eq(namespace, APPEARANCE) && str_eq(key, "contrast") {
        prefs.high_contrast = match value {
            SettingValue::U32(n) => *n == 1,
            _ => false,
        };
    } else if str_eq(namespace, APPEARANCE) && str_eq(key, "reduced-motion") {
        prefs.reduced_motion = match value {
            SettingValue::U32(n) => *n == 1,
            _ => false,
        };
    }
    let changed = prefs.overlay_scrolling != previous.overlay_scrolling || prefs.high_contrast
        != previous.high_contrast || prefs.reduced_motion != previous.reduced_motion;
    changed
}

/// Reading one setting changes at most the preference that it names, and a
/// setting that names none leaves all of them as they were.
pub proof fn law_update_touches_one_preference(
    prefs: DesktopPreferences,
    namespace: Seq<char>,
    key: Seq<char>,
    value: SettingValue,
)
    ensures
        ({
            let next = updated(prefs, namespace, key, value);
            &&& next.overlay_scrolling != prefs.overlay_scrolling ==> namespace == GTK_INTERFACE@
                && key == "overlay-scrolling"@
            &&& next.high_contrast != prefs.high_contrast ==> namespace == APPEARANCE@ && key
                == "contrast"@
            &&& next.reduced_motion != prefs.reduced_motion ==> namespace == APPEARANCE@ && key
                == "reduced-motion"@
        }),
{
}

/// Reading a setting and then reading its earlier value again restores the
/// preferences: a change can always be reverted.
pub proof fn law_update_reverts(
    prefs: DesktopPreferences,
    namespace: Seq<char>,
    key: Seq<char>,
    value: SettingValue,
    earlier: SettingValue,
)
    requires
        updated(prefs, namespace, key, earlier) == prefs,
    ensures
        updated(updated(prefs, namespace, key, value), namespace, key, earlier) == prefs,
{
}

/// The platform the application runs on.
#[derive(Clone, Copy, Debug, PartialEq, Eq, Structural)]
pub enum Platform {
    Mac,
    Windows,
    Linux,
}

/// The platform named by a target operating system (`macos`, `windows`, or
/// any other, which is treated as Linux).
pub open spec fn platform_of(os: Seq<char>) -> Platform {
    if os == "macos"@ {
        Platform::Mac
    } else if os == "windows"@ {
        Platform::Windows
    } else {
        Platform::Linux
    }
}

/// The platform for the operating system the application was built for.
pub fn platform(os: &str) -> (p: Platform)
    ensures
        p == platform_of(os@),
{
    if str_eq(os, "macos") {
        Platform::Mac
    } else if str_eq(os, "windows") {
        Platform::Windows
    } else {
        Platform::Linux
    }
}

/// When scrollbars are shown.
#[derive(Clone, Copy, Debug, PartialEq, Eq, Structural)]
pub enum ScrollbarMode {
    /// While the content scrolls.
    Scrolling,
    /// While the pointer is over the pane.
    Hover,
    /// Always.
    Always,
}

/// The scrollbar visibility for a platform, its auto-hide setting and the
/// desktop preferences.
pub open spec fn mode_of(platform: Platform, auto_hide: bool, prefs: DesktopPreferences) -> ScrollbarMode {
    if prefs.high_contrast {
        ScrollbarMode::Always
    } else {
        match platform {
            Platform::Mac => if auto_hide {
                ScrollbarMode::Scrolling
            } else {
                ScrollbarMode::Always
            },
            Platform::Windows => if auto_hide {
                ScrollbarMode::Hover
            } else {
                ScrollbarMode::Always
            },
            Platform::Linux => if prefs.overlay_scrolling == Some(true) {
                ScrollbarMode::Hover
            } else {
                ScrollbarMode::Always
            },
        }
    }
}

pub fn mode(platform: Platform, auto_hide: bool, prefs: DesktopPreferences) -> (m: ScrollbarMode)
    ensures
        m == mode_of(platform, auto_hide, prefs),
{
    if prefs.high_contrast {
        return ScrollbarMode::Always;
    }
    match platform {
        Platform::Mac => if auto_hide {
            ScrollbarMode::Scrolling
        } else {
            ScrollbarMode::Always
        },
        Platform::Windows => if auto_hide {
            ScrollbarMode::Hover
        } else {
            ScrollbarMode::Always
        },
        Platform::Linux => if prefs.overlay_scrolling == Some(true) {
            ScrollbarMode::Hover
        } else {
            ScrollbarMode::Always
        },
    }
}

/// High contrast keeps scrollbars visible everywhere, and on Linux missing or
/// malformed overlay settings fall back to visible scrollbars.
pub proof fn law_scrollbars_stay_visible(platform: Platform, auto_hide: bool, prefs: DesktopPreferences)
    ensures
        prefs.high_contrast ==> mode_of(platform, auto_hide, prefs) == ScrollbarMode::Always,
        platform == Platform::Linux && prefs.overlay_scrolling != Some(true) ==> mode_of(
            platform,
            auto_hide,
            prefs,
        ) == ScrollbarMode::Always,
{
}

} // verus!
