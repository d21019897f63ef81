use usbloom::settings::{
    mode, update, DesktopPreferences, Platform, ScrollbarMode, SettingValue, APPEARANCE,
    GTK_INTERFACE,
};

#[test]
fn optional_settings_can_change_and_revert_without_losing_other_preferences() {
    let mut prefs = DesktopPreferences::default();
    assert!(update(
        &mut prefs,
        GTK_INTERFACE,
        "overlay-scrolling",
        &SettingValue::Bool(true)
    ));
    assert!(update(&mut prefs, APPEARANCE, "contrast", &SettingValue::U32(1)));
    assert!(!update(
        &mut prefs,
        APPEARANCE,
        "unknown-key",
        &SettingValue::Bool(true)
    ));
    assert_eq!(prefs.overlay_scrolling, Some(true));
    assert!(update(
        &mut prefs,
        GTK_INTERFACE,
        "overlay-scrolling",
        &SettingValue::U32(42)
    ));
    assert_eq!(prefs.overlay_scrolling, None);
    assert!(prefs.high_contrast);
    assert!(update(&mut prefs, APPEARANCE, "contrast", &SettingValue::U32(42)));
    assert!(!prefs.high_contrast);
    assert!(update(
        &mut prefs,
        APPEARANCE,
        "reduced-motion",
        &SettingValue::U32(1)
    ));
    assert!(prefs.reduced_motion);
    assert!(update(
        &mut prefs,
        APPEARANCE,
        "reduced-motion",
        &SettingValue::U32(0)
    ));
    assert!(!prefs.reduced_motion);
}

#[test]
fn settings_in_the_wrong_namespace_are_ignored() {
    let mut prefs = DesktopPreferences::default();
    assert!(!update(&mut prefs, GTK_INTERFACE, "contrast", &SettingValue::U32(1)));
    assert!(!update(
        &mut prefs,
        APPEARANCE,
        "overlay-scrolling",
        &SettingValue::Bool(true)
    ));
    assert_eq!(prefs, DesktopPreferences::default());
    // Reading the same value twice reports no change the second time.
    assert!(update(&mut prefs, APPEARANCE, "contrast", &SettingValue::U32(1)));
    assert!(!update(&mut prefs, APPEARANCE, "contrast", &SettingValue::U32(1)));
    assert!(update(&mut prefs, APPEARANCE, "contrast", &SettingValue::Other));
    assert!(!prefs.high_contrast);
}

#[test]
fn scrollbar_mode_follows_platform_and_preferences() {
    let mut prefs = DesktopPreferences::default();
    assert_eq!(mode(Platform::Mac, true, prefs), ScrollbarMode::Scrolling);
    assert_eq!(mode(Platform::Mac, false, prefs), ScrollbarMode::Always);
    assert_eq!(mode(Platform::Windows, true, prefs), ScrollbarMode::Hover);
    assert_eq!(mode(Platform::Windows, false, prefs), ScrollbarMode::Always);
    assert_eq!(mode(Platform::Linux, true, prefs), ScrollbarMode::Always);
    prefs.overlay_scrolling = Some(true);
    assert_eq!(mode(Platform::Linux, false, prefs), ScrollbarMode::Hover);
    prefs.overlay_scrolling = Some(false);
    assert_eq!(mode(Platform::Linux, true, prefs), ScrollbarMode::Always);
    prefs.overlay_scrolling = Some(true);
    prefs.high_contrast = true;
    assert_eq!(mode(Platform::Linux, false, prefs), ScrollbarMode::Always);
    assert_eq!(mode(Platform::Mac, true, prefs), ScrollbarMode::Always);
    assert_eq!(mode(Platform::Windows, true, prefs), ScrollbarMode::Always);
}
