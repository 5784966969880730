//! Tests of the About panel's data and state.
use ferrite_core::about::{
    get_shortcuts, AboutPanel, AboutPanelOutput, AboutSection, Shortcut, ShortcutCategory,
};

#[test]
fn test_about_panel_new() {
    let panel = AboutPanel::new();
    assert_eq!(panel.active_section, AboutSection::About);
    assert!(panel.collapsed_categories.is_empty());
}

#[test]
fn test_about_panel_default() {
    let panel = AboutPanel::default();
    assert_eq!(panel.active_section, AboutSection::About);
}

#[test]
fn test_about_section_label() {
    assert_eq!(AboutSection::About.label(), "About");
    assert_eq!(AboutSection::Shortcuts.label(), "Shortcuts");
}

#[test]
fn test_shortcut_category_all() {
    let categories = ShortcutCategory::all();
    assert_eq!(categories.len(), 6);
    assert_eq!(categories[0], ShortcutCategory::File);
}

#[test]
fn test_get_shortcuts_file() {
    let shortcuts = get_shortcuts(ShortcutCategory::File);
    assert!(!shortcuts.is_empty());
    assert_eq!(shortcuts[0].keys, "Ctrl+N");
    assert_eq!(shortcuts[0].action, "New File");
}

#[test]
fn test_about_panel_output_default() {
    let output = AboutPanelOutput::default();
    assert!(!output.close_requested);
}

#[test]
fn test_toggle_category_twice_restores() {
    let mut panel = AboutPanel::new();
    assert!(!panel.is_collapsed(ShortcutCategory::Edit));
    panel.toggle_category(ShortcutCategory::Edit);
    assert!(panel.is_collapsed(ShortcutCategory::Edit));
    assert!(!panel.is_collapsed(ShortcutCategory::File));
    panel.toggle_category(ShortcutCategory::Edit);
    assert!(!panel.is_collapsed(ShortcutCategory::Edit));
}

#[test]
fn test_category_labels_and_icons() {
    for c in ShortcutCategory::all() {
        assert!(!c.label().is_empty());
        assert!(!c.icon().is_empty());
        assert!(!get_shortcuts(c).is_empty());
    }
    assert_eq!(AboutSection::About.icon().is_empty(), false);
}

#[test]
fn test_shortcut_new() {
    let s = Shortcut::new("Ctrl+Q", "Quit");
    assert_eq!(s.keys, "Ctrl+Q");
    assert_eq!(s.action, "Quit");
}
