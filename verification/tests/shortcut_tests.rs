use mdr::shortcuts::{shortcut_for, Shortcut};

#[test]
fn ctrl_letters_are_shortcuts() {
    assert_eq!(shortcut_for(true, false, false, false, Some("o")), Some(Shortcut::OpenFolder));
    assert_eq!(shortcut_for(true, false, false, false, Some("r")), Some(Shortcut::ToggleRaw));
    assert_eq!(shortcut_for(true, false, false, false, Some("t")), Some(Shortcut::CycleTheme));
    assert_eq!(shortcut_for(true, false, false, false, Some("b")), Some(Shortcut::ToggleSidebar));
    assert_eq!(shortcut_for(true, true, false, false, Some("b")), Some(Shortcut::ToggleToc));
}

#[test]
fn shortcut_letters_ignore_case() {
    assert_eq!(shortcut_for(true, false, false, false, Some("O")), Some(Shortcut::OpenFolder));
    assert_eq!(shortcut_for(true, true, false, false, Some("B")), Some(Shortcut::ToggleToc));
}

#[test]
fn other_presses_are_not_shortcuts() {
    assert_eq!(shortcut_for(false, false, false, false, Some("o")), None);
    assert_eq!(shortcut_for(true, false, true, false, Some("o")), None);
    assert_eq!(shortcut_for(true, false, false, true, Some("o")), None);
    assert_eq!(shortcut_for(true, true, false, false, Some("o")), None);
    assert_eq!(shortcut_for(true, false, false, false, Some("x")), None);
    assert_eq!(shortcut_for(true, false, false, false, Some("oo")), None);
    assert_eq!(shortcut_for(true, false, false, false, None), None);
}
