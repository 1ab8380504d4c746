use mdr::theme::{SystemMode, Theme, ThemeMode};

#[test]
fn theme_mode_cycles() {
    assert_eq!(ThemeMode::System.next(), ThemeMode::Light);
    assert_eq!(ThemeMode::Light.next(), ThemeMode::Dark);
    assert_eq!(ThemeMode::Dark.next(), ThemeMode::System);
    for m in [ThemeMode::System, ThemeMode::Light, ThemeMode::Dark] {
        assert_eq!(m.next().next().next(), m);
        assert_ne!(m.next(), m);
    }
}

#[test]
fn theme_mode_labels_and_icons() {
    assert_eq!(ThemeMode::System.label(), "System");
    assert_eq!(ThemeMode::Light.label(), "Light");
    assert_eq!(ThemeMode::Dark.label(), "Dark");
    assert_eq!(ThemeMode::System.icon(), "💻");
    assert_eq!(ThemeMode::Light.icon(), "☀");
    assert_eq!(ThemeMode::Dark.icon(), "🌙");
}

#[test]
fn dark_follows_mode_and_system() {
    assert!(!ThemeMode::Light.is_dark(Theme::Dark));
    assert!(ThemeMode::Dark.is_dark(Theme::Light));
    assert!(ThemeMode::System.is_dark(Theme::Dark));
    assert!(!ThemeMode::System.is_dark(Theme::Light));
}

#[test]
fn system_theme_from_detection() {
    assert_eq!(Theme::from_detection(Some(SystemMode::Light)), Theme::Light);
    assert_eq!(Theme::from_detection(Some(SystemMode::Dark)), Theme::Dark);
    assert_eq!(Theme::from_detection(Some(SystemMode::Unspecified)), Theme::Dark);
    assert_eq!(Theme::from_detection(None), Theme::Dark);
}

#[test]
fn detect_system_gives_a_theme() {
    let t = Theme::detect_system();
    assert!(t == Theme::Light || t == Theme::Dark);
}
