//! Light and dark themes: the user's theme mode, its cycle, its labels, and
//! the system theme it may follow.
use vstd::prelude::*;

verus! {

/// A colour theme.
#[derive(Clone, Copy, Debug, PartialEq, Eq, Structural)]
pub enum Theme {
    Light,
    Dark,
}

/// The theme the user asks for: the system's, or a fixed one.
#[derive(Clone, Copy, Debug, PartialEq, Eq, Structural)]
pub enum ThemeMode {
    System,
    Light,
    Dark,
}

/// The colour-scheme preference that the desktop reports.
#[derive(Clone, Copy, Debug, PartialEq, Eq, Structural)]
pub enum SystemMode {
    Dark,
    Light,
    Unspecified,
}

/// The mode after `m` in the cycle System, Light, Dark.
pub open spec fn next_mode(m: ThemeMode) -> ThemeMode {
    match m {
        ThemeMode::System => ThemeMode::Light,
        ThemeMode::Light => ThemeMode::Dark,
        ThemeMode::Dark => ThemeMode::System,
    }
}

/// Whether mode `m` shows the dark theme when the system theme is `system`.
pub open spec fn mode_is_dark(m: ThemeMode, system: Theme) -> bool {
    match m {
        ThemeMode::Light => false,
        ThemeMode::Dark => true,
        ThemeMode::System => system == Theme::Dark,
    }
}

impl ThemeMode {
    /// The next mode in the cycle System, Light, Dark, System.
    pub fn next(self) -> (r: Self)
        ensures
            r == next_mode(self),
    {
        match self {
            ThemeMode::System => ThemeMode::Light,
            ThemeMode::Light => ThemeMode::Dark,
            ThemeMode::Dark => ThemeMode::System,
        }
    }

    /// The icon shown for the mode.
    pub fn icon(self) -> (r: &'static str)
        ensures
            r@ == match self {
                ThemeMode::System => "💻"@,
                ThemeMode::Light => "☀"@,
                ThemeMode::Dark => "🌙"@,
            },
    {
        match self {
            ThemeMode::System => "💻",
            ThemeMode::Light => "☀",
            ThemeMode::Dark => "🌙",
        }
    }

    /// The name shown for the mode.
    pub fn label(self) -> (r: &'static str)
        ensures
            r@ == match self {
                ThemeMode::System => "System"@,
                ThemeMode::Light => "Light"@,
                ThemeMode::Dark => "Dark"@,
            },
    {
        match self {
            ThemeMode::System => "System",
            ThemeMode::Light => "Light",
            ThemeMode::Dark => "Dark",
        }
    }

    /// Whether the mode shows the dark theme, given the system theme.
    pub fn is_dark(self, system: Theme) -> (r: bool)
        ensures
            r == mode_is_dark(self, system),
    {
        match self {
            ThemeMode::Light => false,
            ThemeMode::Dark => true,
            ThemeMode::System => system == Theme::Dark,
        }
    }
}

/// `dark_light::detect`: the desktop's colour-scheme preference, or `None`
/// when it cannot be read. It depends on the desktop's settings, so nothing
/// is claimed of the result.
#[verifier::external_body]
fn detect_system_mode() -> (r: Option<SystemMode>) {
    match dark_light::detect() {
        Ok(dark_light::Mode::Dark) => Some(SystemMode::Dark),
        Ok(dark_light::Mode::Light) => Some(SystemMode::Light),
        Ok(dark_light::Mode::Unspecified) => Some(SystemMode::Unspecified),
        Err(_) => None,
    }
}

impl Theme {
    /// The theme for a detected preference: light only when the desktop
    /// reports light, dark otherwise (also when detection failed).
    pub fn from_detection(detected: Option<SystemMode>) -> (r: Self)
        ensures
            r == (if detected == Some(SystemMode::Light) {
                Theme::Light
            } else {
                Theme::Dark
            }),
    {
        match detected {
            Some(SystemMode::Light) => Theme::Light,
            _ => Theme::Dark,
        }
    }

    /// The system theme, as the desktop reports it (dark when unknown).
    pub fn detect_system() -> (r: Self) {
        Theme::from_detection(detect_system_mode())
    }
}

/// Three steps of `next` lead back to the mode one started from, and no
/// fewer do.
pub proof fn lemma_next_cycles(m: ThemeMode)
    ensures
        next_mode(next_mode(next_mode(m))) == m,
        next_mode(m) != m,
        next_mode(next_mode(m)) != m,
{
}

/// The fixed modes ignore the system theme; the system mode follows it.
pub proof fn lemma_mode_is_dark(system: Theme)
    ensures
        !mode_is_dark(ThemeMode::Light, system),
        mode_is_dark(ThemeMode::Dark, system),
        mode_is_dark(ThemeMode::System, system) <==> system == Theme::Dark,
{
}

} // verus!
