//! Keyboard shortcuts: which command a key press with modifiers stands for.
use vstd::prelude::*;
use crate::text::{ascii_lower, chars_of, eq_ignore_ascii_case, equal_ignoring_ascii_case};

verus! {

/// A command reachable from the keyboard.
#[derive(Clone, Copy, Debug, PartialEq, Eq, Structural)]
pub enum Shortcut {
    /// Ctrl+O: open a folder.
    OpenFolder,
    /// Ctrl+R: switch between raw text and preview.
    ToggleRaw,
    /// Ctrl+T: next theme mode.
    CycleTheme,
    /// Ctrl+B: show or hide the sidebar.
    ToggleSidebar,
    /// Ctrl+Shift+B: show or hide the table of contents.
    ToggleToc,
}

/// The pressed key is the character key `ch`, in either ASCII case.
pub open spec fn key_is(key: Option<Seq<char>>, ch: Seq<char>) -> bool {
    match key {
        Some(k) => eq_ignore_ascii_case(k, ch),
        None => false,
    }
}

/// The command for a key press: Ctrl must be held and Alt and Meta not;
/// without Shift, O, R, T and B open a folder, toggle raw view, cycle the
/// theme and toggle the sidebar; with Shift, B toggles the table of contents.
/// `key` is the text of a character key, or `None` for any other key.
pub open spec fn shortcut_of(
    ctrl: bool,
    shift: bool,
    alt: bool,
    meta: bool,
    key: Option<Seq<char>>,
) -> Option<Shortcut> {
    if !ctrl || alt || meta {
        None
    } else if !shift && key_is(key, "o"@) {
        Some(Shortcut::OpenFolder)
    } else if !shift && key_is(key, "r"@) {
        Some(Shortcut::ToggleRaw)
    } else if !shift && key_is(key, "t"@) {
        Some(Shortcut::CycleTheme)
    } else if !shift && key_is(key, "b"@) {
        Some(Shortcut::ToggleSidebar)
    } else if shift && key_is(key, "b"@) {
        Some(Shortcut::ToggleToc)
    } else {
        None
    }
}

/// The characters of an optional key text.
pub open spec fn key_chars(key: Option<&str>) -> Option<Seq<char>> {
    match key {
        Some(k) => Some(k@),
        None => None,
    }
}

fn key_matches(key: &Option<Vec<char>>, ch: &str) -> (r: bool)
    ensures
        r == key_is(
            match key {
                Some(k) => Some(k@),
                None => None,
            },
            ch@,
        ),
{
    match key {
        Some(k) => {
            let c = chars_of(ch);
            equal_ignoring_ascii_case(k, &c)
        },
        None => false,
    }
}

/// The command that a key press stands for, if any (see `shortcut_of`).
pub fn shortcut_for(ctrl: bool, shift: bool, alt: bool, meta: bool, key: Option<&str>) -> (r:
    Option<Shortcut>)
    ensures
        r == shortcut_of(ctrl, shift, alt, meta, key_chars(key)),
{
    if !ctrl || alt || meta {
        return None;
    }
    let k: Option<Vec<char>> = match key {
        Some(s) => Some(chars_of(s)),
        None => None,
    };
    let is_o = key_matches(&k, "o");
    let is_r = key_matches(&k, "r");
    let is_t = key_matches(&k, "t");
    let is_b = key_matches(&k, "b");
    if !shift && is_o {
        Some(Shortcut::OpenFolder)
    } else if !shift && is_r {
        Some(Shortcut::ToggleRaw)
    } else if !shift && is_t {
        Some(Shortcut::CycleTheme)
    } else if !shift && is_b {
        Some(Shortcut::ToggleSidebar)
    } else if shift && is_b {
        Some(Shortcut::ToggleToc)
    } else {
        None
    }
}

/// Shortcuts ignore the ASCII case of the key: two key texts that are equal
/// up to ASCII case stand for the same command.
pub proof fn lemma_shortcut_ignores_case(
    ctrl: bool,
    shift: bool,
    alt: bool,
    meta: bool,
    k1: Seq<char>,
    k2: Seq<char>,
)
    requires
        eq_ignore_ascii_case(k1, k2),
    ensures
        shortcut_of(ctrl, shift, alt, meta, Some(k1)) == shortcut_of(
            ctrl,
            shift,
            alt,
            meta,
            Some(k2),
        ),
{
    assert forall|ch: Seq<char>| key_is(Some(k1), ch) == key_is(Some(k2), ch) by {
        if eq_ignore_ascii_case(k1, ch) {
            assert forall|i: int| 0 <= i < k2.len() implies ascii_lower(#[trigger] k2[i])
                == ascii_lower(ch[i]) by {
                assert(ascii_lower(k1[i]) == ascii_lower(k2[i]));
            }
        }
        if eq_ignore_ascii_case(k2, ch) {
            assert forall|i: int| 0 <= i < k1.len() implies ascii_lower(#[trigger] k1[i])
                == ascii_lower(ch[i]) by {
                assert(ascii_lower(k1[i]) == ascii_lower(k2[i]));
            }
        }
    }
}

/// Without Ctrl, or with Alt or Meta, no key is a shortcut.
pub proof fn lemma_shortcut_needs_ctrl_only(
    ctrl: bool,
    shift: bool,
    alt: bool,
    meta: bool,
    key: Option<Seq<char>>,
)
    requires
        !ctrl || alt || meta,
    ensures
        shortcut_of(ctrl, shift, alt, meta, key) is None,
{
}

} // verus!
