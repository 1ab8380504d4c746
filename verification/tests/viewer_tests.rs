use mdr::tree::{scan_entry, EntryAction};
use mdr::viewer::{text_after_read, view_content};

#[test]
fn read_of_deselected_file_is_dropped() {
    assert_eq!(text_after_read(false, false, Ok("x".to_string())), None);
    assert_eq!(text_after_read(false, true, Err("e".to_string())), None);
}

#[test]
fn first_read_is_shown_even_when_it_fails() {
    assert_eq!(text_after_read(true, false, Ok("x".to_string())), Some(Ok("x".to_string())));
    assert_eq!(text_after_read(true, false, Err("e".to_string())), Some(Err("e".to_string())));
}

#[test]
fn failed_poll_keeps_old_text() {
    assert_eq!(text_after_read(true, true, Err("e".to_string())), None);
    assert_eq!(text_after_read(true, true, Ok("y".to_string())), Some(Ok("y".to_string())));
}

#[test]
fn raw_view_shows_text_without_toc() {
    let (shown, toc) = view_content("# A\n", true);
    assert_eq!(shown, "# A\n");
    assert!(toc.is_empty());
}

#[test]
fn preview_shows_rendered_html_and_toc() {
    let (shown, toc) = view_content("# A\n", false);
    assert!(shown.contains("<h1>A</h1>"));
    assert_eq!(toc.len(), 1);
    assert_eq!(toc[0].id, "a");
}

#[test]
fn scan_descends_keeps_and_skips() {
    assert_eq!(scan_entry(true, "/r/docs.md"), EntryAction::Descend);
    assert_eq!(scan_entry(false, "/r/a.MD"), EntryAction::Keep);
    assert_eq!(scan_entry(false, "/r/a.txt"), EntryAction::Skip);
}
