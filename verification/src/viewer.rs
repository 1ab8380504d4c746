//! The viewer's decisions: what to keep of a finished file read, and what to
//! show of a file's text.
use vstd::prelude::*;
use crate::markdown::{
    heading_end_count, heading_levels, markdown_events_of, markdown_html_of, render_markdown,
    strip_front_matter, toc_lists, toc_scan, wrap_blocks, TocEntry, VIEWER_OPTIONS,
};

verus! {

/// The viewer's text after a read of a file finishes: `None` keeps what is
/// shown. A read of a file that is no longer selected is dropped; a failed
/// re-read while polling keeps the old text; otherwise the read's text, or
/// its error message, is shown.
pub fn text_after_read(still_selected: bool, polling: bool, read: Result<String, String>) -> (r:
    Option<Result<String, String>>)
    ensures
        r == (if !still_selected {
            None
        } else if polling && read is Err {
            None
        } else {
            Some(read)
        }),
{
    if !still_selected {
        return None;
    }
    match read {
        Ok(text) => Some(Ok(text)),
        Err(msg) => {
            if polling {
                None
            } else {
                Some(Err(msg))
            }
        },
    }
}

/// What the viewer shows of a file's `text`: in raw view the text itself and
/// no table of contents; otherwise the rendered HTML and its table of
/// contents.
pub fn view_content(text: &str, raw: bool) -> (r: (String, Vec<TocEntry>))
    ensures
        raw ==> r.0@ == text@ && r.1@.len() == 0,
        !raw ==> ({
            let body = strip_front_matter(text@);
            let events = markdown_events_of(body, VIEWER_OPTIONS);
            &&& r.0@ == wrap_blocks(markdown_html_of(body, VIEWER_OPTIONS))
            &&& toc_lists(r.1@, toc_scan(events).items)
            &&& r.1@.len() == heading_end_count(events)
            &&& forall|k: int|
                0 <= k < r.1@.len() ==> (#[trigger] r.1@[k]).level == heading_levels(events)[k]
        }),
{
    if raw {
        let v = crate::text::chars_of(text);
        let copy = crate::text::string_of(&v, 0, v.len());
        assert(v@.subrange(0, v@.len() as int) =~= text@);
        (copy, Vec::new())
    } else {
        let rendered = render_markdown(text);
        (rendered.html, rendered.toc)
    }
}

} // verus!
