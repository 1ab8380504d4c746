//! Markdown rendering: front matter stripping, the table of contents built
//! from heading events, heading slugs, and the copy-button wrapper put around
//! each `<pre>` block of the generated HTML.
use vstd::prelude::*;
use crate::text::{
    chars_of, char_is_alphanumeric, find, matches_at, find_chars, find_from, is_alphanumeric,
    is_white_space, lemma_find_skip, lowercase_of, push_range, push_str, skip_white_space,
    starts_with, starts_with_chars, string_of, to_lowercase, trim_start, white_space,
};
use pulldown_cmark::{html, Options, Parser, Tag, TagEnd};
use pulldown_cmark::Event::{
    Code, DisplayMath, End, FootnoteReference, HardBreak, Html, InlineHtml, InlineMath, Rule,
    SoftBreak, Start, TaskListMarker, Text,
};

verus! {

broadcast use vstd::string::group_string_axioms;

// ---------------------------------------------------------------------------
// Data
// ---------------------------------------------------------------------------

/// One heading of a document, as listed in its table of contents.
#[derive(Clone, Debug)]
pub struct TocEntry {
    pub level: u8,
    pub text: String,
    pub id: String,
}

impl PartialEq for TocEntry {
    fn eq(&self, other: &Self) -> (r: bool) {
        self.level == other.level && self.text == other.text && self.id == other.id
    }
}

impl vstd::std_specs::cmp::PartialEqSpecImpl for TocEntry {
    open spec fn obeys_eq_spec() -> bool {
        true
    }

    open spec fn eq_spec(&self, other: &Self) -> bool {
        self.level == other.level && self.text@ == other.text@ && self.id@ == other.id@
    }
}

/// A rendered document: its HTML and its table of contents.
pub struct RenderedMarkdown {
    pub html: String,
    pub toc: Vec<TocEntry>,
}

/// What the table-of-contents scan reads of one Markdown parser event.
#[derive(Clone, Debug)]
pub enum MdEvent {
    /// Start of a heading of the given level (1 to 6).
    HeadingStart(u8),
    /// End of a heading.
    HeadingEnd,
    Text(String),
    Code(String),
    Html(String),
    InlineHtml(String),
    SoftBreak,
    HardBreak,
    /// Inline math, display math or a footnote reference, with its text.
    OtherText(String),
    /// A start or end of any other element, a rule, or a task-list marker:
    /// events that carry no text.
    Other,
}

/// A table-of-contents item before its id is derived: level and heading text.
pub struct TocItem {
    pub level: u8,
    pub text: Seq<char>,
}

// ---------------------------------------------------------------------------
// Heading text and the table of contents
// ---------------------------------------------------------------------------

/// The heading buffer after `ev` has been added to `buf`: text, code and HTML
/// are appended; a line break becomes one space unless `buf` already ends
/// with a space; other events add nothing.
pub open spec fn add_event_text(ev: MdEvent, buf: Seq<char>) -> Seq<char> {
    match ev {
        MdEvent::Text(t) => buf + t@,
        MdEvent::Code(t) => buf + t@,
        MdEvent::Html(t) => buf + t@,
        MdEvent::InlineHtml(t) => buf + t@,
        MdEvent::SoftBreak | MdEvent::HardBreak => if buf.len() > 0 && buf.last() == ' ' {
            buf
        } else {
            buf.push(' ')
        },
        _ => buf,
    }
}

/// Appends the characters of `v` to `buf`.
fn extend_chars(buf: &mut Vec<char>, v: &Vec<char>)
    ensures
        final(buf)@ == old(buf)@ + v@,
{
    let mut i: usize = 0;
    while i < v.len()
        invariant
            i <= v@.len(),
            buf@ == old(buf)@ + v@.take(i as int),
        decreases v@.len() - i,
    {
        buf.push(v[i]);
        i = i + 1;
        assert(v@.take(i as int) =~= v@.take(i - 1).push(v@[i - 1]));
    }
    assert(v@.take(v@.len() as int) =~= v@);
}

/// Adds the text that `ev` carries to the heading buffer `buf`.
pub fn push_event_text(ev: &MdEvent, buf: &mut Vec<char>)
    ensures
        final(buf)@ == add_event_text(*ev, old(buf)@),
{
    match ev {
        MdEvent::Text(t) | MdEvent::Code(t) | MdEvent::Html(t) | MdEvent::InlineHtml(t) => {
            let v = chars_of(t.as_str());
            extend_chars(buf, &v);
        },
        MdEvent::SoftBreak | MdEvent::HardBreak => {
            let n = buf.len();
            if !(n > 0 && buf[n - 1] == ' ') {
                buf.push(' ');
            }
        },
        _ => {},
    }
}

/// The state of the heading scan: the finished items, the text of the heading
/// being read, its level, and how deeply headings are open.
pub struct TocScan {
    pub items: Seq<TocItem>,
    pub buf: Seq<char>,
    pub level: u8,
    pub depth: int,
}

/// One step of the heading scan.
pub open spec fn toc_step(st: TocScan, ev: MdEvent) -> TocScan {
    match ev {
        MdEvent::HeadingStart(l) => if st.depth + 1 == 1 {
            TocScan { items: st.items, buf: Seq::empty(), level: l, depth: 1 }
        } else {
            TocScan { depth: st.depth + 1, ..st }
        },
        MdEvent::HeadingEnd => if st.depth - 1 == 0 {
            TocScan {
                items: st.items.push(TocItem { level: st.level, text: st.buf }),
                depth: 0,
                ..st
            }
        } else {
            TocScan { depth: st.depth - 1, ..st }
        },
        _ => if st.depth > 0 {
            TocScan { buf: add_event_text(ev, st.buf), ..st }
        } else {
            st
        },
    }
}

/// The heading scan over `events`, from the start.
pub open spec fn toc_scan(events: Seq<MdEvent>) -> TocScan
    decreases events.len(),
{
    if events.len() == 0 {
        TocScan { items: Seq::empty(), buf: Seq::empty(), level: 0, depth: 0 }
    } else {
        toc_step(toc_scan(events.drop_last()), events.last())
    }
}

/// Every heading end closes an open heading, and headings never nest deeper
/// than a `u32` counts: the events on which the scan runs without overflow.
pub open spec fn heading_nesting_ok(events: Seq<MdEvent>) -> bool {
    forall|i: int|
        0 <= i < events.len() ==> {
            &&& (#[trigger] events[i] is HeadingEnd ==> toc_scan(events.take(i)).depth > 0)
            &&& (events[i] is HeadingStart ==> toc_scan(events.take(i)).depth < u32::MAX)
        }
}

/// The id of a heading with text `text`: its lower-case form with each run
/// of non-alphanumeric characters turned into one `-`, and with leading and
/// trailing `-` removed.
pub open spec fn slug_of(text: Seq<char>) -> Seq<char> {
    slug_of_lowercase(lowercase_of(text))
}

/// `toc` lists `items`, in order, each with the slug of its text as id.
pub open spec fn toc_lists(toc: Seq<TocEntry>, items: Seq<TocItem>) -> bool {
    &&& toc.len() == items.len()
    &&& forall|i: int|
        0 <= i < toc.len() ==> {
            &&& (#[trigger] toc[i]).level == items[i].level
            &&& toc[i].text@ == items[i].text
            &&& toc[i].id@ == slug_of(items[i].text)
        }
}

/// The table of contents of a document given by its parser events: one entry
/// per outermost heading, with the heading's level, its text (text, code and
/// HTML inside it, each line break as one space), and the slug of that text.
pub fn toc_from_events(events: &Vec<MdEvent>) -> (toc: Vec<TocEntry>)
    requires
        heading_nesting_ok(events@),
    ensures
        toc_lists(toc@, toc_scan(events@).items),
{
    let mut toc: Vec<TocEntry> = Vec::new();
    let mut heading_buf: Vec<char> = Vec::new();
    let mut heading_level: u8 = 0;
    let mut heading_depth: u32 = 0;
    let mut i: usize = 0;
    while i < events.len()
        invariant
            i <= events@.len(),
            heading_nesting_ok(events@),
            ({
                let st = toc_scan(events@.take(i as int));
                &&& toc_lists(toc@, st.items)
                &&& heading_buf@ == st.buf
                &&& heading_level == st.level
                &&& heading_depth == st.depth
            }),
        decreases events@.len() - i,
    {
        assert(events@.take(i + 1).drop_last() =~= events@.take(i as int));
        let ghost st = toc_scan(events@.take(i as int));
        let ev = &events[i];
        assert(*ev == events@[i as int]);
        match ev {
            MdEvent::HeadingStart(level) => {
                heading_depth = heading_depth + 1;
                if heading_depth == 1 {
                    heading_level = *level;
                    heading_buf = Vec::new();
                }
            },
            MdEvent::HeadingEnd => {
                heading_depth = heading_depth - 1;
                if heading_depth == 0 {
                    let text = string_of(&heading_buf, 0, heading_buf.len());
                    assert(heading_buf@.subrange(0, heading_buf@.len() as int) =~= heading_buf@);
                    let id = slugify(text.as_str());
                    let ghost old_toc = toc@;
                    toc.push(TocEntry { level: heading_level, text, id });
                    proof {
                        let items = toc_step(st, *ev).items;
                        assert forall|j: int| 0 <= j < toc@.len() implies {
                            &&& (#[trigger] toc@[j]).level == items[j].level
                            &&& toc@[j].text@ == items[j].text
                            &&& toc@[j].id@ == slug_of(items[j].text)
                        } by {
                            if j < old_toc.len() {
                                assert(toc@[j] == old_toc[j]);
                            }
                        }
                    }
                }
            },
            _ => {
                if heading_depth > 0 {
                    push_event_text(ev, &mut heading_buf);
                }
            },
        }
        i = i + 1;
    }
    assert(events@.take(events@.len() as int) =~= events@);
    toc
}

/// Whether `events` meets `heading_nesting_ok`.
pub fn check_heading_nesting(events: &Vec<MdEvent>) -> (r: bool)
    ensures
        r == heading_nesting_ok(events@),
{
    let mut depth: u32 = 0;
    let mut i: usize = 0;
    while i < events.len()
        invariant
            i <= events@.len(),
            depth == toc_scan(events@.take(i as int)).depth,
            forall|j: int|
                0 <= j < i ==> {
                    &&& (#[trigger] events@[j] is HeadingEnd ==> toc_scan(events@.take(j)).depth
                        > 0)
                    &&& (events@[j] is HeadingStart ==> toc_scan(events@.take(j)).depth
                        < u32::MAX)
                },
        decreases events@.len() - i,
    {
        assert(events@.take(i + 1).drop_last() =~= events@.take(i as int));
        match &events[i] {
            MdEvent::HeadingStart(_) => {
                if depth == u32::MAX {
                    return false;
                }
                depth = depth + 1;
            },
            MdEvent::HeadingEnd => {
                if depth == 0 {
                    return false;
                }
                depth = depth - 1;
            },
            _ => {},
        }
        i = i + 1;
    }
    true
}

// ---------------------------------------------------------------------------
// Slugs
// ---------------------------------------------------------------------------

/// `s` with each run of non-alphanumeric characters turned into one `-`;
/// `after_dash` tells whether such a run is already under way.
pub open spec fn collapse_separators(s: Seq<char>, after_dash: bool) -> Seq<char>
    decreases s.len(),
{
    if s.len() == 0 {
        Seq::empty()
    } else if char_is_alphanumeric(s[0]) {
        seq![s[0]] + collapse_separators(s.drop_first(), false)
    } else if !after_dash {
        seq!['-'] + collapse_separators(s.drop_first(), true)
    } else {
        collapse_separators(s.drop_first(), true)
    }
}

/// The number of leading `c` in `s`.
pub open spec fn leading_count(s: Seq<char>, c: char) -> nat
    decreases s.len(),
{
    if s.len() > 0 && s[0] == c {
        1 + leading_count(s.drop_first(), c)
    } else {
        0
    }
}

/// The number of trailing `c` in `s`.
pub open spec fn trailing_count(s: Seq<char>, c: char) -> nat
    decreases s.len(),
{
    if s.len() > 0 && s.last() == c {
        1 + trailing_count(s.drop_last(), c)
    } else {
        0
    }
}

/// `s` without leading and trailing `-` (what `str::trim_matches('-')` gives).
pub open spec fn trim_dashes(s: Seq<char>) -> Seq<char> {
    let t = s.skip(leading_count(s, '-') as int);
    t.take(t.len() - trailing_count(t, '-'))
}

/// The slug of an already lower-cased heading text.
pub open spec fn slug_of_lowercase(lower: Seq<char>) -> Seq<char> {
    trim_dashes(collapse_separators(lower, false))
}

proof fn lemma_leading_count(s: Seq<char>, c: char, i: int)
    requires
        0 <= i <= s.len(),
        forall|j: int| 0 <= j < i ==> #[trigger] s[j] == c,
    ensures
        leading_count(s, c) == i + leading_count(s.skip(i), c),
    decreases i,
{
    if i > 0 {
        let t = s.drop_first();
        assert forall|j: int| 0 <= j < i - 1 implies #[trigger] t[j] == c by {
            assert(t[j] == s[j + 1]);
        }
        lemma_leading_count(t, c, i - 1);
        assert(t.skip(i - 1) =~= s.skip(i));
    } else {
        assert(s.skip(0) =~= s);
    }
}

proof fn lemma_trailing_count(s: Seq<char>, c: char, k: int)
    requires
        0 <= k <= s.len(),
        forall|j: int| k <= j < s.len() ==> #[trigger] s[j] == c,
    ensures
        trailing_count(s, c) == (s.len() - k) + trailing_count(s.take(k), c),
    decreases s.len() - k,
{
    if k < s.len() {
        let t = s.drop_last();
        lemma_trailing_count(t, c, k);
        assert(t.take(k) =~= s.take(k));
    } else {
        assert(s.take(k) =~= s);
    }
}

/// `v` without leading and trailing `-`.
fn trim_dash_chars(v: &Vec<char>) -> (r: String)
    ensures
        r@ == trim_dashes(v@),
{
    let mut a: usize = 0;
    while a < v.len() && v[a] == '-'
        invariant
            a <= v@.len(),
            forall|j: int| 0 <= j < a ==> #[trigger] v@[j] == '-',
        decreases v@.len() - a,
    {
        a = a + 1;
    }
    let mut b: usize = v.len();
    while b > a && v[b - 1] == '-'
        invariant
            a <= b <= v@.len(),
            forall|j: int| b <= j < v@.len() ==> #[trigger] v@[j] == '-',
        decreases b,
    {
        b = b - 1;
    }
    proof {
        lemma_leading_count(v@, '-', a as int);
        let t = v@.skip(a as int);
        if t.len() > 0 {
            assert(t[0] == v@[a as int]);
        }
        assert(leading_count(t, '-') == 0);
        assert(t.skip(0) =~= t);
        let k = b - a;
        assert forall|j: int| k <= j < t.len() implies #[trigger] t[j] == '-' by {
            assert(t[j] == v@[a + j]);
        }
        lemma_trailing_count(t, '-', k as int);
        let u = t.take(k as int);
        if u.len() > 0 {
            assert(u.last() == v@[b - 1]);
        }
        assert(trailing_count(u, '-') == 0);
        assert(u =~= v@.subrange(a as int, b as int));
    }
    string_of(v, a, b)
}

/// The slug of an already lower-cased heading text: each run of
/// non-alphanumeric characters becomes one `-`, and leading and trailing `-`
/// are removed.
pub fn slugify_lowercase(lower: &str) -> (r: String)
    ensures
        r@ == slug_of_lowercase(lower@),
{
    let s = chars_of(lower);
    let mut out: Vec<char> = Vec::new();
    let mut prev_dash = false;
    let mut i: usize = 0;
    assert(out@ + collapse_separators(s@.skip(0), false) =~= collapse_separators(s@, false)) by {
        assert(s@.skip(0) =~= s@);
    }
    while i < s.len()
        invariant
            i <= s@.len(),
            out@ + collapse_separators(s@.skip(i as int), prev_dash) == collapse_separators(
                s@,
                false,
            ),
        decreases s@.len() - i,
    {
        let ghost rest = s@.skip(i as int);
        let ghost old_out = out@;
        assert(rest.drop_first() =~= s@.skip(i + 1));
        assert(rest[0] == s@[i as int]);
        let ch = s[i];
        if is_alphanumeric(ch) {
            out.push(ch);
            prev_dash = false;
            assert(out@ + collapse_separators(s@.skip(i + 1), false) =~= old_out + (seq![ch]
                + collapse_separators(s@.skip(i + 1), false)));
        } else if !prev_dash {
            out.push('-');
            prev_dash = true;
            assert(out@ + collapse_separators(s@.skip(i + 1), true) =~= old_out + (seq!['-']
                + collapse_separators(s@.skip(i + 1), true)));
        }
        i = i + 1;
    }
    assert(collapse_separators(s@.skip(s@.len() as int), prev_dash) =~= Seq::<char>::empty());
    assert(out@ + Seq::<char>::empty() =~= out@);
    trim_dash_chars(&out)
}

/// The id of a heading: the slug of its text (see `slug_of`).
pub fn slugify(text: &str) -> (r: String)
    ensures
        r@ == slug_of(text@),
{
    let lower = to_lowercase(text);
    slugify_lowercase(lower.as_str())
}

// ---------------------------------------------------------------------------
// Front matter
// ---------------------------------------------------------------------------

/// When `t` opens with `fence` and a later `close` line ends the block, the
/// text after the block with leading white space removed.
pub open spec fn after_front_matter(t: Seq<char>, fence: Seq<char>, close: Seq<char>) -> Option<
    Seq<char>,
> {
    if starts_with(t, fence) {
        let rest = t.skip(fence.len() as int);
        match find(rest, close) {
            Some(e) => Some(trim_start(rest.skip(e + close.len()))),
            None => None,
        }
    } else {
        None
    }
}

/// `t` without a leading `---` (YAML) or `+++` (TOML) front matter block.
pub open spec fn strip_front_matter(t: Seq<char>) -> Seq<char> {
    match after_front_matter(t, "---"@, "\n---"@) {
        Some(b) => b,
        None => match after_front_matter(t, "+++"@, "\n+++"@) {
            Some(b) => b,
            None => t,
        },
    }
}

fn front_matter_end(v: &Vec<char>, fence: &str, close: &str) -> (r: Option<usize>)
    ensures
        match r {
            Some(k) => k <= v@.len() && after_front_matter(v@, fence@, close@) == Some(
                v@.skip(k as int),
            ),
            None => after_front_matter(v@, fence@, close@) is None,
        },
{
    let f = chars_of(fence);
    let c = chars_of(close);
    if !starts_with_chars(v, &f) {
        return None;
    }
    proof {
        lemma_find_skip(v@, c@, f@.len() as int, 0);
    }
    match find_chars(v, &c, f.len()) {
        Some(e) => {
            proof {
                crate::text::lemma_find_from(v@, c@, f@.len() as int);
                let rest = v@.skip(f@.len() as int);
                assert(matches_at(v@, c@, e as int));
                assert(e + c@.len() <= v@.len());
                assert(e + c.len() <= v.len());
                assert(rest.skip(e - f@.len() + c@.len()) =~= v@.skip(e + c@.len()));
            }
            let k = skip_white_space(v, e + c.len());
            Some(k)
        },
        None => None,
    }
}

/// `text` without a leading `---` or `+++` front matter block: when `text`
/// opens with the fence and a later line starts with it again, what follows
/// that line's fence, with leading white space removed; else `text` itself.
pub fn strip_frontmatter(text: &str) -> (r: &str)
    ensures
        r@ == strip_front_matter(text@),
{
    let v = chars_of(text);
    match front_matter_end(&v, "---", "\n---") {
        Some(k) => text.substring_char(k, v.len()),
        None => match front_matter_end(&v, "+++", "\n+++") {
            Some(k) => text.substring_char(k, v.len()),
            None => text,
        },
    }
}

// ---------------------------------------------------------------------------
// Code block language
// ---------------------------------------------------------------------------

/// The white-space separated words of `s`, when the word `cur` is under way
/// before it (what `str::split_whitespace` yields).
pub open spec fn words_from(s: Seq<char>, cur: Seq<char>) -> Seq<Seq<char>>
    decreases s.len(),
{
    if s.len() == 0 {
        if cur.len() > 0 {
            seq![cur]
        } else {
            Seq::empty()
        }
    } else if is_white_space(s[0]) {
        (if cur.len() > 0 {
            seq![cur]
        } else {
            Seq::empty()
        }) + words_from(s.drop_first(), Seq::empty())
    } else {
        words_from(s.drop_first(), cur.push(s[0]))
    }
}

/// The white-space separated words of `s`.
pub open spec fn split_whitespace(s: Seq<char>) -> Seq<Seq<char>> {
    words_from(s, Seq::empty())
}

/// The first of `ws` that starts with `p`.
pub open spec fn first_with_prefix(ws: Seq<Seq<char>>, p: Seq<char>) -> Option<Seq<char>>
    decreases ws.len(),
{
    if ws.len() == 0 {
        None
    } else if starts_with(ws[0], p) {
        Some(ws[0])
    } else {
        first_with_prefix(ws.drop_first(), p)
    }
}

/// The language named by a `class` attribute value: the rest of its first
/// class that starts with `language-`.
pub open spec fn class_language(classes: Seq<char>) -> Option<Seq<char>> {
    match first_with_prefix(split_whitespace(classes), "language-"@) {
        Some(w) => Some(w.skip("language-"@.len() as int)),
        None => None,
    }
}

/// The opening `<code ...>` tag at the start of `s`: up to the first `>`, or
/// all of `s` when no `>` follows.
pub open spec fn opening_tag(s: Seq<char>) -> Seq<char> {
    match find(s, ">"@) {
        Some(gt) => s.take(gt),
        None => s,
    }
}

/// The language of the contents of a `<pre>` block: read by `class_language`
/// from the `class="..."` attribute of the first `<code ...>` tag; `None`
/// when that tag has no `class` attribute.
pub open spec fn code_language(inner: Seq<char>) -> Option<Seq<char>> {
    match find(inner, "<code"@) {
        None => None,
        Some(co) => {
            let after_code = inner.skip(co);
            match find(opening_tag(after_code), "class=\""@) {
                None => None,
                Some(cs) => {
                    let segment = after_code.skip(cs + "class=\""@.len());
                    match find(segment, "\""@) {
                        None => None,
                        Some(ce) => class_language(segment.take(ce)),
                    }
                },
            }
        },
    }
}

proof fn lemma_first_with_prefix_cons(w: Seq<char>, rest: Seq<Seq<char>>, p: Seq<char>)
    ensures
        first_with_prefix(seq![w] + rest, p) == if starts_with(w, p) {
            Some(w)
        } else {
            first_with_prefix(rest, p)
        },
{
    let ws = seq![w] + rest;
    assert(ws[0] == w);
    assert(ws.drop_first() =~= rest);
}

proof fn lemma_first_with_prefix_starts(ws: Seq<Seq<char>>, p: Seq<char>)
    ensures
        first_with_prefix(ws, p) matches Some(w) ==> starts_with(w, p),
    decreases ws.len(),
{
    if ws.len() > 0 && !starts_with(ws[0], p) {
        lemma_first_with_prefix_starts(ws.drop_first(), p);
    }
}

/// The span `[a, b)` of the first white-space separated word of `classes`
/// that starts with `prefix`.
fn word_with_prefix(classes: &Vec<char>, prefix: &Vec<char>) -> (r: Option<(usize, usize)>)
    ensures
        match r {
            Some((a, b)) => a <= b <= classes@.len() && first_with_prefix(
                split_whitespace(classes@),
                prefix@,
            ) == Some(classes@.subrange(a as int, b as int)),
            None => first_with_prefix(split_whitespace(classes@), prefix@) is None,
        },
{
    let mut start: usize = 0;
    let mut i: usize = 0;
    assert(classes@.skip(0) =~= classes@);
    assert(classes@.subrange(0, 0) =~= Seq::<char>::empty());
    while i < classes.len()
        invariant
            start <= i <= classes@.len(),
            first_with_prefix(split_whitespace(classes@), prefix@) == first_with_prefix(
                words_from(classes@.skip(i as int), classes@.subrange(start as int, i as int)),
                prefix@,
            ),
        decreases classes@.len() - i,
    {
        let ghost rest = classes@.skip(i as int);
        let ghost cur = classes@.subrange(start as int, i as int);
        assert(rest.drop_first() =~= classes@.skip(i + 1));
        assert(rest[0] == classes@[i as int]);
        if white_space(classes[i]) {
            if start < i {
                let word = sub_chars(classes, start, i);
                if starts_with_chars(&word, prefix) {
                    proof {
                        lemma_first_with_prefix_cons(cur, words_from(rest.drop_first(), Seq::empty()), prefix@);
                    }
                    return Some((start, i));
                }
                proof {
                    lemma_first_with_prefix_cons(cur, words_from(rest.drop_first(), Seq::empty()), prefix@);
                }
            } else {
                assert(Seq::<Seq<char>>::empty() + words_from(rest.drop_first(), Seq::empty())
                    =~= words_from(rest.drop_first(), Seq::empty()));
            }
            i = i + 1;
            start = i;
            assert(classes@.subrange(start as int, i as int) =~= Seq::<char>::empty());
        } else {
            i = i + 1;
            assert(cur.push(classes@[i - 1]) =~= classes@.subrange(start as int, i as int));
        }
    }
    let ghost cur = classes@.subrange(start as int, i as int);
    assert(classes@.skip(i as int) =~= Seq::<char>::empty());
    if start < i {
        let word = sub_chars(classes, start, i);
        proof {
            lemma_first_with_prefix_cons(cur, Seq::empty(), prefix@);
            assert(seq![cur] + Seq::<Seq<char>>::empty() =~= seq![cur]);
        }
        if starts_with_chars(&word, prefix) {
            return Some((start, i));
        }
    }
    None
}

/// The characters `v[lo..hi]`.
fn sub_chars(v: &Vec<char>, lo: usize, hi: usize) -> (r: Vec<char>)
    requires
        lo <= hi <= v@.len(),
    ensures
        r@ == v@.subrange(lo as int, hi as int),
{
    let mut r: Vec<char> = Vec::new();
    let mut i = lo;
    while i < hi
        invariant
            lo <= i <= hi <= v@.len(),
            r@ == v@.subrange(lo as int, i as int),
        decreases hi - i,
    {
        r.push(v[i]);
        i = i + 1;
        assert(r@ =~= v@.subrange(lo as int, i as int));
    }
    r
}

/// The language identifier of a code block from the contents of its `<pre>`
/// element (`<code class="language-rust">...` gives `rust`), if it names one.
pub fn extract_language(inner: &str) -> (r: Option<&str>)
    ensures
        match r {
            Some(l) => code_language(inner@) == Some(l@),
            None => code_language(inner@) is None,
        },
{
    let v = chars_of(inner);
    let code_tag = chars_of("<code");
    let class_attr = chars_of("class=\"");
    let quote = chars_of("\"");
    let prefix = chars_of("language-");
    let gt = chars_of(">");
    let co = match find_chars(&v, &code_tag, 0) {
        Some(co) => co,
        None => return None,
    };
    proof {
        crate::text::lemma_find_from(v@, code_tag@, 0);
        lemma_find_skip(v@, gt@, co as int, 0);
    }
    let tag_end = match find_chars(&v, &gt, co) {
        Some(g) => g,
        None => v.len(),
    };
    proof {
        crate::text::lemma_find_from(v@, gt@, co as int);
        let after_code = v@.skip(co as int);
        assert(opening_tag(after_code) =~= v@.subrange(co as int, tag_end as int));
    }
    let tag = sub_chars(&v, co, tag_end);
    let cs_rel = match find_chars(&tag, &class_attr, 0) {
        Some(cs) => cs,
        None => return None,
    };
    proof {
        crate::text::lemma_find_from(tag@, class_attr@, 0);
        assert(cs_rel + class_attr@.len() <= tag@.len());
    }
    let cs = co + cs_rel;
    let cstart = cs + class_attr.len();
    proof {
        let after_code = v@.skip(co as int);
        assert(after_code.skip(cs_rel + class_attr@.len()) =~= v@.skip(cstart as int));
        lemma_find_skip(v@, quote@, cstart as int, 0);
    }
    let ce = match find_chars(&v, &quote, cstart) {
        Some(ce) => ce,
        None => return None,
    };
    proof {
        crate::text::lemma_find_from(v@, quote@, cstart as int);
        assert(v@.skip(cstart as int).take(ce - cstart) =~= v@.subrange(cstart as int, ce as int));
    }
    let classes = sub_chars(&v, cstart, ce);
    match word_with_prefix(&classes, &prefix) {
        Some((a, b)) => {
            proof {
                let w = classes@.subrange(a as int, b as int);
                lemma_first_with_prefix_starts(split_whitespace(classes@), prefix@);
                assert(w.skip(prefix@.len() as int) =~= v@.subrange(
                    cstart + a + prefix@.len(),
                    cstart + b,
                ));
            }
            Some(inner.substring_char(cstart + a + prefix.len(), cstart + b))
        },
        None => None,
    }
}

// ---------------------------------------------------------------------------
// Code block wrapper
// ---------------------------------------------------------------------------

/// The clipboard icon of the copy button.
pub const COPY_ICON: &'static str = r#"<svg xmlns="http://www.w3.org/2000/svg" width="14" height="14" viewBox="0 0 24 24" fill="none" stroke="currentColor" stroke-width="2" stroke-linecap="round" stroke-linejoin="round"><rect x="9" y="9" width="13" height="13" rx="2" ry="2"/><path d="M5 15H4a2 2 0 0 1-2-2V4a2 2 0 0 1 2-2h9a2 2 0 0 1 2 2v1"/></svg>"#;

/// Opens the wrapper and header of a code block.
pub const BLOCK_OPEN: &'static str = r#"<div class="code-block-wrapper"><div class="code-block-header">"#;

/// Opens the language label of a code block.
pub const LANG_OPEN: &'static str = r#"<span class="code-block-lang">"#;

/// Closes the language label.
pub const LANG_CLOSE: &'static str = "</span>";

/// The label of a code block that names no language.
pub const LANG_EMPTY: &'static str = r#"<span class="code-block-lang code-block-lang-empty"></span>"#;

/// The copy button, up to its icon.
pub const BUTTON_OPEN: &'static str = r#"<button class="copy-btn" onclick="window.copyCode(this)" type="button" title="Copy to clipboard" aria-label="Copy to clipboard"><span class="copy-icon">"#;

/// The rest of the copy button and the end of the header.
pub const BUTTON_CLOSE: &'static str = r#"</span><span class="copy-label">Copy</span></button></div>"#;

/// The `<pre>` element after the header.
pub const PRE_OPEN: &'static str = "<pre>";

/// Closes the `<pre>` element and the wrapper.
pub const PRE_CLOSE: &'static str = "</pre></div>";

/// The language label of a code block.
pub open spec fn language_label(lang: Option<Seq<char>>) -> Seq<char> {
    match lang {
        Some(l) => LANG_OPEN@ + l + LANG_CLOSE@,
        None => LANG_EMPTY@,
    }
}

/// A `<pre>` block with contents `inner`, wrapped with a header that shows its
/// language and a copy button.
pub open spec fn wrapped_block(inner: Seq<char>) -> Seq<char> {
    BLOCK_OPEN@ + language_label(code_language(inner)) + BUTTON_OPEN@ + COPY_ICON@
        + BUTTON_CLOSE@ + PRE_OPEN@ + inner + PRE_CLOSE@
}

/// `html` with each complete `<pre>...</pre>` element, from left to right,
/// replaced by its wrapped form. When a `<pre>` is left unclosed, the rest of
/// the text from the last complete element on is written twice: once from
/// the unclosed `<pre>` on, and then again whole.
pub open spec fn wrap_blocks(html: Seq<char>) -> Seq<char>
    decreases html.len(),
{
    match find(html, "<pre>"@) {
        None => html,
        Some(p) => {
            let after = html.skip(p + "<pre>"@.len());
            match find(after, "</pre>"@) {
                None => html + html,
                Some(e) => {
                    proof {
                        reveal_strlit("</pre>");
                        crate::text::lemma_find_from(html, "<pre>"@, 0);
                        crate::text::lemma_find_from(after, "</pre>"@, 0);
                    }
                    html.take(p) + wrapped_block(after.take(e)) + wrap_blocks(
                        after.skip(e + "</pre>"@.len()),
                    )
                },
            }
        },
    }
}

/// Appends the wrapped form of the `<pre>` block with contents `inner`.
fn push_wrapped_block(out: &mut String, inner: &str)
    ensures
        final(out)@ == old(out)@ + wrapped_block(inner@),
{
    push_str(out, BLOCK_OPEN);
    let lang = extract_language(inner);
    match lang {
        Some(l) => {
            push_str(out, LANG_OPEN);
            push_str(out, l);
            push_str(out, LANG_CLOSE);
        },
        None => {
            push_str(out, LANG_EMPTY);
        },
    }
    push_str(out, BUTTON_OPEN);
    push_str(out, COPY_ICON);
    push_str(out, BUTTON_CLOSE);
    push_str(out, PRE_OPEN);
    push_str(out, inner);
    push_str(out, PRE_CLOSE);
    proof {
        let l = language_label(code_language(inner@));
        assert(final(out)@ =~= old(out)@ + wrapped_block(inner@));
    }
}

/// How `wrap_blocks` unfolds on the suffix of `h` at `pos`, given where the
/// next `<pre>` and `</pre>` are found.
proof fn lemma_wrap_blocks_step(h: Seq<char>, pos: int)
    requires
        0 <= pos <= h.len(),
    ensures
        ({
            let rest = h.skip(pos);
            match find_from(h, "<pre>"@, pos) {
                None => wrap_blocks(rest) == rest,
                Some(p) => match find_from(h, "</pre>"@, p + "<pre>"@.len()) {
                    None => wrap_blocks(rest) == rest + rest,
                    Some(e) => {
                        &&& pos <= p
                        &&& p + "<pre>"@.len() <= e
                        &&& e + "</pre>"@.len() <= h.len()
                        &&& wrap_blocks(rest) == h.subrange(pos, p) + wrapped_block(
                            h.subrange(p + "<pre>"@.len(), e),
                        ) + wrap_blocks(h.skip(e + "</pre>"@.len()))
                    },
                },
            }
        }),
{
    let pre = "<pre>"@;
    let end = "</pre>"@;
    let rest = h.skip(pos);
    lemma_find_skip(h, pre, pos, 0);
    crate::text::lemma_find_from(h, pre, pos);
    match find_from(h, pre, pos) {
        None => {},
        Some(p) => {
            let after = p + pre.len();
            assert(rest.skip(p - pos + pre.len()) =~= h.skip(after));
            lemma_find_skip(h, end, after, 0);
            crate::text::lemma_find_from(h, end, after);
            match find_from(h, end, after) {
                None => {},
                Some(e) => {
                    let a = h.skip(after);
                    assert(rest.take(p - pos) =~= h.subrange(pos, p));
                    assert(a.take(e - after) =~= h.subrange(after, e));
                    assert(a.skip(e - after + end.len()) =~= h.skip(e + end.len()));
                },
            }
        },
    }
}

/// Wraps each `<pre>` block of `html` with a header showing the block's
/// language and a copy-to-clipboard button.
pub fn wrap_code_blocks(html: &str) -> (r: String)
    ensures
        r@ == wrap_blocks(html@),
{
    let h = chars_of(html);
    let pre = chars_of("<pre>");
    let end = chars_of("</pre>");
    proof {
        reveal_strlit("</pre>");
    }
    let mut result = String::new();
    let mut pos: usize = 0;
    assert(h@.skip(0) =~= h@);
    loop
        invariant_except_break
            result@ + wrap_blocks(h@.skip(pos as int)) == wrap_blocks(h@),
        invariant
            pos <= h@.len(),
            pre@ == "<pre>"@,
            end@ == "</pre>"@,
            end@.len() == 6,
        ensures
            pos <= h@.len(),
            result@ + h@.skip(pos as int) == wrap_blocks(h@),
        decreases h@.len() - pos,
    {
        proof {
            lemma_wrap_blocks_step(h@, pos as int);
        }
        let p = match find_chars(&h, &pre, pos) {
            Some(p) => p,
            None => break,
        };
        proof {
            crate::text::lemma_find_from(h@, pre@, pos as int);
            assert(p + pre.len() <= h.len());
        }
        let after = p + pre.len();
        let e = match find_chars(&h, &end, after) {
            Some(e) => e,
            None => {
                push_range(&mut result, &h, pos, h.len());
                assert(h@.subrange(pos as int, h@.len() as int) =~= h@.skip(pos as int));
                break;
            },
        };
        proof {
            crate::text::lemma_find_from(h@, end@, after as int);
            assert(e + end.len() <= h.len());
        }
        let ghost old_result = result@;
        push_range(&mut result, &h, pos, p);
        let inner = string_of(&h, after, e);
        push_wrapped_block(&mut result, inner.as_str());
        assert(result@ + wrap_blocks(h@.skip(e + end@.len())) =~= old_result + wrap_blocks(
            h@.skip(pos as int),
        ));
        pos = e + end.len();
    }
    push_range(&mut result, &h, pos, h.len());
    assert(h@.subrange(pos as int, h@.len() as int) =~= h@.skip(pos as int));
    result
}

// ---------------------------------------------------------------------------
// Rendering
// ---------------------------------------------------------------------------

/// `pulldown_cmark`'s option bits (the values of `Options`): tables.
pub const ENABLE_TABLES: u32 = 1 << 1;

/// Footnotes.
pub const ENABLE_FOOTNOTES: u32 = 1 << 2;

/// Strikethrough.
pub const ENABLE_STRIKETHROUGH: u32 = 1 << 3;

/// Task lists.
pub const ENABLE_TASKLISTS: u32 = 1 << 4;

/// Smart punctuation.
pub const ENABLE_SMART_PUNCTUATION: u32 = 1 << 5;

/// Heading attributes (`{#id .class}`).
pub const ENABLE_HEADING_ATTRIBUTES: u32 = 1 << 6;

/// `+++` delimited metadata blocks.
pub const ENABLE_PLUSES_DELIMITED_METADATA_BLOCKS: u32 = 1 << 8;

/// The Markdown dialect the viewer reads: tables, footnotes, strikethrough,
/// task lists, smart punctuation, heading attributes and `+++` metadata
/// blocks, on top of CommonMark.
pub const VIEWER_OPTIONS: u32 = ENABLE_TABLES | ENABLE_FOOTNOTES | ENABLE_STRIKETHROUGH
    | ENABLE_TASKLISTS | ENABLE_SMART_PUNCTUATION | ENABLE_HEADING_ATTRIBUTES
    | ENABLE_PLUSES_DELIMITED_METADATA_BLOCKS;

/// The events, read as `MdEvent`s, that `pulldown_cmark` yields for the
/// document `text` parsed with the option bits `options`.
pub uninterp spec fn markdown_events_of(text: Seq<char>, options: u32) -> Seq<MdEvent>;

/// The HTML that `pulldown_cmark::html::push_html` writes for the document
/// `text` parsed with the option bits `options`.
pub uninterp spec fn markdown_html_of(text: Seq<char>, options: u32) -> Seq<char>;

/// `pulldown_cmark::Parser::new_ext` over `text` with the option bits
/// `options` (`Options::from_bits_truncate`), each event read as an
/// `MdEvent`. Claimed: the result depends on `text` and `options` alone; a
/// heading's level is between 1 and 6 (the values of `HeadingLevel`); since
/// the parser yields balanced start and end events, every heading end closes
/// a heading that is open before it; and since a heading holds inline content
/// only, no heading starts inside another.
#[verifier::external_body]
fn markdown_events(text: &str, options: u32) -> (r: Vec<MdEvent>)
    ensures
        r@ == markdown_events_of(text@, options),
        forall|i: int|
            0 <= i < r@.len() ==> (#[trigger] r@[i] matches MdEvent::HeadingStart(l) ==> 1 <= l
                <= 6),
        forall|i: int|
            0 <= i < r@.len() ==> (#[trigger] r@[i] is HeadingEnd ==> toc_scan(r@.take(i)).depth
                > 0),
        forall|i: int|
            0 <= i < r@.len() ==> (#[trigger] r@[i] is HeadingStart ==> toc_scan(r@.take(i)).depth
                == 0),
{
    Parser::new_ext(text, Options::from_bits_truncate(options)).map(|ev| match ev {
        Start(Tag::Heading { level, .. }) => MdEvent::HeadingStart(level as u8),
        End(TagEnd::Heading(_)) => MdEvent::HeadingEnd,
        Text(t) => MdEvent::Text(t.to_string()),
        Code(t) => MdEvent::Code(t.to_string()),
        Html(t) => MdEvent::Html(t.to_string()),
        InlineHtml(t) => MdEvent::InlineHtml(t.to_string()),
        InlineMath(t) | DisplayMath(t) | FootnoteReference(t) => MdEvent::OtherText(t.to_string()),
        SoftBreak => MdEvent::SoftBreak,
        HardBreak => MdEvent::HardBreak,
        Start(_) | End(_) | Rule | TaskListMarker(_) => MdEvent::Other,
    }).collect()
}

/// `pulldown_cmark::html::push_html` over `Parser::new_ext(text, ..)` with
/// the option bits `options`. Claimed: the result depends on `text` and
/// `options` alone.
#[verifier::external_body]
fn markdown_html(text: &str, options: u32) -> (r: String)
    ensures
        r@ == markdown_html_of(text@, options),
{
    let mut out = String::new();
    html::push_html(&mut out, Parser::new_ext(text, Options::from_bits_truncate(options)));
    out
}

/// Renders a Markdown document in the viewer's dialect (`VIEWER_OPTIONS`):
/// front matter is dropped, the rest is turned into HTML whose code blocks
/// carry a language label and a copy button, and its outermost headings are
/// listed as the table of contents.
pub fn render_markdown(text: &str) -> (r: RenderedMarkdown)
    ensures
        ({
            let body = strip_front_matter(text@);
            let events = markdown_events_of(body, VIEWER_OPTIONS);
            &&& r.html@ == wrap_blocks(markdown_html_of(body, VIEWER_OPTIONS))
            &&& toc_lists(r.toc@, toc_scan(events).items)
            &&& forall|i: int| 0 <= i < r.toc@.len() ==> 1 <= (#[trigger] r.toc@[i]).level <= 6
            &&& r.toc@.len() == heading_end_count(events)
            &&& forall|k: int|
                0 <= k < r.toc@.len() ==> (#[trigger] r.toc@[k]).level == heading_levels(events)[k]
        }),
{
    let body = strip_frontmatter(text);
    let events = markdown_events(body, VIEWER_OPTIONS);
    assert(heading_nesting_ok(events@));
    proof {
        lemma_toc_levels(events@);
        lemma_headings_flat(events@);
        lemma_toc_one_item_per_heading(events@);
    }
    let toc = toc_from_events(&events);
    let raw_html = markdown_html(body, VIEWER_OPTIONS);
    let html = wrap_code_blocks(raw_html.as_str());
    RenderedMarkdown { html, toc }
}

// ---------------------------------------------------------------------------
// Markdown files
// ---------------------------------------------------------------------------

/// What `Path::extension` gives for the path `path`, as a string, by the
/// path rules of the platform the crate is built for.
pub uninterp spec fn path_extension_of(path: Seq<char>) -> Option<Seq<char>>;

/// `std::path::Path::extension` of `path`, converted to a string (an
/// extension of a `str` path is valid UTF-8, so the conversion never fails).
/// Claimed: the result depends on `path` alone.
#[verifier::external_body]
fn path_extension(path: &str) -> (r: Option<String>)
    ensures
        match r {
            Some(e) => path_extension_of(path@) == Some(e@),
            None => path_extension_of(path@) is None,
        },
{
    std::path::Path::new(path).extension().and_then(|e| e.to_str()).map(|e| e.to_string())
}

/// The lower-case extensions of Markdown files.
pub open spec fn is_markdown_ext(ext: Seq<char>) -> bool {
    ||| ext == "md"@
    ||| ext == "markdown"@
    ||| ext == "mdown"@
    ||| ext == "mkd"@
    ||| ext == "mkdn"@
}

fn same_chars(a: &Vec<char>, b: &str) -> (r: bool)
    ensures
        r == (a@ == b@),
{
    let bv = chars_of(b);
    if a.len() != bv.len() {
        return false;
    }
    let mut i: usize = 0;
    while i < a.len()
        invariant
            a@.len() == bv@.len(),
            bv@ == b@,
            i <= a@.len(),
            forall|j: int| 0 <= j < i ==> a@[j] == bv@[j],
        decreases a@.len() - i,
    {
        if a[i] != bv[i] {
            assert(a@[i as int] != bv@[i as int]);
            return false;
        }
        i = i + 1;
    }
    assert(a@ =~= bv@);
    true
}

/// Whether a lower-case extension is one of Markdown's: `md`, `markdown`,
/// `mdown`, `mkd` or `mkdn`.
pub fn is_markdown_extension(ext: &str) -> (r: bool)
    ensures
        r == is_markdown_ext(ext@),
{
    let v = chars_of(ext);
    same_chars(&v, "md") || same_chars(&v, "markdown") || same_chars(&v, "mdown") || same_chars(
        &v,
        "mkd",
    ) || same_chars(&v, "mkdn")
}

/// Whether `path` has a Markdown extension, in any case.
pub fn is_markdown(path: &str) -> (r: bool)
    ensures
        r == markdown_path(path@),
{
    match path_extension(path) {
        Some(ext) => {
            let lower = to_lowercase(ext.as_str());
            is_markdown_extension(lower.as_str())
        },
        None => false,
    }
}

// ---------------------------------------------------------------------------
// Laws
// ---------------------------------------------------------------------------

/// What `collapse_separators` yields: alphanumeric characters of `s` and
/// `-`, with a separator never directly followed by another, and nothing but
/// an alphanumeric character first when a separator run is already under way.
proof fn lemma_collapse_shape(s: Seq<char>, after_dash: bool)
    ensures
        ({
            let c = collapse_separators(s, after_dash);
            &&& forall|i: int|
                0 <= i < c.len() ==> (char_is_alphanumeric(#[trigger] c[i]) && s.contains(c[i]))
                    || c[i] == '-'
            &&& forall|i: int|
                0 <= i < c.len() - 1 ==> !char_is_alphanumeric(#[trigger] c[i])
                    ==> char_is_alphanumeric(c[i + 1])
            &&& (after_dash && c.len() > 0 ==> char_is_alphanumeric(c[0]))
        }),
    decreases s.len(),
{
    if s.len() > 0 {
        let rest = s.drop_first();
        let c = collapse_separators(s, after_dash);
        assert forall|x: char| rest.contains(x) implies s.contains(x) by {
            let k = choose|k: int| 0 <= k < rest.len() && rest[k] == x;
            assert(s[k + 1] == x);
        }
        if char_is_alphanumeric(s[0]) {
            lemma_collapse_shape(rest, false);
            let t = collapse_separators(rest, false);
            assert forall|i: int| 0 <= i < c.len() implies (char_is_alphanumeric(#[trigger] c[i])
                && s.contains(c[i])) || c[i] == '-' by {
                if i > 0 {
                    assert(c[i] == t[i - 1]);
                } else {
                    assert(c[0] == s[0]);
                }
            }
            assert forall|i: int| 0 <= i < c.len() - 1 && !char_is_alphanumeric(
                #[trigger] c[i],
            ) implies char_is_alphanumeric(c[i + 1]) by {
                assert(c[i] == t[i - 1]);
                assert(c[i + 1] == t[i]);
            }
        } else if !after_dash {
            lemma_collapse_shape(rest, true);
            let t = collapse_separators(rest, true);
            assert forall|i: int| 0 <= i < c.len() implies (char_is_alphanumeric(#[trigger] c[i])
                && s.contains(c[i])) || c[i] == '-' by {
                if i > 0 {
                    assert(c[i] == t[i - 1]);
                }
            }
            assert forall|i: int| 0 <= i < c.len() - 1 && !char_is_alphanumeric(
                #[trigger] c[i],
            ) implies char_is_alphanumeric(c[i + 1]) by {
                assert(c[i + 1] == t[i]);
                if i > 0 {
                    assert(c[i] == t[i - 1]);
                }
            }
        } else {
            lemma_collapse_shape(rest, true);
        }
    }
}

proof fn lemma_leading_count_stops(s: Seq<char>, c: char)
    ensures
        leading_count(s, c) <= s.len(),
        leading_count(s, c) < s.len() ==> s[leading_count(s, c) as int] != c,
    decreases s.len(),
{
    if s.len() > 0 && s[0] == c {
        lemma_leading_count_stops(s.drop_first(), c);
    }
}

proof fn lemma_trailing_count_stops(s: Seq<char>, c: char)
    ensures
        trailing_count(s, c) <= s.len(),
        trailing_count(s, c) < s.len() ==> s[s.len() - 1 - trailing_count(s, c)] != c,
    decreases s.len(),
{
    if s.len() > 0 && s.last() == c {
        lemma_trailing_count_stops(s.drop_last(), c);
    }
}

/// A slug is made of alphanumeric characters of the lower-cased text and
/// `-`, neither starts nor ends with `-`, never holds two non-alphanumeric
/// characters in a row, and so never holds `--`.
pub proof fn lemma_slug_shape(lower: Seq<char>)
    ensures
        ({
            let r = slug_of_lowercase(lower);
            &&& r.len() > 0 ==> r[0] != '-' && r.last() != '-'
            &&& forall|i: int|
                0 <= i < r.len() ==> (char_is_alphanumeric(#[trigger] r[i]) && lower.contains(r[i]))
                    || r[i] == '-'
            &&& forall|i: int|
                0 <= i < r.len() - 1 ==> !char_is_alphanumeric(#[trigger] r[i])
                    ==> char_is_alphanumeric(r[i + 1])
            &&& forall|i: int| 0 <= i < r.len() - 1 ==> !(#[trigger] r[i] == '-' && r[i + 1] == '-')
        }),
{
    let c = collapse_separators(lower, false);
    lemma_collapse_shape(lower, false);
    lemma_leading_count_stops(c, '-');
    let a = leading_count(c, '-') as int;
    let t = c.skip(a);
    lemma_trailing_count_stops(t, '-');
    let n = t.len() - trailing_count(t, '-');
    let r = t.take(n);
    assert(r == slug_of_lowercase(lower));
    assert forall|i: int| 0 <= i < r.len() implies r[i] == c[a + i] by {}
    if r.len() > 0 {
        assert(r[0] == t[0]);
        assert(r.last() == t[t.len() - 1 - trailing_count(t, '-')]);
    }
    assert forall|i: int| 0 <= i < r.len() implies (char_is_alphanumeric(#[trigger] r[i])
        && lower.contains(r[i])) || r[i] == '-' by {
        assert(r[i] == c[a + i]);
    }
    assert forall|i: int| 0 <= i < r.len() - 1 && !char_is_alphanumeric(#[trigger] r[i]) implies char_is_alphanumeric(r[i + 1]) by {
        assert(r[i] == c[a + i]);
        assert(r[i + 1] == c[a + i + 1]);
    }
    assert(!char_is_alphanumeric('-'));
    assert forall|i: int| 0 <= i < r.len() - 1 implies !(#[trigger] r[i] == '-' && r[i + 1] == '-') by {
        assert(r[i] == c[a + i]);
        assert(r[i + 1] == c[a + i + 1]);
    }
}

/// `collapse_separators` leaves alone a text of alphanumeric characters and
/// single `-` separators.
proof fn lemma_collapse_fixed(s: Seq<char>, after_dash: bool)
    requires
        forall|i: int| 0 <= i < s.len() ==> char_is_alphanumeric(#[trigger] s[i]) || s[i] == '-',
        forall|i: int|
            0 <= i < s.len() - 1 ==> !char_is_alphanumeric(#[trigger] s[i]) ==> char_is_alphanumeric(
                s[i + 1],
            ),
        after_dash && s.len() > 0 ==> char_is_alphanumeric(s[0]),
    ensures
        collapse_separators(s, after_dash) == s,
    decreases s.len(),
{
    if s.len() > 0 {
        let rest = s.drop_first();
        assert forall|i: int| 0 <= i < rest.len() implies char_is_alphanumeric(#[trigger] rest[i])
            || rest[i] == '-' by {
            assert(rest[i] == s[i + 1]);
        }
        assert forall|i: int| 0 <= i < rest.len() - 1 && !char_is_alphanumeric(
            #[trigger] rest[i],
        ) implies char_is_alphanumeric(rest[i + 1]) by {
            assert(rest[i] == s[i + 1]);
            assert(rest[i + 1] == s[i + 2]);
        }
        if char_is_alphanumeric(s[0]) {
            lemma_collapse_fixed(rest, false);
        } else {
            if rest.len() > 0 {
                assert(rest[0] == s[1]);
            }
            lemma_collapse_fixed(rest, true);
        }
        assert(seq![s[0]] + rest =~= s);
    }
}

/// Making a slug of a slug changes nothing, for ASCII heading text.
pub proof fn lemma_slug_idempotent(text: Seq<char>)
    requires
        crate::text::all_ascii(text),
    ensures
        slug_of(slug_of(text)) == slug_of(text),
{
    let lower = lowercase_of(text);
    assert(lower == crate::text::ascii_lowercase(text));
    let r = slug_of_lowercase(lower);
    lemma_slug_shape(lower);
    assert forall|i: int| 0 <= i < r.len() implies (#[trigger] r[i] as int) < 0x80 && !('A' <= r[i]
        <= 'Z') by {
        if r[i] != '-' {
            let k = choose|k: int| 0 <= k < lower.len() && lower[k] == r[i];
            assert(lower[k] == crate::text::ascii_lower(text[k]));
            assert((text[k] as int) < 0x80);
        }
    }
    assert(crate::text::all_ascii(r));
    assert(lowercase_of(r) =~= r);
    assert forall|i: int| 0 <= i < r.len() implies char_is_alphanumeric(#[trigger] r[i]) || r[i]
        == '-' by {}
    lemma_collapse_fixed(r, false);
    let c = collapse_separators(r, false);
    assert(c == r);
    assert(leading_count(r, '-') == 0);
    assert(r.skip(0) =~= r);
    assert(trailing_count(r, '-') == 0);
    assert(r.take(r.len() as int) =~= r);
}

/// Whether `path` has a Markdown extension, in any case: what `is_markdown`
/// returns.
pub open spec fn markdown_path(path: Seq<char>) -> bool {
    match path_extension_of(path) {
        Some(e) => is_markdown_ext(lowercase_of(e)),
        None => false,
    }
}

/// The Markdown extensions are exactly `md`, `markdown`, `mdown`, `mkd` and
/// `mkdn`, in any case: a path is a Markdown file exactly when the lower-case
/// form of its extension is one of these five. So no other extension counts,
/// not even a shorter piece of one of them such as `m` or `mk`, and a
/// Markdown extension has at least two characters.
pub proof fn lemma_markdown_extensions_exact(path: Seq<char>)
    ensures
        markdown_path(path) <==> (path_extension_of(path) matches Some(e) && set![
            "md"@,
            "markdown"@,
            "mdown"@,
            "mkd"@,
            "mkdn"@,
        ].contains(lowercase_of(e))),
        markdown_path(path) ==> (path_extension_of(path) matches Some(e) && lowercase_of(e).len()
            >= 2),
{
    reveal_strlit("md");
    reveal_strlit("markdown");
    reveal_strlit("mdown");
    reveal_strlit("mkd");
    reveal_strlit("mkdn");
}

/// Markdown detection ignores the ASCII case of the extension: two paths
/// whose extensions differ only in ASCII letter case are both Markdown files
/// or neither.
pub proof fn lemma_markdown_path_ignores_case(p: Seq<char>, q: Seq<char>)
    requires
        path_extension_of(p) matches Some(e1) && path_extension_of(q) matches Some(e2)
            && crate::text::eq_ignore_ascii_case(e1, e2),
    ensures
        markdown_path(p) == markdown_path(q),
{
    let e1 = path_extension_of(p)->0;
    let e2 = path_extension_of(q)->0;
    assert forall|i: int| 0 <= i < e1.len() implies ((#[trigger] e1[i] as int) < 0x80) == ((
    e2[i] as int) < 0x80) by {
        assert(crate::text::ascii_lower(e1[i]) == crate::text::ascii_lower(e2[i]));
    }
    assert(crate::text::all_ascii(e1) == crate::text::all_ascii(e2)) by {
        if crate::text::all_ascii(e1) {
            assert forall|i: int| 0 <= i < e2.len() implies (#[trigger] e2[i] as int) < 0x80 by {
                assert((e1[i] as int) < 0x80);
            }
        }
        if crate::text::all_ascii(e2) {
            assert forall|i: int| 0 <= i < e1.len() implies (#[trigger] e1[i] as int) < 0x80 by {
                assert((e2[i] as int) < 0x80);
            }
        }
    }
    assert(crate::text::ascii_lowercase(e1) =~= crate::text::ascii_lowercase(e2)) by {
        assert forall|i: int| 0 <= i < e1.len() implies crate::text::ascii_lower(#[trigger] e1[i])
            == crate::text::ascii_lower(e2[i]) by {}
    }
}

/// Stripping front matter only ever removes a prefix of the text.
pub proof fn lemma_strip_front_matter_suffix(t: Seq<char>)
    ensures
        exists|k: int| 0 <= k <= t.len() && strip_front_matter(t) == t.skip(k),
{
    assert(t.skip(0) =~= t);
    lemma_after_front_matter_suffix(t, "---"@, "\n---"@);
    lemma_after_front_matter_suffix(t, "+++"@, "\n+++"@);
}

proof fn lemma_after_front_matter_suffix(t: Seq<char>, fence: Seq<char>, close: Seq<char>)
    ensures
        after_front_matter(t, fence, close) matches Some(b) ==> exists|k: int|
            0 <= k <= t.len() && b == t.skip(k),
{
    if starts_with(t, fence) {
        let rest = t.skip(fence.len() as int);
        match find(rest, close) {
            Some(e) => {
                crate::text::lemma_find_from(rest, close, 0);
                let u = rest.skip(e + close.len());
                lemma_leading_white_space_le(u);
                let k = fence.len() + e + close.len() + crate::text::leading_white_space(u);
                assert(trim_start(u) =~= t.skip(k));
            },
            None => {},
        }
    }
}

proof fn lemma_leading_white_space_le(s: Seq<char>)
    ensures
        crate::text::leading_white_space(s) <= s.len(),
    decreases s.len(),
{
    if s.len() > 0 && is_white_space(s[0]) {
        lemma_leading_white_space_le(s.drop_first());
    }
}

/// HTML without a `<pre>` element is left as it is.
pub proof fn lemma_wrap_without_pre(html: Seq<char>)
    requires
        find(html, "<pre>"@) is None,
    ensures
        wrap_blocks(html) == html,
{
}

/// A text that opens with neither `---` nor `+++` has no front matter.
pub proof fn lemma_no_front_matter(t: Seq<char>)
    requires
        !starts_with(t, "---"@),
        !starts_with(t, "+++"@),
    ensures
        strip_front_matter(t) == t,
{
}

/// When every heading that `events` opens has a level from 1 to 6, so has
/// every table-of-contents item.
pub proof fn lemma_toc_levels(events: Seq<MdEvent>)
    requires
        heading_nesting_ok(events),
        forall|i: int|
            0 <= i < events.len() ==> (#[trigger] events[i] matches MdEvent::HeadingStart(l) ==> 1
                <= l <= 6),
    ensures
        forall|i: int|
            0 <= i < toc_scan(events).items.len() ==> 1 <= (#[trigger] toc_scan(
                events,
            ).items[i]).level <= 6,
        toc_scan(events).depth >= 0,
        toc_scan(events).depth > 0 ==> 1 <= toc_scan(events).level <= 6,
    decreases events.len(),
{
    if events.len() > 0 {
        let prev = events.drop_last();
        assert forall|i: int| 0 <= i < prev.len() implies {
            &&& (#[trigger] prev[i] is HeadingEnd ==> toc_scan(prev.take(i)).depth > 0)
            &&& (prev[i] is HeadingStart ==> toc_scan(prev.take(i)).depth < u32::MAX)
        } by {
            assert(prev[i] == events[i]);
            assert(prev.take(i) =~= events.take(i));
        }
        assert forall|i: int| 0 <= i < prev.len() implies (#[trigger] prev[i] matches MdEvent::HeadingStart(l) ==> 1 <= l <= 6) by {
            assert(prev[i] == events[i]);
        }
        lemma_toc_levels(prev);
        let n = events.len() - 1;
        assert(events.take(n) =~= prev);
        assert(events[n] == events.last());
    }
}

/// The levels of the headings that `events` opens, in order.
pub open spec fn heading_levels(events: Seq<MdEvent>) -> Seq<u8>
    decreases events.len(),
{
    if events.len() == 0 {
        Seq::empty()
    } else {
        match events.last() {
            MdEvent::HeadingStart(l) => heading_levels(events.drop_last()).push(l),
            _ => heading_levels(events.drop_last()),
        }
    }
}

/// How many heading ends `events` holds.
pub open spec fn heading_end_count(events: Seq<MdEvent>) -> nat
    decreases events.len(),
{
    if events.len() == 0 {
        0
    } else {
        heading_end_count(events.drop_last()) + if events.last() is HeadingEnd {
            1nat
        } else {
            0nat
        }
    }
}

/// Headings in `events` do not nest: a heading starts only when every
/// earlier heading has ended, and a heading end closes the one open heading.
pub open spec fn headings_flat(events: Seq<MdEvent>) -> bool {
    forall|i: int|
        0 <= i < events.len() ==> {
            &&& (#[trigger] events[i] is HeadingStart ==> heading_levels(events.take(i)).len()
                == heading_end_count(events.take(i)))
            &&& (events[i] is HeadingEnd ==> heading_levels(events.take(i)).len()
                == heading_end_count(events.take(i)) + 1)
        }
}

/// The table of contents has one item for every heading, whatever its level:
/// when headings do not nest, it has as many items as there are heading
/// ends, the k-th with the level of the k-th heading, and at most the last
/// heading is still open.
pub proof fn lemma_toc_one_item_per_heading(events: Seq<MdEvent>)
    requires
        headings_flat(events),
    ensures
        toc_scan(events).items.len() == heading_end_count(events),
        heading_levels(events).len() == heading_end_count(events) + toc_scan(events).depth,
        0 <= toc_scan(events).depth <= 1,
        forall|k: int|
            0 <= k < toc_scan(events).items.len() ==> (#[trigger] toc_scan(events).items[k]).level
                == heading_levels(events)[k],
        toc_scan(events).depth == 1 ==> toc_scan(events).level == heading_levels(events).last(),
    decreases events.len(),
{
    if events.len() > 0 {
        let prev = events.drop_last();
        let n = events.len() - 1;
        assert forall|i: int| 0 <= i < prev.len() implies {
            &&& (#[trigger] prev[i] is HeadingStart ==> heading_levels(prev.take(i)).len()
                == heading_end_count(prev.take(i)))
            &&& (prev[i] is HeadingEnd ==> heading_levels(prev.take(i)).len()
                == heading_end_count(prev.take(i)) + 1)
        } by {
            assert(prev[i] == events[i]);
            assert(prev.take(i) =~= events.take(i));
        }
        lemma_toc_one_item_per_heading(prev);
        assert(events.take(n) =~= prev);
        assert(events[n] == events.last());
        let st = toc_scan(prev);
        let r = toc_scan(events);
        let lv = heading_levels(events);
        let pl = heading_levels(prev);
        match events.last() {
            MdEvent::HeadingStart(l) => {
                assert(lv == pl.push(l));
                assert(r.items == st.items);
                assert forall|k: int| 0 <= k < r.items.len() implies (#[trigger] r.items[k]).level
                    == lv[k] by {
                    assert(st.items[k].level == pl[k]);
                }
            },
            MdEvent::HeadingEnd => {
                assert(lv == pl);
                assert(r.items == st.items.push(TocItem { level: st.level, text: st.buf }));
                assert forall|k: int| 0 <= k < r.items.len() implies (#[trigger] r.items[k]).level
                    == lv[k] by {
                    if k < st.items.len() {
                        assert(st.items[k].level == pl[k]);
                    }
                }
            },
            _ => {
                assert(lv == pl);
                assert(r.items == st.items);
                assert forall|k: int| 0 <= k < r.items.len() implies (#[trigger] r.items[k]).level
                    == lv[k] by {
                    assert(st.items[k].level == pl[k]);
                }
            },
        }
    }
}

/// While the scan's depth is 0 before every heading start and positive before
/// every heading end, it counts the open headings.
proof fn lemma_depth_counts(events: Seq<MdEvent>)
    requires
        forall|i: int|
            0 <= i < events.len() ==> (#[trigger] events[i] is HeadingEnd ==> toc_scan(
                events.take(i),
            ).depth > 0),
        forall|i: int|
            0 <= i < events.len() ==> (#[trigger] events[i] is HeadingStart ==> toc_scan(
                events.take(i),
            ).depth == 0),
    ensures
        toc_scan(events).depth == heading_levels(events).len() - heading_end_count(events),
        0 <= toc_scan(events).depth <= 1,
    decreases events.len(),
{
    if events.len() > 0 {
        let prev = events.drop_last();
        let n = events.len() - 1;
        assert forall|i: int| 0 <= i < prev.len() && #[trigger] prev[i] is HeadingEnd
            implies toc_scan(prev.take(i)).depth > 0 by {
            assert(prev[i] == events[i]);
            assert(prev.take(i) =~= events.take(i));
        }
        assert forall|i: int| 0 <= i < prev.len() && #[trigger] prev[i] is HeadingStart
            implies toc_scan(prev.take(i)).depth == 0 by {
            assert(prev[i] == events[i]);
            assert(prev.take(i) =~= events.take(i));
        }
        lemma_depth_counts(prev);
        assert(events.take(n) =~= prev);
        assert(events[n] == events.last());
    }
}

/// Events whose scan depth is 0 before every heading start and positive
/// before every heading end (what the parser yields) have headings that do
/// not nest.
proof fn lemma_headings_flat(events: Seq<MdEvent>)
    requires
        forall|i: int|
            0 <= i < events.len() ==> (#[trigger] events[i] is HeadingEnd ==> toc_scan(
                events.take(i),
            ).depth > 0),
        forall|i: int|
            0 <= i < events.len() ==> (#[trigger] events[i] is HeadingStart ==> toc_scan(
                events.take(i),
            ).depth == 0),
    ensures
        headings_flat(events),
{
    assert forall|i: int| 0 <= i < events.len() implies {
        &&& (#[trigger] events[i] is HeadingStart ==> heading_levels(events.take(i)).len()
            == heading_end_count(events.take(i)))
        &&& (events[i] is HeadingEnd ==> heading_levels(events.take(i)).len()
            == heading_end_count(events.take(i)) + 1)
    } by {
        let p = events.take(i);
        assert forall|j: int| 0 <= j < p.len() && #[trigger] p[j] is HeadingEnd
            implies toc_scan(p.take(j)).depth > 0 by {
            assert(p[j] == events[j]);
            assert(p.take(j) =~= events.take(j));
        }
        assert forall|j: int| 0 <= j < p.len() && #[trigger] p[j] is HeadingStart
            implies toc_scan(p.take(j)).depth == 0 by {
            assert(p[j] == events[j]);
            assert(p.take(j) =~= events.take(j));
        }
        lemma_depth_counts(p);
    }
}

/// A heading whose content is one text `t`, read after every earlier heading
/// has ended, adds one item to the table of contents: its level and `t`.
pub proof fn lemma_toc_heading_text(events: Seq<MdEvent>, l: u8, t: String)
    requires
        toc_scan(events).depth == 0,
    ensures
        toc_scan(events + seq![MdEvent::HeadingStart(l), MdEvent::Text(t), MdEvent::HeadingEnd]).items
            == toc_scan(events).items.push(TocItem { level: l, text: t@ }),
{
    let e1 = events.push(MdEvent::HeadingStart(l));
    let e2 = e1.push(MdEvent::Text(t));
    let e3 = e2.push(MdEvent::HeadingEnd);
    assert(e1.drop_last() =~= events);
    assert(e2.drop_last() =~= e1);
    assert(e3.drop_last() =~= e2);
    let s0 = toc_scan(events);
    assert(toc_scan(e1) == toc_step(s0, MdEvent::HeadingStart(l)));
    assert(toc_scan(e1).depth == 1 && toc_scan(e1).buf == Seq::<char>::empty());
    assert(toc_scan(e2) == toc_step(toc_scan(e1), MdEvent::Text(t)));
    assert(Seq::<char>::empty() + t@ =~= t@);
    assert(toc_scan(e2).buf == t@ && toc_scan(e2).depth == 1 && toc_scan(e2).level == l);
    assert(toc_scan(e3) == toc_step(toc_scan(e2), MdEvent::HeadingEnd));
    assert(e3 =~= events + seq![MdEvent::HeadingStart(l), MdEvent::Text(t), MdEvent::HeadingEnd]);
}

/// A heading of two lines `a` and `b`, where `a` does not end with a space,
/// gives an item whose text is `a`, one space and `b`.
pub proof fn lemma_toc_heading_lines(events: Seq<MdEvent>, l: u8, a: String, b: String)
    requires
        toc_scan(events).depth == 0,
        a@.len() > 0,
        a@.last() != ' ',
    ensures
        toc_scan(
            events + seq![
                MdEvent::HeadingStart(l),
                MdEvent::Text(a),
                MdEvent::SoftBreak,
                MdEvent::Text(b),
                MdEvent::HeadingEnd,
            ],
        ).items == toc_scan(events).items.push(TocItem { level: l, text: a@ + seq![' '] + b@ }),
{
    let e1 = events.push(MdEvent::HeadingStart(l));
    let e2 = e1.push(MdEvent::Text(a));
    let e3 = e2.push(MdEvent::SoftBreak);
    let e4 = e3.push(MdEvent::Text(b));
    let e5 = e4.push(MdEvent::HeadingEnd);
    assert(e1.drop_last() =~= events);
    assert(e2.drop_last() =~= e1);
    assert(e3.drop_last() =~= e2);
    assert(e4.drop_last() =~= e3);
    assert(e5.drop_last() =~= e4);
    let s0 = toc_scan(events);
    assert(toc_scan(e1) == toc_step(s0, MdEvent::HeadingStart(l)));
    assert(toc_scan(e1).depth == 1 && toc_scan(e1).buf == Seq::<char>::empty());
    assert(toc_scan(e2) == toc_step(toc_scan(e1), MdEvent::Text(a)));
    assert(Seq::<char>::empty() + a@ =~= a@);
    assert(toc_scan(e2).buf == a@ && toc_scan(e2).depth == 1);
    assert(toc_scan(e3) == toc_step(toc_scan(e2), MdEvent::SoftBreak));
    assert(toc_scan(e3).buf == a@.push(' ') && toc_scan(e3).depth == 1);
    assert(toc_scan(e4) == toc_step(toc_scan(e3), MdEvent::Text(b)));
    assert(toc_scan(e4).buf == a@.push(' ') + b@ && toc_scan(e4).depth == 1 && toc_scan(e4).level == l);
    assert(toc_scan(e5) == toc_step(toc_scan(e4), MdEvent::HeadingEnd));
    assert(e5 =~= events + seq![
        MdEvent::HeadingStart(l),
        MdEvent::Text(a),
        MdEvent::SoftBreak,
        MdEvent::Text(b),
        MdEvent::HeadingEnd,
    ]);
    assert(Seq::<char>::empty() + a@ =~= a@);
    assert(a@.push(' ') + b@ =~= a@ + seq![' '] + b@);
}

} // verus!
