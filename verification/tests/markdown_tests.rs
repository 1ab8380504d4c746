use mdr::markdown::{
    check_heading_nesting, extract_language, is_markdown, is_markdown_extension, push_event_text,
    render_markdown, slugify, VIEWER_OPTIONS, slugify_lowercase, strip_frontmatter, toc_from_events,
    wrap_code_blocks, MdEvent, TocEntry, BLOCK_OPEN, BUTTON_CLOSE, BUTTON_OPEN, COPY_ICON,
    LANG_CLOSE, LANG_EMPTY, LANG_OPEN, PRE_CLOSE, PRE_OPEN,
};

fn entry(level: u8, text: &str, id: &str) -> TocEntry {
    TocEntry { level, text: text.to_string(), id: id.to_string() }
}

#[test]
fn strip_yaml_front_matter() {
    assert_eq!(strip_frontmatter("---\ntitle: x\n---\n\n  # Hi"), "# Hi");
}

#[test]
fn strip_toml_front_matter() {
    assert_eq!(strip_frontmatter("+++\na = 1\n+++\nBody"), "Body");
}

#[test]
fn unclosed_front_matter_is_kept() {
    assert_eq!(strip_frontmatter("---\nno close"), "---\nno close");
    assert_eq!(strip_frontmatter("+++ only"), "+++ only");
}

#[test]
fn text_without_front_matter_is_kept() {
    assert_eq!(strip_frontmatter("# Title\n---\nx"), "# Title\n---\nx");
    assert_eq!(strip_frontmatter(""), "");
}

#[test]
fn front_matter_close_is_first_fence_line() {
    assert_eq!(strip_frontmatter("---\na\n---b\n---\nc"), "b\n---\nc");
}

#[test]
fn slug_of_plain_heading() {
    assert_eq!(slugify("Hello World!"), "hello-world");
}

#[test]
fn slug_collapses_and_trims_separators() {
    assert_eq!(slugify("  --Foo__Bar--  "), "foo-bar");
    assert_eq!(slugify("a - b"), "a-b");
}

#[test]
fn slug_keeps_unicode_letters_and_digits() {
    assert_eq!(slugify("Ünïcode Tëst 42"), "ünïcode-tëst-42");
}

#[test]
fn slug_of_only_separators_is_empty() {
    assert_eq!(slugify("!!! ???"), "");
    assert_eq!(slugify(""), "");
}

#[test]
fn slug_of_lowercase_text_does_not_lowercase() {
    assert_eq!(slugify_lowercase("Ab Cd"), "Ab-Cd");
}

#[test]
fn language_from_code_class() {
    assert_eq!(extract_language("<code class=\"language-rust\">fn main() {}</code>"), Some("rust"));
}

#[test]
fn language_is_first_language_class() {
    assert_eq!(
        extract_language("<code class=\"hl  language-py\tlanguage-js\">x</code>"),
        Some("py")
    );
}

#[test]
fn no_language_without_class() {
    assert_eq!(extract_language("<code>x</code>"), None);
    assert_eq!(extract_language("plain"), None);
    assert_eq!(extract_language("<code class=\"other\">x</code>"), None);
    assert_eq!(extract_language("<code class=\"language-rust"), None);
}

#[test]
fn html_without_pre_is_unchanged() {
    assert_eq!(wrap_code_blocks("<p>x</p>"), "<p>x</p>");
}

#[test]
fn unclosed_pre_writes_rest_twice() {
    assert_eq!(wrap_code_blocks("a<pre>b"), "a<pre>ba<pre>b");
    assert_eq!(wrap_code_blocks("<p>a</p><pre>abc"), "<p>a</p><pre>abc<p>a</p><pre>abc");
}

#[test]
fn unclosed_pre_after_a_block_repeats_only_the_rest() {
    let out = wrap_code_blocks("<pre>x</pre>m<pre>y");
    let expected = format!(
        "{BLOCK_OPEN}{LANG_EMPTY}{BUTTON_OPEN}{COPY_ICON}{BUTTON_CLOSE}<pre>x</pre></div>m<pre>ym<pre>y"
    );
    assert_eq!(out, expected);
}

#[test]
fn language_only_from_the_code_tag() {
    assert_eq!(extract_language("<code>x</code><span class=\"language-y\">z</span>"), None);
    assert_eq!(
        extract_language("<code data-x=\"1\" class=\"language-go\">x</code>"),
        Some("go")
    );
}

#[test]
fn slug_of_slug_is_the_same() {
    for t in ["Hello World!", "  --Foo__Bar--  ", "A1 b2-C3", "x"] {
        let s = slugify(t);
        assert_eq!(slugify(&s), s);
    }
}

#[test]
fn pre_block_is_wrapped_with_language() {
    let inner = "<code class=\"language-rust\">x</code>";
    let html = format!("<p>a</p><pre>{inner}</pre><p>b</p>");
    let expected = format!(
        "<p>a</p>{BLOCK_OPEN}{LANG_OPEN}rust{LANG_CLOSE}{BUTTON_OPEN}{COPY_ICON}{BUTTON_CLOSE}{PRE_OPEN}{inner}{PRE_CLOSE}<p>b</p>"
    );
    assert_eq!(wrap_code_blocks(&html), expected);
}

#[test]
fn pre_block_without_language_gets_empty_label() {
    let out = wrap_code_blocks("<pre><code>x</code></pre>");
    let expected = format!(
        "{BLOCK_OPEN}{LANG_EMPTY}{BUTTON_OPEN}{COPY_ICON}{BUTTON_CLOSE}<pre><code>x</code></pre></div>"
    );
    assert_eq!(out, expected);
    assert!(out.starts_with(
        "<div class=\"code-block-wrapper\"><div class=\"code-block-header\"><span class=\"code-block-lang code-block-lang-empty\"></span><button class=\"copy-btn\""
    ));
}

#[test]
fn every_pre_block_is_wrapped() {
    let out = wrap_code_blocks("<pre>a</pre>mid<pre>b</pre>");
    assert_eq!(out.matches("code-block-wrapper").count(), 2);
    assert!(out.contains("</pre></div>mid<div class=\"code-block-wrapper\">"));
}

#[test]
fn toc_of_headings() {
    let r = render_markdown("# Title\n\nSome text.\n\n## Sub *em* `code`\n");
    assert_eq!(r.toc, vec![entry(1, "Title", "title"), entry(2, "Sub em code", "sub-em-code")]);
    assert!(r.html.contains("<h1>Title</h1>"));
}

#[test]
fn toc_ignores_front_matter() {
    let r = render_markdown("---\ntitle: x\n---\n# Real Heading\n");
    assert_eq!(r.toc, vec![entry(1, "Real Heading", "real-heading")]);
    assert!(!r.html.contains("title: x"));
}

#[test]
fn soft_break_in_heading_becomes_space() {
    let r = render_markdown("Line one\nline two\n===\n");
    assert_eq!(r.toc, vec![entry(1, "Line one line two", "line-one-line-two")]);
}

#[test]
fn rendered_code_block_has_language_label() {
    let r = render_markdown("```rust\nfn main() {}\n```\n");
    assert!(r.html.contains("<span class=\"code-block-lang\">rust</span>"));
    assert!(r.html.contains("copy-btn"));
    assert!(r.toc.is_empty());
}

#[test]
fn empty_document_renders_empty() {
    let r = render_markdown("");
    assert_eq!(r.html, "");
    assert!(r.toc.is_empty());
}

#[test]
fn toc_keeps_outermost_heading_only() {
    let events = vec![
        MdEvent::HeadingStart(1),
        MdEvent::Text("A".to_string()),
        MdEvent::HeadingStart(2),
        MdEvent::Text("B".to_string()),
        MdEvent::HeadingEnd,
        MdEvent::SoftBreak,
        MdEvent::HardBreak,
        MdEvent::HeadingEnd,
        MdEvent::Text("outside".to_string()),
        MdEvent::HeadingStart(3),
        MdEvent::InlineHtml("<b>".to_string()),
        MdEvent::Other,
        MdEvent::Html("x".to_string()),
        MdEvent::HeadingEnd,
    ];
    assert!(check_heading_nesting(&events));
    assert_eq!(toc_from_events(&events), vec![entry(1, "AB ", "ab"), entry(3, "<b>x", "b-x")]);
}

#[test]
fn unbalanced_heading_end_is_detected() {
    let events = vec![MdEvent::HeadingEnd];
    assert!(!check_heading_nesting(&events));
    let events = vec![MdEvent::HeadingStart(1), MdEvent::HeadingEnd, MdEvent::HeadingEnd];
    assert!(!check_heading_nesting(&events));
    assert!(check_heading_nesting(&vec![MdEvent::Text("a".to_string())]));
}

#[test]
fn break_adds_one_space() {
    let mut buf: Vec<char> = Vec::new();
    push_event_text(&MdEvent::SoftBreak, &mut buf);
    assert_eq!(buf, vec![' ']);
    push_event_text(&MdEvent::HardBreak, &mut buf);
    assert_eq!(buf, vec![' ']);
    push_event_text(&MdEvent::Code("x".to_string()), &mut buf);
    push_event_text(&MdEvent::Other, &mut buf);
    push_event_text(&MdEvent::OtherText("$m$".to_string()), &mut buf);
    assert_eq!(buf, vec![' ', 'x']);
}

#[test]
fn markdown_paths() {
    assert!(is_markdown("notes/README.md"));
    assert!(is_markdown("x.MD"));
    assert!(is_markdown("a/b.Markdown"));
    assert!(is_markdown("c.mdown"));
    assert!(is_markdown("c.mkd"));
    assert!(is_markdown("c.MKDN"));
}

#[test]
fn non_markdown_paths() {
    assert!(!is_markdown("x.txt"));
    assert!(!is_markdown("dir/noext"));
    assert!(!is_markdown(".md"));
    assert!(!is_markdown("x.md.bak"));
    assert!(!is_markdown(""));
}

#[test]
fn markdown_extensions() {
    assert!(is_markdown_extension("md"));
    assert!(is_markdown_extension("markdown"));
    assert!(!is_markdown_extension("MD"));
    assert!(!is_markdown_extension("mdx"));
}

#[test]
fn viewer_dialect_options() {
    assert_eq!(VIEWER_OPTIONS, (1 << 1) | (1 << 2) | (1 << 3) | (1 << 4) | (1 << 5) | (1 << 6) | (1 << 8));
}

#[test]
fn viewer_dialect_parses_tables_and_strikethrough() {
    let r = render_markdown("| a | b |\n|---|---|\n| 1 | 2 |\n\n~~gone~~\n");
    assert!(r.html.contains("<table>"));
    assert!(r.html.contains("<del>gone</del>"));
}

#[test]
fn heading_attributes_do_not_enter_heading_text() {
    let r = render_markdown("# Title {#custom}\n");
    assert_eq!(r.toc.len(), 1);
    assert_eq!(r.toc[0].text, "Title");
}
