use bedrock_core::format::{
    highlight_inline, highlight_markdown, highlight_markdown_for_editor, ImageRenderContext,
};

fn b(s: &str) -> Vec<u8> {
    s.as_bytes().to_vec()
}

fn render_inline(text: &str, caret: Option<usize>) -> String {
    String::from_utf8(highlight_inline(&b(text), caret, None)).unwrap()
}

fn render_markdown(text: &str, caret: Option<usize>) -> String {
    String::from_utf8(highlight_markdown(&b(text), caret, None)).unwrap()
}

fn assert_has(haystack: &str, needle: &str) {
    assert!(
        haystack.contains(needle),
        "expected substring `{needle}` in:\n{haystack}"
    );
}

#[test]
fn highlights_obsidian_inline_emphasis_variants() {
    let html = render_inline(
        "**bold** __bold2__ *it* _it2_ ~~gone~~ ==mark== ***both*** ___both2___",
        None,
    );
    assert_has(&html, "hl-bold");
    assert_has(&html, "hl-italic");
    assert_has(&html, "hl-strike");
    assert_has(&html, "hl-mark");
    assert_has(&html, "hl-bold hl-italic");
}

#[test]
fn highlights_obsidian_links_embeds_tags_and_blocks() {
    let html = render_inline(
        "[[Note]] ![[Asset.png]] [Label](Note.md) ![img](Img.png) #tag ^block-id",
        None,
    );
    assert_has(&html, "hl-link");
    assert_has(&html, "hl-embed");
    assert_has(&html, "hl-tag");
    assert_has(&html, "hl-block-id");
}

#[test]
fn highlights_obsidian_comments_footnotes_and_math() {
    let html = render_inline("%%comment%% Ref[^1] inline ^[note] and $e^{i\\pi}+1=0$", None);
    assert_has(&html, "hl-comment");
    assert_has(&html, "hl-footnote");
    assert_has(&html, "hl-math-inline");
}

#[test]
fn highlights_headings_h1_to_h6() {
    let html = render_markdown("# h1\n## h2\n### h3\n#### h4\n##### h5\n###### h6", None);
    assert_has(&html, "hl-h1");
    assert_has(&html, "hl-h2");
    assert_has(&html, "hl-h3");
    assert_has(&html, "hl-h4");
    assert_has(&html, "hl-h5");
    assert_has(&html, "hl-h6");
}

#[test]
fn highlights_callouts_lists_quotes_and_hr() {
    let html = render_markdown("> [!note] Title\n> quote\n- [ ] task\n1) one\n- item\n---\n", None);
    assert_has(&html, "hl-callout");
    assert_has(&html, "hl-quote");
    assert_has(&html, "hl-task");
    assert_has(&html, "hl-list");
    assert_has(&html, "hl-hr");
}

#[test]
fn highlights_tables_code_fences_math_blocks_frontmatter_and_comments() {
    let html = render_markdown(
        "---\ntitle: Bedrock\n---\n| a | b |\n| --- | --- |\n```rust\nlet x = 1;\n```\n$$\na+b\n$$\n%%\ncomment block\n%%\n",
        None,
    );
    assert_has(&html, "hl-frontmatter");
    assert_has(&html, "hl-table");
    assert_has(&html, "hl-codeblock");
    assert_has(&html, "hl-code-fence");
    assert_has(&html, "hl-math-block");
    assert_has(&html, "hl-comment");
}

#[test]
fn highlights_footnote_definitions() {
    let html = render_markdown("[^note]: footnote text\n", None);
    assert_has(&html, "hl-footnote-def");
}

#[test]
fn inline_delimiters_respect_escaping() {
    let html = render_inline(r"\*\*literal\*\* and **bold**", None);
    assert_has(&html, "hl-bold");
    assert_has(&html, r"\*\*literal\*\*");
}

#[test]
fn caret_outside_span_hides_delimiter_tokens() {
    let html = render_markdown("**bold**", None);
    assert_has(&html, "<span class=\"md-token md-token-hidden\">**</span>");
    assert_has(&html, "<span class=\"hl-bold\">bold</span>");
    assert!(!html.contains("md-token-visible"));
}

#[test]
fn caret_inside_span_reveals_delimiter_tokens() {
    let html = render_markdown("**bold**", Some(4));
    assert_has(&html, "<span class=\"md-token md-token-visible\">**</span>");
    assert_has(&html, "<span class=\"hl-bold\">bold</span>");
    assert!(!html.contains("md-token-hidden"));
}

#[test]
fn unmatched_opener_stays_visible_while_typing() {
    let html = render_inline("start **rest", None);
    assert_has(&html, "**rest");
}

#[test]
fn escapes_html_metacharacters() {
    let html = render_inline("a < b & c > d", None);
    assert_has(&html, "a &lt; b &amp; c &gt; d");
}

#[test]
fn inline_code_takes_precedence_over_emphasis() {
    let html = render_inline("`**not bold**`", None);
    assert_has(&html, "hl-code");
    assert!(!html.contains("hl-bold"));
}

#[test]
fn fence_keeps_following_lines_verbatim() {
    let html = render_markdown("```\n**raw**\n```\nafter **bold**", None);
    assert_has(&html, "**raw**");
    assert_has(&html, "hl-bold");
}

#[test]
fn frontmatter_only_opens_on_first_line() {
    let html = render_markdown("text\n---\nmore", None);
    assert!(!html.contains("hl-frontmatter"));
    assert_has(&html, "hl-hr");
}

#[test]
fn cached_embed_renders_inline_preview() {
    let ctx = ImageRenderContext {
        vault_path: b("/vault"),
        current_file: b("Note.md"),
        cache: vec![(b("/vault/pic.png"), b("data:image/png;base64,AAAA"))],
    };
    let html = String::from_utf8(highlight_markdown(&b("![[pic.png]]"), None, Some(&ctx))).unwrap();
    assert_has(&html, "md-inline-image");
    assert_has(&html, "data:image/png;base64,AAAA");
}

#[test]
fn uncached_embed_leaves_raw_markup() {
    let html = String::from_utf8(highlight_markdown_for_editor(
        &b("![[missing.png]]"),
        None,
        &b("/vault"),
        &b("Note.md"),
        &Vec::new(),
    ))
    .unwrap();
    assert!(!html.contains("md-inline-image"));
    assert_has(&html, "hl-embed");
}
