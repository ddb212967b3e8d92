use md_forge::block::{tokenize, Block};
use md_forge::render::{convert, render_blocks_to_html};

fn strings(items: &[&str]) -> Vec<String> {
    items.iter().map(|s| s.to_string()).collect()
}

#[test]
fn heading_of_level_three_as_html() {
    assert_eq!(render_blocks_to_html(tokenize("### Title")), "<h3>Title</h3>\n");
}

#[test]
fn every_kind_of_block() {
    assert_eq!(
        render_blocks_to_html(vec![Block::Header(1, "a *b*".to_string())]),
        "<h1>a <em>b</em></h1>\n"
    );
    assert_eq!(
        render_blocks_to_html(vec![Block::Paragraph("a **b**".to_string())]),
        "<p>a <strong>b</strong></p>\n"
    );
    assert_eq!(
        render_blocks_to_html(vec![Block::UnorderedList(strings(&["a", "*b*"]))]),
        "<ul>\n<li>a</li>\n<li><em>b</em></li>\n</ul>\n"
    );
    assert_eq!(
        render_blocks_to_html(vec![Block::OrderedList(strings(&["a", "[b](c)"]))]),
        "<ol>\n<li>a</li>\n<li><a href=\"c\">b</a></li>\n</ol>\n"
    );
    assert_eq!(
        render_blocks_to_html(vec![Block::Blockquote("a ***b***".to_string())]),
        "<blockquote><p>a <strong><em>b</em></strong></p></blockquote>\n"
    );
    assert_eq!(
        render_blocks_to_html(vec![Block::CodeBlock("a *b*\n<c>".to_string())]),
        "<pre><code>a *b*\n<c></code></pre>\n"
    );
}

#[test]
fn list_of_three_items_as_html() {
    let blocks = tokenize("- a\n- b\n- c");
    assert_eq!(blocks, vec![Block::UnorderedList(strings(&["a", "b", "c"]))]);
    let html = render_blocks_to_html(blocks);
    assert_eq!(html, "<ul>\n<li>a</li>\n<li>b</li>\n<li>c</li>\n</ul>\n");
    assert_eq!(html.matches("<li>").count(), 3);
}

#[test]
fn empty_lists_and_no_blocks() {
    assert_eq!(render_blocks_to_html(Vec::new()), "");
    assert_eq!(render_blocks_to_html(vec![Block::UnorderedList(Vec::new())]), "<ul>\n</ul>\n");
    assert_eq!(render_blocks_to_html(vec![Block::OrderedList(Vec::new())]), "<ol>\n</ol>\n");
    assert_eq!(render_blocks_to_html(vec![Block::Paragraph(String::new())]), "<p></p>\n");
}

#[test]
fn heading_levels_are_written_in_decimal() {
    for level in 0..=255u8 {
        assert_eq!(
            render_blocks_to_html(vec![Block::Header(level, "t".to_string())]),
            format!("<h{}>t</h{}>\n", level, level)
        );
    }
}

#[test]
fn code_is_not_formatted() {
    assert_eq!(
        convert("```\n**not bold**\n```"),
        "<pre><code>**not bold**</code></pre>\n"
    );
    assert_eq!(
        convert("```\n[a](b) *c*\n# d\n```"),
        "<pre><code>[a](b) *c*\n# d</code></pre>\n"
    );
}

#[test]
fn fragments_follow_the_blocks() {
    let doc = "# Title\n\nSome *text*\nhere.\n\n- a\n- **b**\n\n1. x\n2. y\n\n> q\n\n```\nc\n```\n";
    assert_eq!(
        convert(doc),
        "<h1>Title</h1>\n\
         <p>Some <em>text</em> here.</p>\n\
         <ul>\n<li>a</li>\n<li><strong>b</strong></li>\n</ul>\n\
         <ol>\n<li>x</li>\n<li>y</li>\n</ol>\n\
         <blockquote><p>q</p></blockquote>\n\
         <pre><code>c</code></pre>\n"
    );
    assert_eq!(convert(doc), render_blocks_to_html(tokenize(doc)));
}

#[test]
fn nothing_is_escaped() {
    assert_eq!(convert("a < b & c > d"), "<p>a < b & c > d</p>\n");
    assert_eq!(convert("<div>x</div>"), "<p><div>x</div></p>\n");
}

#[test]
fn emphasis_may_span_the_lines_of_a_paragraph() {
    assert_eq!(convert("*a\nb*"), "<p><em>a b</em></p>\n");
    assert_eq!(convert("*a\n\nb*"), "<p>*a</p>\n<p>b*</p>\n");
}

#[test]
fn empty_document_gives_no_html() {
    assert_eq!(convert(""), "");
    assert_eq!(convert("\n\n"), "");
}
