//! The block renderer: from blocks to HTML.
//!
//! Each block gives one fragment, and the document is the fragments in the
//! order of the blocks. The text of every block but a code block is
//! formatted as inline text first.

use crate::block::{Block, BlockView, document_blocks, texts, tokenize, views};
use crate::inline::{inline_html, parse_inline_formatting};
use vstd::prelude::*;

verus! {

/// The character for a digit.
pub open spec fn digit(d: nat) -> char
    recommends
        d < 10,
{
    ('0' as nat + d) as char
}

/// A number in decimal notation.
pub open spec fn decimal(n: nat) -> Seq<char>
    decreases n,
{
    if n < 10 {
        seq![digit(n)]
    } else {
        decimal(n / 10).push(digit(n % 10))
    }
}

/// The items of a list, one element each.
pub open spec fn items_html(items: Seq<Seq<char>>) -> Seq<char>
    decreases items.len(),
{
    if items.len() == 0 {
        Seq::empty()
    } else {
        items_html(items.drop_last()) + "<li>"@ + inline_html(items.last()) + "</li>\n"@
    }
}

/// The fragment for one block.
pub open spec fn block_html(block: BlockView) -> Seq<char> {
    match block {
        BlockView::Header(level, text) => "<h"@ + decimal(level) + ">"@ + inline_html(text) + "</h"@
            + decimal(level) + ">\n"@,
        BlockView::Paragraph(text) => "<p>"@ + inline_html(text) + "</p>\n"@,
        BlockView::UnorderedList(items) => "<ul>\n"@ + items_html(items) + "</ul>\n"@,
        BlockView::OrderedList(items) => "<ol>\n"@ + items_html(items) + "</ol>\n"@,
        BlockView::Blockquote(text) => "<blockquote><p>"@ + inline_html(text)
            + "</p></blockquote>\n"@,
        BlockView::CodeBlock(text) => "<pre><code>"@ + text + "</code></pre>\n"@,
    }
}

/// The fragments of the blocks, in order.
pub open spec fn document_html(blocks: Seq<BlockView>) -> Seq<char>
    decreases blocks.len(),
{
    if blocks.len() == 0 {
        Seq::empty()
    } else {
        document_html(blocks.drop_last()) + block_html(blocks.last())
    }
}

/// The character for the digit `d`.
fn digit_char(d: u8) -> (c: char)
    requires
        d < 10,
    ensures
        c == digit(d as nat),
{
    (48u8 + d) as char
}

/// Appends `n` in decimal notation.
fn push_decimal(out: &mut String, n: u8)
    ensures
        final(out)@ == old(out)@ + decimal(n as nat),
{
    if n >= 100 {
        out.push(digit_char(n / 100));
    }
    if n >= 10 {
        out.push(digit_char((n / 10) % 10));
    }
    out.push(digit_char(n % 10));
    proof {
        let v = n as nat;
        assert(decimal(v / 100) == seq![digit(v / 100)]);
        if v >= 100 {
            assert(decimal(v / 10) == decimal(v / 100).push(digit((v / 10) % 10)));
        } else if v >= 10 {
            assert(decimal(v / 10) == seq![digit(v / 10)]);
        }
    }
}

/// Appends the elements for the items of a list.
fn push_items(out: &mut String, items: &Vec<String>)
    ensures
        final(out)@ == old(out)@ + items_html(texts(items@)),
{
    let mut i: usize = 0;
    assert(texts(items@).take(0) == Seq::<Seq<char>>::empty());
    while i < items.len()
        invariant
            i <= items.len(),
            out@ == old(out)@ + items_html(texts(items@).take(i as int)),
        decreases items.len() - i,
    {
        let html = parse_inline_formatting(items[i].as_str());
        proof {
            let next = texts(items@).take(i + 1);
            assert(next.drop_last() == texts(items@).take(i as int));
            assert(next.last() == items@[i as int]@);
        }
        out.append("<li>");
        out.append(html.as_str());
        out.append("</li>\n");
        i += 1;
    }
    assert(texts(items@).take(items.len() as int) == texts(items@));
}

/// Appends the fragment for one block.
fn push_block(out: &mut String, block: &Block)
    ensures
        final(out)@ == old(out)@ + block_html(block@),
{
    match block {
        Block::Header(level, text) => {
            let html = parse_inline_formatting(text.as_str());
            out.append("<h");
            push_decimal(out, *level);
            out.append(">");
            out.append(html.as_str());
            out.append("</h");
            push_decimal(out, *level);
            out.append(">\n");
        },
        Block::Paragraph(text) => {
            let html = parse_inline_formatting(text.as_str());
            out.append("<p>");
            out.append(html.as_str());
            out.append("</p>\n");
        },
        Block::UnorderedList(items) => {
            out.append("<ul>\n");
            push_items(out, items);
            out.append("</ul>\n");
        },
        Block::OrderedList(items) => {
            out.append("<ol>\n");
            push_items(out, items);
            out.append("</ol>\n");
        },
        Block::Blockquote(text) => {
            let html = parse_inline_formatting(text.as_str());
            out.append("<blockquote><p>");
            out.append(html.as_str());
            out.append("</p></blockquote>\n");
        },
        Block::CodeBlock(text) => {
            out.append("<pre><code>");
            out.append(text.as_str());
            out.append("</code></pre>\n");
        },
    }
}

/// Renders the blocks of a document as HTML.
pub fn render_blocks_to_html(blocks: Vec<Block>) -> (html: String)
    ensures
        html@ == document_html(views(blocks@)),
{
    let mut html = String::new();
    let mut i: usize = 0;
    assert(views(blocks@).take(0) == Seq::<BlockView>::empty());
    while i < blocks.len()
        invariant
            i <= blocks.len(),
            html@ == document_html(views(blocks@).take(i as int)),
        decreases blocks.len() - i,
    {
        proof {
            let next = views(blocks@).take(i + 1);
            assert(next.drop_last() == views(blocks@).take(i as int));
            assert(next.last() == blocks@[i as int]@);
        }
        push_block(&mut html, &blocks[i]);
        i += 1;
    }
    assert(views(blocks@).take(blocks.len() as int) == views(blocks@));
    html
}

/// Converts a document to HTML: its blocks, rendered.
pub fn convert(markdown: &str) -> (html: String)
    ensures
        html@ == document_html(document_blocks(markdown@)),
{
    render_blocks_to_html(tokenize(markdown))
}

/// A code block is rendered as it stands: its text is not formatted.
pub proof fn lemma_code_verbatim(text: Seq<char>)
    ensures
        block_html(BlockView::CodeBlock(text)) == "<pre><code>"@ + text + "</code></pre>\n"@,
        document_html(seq![BlockView::CodeBlock(text)]) == "<pre><code>"@ + text
            + "</code></pre>\n"@,
{
    let blocks = seq![BlockView::CodeBlock(text)];
    assert(document_html(blocks.drop_last()) == Seq::<char>::empty());
    assert(Seq::<char>::empty() + block_html(blocks.last()) == block_html(blocks.last()));
}

} // verus!
