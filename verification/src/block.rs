//! The block tokenizer: from a document to its blocks.
//!
//! Each chunk of a document becomes one block, of the kind that the
//! beginning of its first line tells.

use crate::lines::{
    chunks, lemma_chunks, lemma_chunks_run, lemma_lines_exist, lemma_lines_single, lines_of,
    split_lines,
};
use crate::text::{
    ascii_digit, blank, chars_of, find, first_match, has_prefix, is_ascii_digit, is_blank, join,
    joined, lemma_first_match, lemma_first_match_at, lemma_joined_single, lemma_trimmed,
    matches_at, rows, single_line, slice, string_of, strip, stripped, trim, trimmed,
};
use vstd::prelude::*;

verus! {

/// One structural unit of a document.
#[derive(Debug, PartialEq, Eq)]
pub enum Block {
    /// A heading, with its level and its text.
    Header(u8, String),
    /// Plain text: the lines of the chunk, joined by single spaces.
    Paragraph(String),
    /// A bulleted list, with the text of each item.
    UnorderedList(Vec<String>),
    /// A numbered list, with the text of each item, the numeral taken off.
    OrderedList(Vec<String>),
    /// A quotation: its lines, joined by single spaces.
    Blockquote(String),
    /// Fenced code, as it stands between the fences.
    CodeBlock(String),
}

/// What a `Block` holds, as plain sequences of characters.
pub enum BlockView {
    Header(nat, Seq<char>),
    Paragraph(Seq<char>),
    UnorderedList(Seq<Seq<char>>),
    OrderedList(Seq<Seq<char>>),
    Blockquote(Seq<char>),
    CodeBlock(Seq<char>),
}

impl BlockView {
    /// What holds of every block of a document: the level of a heading is
    /// one of 1 to 6, and no text but that of a code block holds a line
    /// feed.
    pub open spec fn well_formed(self) -> bool {
        match self {
            BlockView::Header(level, text) => 1 <= level <= 6 && single_line(text),
            BlockView::Paragraph(text) => single_line(text),
            BlockView::UnorderedList(items) => forall|i: int|
                0 <= i < items.len() ==> single_line(#[trigger] items[i]),
            BlockView::OrderedList(items) => forall|i: int|
                0 <= i < items.len() ==> single_line(#[trigger] items[i]),
            BlockView::Blockquote(text) => single_line(text),
            BlockView::CodeBlock(_) => true,
        }
    }
}

/// The views of the strings held in `items`.
pub open spec fn texts(items: Seq<String>) -> Seq<Seq<char>> {
    items.map_values(|s: String| s@)
}

impl View for Block {
    type V = BlockView;

    open spec fn view(&self) -> BlockView {
        match self {
            Block::Header(level, text) => BlockView::Header(*level as nat, text@),
            Block::Paragraph(text) => BlockView::Paragraph(text@),
            Block::UnorderedList(items) => BlockView::UnorderedList(texts(items@)),
            Block::OrderedList(items) => BlockView::OrderedList(texts(items@)),
            Block::Blockquote(text) => BlockView::Blockquote(text@),
            Block::CodeBlock(text) => BlockView::CodeBlock(text@),
        }
    }
}

/// The views of the blocks held in `blocks`.
pub open spec fn views(blocks: Seq<Block>) -> Seq<BlockView> {
    blocks.map_values(|b: Block| b@)
}

/// The marker of a heading of the given level: as many `#` as the level
/// says, and one space.
pub open spec fn header_marker(level: nat) -> Seq<char> {
    if level == 1 {
        "# "@
    } else if level == 2 {
        "## "@
    } else if level == 3 {
        "### "@
    } else if level == 4 {
        "#### "@
    } else if level == 5 {
        "##### "@
    } else {
        "###### "@
    }
}

/// The level of the heading that `first` begins, if it begins one.
pub open spec fn header_level(first: Seq<char>) -> Option<nat> {
    if header_marker(6).is_prefix_of(first) {
        Some(6)
    } else if header_marker(5).is_prefix_of(first) {
        Some(5)
    } else if header_marker(4).is_prefix_of(first) {
        Some(4)
    } else if header_marker(3).is_prefix_of(first) {
        Some(3)
    } else if header_marker(2).is_prefix_of(first) {
        Some(2)
    } else if header_marker(1).is_prefix_of(first) {
        Some(1)
    } else {
        None
    }
}

/// The text of a line of a list or of a quotation: the line without the
/// marker at its beginning, taken off once, and without the white space
/// around the rest. A line that does not begin with the marker is only
/// trimmed.
pub open spec fn unmarked(line: Seq<char>, marker: Seq<char>) -> Seq<char> {
    trimmed(stripped(line, marker))
}

/// The text of every line of a list or of a quotation.
pub open spec fn unmarked_lines(chunk: Seq<Seq<char>>, marker: Seq<char>) -> Seq<Seq<char>> {
    chunk.map_values(|line: Seq<char>| unmarked(line, marker))
}

/// Where the numeral of a numbered line ends: at the first `. ` of the
/// line, if one ASCII digit or more, and nothing else, stands before it.
pub open spec fn numeral_end(line: Seq<char>) -> Option<int> {
    match first_match(line, ". "@, 0) {
        Some(p) => if p >= 1 && forall|i: int| 0 <= i < p ==> ascii_digit(#[trigger] line[i]) {
            Some(p)
        } else {
            None
        },
        None => None,
    }
}

/// The text of a numbered line: what follows the numeral and its `. `,
/// without the white space around it. A line that is not numbered has
/// none; a line that begins with `. `, without a digit, is not numbered.
pub open spec fn numbered_item(line: Seq<char>) -> Option<Seq<char>> {
    match numeral_end(line) {
        Some(p) => Some(trimmed(line.skip(p + 2))),
        None => None,
    }
}

/// The texts of the numbered lines of a chunk, in order. The lines that are
/// not numbered are left out.
pub open spec fn numbered_items(chunk: Seq<Seq<char>>) -> Seq<Seq<char>> {
    chunk.filter_map(|line: Seq<char>| numbered_item(line))
}

/// Whether `first` begins a numbered list: with one ASCII digit or more,
/// then `. `. The lines that give an item are numbered in the same sense.
pub open spec fn begins_numbered(first: Seq<char>) -> bool {
    numeral_end(first) is Some
}

/// The text of a fenced chunk: the lines between its first and its last,
/// each followed by a line feed but the last. The last line of the chunk is
/// left out whether it is a fence or not.
pub open spec fn code_text(chunk: Seq<Seq<char>>) -> Seq<char> {
    if chunk.len() > 1 {
        joined(chunk.subrange(1, chunk.len() - 1), "\n"@)
    } else {
        Seq::empty()
    }
}

/// The block that a chunk stands for. The first line, without the white
/// space around it, decides the kind; the first test that it meets wins.
pub open spec fn chunk_block(chunk: Seq<Seq<char>>) -> BlockView
    recommends
        chunk.len() > 0,
{
    let first = trimmed(chunk.first());
    match header_level(first) {
        Some(level) => BlockView::Header(level, first.skip(header_marker(level).len() as int)),
        None => if "```"@.is_prefix_of(first) {
            BlockView::CodeBlock(code_text(chunk))
        } else if "- "@.is_prefix_of(first) {
            BlockView::UnorderedList(unmarked_lines(chunk, "- "@))
        } else if begins_numbered(first) {
            BlockView::OrderedList(numbered_items(chunk))
        } else if "> "@.is_prefix_of(first) {
            BlockView::Blockquote(joined(unmarked_lines(chunk, "> "@), " "@))
        } else {
            BlockView::Paragraph(joined(chunk, " "@))
        },
    }
}

/// The blocks of a sequence of lines, in the order of their chunks.
pub open spec fn blocks_of(lines: Seq<Seq<char>>) -> Seq<BlockView> {
    chunks(lines).map_values(|chunk: Seq<Seq<char>>| chunk_block(chunk))
}

/// The blocks of a document.
pub open spec fn document_blocks(s: Seq<char>) -> Seq<BlockView> {
    blocks_of(lines_of(s))
}

/// The level of the heading that `first` begins, if it begins one.
pub fn heading_level(first: &Vec<char>) -> (r: Option<u8>)
    ensures
        match r {
            Some(level) => header_level(first@) == Some(level as nat) && 1 <= level <= 6,
            None => header_level(first@) is None,
        },
{
    if has_prefix(first, &chars_of("###### ")) {
        Some(6)
    } else if has_prefix(first, &chars_of("##### ")) {
        Some(5)
    } else if has_prefix(first, &chars_of("#### ")) {
        Some(4)
    } else if has_prefix(first, &chars_of("### ")) {
        Some(3)
    } else if has_prefix(first, &chars_of("## ")) {
        Some(2)
    } else if has_prefix(first, &chars_of("# ")) {
        Some(1)
    } else {
        None
    }
}

/// Where the numeral of a numbered line ends, if the line is numbered.
pub fn find_numeral_end(line: &Vec<char>) -> (r: Option<usize>)
    ensures
        match r {
            Some(p) => numeral_end(line@) == Some(p as int) && 1 <= p && p + 2 <= line.len(),
            None => numeral_end(line@) is None,
        },
{
    let dot = chars_of(". ");
    proof {
        reveal_strlit(". ");
    }
    match find(line, &dot, 0) {
        Some(p) => {
            if p == 0 {
                return None;
            }
            let mut i: usize = 0;
            while i < p
                invariant
                    i <= p <= line.len(),
                    first_match(line@, ". "@, 0) == Some(p as int),
                    forall|j: int| 0 <= j < i ==> ascii_digit(#[trigger] line@[j]),
                decreases p - i,
            {
                if !is_ascii_digit(line[i]) {
                    assert(!ascii_digit(line@[i as int]));
                    return None;
                }
                i += 1;
            }
            Some(p)
        },
        None => None,
    }
}

/// Whether `first` begins a numbered list.
pub fn begins_numbered_list(first: &Vec<char>) -> (r: bool)
    ensures
        r == begins_numbered(first@),
{
    find_numeral_end(first).is_some()
}

/// The texts of the lines `lines[from..to]` of a list or of a quotation.
pub fn unmark_lines(lines: &Vec<Vec<char>>, from: usize, to: usize, marker: &Vec<char>) -> (out:
    Vec<Vec<char>>)
    requires
        from <= to <= lines.len(),
    ensures
        rows(out@) == unmarked_lines(rows(lines@).subrange(from as int, to as int), marker@),
{
    let ghost chunk = rows(lines@).subrange(from as int, to as int);
    let mut out: Vec<Vec<char>> = Vec::new();
    let mut i: usize = from;
    while i < to
        invariant
            from <= i <= to <= lines.len(),
            chunk == rows(lines@).subrange(from as int, to as int),
            rows(out@) == unmarked_lines(chunk.take(i - from), marker@),
        decreases to - i,
    {
        let item = trim(&strip(&lines[i], marker));
        proof {
            assert(chunk[i - from] == lines@[i as int]@);
            assert(chunk.take(i - from + 1) == chunk.take(i - from).push(chunk[i - from]));
            assert(rows(out@.push(item)) == rows(out@).push(item@));
            assert(unmarked_lines(chunk.take(i - from + 1), marker@) == unmarked_lines(
                chunk.take(i - from),
                marker@,
            ).push(unmarked(chunk[i - from], marker@)));
        }
        out.push(item);
        i += 1;
    }
    assert(chunk.take(to - from) == chunk);
    out
}

/// The texts of the numbered lines among `lines[from..to]`.
pub fn number_lines(lines: &Vec<Vec<char>>, from: usize, to: usize) -> (out: Vec<Vec<char>>)
    requires
        from <= to <= lines.len(),
    ensures
        rows(out@) == numbered_items(rows(lines@).subrange(from as int, to as int)),
{
    let ghost chunk = rows(lines@).subrange(from as int, to as int);
    let mut out: Vec<Vec<char>> = Vec::new();
    let mut i: usize = from;
    while i < to
        invariant
            from <= i <= to <= lines.len(),
            chunk == rows(lines@).subrange(from as int, to as int),
            rows(out@) == numbered_items(chunk.take(i - from)),
        decreases to - i,
    {
        proof {
            assert(chunk[i - from] == lines@[i as int]@);
            chunk.lemma_filter_map_take_succ(|line: Seq<char>| numbered_item(line), i - from);
        }
        let line = &lines[i];
        match find_numeral_end(line) {
            Some(p) => {
                let item = trim(&slice(line, p + 2, line.len()));
                proof {
                    assert(line@.skip(p + 2) == line@.subrange(p + 2, line.len() as int));
                    assert(rows(out@.push(item)) == rows(out@).push(item@));
                }
                out.push(item);
            },
            None => {},
        }
        i += 1;
    }
    assert(chunk.take(to - from) == chunk);
    out
}

/// The strings for the given lines.
pub fn strings_of(lines: &Vec<Vec<char>>) -> (out: Vec<String>)
    ensures
        texts(out@) == rows(lines@),
{
    let mut out: Vec<String> = Vec::new();
    let mut i: usize = 0;
    while i < lines.len()
        invariant
            i <= lines.len(),
            texts(out@) == rows(lines@).take(i as int),
        decreases lines.len() - i,
    {
        let item = string_of(&lines[i]);
        proof {
            assert(texts(out@.push(item)) == texts(out@).push(item@));
            assert(rows(lines@).take(i + 1) == rows(lines@).take(i as int).push(lines@[i as int]@));
        }
        out.push(item);
        i += 1;
    }
    assert(rows(lines@).take(lines.len() as int) == rows(lines@));
    out
}

/// The block for the chunk made of the lines `lines[from..to]`.
pub fn block_of(lines: &Vec<Vec<char>>, from: usize, to: usize) -> (block: Block)
    requires
        from < to <= lines.len(),
    ensures
        block@ == chunk_block(rows(lines@).subrange(from as int, to as int)),
{
    let ghost chunk = rows(lines@).subrange(from as int, to as int);
    let first = trim(&lines[from]);
    assert(chunk.first() == lines@[from as int]@);
    if let Some(level) = heading_level(&first) {
        proof {
            lemma_header_markers();
        }
        let text = slice(&first, level as usize + 1, first.len());
        Block::Header(level, string_of(&text))
    } else if has_prefix(&first, &chars_of("```")) {
        let text = if to - from > 1 {
            assert(chunk.subrange(1, chunk.len() - 1) == rows(lines@).subrange(from + 1, to - 1));
            join(lines, from + 1, to - 1, &chars_of("\n"))
        } else {
            Vec::new()
        };
        Block::CodeBlock(string_of(&text))
    } else if has_prefix(&first, &chars_of("- ")) {
        let items = unmark_lines(lines, from, to, &chars_of("- "));
        Block::UnorderedList(strings_of(&items))
    } else if begins_numbered_list(&first) {
        let items = number_lines(lines, from, to);
        Block::OrderedList(strings_of(&items))
    } else if has_prefix(&first, &chars_of("> ")) {
        let items = unmark_lines(lines, from, to, &chars_of("> "));
        assert(rows(items@).subrange(0, items.len() as int) == rows(items@));
        let text = join(&items, 0, items.len(), &chars_of(" "));
        Block::Blockquote(string_of(&text))
    } else {
        let text = join(lines, from, to, &chars_of(" "));
        Block::Paragraph(string_of(&text))
    }
}

/// The block for one chunk, given as its lines. The chunk holds one line at
/// least.
pub fn parse_block(lines: Vec<&str>) -> (block: Block)
    requires
        lines.len() > 0,
    ensures
        block@ == chunk_block(lines@.map_values(|line: &str| line@)),
{
    let ghost chunk = lines@.map_values(|line: &str| line@);
    let mut held: Vec<Vec<char>> = Vec::new();
    let mut i: usize = 0;
    while i < lines.len()
        invariant
            i <= lines.len(),
            chunk == lines@.map_values(|line: &str| line@),
            rows(held@) == chunk.take(i as int),
        decreases lines.len() - i,
    {
        let line = chars_of(lines[i]);
        proof {
            assert(rows(held@.push(line)) == rows(held@).push(line@));
            assert(chunk.take(i + 1) == chunk.take(i as int).push(chunk[i as int]));
        }
        held.push(line);
        i += 1;
    }
    assert(chunk.take(lines.len() as int) == chunk);
    assert(rows(held@).subrange(0, held.len() as int) == rows(held@));
    block_of(&held, 0, held.len())
}

/// Cuts a document into its blocks.
pub fn tokenize(markdown: &str) -> (blocks: Vec<Block>)
    ensures
        views(blocks@) == document_blocks(markdown@),
        forall|k: int| 0 <= k < blocks.len() ==> (#[trigger] blocks[k])@.well_formed(),
{
    let text = chars_of(markdown);
    let lines = split_lines(&text);
    let ghost all = rows(lines@);
    let mut blocks: Vec<Block> = Vec::new();
    let mut start: usize = 0;
    let mut i: usize = 0;
    assert(all.skip(0) == all);
    assert(views(blocks@) + blocks_of(all) == blocks_of(all));
    while i < lines.len()
        invariant
            start <= i <= lines.len(),
            all == rows(lines@),
            forall|j: int| start <= j < i ==> !blank(#[trigger] all[j]),
            views(blocks@) + blocks_of(all.skip(start as int)) == blocks_of(all),
        decreases lines.len() - i,
    {
        if is_blank(&lines[i]) {
            assert(blank(all[i as int]));
            assert(all.skip(i as int).drop_first() == all.skip(i + 1));
            if start < i {
                let block = block_of(&lines, start, i);
                proof {
                    lemma_block_cut(all, start as int, i as int);
                    let rest = blocks_of(all.skip(i + 1));
                    assert(views(blocks@.push(block)) == views(blocks@).push(block@));
                    assert(views(blocks@).push(block@) + rest == views(blocks@) + (seq![block@]
                        + rest));
                }
                blocks.push(block);
            }
            start = i + 1;
        }
        i += 1;
    }
    if start < lines.len() {
        let block = block_of(&lines, start, lines.len());
        proof {
            lemma_block_cut(all, start as int, all.len() as int);
            assert(views(blocks@.push(block)) == views(blocks@).push(block@));
            assert(views(blocks@).push(block@) == views(blocks@) + seq![block@]);
        }
        blocks.push(block);
    } else {
        assert(views(blocks@) + Seq::<BlockView>::empty() == views(blocks@));
    }
    proof {
        lemma_document_well_formed(markdown@);
        assert(views(blocks@) == document_blocks(markdown@));
        assert forall|k: int| 0 <= k < blocks.len() implies (#[trigger] blocks[k])@.well_formed() by {
            assert(views(blocks@)[k] == blocks[k]@);
        }
    }
    blocks
}

/// A document that is not empty and has no blank line is one chunk, and so
/// one block.
pub proof fn lemma_one_block(s: Seq<char>)
    requires
        s.len() > 0,
        forall|i: int| 0 <= i < lines_of(s).len() ==> !blank(#[trigger] lines_of(s)[i]),
    ensures
        chunks(lines_of(s)) == seq![lines_of(s)],
        document_blocks(s) == seq![chunk_block(lines_of(s))],
        document_blocks(s).len() == 1,
{
    let lines = lines_of(s);
    lemma_lines_exist(s);
    lemma_chunks_run(lines, lines.len() as int);
    assert(lines.take(lines.len() as int) == lines);
    assert(chunks(lines.skip(lines.len() as int)) == Seq::<Seq<Seq<char>>>::empty());
    assert(chunks(lines) == seq![lines]);
}

/// A chunk whose first line is, but for the white space around it, the
/// marker of a heading and a title is the heading of that level with that
/// title, whatever the title is and whatever follows the first line.
pub proof fn lemma_header(chunk: Seq<Seq<char>>, level: nat, title: Seq<char>)
    requires
        chunk.len() > 0,
        1 <= level <= 6,
        trimmed(chunk.first()) == header_marker(level) + title,
    ensures
        chunk_block(chunk) == BlockView::Header(level, title),
{
    let first = trimmed(chunk.first());
    let marker = header_marker(level);
    lemma_header_markers();
    assert(first.subrange(0, marker.len() as int) == marker);
    assert(first.skip(marker.len() as int) == title);
    assert forall|other: nat| level < other <= 6 implies !header_marker(other).is_prefix_of(
        first,
    ) by {
        if header_marker(other).is_prefix_of(first) {
            let found = first.subrange(0, header_marker(other).len() as int);
            assert(found[level as int] == first[level as int]);
            assert(first[level as int] == marker[level as int]);
            assert(header_marker(other)[level as int] == '#');
        }
    }
}

/// The text of a line of a bulleted list: what follows its `- `, taken off
/// once, without the white space around it; a line without `- ` at its
/// beginning is only trimmed. So for `> ` in a quotation.
pub proof fn lemma_unmarked(line: Seq<char>)
    ensures
        unmarked(line, "- "@) == if "- "@.is_prefix_of(line) {
            trimmed(line.skip(2))
        } else {
            trimmed(line)
        },
        unmarked(line, "> "@) == if "> "@.is_prefix_of(line) {
            trimmed(line.skip(2))
        } else {
            trimmed(line)
        },
{
    reveal_strlit("- ");
    reveal_strlit("> ");
}

/// A chunk whose first line begins with `- `, the white space around the
/// line apart, is a bulleted list with one item for each line: the text of
/// that line.
pub proof fn lemma_bulleted_list(chunk: Seq<Seq<char>>)
    requires
        chunk.len() > 0,
        "- "@.is_prefix_of(trimmed(chunk.first())),
    ensures
        chunk_block(chunk) == BlockView::UnorderedList(unmarked_lines(chunk, "- "@)),
        unmarked_lines(chunk, "- "@).len() == chunk.len(),
        forall|i: int|
            0 <= i < chunk.len() ==> (#[trigger] unmarked_lines(chunk, "- "@)[i]) == if "- "@.is_prefix_of(
                chunk[i],
            ) {
                trimmed(chunk[i].skip(2))
            } else {
                trimmed(chunk[i])
            },
{
    let first = trimmed(chunk.first());
    lemma_header_markers();
    reveal_strlit("- ");
    reveal_strlit("```");
    assert(first.subrange(0, 2)[0] == first[0]);
    assert forall|level: nat| 1 <= level <= 6 implies !header_marker(level).is_prefix_of(first) by {
        if header_marker(level).is_prefix_of(first) {
            assert(first.subrange(0, header_marker(level).len() as int)[0] == first[0]);
            assert(header_marker(level)[0] == '#');
        }
    }
    if "```"@.is_prefix_of(first) {
        assert(first.subrange(0, 3)[0] == first[0]);
    }
    assert forall|i: int| 0 <= i < chunk.len() implies (#[trigger] unmarked_lines(
        chunk,
        "- "@,
    )[i]) == if "- "@.is_prefix_of(chunk[i]) {
        trimmed(chunk[i].skip(2))
    } else {
        trimmed(chunk[i])
    } by {
        lemma_unmarked(chunk[i]);
    }
}

/// A chunk whose first line begins with `> `, the white space around the
/// line apart, is a quotation: the texts of its lines, joined by single
/// spaces.
pub proof fn lemma_quotation(chunk: Seq<Seq<char>>)
    requires
        chunk.len() > 0,
        "> "@.is_prefix_of(trimmed(chunk.first())),
    ensures
        chunk_block(chunk) == BlockView::Blockquote(joined(unmarked_lines(chunk, "> "@), " "@)),
{
    let first = trimmed(chunk.first());
    lemma_header_markers();
    reveal_strlit("> ");
    reveal_strlit("- ");
    reveal_strlit("```");
    assert(first.subrange(0, 2)[0] == first[0]);
    assert forall|level: nat| 1 <= level <= 6 implies !header_marker(level).is_prefix_of(first) by {
        if header_marker(level).is_prefix_of(first) {
            assert(first.subrange(0, header_marker(level).len() as int)[0] == first[0]);
            assert(header_marker(level)[0] == '#');
        }
    }
    if "```"@.is_prefix_of(first) {
        assert(first.subrange(0, 3)[0] == first[0]);
    }
    lemma_not_numbered(first);
}

/// A line is numbered where one ASCII digit or more, then `. `, stand at
/// its beginning. Its text is what follows that `. `, trimmed.
pub proof fn lemma_numbered_item(line: Seq<char>, p: int)
    requires
        1 <= p,
        forall|i: int| 0 <= i < p ==> ascii_digit(#[trigger] line[i]),
        matches_at(line, ". "@, p),
    ensures
        numeral_end(line) == Some(p),
        numbered_item(line) == Some(trimmed(line.skip(p + 2))),
{
    reveal_strlit(". ");
    assert forall|j: int| 0 <= j < p implies !matches_at(line, ". "@, j) by {
        if matches_at(line, ". "@, j) {
            assert(line.subrange(j, j + 2)[0] == line[j]);
            assert(ascii_digit(line[j]));
        }
    }
    lemma_first_match_at(line, ". "@, 0, p);
}

/// A line that does not begin with an ASCII digit is not numbered and
/// gives no item, also where it begins with `. `.
pub proof fn lemma_not_numbered(line: Seq<char>)
    requires
        line.len() == 0 || !ascii_digit(line[0]),
    ensures
        numbered_item(line) is None,
{
    lemma_first_match(line, ". "@, 0);
}

/// A chunk whose first line begins with a numeral is a numbered list. Its
/// items are the texts of its numbered lines; the other lines give no item
/// and no block of their own.
pub proof fn lemma_numbered_list(chunk: Seq<Seq<char>>)
    requires
        chunk.len() > 0,
        begins_numbered(trimmed(chunk.first())),
    ensures
        chunk_block(chunk) == BlockView::OrderedList(numbered_items(chunk)),
{
    let first = trimmed(chunk.first());
    lemma_first_match(first, ". "@, 0);
    lemma_header_markers();
    reveal_strlit(". ");
    reveal_strlit("```");
    reveal_strlit("- ");
    assert(ascii_digit(first[0]));
    assert forall|level: nat| 1 <= level <= 6 implies !header_marker(level).is_prefix_of(first) by {
        if header_marker(level).is_prefix_of(first) {
            assert(first.subrange(0, header_marker(level).len() as int)[0] == first[0]);
            assert(header_marker(level)[0] == '#');
        }
    }
    if "```"@.is_prefix_of(first) {
        assert(first.subrange(0, 3)[0] == first[0]);
    }
    if "- "@.is_prefix_of(first) {
        assert(first.subrange(0, 2)[0] == first[0]);
    }
}

/// The numbered lines of a chunk one line longer.
pub proof fn lemma_numbered_items_push(chunk: Seq<Seq<char>>, line: Seq<char>)
    ensures
        numbered_items(chunk.push(line)) == match numbered_item(line) {
            Some(item) => numbered_items(chunk).push(item),
            None => numbered_items(chunk),
        },
{
    assert(chunk.push(line).drop_last() == chunk);
}

/// A bulleted list has one item for each line of its chunk.
pub proof fn lemma_list_items(chunk: Seq<Seq<char>>)
    ensures
        match chunk_block(chunk) {
            BlockView::UnorderedList(items) => items.len() == chunk.len(),
            _ => true,
        },
{
}

/// The block of a chunk of lines is well formed.
pub proof fn lemma_chunk_block_well_formed(chunk: Seq<Seq<char>>)
    requires
        chunk.len() > 0,
        forall|j: int| 0 <= j < chunk.len() ==> single_line(#[trigger] chunk[j]),
    ensures
        chunk_block(chunk).well_formed(),
{
    let first = trimmed(chunk.first());
    let (a, b) = lemma_trimmed(chunk.first());
    assert(single_line(chunk[0]));
    assert forall|k: int| 0 <= k < first.len() implies #[trigger] first[k] != '\n' by {
        assert(first[k] == chunk[0][a + k]);
    }
    reveal_strlit(" ");
    match chunk_block(chunk) {
        BlockView::Header(level, text) => {
            lemma_header_markers();
            assert forall|k: int| 0 <= k < text.len() implies #[trigger] text[k] != '\n' by {
                assert(text[k] == first[level + 1 + k]);
            }
        },
        BlockView::Paragraph(text) => {
            lemma_joined_single(chunk, " "@);
        },
        BlockView::UnorderedList(items) => {
            assert forall|i: int| 0 <= i < items.len() implies single_line(#[trigger] items[i]) by {
                lemma_unmarked_single(chunk[i], "- "@);
            }
        },
        BlockView::OrderedList(items) => {
            assert forall|i: int| 0 <= i < items.len() implies single_line(#[trigger] items[i]) by {
                let item = items[i];
                assert(items.contains(item));
                chunk.lemma_filter_map_contains(|line: Seq<char>| numbered_item(line), item);
                let line = choose|line: Seq<char>| #[trigger]
                    chunk.contains(line) && numbered_item(line) == Some(item);
                let at = choose|at: int| 0 <= at < chunk.len() && chunk[at] == line;
                assert(single_line(chunk[at]));
                let p = numeral_end(line).unwrap();
                lemma_first_match(line, ". "@, 0);
                reveal_strlit(". ");
                let (c, d) = lemma_trimmed(line.skip(p + 2));
                assert forall|k: int| 0 <= k < item.len() implies #[trigger] item[k] != '\n' by {
                    assert(item[k] == line[p + 2 + c + k]);
                }
            }
        },
        BlockView::Blockquote(text) => {
            let parts = unmarked_lines(chunk, "> "@);
            assert forall|i: int| 0 <= i < parts.len() implies single_line(#[trigger] parts[i]) by {
                lemma_unmarked_single(chunk[i], "> "@);
            }
            lemma_joined_single(parts, " "@);
        },
        BlockView::CodeBlock(_) => {},
    }
}

/// Every block of a document is well formed.
pub proof fn lemma_document_well_formed(s: Seq<char>)
    ensures
        forall|k: int|
            0 <= k < document_blocks(s).len() ==> (#[trigger] document_blocks(s)[k]).well_formed(),
{
    let lines = lines_of(s);
    lemma_lines_single(s);
    lemma_chunks(lines);
    assert forall|k: int| 0 <= k < document_blocks(s).len() implies (#[trigger] document_blocks(
        s,
    )[k]).well_formed() by {
        let chunk = chunks(lines)[k];
        assert forall|j: int| 0 <= j < chunk.len() implies single_line(#[trigger] chunk[j]) by {
            assert(lines.contains(chunks(lines)[k][j]));
            let at = choose|at: int| 0 <= at < lines.len() && lines[at] == chunk[j];
            assert(single_line(lines[at]));
        }
        lemma_chunk_block_well_formed(chunk);
    }
}

/// The markers of headings: as many `#` as the level says, then a space.
proof fn lemma_header_markers()
    ensures
        forall|level: nat, i: int|
            1 <= level <= 6 && 0 <= i < level ==> (#[trigger] header_marker(level)[i]) == '#',
        forall|level: nat| 1 <= level <= 6 ==> (#[trigger] header_marker(level)).len() == level + 1,
        forall|level: nat| 1 <= level <= 6 ==> (#[trigger] header_marker(level))[level as int] == ' ',
{
    reveal_strlit("# ");
    reveal_strlit("## ");
    reveal_strlit("### ");
    reveal_strlit("#### ");
    reveal_strlit("##### ");
    reveal_strlit("###### ");
}

/// The text of a line of a list or of a quotation holds no line feed
/// where the line holds none.
pub proof fn lemma_unmarked_single(line: Seq<char>, marker: Seq<char>)
    requires
        single_line(line),
    ensures
        single_line(unmarked(line, marker)),
{
    let i = if marker.is_prefix_of(line) {
        marker.len() as int
    } else {
        0
    };
    assert(stripped(line, marker) == line.skip(i));
    let (a, b) = lemma_trimmed(line.skip(i));
    assert forall|k: int| 0 <= k < unmarked(line, marker).len() implies #[trigger] unmarked(
        line,
        marker,
    )[k] != '\n' by {
        assert(unmarked(line, marker)[k] == line[i + a + k]);
    }
}

/// The lines from `start` on, where those up to `end` are not blank and a
/// blank line or the end of the document follows: their first block is that
/// of the lines up to `end`, and the rest are those of the lines after it.
proof fn lemma_block_cut(all: Seq<Seq<char>>, start: int, end: int)
    requires
        0 <= start < end <= all.len(),
        forall|j: int| start <= j < end ==> !blank(#[trigger] all[j]),
        end == all.len() || blank(all[end]),
    ensures
        blocks_of(all.skip(start)) == seq![chunk_block(all.subrange(start, end))] + blocks_of(
            if end == all.len() {
                Seq::empty()
            } else {
                all.skip(end + 1)
            },
        ),
{
    let lines = all.skip(start);
    let n = end - start;
    assert forall|j: int| 0 <= j < n implies !blank(#[trigger] lines[j]) by {
        assert(lines[j] == all[start + j]);
    }
    lemma_chunks_run(lines, n);
    assert(lines.take(n) == all.subrange(start, end));
    assert(lines.skip(n) == all.skip(end));
    let rest = if end == all.len() {
        Seq::empty()
    } else {
        all.skip(end + 1)
    };
    if end < all.len() {
        assert(all.skip(end).drop_first() == all.skip(end + 1));
    }
    assert(chunks(all.skip(end)) == chunks(rest));
    assert(blocks_of(lines) == seq![chunk_block(all.subrange(start, end))] + blocks_of(rest));
}

} // verus!
