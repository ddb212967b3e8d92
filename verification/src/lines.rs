//! Lines and chunks.
//!
//! A document is cut into lines, and the lines into chunks: the maximal runs
//! of lines that are not blank. Blank lines, and nothing else, part the
//! chunks.

use crate::text::{
    blank, first_match, lemma_first_match, lemma_first_match_at, lemma_single, matches_at, rows,
    single_line, slice,
};
use vstd::prelude::*;

verus! {

/// A line without the carriage return at its end, if it has one.
pub open spec fn without_cr(line: Seq<char>) -> Seq<char> {
    if line.len() > 0 && line.last() == '\r' {
        line.drop_last()
    } else {
        line
    }
}

/// The lines of a text. A line ends with a line feed, or with a carriage
/// return and a line feed; neither belongs to the line. The last line needs
/// no line ending, and no empty line follows a line ending at the very end.
pub open spec fn lines_of(s: Seq<char>) -> Seq<Seq<char>>
    decreases s.len(),
    via lines_of_decreases
{
    if s.len() == 0 {
        Seq::empty()
    } else {
        match first_match(s, "\n"@, 0) {
            Some(i) => seq![without_cr(s.subrange(0, i))] + lines_of(
                s.subrange(i + 1, s.len() as int),
            ),
            None => seq![s],
        }
    }
}

/// What follows the first line feed is shorter than the text.
#[via_fn]
proof fn lines_of_decreases(s: Seq<char>) {
    reveal_strlit("\n");
    lemma_first_match(s, "\n"@, 0);
}

/// Cuts a text into its lines.
pub fn split_lines(text: &Vec<char>) -> (lines: Vec<Vec<char>>)
    ensures
        rows(lines@) == lines_of(text@),
{
    let mut lines: Vec<Vec<char>> = Vec::new();
    let mut start: usize = 0;
    let mut i: usize = 0;
    assert(text@.subrange(0, text.len() as int) == text@);
    assert(rows(lines@) + lines_of(text@) == lines_of(text@));
    while i < text.len()
        invariant
            start <= i <= text.len(),
            forall|j: int| start <= j < i ==> text@[j] != '\n',
            rows(lines@) + lines_of(text@.subrange(start as int, text.len() as int)) == lines_of(
                text@,
            ),
        decreases text.len() - i,
    {
        if text[i] == '\n' {
            let mut end: usize = i;
            if end > start && text[end - 1] == '\r' {
                end -= 1;
            }
            let line = slice(text, start, end);
            proof {
                lemma_lines_step(text@, start as int, i as int);
                let whole = text@.subrange(start as int, i as int);
                assert(line@ == without_cr(whole)) by {
                    if whole.len() > 0 && whole.last() == '\r' {
                        assert(whole.drop_last() == text@.subrange(start as int, i as int - 1));
                    }
                }
                let rest = lines_of(text@.subrange(i as int + 1, text.len() as int));
                assert(rows(lines@.push(line)) == rows(lines@).push(line@));
                assert(rows(lines@).push(line@) + rest == rows(lines@) + (seq![line@] + rest));
            }
            lines.push(line);
            start = i + 1;
        }
        i += 1;
    }
    proof {
        lemma_lines_last(text@, start as int);
    }
    if start < text.len() {
        let line = slice(text, start, text.len());
        proof {
            assert(rows(lines@.push(line)) == rows(lines@).push(line@));
            assert(rows(lines@).push(line@) == rows(lines@) + seq![line@]);
        }
        lines.push(line);
    } else {
        assert(rows(lines@) + Seq::<Seq<char>>::empty() == rows(lines@));
    }
    lines
}

/// How many lines at the front of `lines` are not blank.
pub open spec fn leading_run(lines: Seq<Seq<char>>) -> nat
    decreases lines.len(),
{
    if lines.len() == 0 || blank(lines.first()) {
        0
    } else {
        1 + leading_run(lines.drop_first())
    }
}

/// The chunks of a document: its maximal runs of lines that are not blank,
/// in order. Blank lines part the chunks and belong to none.
pub open spec fn chunks(lines: Seq<Seq<char>>) -> Seq<Seq<Seq<char>>>
    decreases lines.len(),
    via chunks_decreases
{
    if lines.len() == 0 {
        Seq::empty()
    } else if blank(lines.first()) {
        chunks(lines.drop_first())
    } else {
        let n = leading_run(lines) as int;
        seq![lines.take(n)] + chunks(lines.skip(n))
    }
}

/// A chunk holds one line at least, so fewer lines are left after it.
#[via_fn]
proof fn chunks_decreases(lines: Seq<Seq<char>>) {
    lemma_leading_run(lines);
}

/// A text that is not empty has a line.
pub proof fn lemma_lines_exist(s: Seq<char>)
    requires
        s.len() > 0,
    ensures
        lines_of(s).len() > 0,
{
}

/// No line of a text holds a line feed.
pub proof fn lemma_lines_single(s: Seq<char>)
    ensures
        forall|k: int| 0 <= k < lines_of(s).len() ==> single_line(#[trigger] lines_of(s)[k]),
    decreases s.len(),
{
    reveal_strlit("\n");
    assert("\n"@ =~= seq!['\n']);
    if s.len() > 0 {
        lemma_first_match(s, "\n"@, 0);
        match first_match(s, "\n"@, 0) {
            Some(i) => {
                let head = s.subrange(0, i);
                let rest = s.subrange(i + 1, s.len() as int);
                assert forall|j: int| 0 <= j < head.len() implies #[trigger] head[j] != '\n' by {
                    lemma_single(s, "\n"@, '\n', j);
                }
                assert(single_line(without_cr(head)));
                lemma_lines_single(rest);
                assert forall|k: int| 0 <= k < lines_of(s).len() implies single_line(
                    #[trigger] lines_of(s)[k],
                ) by {
                    if k > 0 {
                        assert(lines_of(s)[k] == lines_of(rest)[k - 1]);
                    }
                }
            },
            None => {
                assert forall|j: int| 0 <= j < s.len() implies #[trigger] s[j] != '\n' by {
                    lemma_single(s, "\n"@, '\n', j);
                }
            },
        }
    }
}

/// The lines of a text that holds a line feed: the line before the first
/// line feed, then the lines of what follows it.
proof fn lemma_lines_step(s: Seq<char>, start: int, i: int)
    requires
        0 <= start <= i < s.len(),
        s[i] == '\n',
        forall|j: int| start <= j < i ==> s[j] != '\n',
    ensures
        lines_of(s.subrange(start, s.len() as int)) == seq![without_cr(s.subrange(start, i))]
            + lines_of(s.subrange(i + 1, s.len() as int)),
{
    let len = s.len() as int;
    let t = s.subrange(start, len);
    reveal_strlit("\n");
    assert("\n"@ =~= seq!['\n']);
    lemma_single(t, "\n"@, '\n', i - start);
    assert forall|j: int| 0 <= j < i - start implies !matches_at(t, "\n"@, j) by {
        lemma_single(t, "\n"@, '\n', j);
    }
    lemma_first_match_at(t, "\n"@, 0, i - start);
    assert(t.subrange(0, i - start) == s.subrange(start, i));
    assert(t.subrange(i - start + 1, t.len() as int) == s.subrange(i + 1, len));
}

/// The lines of a text without line feed: the text itself, if it is not
/// empty.
proof fn lemma_lines_last(s: Seq<char>, start: int)
    requires
        0 <= start <= s.len(),
        forall|j: int| start <= j < s.len() ==> s[j] != '\n',
    ensures
        lines_of(s.subrange(start, s.len() as int)) == if start < s.len() {
            seq![s.subrange(start, s.len() as int)]
        } else {
            Seq::empty()
        },
{
    let t = s.subrange(start, s.len() as int);
    reveal_strlit("\n");
    assert("\n"@ =~= seq!['\n']);
    lemma_first_match(t, "\n"@, 0);
    if let Some(k) = first_match(t, "\n"@, 0) {
        lemma_single(t, "\n"@, '\n', k);
    }
}

/// The leading run ends at the first blank line, or at the end.
pub proof fn lemma_leading_run(lines: Seq<Seq<char>>)
    ensures
        leading_run(lines) <= lines.len(),
        lines.len() > 0 && !blank(lines.first()) ==> leading_run(lines) >= 1,
        forall|j: int| 0 <= j < leading_run(lines) ==> !blank(#[trigger] lines[j]),
        leading_run(lines) < lines.len() ==> blank(lines[leading_run(lines) as int]),
    decreases lines.len(),
{
    if lines.len() > 0 && !blank(lines.first()) {
        let rest = lines.drop_first();
        lemma_leading_run(rest);
        assert forall|j: int| 0 <= j < leading_run(lines) implies !blank(#[trigger] lines[j]) by {
            if j > 0 {
                assert(lines[j] == rest[j - 1]);
            }
        }
        if leading_run(lines) < lines.len() {
            assert(lines[leading_run(lines) as int] == rest[leading_run(rest) as int]);
        }
    }
}

/// Where a run of lines that are not blank ends, a chunk ends.
pub proof fn lemma_chunks_run(lines: Seq<Seq<char>>, n: int)
    requires
        0 < n <= lines.len(),
        forall|j: int| 0 <= j < n ==> !blank(#[trigger] lines[j]),
        n == lines.len() || blank(lines[n]),
    ensures
        leading_run(lines) == n,
        chunks(lines) == seq![lines.take(n)] + chunks(lines.skip(n)),
    decreases n,
{
    assert(!blank(lines[0]));
    let rest = lines.drop_first();
    if n < lines.len() {
        assert(rest[n - 1] == lines[n]);
    }
    if n > 1 {
        assert forall|j: int| 0 <= j < n - 1 implies !blank(#[trigger] rest[j]) by {
            assert(rest[j] == lines[j + 1]);
        }
        lemma_chunks_run(rest, n - 1);
    }
    assert(leading_run(lines) == 1 + leading_run(rest));
}

/// A blank line parts a document: its chunks are those of the lines before
/// the blank line, then those of the lines after it.
pub proof fn lemma_blank_line_parts(before: Seq<Seq<char>>, line: Seq<char>, after: Seq<Seq<char>>)
    requires
        blank(line),
    ensures
        chunks(before + seq![line] + after) == chunks(before) + chunks(after),
    decreases before.len(),
{
    let all = before + seq![line] + after;
    if before.len() == 0 {
        assert(all.drop_first() == after);
        assert(all.first() == line);
        assert(chunks(before) + chunks(after) == chunks(after));
    } else if blank(before.first()) {
        assert(all.first() == before.first());
        assert(all.drop_first() == before.drop_first() + seq![line] + after);
        lemma_blank_line_parts(before.drop_first(), line, after);
    } else {
        let n = leading_run(before) as int;
        lemma_leading_run(before);
        assert forall|j: int| 0 <= j < n implies !blank(#[trigger] all[j]) by {
            assert(all[j] == before[j]);
        }
        if n < before.len() {
            assert(all[n] == before[n]);
        } else {
            assert(all[n] == line);
        }
        lemma_chunks_run(all, n);
        assert(all.take(n) == before.take(n));
        assert(all.skip(n) == before.skip(n) + seq![line] + after);
        lemma_blank_line_parts(before.skip(n), line, after);
        assert(chunks(all) == seq![before.take(n)] + (chunks(before.skip(n)) + chunks(after)));
        assert(chunks(before) == seq![before.take(n)] + chunks(before.skip(n)));
        assert(chunks(all) == chunks(before) + chunks(after));
    }
}

/// Every chunk holds a line, no chunk holds a blank line, and the lines of
/// the chunks are lines of the document.
pub proof fn lemma_chunks(lines: Seq<Seq<char>>)
    ensures
        forall|k: int| 0 <= k < chunks(lines).len() ==> (#[trigger] chunks(lines)[k]).len() > 0,
        forall|k: int, j: int|
            0 <= k < chunks(lines).len() && 0 <= j < chunks(lines)[k].len() ==> !blank(
                #[trigger] chunks(lines)[k][j],
            ) && lines.contains(chunks(lines)[k][j]),
    decreases lines.len(),
{
    if lines.len() == 0 {
    } else if blank(lines.first()) {
        let rest = lines.drop_first();
        lemma_chunks(rest);
        assert forall|k: int, j: int|
            0 <= k < chunks(lines).len() && 0 <= j < chunks(lines)[k].len() implies !blank(
            #[trigger] chunks(lines)[k][j],
        ) && lines.contains(chunks(lines)[k][j]) by {
            let line = chunks(rest)[k][j];
            let at = choose|at: int| 0 <= at < rest.len() && rest[at] == line;
            assert(lines[at + 1] == line);
        }
    } else {
        let n = leading_run(lines) as int;
        let rest = lines.skip(n);
        lemma_leading_run(lines);
        lemma_chunks(rest);
        assert forall|k: int| 0 <= k < chunks(lines).len() implies (#[trigger] chunks(
            lines,
        )[k]).len() > 0 by {
            if k > 0 {
                assert(chunks(lines)[k] == chunks(rest)[k - 1]);
            }
        }
        assert forall|k: int, j: int|
            0 <= k < chunks(lines).len() && 0 <= j < chunks(lines)[k].len() implies !blank(
            #[trigger] chunks(lines)[k][j],
        ) && lines.contains(chunks(lines)[k][j]) by {
            if k == 0 {
                assert(chunks(lines)[k][j] == lines[j]);
            } else {
                assert(chunks(lines)[k] == chunks(rest)[k - 1]);
                let line = chunks(rest)[k - 1][j];
                let at = choose|at: int| 0 <= at < rest.len() && rest[at] == line;
                assert(lines[at + n] == line);
            }
        }
    }
}

} // verus!
