//! Text as a sequence of Unicode scalar values.
//!
//! Every rule of the dialect is stated over `Seq<char>`, the view of `str` and
//! `String`, and computed over `Vec<char>`: positions are character positions,
//! so no cut can fall inside a character.

use vstd::prelude::*;

verus! {

/// `String::push` appends the given character to the end of the string and
/// changes nothing else.
pub assume_specification[ String::push ](s: &mut String, ch: char)
    ensures
        final(s)@ == old(s)@.push(ch),
;

/// The characters of `s`, in order.
pub fn chars_of(s: &str) -> (v: Vec<char>)
    ensures
        v@ == s@,
{
    let mut v: Vec<char> = Vec::new();
    for c in it: s.chars()
        invariant
            v@ == it.seq().take(it.index()),
            it.seq() == s@,
    {
        v.push(c);
    }
    v
}

/// The string made of the characters of `v`, in order.
pub fn string_of(v: &Vec<char>) -> (s: String)
    ensures
        s@ == v@,
{
    let mut s = String::new();
    let mut i: usize = 0;
    while i < v.len()
        invariant
            i <= v.len(),
            s@ == v@.take(i as int),
        decreases v.len() - i,
    {
        s.push(v[i]);
        i += 1;
    }
    s
}

/// The characters that Unicode marks as white space (`White_Space`).
pub open spec fn white_space(c: char) -> bool {
    ||| '\u{9}' <= c <= '\u{d}'
    ||| c == ' '
    ||| c == '\u{85}'
    ||| c == '\u{a0}'
    ||| c == '\u{1680}'
    ||| '\u{2000}' <= c <= '\u{200a}'
    ||| c == '\u{2028}'
    ||| c == '\u{2029}'
    ||| c == '\u{202f}'
    ||| c == '\u{205f}'
    ||| c == '\u{3000}'
}

/// Whether `c` is white space.
pub fn is_white_space(c: char) -> (r: bool)
    ensures
        r == white_space(c),
{
    ('\u{9}' <= c && c <= '\u{d}') || c == ' ' || c == '\u{85}' || c == '\u{a0}' || c == '\u{1680}'
        || ('\u{2000}' <= c && c <= '\u{200a}') || c == '\u{2028}' || c == '\u{2029}' || c
        == '\u{202f}' || c == '\u{205f}' || c == '\u{3000}'
}

/// The digits `0` to `9`.
pub open spec fn ascii_digit(c: char) -> bool {
    '0' <= c <= '9'
}

/// Whether `c` is one of the digits `0` to `9`.
pub fn is_ascii_digit(c: char) -> (r: bool)
    ensures
        r == ascii_digit(c),
{
    '0' <= c && c <= '9'
}

/// A line is blank when it is empty or holds white space only.
pub open spec fn blank(s: Seq<char>) -> bool {
    forall|i: int| 0 <= i < s.len() ==> white_space(#[trigger] s[i])
}

/// Whether a line is blank.
pub fn is_blank(v: &Vec<char>) -> (r: bool)
    ensures
        r == blank(v@),
{
    let mut i: usize = 0;
    while i < v.len()
        invariant
            i <= v.len(),
            forall|j: int| 0 <= j < i ==> white_space(#[trigger] v@[j]),
        decreases v.len() - i,
    {
        if !is_white_space(v[i]) {
            return false;
        }
        i += 1;
    }
    true
}

/// Whether `s` holds no line feed.
pub open spec fn single_line(s: Seq<char>) -> bool {
    forall|i: int| 0 <= i < s.len() ==> #[trigger] s[i] != '\n'
}

/// Appends the characters of `src` from `from` up to, not including, `to`.
pub fn extend_from(out: &mut Vec<char>, src: &Vec<char>, from: usize, to: usize)
    requires
        from <= to <= src.len(),
    ensures
        final(out)@ == old(out)@ + src@.subrange(from as int, to as int),
{
    let mut i: usize = from;
    assert(src@.subrange(from as int, from as int) == Seq::<char>::empty());
    assert(out@ + Seq::<char>::empty() == out@);
    while i < to
        invariant
            from <= i <= to <= src.len(),
            out@ == old(out)@ + src@.subrange(from as int, i as int),
        decreases to - i,
    {
        assert(src@.subrange(from as int, i as int).push(src@[i as int]) == src@.subrange(
            from as int,
            i as int + 1,
        ));
        out.push(src[i]);
        i += 1;
    }
}

/// Appends the characters of `tail` to `out`.
pub fn extend(out: &mut Vec<char>, tail: &Vec<char>)
    ensures
        final(out)@ == old(out)@ + tail@,
{
    assert(tail@.subrange(0, tail.len() as int) == tail@);
    extend_from(out, tail, 0, tail.len());
}

/// The characters of `v` from `from` up to, not including, `to`.
pub fn slice(v: &Vec<char>, from: usize, to: usize) -> (out: Vec<char>)
    requires
        from <= to <= v.len(),
    ensures
        out@ == v@.subrange(from as int, to as int),
{
    let mut out: Vec<char> = Vec::new();
    extend_from(&mut out, v, from, to);
    assert(Seq::<char>::empty() + v@.subrange(from as int, to as int) == v@.subrange(
        from as int,
        to as int,
    ));
    out
}

/// `s` without its leading white space.
pub open spec fn trimmed_start(s: Seq<char>) -> Seq<char>
    decreases s.len(),
{
    if s.len() > 0 && white_space(s.first()) {
        trimmed_start(s.drop_first())
    } else {
        s
    }
}

/// `s` without its trailing white space.
pub open spec fn trimmed_end(s: Seq<char>) -> Seq<char>
    decreases s.len(),
{
    if s.len() > 0 && white_space(s.last()) {
        trimmed_end(s.drop_last())
    } else {
        s
    }
}

/// `s` without the white space around it.
pub open spec fn trimmed(s: Seq<char>) -> Seq<char> {
    trimmed_end(trimmed_start(s))
}

/// Takes the white space off both ends of `v`.
pub fn trim(v: &Vec<char>) -> (out: Vec<char>)
    ensures
        out@ == trimmed(v@),
{
    let mut start: usize = 0;
    assert(v@.skip(0) == v@);
    while start < v.len() && is_white_space(v[start])
        invariant
            start <= v.len(),
            trimmed_start(v@.skip(start as int)) == trimmed_start(v@),
        decreases v.len() - start,
    {
        assert(v@.skip(start as int).drop_first() == v@.skip(start as int + 1));
        start += 1;
    }
    assert(v@.skip(start as int) == v@.subrange(start as int, v.len() as int));
    let mut end: usize = v.len();
    while end > start && is_white_space(v[end - 1])
        invariant
            start <= end <= v.len(),
            trimmed_end(v@.subrange(start as int, end as int)) == trimmed(v@),
        decreases end,
    {
        assert(v@.subrange(start as int, end as int).drop_last() == v@.subrange(
            start as int,
            end as int - 1,
        ));
        end -= 1;
    }
    slice(v, start, end)
}

/// Whether `p` stands in `s` at position `i`.
pub open spec fn matches_at(s: Seq<char>, p: Seq<char>, i: int) -> bool {
    0 <= i && i + p.len() <= s.len() && s.subrange(i, i + p.len()) == p
}

/// The first position at or after `from` where `p` stands in `s`.
pub open spec fn first_match(s: Seq<char>, p: Seq<char>, from: int) -> Option<int>
    decreases s.len() - from,
    via first_match_decreases
{
    if from < 0 || from + p.len() > s.len() {
        None
    } else if matches_at(s, p, from) {
        Some(from)
    } else {
        first_match(s, p, from + 1)
    }
}

/// The search goes on only where the pattern still fits in what is left.
#[via_fn]
proof fn first_match_decreases(s: Seq<char>, p: Seq<char>, from: int) {
    if 0 <= from && from + p.len() <= s.len() && from == s.len() {
        assert(s.subrange(from, from + p.len()) == p);
    }
}

/// Whether `p` stands in `v` at position `i`.
pub fn is_match_at(v: &Vec<char>, p: &Vec<char>, i: usize) -> (r: bool)
    ensures
        r == matches_at(v@, p@, i as int),
        r ==> i + p.len() <= v.len(),
{
    if p.len() > v.len() || i > v.len() - p.len() {
        return false;
    }
    let mut k: usize = 0;
    while k < p.len()
        invariant
            k <= p.len(),
            i + p.len() <= v.len(),
            forall|j: int| 0 <= j < k ==> v@[i + j] == p@[j],
        decreases p.len() - k,
    {
        if v[i + k] != p[k] {
            assert(v@.subrange(i as int, i + p.len())[k as int] == v@[i + k]);
            return false;
        }
        k += 1;
    }
    assert(v@.subrange(i as int, i + p.len()) =~= p@);
    true
}

/// Searches `v` for `p` from position `from` on.
pub fn find(v: &Vec<char>, p: &Vec<char>, from: usize) -> (r: Option<usize>)
    ensures
        match r {
            Some(i) => first_match(v@, p@, from as int) == Some(i as int) && from <= i
                && matches_at(v@, p@, i as int) && i + p.len() <= v.len(),
            None => first_match(v@, p@, from as int) is None,
        },
{
    if p.len() > v.len() || from > v.len() - p.len() {
        return None;
    }
    let last: usize = v.len() - p.len();
    let mut i: usize = from;
    loop
        invariant
            from <= i <= last,
            last == v.len() - p.len(),
            first_match(v@, p@, i as int) == first_match(v@, p@, from as int),
        decreases last - i,
    {
        if is_match_at(v, p, i) {
            return Some(i);
        }
        if i == last {
            assert(first_match(v@, p@, i as int + 1) is None);
            return None;
        }
        i += 1;
    }
}

/// Whether `v` begins with `p`.
pub fn has_prefix(v: &Vec<char>, p: &Vec<char>) -> (r: bool)
    ensures
        r == p@.is_prefix_of(v@),
{
    is_match_at(v, p, 0)
}

/// `s` without `marker` at its beginning: where `s` begins with `marker`,
/// what follows it, once; else `s` as it is.
pub open spec fn stripped(s: Seq<char>, marker: Seq<char>) -> Seq<char> {
    if marker.is_prefix_of(s) {
        s.skip(marker.len() as int)
    } else {
        s
    }
}

/// Takes `marker` off the beginning of `line`, once, where it stands there.
pub fn strip(line: &Vec<char>, marker: &Vec<char>) -> (out: Vec<char>)
    ensures
        out@ == stripped(line@, marker@),
{
    if has_prefix(line, marker) {
        assert(line@.skip(marker.len() as int) == line@.subrange(
            marker.len() as int,
            line.len() as int,
        ));
        slice(line, marker.len(), line.len())
    } else {
        assert(line@.subrange(0, line.len() as int) == line@);
        slice(line, 0, line.len())
    }
}

/// The parts in order, with `sep` between each two neighbours.
pub open spec fn joined(parts: Seq<Seq<char>>, sep: Seq<char>) -> Seq<char>
    decreases parts.len(),
{
    if parts.len() == 0 {
        Seq::empty()
    } else if parts.len() == 1 {
        parts[0]
    } else {
        joined(parts.drop_last(), sep) + sep + parts.last()
    }
}

/// The views of the lines held in `lines`.
pub open spec fn rows(lines: Seq<Vec<char>>) -> Seq<Seq<char>> {
    lines.map_values(|l: Vec<char>| l@)
}

/// Joins the lines `parts[from..to]` with `sep` between them.
pub fn join(parts: &Vec<Vec<char>>, from: usize, to: usize, sep: &Vec<char>) -> (out: Vec<char>)
    requires
        from <= to <= parts.len(),
    ensures
        out@ == joined(rows(parts@).subrange(from as int, to as int), sep@),
{
    let mut out: Vec<char> = Vec::new();
    let mut i: usize = from;
    while i < to
        invariant
            from <= i <= to <= parts.len(),
            out@ == joined(rows(parts@).subrange(from as int, i as int), sep@),
        decreases to - i,
    {
        let ghost before = rows(parts@).subrange(from as int, i as int);
        let ghost after = rows(parts@).subrange(from as int, i as int + 1);
        assert(after.drop_last() == before);
        assert(after.last() == parts@[i as int]@);
        if i > from {
            extend(&mut out, sep);
        }
        extend(&mut out, &parts[i]);
        i += 1;
    }
    out
}

/// How often `c` occurs in `s`.
pub open spec fn occurrences(s: Seq<char>, c: char) -> nat
    decreases s.len(),
{
    if s.len() == 0 {
        0
    } else {
        occurrences(s.drop_last(), c) + if s.last() == c {
            1nat
        } else {
            0nat
        }
    }
}

/// Where the leading white space of `s` ends.
pub proof fn lemma_trimmed_start(s: Seq<char>) -> (i: int)
    ensures
        0 <= i <= s.len(),
        trimmed_start(s) == s.skip(i),
        forall|k: int| 0 <= k < i ==> white_space(#[trigger] s[k]),
        i < s.len() ==> !white_space(s[i]),
    decreases s.len(),
{
    if s.len() > 0 && white_space(s.first()) {
        let rest = s.drop_first();
        let i = lemma_trimmed_start(rest);
        assert(rest.skip(i) == s.skip(i + 1));
        assert forall|k: int| 0 <= k < i + 1 implies white_space(#[trigger] s[k]) by {
            if k > 0 {
                assert(s[k] == rest[k - 1]);
            }
        }
        if i < rest.len() {
            assert(rest[i] == s[i + 1]);
        }
        i + 1
    } else {
        assert(s.skip(0) == s);
        0
    }
}

/// Where the trailing white space of `s` begins.
pub proof fn lemma_trimmed_end(s: Seq<char>) -> (j: int)
    ensures
        0 <= j <= s.len(),
        trimmed_end(s) == s.take(j),
        forall|k: int| j <= k < s.len() ==> white_space(#[trigger] s[k]),
        0 < j ==> !white_space(s[j - 1]),
    decreases s.len(),
{
    if s.len() > 0 && white_space(s.last()) {
        let rest = s.drop_last();
        let j = lemma_trimmed_end(rest);
        assert(rest.take(j) == s.take(j));
        assert forall|k: int| j <= k < s.len() implies white_space(#[trigger] s[k]) by {
            if k < s.len() - 1 {
                assert(s[k] == rest[k]);
            }
        }
        if 0 < j {
            assert(rest[j - 1] == s[j - 1]);
        }
        j
    } else {
        assert(s.take(s.len() as int) == s);
        s.len() as int
    }
}

/// Trimming cuts a text down to the part from its first to its last
/// character that is not white space.
pub proof fn lemma_trimmed(s: Seq<char>) -> (bounds: (int, int))
    ensures
        0 <= bounds.0 <= bounds.1 <= s.len(),
        trimmed(s) == s.subrange(bounds.0, bounds.1),
        forall|k: int| 0 <= k < bounds.0 ==> white_space(#[trigger] s[k]),
        forall|k: int| bounds.1 <= k < s.len() ==> white_space(#[trigger] s[k]),
        bounds.0 < bounds.1 ==> !white_space(s[bounds.0]) && !white_space(s[bounds.1 - 1]),
{
    let i = lemma_trimmed_start(s);
    let rest = s.skip(i);
    let n = lemma_trimmed_end(rest);
    assert(rest.take(n) == s.subrange(i, i + n));
    assert forall|k: int| i + n <= k < s.len() implies white_space(#[trigger] s[k]) by {
        assert(s[k] == rest[k - i]);
    }
    if 0 < n {
        assert(rest[n - 1] == s[i + n - 1]);
        assert(rest[0] == s[i]);
    }
    (i, i + n)
}

/// A line is blank exactly when trimming leaves nothing of it.
pub proof fn lemma_blank_trimmed(s: Seq<char>)
    ensures
        blank(s) <==> trimmed(s).len() == 0,
{
    let (i, j) = lemma_trimmed(s);
}

/// What `first_match` finds is a match, no match lies between `from` and it,
/// and where it finds nothing there is no match from `from` on.
pub proof fn lemma_first_match(s: Seq<char>, p: Seq<char>, from: int)
    requires
        0 <= from,
    ensures
        match first_match(s, p, from) {
            Some(i) => from <= i && matches_at(s, p, i) && forall|j: int|
                from <= j < i ==> !matches_at(s, p, j),
            None => forall|j: int| from <= j ==> !matches_at(s, p, j),
        },
    decreases s.len() - from,
{
    if from + p.len() <= s.len() && !matches_at(s, p, from) {
        if from == s.len() {
            assert(s.subrange(from, from + p.len()) == p);
        }
        lemma_first_match(s, p, from + 1);
    }
}

/// The first match is the one match that no other match precedes.
pub proof fn lemma_first_match_at(s: Seq<char>, p: Seq<char>, from: int, i: int)
    requires
        0 <= from <= i,
        matches_at(s, p, i),
        forall|j: int| from <= j < i ==> !matches_at(s, p, j),
    ensures
        first_match(s, p, from) == Some(i),
{
    lemma_first_match(s, p, from);
}

/// Where one character stands when it is found as a pattern.
pub proof fn lemma_single(s: Seq<char>, p: Seq<char>, c: char, i: int)
    requires
        p == seq![c],
    ensures
        matches_at(s, p, i) <==> 0 <= i < s.len() && s[i] == c,
{
    if 0 <= i < s.len() {
        assert(s.subrange(i, i + 1)[0] == s[i]);
        if s[i] == c {
            assert(s.subrange(i, i + 1) == p);
        }
    }
}

/// Joining texts without line feed with such a separator gives such a text.
pub proof fn lemma_joined_single(parts: Seq<Seq<char>>, sep: Seq<char>)
    requires
        forall|i: int| 0 <= i < parts.len() ==> single_line(#[trigger] parts[i]),
        single_line(sep),
    ensures
        single_line(joined(parts, sep)),
    decreases parts.len(),
{
    if parts.len() > 1 {
        let rest = parts.drop_last();
        assert forall|i: int| 0 <= i < rest.len() implies single_line(#[trigger] rest[i]) by {
            assert(rest[i] == parts[i]);
        }
        lemma_joined_single(rest, sep);
        assert(single_line(parts.last()));
    } else if parts.len() == 1 {
        assert(single_line(parts[0]));
    }
}

/// Occurrences add up over the two parts of a text.
pub proof fn lemma_occurrences_add(a: Seq<char>, b: Seq<char>, c: char)
    ensures
        occurrences(a + b, c) == occurrences(a, c) + occurrences(b, c),
    decreases b.len(),
{
    if b.len() == 0 {
        assert(a + b == a);
    } else {
        assert((a + b).drop_last() == a + b.drop_last());
        lemma_occurrences_add(a, b.drop_last(), c);
    }
}

/// Occurrences add up over the two parts of a range.
pub proof fn lemma_occurrences_range(s: Seq<char>, i: int, j: int, k: int, c: char)
    requires
        0 <= i <= j <= k <= s.len(),
    ensures
        occurrences(s.subrange(i, k), c) == occurrences(s.subrange(i, j), c) + occurrences(
            s.subrange(j, k),
            c,
        ),
{
    assert(s.subrange(i, k) == s.subrange(i, j) + s.subrange(j, k));
    lemma_occurrences_add(s.subrange(i, j), s.subrange(j, k), c);
}

/// Where every character of `p` is `c`, `c` occurs in it as often as it is long;
/// where none is, not at all.
pub proof fn lemma_occurrences_uniform(p: Seq<char>, c: char)
    ensures
        (forall|i: int| 0 <= i < p.len() ==> p[i] == c) ==> occurrences(p, c) == p.len(),
        (forall|i: int| 0 <= i < p.len() ==> p[i] != c) ==> occurrences(p, c) == 0,
    decreases p.len(),
{
    if p.len() > 0 {
        lemma_occurrences_uniform(p.drop_last(), c);
    }
}

/// A character that occurs in a text stands at some position of it.
pub proof fn lemma_occurrence(s: Seq<char>, c: char) -> (i: int)
    requires
        occurrences(s, c) >= 1,
    ensures
        0 <= i < s.len(),
        s[i] == c,
    decreases s.len(),
{
    if s.last() == c {
        s.len() - 1
    } else {
        lemma_occurrence(s.drop_last(), c)
    }
}

/// A character that occurs twice in a text stands at two positions of it.
pub proof fn lemma_two_occurrences(s: Seq<char>, c: char) -> (at: (int, int))
    requires
        occurrences(s, c) >= 2,
    ensures
        0 <= at.0 < at.1 < s.len(),
        s[at.0] == c,
        s[at.1] == c,
    decreases s.len(),
{
    if s.last() == c {
        (lemma_occurrence(s.drop_last(), c), s.len() - 1)
    } else {
        lemma_two_occurrences(s.drop_last(), c)
    }
}

/// How often `c` occurs in the one character at position `i`.
pub proof fn lemma_occurrences_at(s: Seq<char>, i: int, c: char)
    requires
        0 <= i < s.len(),
    ensures
        occurrences(s.subrange(i, i + 1), c) == if s[i] == c {
            1nat
        } else {
            0nat
        },
{
    let one = s.subrange(i, i + 1);
    assert(one.last() == s[i]);
    assert(one.drop_last().len() == 0);
    assert(occurrences(one.drop_last(), c) == 0);
}

/// How often `c` occurs when the part `s[i..j]` is replaced by `r`.
pub proof fn lemma_replaced_occurrences(s: Seq<char>, i: int, j: int, r: Seq<char>, c: char)
    requires
        0 <= i <= j <= s.len(),
    ensures
        occurrences(s.subrange(0, i) + r + s.subrange(j, s.len() as int), c) + occurrences(
            s.subrange(i, j),
            c,
        ) == occurrences(s, c) + occurrences(r, c),
{
    let len = s.len() as int;
    lemma_occurrences_add(s.subrange(0, i), r, c);
    lemma_occurrences_add(s.subrange(0, i) + r, s.subrange(j, len), c);
    assert(s == s.subrange(0, len));
    lemma_occurrences_range(s, 0, i, len, c);
    lemma_occurrences_range(s, i, j, len, c);
}

} // verus!
