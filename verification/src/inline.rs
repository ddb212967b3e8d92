//! Inline formatting: links and the three kinds of emphasis.
//!
//! Each kind is resolved by rewriting: the leftmost span is replaced by its
//! HTML, the text is searched again from its start, and so on until no span
//! is left. Links go first, then `***`, then `**`, then `*`. What cannot be
//! paired stays in the text as it is.

use crate::text::{
    chars_of, extend, extend_from, find, first_match, is_match_at, lemma_first_match,
    lemma_first_match_at, lemma_occurrences_add, lemma_occurrences_at, lemma_occurrences_range,
    lemma_occurrences_uniform, lemma_replaced_occurrences, lemma_single, lemma_two_occurrences,
    matches_at, occurrences, slice, string_of,
};
use vstd::prelude::*;

verus! {

/// The kinds of emphasis, in the order in which they are resolved.
#[derive(Clone, Copy, Debug)]
pub enum Emphasis {
    /// `***text***`
    StrongEm,
    /// `**text**`
    Strong,
    /// `*text*`
    Em,
}

impl Emphasis {
    /// The marker that opens and closes a span of this kind.
    pub open spec fn delimiter(self) -> Seq<char> {
        match self {
            Emphasis::StrongEm => "***"@,
            Emphasis::Strong => "**"@,
            Emphasis::Em => "*"@,
        }
    }

    /// The HTML put in place of the opening marker.
    pub open spec fn opening(self) -> Seq<char> {
        match self {
            Emphasis::StrongEm => "<strong><em>"@,
            Emphasis::Strong => "<strong>"@,
            Emphasis::Em => "<em>"@,
        }
    }

    /// The HTML put in place of the closing marker.
    pub open spec fn closing(self) -> Seq<char> {
        match self {
            Emphasis::StrongEm => "</em></strong>"@,
            Emphasis::Strong => "</strong>"@,
            Emphasis::Em => "</em>"@,
        }
    }

    /// The marker, as characters.
    pub fn delimiter_chars(self) -> (d: Vec<char>)
        ensures
            d@ == self.delimiter(),
    {
        match self {
            Emphasis::StrongEm => chars_of("***"),
            Emphasis::Strong => chars_of("**"),
            Emphasis::Em => chars_of("*"),
        }
    }

    /// The opening tags, as characters.
    pub fn opening_chars(self) -> (t: Vec<char>)
        ensures
            t@ == self.opening(),
    {
        match self {
            Emphasis::StrongEm => chars_of("<strong><em>"),
            Emphasis::Strong => chars_of("<strong>"),
            Emphasis::Em => chars_of("<em>"),
        }
    }

    /// The closing tags, as characters.
    pub fn closing_chars(self) -> (t: Vec<char>)
        ensures
            t@ == self.closing(),
    {
        match self {
            Emphasis::StrongEm => chars_of("</em></strong>"),
            Emphasis::Strong => chars_of("</strong>"),
            Emphasis::Em => chars_of("</em>"),
        }
    }
}

/// The leftmost marker `d` in `s` and the next one that begins after its end.
pub open spec fn first_pair(s: Seq<char>, d: Seq<char>) -> Option<(int, int)> {
    match first_match(s, d, 0) {
        Some(a) => match first_match(s, d, a + d.len()) {
            Some(b) => Some((a, b)),
            None => None,
        },
        None => None,
    }
}

/// `s` with the markers at `a` and `b` replaced by the tags of `e`. The text
/// between them is kept as it is.
pub open spec fn wrapped_at(s: Seq<char>, e: Emphasis, a: int, b: int) -> Seq<char> {
    let n = e.delimiter().len();
    s.subrange(0, a) + e.opening() + s.subrange(a + n, b) + e.closing() + s.subrange(
        b + n,
        s.len() as int,
    )
}

/// `s` after the pass for `e`: the leftmost pair of markers is replaced, and
/// again, until no pair is left.
pub open spec fn emphasized(s: Seq<char>, e: Emphasis) -> Seq<char>
    decreases occurrences(s, '*'),
    via emphasized_decreases
{
    match first_pair(s, e.delimiter()) {
        Some((a, b)) => emphasized(wrapped_at(s, e, a, b), e),
        None => s,
    }
}

/// Each replacement takes `*` out of the text, so the pass comes to an end.
#[via_fn]
proof fn emphasized_decreases(s: Seq<char>, e: Emphasis) {
    if let Some((a, b)) = first_pair(s, e.delimiter()) {
        lemma_wrapping_drops_stars(s, e, a, b);
    }
}

/// The three emphasis passes, one after the other.
pub open spec fn emphasis_html(s: Seq<char>) -> Seq<char> {
    emphasized(emphasized(emphasized(s, Emphasis::StrongEm), Emphasis::Strong), Emphasis::Em)
}

/// The first link of `s`, as the positions of its `[`, its `]` and its `)`:
/// the leftmost `[`, the first `]` after it, which `(` must follow at once,
/// and the first `)` after that `(`.
pub open spec fn first_link(s: Seq<char>) -> Option<(int, int, int)> {
    match first_match(s, "["@, 0) {
        Some(a) => match first_match(s, "]"@, a) {
            Some(b) => if matches_at(s, "("@, b + 1) {
                match first_match(s, ")"@, b + 2) {
                    Some(c) => Some((a, b, c)),
                    None => None,
                }
            } else {
                None
            },
            None => None,
        },
        None => None,
    }
}

/// The anchor element for a link.
pub open spec fn anchor(url: Seq<char>, label_html: Seq<char>) -> Seq<char> {
    "<a href=\""@ + url + "\">"@ + label_html + "</a>"@
}

/// `s` with the link at `a`, `b`, `c` replaced by its anchor. The address
/// is kept as it is. The label is formatted: it ends before the first `]`,
/// so it holds no link of its own, and formatting it comes down to the
/// emphasis passes (`lemma_label_html`, `lemma_linked_at`).
pub open spec fn linked_at(s: Seq<char>, a: int, b: int, c: int) -> Seq<char> {
    s.subrange(0, a) + anchor(s.subrange(b + 2, c), emphasis_html(s.subrange(a + 1, b)))
        + s.subrange(c + 1, s.len() as int)
}

/// `s` after the pass for links: the first link is replaced, and again,
/// until no link is left.
pub open spec fn links_resolved(s: Seq<char>) -> Seq<char>
    decreases occurrences(s, ']'),
    via links_resolved_decreases
{
    match first_link(s) {
        Some((a, b, c)) => links_resolved(linked_at(s, a, b, c)),
        None => s,
    }
}

/// Each replacement takes one `]` out of the text, so the pass comes to an
/// end.
#[via_fn]
proof fn links_resolved_decreases(s: Seq<char>) {
    if let Some((a, b, c)) = first_link(s) {
        lemma_linking_drops_bracket(s, a, b, c);
    }
}

/// The HTML for a piece of inline text: its links are resolved first, then
/// its emphasis.
pub open spec fn inline_html(s: Seq<char>) -> Seq<char> {
    emphasis_html(links_resolved(s))
}

/// The characters that inline formatting reads.
pub open spec fn is_delimiter(c: char) -> bool {
    c == '*' || c == '[' || c == ']' || c == '(' || c == ')'
}

/// Whether `s` holds none of the characters that inline formatting reads.
pub open spec fn delimiter_free(s: Seq<char>) -> bool {
    forall|i: int| 0 <= i < s.len() ==> !is_delimiter(#[trigger] s[i])
}

/// Finds the leftmost marker and the next one after it.
pub fn find_pair(v: &Vec<char>, d: &Vec<char>) -> (r: Option<(usize, usize)>)
    ensures
        match r {
            Some((a, b)) => first_pair(v@, d@) == Some((a as int, b as int)),
            None => first_pair(v@, d@) is None,
        },
{
    match find(v, d, 0) {
        Some(a) => match find(v, d, a + d.len()) {
            Some(b) => Some((a, b)),
            None => None,
        },
        None => None,
    }
}

/// One emphasis pass over `text`.
pub fn emphasize(text: Vec<char>, e: Emphasis) -> (out: Vec<char>)
    ensures
        out@ == emphasized(text@, e),
{
    let d = e.delimiter_chars();
    let opening = e.opening_chars();
    let closing = e.closing_chars();
    let mut result = text;
    loop
        invariant
            emphasized(result@, e) == emphasized(text@, e),
            d@ == e.delimiter(),
            opening@ == e.opening(),
            closing@ == e.closing(),
        ensures
            first_pair(result@, e.delimiter()) is None,
            emphasized(result@, e) == emphasized(text@, e),
        decreases occurrences(result@, '*'),
    {
        match find_pair(&result, &d) {
            None => {
                break ;
            },
            Some((a, b)) => {
                proof {
                    lemma_pair(result@, d@, a as int, b as int);
                    lemma_wrapping_drops_stars(result@, e, a as int, b as int);
                }
                let mut next = slice(&result, 0, a);
                extend(&mut next, &opening);
                extend_from(&mut next, &result, a + d.len(), b);
                extend(&mut next, &closing);
                extend_from(&mut next, &result, b + d.len(), result.len());
                result = next;
            },
        }
    }
    result
}

/// Finds the first link.
pub fn find_link(v: &Vec<char>) -> (r: Option<(usize, usize, usize)>)
    ensures
        match r {
            Some((a, b, c)) => first_link(v@) == Some((a as int, b as int, c as int)),
            None => first_link(v@) is None,
        },
{
    let open = chars_of("[");
    let close = chars_of("]");
    let paren = chars_of("(");
    let end = chars_of(")");
    proof {
        lemma_brackets();
    }
    match find(v, &open, 0) {
        Some(a) => match find(v, &close, a) {
            Some(b) => if is_match_at(v, &paren, b + 1) {
                match find(v, &end, b + 2) {
                    Some(c) => Some((a, b, c)),
                    None => None,
                }
            } else {
                None
            },
            None => None,
        },
        None => None,
    }
}

/// Formats a piece of inline text, given and returned as characters.
pub fn format_chars(text: &Vec<char>) -> (out: Vec<char>)
    ensures
        out@ == inline_html(text@),
    decreases occurrences(text@, ']'),
{
    let before_url = chars_of("<a href=\"");
    let after_url = chars_of("\">");
    let after_label = chars_of("</a>");
    let mut result = slice(text, 0, text.len());
    assert(result@ == text@);
    loop
        invariant
            links_resolved(result@) == links_resolved(text@),
            occurrences(result@, ']') <= occurrences(text@, ']'),
            before_url@ == "<a href=\""@,
            after_url@ == "\">"@,
            after_label@ == "</a>"@,
        ensures
            first_link(result@) is None,
            links_resolved(result@) == links_resolved(text@),
        decreases occurrences(result@, ']'),
    {
        match find_link(&result) {
            None => {
                break ;
            },
            Some((a, b, c)) => {
                proof {
                    lemma_link(result@, a as int, b as int, c as int);
                    lemma_linking_drops_bracket(result@, a as int, b as int, c as int);
                }
                let label = slice(&result, a + 1, b);
                let url = slice(&result, b + 2, c);
                proof {
                    lemma_occurrences_uniform(label@, ']');
                    lemma_label_html(label@);
                }
                let label_html = format_chars(&label);
                let mut next = slice(&result, 0, a);
                extend(&mut next, &before_url);
                extend(&mut next, &url);
                extend(&mut next, &after_url);
                extend(&mut next, &label_html);
                extend(&mut next, &after_label);
                extend_from(&mut next, &result, c + 1, result.len());
                assert(next@ == linked_at(result@, a as int, b as int, c as int));
                result = next;
            },
        }
    }
    let result = emphasize(result, Emphasis::StrongEm);
    let result = emphasize(result, Emphasis::Strong);
    emphasize(result, Emphasis::Em)
}

/// Formats a piece of inline text: links first, then `***`, `**` and `*`.
pub fn parse_inline_formatting(text: &str) -> (html: String)
    ensures
        html@ == inline_html(text@),
{
    let chars = chars_of(text);
    let out = format_chars(&chars);
    string_of(&out)
}

/// What `first_pair` finds: two markers that do not overlap.
pub proof fn lemma_pair(s: Seq<char>, d: Seq<char>, a: int, b: int)
    requires
        first_pair(s, d) == Some((a, b)),
    ensures
        matches_at(s, d, a),
        matches_at(s, d, b),
        a + d.len() <= b,
{
    lemma_first_match(s, d, 0);
    lemma_first_match(s, d, a + d.len());
}

/// What `first_link` finds: the leftmost `[`, the first `]` after it with
/// `(` next to it, and the first `)` after that.
pub proof fn lemma_link(s: Seq<char>, a: int, b: int, c: int)
    requires
        first_link(s) == Some((a, b, c)),
    ensures
        0 <= a < b,
        b + 2 <= c < s.len(),
        s[a] == '[',
        s[b] == ']',
        s[b + 1] == '(',
        s[c] == ')',
        forall|j: int| 0 <= j < a ==> s[j] != '[',
        forall|j: int| a <= j < b ==> s[j] != ']',
        forall|j: int| b + 2 <= j < c ==> s[j] != ')',
{
    lemma_brackets();
    lemma_first_match(s, "["@, 0);
    lemma_first_match(s, "]"@, a);
    lemma_first_match(s, ")"@, b + 2);
    lemma_single(s, "["@, '[', a);
    lemma_single(s, "]"@, ']', b);
    lemma_single(s, "("@, '(', b + 1);
    lemma_single(s, ")"@, ')', c);
    assert forall|j: int| 0 <= j < a implies s[j] != '[' by {
        lemma_single(s, "["@, '[', j);
    }
    assert forall|j: int| a <= j < b implies s[j] != ']' by {
        lemma_single(s, "]"@, ']', j);
    }
    assert forall|j: int| b + 2 <= j < c implies s[j] != ')' by {
        lemma_single(s, ")"@, ')', j);
    }
}

/// A text without `]` holds no link, so formatting it comes down to the
/// emphasis passes. The label of a link is such a text.
pub proof fn lemma_label_html(label: Seq<char>)
    requires
        !label.contains(']'),
    ensures
        first_link(label) is None,
        inline_html(label) == emphasis_html(label),
{
    lemma_brackets();
    if let Some(a) = first_match(label, "["@, 0) {
        lemma_first_match(label, "["@, 0);
        lemma_first_match(label, "]"@, a);
        if let Some(b) = first_match(label, "]"@, a) {
            lemma_single(label, "]"@, ']', b);
        }
    }
}

/// The label of a link is formatted as inline text, and the link becomes
/// the anchor with that label and with the address as it stands.
pub proof fn lemma_linked_at(s: Seq<char>, a: int, b: int, c: int)
    requires
        first_link(s) == Some((a, b, c)),
    ensures
        linked_at(s, a, b, c) == s.subrange(0, a) + anchor(
            s.subrange(b + 2, c),
            inline_html(s.subrange(a + 1, b)),
        ) + s.subrange(c + 1, s.len() as int),
{
    let label = s.subrange(a + 1, b);
    lemma_link(s, a, b, c);
    assert forall|i: int| 0 <= i < label.len() implies label[i] != ']' by {
        assert(label[i] == s[a + 1 + i]);
    }
    lemma_label_html(label);
}

/// After a pass no pair of its markers is left.
pub proof fn lemma_no_pair_left(s: Seq<char>, e: Emphasis)
    ensures
        first_pair(emphasized(s, e), e.delimiter()) is None,
    decreases occurrences(s, '*'),
{
    if let Some((a, b)) = first_pair(s, e.delimiter()) {
        lemma_wrapping_drops_stars(s, e, a, b);
        lemma_no_pair_left(wrapped_at(s, e, a, b), e);
    }
}

/// After the pass for links no link is left.
pub proof fn lemma_no_link_left(s: Seq<char>)
    ensures
        first_link(links_resolved(s)) is None,
    decreases occurrences(s, ']'),
{
    if let Some((a, b, c)) = first_link(s) {
        lemma_linking_drops_bracket(s, a, b, c);
        lemma_no_link_left(linked_at(s, a, b, c));
    }
}

/// A text that holds no link and no pair of markers of any kind is left as
/// it is: markers and brackets that cannot be paired are plain text.
pub proof fn lemma_unpaired_unchanged(s: Seq<char>)
    requires
        first_link(s) is None,
        first_pair(s, Emphasis::StrongEm.delimiter()) is None,
        first_pair(s, Emphasis::Strong.delimiter()) is None,
        first_pair(s, Emphasis::Em.delimiter()) is None,
    ensures
        inline_html(s) == s,
{
}

/// A pair of markers takes as many `*` as the two markers hold.
pub proof fn lemma_pair_needs_stars(s: Seq<char>, e: Emphasis)
    requires
        occurrences(s, '*') < 2 * e.delimiter().len(),
    ensures
        first_pair(s, e.delimiter()) is None,
        emphasized(s, e) == s,
{
    if let Some((a, b)) = first_pair(s, e.delimiter()) {
        lemma_pair(s, e.delimiter(), a, b);
        lemma_delimiter(e);
        lemma_tags(e, '*');
        lemma_wrapped_occurrences(s, e, a, b, '*');
    }
}

/// A marker without partner stays: a text with one `*` at most and without
/// `[` is left as it is.
pub proof fn lemma_lone_marker_unchanged(s: Seq<char>)
    requires
        occurrences(s, '*') < 2,
        !s.contains('['),
    ensures
        inline_html(s) == s,
{
    lemma_brackets();
    lemma_first_match(s, "["@, 0);
    if let Some(a) = first_match(s, "["@, 0) {
        lemma_single(s, "["@, '[', a);
    }
    lemma_delimiter(Emphasis::StrongEm);
    lemma_delimiter(Emphasis::Strong);
    lemma_delimiter(Emphasis::Em);
    lemma_pair_needs_stars(s, Emphasis::StrongEm);
    lemma_pair_needs_stars(s, Emphasis::Strong);
    lemma_pair_needs_stars(s, Emphasis::Em);
}

/// A text without delimiters between two markers of one kind becomes that
/// text between the tags of that kind: `***` gives strong emphasis, `**`
/// strong text and `*` emphasis, and no pass takes the markers of another.
pub proof fn lemma_emphasis_of_plain_text(e: Emphasis, x: Seq<char>)
    requires
        delimiter_free(x),
    ensures
        inline_html(e.delimiter() + x + e.delimiter()) == e.opening() + x + e.closing(),
{
    let d = e.delimiter();
    let n = d.len() as int;
    let m = x.len() as int;
    let s = d + x + d;
    let r = e.opening() + x + e.closing();
    lemma_delimiter(e);
    lemma_delimiter(Emphasis::StrongEm);
    lemma_delimiter(Emphasis::Strong);
    lemma_delimiter(Emphasis::Em);
    lemma_tags(e, '*');
    lemma_occurrences_uniform(x, '*');
    lemma_occurrences_add(d, x, '*');
    lemma_occurrences_add(d + x, d, '*');
    lemma_occurrences_add(e.opening(), x, '*');
    lemma_occurrences_add(e.opening() + x, e.closing(), '*');
    assert(occurrences(s, '*') == 2 * n);
    assert(occurrences(r, '*') == 0);
    // No link: no opening bracket.
    assert(links_resolved(s) == s) by {
        lemma_brackets();
        lemma_first_match(s, "["@, 0);
        if let Some(a) = first_match(s, "["@, 0) {
            lemma_single(s, "["@, '[', a);
            if n <= a < n + m {
                assert(s[a] == x[a - n]);
            }
        }
    }
    // The pass for `e` pairs the two markers.
    assert(emphasized(s, e) == r) by {
        assert(s.subrange(0, n) == d);
        assert(s.subrange(n + m, n + m + n) == d);
        assert forall|j: int| n <= j < n + m implies !matches_at(s, d, j) by {
            if matches_at(s, d, j) {
                assert(s.subrange(j, j + n)[0] == s[j]);
                assert(s[j] == x[j - n]);
            }
        }
        lemma_first_match_at(s, d, 0, 0);
        lemma_first_match_at(s, d, n, n + m);
        assert(first_pair(s, d) == Some((0int, n + m)));
        assert(wrapped_at(s, e, 0, n + m) == r) by {
            assert(s.subrange(0, 0) == Seq::<char>::empty());
            assert(s.subrange(n, n + m) == x);
            assert(s.subrange(n + m + n, s.len() as int) == Seq::<char>::empty());
        }
        lemma_pair_needs_stars(r, e);
    }
    // The passes before it find too few `*`, those after it none.
    lemma_pair_needs_stars(r, Emphasis::StrongEm);
    lemma_pair_needs_stars(r, Emphasis::Strong);
    lemma_pair_needs_stars(r, Emphasis::Em);
    match e {
        Emphasis::StrongEm => {},
        Emphasis::Strong => {
            lemma_pair_needs_stars(s, Emphasis::StrongEm);
        },
        Emphasis::Em => {
            lemma_pair_needs_stars(s, Emphasis::StrongEm);
            lemma_pair_needs_stars(s, Emphasis::Strong);
        },
    }
}

/// After the three passes one `*` is left at most.
pub proof fn lemma_emphasis_html_stars(s: Seq<char>)
    ensures
        occurrences(emphasis_html(s), '*') <= 1,
{
    let before = emphasized(emphasized(s, Emphasis::StrongEm), Emphasis::Strong);
    let r = emphasized(before, Emphasis::Em);
    let d = Emphasis::Em.delimiter();
    lemma_no_pair_left(before, Emphasis::Em);
    if occurrences(r, '*') >= 2 {
        let (i, j) = lemma_two_occurrences(r, '*');
        reveal_strlit("*");
        assert(d =~= seq!['*']);
        lemma_single(r, d, '*', i);
        lemma_single(r, d, '*', j);
        lemma_first_match(r, d, 0);
        let a = first_match(r, d, 0).unwrap();
        lemma_first_match(r, d, a + 1);
    }
}

/// A link alone, with a label without brackets and an address without
/// delimiters, becomes the anchor with that address and with the label
/// after the emphasis passes. The passes after the link leave the anchor as
/// it is.
pub proof fn lemma_link_of_plain_address(label: Seq<char>, url: Seq<char>)
    requires
        !label.contains('['),
        !label.contains(']'),
        delimiter_free(url),
    ensures
        inline_html("["@ + label + "]("@ + url + ")"@) == anchor(url, emphasis_html(label)),
{
    let s = "["@ + label + "]("@ + url + ")"@;
    let b = label.len() as int + 1;
    let c = b + 2 + url.len() as int;
    let html = emphasis_html(label);
    let t = anchor(url, html);
    lemma_brackets();
    reveal_strlit("](");
    // The link is found.
    assert(first_link(s) == Some((0int, b, c))) by {
        lemma_single(s, "["@, '[', 0);
        lemma_first_match_at(s, "["@, 0, 0);
        lemma_single(s, "]"@, ']', b);
        assert forall|j: int| 0 <= j < b implies !matches_at(s, "]"@, j) by {
            lemma_single(s, "]"@, ']', j);
            if j > 0 {
                assert(s[j] == label[j - 1]);
            }
        }
        lemma_first_match_at(s, "]"@, 0, b);
        lemma_single(s, "("@, '(', b + 1);
        lemma_single(s, ")"@, ')', c);
        assert forall|j: int| b + 2 <= j < c implies !matches_at(s, ")"@, j) by {
            lemma_single(s, ")"@, ')', j);
            assert(s[j] == url[j - b - 2]);
        }
        lemma_first_match_at(s, ")"@, b + 2, c);
    }
    assert(linked_at(s, 0, b, c) == t) by {
        assert(s.subrange(0, 0) == Seq::<char>::empty());
        assert(s.subrange(1, b) == label);
        assert(s.subrange(b + 2, c) == url);
        assert(s.subrange(c + 1, s.len() as int) == Seq::<char>::empty());
    }
    // No link is left in the anchor.
    assert(first_link(t) is None) by {
        lemma_occurrences_uniform(url, '[');
        lemma_occurrences_uniform(label, '[');
        lemma_emphasis_html_keeps(label, '[');
        lemma_anchor_occurrences(url, html, '[');
        lemma_first_match(t, "["@, 0);
        if let Some(a) = first_match(t, "["@, 0) {
            lemma_single(t, "["@, '[', a);
            lemma_occurrences_range(t, 0, a, t.len() as int, '[');
            lemma_occurrences_range(t, a, a + 1, t.len() as int, '[');
            lemma_occurrences_at(t, a, '[');
            assert(t == t.subrange(0, t.len() as int));
        }
    }
    // One `*` at most is left in it.
    lemma_emphasis_html_stars(label);
    lemma_occurrences_uniform(url, '*');
    lemma_anchor_occurrences(url, html, '*');
    lemma_delimiter(Emphasis::StrongEm);
    lemma_delimiter(Emphasis::Strong);
    lemma_delimiter(Emphasis::Em);
    lemma_pair_needs_stars(t, Emphasis::StrongEm);
    lemma_pair_needs_stars(t, Emphasis::Strong);
    lemma_pair_needs_stars(t, Emphasis::Em);
    assert(links_resolved(s) == links_resolved(t));
    assert(links_resolved(t) == t);
    assert(emphasis_html(t) == t);
}

/// A text without delimiters is its own HTML.
pub proof fn lemma_plain_text(s: Seq<char>)
    requires
        delimiter_free(s),
    ensures
        inline_html(s) == s,
{
    lemma_brackets();
    lemma_first_match(s, "["@, 0);
    if let Some(a) = first_match(s, "["@, 0) {
        lemma_single(s, "["@, '[', a);
    }
    assert forall|e: Emphasis| first_pair(s, e.delimiter()) is None by {
        lemma_delimiter(e);
        lemma_first_match(s, e.delimiter(), 0);
        if let Some(a) = first_match(s, e.delimiter(), 0) {
            assert(s.subrange(a, a + e.delimiter().len())[0] == s[a]);
        }
    }
    lemma_unpaired_unchanged(s);
}

/// Formatting twice gives what formatting once gives, on a text without
/// delimiters.
pub proof fn lemma_format_idempotent(s: Seq<char>)
    requires
        delimiter_free(s),
    ensures
        inline_html(inline_html(s)) == inline_html(s),
{
    lemma_plain_text(s);
}

/// The markers are made of three, two and one `*`, and of nothing else.
proof fn lemma_delimiter(e: Emphasis)
    ensures
        e.delimiter().len() == match e {
            Emphasis::StrongEm => 3nat,
            Emphasis::Strong => 2nat,
            Emphasis::Em => 1nat,
        },
        forall|i: int| 0 <= i < e.delimiter().len() ==> e.delimiter()[i] == '*',
        occurrences(e.delimiter(), '*') == e.delimiter().len(),
        forall|c: char| c != '*' ==> occurrences(e.delimiter(), c) == 0,
{
    reveal_strlit("***");
    reveal_strlit("**");
    reveal_strlit("*");
    lemma_occurrences_uniform(e.delimiter(), '*');
    assert forall|c: char| c != '*' implies occurrences(e.delimiter(), c) == 0 by {
        lemma_occurrences_uniform(e.delimiter(), c);
    }
}

/// The tags of emphasis hold no delimiter.
proof fn lemma_tags(e: Emphasis, c: char)
    requires
        c == '*' || c == '[' || c == ']' || c == '(' || c == ')',
    ensures
        occurrences(e.opening(), c) == 0,
        occurrences(e.closing(), c) == 0,
{
    reveal_strlit("<strong><em>");
    reveal_strlit("<strong>");
    reveal_strlit("<em>");
    reveal_strlit("</em></strong>");
    reveal_strlit("</strong>");
    reveal_strlit("</em>");
    lemma_occurrences_uniform(e.opening(), c);
    lemma_occurrences_uniform(e.closing(), c);
}

/// The patterns of one bracket or parenthesis.
proof fn lemma_brackets()
    ensures
        "["@ == seq!['['],
        "]"@ == seq![']'],
        "("@ == seq!['('],
        ")"@ == seq![')'],
{
    reveal_strlit("[");
    reveal_strlit("]");
    reveal_strlit("(");
    reveal_strlit(")");
    assert("["@ =~= seq!['[']);
    assert("]"@ =~= seq![']']);
    assert("("@ =~= seq!['(']);
    assert(")"@ =~= seq![')']);
}

/// How often a character occurs after one pair of markers was replaced.
proof fn lemma_wrapped_occurrences(s: Seq<char>, e: Emphasis, a: int, b: int, c: char)
    requires
        matches_at(s, e.delimiter(), a),
        matches_at(s, e.delimiter(), b),
        a + e.delimiter().len() <= b,
    ensures
        occurrences(wrapped_at(s, e, a, b), c) + 2 * occurrences(e.delimiter(), c) == occurrences(
            s,
            c,
        ) + occurrences(e.opening(), c) + occurrences(e.closing(), c),
{
    let n = e.delimiter().len() as int;
    let len = s.len() as int;
    let before = s.subrange(0, a);
    let inner = s.subrange(a + n, b);
    let after = s.subrange(b + n, len);
    lemma_occurrences_add(before, e.opening(), c);
    lemma_occurrences_add(before + e.opening(), inner, c);
    lemma_occurrences_add(before + e.opening() + inner, e.closing(), c);
    lemma_occurrences_add(before + e.opening() + inner + e.closing(), after, c);
    assert(s == s.subrange(0, len));
    lemma_occurrences_range(s, 0, a, len, c);
    lemma_occurrences_range(s, a, a + n, len, c);
    lemma_occurrences_range(s, a + n, b, len, c);
    lemma_occurrences_range(s, b, b + n, len, c);
}

/// Replacing a pair of markers leaves fewer `*` in the text.
proof fn lemma_wrapping_drops_stars(s: Seq<char>, e: Emphasis, a: int, b: int)
    requires
        first_pair(s, e.delimiter()) == Some((a, b)),
    ensures
        occurrences(wrapped_at(s, e, a, b), '*') < occurrences(s, '*'),
{
    lemma_pair(s, e.delimiter(), a, b);
    lemma_delimiter(e);
    lemma_tags(e, '*');
    lemma_wrapped_occurrences(s, e, a, b, '*');
}

/// The emphasis passes neither add nor remove a bracket or a parenthesis.
pub proof fn lemma_emphasized_keeps(s: Seq<char>, e: Emphasis, c: char)
    requires
        c == '[' || c == ']' || c == '(' || c == ')',
    ensures
        occurrences(emphasized(s, e), c) == occurrences(s, c),
    decreases occurrences(s, '*'),
{
    if let Some((a, b)) = first_pair(s, e.delimiter()) {
        lemma_wrapping_drops_stars(s, e, a, b);
        lemma_pair(s, e.delimiter(), a, b);
        lemma_delimiter(e);
        lemma_tags(e, c);
        lemma_wrapped_occurrences(s, e, a, b, c);
        lemma_emphasized_keeps(wrapped_at(s, e, a, b), e, c);
    }
}

/// The three passes together neither add nor remove a bracket or a parenthesis.
pub proof fn lemma_emphasis_html_keeps(s: Seq<char>, c: char)
    requires
        c == '[' || c == ']' || c == '(' || c == ')',
    ensures
        occurrences(emphasis_html(s), c) == occurrences(s, c),
{
    let s1 = emphasized(s, Emphasis::StrongEm);
    let s2 = emphasized(s1, Emphasis::Strong);
    lemma_emphasized_keeps(s, Emphasis::StrongEm, c);
    lemma_emphasized_keeps(s1, Emphasis::Strong, c);
    lemma_emphasized_keeps(s2, Emphasis::Em, c);
}

/// The tags of an anchor hold no delimiter.
proof fn lemma_anchor_tags(c: char)
    requires
        c == '*' || c == '[' || c == ']' || c == '(' || c == ')',
    ensures
        occurrences("<a href=\""@, c) == 0,
        occurrences("\">"@, c) == 0,
        occurrences("</a>"@, c) == 0,
{
    reveal_strlit("<a href=\"");
    reveal_strlit("\">");
    reveal_strlit("</a>");
    lemma_occurrences_uniform("<a href=\""@, c);
    lemma_occurrences_uniform("\">"@, c);
    lemma_occurrences_uniform("</a>"@, c);
}

/// The delimiters of an anchor are those of its address and of its label.
proof fn lemma_anchor_occurrences(url: Seq<char>, html: Seq<char>, c: char)
    requires
        c == '*' || c == '[' || c == ']' || c == '(' || c == ')',
    ensures
        occurrences(anchor(url, html), c) == occurrences(url, c) + occurrences(html, c),
{
    let t0 = "<a href=\""@;
    let t1 = "\">"@;
    let t2 = "</a>"@;
    lemma_anchor_tags(c);
    lemma_occurrences_add(t0, url, c);
    lemma_occurrences_add(t0 + url, t1, c);
    lemma_occurrences_add(t0 + url + t1, html, c);
    lemma_occurrences_add(t0 + url + t1 + html, t2, c);
}

/// The closing brackets in a link, from its `[` to its `)`: the one that
/// ends the label, and those of the address.
proof fn lemma_link_span(s: Seq<char>, a: int, b: int, c: int)
    requires
        first_link(s) == Some((a, b, c)),
    ensures
        occurrences(s.subrange(a, c + 1), ']') == 1 + occurrences(s.subrange(a + 1, b), ']')
            + occurrences(s.subrange(b + 2, c), ']'),
{
    lemma_link(s, a, b, c);
    lemma_occurrences_range(s, a, a + 1, c + 1, ']');
    lemma_occurrences_range(s, a + 1, b, c + 1, ']');
    lemma_occurrences_range(s, b, b + 1, c + 1, ']');
    lemma_occurrences_range(s, b + 1, b + 2, c + 1, ']');
    lemma_occurrences_range(s, b + 2, c, c + 1, ']');
    lemma_occurrences_at(s, a, ']');
    lemma_occurrences_at(s, b, ']');
    lemma_occurrences_at(s, b + 1, ']');
    lemma_occurrences_at(s, c, ']');
}

/// Replacing a link leaves one `]` less in the text.
proof fn lemma_linking_drops_bracket(s: Seq<char>, a: int, b: int, c: int)
    requires
        first_link(s) == Some((a, b, c)),
    ensures
        occurrences(linked_at(s, a, b, c), ']') + 1 == occurrences(s, ']'),
{
    let label = s.subrange(a + 1, b);
    let url = s.subrange(b + 2, c);
    lemma_link(s, a, b, c);
    lemma_link_span(s, a, b, c);
    lemma_emphasis_html_keeps(label, ']');
    lemma_anchor_occurrences(url, emphasis_html(label), ']');
    lemma_replaced_occurrences(s, a, c + 1, anchor(url, emphasis_html(label)), ']');
}

} // verus!
