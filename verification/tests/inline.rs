use md_forge::inline::{
    emphasize, find_link, find_pair, format_chars, parse_inline_formatting, Emphasis,
};

fn chars(s: &str) -> Vec<char> {
    s.chars().collect()
}

fn text(v: &[char]) -> String {
    v.iter().collect()
}

/// Every string over `alphabet` of length `len`.
fn words(alphabet: &[char], len: usize) -> Vec<String> {
    let mut out = vec![String::new()];
    for _ in 0..len {
        let mut next = Vec::new();
        for w in &out {
            for c in alphabet {
                let mut longer = w.clone();
                longer.push(*c);
                next.push(longer);
            }
        }
        out = next;
    }
    out
}

/// The same rules, worked out with std's string search on an ASCII text.
fn by_string_search(text: &str) -> String {
    let mut result = text.to_string();
    loop {
        let Some(open) = result.find('[') else { break };
        let Some(close) = result[open..].find(']').map(|i| i + open) else { break };
        if !result[close + 1..].starts_with('(') {
            break;
        }
        let Some(end) = result[close + 2..].find(')').map(|i| i + close + 2) else { break };
        let label = by_string_search(&result[open + 1..close]);
        let anchor = format!("<a href=\"{}\">{}</a>", &result[close + 2..end], label);
        result.replace_range(open..=end, &anchor);
    }
    for (marker, opening, closing) in [
        ("***", "<strong><em>", "</em></strong>"),
        ("**", "<strong>", "</strong>"),
        ("*", "<em>", "</em>"),
    ] {
        let n = marker.len();
        loop {
            let Some(start) = result.find(marker) else { break };
            let Some(end) = result[start + n..].find(marker).map(|i| i + start + n) else {
                break;
            };
            let wrapped = format!("{}{}{}", opening, &result[start + n..end], closing);
            result.replace_range(start..end + n, &wrapped);
        }
    }
    result
}

#[test]
fn strong_emphasis_goes_first() {
    assert_eq!(
        parse_inline_formatting("***bold-italic***"),
        "<strong><em>bold-italic</em></strong>"
    );
}

#[test]
fn strong_and_emphasis_side_by_side() {
    assert_eq!(
        parse_inline_formatting("**bold** and *italic*"),
        "<strong>bold</strong> and <em>italic</em>"
    );
}

#[test]
fn link_with_emphasis_in_its_label() {
    assert_eq!(
        parse_inline_formatting("[**go**](http://x)"),
        "<a href=\"http://x\"><strong>go</strong></a>"
    );
}

#[test]
fn marker_without_partner_stays() {
    assert_eq!(parse_inline_formatting("*unterminated"), "*unterminated");
    assert_eq!(parse_inline_formatting("un*terminated"), "un*terminated");
    assert_eq!(parse_inline_formatting("*a* *b"), "<em>a</em> *b");
    assert_eq!(parse_inline_formatting("**a** **b"), "<strong>a</strong> <em></em>b");
}

#[test]
fn longer_marker_without_partner_is_left_to_the_shorter_ones() {
    assert_eq!(parse_inline_formatting("a ** b"), "a <em></em> b");
    assert_eq!(parse_inline_formatting("a *** b"), "a <em></em>* b");
    assert_eq!(parse_inline_formatting("***a**"), "<strong>*a</strong>");
}

#[test]
fn plain_text_is_unchanged() {
    for s in ["", "plain text", "<b>already</b> html, 1 + 1 = 2", "naïve café ✓"] {
        let once = parse_inline_formatting(s);
        assert_eq!(once, s);
        assert_eq!(parse_inline_formatting(&once), once);
    }
}

#[test]
fn formatted_text_without_delimiters_is_stable() {
    let once = parse_inline_formatting("**a** and *b*");
    assert_eq!(once, "<strong>a</strong> and <em>b</em>");
    assert_eq!(parse_inline_formatting(&once), once);
}

#[test]
fn link_needs_all_its_parts() {
    assert_eq!(parse_inline_formatting("[a](b)"), "<a href=\"b\">a</a>");
    assert_eq!(parse_inline_formatting("[a] (b)"), "[a] (b)");
    assert_eq!(parse_inline_formatting("[a](b"), "[a](b");
    assert_eq!(parse_inline_formatting("[a]"), "[a]");
    assert_eq!(parse_inline_formatting("[a"), "[a");
    assert_eq!(parse_inline_formatting("a](b)"), "a](b)");
    assert_eq!(parse_inline_formatting("[]()"), "<a href=\"\"></a>");
    assert_eq!(parse_inline_formatting("x [a](b) y"), "x <a href=\"b\">a</a> y");
}

#[test]
fn first_bracket_that_fails_ends_the_search() {
    assert_eq!(parse_inline_formatting("[x] [a](b)"), "[x] [a](b)");
    assert_eq!(parse_inline_formatting("[a](b) [x] [c](d)"), "<a href=\"b\">a</a> [x] [c](d)");
}

#[test]
fn several_links() {
    assert_eq!(
        parse_inline_formatting("[a](b) and [c](d)"),
        "<a href=\"b\">a</a> and <a href=\"d\">c</a>"
    );
}

#[test]
fn address_ends_at_the_first_closing_parenthesis() {
    assert_eq!(parse_inline_formatting("[a](b(c)d)"), "<a href=\"b(c\">a</a>d)");
    assert_eq!(parse_inline_formatting("[a]()x)"), "<a href=\"\">a</a>x)");
}

#[test]
fn address_is_kept_but_for_emphasis_passes() {
    assert_eq!(parse_inline_formatting("[a](x?y=1&z)"), "<a href=\"x?y=1&z\">a</a>");
    assert_eq!(parse_inline_formatting("[a](x_*y*)"), "<a href=\"x_<em>y</em>\">a</a>");
}

#[test]
fn bracket_in_an_address_can_begin_the_next_link() {
    assert_eq!(
        parse_inline_formatting("[x]([y)](z)"),
        "<a href=\"<a href=\"z\">y\">x</a></a>"
    );
}

#[test]
fn label_may_hold_an_opening_bracket() {
    assert_eq!(parse_inline_formatting("[[x](u)"), "<a href=\"u\">[x</a>");
}

#[test]
fn markers_pair_from_the_left() {
    assert_eq!(parse_inline_formatting("*a* b *c*"), "<em>a</em> b <em>c</em>");
    assert_eq!(parse_inline_formatting("**a*"), "<em></em>a*");
    assert_eq!(parse_inline_formatting("****"), "<strong></strong>");
    assert_eq!(parse_inline_formatting("******"), "<strong><em></em></strong>");
    assert_eq!(parse_inline_formatting("***a****"), "<strong><em>a</em></strong>*");
    assert_eq!(parse_inline_formatting("****a***"), "<strong><em>*a</em></strong>");
    assert_eq!(parse_inline_formatting("*a**b**c*"), "<em>a<strong>b</strong>c</em>");
}

#[test]
fn text_in_other_scripts() {
    assert_eq!(parse_inline_formatting("*é*"), "<em>é</em>");
    assert_eq!(parse_inline_formatting("日本[語](ü)*✓*"), "日本<a href=\"ü\">語</a><em>✓</em>");
    assert_eq!(parse_inline_formatting("é[a](b)"), "é<a href=\"b\">a</a>");
}

#[test]
fn one_pass_at_a_time() {
    let v = chars("***a*** **b** *c*");
    let v = emphasize(v, Emphasis::StrongEm);
    assert_eq!(text(&v), "<strong><em>a</em></strong> **b** *c*");
    let v = emphasize(v, Emphasis::Strong);
    assert_eq!(text(&v), "<strong><em>a</em></strong> <strong>b</strong> *c*");
    let v = emphasize(v, Emphasis::Em);
    assert_eq!(text(&v), "<strong><em>a</em></strong> <strong>b</strong> <em>c</em>");
}

#[test]
fn markers_and_tags_of_each_kind() {
    assert_eq!(text(&Emphasis::StrongEm.delimiter_chars()), "***");
    assert_eq!(text(&Emphasis::Strong.delimiter_chars()), "**");
    assert_eq!(text(&Emphasis::Em.delimiter_chars()), "*");
    assert_eq!(text(&Emphasis::StrongEm.opening_chars()), "<strong><em>");
    assert_eq!(text(&Emphasis::Strong.opening_chars()), "<strong>");
    assert_eq!(text(&Emphasis::Em.opening_chars()), "<em>");
    assert_eq!(text(&Emphasis::StrongEm.closing_chars()), "</em></strong>");
    assert_eq!(text(&Emphasis::Strong.closing_chars()), "</strong>");
    assert_eq!(text(&Emphasis::Em.closing_chars()), "</em>");
}

#[test]
fn pairs_and_links_by_position() {
    assert_eq!(find_pair(&chars("a*b*c"), &chars("*")), Some((1, 3)));
    assert_eq!(find_pair(&chars("a**b"), &chars("*")), Some((1, 2)));
    assert_eq!(find_pair(&chars("a***b"), &chars("**")), None);
    assert_eq!(find_pair(&chars("a****b"), &chars("**")), Some((1, 3)));
    assert_eq!(find_pair(&chars("a*b"), &chars("*")), None);
    assert_eq!(find_link(&chars("x[a](b)")), Some((1, 3, 6)));
    assert_eq!(find_link(&chars("[a]](b)")), None);
    assert_eq!(find_link(&chars("](")), None);
    assert_eq!(find_link(&chars("[]()")), Some((0, 1, 3)));
    assert_eq!(find_link(&chars("[](")), None);
}

#[test]
fn no_pair_and_no_link_is_left() {
    let alphabet = ['*', '[', ']', '(', ')', 'a'];
    for len in 0..=5 {
        for w in words(&alphabet, len) {
            let out = format_chars(&chars(&w));
            assert_eq!(find_pair(&out, &chars("*")), None, "{:?}", w);
        }
    }
}

#[test]
fn text_without_delimiters_is_its_own_html() {
    let alphabet = ['a', ' ', '<', '>', '#', '-', '.', 'é'];
    for len in 0..=5 {
        for w in words(&alphabet, len) {
            assert_eq!(parse_inline_formatting(&w), w);
        }
    }
}

#[test]
fn one_marker_and_no_bracket_is_left_alone() {
    let alphabet = ['a', ' ', ']', '(', ')'];
    for len in 0..=4 {
        for w in words(&alphabet, len) {
            for at in 0..=len {
                let mut s = w.clone();
                s.insert(at, '*');
                assert_eq!(parse_inline_formatting(&s), s);
            }
        }
    }
}

#[test]
fn plain_text_between_two_markers() {
    let alphabet = ['a', ' ', '<', 'é'];
    let kinds = [
        ("***", "<strong><em>", "</em></strong>"),
        ("**", "<strong>", "</strong>"),
        ("*", "<em>", "</em>"),
    ];
    for len in 0..=5 {
        for w in words(&alphabet, len) {
            for (marker, opening, closing) in kinds {
                assert_eq!(
                    parse_inline_formatting(&format!("{}{}{}", marker, w, marker)),
                    format!("{}{}{}", opening, w, closing)
                );
            }
        }
    }
}

#[test]
fn link_alone_with_a_plain_address() {
    let labels = ['*', 'a', '(', ')'];
    let addresses = ['a', '/', '.'];
    for len in 0..=5 {
        for label in words(&labels, len) {
            let html = text(&emphasize(
                emphasize(emphasize(chars(&label), Emphasis::StrongEm), Emphasis::Strong),
                Emphasis::Em,
            ));
            for url in words(&addresses, 2) {
                assert_eq!(
                    parse_inline_formatting(&format!("[{}]({})", label, url)),
                    format!("<a href=\"{}\">{}</a>", url, html)
                );
            }
        }
    }
}

#[test]
fn agrees_with_string_search() {
    let alphabet = ['*', '[', ']', '(', ')', 'a'];
    for len in 0..=6 {
        for w in words(&alphabet, len) {
            assert_eq!(parse_inline_formatting(&w), by_string_search(&w), "{:?}", w);
        }
    }
}

#[test]
fn agrees_with_string_search_on_stars() {
    let alphabet = ['*', 'a', ' '];
    for len in 0..=10 {
        for w in words(&alphabet, len) {
            assert_eq!(parse_inline_formatting(&w), by_string_search(&w), "{:?}", w);
        }
    }
}
