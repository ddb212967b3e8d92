use md_forge::lines::split_lines;
use md_forge::text::{
    chars_of, find, has_prefix, is_ascii_digit, is_blank, is_match_at, is_white_space, join,
    slice, string_of, strip, trim,
};

fn chars(s: &str) -> Vec<char> {
    s.chars().collect()
}

fn text(v: &[char]) -> String {
    v.iter().collect()
}

/// Every string over `alphabet` of length `len`.
fn words(alphabet: &[char], len: usize) -> Vec<String> {
    let mut out = vec![String::new()];
    for _ in 0..len {
        let mut next = Vec::new();
        for w in &out {
            for c in alphabet {
                let mut longer = w.clone();
                longer.push(*c);
                next.push(longer);
            }
        }
        out = next;
    }
    out
}

#[test]
fn chars_and_back() {
    assert_eq!(chars_of("héllo ✓"), chars("héllo ✓"));
    assert_eq!(chars_of(""), Vec::<char>::new());
    assert_eq!(string_of(&chars("héllo ✓")), "héllo ✓");
    assert_eq!(string_of(&Vec::new()), "");
    assert_eq!(string_of(&chars_of("a\u{10FFFF}b")), "a\u{10FFFF}b");
}

#[test]
fn white_space_is_what_std_takes_for_it() {
    let mut n = 0;
    for code in 0..=0x10FFFFu32 {
        if let Some(c) = char::from_u32(code) {
            assert_eq!(is_white_space(c), c.is_whitespace(), "U+{:04X}", code);
            if is_white_space(c) {
                n += 1;
            }
        }
    }
    assert_eq!(n, 25);
}

#[test]
fn ascii_digits() {
    for code in 0..=0x10FFFFu32 {
        if let Some(c) = char::from_u32(code) {
            assert_eq!(is_ascii_digit(c), c.is_ascii_digit(), "U+{:04X}", code);
        }
    }
}

#[test]
fn blank_lines() {
    assert!(is_blank(&chars("")));
    assert!(is_blank(&chars(" \t\r\u{a0}\u{3000}")));
    assert!(!is_blank(&chars("  x ")));
    assert!(!is_blank(&chars("\u{200b}")));
}

#[test]
fn trim_takes_white_space_off_both_ends() {
    assert_eq!(text(&trim(&chars("  a b \t"))), "a b");
    assert_eq!(text(&trim(&chars("a"))), "a");
    assert_eq!(text(&trim(&chars(" \u{2003} "))), "");
    assert_eq!(text(&trim(&chars(""))), "");
    assert_eq!(text(&trim(&chars("\u{a0}x\u{3000}"))), "x");
}

#[test]
fn trim_agrees_with_std() {
    let alphabet = [' ', '\t', 'a', '\u{a0}', '\r'];
    for len in 0..=5 {
        for w in words(&alphabet, len) {
            assert_eq!(text(&trim(&chars(&w))), w.trim(), "{:?}", w);
            assert_eq!(is_blank(&chars(&w)), w.trim().is_empty(), "{:?}", w);
        }
    }
}

#[test]
fn slice_and_join() {
    let v = chars("abcdef");
    assert_eq!(text(&slice(&v, 1, 4)), "bcd");
    assert_eq!(text(&slice(&v, 2, 2)), "");
    let parts = vec![chars("a"), chars("bc"), chars(""), chars("d")];
    assert_eq!(text(&join(&parts, 0, 4, &chars(", "))), "a, bc, , d");
    assert_eq!(text(&join(&parts, 1, 2, &chars(", "))), "bc");
    assert_eq!(text(&join(&parts, 1, 1, &chars(", "))), "");
    assert_eq!(text(&join(&parts, 1, 3, &chars(""))), "bc");
}

#[test]
fn find_gives_the_first_match() {
    let v = chars("a**b***c**");
    assert_eq!(find(&v, &chars("**"), 0), Some(1));
    assert_eq!(find(&v, &chars("**"), 2), Some(4));
    assert_eq!(find(&v, &chars("**"), 5), Some(5));
    assert_eq!(find(&v, &chars("**"), 6), Some(8));
    assert_eq!(find(&v, &chars("**"), 9), None);
    assert_eq!(find(&v, &chars("***"), 0), Some(4));
    assert_eq!(find(&v, &chars("x"), 0), None);
    assert_eq!(find(&v, &chars("a**b***c**d"), 0), None);
    assert_eq!(find(&v, &chars(""), 3), Some(3));
    assert_eq!(find(&v, &chars(""), 10), Some(10));
    assert_eq!(find(&v, &chars(""), 11), None);
    assert_eq!(find(&v, &chars("**"), 100), None);
    assert!(is_match_at(&v, &chars("b*"), 3));
    assert!(!is_match_at(&v, &chars("b*"), 2));
    assert!(!is_match_at(&v, &chars("**"), 9));
    assert!(has_prefix(&v, &chars("a*")));
    assert!(has_prefix(&v, &chars("")));
    assert!(!has_prefix(&v, &chars("*")));
    assert!(!has_prefix(&chars("a"), &chars("ab")));
}

#[test]
fn find_agrees_with_std() {
    let alphabet = ['*', 'a', '.'];
    let patterns = ["*", "**", "***", ". ", "a*", "."];
    for len in 0..=6 {
        for w in words(&alphabet, len) {
            let v = chars(&w);
            for p in patterns {
                for from in 0..=len {
                    let expected = w[from..].find(p).map(|i| i + from);
                    assert_eq!(find(&v, &chars(p), from), expected, "{:?} {:?} {}", w, p, from);
                }
            }
        }
    }
}

#[test]
fn strip_takes_the_marker_off_once() {
    assert_eq!(text(&strip(&chars("- - a"), &chars("- "))), "- a");
    assert_eq!(text(&strip(&chars("> > > a"), &chars("> "))), "> > a");
    assert_eq!(text(&strip(&chars("- a"), &chars("- "))), "a");
    assert_eq!(text(&strip(&chars("- a - b"), &chars("- "))), "a - b");
    assert_eq!(text(&strip(&chars(" - a"), &chars("- "))), " - a");
    assert_eq!(text(&strip(&chars("-"), &chars("- "))), "-");
    assert_eq!(text(&strip(&chars("- "), &chars("- "))), "");
    assert_eq!(text(&strip(&chars("abc"), &chars(""))), "abc");
}

#[test]
fn strip_agrees_with_std() {
    let alphabet = ['-', ' ', 'a', '>'];
    for len in 0..=6 {
        for w in words(&alphabet, len) {
            for marker in ["- ", "> "] {
                assert_eq!(
                    text(&strip(&chars(&w), &chars(marker))),
                    w.strip_prefix(marker).unwrap_or(&w),
                    "{:?}",
                    w
                );
            }
        }
    }
}

fn lines_as_strings(s: &str) -> Vec<String> {
    split_lines(&chars(s)).iter().map(|l| text(l)).collect()
}

#[test]
fn lines_end_at_line_feeds() {
    assert_eq!(lines_as_strings(""), Vec::<String>::new());
    assert_eq!(lines_as_strings("a"), vec!["a"]);
    assert_eq!(lines_as_strings("a\n"), vec!["a"]);
    assert_eq!(lines_as_strings("a\nb"), vec!["a", "b"]);
    assert_eq!(lines_as_strings("a\r\nb\r\n"), vec!["a", "b"]);
    assert_eq!(lines_as_strings("\n"), vec![""]);
    assert_eq!(lines_as_strings("\n\n"), vec!["", ""]);
    assert_eq!(lines_as_strings("a\n\nb"), vec!["a", "", "b"]);
    assert_eq!(lines_as_strings("a\rb\n"), vec!["a\rb"]);
    assert_eq!(lines_as_strings("a\r\r\n"), vec!["a\r"]);
    assert_eq!(lines_as_strings("a\r"), vec!["a\r"]);
    assert_eq!(lines_as_strings("\r\n"), vec![""]);
}

#[test]
fn lines_agree_with_std() {
    let alphabet = ['\n', '\r', 'a', ' '];
    for len in 0..=7 {
        for w in words(&alphabet, len) {
            let expected: Vec<String> = w.lines().map(|l| l.to_string()).collect();
            assert_eq!(lines_as_strings(&w), expected, "{:?}", w);
        }
    }
}
