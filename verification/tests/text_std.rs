use pxdocs::text::{contains, equal_ignoring_ascii_case, join_chars, split_lines, split_words, trim_chars, white};

fn chars(s: &str) -> Vec<char> {
    s.chars().collect()
}

fn text(v: &[char]) -> String {
    v.iter().collect()
}

#[test]
fn whitespace_matches_std_for_every_char() {
    for code in 0u32..=0x10FFFF {
        if let Some(c) = char::from_u32(code) {
            assert_eq!(white(c), c.is_whitespace(), "U+{code:04X}");
        }
    }
}

#[test]
fn trim_matches_std() {
    for s in ["", "  ", " a ", "\u{3000}x\u{85}", "a b", "\t\n x y \r\n", "\u{200b}x"] {
        assert_eq!(text(&trim_chars(&chars(s))), s.trim());
    }
}

#[test]
fn lines_match_std() {
    for s in ["", "a", "a\n", "a\nb", "a\r\nb\r\n", "\n\n", "a\r", "a\rb\n", "\r\n", "x\n\r\ny"] {
        let ours: Vec<String> = split_lines(&chars(s)).iter().map(|l| text(l)).collect();
        let std: Vec<String> = s.lines().map(String::from).collect();
        assert_eq!(ours, std, "{s:?}");
    }
}

#[test]
fn words_match_std() {
    for s in ["", "  ", "a", " a  b ", "a\u{a0}b\tc\n", "react query"] {
        let ours: Vec<String> = split_words(&chars(s)).iter().map(|w| text(w)).collect();
        let std: Vec<String> = s.split_whitespace().map(String::from).collect();
        assert_eq!(ours, std, "{s:?}");
    }
}

#[test]
fn contains_matches_std() {
    for (h, n) in [("abc", ""), ("", ""), ("", "a"), ("abc", "bc"), ("abc", "abcd"), ("aab", "ab"), ("abc", "ac")] {
        assert_eq!(contains(&chars(h), &chars(n)), h.contains(n), "{h:?} {n:?}");
    }
}

#[test]
fn ascii_case_matches_std() {
    for (a, b) in [("Status", "status"), ("STATUS", "status"), ("Stätus", "STäTUS"), ("Stätus", "STÄTUS"), ("a", "ab")] {
        assert_eq!(equal_ignoring_ascii_case(&chars(a), &chars(b)), a.eq_ignore_ascii_case(b));
    }
}

#[test]
fn join_matches_std() {
    let parts = vec![chars("a"), chars(""), chars("bc")];
    assert_eq!(text(&join_chars(&parts, &chars(" "))), ["a", "", "bc"].join(" "));
    assert_eq!(text(&join_chars(&vec![], &chars(" "))), "");
}
