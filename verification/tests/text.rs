use winnow::text::{chars_of, is_whitespace, lines, split_whitespace, trim};

fn chars(s: &str) -> Vec<char> {
    s.chars().collect()
}

fn strings(v: Vec<Vec<char>>) -> Vec<String> {
    v.into_iter().map(|w| w.into_iter().collect()).collect()
}

#[test]
fn chars_of_keeps_order() {
    assert_eq!(chars_of("aé b"), vec!['a', 'é', ' ', 'b']);
    assert!(chars_of("").is_empty());
}

#[test]
fn split_whitespace_uses_unicode_white_space() {
    assert_eq!(strings(split_whitespace(&chars("a\u{3000}b\u{a0}c"))), vec!["a", "b", "c"]);
    assert_eq!(strings(split_whitespace(&chars("a\u{200b}b"))), vec!["a\u{200b}b"]);
}

#[test]
fn split_whitespace_words() {
    assert_eq!(strings(split_whitespace(&chars("  From abc\tdef \n g "))), vec!["From", "abc", "def", "g"]);
    assert!(split_whitespace(&chars(" \t\n ")).is_empty());
    assert_eq!(strings(split_whitespace(&chars("one"))), vec!["one"]);
}

#[test]
fn lines_like_str_lines() {
    for text in ["a\nb\r\n\nc", "a\n", "\n", "", "x\r", "p\r\nq\r\n"] {
        let expected: Vec<String> = text.lines().map(|l| l.to_string()).collect();
        assert_eq!(strings(lines(&chars(text))), expected, "{:?}", text);
    }
}

#[test]
fn trim_like_str_trim() {
    for text in ["  a b  ", "\n\t", "", "x", " 4b825dc642cb6eb9a060e54bf8d69288fbee4904\n"] {
        let got: String = trim(&chars(text)).into_iter().collect();
        assert_eq!(got, text.trim());
    }
}

#[test]
fn whitespace_is_std_whitespace() {
    for u in 0..0x110000u32 {
        if let Some(c) = char::from_u32(u) {
            assert_eq!(is_whitespace(c), c.is_whitespace(), "{:x}", u);
        }
    }
}
