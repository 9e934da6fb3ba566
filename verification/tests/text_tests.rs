use arx_quit::text::{
    append_str, byte_len, chars_of, check_truncate, contains_chars, decimal_string, digit_to_char,
    first_words, fits_in, is_white_char, lex_less, line_ranges, parse_u32, parse_u64, push_decimal,
    push_padded_left, push_padded_right, push_spaces, push_truncated, same_text, split_trimmed,
    starts_with_str, trimmed_range,
};

fn chars(s: &str) -> Vec<char> {
    s.chars().collect()
}

#[test]
fn characters_and_equality() {
    assert_eq!(chars_of("a\u{e9}b"), vec!['a', '\u{e9}', 'b']);
    assert!(same_text("Finder", "Finder"));
    assert!(!same_text("Finder", "finder"));
    assert!(!same_text("Finder", "Finde"));
    let mut s = String::from("ab");
    append_str(&mut s, "cd");
    assert_eq!(s, "abcd");
}

#[test]
fn substring_search() {
    assert!(contains_chars(&chars("google chrome"), &chars("chrome")));
    assert!(contains_chars(&chars("abc"), &chars("")));
    assert!(!contains_chars(&chars("abc"), &chars("abcd")));
    assert!(!contains_chars(&chars("aab"), &chars("abb")));
    assert!(contains_chars(&chars("aaab"), &chars("aab")));
}

#[test]
fn lexicographic_order_matches_str_order() {
    let words = ["", "a", "ab", "b", "abc", "\u{e9}", "z", "Z", "ba"];
    for x in words {
        for y in words {
            assert_eq!(lex_less(&chars(x), &chars(y)), x < y, "{:?} < {:?}", x, y);
        }
    }
}

#[test]
fn decimals_and_padding() {
    assert_eq!(decimal_string(0), "0");
    assert_eq!(decimal_string(907), "907");
    assert_eq!(decimal_string(u64::MAX), u64::MAX.to_string());
    let mut s = String::from("n=");
    push_decimal(&mut s, 42);
    assert_eq!(s, "n=42");
    for d in 0..10u64 {
        assert_eq!(digit_to_char(d), char::from_digit(d as u32, 10).unwrap());
    }
    let mut s = String::new();
    push_padded_right(&mut s, "ab", 5);
    push_padded_left(&mut s, "cd", 4);
    push_padded_right(&mut s, "\u{e9}\u{e9}", 3);
    push_padded_left(&mut s, "toolong", 3);
    assert_eq!(s, format!("{:<5}{:>4}{:<3}{:>3}", "ab", "cd", "\u{e9}\u{e9}", "toolong"));
    let mut s = String::from("x");
    push_spaces(&mut s, 3);
    assert_eq!(s, "x   ");
}

#[test]
fn white_space_and_trimming() {
    for c in ['\t', '\n', '\u{b}', '\u{c}', '\r', ' ', '\u{85}', '\u{a0}', '\u{2003}', '\u{3000}', 'a', '0', '\u{200b}'] {
        assert_eq!(is_white_char(c), c.is_whitespace(), "{:?}", c);
    }
    let s = chars("  [ hello  world ]  ");
    assert_eq!(trimmed_range(&s, 0, s.len()), "[ hello  world ]");
    assert_eq!(trimmed_range(&s, 3, 16), "hello  world");
    assert_eq!(trimmed_range(&s, 0, 2), "");
}

#[test]
fn splitting_on_a_separator() {
    let sep = chars(", ");
    let got = split_trimmed(&chars("a, b ,c, , d"), &sep);
    let expected: Vec<String> = "a, b ,c, , d".split(", ").map(|p| p.trim().to_string()).collect();
    assert_eq!(got, expected);
    assert_eq!(split_trimmed(&chars(""), &sep), vec![""]);
    assert_eq!(split_trimmed(&chars("x"), &chars("xx")), vec!["x"]);
    assert_eq!(split_trimmed(&chars("xxx"), &chars("xx")), vec!["", "x"]);
}

#[test]
fn words_up_to_a_limit() {
    let s = chars("  one two\tthree  four ");
    let (w, more) = first_words(&s, 0, s.len(), 3);
    assert_eq!(w, vec![chars("one"), chars("two"), chars("three")]);
    assert!(more);
    let (w, more) = first_words(&s, 0, s.len(), 4);
    assert_eq!(w.len(), 4);
    assert!(!more);
    let (w, more) = first_words(&s, 0, 5, 10);
    assert_eq!(w, vec![chars("one")]);
    assert!(!more);
}

#[test]
fn numbers_parse_as_the_standard_parser_does() {
    for text in [
        "0", "42", "+42", "007", "", "+", "-1", "4a", " 1", "18446744073709551615",
        "18446744073709551616", "4294967295", "4294967296", "++1",
    ] {
        assert_eq!(parse_u64(&chars(text)), text.parse::<u64>().ok(), "{:?}", text);
        assert_eq!(parse_u32(&chars(text)), text.parse::<u32>().ok(), "{:?}", text);
    }
}

#[test]
fn cutting_to_bytes() {
    assert!(check_truncate("short", 24));
    assert!(check_truncate("abcdef", 3));
    assert!(!check_truncate("abcdef", 0));
    assert!(check_truncate("", 0));
    assert!(check_truncate("a\u{e9}bc", 2));
    assert!(!check_truncate("a\u{e9}bc", 3));
    assert!(check_truncate("a\u{e9}bc", 4));
    assert!(fits_in(&chars("\u{e9}\u{e9}"), 4));
    assert!(!fits_in(&chars("\u{e9}\u{e9}"), 3));
    let mut out = String::from("[");
    push_truncated(&mut out, "abcdef", 4);
    push_truncated(&mut out, "abc", 4);
    assert_eq!(out, "[abc\u{2026}abc");
    assert_eq!(byte_len("a\u{e9}\u{1f512}"), "a\u{e9}\u{1f512}".len());
}

#[test]
fn lines_and_prefixes() {
    let text = "one\r\ntwo\n\nthree";
    let s = chars(text);
    let got: Vec<String> = line_ranges(&s).iter().map(|&(a, b)| s[a..b].iter().collect()).collect();
    let expected: Vec<String> = text.lines().map(|l| l.to_string()).collect();
    assert_eq!(got, expected);
    let s = chars("a\n");
    assert_eq!(line_ranges(&s).len(), "a\n".lines().count());
    assert!(line_ranges(&chars("")).is_empty());
    assert!(starts_with_str("com.apple.Safari", "com.apple."));
    assert!(!starts_with_str("com.appl", "com.apple."));
    assert!(starts_with_str("x", ""));
}
