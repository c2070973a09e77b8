use cargo_team_tools::text::{
    blank, chars_of, decimal_chars, find_chars, is_whitespace, lines_of, padded_decimal_chars,
    signed_decimal_chars, trimmed, words_of,
};

fn s(v: &[char]) -> String {
    v.iter().collect()
}

#[test]
fn whitespace_matches_std_for_every_char() {
    for u in 0u32..=0x10FFFF {
        if let Some(c) = char::from_u32(u) {
            assert_eq!(is_whitespace(c), c.is_whitespace(), "U+{u:04X}");
        }
    }
}

#[test]
fn lines_match_std() {
    for text in [
        "", "a", "a\n", "a\nb", "\n", "a\n\n", "a\r\nb\r\n", "a\rb", "x\r", "\r\n\r\n", "one\ntwo\r\nthree",
    ] {
        let ours: Vec<String> = lines_of(&chars_of(text)).iter().map(|l| s(l)).collect();
        let std: Vec<String> = text.lines().map(str::to_owned).collect();
        assert_eq!(ours, std, "{text:?}");
    }
}

#[test]
fn words_match_std() {
    for text in ["", "  ", "a", " a b  c ", "160000 commit abc\tsrc/tools/cargo\n", "\u{3000}x\u{a0}y"] {
        let ours: Vec<String> = words_of(&chars_of(text)).iter().map(|w| s(w)).collect();
        let std: Vec<String> = text.split_whitespace().map(str::to_owned).collect();
        assert_eq!(ours, std, "{text:?}");
    }
}

#[test]
fn trimming_and_blank_lines() {
    assert_eq!(trimmed("  hi there \n"), "hi there");
    assert_eq!(trimmed("\u{2003}x\u{2003}"), "x");
    assert!(blank(&chars_of(" \t\r\n")));
    assert!(!blank(&chars_of(" x ")));
}

#[test]
fn find_is_first_occurrence() {
    let hay = chars_of("abcabc");
    assert_eq!(find_chars(&hay, &chars_of("bc")), Some(1));
    assert_eq!(find_chars(&hay, &chars_of("")), Some(0));
    assert_eq!(find_chars(&hay, &chars_of("cb")), None);
    assert_eq!(find_chars(&chars_of("ab"), &chars_of("abc")), None);
}

#[test]
fn decimal_notation() {
    assert_eq!(s(&decimal_chars(0)), "0");
    assert_eq!(s(&decimal_chars(1234)), "1234");
    assert_eq!(s(&decimal_chars(u64::MAX)), u64::MAX.to_string());
    assert_eq!(s(&signed_decimal_chars(-45)), "-45");
    assert_eq!(s(&signed_decimal_chars(i64::MIN)), i64::MIN.to_string());
    assert_eq!(s(&padded_decimal_chars(7, 2)), "07");
    assert_eq!(s(&padded_decimal_chars(2015, 4)), "2015");
    assert_eq!(s(&padded_decimal_chars(12345, 4)), "12345");
}
