use cmdsift::text::{
    chars_of, find_in_range, is_white_space_char, parse_i32_chars, parse_u64_chars,
    push_decimal, push_joined, push_signed, split_chars, string_of, trim_chars, trim_end_chars,
};

fn chars(s: &str) -> Vec<char> {
    s.chars().collect()
}

#[test]
fn decimal_formatting() {
    let mut s = String::from("n=");
    push_decimal(&mut s, 0);
    push_decimal(&mut s, 1234567890);
    assert_eq!(s, "n=01234567890");
    let mut t = String::new();
    push_decimal(&mut t, u64::MAX);
    assert_eq!(t, u64::MAX.to_string());
}

#[test]
fn signed_formatting() {
    for n in [0i64, 7, -7, i64::MAX, i64::MIN] {
        let mut s = String::new();
        push_signed(&mut s, n);
        assert_eq!(s, n.to_string());
    }
}

#[test]
fn integer_parsing_agrees_with_std() {
    for text in ["0", "42", "+42", "-42", "", "+", "-", "2147483647", "2147483648",
        "-2147483648", "-2147483649", "007", "1 ", "x1", "18446744073709551615",
        "18446744073709551616"] {
        assert_eq!(parse_u64_chars(&chars(text)), text.parse::<u64>().ok(), "{text:?}");
        assert_eq!(parse_i32_chars(&chars(text)), text.parse::<i32>().ok(), "{text:?}");
    }
}

#[test]
fn trimming_agrees_with_std() {
    for text in ["", "  ", " a b ", "\t\nx\r\n", "\u{3000}wide\u{a0}", "\u{200b}zw"] {
        assert_eq!(string_of(&trim_chars(&chars(text))), text.trim(), "{text:?}");
        assert_eq!(string_of(&trim_end_chars(&chars(text))), text.trim_end(), "{text:?}");
    }
    assert!(is_white_space_char('\u{85}'));
    assert!(!is_white_space_char('\u{200b}'));
}

#[test]
fn splitting_agrees_with_std() {
    for text in ["", "a", "a\nb", "\n", "a\n\nb\n"] {
        let pieces = split_chars(&chars(text), '\n');
        let expected: Vec<String> = text.split('\n').map(|p| p.to_string()).collect();
        assert_eq!(pieces, expected, "{text:?}");
    }
}

#[test]
fn joining_a_range() {
    let parts = vec!["a".to_string(), "b".to_string(), "c".to_string()];
    let mut s = String::from(">");
    push_joined(&mut s, &parts, 1, 3, ',');
    assert_eq!(s, ">b,c");
    let mut e = String::new();
    push_joined(&mut e, &parts, 2, 2, ',');
    assert_eq!(e, "");
}

#[test]
fn finding_in_a_range() {
    let hay = chars("abcabc");
    assert_eq!(find_in_range(&hay, 0, 6, &chars("bc")), Some(1));
    assert_eq!(find_in_range(&hay, 2, 6, &chars("bc")), Some(2));
    assert_eq!(find_in_range(&hay, 0, 2, &chars("bc")), None);
    assert_eq!(find_in_range(&hay, 3, 3, &chars("")), Some(0));
}

#[test]
fn chars_round_trip() {
    let text = "héllo ✓";
    assert_eq!(string_of(&chars_of(text)), text);
}
