use pgvm::text::chars_of;
use pgvm::text::contains;
use pgvm::text::is_digit_char;
use pgvm::text::is_word_char;
use pgvm::text::lex_below;
use pgvm::text::parse_number;
use pgvm::text::push_i32;
use pgvm::text::push_nat;
use pgvm::text::same_chars;
use pgvm::text::string_of;

fn cs(s: &str) -> Vec<char> {
    s.chars().collect()
}

#[test]
fn strings_and_characters() {
    assert_eq!(chars_of("héllo"), vec!['h', 'é', 'l', 'l', 'o']);
    assert!(chars_of("").is_empty());
    assert_eq!(string_of(&cs("go1.19")), "go1.19");
    assert_eq!(string_of(&Vec::new()), "");
    assert_eq!(string_of(&chars_of("数量 3")), "数量 3");
    assert!(same_chars(&cs("abc"), &cs("abc")));
    assert!(!same_chars(&cs("abc"), &cs("abd")));
    assert!(!same_chars(&cs("abc"), &cs("ab")));
}

#[test]
fn decimal_text() {
    let mut out = cs("v");
    push_i32(&mut out, 0);
    push_i32(&mut out, -45);
    push_i32(&mut out, 1200);
    assert_eq!(string_of(&out), "v0-451200");
    let mut out = Vec::new();
    push_i32(&mut out, i32::MIN);
    assert_eq!(string_of(&out), "-2147483648");
    let mut out = Vec::new();
    push_nat(&mut out, u64::MAX);
    assert_eq!(string_of(&out), "18446744073709551615");
    let mut out = Vec::new();
    push_nat(&mut out, 10);
    assert_eq!(string_of(&out), "10");
}

#[test]
fn numbers_in_text() {
    let s = cs("go0120x");
    assert_eq!(parse_number(&s, 2, 6), Some(120));
    assert_eq!(parse_number(&s, 2, 3), Some(0));
    assert_eq!(parse_number(&s, 3, 3), None);
    assert_eq!(parse_number(&s, 2, 7), None);
    assert_eq!(parse_number(&s, 0, 2), None);
    let s = cs("2147483647");
    assert_eq!(parse_number(&s, 0, 10), Some(i32::MAX));
    let s = cs("2147483648");
    assert_eq!(parse_number(&s, 0, 10), None);
    let s = cs("00000000000000000001");
    assert_eq!(parse_number(&s, 0, 20), Some(1));
    let s = cs("99999999999999999999999999");
    assert_eq!(parse_number(&s, 0, 26), None);
    let s = cs("-5");
    assert_eq!(parse_number(&s, 0, 2), None);
}

#[test]
fn substrings() {
    assert!(contains(&cs("go1.19.linux-amd64"), &cs("amd64")));
    assert!(contains(&cs("go1.19.linux-amd64"), &cs("go")));
    assert!(contains(&cs("go1.19.linux-amd64"), &cs("")));
    assert!(contains(&cs(""), &cs("")));
    assert!(contains(&cs("aab"), &cs("ab")));
    assert!(!contains(&cs("go1.19.linux-amd64"), &cs("amd65")));
    assert!(!contains(&cs("ab"), &cs("abc")));
    assert!(!contains(&cs(""), &cs("a")));
}

#[test]
fn character_classes() {
    for c in ['0', '5', '9'] {
        assert!(is_digit_char(c) && is_word_char(c));
    }
    for c in ['a', 'z', 'A', 'Z', '_'] {
        assert!(!is_digit_char(c) && is_word_char(c));
    }
    for c in ['.', '-', ' ', '/', ':', '@', '[', '`', '{', 'é', '٣'] {
        assert!(!is_digit_char(c) && !is_word_char(c));
    }
}

#[test]
fn dictionary_order() {
    let words = ["", "a", "aa", "ab", "b", "ba", "é"];
    for (i, a) in words.iter().enumerate() {
        for (j, b) in words.iter().enumerate() {
            assert_eq!(lex_below(&cs(a), &cs(b)), i < j, "{} {}", a, b);
            assert_eq!(lex_below(&cs(a), &cs(b)), a < b);
        }
    }
}

#[test]
fn signed_numbers() {
    for text in [
        "0", "7", "+7", "-7", "-0", "+0", "007", "2147483647", "+2147483647", "-2147483648",
        "2147483648", "-2147483649", "99999999999999999999", "", "+", "-", "--1", "+-1", "1 ",
        " 1", "1.5", "0x10", "١٢", "12a", "a12", "1_000",
    ] {
        assert_eq!(pgvm::text::parse_i32(text), text.parse::<i32>().ok(), "{:?}", text);
    }
    assert_eq!(pgvm::text::parse_i32("-2147483648"), Some(i32::MIN));
    assert_eq!(pgvm::text::parse_i32("2147483648"), None);
}
