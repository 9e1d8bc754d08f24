use breaky::text::{
    chars_of, copy_chars, decimal_of, find_char, has_text, is_before, parse_whole, part_of,
    same_chars, spells, starts_with, string_of, trim, WholeError,
};

fn chars(s: &str) -> Vec<char> {
    chars_of(s)
}

#[test]
fn characters_and_strings_round_trip() {
    assert_eq!(chars("aé▶"), vec!['a', 'é', '▶']);
    assert_eq!(string_of(&chars("aé▶")), "aé▶");
    assert_eq!(string_of(&[]), "");
    assert_eq!(copy_chars(&chars("xy")), vec!['x', 'y']);
}

#[test]
fn pushing_appends_one_character() {
    assert_eq!(string_of(&['b', 'r', 'k']), "brk");
    assert_eq!(string_of(&['b', 'r', 'k']).len(), 3);
}

#[test]
fn comparing_texts() {
    assert!(spells(&chars("wq"), "wq"));
    assert!(!spells(&chars("wq"), "w"));
    assert!(!spells(&chars("w"), "wq"));
    assert!(same_chars(&chars("ab"), &chars("ab")));
    assert!(!same_chars(&chars("ab"), &chars("ac")));
    assert!(has_text("x"));
    assert!(!has_text(""));
}

#[test]
fn parts_and_prefixes() {
    assert_eq!(part_of(&chars("bank load"), 5, 9), chars("load"));
    assert_eq!(part_of(&chars("bank"), 4, 4), chars(""));
    assert!(starts_with(&chars("bank load"), "bank "));
    assert!(!starts_with(&chars("bank"), "bank "));
    assert!(starts_with(&chars("bank"), ""));
}

#[test]
fn first_occurrence() {
    assert_eq!(find_char(&chars("a=b=c"), '='), Some(1));
    assert_eq!(find_char(&chars("abc"), '='), None);
    assert_eq!(find_char(&[], '='), None);
}

#[test]
fn trimming_takes_unicode_white_space() {
    assert_eq!(trim(&chars("  bpm = 3\t\n")), chars("bpm = 3"));
    assert_eq!(trim(&chars("\u{a0}\u{2003}x\u{3000}")), chars("x"));
    assert_eq!(trim(&chars("   ")), chars(""));
    assert_eq!(trim(&trim(&chars(" a b "))), chars("a b"));
}

#[test]
fn trimming_agrees_with_the_standard_library() {
    for s in ["", " ", "\u{85}q\u{85}", "a\u{200b}", "\u{1680}r\u{205f}", "\r\nx y\u{2028}"] {
        assert_eq!(string_of(&trim(&chars(s))), s.trim());
    }
}

#[test]
fn decimal_numerals() {
    assert_eq!(decimal_of(0), "0");
    assert_eq!(decimal_of(9), "9");
    assert_eq!(decimal_of(10), "10");
    assert_eq!(decimal_of(1907), "1907");
    assert_eq!(decimal_of(u128::MAX), u128::MAX.to_string());
}

#[test]
fn whole_numbers_are_read() {
    assert_eq!(parse_whole(&chars("16")), Ok(16));
    assert_eq!(parse_whole(&chars("+7")), Ok(7));
    assert_eq!(parse_whole(&chars("0004")), Ok(4));
    assert_eq!(parse_whole(&chars("4294967295")), Ok(u32::MAX));
}

#[test]
fn whole_number_errors() {
    assert_eq!(parse_whole(&chars("")), Err(WholeError::Empty));
    assert_eq!(parse_whole(&chars("+")), Err(WholeError::InvalidDigit));
    assert_eq!(parse_whole(&chars("-1")), Err(WholeError::InvalidDigit));
    assert_eq!(parse_whole(&chars("1.5")), Err(WholeError::InvalidDigit));
    assert_eq!(parse_whole(&chars("4294967296")), Err(WholeError::TooLarge));
    assert_eq!(parse_whole(&chars("99999999999x")), Err(WholeError::TooLarge));
}

#[test]
fn whole_numbers_agree_with_the_standard_library() {
    for s in ["", "+", "-", "++1", "12", "1 2", "4294967295", "4294967296", "a", "007", "+0"] {
        match (parse_whole(&chars(s)), s.parse::<u32>()) {
            (Ok(a), Ok(b)) => assert_eq!(a, b),
            (Err(a), Err(b)) => assert_eq!(a.message(), b.to_string()),
            _ => panic!("they differ on {}", s),
        }
    }
}

#[test]
fn decimal_numerals_read_back() {
    for n in [0u32, 1, 10, 99, 320, 65536, u32::MAX] {
        assert_eq!(parse_whole(&chars(&decimal_of(n as u128))), Ok(n));
    }
}

#[test]
fn dictionary_order() {
    assert!(is_before(&chars("a"), &chars("b")));
    assert!(is_before(&chars("a"), &chars("aa")));
    assert!(!is_before(&chars("a"), &chars("a")));
    assert!(is_before(&chars("B"), &chars("a")));
    assert!(!is_before(&chars("b"), &chars("a")));
    assert!(is_before(&chars(""), &chars("a")));
    for (a, b) in [("amen", "amen2"), ("é", "z"), ("kick.wav", "Kick.wav"), ("x", "▶")] {
        assert_eq!(is_before(&chars(a), &chars(b)), a < b);
        assert_eq!(is_before(&chars(b), &chars(a)), b < a);
    }
}
