use ai_algorithms::text::{
    is_whitespace, parse_isize, parse_usize, push_decimal, same_text, split_words,
};

#[test]
fn words_are_runs_between_white_space() {
    assert_eq!(split_words("p edge 4 3"), vec!["p", "edge", "4", "3"]);
    assert_eq!(split_words("  e\t1   2 \n"), vec!["e", "1", "2"]);
    assert_eq!(split_words(""), Vec::<String>::new());
    assert_eq!(split_words(" \t "), Vec::<String>::new());
    assert_eq!(split_words("x"), vec!["x"]);
    assert_eq!(split_words("a\u{a0}b\u{3000}c"), vec!["a", "b", "c"]);
    assert_eq!(split_words("naïve café"), vec!["naïve", "café"]);
}

#[test]
fn split_words_agrees_with_std() {
    for line in ["c a comment", " lead", "trail ", "a  b", "\u{2003}x\u{85}y", "ab\u{200b}cd"] {
        let expected: Vec<String> = line.split_whitespace().map(String::from).collect();
        assert_eq!(split_words(line), expected);
    }
    for code in 0u32..0x3100 {
        if let Some(c) = char::from_u32(code) {
            assert_eq!(is_whitespace(c), c.is_whitespace());
        }
    }
}

#[test]
fn unsigned_numbers_are_read_as_std_reads_them() {
    assert_eq!(parse_usize("0"), Some(0));
    assert_eq!(parse_usize("42"), Some(42));
    assert_eq!(parse_usize("+7"), Some(7));
    assert_eq!(parse_usize("007"), Some(7));
    assert_eq!(parse_usize(""), None);
    assert_eq!(parse_usize("+"), None);
    assert_eq!(parse_usize("-1"), None);
    assert_eq!(parse_usize("1 "), None);
    assert_eq!(parse_usize("12a"), None);
    assert_eq!(parse_usize("++1"), None);
    assert_eq!(parse_usize("١"), None);
    let max = usize::MAX.to_string();
    assert_eq!(parse_usize(&max), Some(usize::MAX));
    assert_eq!(parse_usize("18446744073709551616"), None);
    assert_eq!(parse_usize("99999999999999999999999"), None);
    for word in ["0", "+0", "10", "x", "", "+", "18446744073709551615", "18446744073709551616"] {
        assert_eq!(parse_usize(word), word.parse::<usize>().ok());
    }
}

#[test]
fn signed_numbers_are_read_as_std_reads_them() {
    assert_eq!(parse_isize("-3"), Some(-3));
    assert_eq!(parse_isize("3"), Some(3));
    assert_eq!(parse_isize("+3"), Some(3));
    assert_eq!(parse_isize("-0"), Some(0));
    assert_eq!(parse_isize("-"), None);
    assert_eq!(parse_isize("--3"), None);
    assert_eq!(parse_isize("+-3"), None);
    assert_eq!(parse_isize("3-"), None);
    assert_eq!(parse_isize("-9223372036854775808"), Some(isize::MIN));
    assert_eq!(parse_isize("9223372036854775807"), Some(isize::MAX));
    assert_eq!(parse_isize("9223372036854775808"), None);
    assert_eq!(parse_isize("-9223372036854775809"), None);
    for word in ["-", "-1", "1", "", "+", "-9223372036854775808", "9223372036854775808"] {
        assert_eq!(parse_isize(word), word.parse::<isize>().ok());
    }
}

#[test]
fn decimal_is_written_without_leading_zeros() {
    for n in [0usize, 7, 10, 99, 100, 12345, usize::MAX] {
        let mut out = String::from("n=");
        push_decimal(&mut out, n);
        assert_eq!(out, format!("n={}", n));
    }
}

#[test]
fn same_text_compares_characters() {
    assert!(same_text("edge", "edge"));
    assert!(!same_text("edge", "edg"));
    assert!(!same_text("edge", "edgy"));
    assert!(same_text("", ""));
    assert!(!same_text("é", "e"));
}
