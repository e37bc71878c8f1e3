use minesweeper_server::text::{decimal_string, parse_number, same_text, split_spaces};

#[test]
fn decimal_renders_like_to_string() {
    for n in [0u64, 7, 10, 42, 255, 1000, 123456789, u64::MAX] {
        assert_eq!(decimal_string(n), n.to_string());
    }
}

#[test]
fn decimal_reads_back() {
    for n in [0u64, 9, 10, 99, 4096, u64::MAX] {
        assert_eq!(parse_number(&decimal_string(n), u64::MAX), Some(n));
    }
}

#[test]
fn parse_number_takes_digits_and_a_plus() {
    assert_eq!(parse_number("0", 255), Some(0));
    assert_eq!(parse_number("255", 255), Some(255));
    assert_eq!(parse_number("+12", 255), Some(12));
    assert_eq!(parse_number("0007", 255), Some(7));
    assert_eq!(parse_number("256", 255), None);
    assert_eq!(parse_number("1000", 255), None);
    assert_eq!(parse_number("", 255), None);
    assert_eq!(parse_number("+", 255), None);
    assert_eq!(parse_number("-1", 255), None);
    assert_eq!(parse_number("1a", 255), None);
    assert_eq!(parse_number("++1", 255), None);
    assert_eq!(parse_number(" 1", 255), None);
    assert_eq!(parse_number("18446744073709551615", u64::MAX), Some(u64::MAX));
    assert_eq!(parse_number("18446744073709551616", u64::MAX), None);
}

#[test]
fn parse_number_agrees_with_str_parse_for_u8() {
    for s in ["0", "1", "99", "200", "255", "256", "+5", "-0", "", "x", "12 ", "00300"] {
        assert_eq!(parse_number(s, 255).map(|v| v as u8), s.parse::<u8>().ok(), "{s:?}");
    }
}

#[test]
fn split_spaces_is_split_on_single_spaces() {
    for s in ["", " ", "a", "a b", "a  b", " a b ", "/createroom r1 5 3 4", "üñ í"] {
        let expected: Vec<String> = s.split(' ').map(|p| p.to_string()).collect();
        assert_eq!(split_spaces(s), expected, "{s:?}");
    }
}

#[test]
fn same_text_compares_whole_texts() {
    assert!(same_text("", ""));
    assert!(same_text("/move", "/move"));
    assert!(!same_text("/move", "/mov"));
    assert!(!same_text("/move", "/movE"));
}
