use resource_tracker::text::{
    contains_text, decimal_text, join_strings, parse_signed, parse_unsigned,
    signed_decimal_text, split_at, split_words, to_chars, trim_chars,
};

fn cs(s: &str) -> Vec<char> {
    to_chars(s)
}

fn strings(v: Vec<Vec<char>>) -> Vec<String> {
    v.iter().map(|c| c.iter().collect()).collect()
}

#[test]
fn words_are_what_white_space_leaves() {
    for s in ["", "  ", "a", " a  b ", "max 100000\n", "x\u{a0}y\u{2003}z\u{3000}", "\u{200b}a b"] {
        let ours = strings(split_words(&cs(s)));
        let theirs: Vec<String> = s.split_whitespace().map(|w| w.to_string()).collect();
        assert_eq!(ours, theirs, "{s:?}");
        assert_eq!(trim_chars(&cs(s)).iter().collect::<String>(), s.trim(), "{s:?}");
    }
}

#[test]
fn pieces_stand_between_separators() {
    for s in ["", ",", "a", "a,b", ",a,", "a,,b"] {
        let ours = strings(split_at(&cs(s), ','));
        let theirs: Vec<String> = s.split(',').map(|w| w.to_string()).collect();
        assert_eq!(ours, theirs, "{s:?}");
        assert_eq!(join_strings(&ours, ','), s);
    }
}

#[test]
fn texts_are_found_inside_texts() {
    for (s, part) in [("abc", "bc"), ("abc", "ac"), ("abc", ""), ("", "a"), ("aab", "ab"), ("", "")] {
        assert_eq!(contains_text(&cs(s), &cs(part)), s.contains(part), "{s:?} {part:?}");
    }
}

#[test]
fn numbers_are_read_as_parse_reads_them() {
    for s in [
        "", "+", "-", "0", "00", "+7", "-7", "--7", "7 ", "18446744073709551615",
        "18446744073709551616", "9223372036854775807", "9223372036854775808",
        "-9223372036854775808", "-9223372036854775809", "12a", "\u{661}",
    ] {
        assert_eq!(parse_unsigned(&cs(s)), s.parse::<u64>().ok(), "{s:?}");
        assert_eq!(parse_signed(&cs(s)), s.parse::<i64>().ok(), "{s:?}");
    }
}

#[test]
fn numbers_come_back_from_their_numerals() {
    for n in [0u64, 9, 10, 12345, u64::MAX] {
        assert_eq!(decimal_text(n as u128), n.to_string());
        assert_eq!(parse_unsigned(&cs(&decimal_text(n as u128))), Some(n));
    }
    for n in [0i64, -1, 42, i64::MIN, i64::MAX] {
        assert_eq!(signed_decimal_text(n), n.to_string());
        assert_eq!(parse_signed(&cs(&signed_decimal_text(n))), Some(n));
    }
}
