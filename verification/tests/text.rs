use xlsxparser::number::Number;
use xlsxparser::parse::rich_text::{
    normalize_line_endings, restore_carriage_returns, trim_tail_in_place,
};
use xlsxparser::text::{
    char_is_white, complain, complain_of, decimal_text, digits_up_to, find_from, from_chars,
    hex_digit, parse_hex, parse_signed, parse_unsigned, same, split_chars, text_ends_with,
    to_chars, to_lower, trimmed,
};

fn string(chars: &[char]) -> String {
    chars.iter().collect()
}

#[test]
fn white_space_is_what_unicode_says() {
    for c in '\0'..=char::MAX {
        assert_eq!(char_is_white(c), c.is_whitespace(), "{c:?}");
    }
}

#[test]
fn lower_case_is_ascii_only() {
    for c in '\0'..='\u{2ff}' {
        assert_eq!(to_lower(c), c.to_ascii_lowercase(), "{c:?}");
    }
}

#[test]
fn trimming_takes_white_space_off_both_ends() {
    for s in ["", " ", "a", " a ", "\u{3000}a b\t\n", "\u{a0}\u{a0}"] {
        assert_eq!(string(&trimmed(s)), s.trim(), "{s:?}");
    }
}

#[test]
fn splitting_keeps_empty_pieces() {
    for s in ["", "/", "a", "a/b", "/a//b/"] {
        let pieces: Vec<String> = split_chars(&to_chars(s), '/')
            .iter()
            .map(|p| string(p))
            .collect();
        assert_eq!(pieces, s.split('/').collect::<Vec<_>>(), "{s:?}");
    }
}

#[test]
fn searching_begins_where_it_is_told_to() {
    let chars = to_chars("abcabc");
    assert_eq!(find_from(&chars, 0, 'b'), Some(1));
    assert_eq!(find_from(&chars, 2, 'b'), Some(4));
    assert_eq!(find_from(&chars, 5, 'b'), None);
    assert_eq!(from_chars(&chars, 1, 4), "bca");
}

#[test]
fn suffixes_are_compared_character_by_character() {
    assert!(text_ends_with("x/relationships/styles", "/relationships/styles"));
    assert!(text_ends_with("styles", ""));
    assert!(!text_ends_with("styles", "xstyles"));
    assert!(!text_ends_with("relationships/Styles", "styles"));
    assert!(same("a", "a"));
    assert!(!same("a", "b"));
}

#[test]
fn unsigned_numbers_are_read_as_the_standard_library_does() {
    for s in [
        "", "0", "7", "007", "+7", "-7", "+", "++7", "7 ", "4294967295", "4294967296",
        "99999999999999999999999999", "1.0", "٣",
    ] {
        assert_eq!(
            parse_unsigned(&to_chars(s), u32::MAX as u64),
            s.parse::<u32>().ok().map(u64::from),
            "{s:?}"
        );
    }
    for s in ["18446744073709551615", "18446744073709551616"] {
        assert_eq!(parse_unsigned(&to_chars(s), u64::MAX), s.parse().ok(), "{s:?}");
    }
    assert_eq!(digits_up_to(&to_chars("A120"), 1, 120), Some(120));
    assert_eq!(digits_up_to(&to_chars("A121"), 1, 120), None);
}

#[test]
fn signed_numbers_are_read_as_the_standard_library_does() {
    for s in [
        "", "0", "-0", "+5", "-5", "--5", "-", "9223372036854775807", "9223372036854775808",
        "-9223372036854775808", "-9223372036854775809", "5x",
    ] {
        assert_eq!(parse_signed(&to_chars(s)), s.parse().ok(), "{s:?}");
    }
}

#[test]
fn decimal_notation_has_no_leading_zeros() {
    for n in [0, 9, 10, 99, 100, 1_048_576, u64::MAX] {
        assert_eq!(decimal_text(n), n.to_string());
    }
}

#[test]
fn hexadecimal_digits_come_in_either_case() {
    for c in '\0'..='\u{ff}' {
        assert_eq!(hex_digit(c), c.to_digit(16), "{c:?}");
    }
    assert_eq!(parse_hex(&to_chars("FFff0a10")), Some(0xFFFF_0A10));
    assert_eq!(parse_hex(&to_chars("")), Some(0));
    assert_eq!(parse_hex(&to_chars("+FF")), None);
    assert_eq!(parse_hex(&to_chars("GG")), None);
}

#[test]
fn complaints_quote_the_value() {
    assert_eq!(
        complain("bad value ", "a\"\n", "xl/x.xml"),
        "bad value \"a\\\"\\n\" in xl/x.xml"
    );
    assert_eq!(
        complain_of("width", "x", "xl/x.xml"),
        "invalid width \"x\" in xl/x.xml"
    );
}

#[test]
fn floating_point_literals_are_what_the_standard_library_reads() {
    for s in [
        "", "0", "-0", "+1", "1.", ".5", ".", "+.", "1.5", "1e5", "1E-5", "1e+5", "1e", "e5",
        ".e5", "1e5.5", "inf", "-INF", "Infinity", "+iNfInItY", "nan", "-NaN", "nano", "infinit",
        " 1", "1 ", "1_000", "0x10", "1,5", "--1", "+-1", "1e999", "00012.5000", "9".repeat(400).as_str(),
    ] {
        let read = Number::parse(s);
        assert_eq!(read.is_some(), s.parse::<f64>().is_ok(), "{s:?}");
        if let Some(n) = read {
            assert_eq!(n.as_str(), s);
        }
    }
    assert_eq!(Number::from_integer(11).as_str(), "11");
}

#[test]
fn line_breaks_become_line_feeds() {
    assert_eq!(normalize_line_endings("a\r\nb\rc\nd\r\r\n"), "a\nb\nc\nd\n\n");
    assert_eq!(normalize_line_endings("plain"), "plain");
}

#[test]
fn marked_carriage_returns_are_restored() {
    let restored = |s: &str| restore_carriage_returns(&to_chars(s));
    assert_eq!(restored("a_x000D_\nb"), "a\r\nb");
    assert_eq!(restored("_x000D__x000D_"), "\r\r");
    assert_eq!(restored("_x000d_ _x000D"), "_x000d_ _x000D");
}

#[test]
fn only_the_tail_is_trimmed() {
    let mut chars = to_chars(" keep  tail ");
    trim_tail_in_place(&mut chars, 5);
    assert_eq!(string(&chars), " keeptail");
}
