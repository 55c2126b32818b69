use lucifer::config::split_chars;
use lucifer::editor::mark_hex;
use lucifer::order::compare_labels;
use lucifer::text::{chars_of, decimal_chars, hex_label_of, parse_field, string_of};

fn chars(s: &str) -> Vec<char> {
    s.chars().collect()
}

#[test]
fn hex_labels_of_cursor_values() {
    assert_eq!(hex_label_of(0), "0x00");
    assert_eq!(hex_label_of(1), "0x01");
    assert_eq!(hex_label_of(31), "0x1f");
    assert_eq!(hex_label_of(255), "0xff");
    assert_eq!(hex_label_of(256), "0x100");
    assert_eq!(hex_label_of(u32::MAX), "0xffffffff");
}

#[test]
fn decimal_numerals() {
    assert_eq!(decimal_chars(0), chars("0"));
    assert_eq!(decimal_chars(7), chars("7"));
    assert_eq!(decimal_chars(120), chars("120"));
    assert_eq!(decimal_chars(u32::MAX), chars("4294967295"));
}

#[test]
fn fields_parse_or_count_as_zero() {
    assert_eq!(parse_field(&chars("12")), 12);
    assert_eq!(parse_field(&chars("007")), 7);
    assert_eq!(parse_field(&chars("4294967295")), u32::MAX);
    assert_eq!(parse_field(&chars("4294967296")), 0);
    assert_eq!(parse_field(&chars("")), 0);
    assert_eq!(parse_field(&chars("1a")), 0);
    assert_eq!(parse_field(&chars("-3")), 0);
}

#[test]
fn string_conversions_keep_characters() {
    let v = chars_of("Tile_é");
    assert_eq!(v, chars("Tile_é"));
    assert_eq!(string_of(&v), "Tile_é");
}

#[test]
fn split_keeps_empty_pieces() {
    let pieces = split_chars(&chars(",a,,b"), ',');
    assert_eq!(pieces, vec![chars(""), chars("a"), chars(""), chars("b")]);
    assert_eq!(split_chars(&chars(""), ','), vec![chars("")]);
}

#[test]
fn labels_compare_by_code_point() {
    assert!(compare_labels(&chars("a"), &chars("b")) < 0);
    assert!(compare_labels(&chars("b"), &chars("a")) > 0);
    assert!(compare_labels(&chars("ab"), &chars("ab")) == 0);
    assert!(compare_labels(&chars("ab"), &chars("abc")) < 0);
    assert!(compare_labels(&chars("Z"), &chars("a")) < 0);
    assert!(compare_labels(&chars(""), &chars("a")) < 0);
}

#[test]
fn hex_marker_becomes_dollar() {
    assert_eq!(mark_hex(&chars("0x1f")), chars("$1f"));
    assert_eq!(mark_hex(&chars("Tile_0x02")), chars("Tile_$02"));
    assert_eq!(mark_hex(&chars("00x0x")), chars("0$$"));
    assert_eq!(mark_hex(&chars("abc")), chars("abc"));
}

#[test]
fn fields_accept_one_leading_plus() {
    assert_eq!(parse_field(&chars("+5")), 5);
    assert_eq!(parse_field(&chars("+0012")), 12);
    assert_eq!(parse_field(&chars("+")), 0);
    assert_eq!(parse_field(&chars("++5")), 0);
    assert_eq!(parse_field(&chars("5+")), 0);
    assert_eq!(parse_field(&chars("+4294967296")), 0);
}
