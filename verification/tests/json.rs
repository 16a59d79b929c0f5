//! Machine-readable output.

use sztools::args::{parse_at_least_one, parse_size};
use sztools::json::{
    base64_to, format_grouped_number, is_utf8, json_escape_to, json_text_field_to,
    write_line_record,
};

fn escaped(data: &[u8]) -> String {
    let mut output = Vec::new();
    json_escape_to(&mut output, data);
    String::from_utf8(output).unwrap()
}

#[test]
fn escapes_json_quotes_and_backslashes() {
    assert_eq!(escaped(br#"say "hi""#), r#"say \"hi\""#);
    assert_eq!(escaped(br"back\slash"), r"back\\slash");
}

#[test]
fn escapes_json_control_bytes() {
    assert_eq!(escaped(b"a\nb\rc\td"), r"a\nb\rc\td");
    assert_eq!(escaped(b"\x00\x1f"), r"\u0000\u001f");
}

#[test]
fn passes_high_bytes_through_json_escaping() {
    assert_eq!(escaped("é".as_bytes()), "é");
    assert_eq!(escaped(b""), "");
}

#[test]
fn writes_a_one_based_line_record() {
    let mut output = Vec::new();
    write_line_record(&mut output, "trex.txt", b"hello", 0, None);
    assert_eq!(
        String::from_utf8(output).unwrap(),
        "{\"type\":\"line\",\"data\":{\"path\":{\"text\":\"trex.txt\"},\"text\":{\"text\":\"hello\"},\"line_number\":1}}\n"
    );
}

#[test]
fn names_a_line_record_when_one_was_asked_for() {
    let mut output = Vec::new();
    write_line_record(&mut output, "trex.txt", b"hello", 0, Some("2xg6k171"));
    assert!(String::from_utf8(output)
        .unwrap()
        .contains(r#""line_number":1,"line_hash":"2xg6k171""#));
}

#[test]
fn encodes_invalid_utf8_as_base64_bytes() {
    let mut output = Vec::new();
    json_text_field_to(&mut output, b"a\xffb");
    assert_eq!(output, br#"{"bytes":"Yf9i"}"#);

    // Padding: one and two leftover bytes.
    for (data, expected) in [
        (b"\xff".as_slice(), br#"{"bytes":"/w=="}"#.as_slice()),
        (b"\xff\xfe".as_slice(), br#"{"bytes":"//4="}"#.as_slice()),
    ] {
        let mut output = Vec::new();
        json_text_field_to(&mut output, data);
        assert_eq!(output, expected);
    }
}

#[test]
fn wraps_json_text_field() {
    let mut output = Vec::new();
    json_text_field_to(&mut output, b"a\"b");
    assert_eq!(output, br#"{"text":"a\"b"}"#);
}

#[test]
fn encodes_every_length_of_base64() {
    for (data, expected) in [
        (&b""[..], ""),
        (&b"f"[..], "Zg=="),
        (&b"fo"[..], "Zm8="),
        (&b"foo"[..], "Zm9v"),
        (&b"foob"[..], "Zm9vYg=="),
        (&[0xFB, 0xFF, 0xBF][..], "+/+/"),
    ] {
        let mut output = Vec::new();
        base64_to(&mut output, data);
        assert_eq!(String::from_utf8(output).unwrap(), expected);
    }
}

#[test]
fn tells_utf8_from_other_bytes() {
    assert!(is_utf8("héllo".as_bytes()));
    assert!(is_utf8(b""));
    assert!(!is_utf8(b"a\xffb"));
    assert!(!is_utf8(b"\xC0\x80"));
}

#[test]
fn groups_numbers_by_thousands() {
    assert_eq!(format_grouped_number(0), "0");
    assert_eq!(format_grouped_number(999), "999");
    assert_eq!(format_grouped_number(1000), "1,000");
    assert_eq!(format_grouped_number(26_804_246), "26,804,246");
    assert_eq!(
        format_grouped_number(usize::MAX),
        "18,446,744,073,709,551,615"
    );
}

#[test]
fn reads_byte_budgets_with_decimal_and_binary_suffixes() {
    let size = |text: &str| parse_size(text);
    assert_eq!(size("512"), Ok(512));
    assert_eq!(size("10K"), Ok(10_000));
    assert_eq!(size("10KB"), Ok(10_000));
    assert_eq!(size("10Ki"), Ok(10_240));
    assert_eq!(size("10KiB"), Ok(10_240));
    // The suffix is case-insensitive, and surrounding space is ignored.
    assert_eq!(size("10mb"), size("10MB"));
    assert_eq!(size(" 10M "), size("10M"));
    // A budget of nothing reads like a count of nothing.
    assert_eq!(size("0"), Err("must be at least 1".to_string()));
    // Unknown suffixes and overflow name the offending text.
    assert!(size("10Q").unwrap_err().contains("`Q`"));
    assert!(size("10 furlongs").unwrap_err().contains("furlongs"));
    // A count too wide for the type is a size problem, not a syntax one, whether it outruns the
    // type on its own or only once the suffix scales it.
    assert!(size("99999999999999999999T")
        .unwrap_err()
        .contains("larger than"));
    assert!(size("99999999999T").unwrap_err().contains("larger than"));
    // A suffix with no count in front of it is the syntax error.
    assert!(size("MB").unwrap_err().contains("is not a number"));
}

#[test]
fn reads_a_count_that_has_to_be_something() {
    assert_eq!(parse_at_least_one("7"), Ok(7));
    assert_eq!(parse_at_least_one("+7"), Ok(7));
    assert_eq!(
        parse_at_least_one("0"),
        Err("must be at least 1".to_string())
    );
    assert_eq!(
        parse_at_least_one(""),
        Err("cannot parse integer from empty string".to_string())
    );
    assert_eq!(
        parse_at_least_one("-1"),
        Err("invalid digit found in string".to_string())
    );
    assert_eq!(
        parse_at_least_one("99999999999999999999"),
        Err("number too large to fit in target type".to_string())
    );
}
