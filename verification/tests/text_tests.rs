use streaming_quotes::text::decimal_text;
use streaming_quotes::text::is_whitespace;
use streaming_quotes::text::numeral_text;

#[test]
fn numerals() {
    assert_eq!(decimal_text(0), "0");
    assert_eq!(decimal_text(1234567890), "1234567890");
    assert_eq!(decimal_text(u64::MAX), u64::MAX.to_string());
    assert_eq!(numeral_text(0xfe80, 16), "fe80");
    assert_eq!(numeral_text(5, 2), "101");
}

#[test]
fn whitespace_matches_std() {
    for c in (0u32..0x3100).filter_map(char::from_u32) {
        assert_eq!(is_whitespace(c), c.is_whitespace(), "{:?}", c);
    }
}
