use diskify::options::{parse_u32, validate_iterations, validate_min_width};

#[test]
fn parse_u32_accepts_decimal() {
    assert_eq!(parse_u32("0"), Some(0));
    assert_eq!(parse_u32("+17"), Some(17));
    assert_eq!(parse_u32("0008"), Some(8));
    assert_eq!(parse_u32("4294967295"), Some(u32::MAX));
}

#[test]
fn parse_u32_rejects_other_text() {
    assert_eq!(parse_u32(""), None);
    assert_eq!(parse_u32("+"), None);
    assert_eq!(parse_u32("-1"), None);
    assert_eq!(parse_u32(" 1"), None);
    assert_eq!(parse_u32("1x"), None);
    assert_eq!(parse_u32("4294967296"), None);
    assert_eq!(parse_u32("99999999999999999999999"), None);
}

#[test]
fn validators() {
    assert_eq!(validate_min_width("8".to_string()), Ok(()));
    assert_eq!(validate_iterations("1024".to_string()), Ok(()));
    assert!(validate_min_width("eight".to_string()).is_err());
    assert!(validate_iterations("-3".to_string()).is_err());
}
