use dutree::options::{parse_int, validate_int};
use dutree::size_format::{decimal_string, format_size, SizeFormat};

#[test]
fn zero_is_0b_in_scaled_schemes() {
    assert_eq!(format_size(0, SizeFormat::Human), "0B");
    assert_eq!(format_size(0, SizeFormat::Si), "0B");
}

#[test]
fn one_kibibyte() {
    assert_eq!(format_size(1024, SizeFormat::Human), "1.0K");
}

#[test]
fn one_kilobyte() {
    assert_eq!(format_size(1000, SizeFormat::Si), "1.0K");
}

#[test]
fn raw_is_decimal() {
    assert_eq!(format_size(0, SizeFormat::Raw), "0");
    assert_eq!(format_size(12345, SizeFormat::Raw), "12345");
    assert_eq!(format_size(u64::MAX, SizeFormat::Raw), "18446744073709551615");
    assert_eq!(decimal_string(907), "907");
}

#[test]
fn bytes_below_one_unit_are_whole() {
    assert_eq!(format_size(1023, SizeFormat::Human), "1023B");
    assert_eq!(format_size(999, SizeFormat::Si), "999B");
}

#[test]
fn one_fractional_digit() {
    assert_eq!(format_size(1536, SizeFormat::Human), "1.5K");
    assert_eq!(format_size(1126, SizeFormat::Human), "1.1K");
    assert_eq!(format_size(1048524, SizeFormat::Human), "1023.9K");
}

#[test]
fn ties_round_to_even() {
    assert_eq!(format_size(1280, SizeFormat::Human), "1.2K");
    assert_eq!(format_size(1792, SizeFormat::Human), "1.8K");
}

#[test]
fn rounding_up_moves_to_next_unit() {
    assert_eq!(format_size(1048525, SizeFormat::Human), "1.0M");
    assert_eq!(format_size(999999, SizeFormat::Si), "1.0M");
}

#[test]
fn largest_count() {
    assert_eq!(format_size(u64::MAX, SizeFormat::Human), "16.0E");
    assert_eq!(format_size(u64::MAX, SizeFormat::Si), "18.4E");
}

#[test]
fn scheme_names() {
    assert_eq!(SizeFormat::from_name("human"), Some(SizeFormat::Human));
    assert_eq!(SizeFormat::from_name("h"), Some(SizeFormat::Human));
    assert_eq!(SizeFormat::from_name("si"), Some(SizeFormat::Si));
    assert_eq!(SizeFormat::from_name("H"), Some(SizeFormat::Si));
    assert_eq!(SizeFormat::from_name("raw"), Some(SizeFormat::Raw));
    assert_eq!(SizeFormat::from_name("r"), Some(SizeFormat::Raw));
    assert_eq!(SizeFormat::from_name("R"), None);
    assert_eq!(SizeFormat::from_name(""), None);
}

#[test]
fn integers_accepted() {
    assert_eq!(validate_int("12".to_string()), Ok(()));
    assert_eq!(validate_int("-1".to_string()), Ok(()));
    assert_eq!(validate_int("+7".to_string()), Ok(()));
    assert_eq!(parse_int("-1"), Some(-1));
    assert_eq!(parse_int("9223372036854775807"), Some(i64::MAX));
    assert_eq!(parse_int("-9223372036854775808"), Some(i64::MIN));
}

#[test]
fn integers_refused() {
    assert!(validate_int("abc".to_string()).is_err());
    assert!(validate_int("".to_string()).is_err());
    assert!(validate_int("+".to_string()).is_err());
    assert!(validate_int(" 1".to_string()).is_err());
    assert!(validate_int("9223372036854775808".to_string()).is_err());
    let msg = validate_int("x1".to_string()).unwrap_err();
    assert!(msg.starts_with("\"x1\" is not a valid integer"));
    assert_eq!(parse_int("1.5"), None);
}

#[test]
fn refusal_messages() {
    assert_eq!(
        validate_int("abc".to_string()),
        Err("\"abc\" is not a valid integer: invalid digit found in string".to_string())
    );
    assert_eq!(
        validate_int("".to_string()),
        Err("\"\" is not a valid integer: cannot parse integer from empty string".to_string())
    );
    assert_eq!(
        validate_int("9223372036854775808".to_string()),
        Err("\"9223372036854775808\" is not a valid integer: number too large to fit in target type"
            .to_string())
    );
    assert_eq!(
        validate_int("-9223372036854775809".to_string()),
        Err("\"-9223372036854775809\" is not a valid integer: number too small to fit in target type"
            .to_string())
    );
    assert_eq!(
        validate_int("-".to_string()),
        Err("\"-\" is not a valid integer: invalid digit found in string".to_string())
    );
}
