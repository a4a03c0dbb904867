use spytial::text::{format_signed, format_unsigned, parse_signed, parse_unsigned, IntError};

fn chars(s: &str) -> Vec<char> {
    s.chars().collect()
}

#[test]
fn integers_format_as_display_does() {
    assert_eq!(format_unsigned(0), "0");
    assert_eq!(format_unsigned(1234567890), "1234567890");
    assert_eq!(format_signed(-45), "-45");
    assert_eq!(format_signed(i128::MIN), i128::MIN.to_string());
    assert_eq!(format_unsigned(u128::MAX), u128::MAX.to_string());
}

#[test]
fn parsing_reads_back_what_was_formatted() {
    for v in [0i128, 7, -7, 127, -128, i64::MIN as i128, i128::MAX, i128::MIN] {
        let text = format_signed(v);
        assert_eq!(parse_signed(&chars(&text), i128::MIN, i128::MAX), Ok(v));
    }
    for v in [0u128, 9, 10, 255, u64::MAX as u128, u128::MAX] {
        let text = format_unsigned(v);
        assert_eq!(parse_unsigned(&chars(&text), u128::MAX), Ok(v));
    }
}

#[test]
fn parse_errors_follow_str_parse() {
    assert_eq!(parse_unsigned(&chars(""), 255), Err(IntError::Empty));
    assert_eq!(parse_unsigned(&chars("+"), 255), Err(IntError::InvalidDigit));
    assert_eq!(parse_unsigned(&chars("-1"), 255), Err(IntError::InvalidDigit));
    assert_eq!(parse_unsigned(&chars("256"), 255), Err(IntError::PosOverflow));
    assert_eq!(parse_unsigned(&chars("999x"), 255), Err(IntError::PosOverflow));
    assert_eq!(parse_unsigned(&chars("12x"), 255), Err(IntError::InvalidDigit));
    assert_eq!(parse_signed(&chars("-129"), -128, 127), Err(IntError::NegOverflow));
    assert_eq!(parse_signed(&chars("-"), -128, 127), Err(IntError::InvalidDigit));
    assert_eq!(parse_signed(&chars("+12"), -128, 127), Ok(12));
    assert_eq!(parse_unsigned(&chars("007"), 255), Ok(7));
    assert_eq!("999x".parse::<u8>().unwrap_err().to_string(), IntError::PosOverflow.message());
    assert_eq!("12x".parse::<u8>().unwrap_err().to_string(), IntError::InvalidDigit.message());
    assert_eq!("".parse::<u8>().unwrap_err().to_string(), IntError::Empty.message());
    assert_eq!("-129".parse::<i8>().unwrap_err().to_string(), IntError::NegOverflow.message());
}
