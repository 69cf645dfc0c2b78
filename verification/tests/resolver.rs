use fsplit::models::{ByteUnit, Config, InvalidConfigDetail, SplitErrors, SplitOptions};
use fsplit::resolver::{create_split_error, parse_u64_decimal, validate_and_parse};

fn config(
    line_length: Option<u32>,
    byte_count: Option<&str>,
) -> Config {
    Config {
        line_Length: line_length,
        additional_suffix: String::new(),
        file_name: String::from("input.txt"),
        byte_count: byte_count.map(String::from),
    }
}

#[test]
fn unit_parsing_kilobytes() {
    let r = validate_and_parse(config(None, Some("500k")));
    assert_eq!(
        r,
        Ok(SplitOptions::SplitByBytes {
            byte_length: 500,
            additional_suffix: String::new(),
            file_name: String::from("input.txt"),
            byte_unit: ByteUnit::KB,
        })
    );
}

#[test]
fn unit_parsing_kilobytes_uppercase() {
    let r = validate_and_parse(config(None, Some("3K")));
    assert_eq!(
        r,
        Ok(SplitOptions::SplitByBytes {
            byte_length: 3,
            additional_suffix: String::new(),
            file_name: String::from("input.txt"),
            byte_unit: ByteUnit::KB,
        })
    );
}

#[test]
fn unit_parsing_megabytes_uppercase() {
    let r = validate_and_parse(config(None, Some("2M")));
    assert_eq!(
        r,
        Ok(SplitOptions::SplitByBytes {
            byte_length: 2,
            additional_suffix: String::new(),
            file_name: String::from("input.txt"),
            byte_unit: ByteUnit::MB,
        })
    );
}

#[test]
fn unit_parsing_no_suffix_rejected() {
    let r = validate_and_parse(config(None, Some("500")));
    assert_eq!(
        r,
        Err(SplitErrors::InvalidConfig(InvalidConfigDetail::InvalidByteUnitSuffix {
            suffix: Some('0'),
        }))
    );
}

#[test]
fn unit_parsing_non_numeric_rejected() {
    let r = validate_and_parse(config(None, Some("abck")));
    assert_eq!(
        r,
        Err(SplitErrors::InvalidConfig(InvalidConfigDetail::NotANumber {
            digits: String::from("abc"),
        }))
    );
}

#[test]
fn unit_parsing_empty_byte_count_rejected() {
    let r = validate_and_parse(config(None, Some("")));
    assert_eq!(
        r,
        Err(SplitErrors::InvalidConfig(InvalidConfigDetail::InvalidByteUnitSuffix {
            suffix: None,
        }))
    );
}

#[test]
fn unit_parsing_unknown_letter_cited_lowercased() {
    let r = validate_and_parse(config(None, Some("12G")));
    assert_eq!(
        r,
        Err(SplitErrors::InvalidConfig(InvalidConfigDetail::InvalidByteUnitSuffix {
            suffix: Some('g'),
        }))
    );
}

#[test]
fn mutual_exclusion_rejected() {
    let r = validate_and_parse(config(Some(3), Some("500k")));
    assert_eq!(
        r,
        Err(SplitErrors::InvalidConfig(InvalidConfigDetail::BothModesSupplied {
            line_length: 3,
            byte_count: String::from("500k"),
        }))
    );
}

#[test]
fn line_length_defaults_to_1000() {
    let r = validate_and_parse(config(None, None));
    assert_eq!(
        r,
        Ok(SplitOptions::SplitByLines {
            line_length: 1000,
            additional_suffix: String::new(),
            file_name: String::from("input.txt"),
        })
    );
}

#[test]
fn explicit_line_length_kept() {
    let mut c = config(Some(7), None);
    c.additional_suffix = String::from(".txt");
    let r = validate_and_parse(c);
    assert_eq!(
        r,
        Ok(SplitOptions::SplitByLines {
            line_length: 7,
            additional_suffix: String::from(".txt"),
            file_name: String::from("input.txt"),
        })
    );
}

#[test]
fn megabyte_count_too_large_rejected() {
    let r = validate_and_parse(config(None, Some("18446744073709551615m")));
    assert_eq!(
        r,
        Err(SplitErrors::InvalidConfig(InvalidConfigDetail::ByteCountTooLarge {
            byte_length: u64::MAX,
        }))
    );
}

#[test]
fn kilobyte_count_at_limit_accepted() {
    let r = validate_and_parse(config(None, Some("18446744073709551615k")));
    assert_eq!(
        r,
        Ok(SplitOptions::SplitByBytes {
            byte_length: u64::MAX,
            additional_suffix: String::new(),
            file_name: String::from("input.txt"),
            byte_unit: ByteUnit::KB,
        })
    );
}

#[test]
fn count_beyond_64_bits_is_not_a_number() {
    let r = validate_and_parse(config(None, Some("18446744073709551616k")));
    assert_eq!(
        r,
        Err(SplitErrors::InvalidConfig(InvalidConfigDetail::NotANumber {
            digits: String::from("18446744073709551616"),
        }))
    );
}

#[test]
fn byte_unit_parse_cases() {
    assert_eq!(ByteUnit::parse('k'), Ok(ByteUnit::KB));
    assert_eq!(ByteUnit::parse('m'), Ok(ByteUnit::MB));
    assert_eq!(
        ByteUnit::parse('x'),
        Err(InvalidConfigDetail::InvalidByteUnitSuffix { suffix: Some('x') })
    );
}

#[test]
fn parse_u64_decimal_cases() {
    assert_eq!(parse_u64_decimal("0"), Some(0));
    assert_eq!(parse_u64_decimal("500"), Some(500));
    assert_eq!(parse_u64_decimal("18446744073709551615"), Some(u64::MAX));
    assert_eq!(parse_u64_decimal("18446744073709551616"), None);
    assert_eq!(parse_u64_decimal(""), None);
    assert_eq!(parse_u64_decimal("1x2"), None);
}

#[test]
fn create_split_error_joins_with_colon() {
    let r = create_split_error("Cannot Flush buffer", String::from("disk full"));
    assert_eq!(
        r,
        Err(SplitErrors::InternalError(String::from("Cannot Flush buffer:disk full")))
    );
}

#[test]
fn open_failure_classification() {
    assert_eq!(
        SplitErrors::from_io_kind(true, String::from("anything")),
        SplitErrors::FILE_NOT_FOUND
    );
    assert_eq!(
        SplitErrors::from_io_kind(false, String::from("permission denied")),
        SplitErrors::InternalError(String::from("permission denied"))
    );
}
