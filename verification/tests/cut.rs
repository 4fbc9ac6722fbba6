use cutlib::extract::{extract, extract_bytes, extract_chars, extract_fields,
    extract_fields_internal, ExtractedRanges, FieldError};
use cutlib::ranges::{parse_range, parse_ranges, ranges_iter, RangeSpec};

fn rs(start: usize, end: usize) -> RangeSpec {
    RangeSpec { start, end }
}

#[test]
fn test_parse_ranges() {
    // The empty string is an error
    assert!(parse_ranges("").is_err());

    // Zero is an error
    let res = parse_ranges("0");
    assert!(res.is_err());
    assert_eq!(
        res.unwrap_err().message(),
        "Invalid range '0' - number would be zero for non-zero type",
    );

    let res = parse_ranges("0-1");
    assert!(res.is_err());
    assert_eq!(
        res.unwrap_err().message(),
        "Invalid range '0-1' - number would be zero for non-zero type",
    );

    let res = parse_ranges("10-0");
    assert!(res.is_err());
    assert_eq!(
        res.unwrap_err().message(),
        "Invalid range '10-0' - number would be zero for non-zero type",
    );

    // Any non-number is an error
    let res = parse_ranges("a");
    assert!(res.is_err());
    assert_eq!(
        res.unwrap_err().message(),
        "Invalid range 'a' - invalid digit found in string"
    );

    let res = parse_ranges("1,a");
    assert!(res.is_err());
    assert_eq!(
        res.unwrap_err().message(),
        "Invalid range 'a' - invalid digit found in string"
    );

    let res = parse_ranges("1-a");
    assert!(res.is_err());
    assert_eq!(
        res.unwrap_err().message(),
        "Invalid range '1-a' - invalid digit found in string"
    );

    let res = parse_ranges("a-1");
    assert!(res.is_err());
    assert_eq!(
        res.unwrap_err().message(),
        "Invalid range 'a-1' - invalid digit found in string"
    );

    // Wonky ranges
    let res = parse_ranges("-");
    assert!(res.is_err());
    assert_eq!(
        res.unwrap_err().message(),
        "Invalid range '-' - cannot parse integer from empty string"
    );

    let res = parse_ranges(",");
    assert!(res.is_err());
    assert_eq!(
        res.unwrap_err().message(),
        "Invalid range '' - cannot parse integer from empty string"
    );

    let res = parse_ranges("1,");
    assert!(res.is_err());
    assert_eq!(
        res.unwrap_err().message(),
        "Invalid range '' - cannot parse integer from empty string"
    );

    let res = parse_ranges("1-");
    assert!(res.is_err());
    assert_eq!(
        res.unwrap_err().message(),
        "Invalid range '1-' - cannot parse integer from empty string"
    );

    let res = parse_ranges("1-1-1");
    assert!(res.is_err());
    assert_eq!(
        res.unwrap_err().message(),
        "Invalid range '1-1-1' - wrong number of range parts 3"
    );

    let res = parse_ranges("1-1-a");
    assert!(res.is_err());
    assert_eq!(
        res.unwrap_err().message(),
        "Invalid range '1-1-a' - invalid digit found in string"
    );

    // All the following are acceptable
    let res = parse_ranges("1");
    assert!(res.is_ok());
    assert_eq!(res.unwrap(), vec![rs(0, 0)]);

    let res = parse_ranges("01");
    assert!(res.is_ok());
    assert_eq!(res.unwrap(), vec![rs(0, 0)]);

    let res = parse_ranges("1,3");
    assert!(res.is_ok());
    assert_eq!(res.unwrap(), vec![rs(0, 0), rs(2, 2)]);

    let res = parse_ranges("001,0003");
    assert!(res.is_ok());
    assert_eq!(res.unwrap(), vec![rs(0, 0), rs(2, 2)]);

    let res = parse_ranges("1-3");
    assert!(res.is_ok());
    assert_eq!(res.unwrap(), vec![rs(0, 2)]);

    let res = parse_ranges("0001-03");
    assert!(res.is_ok());
    assert_eq!(res.unwrap(), vec![rs(0, 2)]);

    let res = parse_ranges("1,7,3-5");
    assert!(res.is_ok());
    assert_eq!(res.unwrap(), vec![rs(0, 0), rs(6, 6), rs(2, 4)]);

    let res = parse_ranges("15,19-20");
    assert!(res.is_ok());
    assert_eq!(res.unwrap(), vec![rs(14, 14), rs(18, 19)]);

    let res = parse_ranges("1-1");
    assert!(res.is_ok());
    assert_eq!(res.unwrap(), vec![rs(0, 0)]);

    let res = parse_ranges("2-1");
    assert!(res.is_ok());
    assert_eq!(res.unwrap(), vec![rs(1, 0)]);

    // A leading "+" is not an error
    let res = parse_ranges("+1");
    assert!(res.is_ok());
    assert_eq!(res.unwrap(), vec![rs(0, 0)]);

    let res = parse_ranges("+1-2");
    assert!(res.is_ok());
    assert_eq!(res.unwrap(), vec![rs(0, 1)]);

    let res = parse_ranges("1-+2");
    assert!(res.is_ok());
    assert_eq!(res.unwrap(), vec![rs(0, 1)]);
}

#[test]
fn test_extract_chars() {
    assert_eq!(extract_chars("", &vec![rs(0, 0)]), String::new());
    assert_eq!(extract_chars("ábc", &vec![rs(0, 0)]), "á".to_string());
    assert_eq!(extract_chars("ábc", &vec![rs(0, 0), rs(2, 2)]), "ác".to_string());
    assert_eq!(extract_chars("ábc", &vec![rs(0, 2)]), "ábc".to_string());
    assert_eq!(extract_chars("ábc", &vec![rs(2, 2), rs(1, 1)]), "cb".to_string());
    assert_eq!(
        extract_chars("ábc", &vec![rs(0, 0), rs(1, 1), rs(4, 4)]),
        "áb".to_string()
    );
}

#[test]
fn test_extract_bytes() {
    assert_eq!(extract_bytes("ábc", &vec![rs(0, 0)]), "�".to_string());
    assert_eq!(extract_bytes("ábc", &vec![rs(0, 1)]), "á".to_string());
    assert_eq!(extract_bytes("ábc", &vec![rs(0, 2)]), "áb".to_string());
    assert_eq!(extract_bytes("ábc", &vec![rs(0, 3)]), "ábc".to_string());
    assert_eq!(extract_bytes("ábc", &vec![rs(3, 3), rs(2, 2)]), "cb".to_string());
    assert_eq!(extract_bytes("ábc", &vec![rs(0, 1), rs(5, 5)]), "á".to_string());
}

#[test]
fn test_extract_fields() {
    let rec = vec![
        "Captain".to_string(),
        "Sham".to_string(),
        "12345".to_string(),
    ];
    assert_eq!(extract_fields_internal(&rec, &vec![rs(0, 0)]), ["Captain"]);
    assert_eq!(extract_fields_internal(&rec, &vec![rs(1, 1)]), ["Sham"]);
    assert_eq!(
        extract_fields_internal(&rec, &vec![rs(0, 0), rs(2, 2)]),
        ["Captain", "12345"]
    );
    assert_eq!(extract_fields_internal(&rec, &vec![rs(0, 0), rs(3, 3)]), ["Captain"]);
    assert_eq!(
        extract_fields_internal(&rec, &vec![rs(1, 1), rs(0, 0)]),
        ["Sham", "Captain"]
    );
}

#[test]
fn single_number_token() {
    assert_eq!(parse_range("1").unwrap(), rs(0, 0));
    assert_eq!(parse_range("5").unwrap(), rs(4, 4));
    assert_eq!(parse_range("+7").unwrap(), rs(6, 6));
    assert_eq!(parse_range("42").unwrap(), rs(41, 41));
}

#[test]
fn two_number_token_keeps_order() {
    assert_eq!(parse_range("1-3").unwrap(), rs(0, 2));
    assert_eq!(parse_range("3-3").unwrap(), rs(2, 2));
    assert_eq!(parse_range("3-1").unwrap(), rs(2, 0));
    assert_eq!(parse_range("10-2").unwrap(), rs(9, 1));
}

#[test]
fn zero_index_tokens_fail() {
    let res = parse_range("0");
    assert!(res.is_err());
    assert_eq!(
        res.unwrap_err().message(),
        "Invalid range '0' - number would be zero for non-zero type"
    );
    assert!(parse_range("0-1").is_err());
    assert!(parse_range("10-0").is_err());
}

#[test]
fn non_numeric_tokens_fail() {
    let res = parse_range("a");
    assert!(res.is_err());
    assert_eq!(
        res.unwrap_err().message(),
        "Invalid range 'a' - invalid digit found in string"
    );
    assert!(parse_range("1-a").is_err());
    assert!(parse_range("a-1").is_err());
}

#[test]
fn oversized_token_fails() {
    let res = parse_range("99999999999999999999999999");
    assert!(res.is_err());
    assert_eq!(
        res.unwrap_err().message(),
        "Invalid range '99999999999999999999999999' - number too large to fit in target type"
    );
}

#[test]
fn whitespace_around_tokens_is_ignored() {
    assert_eq!(parse_ranges(" 1 , 3-5 ").unwrap(), vec![rs(0, 0), rs(2, 4)]);
}

#[test]
fn descending_range_iterates_down() {
    let ranges = vec![rs(4, 1)];
    let mut it = ranges_iter(&ranges);
    let mut seen: Vec<usize> = Vec::new();
    while let Some(i) = it.next() {
        seen.push(i);
    }
    assert_eq!(seen, vec![4, 3, 2, 1]);
}

#[test]
fn iterator_walks_ranges_in_order() {
    let ranges = vec![rs(2, 2), rs(0, 1), rs(1, 0)];
    let mut it = ranges_iter(&ranges);
    let mut seen: Vec<usize> = Vec::new();
    while let Some(i) = it.next() {
        seen.push(i);
    }
    assert_eq!(seen, vec![2, 0, 1, 1, 0]);
}

#[test]
fn field_extraction_by_record() {
    let line = "Captain,Sham,12345";
    let res = extract_fields(line, ',', &vec![rs(0, 0), rs(2, 2)]);
    assert_eq!(res.unwrap(), "Captain,12345");

    let res = extract_fields(line, ',', &vec![rs(1, 1), rs(0, 0)]);
    assert_eq!(res.unwrap(), "Sham,Captain");

    let res = extract_fields(line, ',', &vec![rs(0, 0), rs(3, 3)]);
    assert_eq!(res.unwrap(), "Captain");
}

#[test]
fn field_extraction_keeps_quoting() {
    let line = "a,\"b,c\",d";
    let res = extract_fields(line, ',', &vec![rs(1, 1), rs(2, 2)]);
    assert_eq!(res.unwrap(), "\"b,c\",d");
}

#[test]
fn field_extraction_empty_line_is_error() {
    let res = extract_fields("", ',', &vec![rs(0, 0)]);
    assert_eq!(res.unwrap_err(), FieldError::NoRecord);
}

#[test]
fn extract_is_repeatable() {
    let line = "one\ttwo\tthree";
    let mode = ExtractedRanges::Fields(vec![rs(2, 2), rs(0, 0)]);
    let first = extract(&mode, '\t', line).unwrap();
    let second = extract(&mode, '\t', line).unwrap();
    assert_eq!(first, second);
    assert_eq!(first, "three\tone");

    let mode = ExtractedRanges::Chars(vec![rs(0, 2), rs(0, 2)]);
    let first = extract(&mode, '\t', line).unwrap();
    let second = extract(&mode, '\t', line).unwrap();
    assert_eq!(first, second);
    assert_eq!(first, "oneone");

    let mode = ExtractedRanges::Bytes(vec![rs(4, 6)]);
    let first = extract(&mode, '\t', line).unwrap();
    let second = extract(&mode, '\t', line).unwrap();
    assert_eq!(first, second);
    assert_eq!(first, "two");
}

#[test]
fn out_of_bounds_positions_are_skipped_in_every_mode() {
    let ranges = vec![rs(0, 0), rs(9, 9)];
    assert_eq!(extract_chars("ab", &ranges), "a");
    assert_eq!(extract_bytes("ab", &ranges), "a");
    assert_eq!(extract_fields("a,b", ',', &ranges).unwrap(), "a");
}
