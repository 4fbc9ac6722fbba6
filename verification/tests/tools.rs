use cutlib::date::{Date, DateError};
use cutlib::fortune::{pick_fortune, Fortune};
use cutlib::mode::format_mode;
use cutlib::stats::{format_field, process_stats, Stats};
use cutlib::tail::Position::{FromHead, FromTail};
use cutlib::tail::{get_tail_range, parse_tail_value};

#[test]
fn works() {
    assert!(true);
}

#[test]
fn test_stats() {
    let text = "I don't want the world. I just want your half.\r\n";
    let stats = process_stats(text);

    let expected = Stats {
        lines: 1,
        words: 10,
        chars: 48,
        bytes: 48,
    };
    assert_eq!(stats, expected);
}

#[test]
fn test_format_field() {
    assert_eq!(format_field(1, false), "");
    assert_eq!(format_field(3, true), "       3");
    assert_eq!(format_field(10, true), "      10");
}

#[test]
fn test_get_tail_range() {
    // +0 from an empty file (0 lines/bytes) selects nothing
    assert_eq!(get_tail_range(&FromHead(0), 0), Some(0..0));

    // +0 from a nonempty file selects everything
    assert_eq!(get_tail_range(&FromHead(0), 1), Some(0..1));

    // Taking 0 lines/bytes selects nothing
    assert_eq!(get_tail_range(&FromTail(0), 1), Some(1..1));

    // Taking any lines/bytes from an empty file selects nothing
    assert_eq!(get_tail_range(&FromTail(1), 0), Some(0..0));

    // When starting line/byte is less than total lines/bytes,
    // return one less than starting number
    assert_eq!(get_tail_range(&FromTail(1), 10), Some(9..10));
    assert_eq!(get_tail_range(&FromTail(2), 10), Some(8..10));
    assert_eq!(get_tail_range(&FromTail(3), 10), Some(7..10));

    // When counting from the head, skip that many elements
    assert_eq!(get_tail_range(&FromHead(1), 10), Some(1..10));
    assert_eq!(get_tail_range(&FromHead(2), 10), Some(2..10));
    assert_eq!(get_tail_range(&FromHead(3), 10), Some(3..10));

    // When taking more from the tail than the total, take the whole file
    assert_eq!(get_tail_range(&FromTail(2), 1), Some(0..1));
    assert_eq!(get_tail_range(&FromTail(20), 10), Some(0..10));
}

#[test]
fn test_parse_tail_value() {
    // All integers should be interpreted as negative numbers
    let res = parse_tail_value("3");
    assert!(res.is_ok());
    assert_eq!(res.unwrap(), FromTail(3));

    // A leading "+" should result in a positive number
    let res = parse_tail_value("+3");
    assert!(res.is_ok());
    assert_eq!(res.unwrap(), FromHead(3));

    // An explicit "-" value should result in a negative number
    let res = parse_tail_value("-3");
    assert!(res.is_ok());
    assert_eq!(res.unwrap(), FromTail(3));

    // Zero is zero
    let res = parse_tail_value("0");
    assert!(res.is_ok());
    assert_eq!(res.unwrap(), FromTail(0));

    // Plus zero is special
    let res = parse_tail_value("+0");
    assert!(res.is_ok());
    assert_eq!(res.unwrap(), FromHead(0));

    // A floating-point value is invalid
    let res = parse_tail_value("3.14");
    assert!(res.is_err());
    assert_eq!(res.unwrap_err().message(), "invalid digit found in string");

    // Any non-integer string is invalid
    let res = parse_tail_value("foo");
    assert!(res.is_err());
    assert_eq!(res.unwrap_err().message(), "invalid digit found in string");
}

#[test]
fn head_past_total_selects_nothing() {
    assert_eq!(get_tail_range(&FromHead(11), 10), None);
}

#[test]
fn test_parse_year() {
    let res = Date::parse_year("1");
    assert!(res.is_err());
    assert_eq!(
        res.unwrap_err().message(),
        "year 1 not in the range [99,9999]"
    );

    let res = Date::parse_year("100");
    assert!(res.is_ok());
    assert_eq!(res.unwrap().0, 100i32);

    let res = Date::parse_year("9999");
    assert!(res.is_ok());
    assert_eq!(res.unwrap().0, 9999i32);

    let res = Date::parse_year("0");
    assert!(res.is_err());
    assert_eq!(
        res.unwrap_err().message(),
        "year 0 not in the range [99,9999]"
    );

    let res = Date::parse_year("10000");
    assert!(res.is_err());
    assert_eq!(
        res.unwrap_err().message(),
        "year 10000 not in the range [99,9999]"
    );

    let res = Date::parse_year("foo");
    assert!(res.is_err());
    assert_eq!(res.unwrap_err().message(), "invalid digit found in string");
}

#[test]
fn test_parse_month() {
    let res = Date::parse_month("1");
    assert!(res.is_ok());
    assert_eq!(res.unwrap().0, 1u32);

    let res = Date::parse_month("12");
    assert!(res.is_ok());
    assert_eq!(res.unwrap().0, 12u32);

    let res = Date::parse_month("jan");
    assert!(res.is_ok());
    assert_eq!(res.unwrap().0, 1u32);

    let res = Date::parse_month("0");
    assert!(res.is_err());
    assert_eq!(res.unwrap_err().message(), "month 0 not in the range [1,12]");

    let res = Date::parse_month("13");
    assert!(res.is_err());
    assert_eq!(
        res.unwrap_err().message(),
        "month 13 not in the range [1,12]"
    );

    let res = Date::parse_month("foo");
    assert!(res.is_err());
    assert_eq!(res.unwrap_err().message(), "invalid digit found in string");
}

#[test]
fn month_names_match_case_insensitively() {
    assert_eq!(Date::parse_month("JANUARY").unwrap().0, 1);
    assert_eq!(Date::parse_month("sep").unwrap().0, 9);
    assert_eq!(Date::parse_month("May").unwrap().0, 5);
    assert_eq!(Date::parse_month("ju").unwrap().0, 6);
}

#[test]
fn negative_year_reports_its_value() {
    let res = Date::parse_year("-5");
    assert!(res.is_err());
    assert_eq!(
        res.unwrap_err().message(),
        "year -5 not in the range [99,9999]"
    );
}

#[test]
fn date_parses_year_and_month_year() {
    let d = Date::parse("2020").unwrap();
    assert_eq!(d.year.0, 2020);
    assert!(d.month.is_none());

    let d = Date::parse("april 2021").unwrap();
    assert_eq!(d.year.0, 2021);
    assert_eq!(d.month.unwrap().0, 4);

    let res = Date::parse("1 2 3");
    assert!(res.is_err());
    assert_eq!(res.unwrap_err(), DateError::Format);
    assert_eq!(DateError::Format.message(), "invalid date format");
}

#[test]
fn test_format_mode() {
    assert_eq!(format_mode(0o755), "rwxr-xr-x");
    assert_eq!(format_mode(0o421), "r---w---x");
}

#[test]
fn test_pick_fortune() {
    // Create a slice of fortunes
    let fortunes = vec![
        Fortune {
            file: "fortunes".to_string(),
            text: "You cannot achieve the impossible without \
                      attempting the absurd."
                .to_string(),
        },
        Fortune {
            file: "fortunes".to_string(),
            text: "Assumption is the mother of all screw-ups.".to_string(),
        },
        Fortune {
            file: "fortunes".to_string(),
            text: "Neckties strangle clear thinking.".to_string(),
        },
    ];

    // Pick a fortune with a seed
    assert_eq!(
        pick_fortune(&fortunes, Some(1)).unwrap(),
        "Assumption is the mother of all screw-ups.".to_string()
    );
}

#[test]
fn pick_fortune_empty_is_none() {
    assert_eq!(pick_fortune(&Vec::new(), Some(1)), None);
    assert_eq!(pick_fortune(&Vec::new(), None), None);
}

#[test]
fn fortune_new_joins_lines() {
    let lines = vec!["first".to_string(), "second".to_string()];
    let f = Fortune::new(Some("jokes".to_string()), &lines);
    assert_eq!(f.file, "jokes");
    assert_eq!(f.text, "first\nsecond");

    let f = Fortune::new(None, &lines);
    assert_eq!(f.file, "Unknown");
}

#[test]
fn stats_accumulate() {
    let mut total = process_stats("one two\n");
    let part = process_stats("three\nfour");
    total.add_assign(&part);
    assert_eq!(
        total,
        Stats {
            lines: 3,
            words: 4,
            bytes: 18,
            chars: 18
        }
    );
}

#[test]
fn stats_counts_unicode() {
    let stats = process_stats("ábc");
    assert_eq!(
        stats,
        Stats {
            lines: 1,
            words: 1,
            bytes: 4,
            chars: 3
        }
    );
}
