use fauxrrt::datetime::{civil_day_number, datetime_fields, parse_i32, parse_u32};

fn chars(s: &str) -> Vec<char> {
    s.chars().collect()
}

#[test]
fn integers_parse_like_the_standard_library() {
    assert_eq!(parse_u32(&chars("42")), Some(42));
    assert_eq!(parse_u32(&chars("+7")), Some(7));
    assert_eq!(parse_u32(&chars("007")), Some(7));
    assert_eq!(parse_u32(&chars("4294967295")), Some(u32::MAX));
    assert_eq!(parse_u32(&chars("4294967296")), None);
    assert_eq!(parse_u32(&chars("-1")), None);
    assert_eq!(parse_u32(&chars("+")), None);
    assert_eq!(parse_u32(&chars("")), None);
    assert_eq!(parse_u32(&chars("1 ")), None);
    assert_eq!(parse_i32(&chars("-2147483648")), Some(i32::MIN));
    assert_eq!(parse_i32(&chars("2147483647")), Some(i32::MAX));
    assert_eq!(parse_i32(&chars("2147483648")), None);
    assert_eq!(parse_i32(&chars("-")), None);
    assert_eq!(parse_i32(&chars("-12")), Some(-12));
    for s in ["0", "17", "+3", "-99", "x", "", "99999999999"] {
        assert_eq!(parse_i32(&chars(s)), s.parse::<i32>().ok(), "{s}");
        assert_eq!(parse_u32(&chars(s)), s.parse::<u32>().ok(), "{s}");
    }
}

#[test]
fn timestamp_fields() {
    let f = datetime_fields(" 2024-01-05T10:30:15.5Z ").unwrap();
    assert_eq!((f.year, f.month, f.day, f.hour, f.minute), (2024, 1, 5, 10, 30));
    assert_eq!(f.seconds, "15.5");
    assert!(datetime_fields("1/5/2024 7:05").is_none());
    let f = datetime_fields("2024/1/5 7:05").unwrap();
    assert_eq!((f.year, f.month, f.day, f.hour, f.minute), (2024, 1, 5, 7, 5));
    assert_eq!(f.seconds, "0");
    let f = datetime_fields("2024-03-04").unwrap();
    assert_eq!((f.hour, f.minute), (0, 0));
    assert_eq!(f.seconds, "00");
    assert!(datetime_fields("2024-13-01T00:00").is_none());
    assert!(datetime_fields("2024-01-32T00:00").is_none());
    assert!(datetime_fields("2024-01-05  10:00").is_none());
    assert!(datetime_fields("12.5").is_none());
    assert!(datetime_fields("2024-01").is_none());
}

#[test]
fn day_numbers_count_from_1970() {
    assert_eq!(civil_day_number(1970, 1, 1), 0);
    assert_eq!(civil_day_number(1970, 1, 2), 1);
    assert_eq!(civil_day_number(1969, 12, 31), -1);
    assert_eq!(civil_day_number(2000, 3, 1), 11017);
    assert_eq!(civil_day_number(2024, 2, 29) + 1, civil_day_number(2024, 3, 1));
    assert_eq!(civil_day_number(2023, 2, 28) + 1, civil_day_number(2023, 3, 1));
    assert_eq!(civil_day_number(2024, 1, 2), 19724);
    assert_eq!(civil_day_number(1900, 3, 1) - civil_day_number(1900, 2, 28), 1);
    assert_eq!(civil_day_number(0, 1, 1), -719528);
}
