use aoc23::digits::{calibration_value, first_digit, last_digit};

fn value(s: &str) -> usize {
    calibration_value(s.as_bytes()).unwrap()
}

#[test]
fn literal_digit_lines() {
    assert_eq!(value("1abc2"), 12);
    assert_eq!(value("pqr3stu8vwx"), 38);
    assert_eq!(value("a1b2c3d4e5f"), 15);
    assert_eq!(value("treb7uchet"), 77);
}

#[test]
fn spelled_digit_lines() {
    assert_eq!(value("two1nine"), 29);
    assert_eq!(value("eightwothree"), 83);
    assert_eq!(value("abcone2threexyz"), 13);
    assert_eq!(value("xtwone3four"), 24);
    assert_eq!(value("4nineeightseven2"), 42);
    assert_eq!(value("zoneight234"), 14);
    assert_eq!(value("7pqrstsixteen"), 76);
}

#[test]
fn first_and_last() {
    assert_eq!(first_digit(b"xtwone3four"), Some(2));
    assert_eq!(last_digit(b"xtwone3four"), Some(4));
    // overlapping words: the last digit of "eightwo" is two
    assert_eq!(last_digit(b"eightwo"), Some(2));
    assert_eq!(first_digit(b"eightwo"), Some(8));
    assert_eq!(first_digit(b"nodigitshere"), None);
    assert_eq!(calibration_value(b"nodigitshere"), None);
    assert_eq!(calibration_value(b""), None);
}
