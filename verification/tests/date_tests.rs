use routesets::date::{date_of_str, format_date, parse_date, Date};

fn d(day: u8, month: u8, year: u32) -> Date {
    Date { day, month, year }
}

#[test]
fn format_then_parse_round_trips() {
    let text = format_date(1, 6, 2024);
    assert_eq!(text, "1/6/2024");
    assert_eq!(date_of_str(&text), d(1, 6, 2024));
}

#[test]
fn format_then_parse_round_trips_zero() {
    let text = format_date(0, 0, 0);
    assert_eq!(text, "0/0/0");
    assert_eq!(date_of_str(&text), d(0, 0, 0));
}

#[test]
fn format_then_parse_round_trips_extremes() {
    let text = format_date(255, 255, 4294967295);
    assert_eq!(text, "255/255/4294967295");
    assert_eq!(date_of_str(&text), d(255, 255, 4294967295));
}

#[test]
fn from_string_parses_a_plain_date() {
    assert_eq!(Date::from(String::from("2/6/2024")), d(2, 6, 2024));
}

#[test]
fn date_new_keeps_components() {
    assert_eq!(Date::new(7, 11, 1999), d(7, 11, 1999));
}

#[test]
fn empty_string_parses_to_zero_date() {
    assert_eq!(date_of_str(""), d(0, 0, 0));
}

#[test]
fn non_numeric_string_parses_to_zero_date() {
    assert_eq!(date_of_str("abc"), d(0, 0, 0));
}

#[test]
fn missing_year_parses_to_zero_year() {
    assert_eq!(date_of_str("5/13"), d(5, 13, 0));
}

#[test]
fn component_too_large_for_a_day_reads_as_zero() {
    assert_eq!(date_of_str("300/6/2024"), d(0, 6, 2024));
}

#[test]
fn component_too_large_for_any_year_reads_as_zero() {
    assert_eq!(date_of_str("1/6/99999999999999999999"), d(1, 6, 0));
}

#[test]
fn extra_pieces_are_ignored() {
    assert_eq!(date_of_str("1/2/3/4"), d(1, 2, 3));
}

#[test]
fn empty_pieces_read_as_zero() {
    assert_eq!(date_of_str("//2024"), d(0, 0, 2024));
}

#[test]
fn non_numeric_pieces_read_as_zero() {
    assert_eq!(date_of_str("1/six/2024"), d(1, 0, 2024));
}

#[test]
fn parse_date_flags_a_fully_valid_date() {
    assert_eq!(parse_date("1/6/2024"), (d(1, 6, 2024), true));
}

#[test]
fn parse_date_tells_a_genuine_zero_date_from_a_failure() {
    assert_eq!(parse_date("0/0/0"), (d(0, 0, 0), true));
    assert_eq!(parse_date(""), (d(0, 0, 0), false));
}

#[test]
fn parse_date_flags_missing_or_bad_components() {
    assert_eq!(parse_date("5/13"), (d(5, 13, 0), false));
    assert_eq!(parse_date("300/6/2024"), (d(0, 6, 2024), false));
    assert_eq!(parse_date("1/2/3/4"), (d(1, 2, 3), false));
}

#[test]
fn parse_then_format_round_trips() {
    let date = date_of_str("5/6/2024");
    assert_eq!(format_date(date.day, date.month, date.year), "5/6/2024");
}

#[test]
fn plus_signed_components_parse_like_std() {
    assert_eq!(date_of_str("+5/6/2024"), d(5, 6, 2024));
    assert_eq!(date_of_str("1/+6/2024"), d(1, 6, 2024));
    assert_eq!(parse_date("+5/6/2024"), (d(5, 6, 2024), true));
}

#[test]
fn bad_signs_read_as_zero() {
    assert_eq!(date_of_str("++5/6/2024"), d(0, 6, 2024));
    assert_eq!(date_of_str("-5/6/2024"), d(0, 6, 2024));
    assert_eq!(date_of_str("+/6/2024"), d(0, 6, 2024));
}
