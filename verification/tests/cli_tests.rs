use a_puzzle_a_day::cli::parse_date_or_today;

#[test]
fn explicit_dates_parse() {
    let d = parse_date_or_today("jan 1").unwrap();
    assert_eq!(d.month.index, 0);
    assert_eq!(d.day.index, 14);
    let d = parse_date_or_today("december 25").unwrap();
    assert_eq!(d.month.index, 12);
    assert_eq!(d.day.index, 38);
    let d = parse_date_or_today("jul 4").unwrap();
    assert_eq!(d.month.index, 7);
    assert_eq!(d.day.index, 17);
    let d = parse_date_or_today("feb,29").unwrap();
    assert_eq!(d.month.index, 1);
    assert_eq!(d.day.index, 42);
}

#[test]
fn case_and_surrounding_whitespace_are_ignored() {
    // Uppercase input exercises the lowercasing step: without it, "MAR"
    // would have no lowercase month-name prefix at all.
    let d = parse_date_or_today("  MAR 15  ").unwrap();
    assert_eq!(d.month.index, 2);
    assert_eq!(d.day.index, 28);
    let today_upper = parse_date_or_today("TODAY").unwrap();
    assert!(today_upper.is_valid());
}

#[test]
fn unknown_month_is_rejected() {
    assert_eq!(parse_date_or_today("smarch 1").unwrap_err(), "invalid month");
    assert_eq!(parse_date_or_today("1 jan").unwrap_err(), "invalid month");
}

#[test]
fn malformed_days_are_rejected() {
    assert_eq!(
        parse_date_or_today("jan one").unwrap_err(),
        "could not determine day"
    );
    assert_eq!(parse_date_or_today("jan").unwrap_err(), "could not determine day");
    assert_eq!(
        parse_date_or_today("jan 99999999999999999999999999").unwrap_err(),
        "could not determine day"
    );
}

#[test]
fn out_of_range_days_are_rejected() {
    assert_eq!(
        parse_date_or_today("jan 0").unwrap_err(),
        "day must be in range 1-31"
    );
    assert_eq!(
        parse_date_or_today("jan 32").unwrap_err(),
        "day must be in range 1-31"
    );
}

#[test]
fn impossible_calendar_dates_are_rejected() {
    assert_eq!(parse_date_or_today("feb 30").unwrap_err(), "invalid date");
    assert_eq!(parse_date_or_today("apr 31").unwrap_err(), "invalid date");
    assert_eq!(parse_date_or_today("nov 31").unwrap_err(), "invalid date");
}

#[test]
fn today_resolves_to_a_valid_date() {
    assert!(parse_date_or_today("today").unwrap().is_valid());
    assert!(parse_date_or_today("today +1").unwrap().is_valid());
    assert!(parse_date_or_today("today-1").unwrap().is_valid());
    assert!(parse_date_or_today("+7").unwrap().is_valid());
    assert!(parse_date_or_today("-7").unwrap().is_valid());
}

#[test]
fn bad_offsets_are_rejected() {
    assert_eq!(
        parse_date_or_today("today +x").unwrap_err(),
        "date offset must be an integer"
    );
    assert_eq!(
        parse_date_or_today("today ~3").unwrap_err(),
        "could not parse date offset"
    );
    assert_eq!(
        parse_date_or_today("today +").unwrap_err(),
        "date offset must be an integer"
    );
}

#[test]
fn huge_offsets_leave_the_calendar_range() {
    assert_eq!(
        parse_date_or_today("today +90000000000000000000").unwrap_err(),
        "date offset must be an integer"
    );
    assert_eq!(
        parse_date_or_today("today +900000000000000000").unwrap_err(),
        "date offset out of range"
    );
}
