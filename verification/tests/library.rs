use tzmath::{format_duration, parse_duration, DateTime, Offset, ParseError, ParseErrorKind};

fn kind_of_datetime(s: &str) -> ParseErrorKind {
    DateTime::parse(s).unwrap_err().0
}

fn kind_of_offset(s: &str) -> ParseErrorKind {
    Offset::parse(s).unwrap_err().0
}

fn kind_of_duration(s: &str) -> ParseErrorKind {
    parse_duration(s).unwrap_err().0
}

#[test]
fn each_timestamp_error_has_its_reason() {
    assert_eq!(kind_of_datetime("2024-03-10T14:30:00\u{2103}"), ParseErrorKind::NonAscii);
    assert_eq!(kind_of_datetime("2024-03-10T14:30"), ParseErrorKind::TooShort);
    assert_eq!(kind_of_datetime("2024-03-10X14:30:00Z"), ParseErrorKind::BadDateTimeSeparator);
    assert_eq!(kind_of_datetime("2024/03/10T14:30:00Z"), ParseErrorKind::BadDateSeparator);
    assert_eq!(kind_of_datetime("2024-03-10T14-30-00Z"), ParseErrorKind::BadTimeSeparator);
    assert_eq!(kind_of_datetime("20x4-03-10T14:30:00Z"), ParseErrorKind::BadYear);
    assert_eq!(kind_of_datetime("2024--3-10T14:30:00Z"), ParseErrorKind::BadMonth);
    assert_eq!(kind_of_datetime("2024-03-1aT14:30:00Z"), ParseErrorKind::BadDay);
    assert_eq!(kind_of_datetime("2024-03-10T1 :30:00Z"), ParseErrorKind::BadHour);
    assert_eq!(kind_of_datetime("2024-03-10T14:-3:00Z"), ParseErrorKind::BadMinute);
    assert_eq!(kind_of_datetime("2024-03-10T14:30:0xZ"), ParseErrorKind::BadSecond);
    assert_eq!(kind_of_datetime("2024-03-10T14:30:00.Z"), ParseErrorKind::MissingFractionDigits);
    assert_eq!(kind_of_datetime("2024-03-10T14:30:00.5"), ParseErrorKind::BadOffset);
    assert_eq!(kind_of_datetime("2024-13-10T14:30:00Z"), ParseErrorKind::MonthOutOfRange(13));
    assert_eq!(
        kind_of_datetime("2023-02-29T00:00:00Z"),
        ParseErrorKind::DayOutOfRange { year: 2023, month: 2, day: 29 }
    );
    assert_eq!(kind_of_datetime("2024-03-10T24:00:00Z"), ParseErrorKind::HourOutOfRange(24));
    assert_eq!(kind_of_datetime("2024-03-10T00:60:00Z"), ParseErrorKind::MinuteOutOfRange(60));
    assert_eq!(kind_of_datetime("2024-03-10T00:00:60Z"), ParseErrorKind::SecondOutOfRange(60));
}

#[test]
fn offset_errors_come_before_range_errors() {
    assert_eq!(kind_of_datetime("2024-13-10T14:30:00+5:00"), ParseErrorKind::BadOffset);
}

#[test]
fn each_offset_error_has_its_reason() {
    assert_eq!(kind_of_offset("+5:00"), ParseErrorKind::BadOffset);
    assert_eq!(kind_of_offset("+05-00"), ParseErrorKind::BadOffset);
    assert_eq!(kind_of_offset("\u{2212}05:00"), ParseErrorKind::BadOffset);
    assert_eq!(kind_of_offset("*05:00"), ParseErrorKind::BadOffsetSign);
    assert_eq!(kind_of_offset("+5-:00"), ParseErrorKind::BadOffsetHours);
    assert_eq!(kind_of_offset("+--:00"), ParseErrorKind::BadOffsetHours);
    assert_eq!(kind_of_offset("+05:x0"), ParseErrorKind::BadOffsetMinutes);
    assert_eq!(kind_of_offset("+05:60"), ParseErrorKind::OffsetMinutesOutOfRange(60));
    assert_eq!(kind_of_offset("-12:01"), ParseErrorKind::OffsetOutOfRange(-721));
    assert_eq!(kind_of_offset("+99:59"), ParseErrorKind::OffsetOutOfRange(5999));
}

#[test]
fn from_minutes_checks_the_real_world_range() {
    assert_eq!(Offset::from_minutes(-720).unwrap().minutes(), -720);
    assert_eq!(Offset::from_minutes(840).unwrap().minutes(), 840);
    assert_eq!(
        Offset::from_minutes(841).unwrap_err(),
        ParseError(ParseErrorKind::OffsetOutOfRange(841))
    );
}

#[test]
fn each_duration_error_has_its_reason() {
    assert_eq!(kind_of_duration("   "), ParseErrorKind::EmptyDuration);
    assert_eq!(kind_of_duration("+"), ParseErrorKind::SignWithoutDigits);
    assert_eq!(kind_of_duration("h3"), ParseErrorKind::MissingNumber('h'));
    assert_eq!(kind_of_duration("9223372036854775808s"), ParseErrorKind::BadNumber);
    assert_eq!(kind_of_duration("3x"), ParseErrorKind::UnknownUnit('x'));
    assert_eq!(kind_of_duration("3h\u{e9}"), ParseErrorKind::MissingNumber('\u{e9}'));
    assert_eq!(kind_of_duration("3h4"), ParseErrorKind::TrailingDigits);
}

#[test]
fn duration_totals_and_limits() {
    assert_eq!(parse_duration(" 0s ").unwrap(), 0);
    assert_eq!(parse_duration("-1d1s").unwrap(), -86401);
    assert_eq!(parse_duration("90s30s").unwrap(), 120);
    assert_eq!(parse_duration("9223372036854775807s").unwrap(), i64::MAX);
    assert_eq!(parse_duration("-9223372036854775807s").unwrap(), -i64::MAX);
    assert_eq!(parse_duration("106751991167300d").unwrap(), 9_223_372_036_854_720_000);
    assert_eq!(kind_of_duration("106751991167301d"), ParseErrorKind::BadNumber);
    assert_eq!(kind_of_duration("9223372036854775807s1s"), ParseErrorKind::BadNumber);
    assert_eq!(kind_of_duration("-9223372036854775808s"), ParseErrorKind::BadNumber);
}

#[test]
fn known_instants() {
    let epoch = DateTime::parse("1970-01-01T00:00:00Z").unwrap();
    assert_eq!(epoch.to_epoch_seconds(), 0);
    assert_eq!(DateTime::parse("2000-01-01T00:00:00Z").unwrap().to_epoch_seconds(), 946_684_800);
    assert_eq!(DateTime::parse("0001-01-01T00:00:00Z").unwrap().to_epoch_seconds(), -62_135_596_800);
    assert_eq!(DateTime::parse("9999-12-31T23:59:59Z").unwrap().to_epoch_seconds(), 253_402_300_799);
    assert_eq!(DateTime::parse("2024-03-10T14:30:00-05:00").unwrap().to_epoch_seconds(), 1_710_099_000);
}

#[test]
fn years_before_zero_print_with_a_sign() {
    let dt = DateTime::from_epoch_seconds(-62_167_219_200 - 86_400, Offset::utc());
    assert_eq!(dt.year, -1);
    assert_eq!(dt.month, 12);
    assert_eq!(dt.day, 31);
    assert_eq!(dt.to_string(), "-001-12-31T00:00:00Z");
    assert_eq!(dt.to_epoch_seconds(), -62_167_219_200 - 86_400);
}

#[test]
fn year_zero_is_a_leap_year() {
    assert!(DateTime::parse("0000-02-29T00:00:00Z").is_ok());
    assert_eq!(DateTime::parse("0000-01-01T00:00:00Z").unwrap().to_epoch_seconds(), -62_167_219_200);
}

#[test]
fn whitespace_of_every_kind_is_trimmed() {
    let dt = DateTime::parse("\u{3000}\t2024-03-10T14:30:00Z\u{a0}\n").unwrap();
    assert_eq!(dt.day, 10);
    assert_eq!(parse_duration("\u{2003}90m ").unwrap(), 5400);
}

#[test]
fn text_round_trip_on_examples() {
    for s in [
        "2024-03-10T14:30:00.000000001+14:00",
        "0000-01-01T00:00:00-12:00",
        "9999-12-31T23:59:59.999999999Z",
        "2024-02-29T12:00:00.1-09:30",
        "-001-12-31T00:00:00Z",
        "-999-01-01T23:59:59.75+14:00",
    ] {
        let dt = DateTime::parse(s).unwrap();
        assert_eq!(dt.to_string(), s);
        assert_eq!(DateTime::parse(&dt.to_string()).unwrap(), dt);
    }
    assert_eq!(
        DateTime::parse("2024-03-10t14:30:00.500z").unwrap().to_string(),
        "2024-03-10T14:30:00.5Z"
    );
}

#[test]
fn offset_text_round_trip_on_every_offset() {
    for m in -720..=840 {
        let o = Offset::from_minutes(m).unwrap();
        assert_eq!(Offset::parse(&o.to_string()).unwrap(), o);
    }
    assert_eq!(Offset::from_minutes(-720).unwrap().to_string(), "-12:00");
    assert_eq!(Offset::from_minutes(-30).unwrap().to_string(), "-00:30");
}

#[test]
fn converting_keeps_the_instant_and_composes() {
    let dt = DateTime::parse("2024-12-31T23:30:00.25+01:00").unwrap();
    let kiribati = Offset::parse("+14:00").unwrap();
    let baker = Offset::parse("-12:00").unwrap();
    let k = dt.with_offset(kiribati);
    assert_eq!(k.to_string(), "2025-01-01T12:30:00.25+14:00");
    assert_eq!(k.to_epoch_seconds(), dt.to_epoch_seconds());
    assert_eq!(k.with_offset(baker), dt.with_offset(baker));
    assert_eq!(dt.with_offset(dt.offset), dt);
}

#[test]
fn adding_moves_the_instant_and_composes() {
    let dt = DateTime::parse("2023-02-28T23:59:59.5Z").unwrap();
    let later = dt.add_seconds(1);
    assert_eq!(later.to_string(), "2023-03-01T00:00:00.5Z");
    assert_eq!(later.to_epoch_seconds(), dt.to_epoch_seconds() + 1);
    assert_eq!(dt.add_seconds(86_400 * 366).add_seconds(-86_400), dt.add_seconds(86_400 * 365));
    assert_eq!(dt.add_seconds(0), dt);
    assert_eq!(dt.add_seconds(-86_400 * 365 * 30).to_string(), "1993-03-07T23:59:59.5Z");
}

#[test]
fn epoch_round_trip_on_many_instants() {
    let mut e: i64 = -62_167_219_200;
    while e < 253_402_300_799 {
        let dt = DateTime::from_epoch_seconds(e, Offset::utc());
        assert_eq!(dt.to_epoch_seconds(), e);
        assert_eq!(DateTime::from_epoch_seconds(dt.to_epoch_seconds(), dt.offset), dt);
        e += 86_399 * 37 + 13;
    }
}

#[test]
fn to_epoch_seconds_of_out_of_range_fields() {
    // Month 13 counts as January of the next year.
    let mut dt = DateTime::parse("2024-01-15T00:00:00Z").unwrap();
    let january = DateTime::parse("2025-01-15T00:00:00Z").unwrap().to_epoch_seconds();
    dt.month = 13;
    assert_eq!(dt.to_epoch_seconds(), january);
}

#[test]
fn durations_are_written_in_components() {
    assert_eq!(format_duration(12_600), "3h30m");
    assert_eq!(format_duration(0), "0s");
    assert_eq!(format_duration(-86_401), "-1d1s");
    assert_eq!(format_duration(93_784), "1d2h3m4s");
    assert_eq!(format_duration(i64::MIN), "-106751991167300d15h30m8s");
}

#[test]
fn written_durations_read_back() {
    for x in [0i64, 1, -1, 59, 60, 3_599, 86_400, -5_400, 1_234_567_890, i64::MAX, i64::MIN + 1] {
        let text = format_duration(x);
        assert_eq!(parse_duration(&text).unwrap(), x);
    }
    assert_eq!(kind_of_duration(&format_duration(i64::MIN)), ParseErrorKind::BadNumber);
}

#[test]
fn diff_of_two_readings_as_a_duration() {
    let from = DateTime::parse("2024-03-10T14:30:00-05:00").unwrap();
    let to = DateTime::parse("2024-03-10T18:00:00-05:00").unwrap();
    assert_eq!(format_duration(to.to_epoch_seconds() - from.to_epoch_seconds()), "3h30m");
}

#[test]
fn fields_are_digits_and_only_the_year_takes_a_minus() {
    assert_eq!(kind_of_datetime("2024-+3-10T14:30:00Z"), ParseErrorKind::BadMonth);
    assert_eq!(kind_of_datetime("2024-03-+1T14:30:00Z"), ParseErrorKind::BadDay);
    assert_eq!(kind_of_datetime("2024-03-10T+9:30:00Z"), ParseErrorKind::BadHour);
    assert_eq!(kind_of_datetime("2024-03-10T09:+5:00Z"), ParseErrorKind::BadMinute);
    assert_eq!(kind_of_datetime("2024-03-10T09:05:+7Z"), ParseErrorKind::BadSecond);
    assert_eq!(kind_of_datetime("+999-01-01T00:00:00Z"), ParseErrorKind::BadYear);
    assert_eq!(kind_of_datetime("--99-01-01T00:00:00Z"), ParseErrorKind::BadYear);
    let dt = DateTime::parse("-001-12-31T00:00:00Z").unwrap();
    assert_eq!(dt.year, -1);
    assert_eq!(dt.to_epoch_seconds(), -62_167_219_200 - 86_400);
    assert_eq!(kind_of_datetime("2024-03-10T14:30:00+-5:00"), ParseErrorKind::BadOffsetHours);
    assert_eq!(kind_of_offset("+-5:00"), ParseErrorKind::BadOffsetHours);
    assert_eq!(kind_of_offset("++5:00"), ParseErrorKind::BadOffsetHours);
    assert_eq!(kind_of_offset("-+5:00"), ParseErrorKind::BadOffsetHours);
    assert_eq!(kind_of_offset("+05:-5"), ParseErrorKind::BadOffsetMinutes);
    assert_eq!(kind_of_offset("+05:+9"), ParseErrorKind::BadOffsetMinutes);
    assert_eq!(kind_of_offset("+05:+60"), ParseErrorKind::BadOffset);
}

#[test]
fn the_day_after_counts_one_more() {
    for (day, next) in [
        ("2023-12-31", "2024-01-01"),
        ("2024-02-28", "2024-02-29"),
        ("2024-02-29", "2024-03-01"),
        ("2023-02-28", "2023-03-01"),
        ("1969-12-31", "1970-01-01"),
        ("-001-12-31", "0000-01-01"),
    ] {
        let a = DateTime::parse(&format!("{day}T00:00:00Z")).unwrap().to_epoch_seconds();
        let b = DateTime::parse(&format!("{next}T00:00:00Z")).unwrap().to_epoch_seconds();
        assert_eq!(b, a + 86_400);
    }
}

#[test]
fn duration_components_add_up_in_any_order() {
    assert_eq!(parse_duration("1h1h").unwrap(), 7_200);
    assert_eq!(parse_duration("30s1m").unwrap(), 90);
    assert_eq!(parse_duration("007s").unwrap(), 7);
    assert_eq!(parse_duration("+1d").unwrap(), 86_400);
    assert_eq!(parse_duration("-2m2d").unwrap(), -(120 + 2 * 86_400));
    assert!(parse_duration("1h 1m").is_err());
    assert!(parse_duration("--1m").is_err());
}

fn datetime_message(s: &str) -> String {
    let e = DateTime::parse(s).unwrap_err();
    e.message(DateTime::error_subject(s, &e))
}

#[test]
fn messages_quote_what_was_refused() {
    assert_eq!(datetime_message(" 2024-13-10T14:30:00Z "), "month 13 out of range 1..=12");
    assert_eq!(
        datetime_message("2024-03-10T14:30:00.5+5:00"),
        "bad offset '+5:00', expected +HH:MM, -HH:MM or Z"
    );
    assert_eq!(datetime_message("2024-03-10T14:30:00*05:00"), "offset '*05:00' must start with + or -");
    assert_eq!(datetime_message("2024-03-10T14:30:00+x5:00"), "bad offset hours in '+x5:00'");
    assert_eq!(datetime_message("2023-02-29T00:00:00Z"), "day 29 out of range for 2023-02");
    assert_eq!(datetime_message("-001-02-30T00:00:00Z"), "day 30 out of range for -1-02");
    assert_eq!(
        datetime_message(" 2024/03/10T14:30:00Z"),
        "expected '-' separators in the date part of '2024/03/10T14:30:00Z'"
    );
    assert_eq!(
        datetime_message("2024-03-10T14:30:00\u{2103}"),
        "'2024-03-10T14:30:00\u{2103}' contains non-ASCII bytes"
    );
    assert_eq!(datetime_message("2024-03-10T1x:30:00Z"), "bad hour in '2024-03-10T1x:30:00Z'");
    let e = Offset::parse("-12:01").unwrap_err();
    assert_eq!(
        e.message("-12:01"),
        "offset of -721 minutes is outside the real-world range -12:00..=+14:00"
    );
    let e = Offset::parse("+05:60").unwrap_err();
    assert_eq!(e.message("+05:60"), "offset minutes 60 out of range 0..=59");
    let e = parse_duration(" 3x ").unwrap_err();
    assert_eq!(e.message("3x"), "unknown duration unit 'x' in '3x'");
    let e = parse_duration("h3").unwrap_err();
    assert_eq!(e.message("h3"), "duration 'h3' is missing a number before 'h'");
    assert_eq!(parse_duration("").unwrap_err().message(""), "duration is empty");
    let e = parse_duration("106751991167301d").unwrap_err();
    assert_eq!(e.message("106751991167301d"), "bad number in duration '106751991167301d'");
    let e = parse_duration("3h4").unwrap_err();
    assert_eq!(e.message("3h4"), "duration '3h4' has trailing digits with no unit");
}

#[test]
fn trimming_goes_by_white_space_only() {
    assert_eq!(parse_duration("\u{85}\u{1680}1s\u{205f}\u{2028}").unwrap(), 1);
    assert_eq!(parse_duration("\u{200b}1s"), Err(ParseError(ParseErrorKind::MissingNumber('\u{200b}'))));
    assert_eq!(kind_of_duration("\u{3000}\u{a0}"), ParseErrorKind::EmptyDuration);
}
