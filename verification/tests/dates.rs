use shelf::common::{DateBool, Day, Instant, Scalar};

#[test]
fn test_datebool_ser_de() {
    assert_eq!(Some(Scalar::Null), DateBool::False.serialize());
    assert_eq!(Ok(DateBool::False), DateBool::deserialize(&Scalar::Null));
    assert_eq!(Some(Scalar::Flag(true)), DateBool::True.serialize());
    assert_eq!(Ok(DateBool::True), DateBool::deserialize(&Scalar::Flag(true)));
    assert_eq!(
        Ok(DateBool::False),
        DateBool::deserialize(&Scalar::Text("0000-00-00".to_owned()))
    );
    assert_eq!(Ok(DateBool::False), DateBool::deserialize(&Scalar::Flag(false)));

    let stamp = DateBool::Timestamp(Instant {
        seconds: 851_042_397,
        nanos: 0,
        offset: -8 * 3600,
    });
    let text = Scalar::Text("1996-12-19T16:39:57-08:00".to_owned());
    assert_eq!(Some(text.clone()), stamp.serialize());
    assert_eq!(Ok(stamp), DateBool::deserialize(&text));

    let day = DateBool::Date(Day { year: 2018, month: 1, day: 1 });
    let text = Scalar::Text("2018-01-01".to_owned());
    assert_eq!(Some(text.clone()), day.serialize());
    assert_eq!(Ok(day), DateBool::deserialize(&text));

    let month = DateBool::YearMonth(2018, 1);
    let text = Scalar::Text("2018-01-00".to_owned());
    assert_eq!(Some(text.clone()), month.serialize());
    assert_eq!(Ok(month), DateBool::deserialize(&text));
}

#[test]
fn texts_are_read_in_order_of_preference() {
    assert_eq!(
        Ok(DateBool::Date(Day { year: 2018, month: 3, day: 9 })),
        DateBool::parse("2018/03/09")
    );
    assert_eq!(
        Ok(DateBool::Date(Day { year: 2018, month: 3, day: 9 })),
        DateBool::parse("2018-3-9")
    );
    assert_eq!(Ok(DateBool::YearMonth(2018, 12)), DateBool::parse("2018-12-00"));
    assert_eq!(Ok(DateBool::YearMonth(2018, 1)), DateBool::parse("+2018-01-0"));
    assert_eq!(Ok(DateBool::YearMonth(0, 1)), DateBool::parse("0000-01-00"));
    assert_eq!(Ok(DateBool::False), DateBool::parse("0000-00-00"));
    assert_eq!(
        Ok(DateBool::Timestamp(Instant { seconds: 0, nanos: 500_000_000, offset: 0 })),
        DateBool::parse("1970-01-01T00:00:00.5Z")
    );
}

#[test]
fn other_texts_are_refused() {
    for text in [
        "",
        "2018",
        "2018-13-00",
        "2018-00-00",
        "2018-01-00-",
        "10000-01-00",
        "2018--00",
        "2018-1a-00",
        "-2018-01-00",
        "99999999999-01-00",
        "2018-01-00000000000000000001",
        "yesterday",
    ] {
        assert_eq!(
            Err(format!("unrecognized date(time) format: {}", text)),
            DateBool::parse(text)
        );
    }
    assert_eq!(Ok(DateBool::YearMonth(2018, 1)), DateBool::parse("2018-01-00000000000000000000"));
    assert_eq!(
        Err("unrecognized date(time) format: soon".to_string()),
        DateBool::deserialize(&Scalar::Text("soon".to_owned()))
    );
}

#[test]
fn classify_goes_by_what_the_calendar_read() {
    let day = Day { year: 1, month: 2, day: 3 };
    let other = Day { year: 4, month: 5, day: 6 };
    let stamp = Instant { seconds: 1, nanos: 2, offset: 3 };
    assert_eq!(
        Ok(DateBool::False),
        DateBool::classify("0000-00-00", Some(stamp), Some(day), Some(other))
    );
    assert_eq!(
        Ok(DateBool::Timestamp(stamp)),
        DateBool::classify("x", Some(stamp), Some(day), Some(other))
    );
    assert_eq!(Ok(DateBool::Date(day)), DateBool::classify("x", None, Some(day), Some(other)));
    assert_eq!(Ok(DateBool::Date(other)), DateBool::classify("x", None, None, Some(other)));
    assert_eq!(Ok(DateBool::YearMonth(7, 8)), DateBool::classify("7-8-0", None, None, None));
    assert_eq!(
        Err("unrecognized date(time) format: x".to_string()),
        DateBool::classify("x", None, None, None)
    );
}

#[test]
fn markers_are_written_as_they_are_read() {
    assert_eq!(Some(Scalar::Text("7-12-00".to_owned())), DateBool::YearMonth(7, 12).serialize());
    assert_eq!(
        Some(Scalar::Text("2020-02-29".to_owned())),
        DateBool::Date(Day { year: 2020, month: 2, day: 29 }).serialize()
    );
    assert_eq!(None, DateBool::Date(Day { year: 2021, month: 2, day: 29 }).serialize());
    assert_eq!(
        Some(Scalar::Text("1970-01-01T00:00:00.500Z".to_owned())),
        DateBool::Timestamp(Instant { seconds: 0, nanos: 500_000_000, offset: 0 }).serialize()
    );
    assert_eq!(
        Some(Scalar::Text("1970-01-01T01:00:00+01:00".to_owned())),
        DateBool::Timestamp(Instant { seconds: 0, nanos: 0, offset: 3600 }).serialize()
    );
    assert_eq!(
        None,
        DateBool::Timestamp(Instant { seconds: 0, nanos: 0, offset: 86_400 }).serialize()
    );
    assert_eq!(DateBool::False, DateBool::default());
}

#[test]
fn a_moment_past_the_calendar_is_not_written() {
    let last_hour = Instant { seconds: 8_210_266_873_200, nanos: 0, offset: 0 };
    assert_eq!(
        Some(Scalar::Text("+262142-12-31T23:00:00Z".to_owned())),
        DateBool::Timestamp(last_hour).serialize()
    );
    assert_eq!(None, DateBool::Timestamp(Instant { offset: 7200, ..last_hour }).serialize());
    assert!(DateBool::Timestamp(Instant { offset: -7200, ..last_hour }).serialize().is_some());
    assert_eq!(
        None,
        DateBool::Timestamp(Instant { seconds: i64::MAX, nanos: 0, offset: 0 }).serialize()
    );
    assert_eq!(
        None,
        DateBool::Timestamp(Instant { seconds: i64::MIN, nanos: 0, offset: -60 }).serialize()
    );
}

#[test]
fn one_moment_is_equal_under_any_offset() {
    let here = Instant { seconds: 851_042_397, nanos: 0, offset: -8 * 3600 };
    let there = Instant { seconds: 851_042_397, nanos: 0, offset: 3600 };
    assert_eq!(here, there);
    assert_eq!(DateBool::Timestamp(here), DateBool::Timestamp(there));
    assert_ne!(here, Instant { seconds: 851_042_398, ..here });
    assert_ne!(here, Instant { nanos: 1, ..here });
    assert_eq!(
        DateBool::parse("1996-12-19T16:39:57-08:00"),
        DateBool::parse("1996-12-20T00:39:57Z")
    );
}
