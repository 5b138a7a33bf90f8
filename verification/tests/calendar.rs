use bartib::calendar::{parse_date, parse_time, Date, DateTime, Time};

#[test]
fn from_ymd_takes_dates_of_the_calendar() {
    assert!(Date::from_ymd(2021, 2, 16).is_some());
    assert!(Date::from_ymd(2020, 2, 29).is_some());
    assert!(Date::from_ymd(1, 1, 1).is_some());
    assert!(Date::from_ymd(9999, 12, 31).is_some());
}

#[test]
fn from_ymd_takes_every_year_that_chrono_has() {
    assert!(Date::from_ymd(0, 1, 1).is_some());
    assert!(Date::from_ymd(-5, 2, 29).is_none());
    assert!(Date::from_ymd(-4, 2, 29).is_some());
    assert!(Date::from_ymd(10000, 1, 1).is_some());
    assert!(Date::from_ymd(-44, 3, 15).is_some());
    assert_eq!(Date::from_ymd(0, 12, 31).unwrap().days, 0);
    assert_eq!(Date::from_ymd(0, 1, 1).unwrap().days, -365);
    let first = chrono::NaiveDate::MIN;
    let last = chrono::NaiveDate::MAX;
    assert!(Date::from_ymd(chrono::Datelike::year(&first), 1, 1).is_some());
    assert!(Date::from_ymd(chrono::Datelike::year(&last), 12, 31).is_some());
    assert!(Date::from_ymd(chrono::Datelike::year(&first) - 1, 12, 31).is_none());
    assert!(Date::from_ymd(chrono::Datelike::year(&last) + 1, 1, 1).is_none());
}

#[test]
fn from_ymd_refuses_what_the_calendar_lacks() {
    assert!(Date::from_ymd(2021, 2, 29).is_none());
    assert!(Date::from_ymd(2021, 2, 30).is_none());
    assert!(Date::from_ymd(2021, 13, 1).is_none());
    assert!(Date::from_ymd(2021, 0, 1).is_none());
    assert!(Date::from_ymd(2021, 4, 31).is_none());
    assert!(Date::from_ymd(400000, 1, 1).is_none());
    assert!(Date::from_ymd(-400000, 1, 1).is_none());
    assert!(Date::from_ymd(i32::MAX, 1, 1).is_none());
    assert!(Date::from_ymd(i32::MIN, 1, 1).is_none());
}

#[test]
fn day_numbers_are_those_of_the_calendar() {
    assert_eq!(Date::from_ymd(1, 1, 1).unwrap().days, 1);
    assert_eq!(Date::from_ymd(1970, 1, 1).unwrap().days, 719_163);
    assert_eq!(Date::from_ymd(1999, 9, 3).unwrap().days, 730_000);
}

#[test]
fn from_days_and_civil_agree() {
    let date = Date::from_days(730_000).unwrap();
    assert_eq!(date.civil(), (1999, 9, 3));
    assert_eq!(Date::from_ymd(2024, 2, 29).unwrap().civil(), (2024, 2, 29));
    assert_eq!(Date::from_days(0).unwrap().civil(), (0, 12, 31));
    assert_eq!(Date::from_days(-1).unwrap().civil(), (0, 12, 30));
    assert_eq!(Date::from_days(-366).unwrap().civil(), (-1, 12, 31));
    assert_eq!(Date::from_days(3_652_060).unwrap().civil(), (10000, 1, 1));
    assert!(Date::from_days(i32::MAX).is_none());
    assert!(Date::from_days(i32::MIN).is_none());
    let first = chrono::Datelike::num_days_from_ce(&chrono::NaiveDate::MIN);
    let last = chrono::Datelike::num_days_from_ce(&chrono::NaiveDate::MAX);
    assert!(Date::from_days(first).is_some());
    assert!(Date::from_days(first - 1).is_none());
    assert!(Date::from_days(last).is_some());
    assert!(Date::from_days(last + 1).is_none());
}

#[test]
fn days_from_monday_counts_from_monday() {
    assert_eq!(Date::from_ymd(2021, 2, 15).unwrap().days_from_monday(), Some(0));
    assert_eq!(Date::from_ymd(2021, 2, 16).unwrap().days_from_monday(), Some(1));
    assert_eq!(Date::from_ymd(2021, 2, 21).unwrap().days_from_monday(), Some(6));
}

#[test]
fn plus_days_crosses_months_and_years() {
    let date = Date::from_ymd(2020, 12, 31).unwrap();
    assert_eq!(date.plus_days(1), Date::from_ymd(2021, 1, 1));
    assert_eq!(date.plus_days(-366), Date::from_ymd(2019, 12, 31));
    assert_eq!(date.plus_days(0), Some(date));
    assert_eq!(Date::from_ymd(1, 1, 1).unwrap().plus_days(-1), Date::from_ymd(0, 12, 31));
    assert_eq!(Date::from_ymd(9999, 12, 31).unwrap().plus_days(1), Date::from_ymd(10000, 1, 1));
    assert_eq!(date.plus_days(i32::MAX), None);
    assert_eq!(date.plus_days(i32::MIN), None);
    let last = Date::from_days(chrono::Datelike::num_days_from_ce(&chrono::NaiveDate::MAX)).unwrap();
    assert_eq!(last.plus_days(1), None);
    assert!(last.plus_days(-1).is_some());
    let first = Date::from_days(chrono::Datelike::num_days_from_ce(&chrono::NaiveDate::MIN)).unwrap();
    assert_eq!(first.plus_days(-1), None);
    assert_eq!(first.days_from_monday(), Some(chrono::Datelike::weekday(&chrono::NaiveDate::MIN).num_days_from_monday()));
}

#[test]
fn time_from_hm_checks_hour_and_minute() {
    assert_eq!(Time::from_hm(0, 0), Some(Time { minutes: 0 }));
    assert_eq!(Time::from_hm(9, 30), Some(Time { minutes: 570 }));
    assert_eq!(Time::from_hm(23, 59), Some(Time { minutes: 1439 }));
    assert_eq!(Time::from_hm(24, 0), None);
    assert_eq!(Time::from_hm(9, 60), None);
    let time = Time::from_hm(13, 7).unwrap();
    assert_eq!((time.hour(), time.minute()), (13, 7));
}

#[test]
fn stamps_count_minutes() {
    let date = Date::from_ymd(2021, 2, 16).unwrap();
    let at = DateTime::new(date, Time::from_hm(9, 30).unwrap());
    assert_eq!(at.to_stamp(), date.days as i64 * 1440 + 570);
    assert_eq!(DateTime::from_stamp(at.to_stamp()), Some(at));
    let eve = Date::from_ymd(0, 12, 31).unwrap();
    assert_eq!(DateTime::from_stamp(0), Some(DateTime::new(eve, Time::from_hm(0, 0).unwrap())));
    assert_eq!(
        DateTime::from_stamp(-1),
        Some(DateTime::new(Date::from_ymd(0, 12, 30).unwrap(), Time::from_hm(23, 59).unwrap()))
    );
    assert_eq!(
        DateTime::from_stamp(-1441),
        Some(DateTime::new(Date::from_ymd(0, 12, 29).unwrap(), Time::from_hm(23, 59).unwrap()))
    );
    let before = DateTime::new(Date::from_ymd(-44, 3, 15).unwrap(), Time::from_hm(11, 0).unwrap());
    assert!(before.to_stamp() < 0);
    assert_eq!(DateTime::from_stamp(before.to_stamp()), Some(before));
    assert_eq!(DateTime::from_stamp(i64::MAX), None);
    assert_eq!(DateTime::from_stamp(i64::MIN), None);
}

#[test]
fn at_time_puts_a_time_on_the_day_of_now() {
    let date = Date::from_ymd(2021, 2, 16).unwrap();
    let now = DateTime::new(date, Time::from_hm(14, 45).unwrap());
    let nine = Time::from_hm(9, 0).unwrap();
    assert_eq!(DateTime::at_time(now, Some(nine)), DateTime::new(date, nine));
    assert_eq!(DateTime::at_time(now, None), now);
}

#[test]
fn parse_date_reads_a_date() {
    assert_eq!(parse_date("2021-02-16"), Ok(Date::from_ymd(2021, 2, 16).unwrap()));
    assert_eq!(parse_date("2024-02-29"), Ok(Date::from_ymd(2024, 2, 29).unwrap()));
}

#[test]
fn parse_date_reads_every_date_that_chrono_reads() {
    assert_eq!(parse_date("0000-12-31"), Ok(Date::from_ymd(0, 12, 31).unwrap()));
    assert_eq!(parse_date("+10000-01-01"), Ok(Date::from_ymd(10000, 1, 1).unwrap()));
    assert_eq!(parse_date("-0044-03-15"), Ok(Date::from_ymd(-44, 3, 15).unwrap()));
    for text in ["0000-12-31", "+10000-01-01", "-0044-03-15", "2021-2-3", "+262142-12-31"] {
        let own = parse_date(text).map(|d| d.days).ok();
        let theirs = chrono::NaiveDate::parse_from_str(text, "%F")
            .map(|d| chrono::Datelike::num_days_from_ce(&d))
            .ok();
        assert_eq!(own, theirs);
        assert!(own.is_some());
    }
}

#[test]
fn parse_date_fails_with_the_message_of_chrono() {
    for text in ["2021-02-30", "yesterday", "", "2021-02", "+262143-01-01"] {
        let theirs = chrono::NaiveDate::parse_from_str(text, "%F").map_err(|e| e.to_string());
        assert_eq!(parse_date(text).map(|d| d.days), theirs.map(|d| chrono::Datelike::num_days_from_ce(&d)));
        assert!(parse_date(text).is_err());
    }
}

#[test]
fn parse_date_refuses_what_is_no_date() {
    assert!(parse_date("2021-02-30").is_err());
    assert!(parse_date("yesterday").is_err());
    assert!(parse_date("").is_err());
    assert!(parse_date("2021-02").is_err());
    assert!(parse_date("12021-02-16").is_err());
}

#[test]
fn parse_time_reads_a_time() {
    assert_eq!(parse_time("09:30"), Ok(Time { minutes: 570 }));
    assert_eq!(parse_time("23:59"), Ok(Time { minutes: 1439 }));
    assert_eq!(parse_time("00:00"), Ok(Time { minutes: 0 }));
}

#[test]
fn parse_time_refuses_what_is_no_time() {
    assert!(parse_time("24:00").is_err());
    assert!(parse_time("12:60").is_err());
    assert!(parse_time("noon").is_err());
    assert!(parse_time("").is_err());
}
