use bartib::calendar::{Date, DateTime, Time};
use bartib::filter::{apply_date_presets, monday, ActivityFilter};
use bartib::log::Log;

fn day(day: u32) -> Date {
    Date::from_ymd(2021, 2, day).unwrap()
}

fn at(d: u32, hour: u32, minute: u32) -> DateTime {
    DateTime::new(day(d), Time::from_hm(hour, minute).unwrap())
}

fn sample() -> Log {
    let mut log = Log::new();
    log.start("work", "a", at(14, 9, 0)).unwrap();
    log.start("home", "b", at(15, 9, 0)).unwrap();
    log.start("work", "c", at(15, 10, 0)).unwrap();
    log.start("work", "d", at(16, 9, 0)).unwrap();
    log.start("home", "e", at(17, 9, 0)).unwrap();
    log.stop(at(17, 10, 0)).unwrap();
    log
}

fn descriptions(filter: &ActivityFilter, log: &Log) -> Vec<String> {
    filter.apply(log).iter().map(|a| a.description.clone()).collect()
}

#[test]
fn empty_filter_lets_everything_pass() {
    let log = sample();
    let filter = ActivityFilter::new(None, None, None, None, None);
    assert_eq!(descriptions(&filter, &log), vec!["a", "b", "c", "d", "e"]);
}

#[test]
fn filter_by_range_of_days_takes_both_ends() {
    let log = sample();
    let filter = ActivityFilter::new(None, Some(day(15)), Some(day(16)), None, None);
    assert_eq!(descriptions(&filter, &log), vec!["b", "c", "d"]);
    let from_only = ActivityFilter::new(None, Some(day(16)), None, None, None);
    assert_eq!(descriptions(&from_only, &log), vec!["d", "e"]);
    let to_only = ActivityFilter::new(None, None, Some(day(14)), None, None);
    assert_eq!(descriptions(&to_only, &log), vec!["a"]);
}

#[test]
fn filter_by_one_day() {
    let log = sample();
    let filter = ActivityFilter::new(None, None, None, Some(day(15)), None);
    assert_eq!(descriptions(&filter, &log), vec!["b", "c"]);
    let none = ActivityFilter::new(None, None, None, Some(day(20)), None);
    assert!(descriptions(&none, &log).is_empty());
}

#[test]
fn filter_by_project() {
    let log = sample();
    let filter = ActivityFilter::new(None, None, None, None, Some("home"));
    assert_eq!(descriptions(&filter, &log), vec!["b", "e"]);
    let both = ActivityFilter::new(None, Some(day(15)), Some(day(16)), None, Some("work"));
    assert_eq!(descriptions(&both, &log), vec!["c", "d"]);
    let unknown = ActivityFilter::new(None, None, None, None, Some("Work"));
    assert!(descriptions(&unknown, &log).is_empty());
}

#[test]
fn a_count_keeps_the_last_activities() {
    let log = sample();
    let all = descriptions(&ActivityFilter::new(None, None, None, None, None), &log);
    for count in 0..8usize {
        let filter = ActivityFilter::new(Some(count), None, None, None, None);
        let cut = descriptions(&filter, &log);
        assert!(cut.len() <= count);
        assert_eq!(cut.len(), count.min(all.len()));
        assert_eq!(cut[..], all[all.len() - cut.len()..]);
    }
    let filter = ActivityFilter::new(Some(2), None, None, None, Some("work"));
    assert_eq!(descriptions(&filter, &log), vec!["c", "d"]);
}

#[test]
fn a_narrower_range_gives_no_more() {
    let log = sample();
    let wide = ActivityFilter::new(None, Some(day(14)), Some(day(17)), None, None);
    let narrow = ActivityFilter::new(None, Some(day(15)), Some(day(16)), None, None);
    let narrower = ActivityFilter::new(None, Some(day(16)), Some(day(16)), None, None);
    assert_eq!(wide.apply(&log).len(), 5);
    assert_eq!(narrow.apply(&log).len(), 3);
    assert_eq!(narrower.apply(&log).len(), 1);
}

#[test]
fn matches_tests_one_activity() {
    let log = sample();
    let filter = ActivityFilter::new(None, Some(day(15)), None, None, Some("work"));
    assert!(!filter.matches(log.get(0)));
    assert!(!filter.matches(log.get(1)));
    assert!(filter.matches(log.get(2)));
    assert!(filter.matches(log.get(3)));
    assert!(!filter.matches(log.get(4)));
}

#[test]
fn monday_of_a_wednesday() {
    assert_eq!(monday(day(17)), Some(day(15)));
    assert_eq!(monday(day(15)), Some(day(15)));
    assert_eq!(monday(day(21)), Some(day(15)));
    assert_eq!(monday(day(22)), Some(day(22)));
}

#[test]
fn presets_today_and_yesterday() {
    let mut filter = ActivityFilter::new(Some(3), None, None, None, Some("work"));
    assert!(apply_date_presets(&mut filter, day(17), true, false, false, false));
    assert_eq!(filter.date, Some(day(17)));
    assert_eq!(filter.from_date, None);
    assert_eq!(filter.to_date, None);
    assert_eq!(filter.number_of_activities, Some(3));
    assert_eq!(filter.project.as_deref(), Some("work"));
    assert!(apply_date_presets(&mut filter, day(17), false, true, false, false));
    assert_eq!(filter.date, Some(day(16)));
    let mut first = ActivityFilter::new(None, None, None, None, None);
    assert!(apply_date_presets(&mut first, Date::from_ymd(2021, 3, 1).unwrap(), false, true, false, false));
    assert_eq!(first.date, Some(Date::from_ymd(2021, 2, 28).unwrap()));
}

#[test]
fn presets_current_week_and_last_week() {
    let mut filter = ActivityFilter::new(None, None, None, None, None);
    assert!(apply_date_presets(&mut filter, day(17), false, false, true, false));
    assert_eq!(filter.from_date, Some(day(15)));
    assert_eq!(filter.to_date, Some(day(21)));
    assert_eq!(filter.date, None);
    assert!(apply_date_presets(&mut filter, day(17), false, false, false, true));
    assert_eq!(filter.from_date, Some(day(8)));
    assert_eq!(filter.to_date, Some(day(14)));
}

#[test]
fn presets_without_a_word_change_nothing() {
    let mut filter = ActivityFilter::new(None, Some(day(1)), Some(day(2)), Some(day(3)), None);
    assert!(apply_date_presets(&mut filter, day(17), false, false, false, false));
    assert_eq!(filter.from_date, Some(day(1)));
    assert_eq!(filter.to_date, Some(day(2)));
    assert_eq!(filter.date, Some(day(3)));
}

#[test]
fn presets_work_across_the_years_one_and_ten_thousand() {
    let mut filter = ActivityFilter::new(None, None, None, None, None);
    let first = Date::from_ymd(1, 1, 1).unwrap();
    assert!(apply_date_presets(&mut filter, first, false, true, true, false));
    assert_eq!(filter.date, Date::from_ymd(0, 12, 31));
    assert_eq!(filter.from_date, Date::from_ymd(1, 1, 1));
    assert_eq!(filter.to_date, Date::from_ymd(1, 1, 7));
    let late = Date::from_ymd(9999, 12, 30).unwrap();
    assert!(apply_date_presets(&mut filter, late, false, false, true, false));
    assert_eq!(filter.from_date, Date::from_ymd(9999, 12, 27));
    assert_eq!(filter.to_date, Date::from_ymd(10000, 1, 2));
}

#[test]
fn presets_outside_the_calendar_are_refused() {
    let first = Date::from_days(chrono::Datelike::num_days_from_ce(&chrono::NaiveDate::MIN)).unwrap();
    let last = Date::from_days(chrono::Datelike::num_days_from_ce(&chrono::NaiveDate::MAX)).unwrap();
    let mut filter = ActivityFilter::new(None, Some(day(1)), None, Some(day(3)), None);
    assert!(!apply_date_presets(&mut filter, first, false, true, false, false));
    assert!(!apply_date_presets(&mut filter, first, true, false, false, true));
    assert_eq!(filter.date, Some(day(3)));
    assert_eq!(filter.from_date, Some(day(1)));
    assert_eq!(filter.to_date, None);
    let fits = monday(last).and_then(|m| m.plus_days(6)).is_some();
    assert_eq!(fits, last.days_from_monday() == Some(6));
    assert_eq!(apply_date_presets(&mut filter, last, false, false, true, false), fits);
    if !fits {
        assert_eq!(filter.from_date, Some(day(1)));
        assert_eq!(filter.to_date, None);
    }
    let mut week = ActivityFilter::new(None, None, None, None, None);
    assert!(apply_date_presets(&mut week, last, false, false, false, true));
    assert_eq!(week.to_date, monday(last).unwrap().plus_days(-1));
}
