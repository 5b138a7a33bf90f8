use bartib::activity::Activity;
use bartib::calendar::{Date, DateTime, Time};
use bartib::filter::ActivityFilter;
use bartib::list::show_report;
use bartib::log::Log;
use bartib::processor::{create_processors, Duration};
use bartib::report::report;

fn at(day: u32, hour: u32, minute: u32) -> DateTime {
    DateTime::new(Date::from_ymd(2021, 2, day).unwrap(), Time::from_hm(hour, minute).unwrap())
}

fn rows(r: &bartib::report::Report) -> Vec<(String, i128, bool)> {
    r.rows.iter().map(|row| (row.project.clone(), row.minutes, row.running)).collect()
}

#[test]
fn report_after_stop_shows_ninety_minutes() {
    let mut log = Log::new();
    log.start("work", "write spec", at(16, 9, 0)).unwrap();
    log.stop(at(16, 10, 30)).unwrap();
    let filter = ActivityFilter::new(None, None, None, None, None);
    let r = show_report(&log, &filter, &create_processors(None), at(16, 12, 0));
    assert_eq!(rows(&r), vec![("work".to_string(), 90, false)]);
    assert_eq!(r.total, 90);
}

#[test]
fn report_of_two_projects_on_one_day() {
    let activities = vec![
        Activity::new("work", "", at(16, 9, 0), Some(at(16, 10, 0))),
        Activity::new("home", "", at(16, 10, 0), Some(at(16, 11, 30))),
    ];
    let r = report(&activities, at(16, 12, 0));
    assert_eq!(rows(&r), vec![("home".to_string(), 90, false), ("work".to_string(), 60, false)]);
    assert_eq!(r.total, 150);
}

#[test]
fn report_counts_a_running_activity_up_to_now() {
    let activities = vec![
        Activity::new("work", "a", at(16, 9, 0), Some(at(16, 10, 0))),
        Activity::new("work", "b", at(16, 11, 0), None),
        Activity::new("later", "c", at(16, 13, 0), None),
    ];
    let r = report(&activities, at(16, 12, 0));
    assert_eq!(rows(&r), vec![("later".to_string(), 0, true), ("work".to_string(), 120, true)]);
    assert_eq!(r.total, 120);
}

#[test]
fn report_rows_stand_in_the_order_of_the_names() {
    let activities = vec![
        Activity::new("b", "", at(16, 9, 0), Some(at(16, 9, 1))),
        Activity::new("ab", "", at(16, 9, 0), Some(at(16, 9, 2))),
        Activity::new("a", "", at(16, 9, 0), Some(at(16, 9, 4))),
        Activity::new("B", "", at(16, 9, 0), Some(at(16, 9, 8))),
        Activity::new("ab", "", at(16, 9, 0), Some(at(16, 9, 16))),
        Activity::new("é", "", at(16, 9, 0), Some(at(16, 9, 32))),
        Activity::new("b", "", at(17, 9, 0), Some(at(17, 10, 4))),
    ];
    let r = report(&activities, at(18, 0, 0));
    assert_eq!(
        rows(&r),
        vec![
            ("B".to_string(), 8, false),
            ("a".to_string(), 4, false),
            ("ab".to_string(), 18, false),
            ("b".to_string(), 65, false),
            ("é".to_string(), 32, false),
        ]
    );
    assert_eq!(r.total, 127);
    assert_eq!(r.total, r.rows.iter().map(|row| row.minutes).sum::<i128>());
}

#[test]
fn report_of_nothing_is_empty() {
    let r = report(&vec![], at(16, 12, 0));
    assert!(r.rows.is_empty());
    assert_eq!(r.total, 0);
}

#[test]
fn report_total_is_the_sum_of_the_rows_for_any_filter() {
    let mut log = Log::new();
    log.start("work", "a", at(14, 9, 0)).unwrap();
    log.start("home", "b", at(15, 9, 7)).unwrap();
    log.stop(at(15, 10, 22)).unwrap();
    log.start("work", "c", at(16, 10, 0)).unwrap();
    log.start("garden", "d", at(17, 9, 0)).unwrap();
    let filters = vec![
        ActivityFilter::new(None, None, None, None, None),
        ActivityFilter::new(Some(2), None, None, None, None),
        ActivityFilter::new(None, Date::from_ymd(2021, 2, 15), None, None, None),
        ActivityFilter::new(None, None, None, Date::from_ymd(2021, 2, 15), None),
        ActivityFilter::new(None, None, None, None, Some("work")),
        ActivityFilter::new(None, None, None, None, Some("none")),
    ];
    for filter in &filters {
        for round in [None, Some(Duration { minutes: 15 }), Some(Duration { minutes: 60 })] {
            let r = show_report(&log, filter, &create_processors(round), at(17, 12, 0));
            assert_eq!(r.total, r.rows.iter().map(|row| row.minutes).sum::<i128>());
        }
    }
}

#[test]
fn report_of_rounded_activities() {
    let mut log = Log::new();
    log.start("work", "a", at(16, 9, 7)).unwrap();
    log.stop(at(16, 10, 22)).unwrap();
    let filter = ActivityFilter::new(None, None, None, None, None);
    let plain = show_report(&log, &filter, &create_processors(None), at(16, 12, 0));
    assert_eq!(plain.total, 75);
    let round = create_processors(Some(Duration { minutes: 15 }));
    let r = show_report(&log, &filter, &round, at(16, 12, 0));
    assert_eq!(rows(&r), vec![("work".to_string(), 90, false)]);
}
