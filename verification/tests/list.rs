use bartib::activity::Activity;
use bartib::calendar::{Date, DateTime, Time};
use bartib::filter::ActivityFilter;
use bartib::list::{do_group_activities, group_by_day, list, list_running};
use bartib::log::Log;
use bartib::processor::{create_processors, Duration};
use bartib::sanity::{find_backwards, find_conflicts, sanity_check, Conflict, Pair};
use bartib::search::{list_projects, search, text_contains};
use bartib::status::{month, show_status, week};

fn day(day: u32) -> Date {
    Date::from_ymd(2021, 2, day).unwrap()
}

fn at(d: u32, hour: u32, minute: u32) -> DateTime {
    DateTime::new(day(d), Time::from_hm(hour, minute).unwrap())
}

fn sample() -> Log {
    let mut log = Log::new();
    log.start("work", "Write Spec", at(14, 9, 0)).unwrap();
    log.start("home", "cooking", at(15, 9, 0)).unwrap();
    log.start("work", "meeting", at(15, 10, 0)).unwrap();
    log.stop(at(15, 11, 0)).unwrap();
    log.start("work", "write spec", at(16, 9, 7)).unwrap();
    log.stop(at(16, 10, 22)).unwrap();
    log.start("Garden", "weeding", at(17, 9, 0)).unwrap();
    log
}

#[test]
fn group_by_day_makes_a_group_for_each_day() {
    let log = sample();
    let all = ActivityFilter::new(None, None, None, None, None).apply(&log);
    let groups = group_by_day(&all);
    let shape: Vec<(Date, Vec<&str>)> = groups
        .iter()
        .map(|g| (g.date, g.activities.iter().map(|a| a.description.as_str()).collect()))
        .collect();
    assert_eq!(
        shape,
        vec![
            (day(14), vec!["Write Spec"]),
            (day(15), vec!["cooking", "meeting"]),
            (day(16), vec!["write spec"]),
            (day(17), vec!["weeding"]),
        ]
    );
    assert!(group_by_day(&vec![]).is_empty());
}

#[test]
fn grouping_is_asked_for_unless_one_day_is_chosen() {
    let plain = ActivityFilter::new(None, None, None, None, None);
    let one_day = ActivityFilter::new(None, None, None, Some(day(15)), None);
    assert!(do_group_activities(false, &plain));
    assert!(!do_group_activities(true, &plain));
    assert!(!do_group_activities(false, &one_day));
    assert!(!do_group_activities(true, &one_day));
}

#[test]
fn list_filters_then_rounds() {
    let log = sample();
    let filter = ActivityFilter::new(Some(2), None, None, None, Some("work"));
    let shown = list(&log, &filter, &create_processors(Some(Duration { minutes: 15 })));
    assert_eq!(shown.len(), 2);
    assert_eq!(shown[0].description, "meeting");
    assert_eq!(shown[1].description, "write spec");
    assert_eq!(shown[1].start, at(16, 9, 0));
    assert_eq!(shown[1].end, Some(at(16, 10, 30)));
    assert_eq!(log.get(3).start, at(16, 9, 7));
}

#[test]
fn list_running_gives_what_has_no_end() {
    let log = sample();
    let running = list_running(&log);
    assert_eq!(running.len(), 1);
    assert_eq!(running[0].project, "Garden");
    assert!(list_running(&Log::new()).is_empty());
}

#[test]
fn projects_are_listed_once_in_order() {
    let log = sample();
    assert_eq!(list_projects(&log, false), vec!["Garden", "home", "work"]);
    assert_eq!(list_projects(&log, true), vec!["Garden"]);
    assert!(list_projects(&Log::new(), false).is_empty());
}

#[test]
fn text_contains_finds_a_part() {
    let chars = |s: &str| s.chars().collect::<Vec<char>>();
    assert!(text_contains(&chars("write spec"), &chars("te sp")));
    assert!(text_contains(&chars("write spec"), &chars("")));
    assert!(text_contains(&chars("write spec"), &chars("write spec")));
    assert!(text_contains(&chars("aab"), &chars("ab")));
    assert!(!text_contains(&chars("write spec"), &chars("specs")));
    assert!(!text_contains(&chars(""), &chars("a")));
    assert!(text_contains(&chars(""), &chars("")));
}

#[test]
fn search_takes_large_and_small_letters_as_the_same() {
    let log = sample();
    let found: Vec<(String, String)> =
        search(&log, "SPEC").into_iter().map(|l| (l.project, l.description)).collect();
    assert_eq!(
        found,
        vec![
            ("work".to_string(), "write spec".to_string()),
            ("work".to_string(), "Write Spec".to_string()),
        ]
    );
    let by_project: Vec<String> = search(&log, "gard").into_iter().map(|l| l.description).collect();
    assert_eq!(by_project, vec!["weeding"]);
    assert_eq!(search(&log, "").len(), 5);
    assert!(search(&log, "nothing").is_empty());
}

#[test]
fn search_gives_each_pair_once() {
    let mut log = sample();
    log.start("home", "cooking", at(17, 12, 0)).unwrap();
    let found = search(&log, "cook");
    assert_eq!(found.len(), 1);
}

#[test]
fn week_and_month_hold_the_day() {
    assert_eq!(week(day(17)), Some((day(15), day(21))));
    assert_eq!(month(day(17)), Some((day(1), day(28))));
    let leap = Date::from_ymd(2024, 2, 10).unwrap();
    assert_eq!(month(leap), Some((Date::from_ymd(2024, 2, 1).unwrap(), Date::from_ymd(2024, 2, 29).unwrap())));
    let december = Date::from_ymd(2021, 12, 31).unwrap();
    assert_eq!(month(december), Some((Date::from_ymd(2021, 12, 1).unwrap(), december)));
    assert_eq!(
        month(Date::from_ymd(9999, 12, 5).unwrap()),
        Some((Date::from_ymd(9999, 12, 1).unwrap(), Date::from_ymd(9999, 12, 31).unwrap()))
    );
    assert_eq!(
        week(Date::from_ymd(9999, 12, 31).unwrap()),
        Some((Date::from_ymd(9999, 12, 27).unwrap(), Date::from_ymd(10000, 1, 2).unwrap()))
    );
    assert_eq!(
        month(Date::from_ymd(0, 2, 10).unwrap()),
        Some((Date::from_ymd(0, 2, 1).unwrap(), Date::from_ymd(0, 2, 29).unwrap()))
    );
    let last = Date::from_days(chrono::Datelike::num_days_from_ce(&chrono::NaiveDate::MAX)).unwrap();
    assert_eq!(month(last), None);
}

#[test]
fn status_reports_today_week_and_month() {
    let mut log = Log::new();
    log.start("old", "last month", DateTime::new(Date::from_ymd(2021, 1, 31).unwrap(), Time::from_hm(9, 0).unwrap())).unwrap();
    log.start("work", "month", at(3, 9, 0)).unwrap();
    log.stop(at(3, 10, 0)).unwrap();
    log.start("work", "week", at(15, 9, 0)).unwrap();
    log.start("home", "week", at(16, 9, 0)).unwrap();
    log.stop(at(16, 9, 30)).unwrap();
    log.start("work", "today", at(17, 9, 0)).unwrap();
    let now = at(17, 9, 45);
    let status = show_status(&log, None, &create_processors(None), now).unwrap();
    assert_eq!(status.today.total, 45);
    assert_eq!(status.current_week.total, 45 + 30 + 24 * 60 + 30);
    assert_eq!(status.current_month.total, 45 + 30 + 24 * 60 + 30 + 60);
    assert_eq!(status.running.len(), 1);
    assert_eq!(status.today.rows.len(), 1);
    assert!(status.today.rows[0].running);
    let work = show_status(&log, Some("work"), &create_processors(None), now).unwrap();
    assert_eq!(work.current_week.total, 45 + 24 * 60 + 30);
    assert_eq!(work.current_week.rows.len(), 1);
}

#[test]
fn sanity_finds_what_is_wrong() {
    let activities = vec![
        Activity::new("a", "x", at(16, 9, 0), Some(at(16, 10, 0))),
        Activity::new("b", "y", at(16, 9, 30), Some(at(16, 10, 30))),
        Activity::new("c", "z", at(16, 10, 0), Some(at(16, 9, 0))),
        Activity::new("d", "run", at(16, 10, 30), None),
        Activity::new("d", "run", at(16, 11, 0), None),
        Activity::new("e", "late", at(16, 12, 0), Some(at(16, 13, 0))),
    ];
    assert_eq!(find_backwards(&activities), vec![2]);
    assert_eq!(
        find_conflicts(Conflict::DuplicateRunning, &activities),
        vec![Pair { first: 3, second: 4 }]
    );
    assert_eq!(
        find_conflicts(Conflict::Overlap, &activities),
        vec![
            Pair { first: 0, second: 1 },
            Pair { first: 3, second: 4 },
            Pair { first: 3, second: 5 },
            Pair { first: 4, second: 5 },
        ]
    );
    let all = sanity_check(&activities);
    assert_eq!(all.backwards, vec![2]);
    assert_eq!(all.overlaps.len(), 4);
    assert_eq!(all.duplicates.len(), 1);
}

#[test]
fn sanity_of_a_clean_log_finds_nothing() {
    let mut log = Log::new();
    log.start("a", "x", at(16, 9, 0)).unwrap();
    log.stop(at(16, 10, 0)).unwrap();
    log.start("b", "y", at(16, 10, 0)).unwrap();
    log.stop(at(16, 11, 0)).unwrap();
    let all = ActivityFilter::new(None, None, None, None, None).apply(&log);
    let found = sanity_check(&all);
    assert!(found.backwards.is_empty());
    assert!(found.overlaps.is_empty());
    assert!(found.duplicates.is_empty());
}
