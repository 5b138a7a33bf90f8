use bartib::calendar::{Date, DateTime, Time};
use bartib::format::serialize;
use bartib::log::{Log, LogError};

fn at(day: u32, hour: u32, minute: u32) -> DateTime {
    DateTime::new(Date::from_ymd(2021, 2, day).unwrap(), Time::from_hm(hour, minute).unwrap())
}

#[test]
fn start_on_empty_log_gives_one_running_activity() {
    let mut log = Log::new();
    assert_eq!(log.start("work", "write spec", at(16, 9, 0)), Ok(()));
    assert_eq!(log.len(), 1);
    let activity = log.get(0);
    assert_eq!(activity.project, "work");
    assert_eq!(activity.description, "write spec");
    assert_eq!(activity.start, at(16, 9, 0));
    assert_eq!(activity.end, None);
    assert!(activity.is_running());
    assert_eq!(log.running_activities(), vec![0]);
}

#[test]
fn stop_ends_the_running_activity() {
    let mut log = Log::new();
    log.start("work", "write spec", at(16, 9, 0)).unwrap();
    assert_eq!(log.stop(at(16, 10, 30)), Ok(1));
    let activity = log.get(0);
    assert_eq!(activity.project, "work");
    assert_eq!(activity.description, "write spec");
    assert_eq!(activity.start, at(16, 9, 0));
    assert_eq!(activity.end, Some(at(16, 10, 30)));
    assert!(activity.is_stopped());
    assert_eq!(activity.minutes(at(16, 23, 0)), 90);
    assert!(log.running_activities().is_empty());
}

#[test]
fn start_does_not_stop_what_is_running() {
    let mut log = Log::new();
    log.start("work", "one", at(16, 9, 0)).unwrap();
    log.start("home", "two", at(16, 9, 30)).unwrap();
    assert_eq!(log.running_activities(), vec![0, 1]);
}

#[test]
fn start_refuses_an_empty_project() {
    let mut log = Log::new();
    log.start("work", "one", at(16, 9, 0)).unwrap();
    assert_eq!(log.start("", "nothing", at(16, 10, 0)), Err(LogError::EmptyProject));
    assert_eq!(log.len(), 1);
}

#[test]
fn start_puts_the_activity_into_the_bucket_of_its_day() {
    let mut log = Log::new();
    log.start("a", "first day", at(15, 9, 0)).unwrap();
    log.start("b", "third day", at(17, 9, 0)).unwrap();
    log.start("c", "second day", at(16, 9, 0)).unwrap();
    log.start("d", "first day again, earlier", at(15, 8, 0)).unwrap();
    assert_eq!(
        serialize(&log),
        "2021-02-15\n09:00 - | a | first day\n08:00 - | d | first day again, earlier\n2021-02-16\n09:00 - | c | second day\n2021-02-17\n09:00 - | b | third day\n"
    );
}

#[test]
fn stop_ends_every_running_activity_and_no_other() {
    let mut log = Log::new();
    log.start("a", "done", at(16, 8, 0)).unwrap();
    log.stop(at(16, 8, 30)).unwrap();
    log.start("b", "one", at(16, 9, 0)).unwrap();
    log.start("c", "two", at(16, 9, 30)).unwrap();
    assert_eq!(log.stop(at(16, 10, 0)), Ok(2));
    assert_eq!(log.get(0).end, Some(at(16, 8, 30)));
    assert_eq!(log.get(1).end, Some(at(16, 10, 0)));
    assert_eq!(log.get(2).end, Some(at(16, 10, 0)));
}

#[test]
fn stop_with_nothing_running_changes_nothing() {
    let mut log = Log::new();
    assert_eq!(log.stop(at(16, 10, 0)), Ok(0));
    log.start("a", "x", at(16, 8, 0)).unwrap();
    assert_eq!(log.stop(at(16, 9, 0)), Ok(1));
    let once = serialize(&log);
    assert_eq!(log.stop(at(16, 11, 0)), Ok(0));
    assert_eq!(serialize(&log), once);
    assert_eq!(log.stop(at(15, 7, 0)), Ok(0));
    assert_eq!(serialize(&log), once);
}

#[test]
fn stop_before_a_start_is_refused() {
    let mut log = Log::new();
    log.start("a", "early", at(16, 8, 0)).unwrap();
    log.start("b", "late", at(16, 12, 0)).unwrap();
    let before = serialize(&log);
    assert!(!log.can_stop_at(at(16, 10, 0)));
    assert_eq!(log.stop(at(16, 10, 0)), Err(LogError::EndBeforeStart));
    assert_eq!(serialize(&log), before);
    assert!(log.can_stop_at(at(16, 12, 0)));
    assert_eq!(log.stop(at(16, 12, 0)), Ok(2));
}

#[test]
fn stop_on_a_later_day_writes_the_day() {
    let mut log = Log::new();
    log.start("a", "night", at(16, 23, 0)).unwrap();
    log.stop(at(17, 1, 0)).unwrap();
    assert_eq!(serialize(&log), "2021-02-16\n23:00 - 2021-02-17 01:00 | a | night\n");
}

#[test]
fn cancel_removes_the_running_activities_only() {
    let mut log = Log::new();
    log.start("a", "done", at(15, 8, 0)).unwrap();
    log.stop(at(15, 9, 0)).unwrap();
    log.start("b", "open", at(16, 9, 0)).unwrap();
    log.start("c", "open too", at(16, 10, 0)).unwrap();
    assert_eq!(log.cancel(), 2);
    assert_eq!(serialize(&log), "2021-02-15\n08:00 - 09:00 | a | done\n");
    assert_eq!(log.cancel(), 0);
    assert_eq!(serialize(&log), "2021-02-15\n08:00 - 09:00 | a | done\n");
}

#[test]
fn continue_last_starts_the_latest_work_again() {
    let mut log = Log::new();
    log.start("work", "write spec", at(16, 9, 0)).unwrap();
    log.stop(at(16, 10, 30)).unwrap();
    assert_eq!(log.continue_last(None, None, 0, at(16, 11, 0)), Ok(()));
    assert_eq!(log.len(), 2);
    let activity = log.get(1);
    assert_eq!(activity.project, "work");
    assert_eq!(activity.description, "write spec");
    assert_eq!(activity.start, at(16, 11, 0));
    assert_eq!(activity.end, None);
}

#[test]
fn continue_last_counts_distinct_work_from_the_end() {
    let mut log = Log::new();
    log.start("a", "one", at(16, 8, 0)).unwrap();
    log.start("b", "two", at(16, 9, 0)).unwrap();
    log.start("a", "one", at(16, 10, 0)).unwrap();
    log.start("c", "three", at(16, 11, 0)).unwrap();
    log.stop(at(16, 12, 0)).unwrap();
    let history = log.history();
    assert_eq!(history.len(), 3);
    assert_eq!((history[0].project.as_str(), history[0].description.as_str()), ("c", "three"));
    assert_eq!((history[1].project.as_str(), history[1].description.as_str()), ("a", "one"));
    assert_eq!((history[2].project.as_str(), history[2].description.as_str()), ("b", "two"));
    assert_eq!(log.last(2).len(), 2);
    assert_eq!(log.last(10).len(), 3);
    assert_eq!(log.last(0).len(), 0);
    log.continue_last(None, None, 2, at(16, 13, 0)).unwrap();
    assert_eq!(log.get(4).project, "b");
    assert_eq!(log.get(4).description, "two");
}

#[test]
fn continue_last_takes_the_labels_given() {
    let mut log = Log::new();
    log.start("a", "one", at(16, 8, 0)).unwrap();
    log.start("b", "two", at(16, 9, 0)).unwrap();
    log.continue_last(Some("z"), None, 0, at(16, 10, 0)).unwrap();
    assert_eq!(log.get(2).project, "z");
    assert_eq!(log.get(2).description, "two");
    log.continue_last(None, Some("else"), 2, at(16, 11, 0)).unwrap();
    assert_eq!(log.get(3).project, "a");
    assert_eq!(log.get(3).description, "else");
}

#[test]
fn continue_last_needs_an_entry_of_that_number() {
    let mut log = Log::new();
    assert_eq!(log.continue_last(None, None, 0, at(16, 9, 0)), Err(LogError::NotFound));
    log.start("a", "one", at(16, 8, 0)).unwrap();
    assert_eq!(log.continue_last(None, None, 1, at(16, 9, 0)), Err(LogError::NotFound));
    assert_eq!(log.continue_last(Some(""), None, 0, at(16, 9, 0)), Err(LogError::EmptyProject));
    assert_eq!(log.len(), 1);
}

#[test]
fn change_needs_a_running_activity() {
    let mut log = Log::new();
    assert_eq!(log.change(Some("p"), None, None), Err(LogError::NoRunningActivity));
    log.start("a", "one", at(16, 8, 0)).unwrap();
    log.stop(at(16, 9, 0)).unwrap();
    assert_eq!(log.change(Some("p"), None, None), Err(LogError::NoRunningActivity));
    assert_eq!(log.latest_running(), None);
}

#[test]
fn change_sets_what_is_given_on_the_latest_running_activity() {
    let mut log = Log::new();
    log.start("a", "one", at(16, 8, 0)).unwrap();
    log.start("b", "two", at(16, 10, 0)).unwrap();
    log.start("c", "three", at(16, 9, 0)).unwrap();
    assert_eq!(log.latest_running(), Some(1));
    assert_eq!(log.change(None, Some("changed"), None), Ok(()));
    assert_eq!(log.get(1).project, "b");
    assert_eq!(log.get(1).description, "changed");
    assert_eq!(log.get(1).start, at(16, 10, 0));
    assert_eq!(log.change(Some("p"), None, Some(at(16, 7, 0))), Ok(()));
    assert_eq!(log.get(1).project, "p");
    assert_eq!(log.get(1).start, at(16, 7, 0));
    assert_eq!(log.latest_running(), Some(2));
    assert_eq!(log.change(Some(""), None, None), Err(LogError::EmptyProject));
    assert_eq!(log.get(2).project, "c");
}

#[test]
fn change_to_another_day_moves_the_activity() {
    let mut log = Log::new();
    log.start("a", "one", at(15, 8, 0)).unwrap();
    log.start("b", "two", at(16, 8, 0)).unwrap();
    log.stop(at(16, 9, 0)).unwrap();
    log.start("c", "three", at(15, 10, 0)).unwrap();
    assert_eq!(log.latest_running(), Some(1));
    log.change(None, None, Some(at(17, 6, 0))).unwrap();
    assert_eq!(
        serialize(&log),
        "2021-02-15\n08:00 - 2021-02-16 09:00 | a | one\n2021-02-16\n08:00 - 09:00 | b | two\n2021-02-17\n06:00 - | c | three\n"
    );
}

#[test]
fn latest_running_takes_the_later_of_equal_starts() {
    let mut log = Log::new();
    log.start("a", "one", at(16, 8, 0)).unwrap();
    log.start("b", "two", at(16, 8, 0)).unwrap();
    assert_eq!(log.latest_running(), Some(1));
}
