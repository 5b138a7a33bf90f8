//! The status: reports for today, for the week and for the month of today,
//! and the running activities.

use vstd::prelude::*;
use crate::activity::{records, Activity, Record};
use crate::calendar::{civil_of_days, days_of_civil, Date, DateTime};
use crate::filter::{day_number, monday, monday_of, ActivityFilter, Criteria};
use crate::list::{list_running, show_report};
use crate::log::Log;
use crate::processor::{piped_all, ActivityProcessor};
use crate::report::{sums, tallied, total_minutes, Report};

verus! {

/// Three reports and the running activities.
#[derive(Debug)]
pub struct Status {
    pub today: Report,
    pub current_week: Report,
    pub current_month: Report,
    pub running: Vec<Activity>,
}

/// Monday and Sunday of the week of `date`.
pub open spec fn week_of(date: Date) -> Option<(Date, Date)> {
    match monday_of(date) {
        Some(first) => match first.moved(6) {
            Some(last) => Some((first, last)),
            None => None,
        },
        None => None,
    }
}

/// The first day of a month, wherever chrono has it.
pub open spec fn first_of(year: int, month: int) -> Option<Date> {
    if i32::MIN <= year <= i32::MAX {
        match days_of_civil(year as i32, month as u32, 1) {
            Some(days) => Some(Date { days }),
            None => None,
        }
    } else {
        None
    }
}

/// First and last day of the month of `date`: the day that is as many
/// days before `date` as its day of the month says, and the day before the
/// first of the next month.
pub open spec fn month_of(date: Date) -> Option<(Date, Date)> {
    match civil_of_days(date.days) {
        Some((year, month, day)) => {
            let next = if month == 12 {
                first_of(year + 1, 1)
            } else {
                first_of(year as int, month + 1)
            };
            match (date.moved(1 - day), next) {
                (Some(first), Some(after)) => match after.moved(-1) {
                    Some(last) => Some((first, last)),
                    None => None,
                },
                _ => None,
            }
        },
        None => None,
    }
}

/// What one report of the status is chosen by.
pub open spec fn window(
    project: Option<&str>,
    from: Option<Date>,
    to: Option<Date>,
    date: Option<Date>,
) -> Criteria {
    Criteria {
        count: None,
        from: day_number(from),
        to: day_number(to),
        date: day_number(date),
        project: match project {
            Some(text) => Some(text@),
            None => None,
        },
    }
}

/// Whether a report is the report of what the criteria choose from the log,
/// as the processors leave it, at the time `now`.
pub open spec fn reported(
    log: Seq<Record>,
    criteria: Criteria,
    processors: Seq<ActivityProcessor>,
    now: int,
    report: Report,
) -> bool {
    &&& tallied(piped_all(processors, criteria.answer(log)), now, sums(report.rows@))
    &&& report.total == total_minutes(piped_all(processors, criteria.answer(log)), now)
}

/// Monday and Sunday of the week of `date`.
pub fn week(date: Date) -> (r: Option<(Date, Date)>)
    ensures
        r == week_of(date),
        r matches Some(days) ==> days.0.wf() && days.1.wf() && days.0.days <= date.days
            <= days.1.days,
{
    match monday(date) {
        Some(first) => match first.plus_days(6) {
            Some(last) => Some((first, last)),
            None => None,
        },
        None => None,
    }
}

/// First and last day of the month of `date`.
pub fn month(date: Date) -> (r: Option<(Date, Date)>)
    requires
        date.wf(),
    ensures
        r == month_of(date),
        r matches Some(days) ==> days.0.wf() && days.1.wf() && days.0.days <= date.days,
{
    let ymd = date.civil();
    let next: Option<Date> = if ymd.1 == 12 {
        match ymd.0.checked_add(1) {
            Some(year) => Date::from_ymd(year, 1, 1),
            None => None,
        }
    } else {
        Date::from_ymd(ymd.0, ymd.1 + 1, 1)
    };
    match (date.plus_days(1 - ymd.2 as i32), next) {
        (Some(first), Some(after)) => match after.plus_days(-1) {
            Some(last) => Some((first, last)),
            None => None,
        },
        _ => None,
    }
}

/// The status of a log at the time `now`: the reports of today, of the week
/// from Monday to Sunday and of the month that hold today, each of one
/// project if one is given, and the running activities. `None` where the
/// week or the month cannot be told, because chrono has no date for one of
/// their days.
pub fn show_status(
    log: &Log,
    project: Option<&str>,
    processors: &Vec<ActivityProcessor>,
    now: DateTime,
) -> (r: Option<Status>)
    requires
        log.wf(),
        now.wf(),
    ensures
        match (week_of(now.date), month_of(now.date)) {
            (Some(week), Some(month)) => {
                &&& r matches Some(status)
                &&& reported(
                    log@,
                    window(project, None, None, Some(now.date)),
                    processors@,
                    now.stamp(),
                    status.today,
                )
                &&& reported(
                    log@,
                    window(project, Some(week.0), Some(week.1), None),
                    processors@,
                    now.stamp(),
                    status.current_week,
                )
                &&& reported(
                    log@,
                    window(project, Some(month.0), Some(month.1), None),
                    processors@,
                    now.stamp(),
                    status.current_month,
                )
                &&& records(status.running@) == log@.filter(|r: Record| r.running())
            },
            _ => r.is_none(),
        },
{
    let week_days = match week(now.date) {
        Some(days) => days,
        None => {
            return None;
        },
    };
    let month_days = match month(now.date) {
        Some(days) => days,
        None => {
            return None;
        },
    };
    let day = ActivityFilter::new(None, None, None, Some(now.date), project);
    let this_week = ActivityFilter::new(None, Some(week_days.0), Some(week_days.1), None, project);
    let this_month = ActivityFilter::new(
        None,
        Some(month_days.0),
        Some(month_days.1),
        None,
        project,
    );
    Some(
        Status {
            today: show_report(log, &day, processors, now),
            current_week: show_report(log, &this_week, processors, now),
            current_month: show_report(log, &this_month, processors, now),
            running: list_running(log),
        },
    )
}

} // verus!
