//! Choosing activities: by a range of days, one day, the project, and the
//! number of activities wanted, counted from the end of the log.

use vstd::prelude::*;
use vstd::string::*;
use crate::activity::{records, Activity, Record};
use crate::calendar::{weekday_of_days, Date};
use crate::log::Log;

verus! {

/// What to choose by. A field that is `None` lets every activity pass.
#[derive(Debug)]
pub struct ActivityFilter {
    /// How many activities are wanted at most: the last ones.
    pub number_of_activities: Option<usize>,
    /// The first day wanted.
    pub from_date: Option<Date>,
    /// The last day wanted.
    pub to_date: Option<Date>,
    /// The one day wanted.
    pub date: Option<Date>,
    /// The project wanted.
    pub project: Option<String>,
}

/// What a filter chooses by, as contracts speak of it: days as day numbers,
/// the project as a sequence of characters.
pub struct Criteria {
    pub count: Option<int>,
    pub from: Option<int>,
    pub to: Option<int>,
    pub date: Option<int>,
    pub project: Option<Seq<char>>,
}

/// The day number of a date that may be there.
pub open spec fn day_number(date: Option<Date>) -> Option<int> {
    match date {
        Some(date) => Some(date.days as int),
        None => None,
    }
}

impl View for ActivityFilter {
    type V = Criteria;

    open spec fn view(&self) -> Criteria {
        Criteria {
            count: match self.number_of_activities {
                Some(n) => Some(n as int),
                None => None,
            },
            from: day_number(self.from_date),
            to: day_number(self.to_date),
            date: day_number(self.date),
            project: match self.project {
                Some(project) => Some(project@),
                None => None,
            },
        }
    }
}

impl Criteria {
    /// Whether an activity passes: it starts within the range of days, on
    /// the one day, and is of the project, as far as each is given.
    pub open spec fn passes(self, r: Record) -> bool {
        &&& self.from matches Some(from) ==> r.day() >= from
        &&& self.to matches Some(to) ==> r.day() <= to
        &&& self.date matches Some(date) ==> r.day() == date
        &&& self.project matches Some(project) ==> r.project == project
    }

    /// The activities that pass, in their order.
    pub open spec fn selected(self, s: Seq<Record>) -> Seq<Record> {
        s.filter(|r: Record| self.passes(r))
    }

    /// The activities that pass, cut down to the last `count` of them.
    pub open spec fn answer(self, s: Seq<Record>) -> Seq<Record> {
        last_of(self.selected(s), self.count)
    }

    /// Whether the range of days of `self` lies within that of `other`, and
    /// both ask the same in all else.
    pub open spec fn within(self, other: Criteria) -> bool {
        &&& self.count == other.count
        &&& self.date == other.date
        &&& self.project == other.project
        &&& other.from matches Some(from) ==> self.from matches Some(mine) && mine >= from
        &&& other.to matches Some(to) ==> self.to matches Some(mine) && mine <= to
    }
}

/// The last `count` of some activities, or all of them where there are fewer
/// or no count is given.
pub open spec fn last_of(s: Seq<Record>, count: Option<int>) -> Seq<Record> {
    match count {
        Some(n) => if 0 <= n < s.len() {
            s.skip(s.len() - n)
        } else {
            s
        },
        None => s,
    }
}

/// A stricter test lets no more pass.
pub proof fn lemma_filter_fewer(s: Seq<Record>, strict: spec_fn(Record) -> bool, loose: spec_fn(Record) -> bool)
    requires
        forall|r: Record| #[trigger] strict(r) ==> loose(r),
    ensures
        s.filter(strict).len() <= s.filter(loose).len(),
    decreases s.len(),
{
    reveal(Seq::filter);
    if s.len() > 0 {
        lemma_filter_fewer(s.drop_last(), strict, loose);
    }
}

/// A narrower range of days never gives more activities, with or without a
/// count.
pub proof fn lemma_narrower_range(s: Seq<Record>, narrow: Criteria, wide: Criteria)
    requires
        narrow.within(wide),
    ensures
        narrow.selected(s).len() <= wide.selected(s).len(),
        narrow.answer(s).len() <= wide.answer(s).len(),
{
    lemma_filter_fewer(s, |r: Record| narrow.passes(r), |r: Record| wide.passes(r));
}

/// Cutting down to a count gives at most that many activities, and they
/// are the end of what there was before the cut.
pub proof fn lemma_count(s: Seq<Record>, count: int)
    requires
        0 <= count,
    ensures
        last_of(s, Some(count)).len() <= count,
        last_of(s, Some(count)).len() <= s.len(),
        last_of(s, Some(count)) == s.skip(s.len() - last_of(s, Some(count)).len()),
        last_of(s, None) == s,
{
}

/// The Monday of the week of `date`, as far as chrono says which weekday the
/// date is and the calendar has that Monday.
pub open spec fn monday_of(date: Date) -> Option<Date> {
    match weekday_of_days(date.days) {
        Some(w) => if w < 7 {
            date.moved(-(w as int))
        } else {
            None
        },
        None => None,
    }
}

/// The days that the words for days stand for on the day `now`: the one day,
/// if `today` or `yesterday` is set (`yesterday` wins), and the first and
/// last day of a week, if `current_week` or `last_week` is set (`last_week`
/// wins). `None` where chrono has no date for one of these days.
pub open spec fn preset_days(
    now: Date,
    today: bool,
    yesterday: bool,
    current_week: bool,
    last_week: bool,
) -> Option<(Option<Date>, Option<(Date, Date)>)> {
    let day = if yesterday {
        now.moved(-1)
    } else {
        Some(now)
    };
    let first = if last_week {
        match monday_of(now) {
            Some(monday) => monday.moved(-7),
            None => None,
        }
    } else {
        monday_of(now)
    };
    let last = match first {
        Some(first) => first.moved(6),
        None => None,
    };
    if (yesterday && day.is_none()) || ((current_week || last_week) && last.is_none()) {
        None
    } else {
        Some(
            (
                if today || yesterday {
                    day
                } else {
                    None
                },
                if current_week || last_week {
                    Some((first.unwrap(), last.unwrap()))
                } else {
                    None
                },
            ),
        )
    }
}

/// The Monday of the week of `date`: for a date that chrono has, one of
/// the seven days up to it, wherever chrono has that day too.
pub fn monday(date: Date) -> (r: Option<Date>)
    ensures
        r == monday_of(date),
        r matches Some(monday) ==> monday.wf() && date.days - 6 <= monday.days <= date.days,
        (forall|k: int| -6 <= k <= 0 ==> #[trigger] date.has_day(k)) ==> r.is_some(),
{
    match date.days_from_monday() {
        Some(w) => {
            let found = date.plus_days(-(w as i32));
            assert(found.is_some() == date.has_day(-(w as int)));
            found
        },
        None => {
            assert(!date.has_day(0));
            None
        },
    }
}

/// Sets the days of a filter from the words `today`, `yesterday`,
/// `current_week` and `last_week`, on the day `now`. Returns `false`, and
/// leaves the filter as it is, where chrono has no date for a day that is
/// asked for; that cannot be where it has one for each of the thirteen days
/// before `now` and the six days after it.
pub fn apply_date_presets(
    filter: &mut ActivityFilter,
    now: Date,
    today: bool,
    yesterday: bool,
    current_week: bool,
    last_week: bool,
) -> (r: bool)
    ensures
        match preset_days(now, today, yesterday, current_week, last_week) {
            Some((day, week)) => {
                &&& r
                &&& final(filter).date == if day.is_some() {
                    day
                } else {
                    old(filter).date
                }
                &&& final(filter).from_date == match week {
                    Some(week) => Some(week.0),
                    None => old(filter).from_date,
                }
                &&& final(filter).to_date == match week {
                    Some(week) => Some(week.1),
                    None => old(filter).to_date,
                }
                &&& final(filter).number_of_activities == old(filter).number_of_activities
                &&& final(filter).project == old(filter).project
            },
            None => !r && *final(filter) == *old(filter),
        },
        (forall|k: int| -13 <= k <= 6 ==> #[trigger] now.has_day(k)) ==> r,
{
    let mut day: Option<Date> = None;
    if today {
        day = Some(now);
    }
    if yesterday {
        match now.plus_days(-1) {
            Some(date) => {
                day = Some(date);
            },
            None => {
                assert(!now.has_day(-1));
                return false;
            },
        }
    }
    let mut week: Option<(Date, Date)> = None;
    if current_week || last_week {
        let first: Option<Date> = if last_week {
            match monday(now) {
                Some(date) => {
                    let before = date.plus_days(-7);
                    assert(before.is_some() == now.has_day(date.days - now.days - 7));
                    before
                },
                None => None,
            }
        } else {
            monday(now)
        };
        match first {
            Some(first) => match first.plus_days(6) {
                Some(last) => {
                    week = Some((first, last));
                },
                None => {
                    assert(!now.has_day(first.days - now.days + 6));
                    return false;
                },
            },
            None => {
                return false;
            },
        }
    }
    if day.is_some() {
        filter.date = day;
    }
    match week {
        Some(week) => {
            filter.from_date = Some(week.0);
            filter.to_date = Some(week.1);
        },
        None => {},
    }
    true
}

impl ActivityFilter {
    /// A filter of the given criteria.
    pub fn new(
        number_of_activities: Option<usize>,
        from_date: Option<Date>,
        to_date: Option<Date>,
        date: Option<Date>,
        project: Option<&str>,
    ) -> (r: ActivityFilter)
        ensures
            r.number_of_activities == number_of_activities,
            r.from_date == from_date,
            r.to_date == to_date,
            r.date == date,
            match project {
                Some(text) => r.project matches Some(own) && own@ == text@,
                None => r.project.is_none(),
            },
    {
        ActivityFilter {
            number_of_activities,
            from_date,
            to_date,
            date,
            project: match project {
                Some(text) => Some(String::from_str(text)),
                None => None,
            },
        }
    }

    /// Whether an activity passes the filter.
    pub fn matches(&self, activity: &Activity) -> (r: bool)
        requires
            activity.wf(),
        ensures
            r == self@.passes(activity@),
    {
        let day: i32 = activity.start.date.days;
        let from_ok = match self.from_date {
            Some(from) => day >= from.days,
            None => true,
        };
        let to_ok = match self.to_date {
            Some(to) => day <= to.days,
            None => true,
        };
        let date_ok = match self.date {
            Some(date) => day == date.days,
            None => true,
        };
        let project_ok = match &self.project {
            Some(project) => activity.project == *project,
            None => true,
        };
        from_ok && to_ok && date_ok && project_ok
    }

    /// The activities of a log that pass the filter, in the order of the
    /// log; where a number of activities is given, the last ones up to that
    /// number.
    pub fn apply(&self, log: &Log) -> (r: Vec<Activity>)
        requires
            log.wf(),
        ensures
            records(r@) == self@.answer(log@),
            forall|i: int| 0 <= i < r.len() ==> (#[trigger] r[i]).wf(),
    {
        let ghost test = |r: Record| self@.passes(r);
        let mut chosen: Vec<Activity> = Vec::new();
        let mut i: usize = 0;
        while i < log.activities.len()
            invariant
                i <= log.activities.len(),
                log.wf(),
                test == |r: Record| self@.passes(r),
                records(chosen@) == log@.take(i as int).filter(test),
                forall|j: int| 0 <= j < chosen.len() ==> (#[trigger] chosen[j]).wf(),
            decreases log.activities.len() - i,
        {
            proof {
                reveal(Seq::filter);
                let t = log@.take(i + 1);
                assert(t.drop_last() =~= log@.take(i as int));
            }
            if self.matches(&log.activities[i]) {
                chosen.push(log.activities[i].copy());
            }
            i += 1;
        }
        proof {
            assert(log@.take(log.activities.len() as int) =~= log@);
        }
        match self.number_of_activities {
            Some(n) => if n < chosen.len() {
                let at: usize = chosen.len() - n;
                let tail = chosen.split_off(at);
                tail
            } else {
                chosen
            },
            None => chosen,
        }
    }
}

} // verus!
