//! What is shown of a log: the chosen and processed activities, flat or day
//! by day, the running activities, the projects, and what a search finds.

use vstd::prelude::*;
use crate::activity::{records, Activity, Record};
use crate::calendar::{Date, DateTime};
use crate::filter::ActivityFilter;
use crate::log::Log;
use crate::processor::{piped_all, process_all, ActivityProcessor};
use crate::report::{report, sums, tallied, total_minutes, Report};

verus! {

/// The activities of one day.
#[derive(Debug)]
pub struct DayGroup {
    pub date: Date,
    pub activities: Vec<Activity>,
}

impl View for DayGroup {
    type V = (int, Seq<Record>);

    open spec fn view(&self) -> (int, Seq<Record>) {
        (self.date.days as int, records(self.activities@))
    }
}

/// The groups as contracts speak of them: each a day number and the
/// activities under it.
pub open spec fn groups(list: Seq<DayGroup>) -> Seq<(int, Seq<Record>)> {
    list.map_values(|g: DayGroup| g@)
}

/// The activities day by day: each run of activities that start on the
/// same day is one group.
pub open spec fn grouped(s: Seq<Record>) -> Seq<(int, Seq<Record>)>
    decreases s.len(),
{
    if s.len() == 0 {
        Seq::empty()
    } else {
        let before = grouped(s.drop_last());
        let r = s.last();
        if before.len() > 0 && before.last().0 == r.day() {
            before.drop_last().push((r.day(), before.last().1.push(r)))
        } else {
            before.push((r.day(), seq![r]))
        }
    }
}

/// All activities of some groups, in their order.
pub open spec fn flat(g: Seq<(int, Seq<Record>)>) -> Seq<Record>
    decreases g.len(),
{
    if g.len() == 0 {
        Seq::empty()
    } else {
        flat(g.drop_last()) + g.last().1
    }
}

/// Grouping loses and adds nothing: the groups hold the activities in
/// their order, no group is empty, each activity starts on the day of its
/// group, and two groups that follow each other are of different days.
pub proof fn lemma_grouped(s: Seq<Record>)
    ensures
        flat(grouped(s)) == s,
        forall|i: int| 0 <= i < grouped(s).len() ==> (#[trigger] grouped(s)[i]).1.len() > 0,
        forall|i: int, k: int|
            0 <= i < grouped(s).len() && 0 <= k < grouped(s)[i].1.len() ==> (#[trigger] grouped(
                s,
            )[i].1[k]).day() == grouped(s)[i].0,
        forall|i: int|
            0 <= i < grouped(s).len() - 1 ==> (#[trigger] grouped(s)[i]).0 != grouped(s)[i + 1].0,
        s.len() > 0 ==> grouped(s).len() > 0 && grouped(s).last().0 == s.last().day(),
    decreases s.len(),
{
    if s.len() > 0 {
        let t = s.drop_last();
        let r = s.last();
        let before = grouped(t);
        let all = grouped(s);
        lemma_grouped(t);
        if before.len() > 0 && before.last().0 == r.day() {
            let head = before.drop_last();
            assert(all.drop_last() =~= head);
            assert(flat(all) =~= flat(head) + before.last().1 + seq![r]);
        } else {
            assert(all.drop_last() =~= before);
        }
    }
}

/// Whether a list is shown day by day: unless it was asked not to be, or
/// the filter names one day.
pub fn do_group_activities(no_grouping: bool, filter: &ActivityFilter) -> (r: bool)
    ensures
        r == (!no_grouping && filter.date.is_none()),
{
    !no_grouping && filter.date.is_none()
}

/// The activities day by day.
pub fn group_by_day(activities: &Vec<Activity>) -> (r: Vec<DayGroup>)
    requires
        forall|i: int| 0 <= i < activities.len() ==> (#[trigger] activities[i]).wf(),
    ensures
        groups(r@) == grouped(records(activities@)),
{
    let ghost all = records(activities@);
    let mut done: Vec<DayGroup> = Vec::new();
    if activities.len() == 0 {
        return done;
    }
    let mut date: Date = activities[0].start.date;
    let mut current: Vec<Activity> = Vec::new();
    current.push(activities[0].copy());
    let mut i: usize = 1;
    proof {
        let one = all.take(1);
        assert(grouped(one.drop_last()) =~= Seq::empty());
        assert(records(current@) =~= seq![all[0]]);
    }
    while i < activities.len()
        invariant
            1 <= i <= activities.len(),
            all == records(activities@),
            forall|j: int| 0 <= j < activities.len() ==> (#[trigger] activities[j]).wf(),
            grouped(all.take(i as int)) == groups(done@).push((date.days as int, records(current@))),
        decreases activities.len() - i,
    {
        let activity = &activities[i];
        proof {
            let t = all.take(i + 1);
            assert(t.drop_last() =~= all.take(i as int));
        }
        if activity.start.date.days == date.days {
            let ghost was = current@;
            current.push(activity.copy());
            proof {
                assert(records(current@) =~= records(was).push(activity@));
            }
        } else {
            done.push(DayGroup { date, activities: current });
            date = activity.start.date;
            current = Vec::new();
            current.push(activity.copy());
            proof {
                assert(records(current@) =~= seq![activity@]);
            }
        }
        i += 1;
    }
    proof {
        assert(all.take(activities.len() as int) =~= all);
    }
    done.push(DayGroup { date, activities: current });
    done
}

/// The activities of a log that a filter chooses, as the processors leave
/// them.
pub fn list(log: &Log, filter: &ActivityFilter, processors: &Vec<ActivityProcessor>) -> (r: Vec<
    Activity,
>)
    requires
        log.wf(),
    ensures
        records(r@) == piped_all(processors@, filter@.answer(log@)),
        forall|i: int| 0 <= i < r.len() ==> (#[trigger] r[i]).wf(),
{
    let chosen = filter.apply(log);
    process_all(processors, &chosen)
}

/// The report of the activities of a log that a filter chooses, as the
/// processors leave them, at the time `now`.
pub fn show_report(
    log: &Log,
    filter: &ActivityFilter,
    processors: &Vec<ActivityProcessor>,
    now: DateTime,
) -> (r: Report)
    requires
        log.wf(),
    ensures
        tallied(piped_all(processors@, filter@.answer(log@)), now.stamp(), sums(r.rows@)),
        r.total == total_minutes(piped_all(processors@, filter@.answer(log@)), now.stamp()),
{
    let chosen = list(log, filter, processors);
    report(&chosen, now)
}

/// The running activities of a log, in its order.
pub fn list_running(log: &Log) -> (r: Vec<Activity>)
    requires
        log.wf(),
    ensures
        records(r@) == log@.filter(|r: Record| r.running()),
        forall|i: int| 0 <= i < r.len() ==> (#[trigger] r[i]).wf(),
{
    let ghost test = |r: Record| r.running();
    let mut found: Vec<Activity> = Vec::new();
    let mut i: usize = 0;
    while i < log.activities.len()
        invariant
            i <= log.activities.len(),
            log.wf(),
            test == |r: Record| r.running(),
            records(found@) == log@.take(i as int).filter(test),
            forall|j: int| 0 <= j < found.len() ==> (#[trigger] found[j]).wf(),
        decreases log.activities.len() - i,
    {
        proof {
            reveal(Seq::filter);
            let t = log@.take(i + 1);
            assert(t.drop_last() =~= log@.take(i as int));
        }
        if log.activities[i].is_running() {
            found.push(log.activities[i].copy());
        }
        i += 1;
    }
    proof {
        assert(log@.take(log.activities.len() as int) =~= log@);
    }
    found
}

} // verus!
