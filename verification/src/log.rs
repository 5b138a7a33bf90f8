//! The log: every activity, day by day.
//!
//! The activities stand in one sequence, ordered by the day on which they
//! start. The activities of one day stand together, in the order in which
//! they were recorded: they are that day's bucket.

use vstd::prelude::*;
use crate::activity::{records, Activity, Record};

verus! {

/// Why an operation on the log was refused.
#[derive(Clone, Copy, Debug, PartialEq, Eq, Structural)]
pub enum LogError {
    /// An activity must name its project.
    EmptyProject,
    /// The time to stop at is before the start of a running activity.
    EndBeforeStart,
    /// No activity is running.
    NoRunningActivity,
    /// The history has no entry of that number.
    NotFound,
}

/// Whether the records are ordered by day.
pub open spec fn day_ordered(s: Seq<Record>) -> bool {
    forall|i: int, j: int| 0 <= i <= j < s.len() ==> (#[trigger] s[i]).day() <= (#[trigger] s[j]).day()
}

/// Whether every record is well-formed.
pub open spec fn all_wf(s: Seq<Record>) -> bool {
    forall|i: int| 0 <= i < s.len() ==> (#[trigger] s[i]).wf()
}

/// A sequence of records that a log may hold.
pub open spec fn log_wf(s: Seq<Record>) -> bool {
    all_wf(s) && day_ordered(s)
}

/// Where a record of the day `day` goes: behind the last record that is not
/// of a later day, which is the end of that day's bucket, or the place where
/// the bucket is to be.
pub open spec fn slot(s: Seq<Record>, day: int) -> int
    decreases s.len(),
{
    if s.len() == 0 {
        0
    } else if s.last().day() <= day {
        s.len() as int
    } else {
        slot(s.drop_last(), day)
    }
}

/// The records with `r` put into the bucket of its day.
pub open spec fn recorded(s: Seq<Record>, r: Record) -> Seq<Record> {
    s.insert(slot(s, r.day()), r)
}

/// The place for a day lies behind every record that is not of a later
/// day, and before every record of a later day.
pub proof fn lemma_slot(s: Seq<Record>, day: int)
    ensures
        0 <= slot(s, day) <= s.len(),
        slot(s, day) > 0 ==> s[slot(s, day) - 1].day() <= day,
        forall|i: int| slot(s, day) <= i < s.len() ==> (#[trigger] s[i]).day() > day,
    decreases s.len(),
{
    if s.len() > 0 && s.last().day() > day {
        let t = s.drop_last();
        lemma_slot(t, day);
        assert forall|i: int| slot(s, day) <= i < s.len() implies (#[trigger] s[i]).day() > day by {
            if i < t.len() {
                assert(t[i] == s[i]);
            }
        }
    }
}

/// Putting a record into its bucket keeps the order of the days.
pub proof fn lemma_recorded_wf(s: Seq<Record>, r: Record)
    requires
        log_wf(s),
        r.wf(),
    ensures
        log_wf(recorded(s, r)),
{
    lemma_slot(s, r.day());
}

/// A record of a day that is not before any day of the log goes to the end.
pub proof fn lemma_recorded_last(s: Seq<Record>, r: Record)
    requires
        s.len() > 0 ==> s.last().day() <= r.day(),
    ensures
        recorded(s, r) == s.push(r),
{
}

/// The log of activities.
pub struct Log {
    /// The activities, ordered by the day on which they start.
    pub activities: Vec<Activity>,
}

impl View for Log {
    type V = Seq<Record>;

    open spec fn view(&self) -> Seq<Record> {
        records(self.activities@)
    }
}

impl Log {
    /// The log's invariant: every activity is well-formed, and the
    /// activities are ordered by the day on which they start.
    pub open spec fn wf(self) -> bool {
        &&& forall|i: int| 0 <= i < self.activities.len() ==> (#[trigger] self.activities[i]).wf()
        &&& day_ordered(self@)
    }

    /// The records of a well-formed log are a well-formed sequence.
    pub proof fn lemma_view_wf(self)
        requires
            self.wf(),
        ensures
            log_wf(self@),
    {
    }

    /// The empty log.
    pub fn new() -> (r: Log)
        ensures
            r@ == Seq::<Record>::empty(),
            r.wf(),
    {
        Log { activities: Vec::new() }
    }

    /// The number of activities.
    pub fn len(&self) -> (r: usize)
        ensures
            r == self@.len(),
    {
        self.activities.len()
    }

    /// The activity of the number `index`, counted from 0 in the log's order.
    pub fn get(&self, index: usize) -> (r: &Activity)
        requires
            index < self@.len(),
        ensures
            r@ == self@[index as int],
            *r == self.activities[index as int],
    {
        &self.activities[index]
    }

    /// The place for a new activity that starts on the day `day`.
    pub fn slot_for(&self, day: i32) -> (r: usize)
        requires
            self.wf(),
        ensures
            r == slot(self@, day as int),
            r <= self@.len(),
    {
        let mut n: usize = self.activities.len();
        proof {
            assert(self@.take(n as int) =~= self@);
        }
        while n > 0 && self.activities[n - 1].start.date.days > day
            invariant
                n <= self.activities.len(),
                slot(self@, day as int) == slot(self@.take(n as int), day as int),
                self.wf(),
            decreases n,
        {
            proof {
                let t = self@.take(n as int);
                assert(t.drop_last() =~= self@.take(n - 1));
            }
            n -= 1;
        }
        n
    }

    /// Puts a well-formed activity into the bucket of its day.
    pub fn record(&mut self, activity: Activity)
        requires
            old(self).wf(),
            activity.wf(),
        ensures
            final(self).wf(),
            final(self)@ == recorded(old(self)@, activity@),
    {
        let k: usize = self.slot_for(activity.start.date.days);
        proof {
            lemma_recorded_wf(self@, activity@);
        }
        let ghost before = self.activities@;
        self.activities.insert(k, activity);
        proof {
            assert(self@ =~= recorded(records(before), activity@));
        }
    }

    /// The numbers of the running activities, in the log's order.
    pub fn running_activities(&self) -> (r: Vec<usize>)
        ensures
            forall|k: int| 0 <= k < r.len() ==> r[k] < self@.len() && self@[r[k] as int].running(),
            forall|k: int, l: int| 0 <= k < l < r.len() ==> r[k] < r[l],
            forall|i: int|
                0 <= i < self@.len() && self@[i].running() ==> exists|k: int|
                    0 <= k < r.len() && r[k] == i,
    {
        let mut found: Vec<usize> = Vec::new();
        let mut i: usize = 0;
        while i < self.activities.len()
            invariant
                i <= self.activities.len(),
                forall|k: int|
                    0 <= k < found.len() ==> found[k] < i && self@[found[k] as int].running(),
                forall|k: int, l: int| 0 <= k < l < found.len() ==> found[k] < found[l],
                forall|j: int|
                    0 <= j < i && self@[j].running() ==> exists|k: int|
                        0 <= k < found.len() && found[k] == j,
            decreases self.activities.len() - i,
        {
            if self.activities[i].is_running() {
                let ghost before = found@;
                found.push(i);
                assert forall|j: int| 0 <= j < i + 1 && self@[j].running() implies exists|k: int|
                    0 <= k < found.len() && found[k] == j by {
                    if j < i {
                        let k = choose|k: int| 0 <= k < before.len() && before[k] == j;
                        assert(found[k] == j);
                    } else {
                        assert(found[found.len() - 1] == j);
                    }
                }
            }
            i += 1;
        }
        found
    }
}

} // verus!
