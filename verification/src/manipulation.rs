//! The operations that change the log: start, stop, cancel, continue and
//! change. Stop and cancel act on every running activity; change acts on the
//! one that was started last.

use vstd::prelude::*;
use vstd::string::*;
use crate::activity::{records, Activity, Record};
use crate::calendar::DateTime;
use crate::history::history;
use crate::log::{day_ordered, recorded, Log, LogError};

verus! {

/// A new running activity.
pub open spec fn opened(project: Seq<char>, description: Seq<char>, at: int) -> Record {
    Record { project, description, start: at, end: None }
}

/// The records with every running one stopped at `at`.
pub open spec fn stopped(s: Seq<Record>, at: int) -> Seq<Record> {
    s.map_values(|r: Record| r.stopped_at(at))
}

/// Whether no running activity starts after `at`.
pub open spec fn can_stop(s: Seq<Record>, at: int) -> bool {
    forall|i: int| 0 <= i < s.len() && (#[trigger] s[i]).running() ==> s[i].start <= at
}

/// The number of running activities.
pub open spec fn running_count(s: Seq<Record>) -> nat
    decreases s.len(),
{
    if s.len() == 0 {
        0
    } else {
        running_count(s.drop_last()) + if s.last().running() {
            1nat
        } else {
            0nat
        }
    }
}

/// The records without the running ones.
pub open spec fn kept(s: Seq<Record>) -> Seq<Record> {
    s.filter(|r: Record| !r.running())
}

/// Stopping leaves nothing running, so stopping again, at whatever time,
/// changes nothing: it is the log of the first stop.
pub proof fn lemma_stop_twice(s: Seq<Record>, at: int, again: int)
    ensures
        running_count(stopped(s, at)) == 0,
        can_stop(stopped(s, at), again),
        stopped(stopped(s, at), again) == stopped(s, at),
    decreases s.len(),
{
    let t = stopped(s, at);
    if s.len() > 0 {
        lemma_stop_twice(s.drop_last(), at, again);
        assert(t.drop_last() =~= stopped(s.drop_last(), at));
    }
}

/// Where nothing is running, stopping changes nothing.
pub proof fn lemma_stop_idle(s: Seq<Record>, at: int)
    requires
        running_count(s) == 0,
    ensures
        can_stop(s, at),
        stopped(s, at) == s,
    decreases s.len(),
{
    if s.len() > 0 {
        let before = s.drop_last();
        lemma_stop_idle(before, at);
        assert forall|i: int| 0 <= i < s.len() implies !(#[trigger] s[i]).running() by {
            if i < before.len() {
                assert(before[i] == s[i]);
            }
        }
    }
}

/// Cancelling removes the running activities and no others: what is left
/// holds no running activity, every stopped activity is left, in the order
/// it had, and as many are gone as were running.
pub proof fn lemma_cancel(s: Seq<Record>)
    ensures
        forall|i: int| 0 <= i < kept(s).len() ==> !(#[trigger] kept(s)[i]).running(),
        forall|i: int| 0 <= i < kept(s).len() ==> s.contains(#[trigger] kept(s)[i]),
        forall|i: int| 0 <= i < s.len() && !(#[trigger] s[i]).running() ==> kept(s).contains(s[i]),
        kept(s).len() + running_count(s) == s.len(),
        running_count(s) == 0 ==> kept(s) == s,
        running_count(kept(s)) == 0,
    decreases s.len(),
{
    reveal(Seq::filter);
    if s.len() > 0 {
        let before = s.drop_last();
        lemma_cancel(before);
        let k = kept(s);
        let kb = kept(before);
        if !s.last().running() {
            assert(k.drop_last() =~= kb);
        }
    }
}

impl Log {
    /// Starts an activity at `at`: a new running activity at the end of the
    /// bucket of that day. The activities that are running go on. Refused
    /// where the project is empty.
    pub fn start(&mut self, project: &str, description: &str, at: DateTime) -> (r: Result<
        (),
        LogError,
    >)
        requires
            old(self).wf(),
            at.wf(),
        ensures
            final(self).wf(),
            match r {
                Ok(_) => project@.len() > 0 && final(self)@ == recorded(
                    old(self)@,
                    opened(project@, description@, at.stamp()),
                ),
                Err(error) => error == LogError::EmptyProject && project@.len() == 0
                    && final(self)@ == old(self)@,
            },
    {
        if project.is_empty() {
            return Err(LogError::EmptyProject);
        }
        let activity = Activity::new(project, description, at, None);
        self.record(activity);
        Ok(())
    }

    /// Whether no running activity starts after `at`.
    pub fn can_stop_at(&self, at: DateTime) -> (r: bool)
        ensures
            r == can_stop(self@, at.stamp()),
    {
        let limit: i64 = at.to_stamp();
        let mut i: usize = 0;
        while i < self.activities.len()
            invariant
                i <= self.activities.len(),
                limit == at.stamp(),
                forall|j: int| 0 <= j < i && (#[trigger] self@[j]).running() ==> self@[j].start <= limit,
            decreases self.activities.len() - i,
        {
            let activity = &self.activities[i];
            if activity.is_running() && activity.start.to_stamp() > limit {
                assert(self@[i as int].running() && self@[i as int].start > limit);
                return false;
            }
            i += 1;
        }
        true
    }

    /// Stops every running activity at `at` and says how many there were;
    /// with none running the log stays as it is. Refused, with the log
    /// unchanged, where a running activity starts after `at`.
    pub fn stop(&mut self, at: DateTime) -> (r: Result<usize, LogError>)
        requires
            old(self).wf(),
            at.wf(),
        ensures
            final(self).wf(),
            match r {
                Ok(n) => can_stop(old(self)@, at.stamp()) && final(self)@ == stopped(
                    old(self)@,
                    at.stamp(),
                ) && n == running_count(old(self)@),
                Err(error) => error == LogError::EndBeforeStart && !can_stop(
                    old(self)@,
                    at.stamp(),
                ) && final(self)@ == old(self)@,
            },
    {
        if !self.can_stop_at(at) {
            return Err(LogError::EndBeforeStart);
        }
        let ghost before = self@;
        let mut n: usize = 0;
        let mut i: usize = 0;
        while i < self.activities.len()
            invariant
                i <= self.activities.len(),
                at.wf(),
                self@.len() == before.len(),
                can_stop(before, at.stamp()),
                day_ordered(before),
                forall|j: int| 0 <= j < self.activities.len() ==> (#[trigger] self.activities[j]).wf(),
                forall|j: int| 0 <= j < i ==> (#[trigger] self@[j]) == before[j].stopped_at(at.stamp()),
                forall|j: int| i <= j < self@.len() ==> (#[trigger] self@[j]) == before[j],
                n == running_count(before.take(i as int)),
                n <= i,
            decreases self.activities.len() - i,
        {
            proof {
                let t = before.take(i + 1);
                assert(t.drop_last() =~= before.take(i as int));
                assert(self@[i as int] == before[i as int]);
            }
            if self.activities[i].is_running() {
                let ghost mid = self@;
                let mut activity = self.activities[i].copy();
                activity.end = Some(at);
                self.activities.set(i, activity);
                n += 1;
                proof {
                    assert forall|j: int| 0 <= j < i implies (#[trigger] self@[j])
                        == before[j].stopped_at(at.stamp()) by {
                        assert(self@[j] == mid[j]);
                    }
                    assert forall|j: int| i < j < self@.len() implies (#[trigger] self@[j])
                        == before[j] by {
                        assert(self@[j] == mid[j]);
                    }
                }
            }
            i += 1;
        }
        proof {
            assert(before.take(before.len() as int) =~= before);
        }
        Ok(n)
    }

    /// Removes every running activity and says how many there were.
    pub fn cancel(&mut self) -> (n: usize)
        requires
            old(self).wf(),
        ensures
            final(self).wf(),
            final(self)@ == kept(old(self)@),
            n == running_count(old(self)@),
    {
        let ghost before = self@;
        let ghost keep = |r: Record| !r.running();
        let mut left: Vec<Activity> = Vec::new();
        let mut n: usize = 0;
        let mut i: usize = 0;
        while i < self.activities.len()
            invariant
                i <= self.activities.len(),
                self.wf(),
                self@ == before,
                keep == |r: Record| !r.running(),
                records(left@) == before.take(i as int).filter(keep),
                forall|j: int| 0 <= j < left.len() ==> (#[trigger] left[j]).wf(),
                n == running_count(before.take(i as int)),
                n <= i,
            decreases self.activities.len() - i,
        {
            proof {
                reveal(Seq::filter);
                let t = before.take(i + 1);
                assert(t.drop_last() =~= before.take(i as int));
            }
            if self.activities[i].is_running() {
                n += 1;
            } else {
                left.push(self.activities[i].copy());
            }
            i += 1;
        }
        proof {
            assert(before.take(before.len() as int) =~= before);
            lemma_kept_ordered(before);
        }
        self.activities = left;
        n
    }
}

/// What is left of an ordered log after cancelling is ordered.
pub proof fn lemma_kept_ordered(s: Seq<Record>)
    requires
        day_ordered(s),
    ensures
        day_ordered(kept(s)),
    decreases s.len(),
{
    reveal(Seq::filter);
    if s.len() > 0 {
        let before = s.drop_last();
        lemma_kept_ordered(before);
        lemma_cancel(before);
    }
}

/// A label as it was given, or the label that was there.
pub open spec fn chosen(given: Option<&str>, own: Seq<char>) -> Seq<char> {
    match given {
        Some(text) => text@,
        None => own,
    }
}

/// The running activity that was started last; of several that started at
/// the same time the one recorded last.
pub open spec fn latest_running(s: Seq<Record>) -> Option<int>
    decreases s.len(),
{
    if s.len() == 0 {
        None
    } else {
        let before = latest_running(s.drop_last());
        if s.last().running() && (before matches Some(k) ==> s[k].start <= s.last().start) {
            Some(s.len() - 1)
        } else {
            before
        }
    }
}

/// A running record with the labels and the start that were given in place
/// of its own.
pub open spec fn revised(
    r: Record,
    project: Option<&str>,
    description: Option<&str>,
    at: Option<int>,
) -> Record {
    Record {
        project: chosen(project, r.project),
        description: chosen(description, r.description),
        start: match at {
            Some(at) => at,
            None => r.start,
        },
        end: r.end,
    }
}

/// The records with `r` in place of the record of the number `k`: at its
/// place where `r` is of the same day, else at the end of the bucket of the
/// day of `r`.
pub open spec fn replaced(s: Seq<Record>, k: int, r: Record) -> Seq<Record> {
    if r.day() == s[k].day() {
        s.update(k, r)
    } else {
        recorded(s.remove(k), r)
    }
}

/// What `latest_running` finds: nothing where nothing is running; else a
/// running activity, with no running activity started later, and none of
/// those recorded behind it started at the same time.
pub proof fn lemma_latest_running(s: Seq<Record>)
    ensures
        match latest_running(s) {
            None => forall|i: int| 0 <= i < s.len() ==> !(#[trigger] s[i]).running(),
            Some(k) => {
                &&& 0 <= k < s.len()
                &&& s[k].running()
                &&& forall|i: int|
                    0 <= i < s.len() && (#[trigger] s[i]).running() ==> s[i].start <= s[k].start
                &&& forall|i: int|
                    k < i < s.len() && (#[trigger] s[i]).running() ==> s[i].start < s[k].start
            },
        },
    decreases s.len(),
{
    if s.len() > 0 {
        let before = s.drop_last();
        lemma_latest_running(before);
        assert forall|i: int| 0 <= i < before.len() implies before[i] == s[i] by {}
    }
}

/// The text that was given, or a copy of the text that was there.
fn choose_text(given: Option<&str>, own: &String) -> (r: String)
    ensures
        r@ == chosen(given, own@),
{
    match given {
        Some(text) => String::from_str(text),
        None => own.clone(),
    }
}

impl Log {
    /// Starts again what was worked on before: the entry of the number
    /// `index` of the history, the latest being number 0, with the labels
    /// that are given in place of its own. Refused where the history has no
    /// such entry, or where an empty project is given.
    pub fn continue_last(
        &mut self,
        project: Option<&str>,
        description: Option<&str>,
        index: usize,
        at: DateTime,
    ) -> (r: Result<(), LogError>)
        requires
            old(self).wf(),
            at.wf(),
        ensures
            final(self).wf(),
            match r {
                Ok(_) => {
                    &&& index < history(old(self)@).len()
                    &&& chosen(project, history(old(self)@)[index as int].0).len() > 0
                    &&& final(self)@ == recorded(
                        old(self)@,
                        opened(
                            chosen(project, history(old(self)@)[index as int].0),
                            chosen(description, history(old(self)@)[index as int].1),
                            at.stamp(),
                        ),
                    )
                },
                Err(error) => {
                    &&& final(self)@ == old(self)@
                    &&& if index < history(old(self)@).len() {
                        error == LogError::EmptyProject && chosen(
                            project,
                            history(old(self)@)[index as int].0,
                        ).len() == 0
                    } else {
                        error == LogError::NotFound
                    }
                },
            },
    {
        let past = self.history();
        if index >= past.len() {
            return Err(LogError::NotFound);
        }
        let entry = &past[index];
        let new_project = choose_text(project, &entry.project);
        let new_description = choose_text(description, &entry.description);
        self.start(new_project.as_str(), new_description.as_str(), at)
    }

    /// The number of the running activity that was started last.
    pub fn latest_running(&self) -> (r: Option<usize>)
        ensures
            match r {
                Some(k) => latest_running(self@) == Some(k as int) && k < self@.len(),
                None => latest_running(self@).is_none(),
            },
    {
        let mut best: Option<usize> = None;
        let mut i: usize = 0;
        while i < self.activities.len()
            invariant
                i <= self.activities.len(),
                match best {
                    Some(k) => latest_running(self@.take(i as int)) == Some(k as int) && k < i,
                    None => latest_running(self@.take(i as int)).is_none(),
                },
            decreases self.activities.len() - i,
        {
            proof {
                let t = self@.take(i + 1);
                assert(t.drop_last() =~= self@.take(i as int));
            }
            let activity = &self.activities[i];
            if activity.is_running() {
                let later = match best {
                    Some(k) => self.activities[k].start.to_stamp() <= activity.start.to_stamp(),
                    None => true,
                };
                if later {
                    best = Some(i);
                }
            }
            i += 1;
        }
        proof {
            assert(self@.take(self.activities.len() as int) =~= self@);
        }
        best
    }

    /// Changes the running activity that was started last: it gets the
    /// labels and the start that are given, and keeps the rest. With a start
    /// on another day it moves to the end of the bucket of that day. Refused
    /// where nothing is running, or where an empty project is given.
    pub fn change(&mut self, project: Option<&str>, description: Option<&str>, at: Option<DateTime>) -> (r:
        Result<(), LogError>)
        requires
            old(self).wf(),
            at matches Some(time) ==> time.wf(),
        ensures
            final(self).wf(),
            match r {
                Ok(_) => {
                    &&& latest_running(old(self)@) matches Some(k)
                    &&& chosen(project, old(self)@[k].project).len() > 0
                    &&& final(self)@ == replaced(
                        old(self)@,
                        k,
                        revised(old(self)@[k], project, description, match at {
                            Some(time) => Some(time.stamp()),
                            None => None,
                        }),
                    )
                },
                Err(error) => {
                    &&& final(self)@ == old(self)@
                    &&& match latest_running(old(self)@) {
                        Some(k) => error == LogError::EmptyProject && chosen(
                            project,
                            old(self)@[k].project,
                        ).len() == 0,
                        None => error == LogError::NoRunningActivity,
                    }
                },
            },
    {
        let k: usize = match self.latest_running() {
            Some(k) => k,
            None => {
                return Err(LogError::NoRunningActivity);
            },
        };
        proof {
            lemma_latest_running(self@);
            self.activities[k as int].lemma_record_wf();
        }
        let ghost before = self@;
        let current = &self.activities[k];
        let new_project = choose_text(project, &current.project);
        if new_project.as_str().is_empty() {
            return Err(LogError::EmptyProject);
        }
        let new_description = choose_text(description, &current.description);
        let start: DateTime = match at {
            Some(time) => time,
            None => current.start,
        };
        let same_day: bool = start.date.days == current.start.date.days;
        let activity = Activity {
            project: new_project,
            description: new_description,
            start,
            end: None,
        };
        if same_day {
            self.activities.set(k, activity);
            proof {
                assert(self@ =~= before.update(k as int, activity@));
            }
        } else {
            self.activities.remove(k);
            proof {
                assert(self@ =~= before.remove(k as int));
            }
            self.record(activity);
        }
        Ok(())
    }
}

} // verus!
