//! One tracked interval of work.

use vstd::prelude::*;
use vstd::string::*;
use crate::calendar::{calendar_stamp, DateTime};

verus! {

/// What an activity is, as contracts speak of it: its two labels as
/// sequences of characters, its bounds as stamps.
pub struct Record {
    /// The project's name.
    pub project: Seq<char>,
    /// What was done.
    pub description: Seq<char>,
    /// The stamp of the start.
    pub start: int,
    /// The stamp of the end, unless the activity is running.
    pub end: Option<int>,
}

impl Record {
    /// The day number of the day on which the activity starts.
    pub open spec fn day(self) -> int {
        self.start / 1440
    }

    /// Whether the activity has no end yet.
    pub open spec fn running(self) -> bool {
        self.end.is_none()
    }

    /// A record that a log may hold: the project is named, both bounds are
    /// instants of the calendar, and the end is not before the start.
    pub open spec fn wf(self) -> bool {
        &&& self.project.len() > 0
        &&& calendar_stamp(self.start)
        &&& match self.end {
            Some(end) => calendar_stamp(end) && self.start <= end,
            None => true,
        }
    }

    /// The minutes that the activity has lasted: up to its end, or, while it
    /// is running, up to `now` (none where it starts after `now`).
    pub open spec fn minutes(self, now: int) -> int {
        match self.end {
            Some(end) => end - self.start,
            None => if self.start <= now {
                now - self.start
            } else {
                0
            },
        }
    }

    /// The record with `at` as its end, if it is running; else unchanged.
    pub open spec fn stopped_at(self, at: int) -> Record {
        if self.running() {
            Record { end: Some(at), ..self }
        } else {
            self
        }
    }
}

/// A tracked interval: project, description, start, and the end unless the
/// activity is still running.
#[derive(Debug)]
pub struct Activity {
    /// The project's name.
    pub project: String,
    /// What was done.
    pub description: String,
    /// When the activity started.
    pub start: DateTime,
    /// When it ended, unless it is running.
    pub end: Option<DateTime>,
}

impl View for Activity {
    type V = Record;

    open spec fn view(&self) -> Record {
        Record {
            project: self.project@,
            description: self.description@,
            start: self.start.stamp(),
            end: match self.end {
                Some(end) => Some(end.stamp()),
                None => None,
            },
        }
    }
}

/// The records of a sequence of activities.
pub open spec fn records(activities: Seq<Activity>) -> Seq<Record> {
    activities.map_values(|a: Activity| a@)
}

impl Activity {
    /// An activity that a log may hold.
    pub open spec fn wf(self) -> bool {
        &&& self.project@.len() > 0
        &&& self.start.wf()
        &&& match self.end {
            Some(end) => end.wf() && self.start.stamp() <= end.stamp(),
            None => true,
        }
    }

    /// The record of a well-formed activity is well-formed.
    pub proof fn lemma_record_wf(self)
        requires
            self.wf(),
        ensures
            self@.wf(),
            self@.day() == self.start.date.days,
    {
    }

    /// An activity of these labels and bounds.
    pub fn new(project: &str, description: &str, start: DateTime, end: Option<DateTime>) -> (r:
        Activity)
        ensures
            r.project@ == project@,
            r.description@ == description@,
            r.start == start,
            r.end == end,
    {
        Activity {
            project: String::from_str(project),
            description: String::from_str(description),
            start,
            end,
        }
    }

    /// A second activity with the same labels and bounds.
    pub fn copy(&self) -> (r: Activity)
        ensures
            r@ == self@,
            r.project@ == self.project@,
            r.description@ == self.description@,
            r.start == self.start,
            r.end == self.end,
            r.wf() == self.wf(),
    {
        Activity {
            project: self.project.clone(),
            description: self.description.clone(),
            start: self.start,
            end: self.end,
        }
    }

    /// Whether the activity has no end yet.
    pub fn is_running(&self) -> (r: bool)
        ensures
            r == self@.running(),
    {
        self.end.is_none()
    }

    /// Whether the activity has an end.
    pub fn is_stopped(&self) -> (r: bool)
        ensures
            r == !self@.running(),
    {
        self.end.is_some()
    }

    /// The minutes that the activity has lasted, up to `now` while it is
    /// running.
    pub fn minutes(&self, now: DateTime) -> (r: i64)
        ensures
            r == self@.minutes(now.stamp()),
    {
        let start: i64 = self.start.to_stamp();
        match self.end {
            Some(end) => end.to_stamp() - start,
            None => {
                let now: i64 = now.to_stamp();
                if start <= now {
                    now - start
                } else {
                    0
                }
            },
        }
    }
}

} // verus!
