//! What was worked on before: the pairs of project and description of the
//! log, each once, the one recorded last first.

use vstd::prelude::*;
use vstd::string::*;
use crate::activity::Record;
use crate::log::Log;

verus! {

/// Project and description of an activity.
#[derive(Debug)]
pub struct Labels {
    pub project: String,
    pub description: String,
}

impl View for Labels {
    type V = (Seq<char>, Seq<char>);

    open spec fn view(&self) -> (Seq<char>, Seq<char>) {
        (self.project@, self.description@)
    }
}

/// The pairs of a sequence of labels.
pub open spec fn pairs(list: Seq<Labels>) -> Seq<(Seq<char>, Seq<char>)> {
    list.map_values(|l: Labels| l@)
}

/// The pairs without repetition: of each the first occurrence.
pub open spec fn distinct(q: Seq<(Seq<char>, Seq<char>)>) -> Seq<(Seq<char>, Seq<char>)>
    decreases q.len(),
{
    if q.len() == 0 {
        Seq::empty()
    } else {
        let before = distinct(q.drop_last());
        if before.contains(q.last()) {
            before
        } else {
            before.push(q.last())
        }
    }
}

/// Project and description of the `count` records at the end, the last
/// record first.
pub open spec fn recent(s: Seq<Record>, count: int) -> Seq<(Seq<char>, Seq<char>)> {
    Seq::new(count as nat, |i: int| (s[s.len() - 1 - i].project, s[s.len() - 1 - i].description))
}

/// The history of a log: its pairs of project and description, each once,
/// in the order in which they were last recorded, the latest first.
pub open spec fn history(s: Seq<Record>) -> Seq<(Seq<char>, Seq<char>)> {
    distinct(recent(s, s.len() as int))
}

/// The first `count` entries of a history, or all where there are fewer.
pub open spec fn newest(s: Seq<Record>, count: int) -> Seq<(Seq<char>, Seq<char>)> {
    if count < history(s).len() {
        history(s).take(count)
    } else {
        history(s)
    }
}

/// A sequence without repetition holds every pair of the sequence it was
/// made from, and no pair twice.
pub proof fn lemma_distinct(q: Seq<(Seq<char>, Seq<char>)>)
    ensures
        forall|i: int| 0 <= i < q.len() ==> distinct(q).contains(#[trigger] q[i]),
        forall|i: int| 0 <= i < distinct(q).len() ==> q.contains(#[trigger] distinct(q)[i]),
        forall|i: int, j: int|
            0 <= i < j < distinct(q).len() ==> distinct(q)[i] != distinct(q)[j],
        distinct(q).len() <= q.len(),
    decreases q.len(),
{
    if q.len() > 0 {
        let before = q.drop_last();
        let d = distinct(before);
        let all = distinct(q);
        lemma_distinct(before);
        assert forall|i: int| 0 <= i < q.len() implies all.contains(#[trigger] q[i]) by {
            if i < before.len() {
                assert(before[i] == q[i]);
                let j = choose|j: int| 0 <= j < d.len() && d[j] == before[i];
                assert(all[j] == q[i]);
            } else if !d.contains(q.last()) {
                assert(all[all.len() - 1] == q[i]);
            }
        }
        assert forall|i: int| 0 <= i < all.len() implies q.contains(#[trigger] all[i]) by {
            if i < d.len() {
                assert(all[i] == d[i]);
                let j = choose|j: int| 0 <= j < before.len() && before[j] == d[i];
                assert(q[j] == all[i]);
            } else {
                assert(q[q.len() - 1] == all[i]);
            }
        }
        assert forall|i: int, j: int| 0 <= i < j < all.len() implies all[i] != all[j] by {
            if j < d.len() {
                assert(all[i] == d[i] && all[j] == d[j]);
            } else {
                assert(all[i] == d[i]);
                assert(d.contains(d[i]));
            }
        }
    }
}

/// Whether a list holds a pair of labels.
pub fn holds(list: &Vec<Labels>, project: &String, description: &String) -> (r: bool)
    ensures
        r == pairs(list@).contains((project@, description@)),
{
    let mut i: usize = 0;
    while i < list.len()
        invariant
            i <= list.len(),
            forall|j: int| 0 <= j < i ==> pairs(list@)[j] != (project@, description@),
        decreases list.len() - i,
    {
        if list[i].project == *project && list[i].description == *description {
            assert(pairs(list@)[i as int] == (project@, description@));
            return true;
        }
        i += 1;
    }
    false
}

impl Log {
    /// The first `count` entries of the log's history, or all of it where
    /// it has fewer.
    pub fn last(&self, count: usize) -> (r: Vec<Labels>)
        ensures
            pairs(r@) == newest(self@, count as int),
    {
        let mut all = self.history();
        if count < all.len() {
            all.truncate(count);
        }
        all
    }

    /// The log's history.
    pub fn history(&self) -> (r: Vec<Labels>)
        ensures
            pairs(r@) == history(self@),
    {
        let mut found: Vec<Labels> = Vec::new();
        let n: usize = self.activities.len();
        let mut k: usize = 0;
        while k < n
            invariant
                k <= n,
                n == self.activities.len(),
                pairs(found@) == distinct(recent(self@, k as int)),
            decreases n - k,
        {
            let activity = &self.activities[n - 1 - k];
            proof {
                let q = recent(self@, k + 1);
                assert(q.drop_last() =~= recent(self@, k as int));
            }
            if !holds(&found, &activity.project, &activity.description) {
                found.push(
                    Labels {
                        project: activity.project.clone(),
                        description: activity.description.clone(),
                    },
                );
            }
            k += 1;
        }
        found
    }
}

} // verus!
