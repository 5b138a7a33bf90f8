//! What can be wrong with activities that were read without fault: one that
//! ends before it starts, two that overlap, two running ones that are the
//! same work.

use vstd::prelude::*;
use crate::activity::{records, Activity, Record};

verus! {

/// What two activities can have with each other.
#[derive(Clone, Copy, Debug, PartialEq, Eq, Structural)]
pub enum Conflict {
    /// Some time belongs to both.
    Overlap,
    /// Both are running, with the same project and description.
    DuplicateRunning,
}

/// Two activities in conflict, by their numbers in the sequence.
#[derive(Clone, Copy, Debug, PartialEq, Eq, Structural)]
pub struct Pair {
    pub first: usize,
    pub second: usize,
}

/// What was found wrong.
#[derive(Debug)]
pub struct Sanity {
    /// The activities that end before they start.
    pub backwards: Vec<usize>,
    /// The pairs of activities that overlap.
    pub overlaps: Vec<Pair>,
    /// The pairs of running activities that are the same work.
    pub duplicates: Vec<Pair>,
}

/// Whether an activity ends before it starts.
pub open spec fn backwards(r: Record) -> bool {
    r.end matches Some(end) && end < r.start
}

/// Whether an instant is before the end of an activity; a running activity
/// has no end.
pub open spec fn before_end(at: int, r: Record) -> bool {
    match r.end {
        Some(end) => at < end,
        None => true,
    }
}

/// Whether two activities are in the conflict `kind`.
pub open spec fn conflict(kind: Conflict, a: Record, b: Record) -> bool {
    match kind {
        Conflict::Overlap => before_end(a.start, b) && before_end(b.start, a),
        Conflict::DuplicateRunning => a.running() && b.running() && a.project == b.project
            && a.description == b.description,
    }
}

/// Whether one pair stands before another: by the first number, then by
/// the second.
pub open spec fn pair_before(a: Pair, b: Pair) -> bool {
    a.first < b.first || (a.first == b.first && a.second < b.second)
}

/// Whether the pairs are all pairs of the activities that are in the
/// conflict `kind`: each such pair once, the earlier activity first, in the
/// order of the numbers.
pub open spec fn conflicts_of(kind: Conflict, s: Seq<Record>, found: Seq<Pair>) -> bool {
    &&& forall|k: int|
        0 <= k < found.len() ==> (#[trigger] found[k]).first < found[k].second < s.len() && conflict(
            kind,
            s[found[k].first as int],
            s[found[k].second as int],
        )
    &&& forall|k: int, l: int|
        0 <= k < l < found.len() ==> pair_before(#[trigger] found[k], #[trigger] found[l])
    &&& forall|i: int, j: int|
        0 <= i < j < s.len() && conflict(kind, #[trigger] s[i], #[trigger] s[j]) ==> found.contains(
            Pair { first: i as usize, second: j as usize },
        )
}

/// Whether the numbers are those of the activities that end before they
/// start, in their order.
pub open spec fn backwards_of(s: Seq<Record>, found: Seq<usize>) -> bool {
    &&& forall|k: int| 0 <= k < found.len() ==> (#[trigger] found[k]) < s.len() && backwards(s[found[k] as int])
    &&& forall|k: int, l: int| 0 <= k < l < found.len() ==> found[k] < found[l]
    &&& forall|i: int| 0 <= i < s.len() && backwards(#[trigger] s[i]) ==> found.contains(i as usize)
}

/// Whether two activities are in the conflict `kind`.
pub fn in_conflict(kind: Conflict, a: &Activity, b: &Activity) -> (r: bool)
    ensures
        r == conflict(kind, a@, b@),
{
    match kind {
        Conflict::Overlap => {
            let first = match b.end {
                Some(end) => a.start.to_stamp() < end.to_stamp(),
                None => true,
            };
            let second = match a.end {
                Some(end) => b.start.to_stamp() < end.to_stamp(),
                None => true,
            };
            first && second
        },
        Conflict::DuplicateRunning => a.is_running() && b.is_running() && a.project == b.project
            && a.description == b.description,
    }
}

/// All pairs of activities that are in the conflict `kind`.
pub fn find_conflicts(kind: Conflict, activities: &Vec<Activity>) -> (r: Vec<Pair>)
    ensures
        conflicts_of(kind, records(activities@), r@),
{
    let ghost s = records(activities@);
    let n: usize = activities.len();
    let mut found: Vec<Pair> = Vec::new();
    let mut i: usize = 0;
    while i < n
        invariant
            i <= n,
            n == activities.len(),
            s == records(activities@),
            forall|k: int|
                0 <= k < found.len() ==> (#[trigger] found[k]).first < found[k].second < n && found[k].first
                    < i && conflict(kind, s[found[k].first as int], s[found[k].second as int]),
            forall|k: int, l: int|
                0 <= k < l < found.len() ==> pair_before(#[trigger] found[k], #[trigger] found[l]),
            forall|a: int, b: int|
                0 <= a < b < n && a < i && conflict(kind, #[trigger] s[a], #[trigger] s[b])
                    ==> found@.contains(Pair { first: a as usize, second: b as usize }),
        decreases n - i,
    {
        let mut j: usize = i + 1;
        while j < n
            invariant
                i < j <= n,
                n == activities.len(),
                s == records(activities@),
                forall|k: int|
                    0 <= k < found.len() ==> (#[trigger] found[k]).first < found[k].second < n && (
                    found[k].first < i || (found[k].first == i && found[k].second < j)) && conflict(
                        kind,
                        s[found[k].first as int],
                        s[found[k].second as int],
                    ),
                forall|k: int, l: int|
                    0 <= k < l < found.len() ==> pair_before(#[trigger] found[k], #[trigger] found[l]),
                forall|a: int, b: int|
                    0 <= a < b < n && (a < i || (a == i && b < j)) && conflict(
                        kind,
                        #[trigger] s[a],
                        #[trigger] s[b],
                    ) ==> found@.contains(Pair { first: a as usize, second: b as usize }),
            decreases n - j,
        {
            if in_conflict(kind, &activities[i], &activities[j]) {
                let ghost was = found@;
                found.push(Pair { first: i, second: j });
                proof {
                    assert forall|a: int, b: int|
                        0 <= a < b < n && (a < i || (a == i && b < j + 1)) && conflict(
                            kind,
                            #[trigger] s[a],
                            #[trigger] s[b],
                        ) implies found@.contains(Pair { first: a as usize, second: b as usize }) by {
                        let pair = Pair { first: a as usize, second: b as usize };
                        if a == i && b == j {
                            assert(found@[found.len() - 1] == pair);
                        } else {
                            let k = choose|k: int| 0 <= k < was.len() && was[k] == pair;
                            assert(found@[k] == pair);
                        }
                    }
                }
            }
            j += 1;
        }
        i += 1;
    }
    found
}

/// The numbers of the activities that end before they start.
pub fn find_backwards(activities: &Vec<Activity>) -> (r: Vec<usize>)
    ensures
        backwards_of(records(activities@), r@),
{
    let ghost s = records(activities@);
    let mut found: Vec<usize> = Vec::new();
    let mut i: usize = 0;
    while i < activities.len()
        invariant
            i <= activities.len(),
            s == records(activities@),
            forall|k: int| 0 <= k < found.len() ==> (#[trigger] found[k]) < i && backwards(s[found[k] as int]),
            forall|k: int, l: int| 0 <= k < l < found.len() ==> found[k] < found[l],
            forall|a: int| 0 <= a < i && backwards(#[trigger] s[a]) ==> found@.contains(a as usize),
        decreases activities.len() - i,
    {
        let activity = &activities[i];
        let wrong = match activity.end {
            Some(end) => end.to_stamp() < activity.start.to_stamp(),
            None => false,
        };
        if wrong {
            let ghost was = found@;
            found.push(i);
            proof {
                assert forall|a: int| 0 <= a < i + 1 && backwards(#[trigger] s[a]) implies found@.contains(
                    a as usize,
                ) by {
                    if a == i {
                        assert(found@[found.len() - 1] == a as usize);
                    } else {
                        let k = choose|k: int| 0 <= k < was.len() && was[k] == a as usize;
                        assert(found@[k] == a as usize);
                    }
                }
            }
        }
        i += 1;
    }
    found
}

/// Everything that is wrong with some activities.
pub fn sanity_check(activities: &Vec<Activity>) -> (r: Sanity)
    ensures
        backwards_of(records(activities@), r.backwards@),
        conflicts_of(Conflict::Overlap, records(activities@), r.overlaps@),
        conflicts_of(Conflict::DuplicateRunning, records(activities@), r.duplicates@),
{
    Sanity {
        backwards: find_backwards(activities),
        overlaps: find_conflicts(Conflict::Overlap, activities),
        duplicates: find_conflicts(Conflict::DuplicateRunning, activities),
    }
}

} // verus!
