//! The report: for each project the minutes spent on it, and the total.

use vstd::prelude::*;
use crate::activity::{records, Activity, Record};
use crate::calendar::DateTime;
use crate::text::{
    chars_of, lemma_precedes_irreflexive, lemma_precedes_total, lemma_precedes_transitive,
    precedes, same_text, string_of, text_precedes,
};

verus! {

/// One row of a report, as contracts speak of it.
pub struct Sum {
    pub project: Seq<char>,
    pub minutes: int,
    pub running: bool,
}

/// One row of a report: a project, the minutes of its activities, and
/// whether one of them is still running (its minutes are those up to now).
#[derive(Debug)]
pub struct ProjectRow {
    pub project: String,
    pub minutes: i128,
    pub running: bool,
}

impl View for ProjectRow {
    type V = Sum;

    open spec fn view(&self) -> Sum {
        Sum { project: self.project@, minutes: self.minutes as int, running: self.running }
    }
}

/// A report: one row for each project, in the order of the projects'
/// names, and the minutes of all activities together.
#[derive(Debug)]
pub struct Report {
    pub rows: Vec<ProjectRow>,
    pub total: i128,
}

/// The rows of a report as contracts speak of them.
pub open spec fn sums(rows: Seq<ProjectRow>) -> Seq<Sum> {
    rows.map_values(|r: ProjectRow| r@)
}

/// The minutes of the activities of one project.
pub open spec fn project_minutes(s: Seq<Record>, project: Seq<char>, now: int) -> int
    decreases s.len(),
{
    if s.len() == 0 {
        0
    } else {
        project_minutes(s.drop_last(), project, now) + if s.last().project == project {
            s.last().minutes(now)
        } else {
            0
        }
    }
}

/// The minutes of all activities.
pub open spec fn total_minutes(s: Seq<Record>, now: int) -> int
    decreases s.len(),
{
    if s.len() == 0 {
        0
    } else {
        total_minutes(s.drop_last(), now) + s.last().minutes(now)
    }
}

/// Whether an activity of the project is among the activities.
pub open spec fn has_project(s: Seq<Record>, project: Seq<char>) -> bool {
    exists|k: int| 0 <= k < s.len() && (#[trigger] s[k]).project == project
}

/// Whether a running activity of the project is among the activities.
pub open spec fn project_running(s: Seq<Record>, project: Seq<char>) -> bool {
    exists|k: int| 0 <= k < s.len() && (#[trigger] s[k]).project == project && s[k].running()
}

/// Whether the rows have one for the project.
pub open spec fn listed(rows: Seq<Sum>, project: Seq<char>) -> bool {
    exists|i: int| 0 <= i < rows.len() && (#[trigger] rows[i]).project == project
}

/// Whether the rows stand in the order of their projects' names, no name
/// twice.
pub open spec fn name_ordered(rows: Seq<Sum>) -> bool {
    forall|i: int, j: int|
        0 <= i < j < rows.len() ==> precedes((#[trigger] rows[i]).project, (#[trigger] rows[j]).project)
}

/// Whether the rows are the report of the activities: in the order of the
/// names, a row for each project that has an activity and for no other,
/// each with the minutes of its project.
pub open spec fn tallied(s: Seq<Record>, now: int, rows: Seq<Sum>) -> bool {
    &&& name_ordered(rows)
    &&& forall|i: int| 0 <= i < rows.len() ==> has_project(s, (#[trigger] rows[i]).project)
    &&& forall|k: int| 0 <= k < s.len() ==> listed(rows, (#[trigger] s[k]).project)
    &&& forall|i: int|
        0 <= i < rows.len() ==> (#[trigger] rows[i]).minutes == project_minutes(
            s,
            rows[i].project,
            now,
        ) && rows[i].running == project_running(s, rows[i].project)
}

/// The minutes of all rows together.
pub open spec fn sum_of(rows: Seq<Sum>) -> int
    decreases rows.len(),
{
    if rows.len() == 0 {
        0
    } else {
        sum_of(rows.drop_last()) + rows.last().minutes
    }
}

/// The most minutes an activity can have, whatever its bounds.
pub open spec fn most_minutes() -> int {
    7_000_000_000_000
}

/// Whether every activity has minutes within `most_minutes`.
pub open spec fn bounded(s: Seq<Record>, now: int) -> bool {
    forall|k: int|
        0 <= k < s.len() ==> -most_minutes() <= (#[trigger] s[k]).minutes(now) <= most_minutes()
}

proof fn lemma_pushed(t: Seq<Record>, r: Record, now: int, project: Seq<char>)
    ensures
        project_minutes(t.push(r), project, now) == project_minutes(t, project, now) + if r.project
            == project {
            r.minutes(now)
        } else {
            0
        },
        total_minutes(t.push(r), now) == total_minutes(t, now) + r.minutes(now),
        has_project(t.push(r), project) == (has_project(t, project) || r.project == project),
        project_running(t.push(r), project) == (project_running(t, project) || (r.project == project
            && r.running())),
{
    let s = t.push(r);
    assert(s.drop_last() =~= t);
    assert(s.last() == r);
    if has_project(t, project) {
        let k = choose|k: int| 0 <= k < t.len() && (#[trigger] t[k]).project == project;
        assert(s[k].project == project);
    }
    if r.project == project {
        assert(s[s.len() - 1].project == project);
    }
    if has_project(s, project) {
        let k = choose|k: int| 0 <= k < s.len() && (#[trigger] s[k]).project == project;
        if k < t.len() {
            assert(t[k].project == project);
        }
    }
    if project_running(t, project) {
        let k = choose|k: int|
            0 <= k < t.len() && (#[trigger] t[k]).project == project && t[k].running();
        assert(s[k].project == project && s[k].running());
    }
    if r.project == project && r.running() {
        assert(s[s.len() - 1].project == project && s[s.len() - 1].running());
    }
    if project_running(s, project) {
        let k = choose|k: int|
            0 <= k < s.len() && (#[trigger] s[k]).project == project && s[k].running();
        if k < t.len() {
            assert(t[k].project == project && t[k].running());
        }
    }
}

proof fn lemma_absent(s: Seq<Record>, project: Seq<char>, now: int)
    requires
        !has_project(s, project),
    ensures
        project_minutes(s, project, now) == 0,
        !project_running(s, project),
    decreases s.len(),
{
    if s.len() > 0 {
        let t = s.drop_last();
        lemma_absent(t, project, now);
    }
}

/// The minutes of a project, and of all, are within the number of
/// activities times `most_minutes`.
pub proof fn lemma_minutes_bound(s: Seq<Record>, project: Seq<char>, now: int)
    requires
        bounded(s, now),
    ensures
        -(s.len() * most_minutes()) <= project_minutes(s, project, now) <= s.len() * most_minutes(),
        -(s.len() * most_minutes()) <= total_minutes(s, now) <= s.len() * most_minutes(),
    decreases s.len(),
{
    if s.len() > 0 {
        let t = s.drop_last();
        lemma_minutes_bound(t, project, now);
    }
}

/// The report of some activities and one more, where the project of that
/// one has its row already.
proof fn lemma_tally_update(t: Seq<Record>, r: Record, now: int, rows: Seq<Sum>, j: int)
    requires
        tallied(t, now, rows),
        0 <= j < rows.len(),
        rows[j].project == r.project,
    ensures
        tallied(
            t.push(r),
            now,
            rows.update(
                j,
                Sum {
                    project: r.project,
                    minutes: rows[j].minutes + r.minutes(now),
                    running: rows[j].running || r.running(),
                },
            ),
        ),
{
    let s = t.push(r);
    let row = Sum {
        project: r.project,
        minutes: rows[j].minutes + r.minutes(now),
        running: rows[j].running || r.running(),
    };
    let after = rows.update(j, row);
    assert forall|i: int| 0 <= i < after.len() implies has_project(s, (#[trigger] after[i]).project)
        && after[i].minutes == project_minutes(s, after[i].project, now) && after[i].running
        == project_running(s, after[i].project) by {
        lemma_pushed(t, r, now, after[i].project);
        if i != j {
            if rows[i].project == r.project {
                lemma_precedes_irreflexive(r.project);
            }
        }
    }
    assert forall|k: int| 0 <= k < s.len() implies listed(after, (#[trigger] s[k]).project) by {
        if k < t.len() {
            let i = choose|i: int| 0 <= i < rows.len() && (#[trigger] rows[i]).project == t[k].project;
            assert(after[i].project == s[k].project);
        } else {
            assert(after[j].project == s[k].project);
        }
    }
}

/// The report of some activities and one more, where the project of that
/// one is new and belongs at the place `j`.
proof fn lemma_tally_insert(t: Seq<Record>, r: Record, now: int, rows: Seq<Sum>, j: int)
    requires
        tallied(t, now, rows),
        0 <= j <= rows.len(),
        forall|i: int| 0 <= i < j ==> precedes((#[trigger] rows[i]).project, r.project),
        j < rows.len() ==> precedes(r.project, rows[j].project),
    ensures
        tallied(
            t.push(r),
            now,
            rows.insert(j, Sum { project: r.project, minutes: r.minutes(now), running: r.running() }),
        ),
{
    let s = t.push(r);
    let row = Sum { project: r.project, minutes: r.minutes(now), running: r.running() };
    let after = rows.insert(j, row);
    assert forall|i: int| j <= i < rows.len() implies precedes(
        r.project,
        (#[trigger] rows[i]).project,
    ) by {
        if i > j {
            lemma_precedes_transitive(r.project, rows[j].project, rows[i].project);
        }
    }
    assert forall|i: int| 0 <= i < rows.len() implies (#[trigger] rows[i]).project != r.project by {
        lemma_precedes_irreflexive(r.project);
    }
    lemma_absent(t, r.project, now);
    assert forall|i: int| 0 <= i < after.len() implies has_project(s, (#[trigger] after[i]).project)
        && after[i].minutes == project_minutes(s, after[i].project, now) && after[i].running
        == project_running(s, after[i].project) by {
        lemma_pushed(t, r, now, after[i].project);
    }
    assert forall|k: int| 0 <= k < s.len() implies listed(after, (#[trigger] s[k]).project) by {
        if k < t.len() {
            let i = choose|i: int| 0 <= i < rows.len() && (#[trigger] rows[i]).project == t[k].project;
            let x = if i < j {
                i
            } else {
                i + 1
            };
            assert(after[x] == rows[i]);
        } else {
            assert(after[j].project == s[k].project);
        }
    }
}

/// The minutes that the activities have for the projects of the rows.
pub open spec fn share(rows: Seq<Sum>, s: Seq<Record>, now: int) -> int
    decreases rows.len(),
{
    if rows.len() == 0 {
        0
    } else {
        share(rows.drop_last(), s, now) + project_minutes(s, rows.last().project, now)
    }
}

/// The minutes that one activity adds to the rows of its project.
pub open spec fn hits(rows: Seq<Sum>, r: Record, now: int) -> int
    decreases rows.len(),
{
    if rows.len() == 0 {
        0
    } else {
        hits(rows.drop_last(), r, now) + if rows.last().project == r.project {
            r.minutes(now)
        } else {
            0
        }
    }
}

proof fn lemma_share_pushed(rows: Seq<Sum>, t: Seq<Record>, r: Record, now: int)
    ensures
        share(rows, t.push(r), now) == share(rows, t, now) + hits(rows, r, now),
    decreases rows.len(),
{
    if rows.len() > 0 {
        lemma_share_pushed(rows.drop_last(), t, r, now);
        lemma_pushed(t, r, now, rows.last().project);
    }
}

proof fn lemma_share_empty(rows: Seq<Sum>, now: int)
    ensures
        share(rows, Seq::empty(), now) == 0,
    decreases rows.len(),
{
    if rows.len() > 0 {
        lemma_share_empty(rows.drop_last(), now);
    }
}

proof fn lemma_hits(rows: Seq<Sum>, r: Record, now: int)
    requires
        name_ordered(rows),
    ensures
        hits(rows, r, now) == if listed(rows, r.project) {
            r.minutes(now)
        } else {
            0
        },
    decreases rows.len(),
{
    if rows.len() > 0 {
        let before = rows.drop_last();
        assert(name_ordered(before)) by {
            assert forall|i: int, j: int| 0 <= i < j < before.len() implies precedes(
                (#[trigger] before[i]).project,
                (#[trigger] before[j]).project,
            ) by {
                assert(before[i] == rows[i] && before[j] == rows[j]);
            }
        }
        lemma_hits(before, r, now);
        if listed(before, r.project) {
            let i = choose|i: int| 0 <= i < before.len() && (#[trigger] before[i]).project == r.project;
            assert(rows[i].project == r.project);
            if rows.last().project == r.project {
                assert(precedes(rows[i].project, rows[rows.len() - 1].project));
                lemma_precedes_irreflexive(r.project);
            }
        } else if rows.last().project == r.project {
            assert(rows[rows.len() - 1].project == r.project);
        } else if listed(rows, r.project) {
            let i = choose|i: int| 0 <= i < rows.len() && (#[trigger] rows[i]).project == r.project;
            assert(before[i].project == r.project);
        }
    } else {
        assert(!listed(rows, r.project));
    }
}

proof fn lemma_share_total(rows: Seq<Sum>, s: Seq<Record>, now: int)
    requires
        name_ordered(rows),
        forall|k: int| 0 <= k < s.len() ==> listed(rows, (#[trigger] s[k]).project),
    ensures
        share(rows, s, now) == total_minutes(s, now),
    decreases s.len(),
{
    if s.len() == 0 {
        assert(s =~= Seq::empty());
        lemma_share_empty(rows, now);
    } else {
        let t = s.drop_last();
        let r = s.last();
        lemma_share_total(rows, t, now);
        assert(t.push(r) =~= s);
        lemma_share_pushed(rows, t, r, now);
        lemma_hits(rows, r, now);
    }
}

proof fn lemma_sum_share(rows: Seq<Sum>, s: Seq<Record>, now: int)
    requires
        forall|i: int|
            0 <= i < rows.len() ==> (#[trigger] rows[i]).minutes == project_minutes(
                s,
                rows[i].project,
                now,
            ),
    ensures
        sum_of(rows) == share(rows, s, now),
    decreases rows.len(),
{
    if rows.len() > 0 {
        let before = rows.drop_last();
        lemma_sum_share(before, s, now);
    }
}

/// The total of a report is the sum of its rows, whatever activities were
/// chosen for it.
pub proof fn lemma_report_total(s: Seq<Record>, now: int, rows: Seq<Sum>)
    requires
        tallied(s, now, rows),
    ensures
        sum_of(rows) == total_minutes(s, now),
{
    lemma_sum_share(rows, s, now);
    lemma_share_total(rows, s, now);
}

/// Two reports of the same activities have the same rows.
pub proof fn lemma_report_unique(s: Seq<Record>, now: int, a: Seq<Sum>, b: Seq<Sum>)
    requires
        tallied(s, now, a),
        tallied(s, now, b),
    ensures
        a == b,
{
    lemma_same_names(s, now, a, b, 0);
}

proof fn lemma_same_names(s: Seq<Record>, now: int, a: Seq<Sum>, b: Seq<Sum>, n: int)
    requires
        tallied(s, now, a),
        tallied(s, now, b),
        0 <= n <= a.len(),
        n <= b.len(),
        forall|i: int| 0 <= i < n ==> a[i] == b[i],
    ensures
        a.len() == b.len(),
        forall|i: int| 0 <= i < a.len() ==> a[i] == b[i],
    decreases a.len() - n,
{
    if n < a.len() {
        lemma_next_name(s, now, a, b, n);
        lemma_same_names(s, now, a, b, n + 1);
    } else if n < b.len() {
        lemma_next_name(s, now, b, a, n);
    }
}

proof fn lemma_next_name(s: Seq<Record>, now: int, a: Seq<Sum>, b: Seq<Sum>, n: int)
    requires
        tallied(s, now, a),
        tallied(s, now, b),
        0 <= n < a.len(),
        n <= b.len(),
        forall|i: int| 0 <= i < n ==> a[i] == b[i],
    ensures
        n < b.len(),
        a[n] == b[n],
{
    let p = a[n].project;
    assert(has_project(s, a[n].project));
    let k = choose|k: int| 0 <= k < s.len() && (#[trigger] s[k]).project == p;
    assert(listed(b, s[k].project));
    let j = choose|j: int| 0 <= j < b.len() && (#[trigger] b[j]).project == p;
    if j < n {
        assert(a[j] == b[j]);
        assert(precedes(a[j].project, a[n].project));
        lemma_precedes_irreflexive(p);
    }
    if j > n {
        let q = b[n].project;
        assert(has_project(s, b[n].project));
        let m = choose|m: int| 0 <= m < s.len() && (#[trigger] s[m]).project == q;
        assert(listed(a, s[m].project));
        let i = choose|i: int| 0 <= i < a.len() && (#[trigger] a[i]).project == q;
        assert(precedes(b[n].project, b[j].project));
        if i < n {
            assert(a[i] == b[i]);
            assert(precedes(b[i].project, b[n].project));
            lemma_precedes_irreflexive(q);
        } else if i == n {
            lemma_precedes_irreflexive(p);
        } else {
            assert(precedes(a[n].project, a[i].project));
            lemma_precedes_transitive(p, q, p);
            lemma_precedes_irreflexive(p);
        }
    }
}

/// A row while the report is made.
struct Tally {
    name: Vec<char>,
    minutes: i128,
    running: bool,
}

impl Tally {
    spec fn sum(self) -> Sum {
        Sum { project: self.name@, minutes: self.minutes as int, running: self.running }
    }
}

spec fn tallies(rows: Seq<Tally>) -> Seq<Sum> {
    rows.map_values(|r: Tally| r.sum())
}

/// Where the row of a project stands, or where it belongs if there is none.
fn place(rows: &Vec<Tally>, name: &Vec<char>) -> (r: (usize, bool))
    ensures
        r.0 <= rows.len(),
        forall|i: int| 0 <= i < r.0 ==> precedes((#[trigger] tallies(rows@)[i]).project, name@),
        r.1 ==> r.0 < rows.len() && tallies(rows@)[r.0 as int].project == name@,
        !r.1 && r.0 < rows.len() ==> precedes(name@, tallies(rows@)[r.0 as int].project),
{
    let mut j: usize = 0;
    while j < rows.len() && text_precedes(&rows[j].name, name)
        invariant
            j <= rows.len(),
            forall|i: int| 0 <= i < j ==> precedes((#[trigger] tallies(rows@)[i]).project, name@),
        decreases rows.len() - j,
    {
        j += 1;
    }
    if j < rows.len() {
        let found = same_text(&rows[j].name, name);
        proof {
            lemma_precedes_total(rows[j as int].name@, name@);
        }
        (j, found)
    } else {
        (j, false)
    }
}

/// The report of some activities at the time `now`: for each project the
/// minutes of its activities, a running activity counted up to `now`; the
/// rows in the order of the projects' names; and the minutes of all
/// activities together.
pub fn report(activities: &Vec<Activity>, now: DateTime) -> (r: Report)
    ensures
        tallied(records(activities@), now.stamp(), sums(r.rows@)),
        r.total == total_minutes(records(activities@), now.stamp()),
        r.total == sum_of(sums(r.rows@)),
{
    let ghost all = records(activities@);
    let ghost at = now.stamp();
    let mut rows: Vec<Tally> = Vec::new();
    let mut total: i128 = 0;
    let mut i: usize = 0;
    while i < activities.len()
        invariant
            i <= activities.len(),
            all == records(activities@),
            at == now.stamp(),
            bounded(all, at),
            tallied(all.take(i as int), at, tallies(rows@)),
            total == total_minutes(all.take(i as int), at),
        decreases activities.len() - i,
    {
        let activity = &activities[i];
        let ghost t = all.take(i as int);
        let ghost before = tallies(rows@);
        let name = chars_of(activity.project.as_str());
        let minutes: i128 = activity.minutes(now) as i128;
        let (j, found) = place(&rows, &name);
        proof {
            assert(all.take(i + 1) =~= t.push(activity@));
            lemma_minutes_bound(t, name@, at);
            lemma_pushed(t, activity@, at, name@);
        }
        total = total + minutes;
        if found {
            let so_far: i128 = rows[j].minutes;
            let running: bool = rows[j].running || activity.is_running();
            proof {
                lemma_tally_update(t, activity@, at, before, j as int);
            }
            rows.set(j, Tally { name, minutes: so_far + minutes, running });
            proof {
                assert(tallies(rows@) =~= before.update(
                    j as int,
                    Sum {
                        project: activity@.project,
                        minutes: before[j as int].minutes + activity@.minutes(at),
                        running: before[j as int].running || activity@.running(),
                    },
                ));
            }
        } else {
            proof {
                lemma_tally_insert(t, activity@, at, before, j as int);
            }
            rows.insert(j, Tally { name, minutes, running: activity.is_running() });
            proof {
                assert(tallies(rows@) =~= before.insert(
                    j as int,
                    Sum {
                        project: activity@.project,
                        minutes: activity@.minutes(at),
                        running: activity@.running(),
                    },
                ));
            }
        }
        i += 1;
    }
    proof {
        assert(all.take(activities.len() as int) =~= all);
        lemma_report_total(all, at, tallies(rows@));
    }
    let mut out: Vec<ProjectRow> = Vec::new();
    let mut k: usize = 0;
    while k < rows.len()
        invariant
            k <= rows.len(),
            out.len() == k,
            forall|i: int| 0 <= i < k ==> (#[trigger] out[i])@ == rows[i].sum(),
        decreases rows.len() - k,
    {
        let row = &rows[k];
        let n: usize = row.name.len();
        let project = string_of(&row.name, 0, n);
        proof {
            assert(row.name@.subrange(0, n as int) =~= row.name@);
        }
        out.push(ProjectRow { project, minutes: row.minutes, running: row.running });
        k += 1;
    }
    proof {
        assert(sums(out@) =~= tallies(rows@));
    }
    Report { rows: out, total }
}

} // verus!
