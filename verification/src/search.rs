//! The projects of a log, and the search for a term among its projects and
//! descriptions.

use vstd::prelude::*;
use vstd::string::*;
use crate::activity::Record;
use crate::calendar::{Date, DateTime, Time};
use crate::history::{history, pairs, Labels};
use crate::list::list_running;
use crate::log::Log;
use crate::report::{has_project, report, sums};
use crate::text::{chars_of, precedes};

verus! {

/// The text in lower case, as `str::to_lowercase` gives it.
pub uninterp spec fn lowercase_of(text: Seq<char>) -> Seq<char>;

/// Calls `str::to_lowercase`. The result is a function of the text.
#[verifier::external_body]
fn lowercase(text: &str) -> (r: String)
    ensures
        r@ == lowercase_of(text@),
{
    text.to_lowercase()
}

/// Whether `needle` stands somewhere in `hay`.
pub open spec fn contains_text(hay: Seq<char>, needle: Seq<char>) -> bool {
    exists|i: int|
        0 <= i && i + needle.len() <= hay.len() && #[trigger] hay.subrange(i, i + needle.len())
            == needle
}

/// Whether a search for `term` finds a pair of project and description:
/// the term stands in one of them, large and small letters taken as the
/// same.
pub open spec fn finds(term: Seq<char>, pair: (Seq<char>, Seq<char>)) -> bool {
    contains_text(lowercase_of(pair.0), lowercase_of(term)) || contains_text(
        lowercase_of(pair.1),
        lowercase_of(term),
    )
}

/// Whether the names are the projects of the activities: in the order of a
/// dictionary, none twice, a name for each project that has an activity and
/// no other.
pub open spec fn names_of(s: Seq<Record>, names: Seq<Seq<char>>) -> bool {
    &&& forall|i: int, j: int|
        0 <= i < j < names.len() ==> precedes(#[trigger] names[i], #[trigger] names[j])
    &&& forall|i: int| 0 <= i < names.len() ==> has_project(s, #[trigger] names[i])
    &&& forall|k: int| 0 <= k < s.len() ==> names.contains((#[trigger] s[k]).project)
}

/// The texts of some strings.
pub open spec fn strings(list: Seq<String>) -> Seq<Seq<char>> {
    list.map_values(|s: String| s@)
}

/// Whether `needle` stands somewhere in `hay`.
pub fn text_contains(hay: &Vec<char>, needle: &Vec<char>) -> (r: bool)
    ensures
        r == contains_text(hay@, needle@),
{
    let n: usize = hay.len();
    let m: usize = needle.len();
    if m > n {
        return false;
    }
    let mut i: usize = 0;
    while i <= n - m
        invariant
            m <= n,
            n == hay.len(),
            m == needle.len(),
            i <= n - m + 1,
            forall|j: int| 0 <= j < i ==> #[trigger] hay@.subrange(j, j + m) != needle@,
        decreases n - m + 1 - i,
    {
        let mut k: usize = 0;
        while k < m && hay[i + k] == needle[k]
            invariant
                k <= m,
                m == needle.len(),
                n == hay.len(),
                i + m <= n,
                forall|l: int| 0 <= l < k ==> hay@[i + l] == needle@[l],
            decreases m - k,
        {
            k += 1;
        }
        if k == m {
            assert(hay@.subrange(i as int, i + m) =~= needle@);
            return true;
        }
        i += 1;
    }
    false
}

/// Whether a term, given in lower case, stands in a text, large and small
/// letters of the text taken as the same.
fn holds_term(text: &String, term: &Vec<char>) -> (r: bool)
    ensures
        r == contains_text(lowercase_of(text@), term@),
{
    let low = lowercase(text.as_str());
    let chars = chars_of(low.as_str());
    text_contains(&chars, term)
}

/// The entries of the log's history that a search for `search_term` finds:
/// each pair of project and description once, the latest first.
pub fn search(log: &Log, search_term: &str) -> (r: Vec<Labels>)
    ensures
        pairs(r@) == history(log@).filter(|p: (Seq<char>, Seq<char>)| finds(search_term@, p)),
{
    let ghost test = |p: (Seq<char>, Seq<char>)| finds(search_term@, p);
    let low = lowercase(search_term);
    let term = chars_of(low.as_str());
    let all = log.history();
    let mut found: Vec<Labels> = Vec::new();
    let mut i: usize = 0;
    while i < all.len()
        invariant
            i <= all.len(),
            term@ == lowercase_of(search_term@),
            test == |p: (Seq<char>, Seq<char>)| finds(search_term@, p),
            pairs(found@) == pairs(all@).take(i as int).filter(test),
        decreases all.len() - i,
    {
        proof {
            reveal(Seq::filter);
            let t = pairs(all@).take(i + 1);
            assert(t.drop_last() =~= pairs(all@).take(i as int));
        }
        let entry = &all[i];
        if holds_term(&entry.project, &term) || holds_term(&entry.description, &term) {
            found.push(
                Labels { project: entry.project.clone(), description: entry.description.clone() },
            );
        }
        i += 1;
    }
    proof {
        assert(pairs(all@).take(all.len() as int) =~= pairs(all@));
    }
    found
}

/// The projects of a log, or, with `current`, those of its running
/// activities: each once, in the order of a dictionary.
pub fn list_projects(log: &Log, current: bool) -> (r: Vec<String>)
    requires
        log.wf(),
    ensures
        names_of(
            if current {
                log@.filter(|r: Record| r.running())
            } else {
                log@
            },
            strings(r@),
        ),
{
    let origin = DateTime { date: Date { days: 0 }, time: Time { minutes: 0 } };
    let ghost pool = if current {
        log@.filter(|r: Record| r.running())
    } else {
        log@
    };
    let summary = if current {
        let running = list_running(log);
        report(&running, origin)
    } else {
        report(&log.activities, origin)
    };
    let mut names: Vec<String> = Vec::new();
    let mut i: usize = 0;
    while i < summary.rows.len()
        invariant
            i <= summary.rows.len(),
            names.len() == i,
            forall|j: int| 0 <= j < i ==> (#[trigger] names[j])@ == summary.rows[j]@.project,
        decreases summary.rows.len() - i,
    {
        names.push(summary.rows[i].project.clone());
        i += 1;
    }
    proof {
        let rows = sums(summary.rows@);
        let texts = strings(names@);
        assert forall|i: int| 0 <= i < texts.len() implies #[trigger] texts[i] == rows[i].project by {}
        assert forall|k: int| 0 <= k < pool.len() implies texts.contains(
            (#[trigger] pool[k]).project,
        ) by {
            let i = choose|i: int| 0 <= i < rows.len() && (#[trigger] rows[i]).project == pool[k].project;
            assert(texts[i] == pool[k].project);
        }
    }
    names
}

} // verus!
