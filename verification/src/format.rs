//! The log as a text: reading, checking and writing.
//!
//! The text is a sequence of lines, each closed by a line feed. Every day that
//! has activities is written as its header followed by the lines of its
//! activities. Reading takes the lines in turn: a header names the day of the
//! activities below it, and each activity is put into the bucket of its day,
//! so that headers need not stand in order. A line that cannot be read is
//! reported with its number and left out.

use vstd::prelude::*;
use crate::activity::{Activity, Record};
use crate::calendar::{calendar_day, Date, DateTime, Time};
use crate::line::{
    entry_record, entry_text, header_text, lemma_entry, lemma_entry_one_line, lemma_header,
    lemma_header_sound, lemma_line_sound, line_of, read_line, write_entry, write_header, End,
    EntryLine, Item, Line, ParseErrorKind,
};
use crate::log::{lemma_recorded_last, lemma_recorded_wf, log_wf, recorded, Log};
use crate::syntax::one_line;
use crate::text::{chars_of, string_of};

verus! {

/// A line that was not read: its number, counted from 1, and what is wrong
/// with it.
#[derive(Clone, Copy, Debug, PartialEq, Eq, Structural)]
pub struct LineError {
    pub line: usize,
    pub kind: ParseErrorKind,
}

/// The lines that a text has closed with a line feed, and what stands behind
/// the last line feed.
pub open spec fn split(text: Seq<char>) -> (Seq<Seq<char>>, Seq<char>)
    decreases text.len(),
{
    if text.len() == 0 {
        (Seq::empty(), Seq::empty())
    } else {
        let before = split(text.drop_last());
        if text.last() == '\n' {
            (before.0.push(before.1), Seq::empty())
        } else {
            (before.0, before.1.push(text.last()))
        }
    }
}

/// The lines of a text. What stands behind the last line feed is a line if
/// it is not empty.
pub open spec fn lines(text: Seq<char>) -> Seq<Seq<char>> {
    let parts = split(text);
    if parts.1.len() > 0 {
        parts.0.push(parts.1)
    } else {
        parts.0
    }
}

/// The text of some lines: each with a line feed behind it.
pub open spec fn joined(ls: Seq<Seq<char>>) -> Seq<char>
    decreases ls.len(),
{
    if ls.len() == 0 {
        Seq::empty()
    } else {
        joined(ls.drop_last()) + ls.last() + seq!['\n']
    }
}

/// Where reading stands: the day of the last header, the activities read,
/// and the lines that were not read.
pub struct Scan {
    pub day: Option<int>,
    pub log: Seq<Record>,
    pub findings: Seq<LineError>,
}

/// Reading with one more finding.
pub open spec fn found(before: Scan, number: int, kind: ParseErrorKind) -> Scan {
    Scan { findings: before.findings.push(LineError { line: number as usize, kind }), ..before }
}

/// Reading one line, the line of the number `number`.
pub open spec fn step(before: Scan, number: int, line: Seq<char>) -> Scan {
    match line_of(line) {
        Line::Blank => before,
        Line::Header(day) => Scan { day: Some(day), ..before },
        Line::Bad(kind) => found(before, number, kind),
        Line::Entry(entry) => match before.day {
            None => found(before, number, ParseErrorKind::MissingDateHeader),
            Some(day) => match entry_record(day, entry) {
                Ok(r) => Scan { log: recorded(before.log, r), ..before },
                Err(kind) => found(before, number, kind),
            },
        },
    }
}

/// Reading all lines in turn.
pub open spec fn scan(ls: Seq<Seq<char>>) -> Scan
    decreases ls.len(),
{
    if ls.len() == 0 {
        Scan { day: None, log: Seq::empty(), findings: Seq::empty() }
    } else {
        step(scan(ls.drop_last()), ls.len() as int, ls.last())
    }
}

/// The lines of a text that are not read, in the order of the text.
pub open spec fn findings(text: Seq<char>) -> Seq<LineError> {
    scan(lines(text)).findings
}

/// The log that a text holds, or the first line of it that is not read.
pub open spec fn parsed(text: Seq<char>) -> Result<Seq<Record>, LineError> {
    let end = scan(lines(text));
    if end.findings.len() == 0 {
        Ok(end.log)
    } else {
        Err(end.findings[0])
    }
}

/// The lines of a log: before the first activity of each day the header of
/// the day.
pub open spec fn day_lines(s: Seq<Record>) -> Seq<Seq<char>>
    decreases s.len(),
{
    if s.len() == 0 {
        Seq::empty()
    } else {
        let before = s.drop_last();
        let r = s.last();
        if before.len() > 0 && before.last().day() == r.day() {
            day_lines(before).push(entry_text(r))
        } else {
            day_lines(before).push(header_text(r.day())).push(entry_text(r))
        }
    }
}

/// The text of a log.
pub open spec fn rendered(s: Seq<Record>) -> Seq<char> {
    joined(day_lines(s))
}

/// The texts of some lines.
pub open spec fn texts(ls: Seq<Vec<char>>) -> Seq<Seq<char>> {
    ls.map_values(|l: Vec<char>| l@)
}

proof fn lemma_split_more(text: Seq<char>, more: Seq<char>)
    requires
        one_line(more),
    ensures
        split(text + more) == (split(text).0, split(text).1 + more),
    decreases more.len(),
{
    if more.len() == 0 {
        assert(text + more =~= text);
        assert(split(text).1 + more =~= split(text).1);
    } else {
        let whole = text + more;
        assert(whole.drop_last() =~= text + more.drop_last());
        assert(whole.last() == more.last());
        lemma_split_more(text, more.drop_last());
        assert((split(text).1 + more.drop_last()).push(more.last()) =~= split(text).1 + more);
    }
}

/// The lines of a text that was made of lines are those lines.
pub proof fn lemma_lines_joined(ls: Seq<Seq<char>>)
    requires
        forall|i: int| 0 <= i < ls.len() ==> one_line(#[trigger] ls[i]),
    ensures
        split(joined(ls)) == (ls, Seq::<char>::empty()),
        lines(joined(ls)) == ls,
    decreases ls.len(),
{
    if ls.len() > 0 {
        let before = ls.drop_last();
        let front = joined(before);
        lemma_lines_joined(before);
        assert(one_line(ls.last()));
        lemma_split_more(front, ls.last());
        let whole = joined(ls);
        assert(whole.drop_last() =~= front + ls.last());
        assert(whole.last() == '\n');
        assert(Seq::<char>::empty() + ls.last() =~= ls.last());
        assert(before.push(ls.last()) =~= ls);
    }
}

proof fn lemma_scan_push(ls: Seq<Seq<char>>, line: Seq<char>)
    ensures
        scan(ls.push(line)) == step(scan(ls), ls.len() as int + 1, line),
{
    assert(ls.push(line).drop_last() =~= ls);
}

proof fn lemma_day_lines_one_line(s: Seq<Record>)
    requires
        log_wf(s),
    ensures
        forall|i: int| 0 <= i < day_lines(s).len() ==> one_line(#[trigger] day_lines(s)[i]),
    decreases s.len(),
{
    if s.len() > 0 {
        let before = s.drop_last();
        let r = s.last();
        assert(log_wf(before)) by {
            assert forall|i: int| 0 <= i < before.len() implies (#[trigger] before[i]).wf() by {
                assert(before[i] == s[i]);
            }
            assert forall|i: int, j: int| 0 <= i <= j < before.len() implies (
            #[trigger] before[i]).day() <= (#[trigger] before[j]).day() by {
                assert(before[i] == s[i] && before[j] == s[j]);
            }
        }
        lemma_day_lines_one_line(before);
        assert(r.wf());
        lemma_entry_one_line(r);
        lemma_header(r.day(), Seq::empty());
        let head = day_lines(before);
        let all = day_lines(s);
        assert forall|i: int| 0 <= i < all.len() implies one_line(#[trigger] all[i]) by {
            if i < head.len() {
                assert(all[i] == head[i]);
            }
        }
    }
}

/// Reading the lines of a well-formed log finds the log, and nothing wrong.
pub proof fn lemma_scan_day_lines(s: Seq<Record>)
    requires
        log_wf(s),
    ensures
        scan(day_lines(s)).log == s,
        scan(day_lines(s)).findings == Seq::<LineError>::empty(),
        scan(day_lines(s)).day == if s.len() > 0 {
            Some(s.last().day())
        } else {
            None
        },
    decreases s.len(),
{
    if s.len() > 0 {
        let before = s.drop_last();
        let r = s.last();
        assert(log_wf(before)) by {
            assert forall|i: int| 0 <= i < before.len() implies (#[trigger] before[i]).wf() by {
                assert(before[i] == s[i]);
            }
            assert forall|i: int, j: int| 0 <= i <= j < before.len() implies (
            #[trigger] before[i]).day() <= (#[trigger] before[j]).day() by {
                assert(before[i] == s[i] && before[j] == s[j]);
            }
        }
        lemma_scan_day_lines(before);
        assert(r.wf());
        lemma_entry(r);
        let head = day_lines(before);
        let entry = entry_text(r);
        assert(recorded(before, r) == s) by {
            if before.len() > 0 {
                assert(before.last() == s[s.len() - 2]);
                assert(s[s.len() - 2].day() <= s[s.len() - 1].day());
            }
            lemma_recorded_last(before, r);
            assert(before.push(r) =~= s);
        }
        if before.len() > 0 && before.last().day() == r.day() {
            lemma_scan_push(head, entry);
        } else {
            let header = header_text(r.day());
            lemma_header(r.day(), Seq::empty());
            assert(header + Seq::<char>::empty() =~= header);
            assert(line_of(header) == Line::Header(r.day()));
            lemma_scan_push(head, header);
            lemma_scan_push(head.push(header), entry);
        }
    }
}

/// Whatever the lines, the activities read from them are a well-formed log.
pub proof fn lemma_scan_wf(ls: Seq<Seq<char>>)
    ensures
        log_wf(scan(ls).log),
        scan(ls).day matches Some(day) ==> i32::MIN <= day <= i32::MAX && calendar_day(day as i32),
    decreases ls.len(),
{
    if ls.len() > 0 {
        let before = scan(ls.drop_last());
        lemma_scan_wf(ls.drop_last());
        lemma_header_sound(ls.last());
        match before.day {
            Some(day) => {
                lemma_line_sound(ls.last(), day);
                match line_of(ls.last()) {
                    Line::Entry(entry) => match entry_record(day, entry) {
                        Ok(r) => {
                            lemma_recorded_wf(before.log, r);
                        },
                        Err(_) => {},
                    },
                    _ => {},
                }
            },
            None => {},
        }
    }
}

/// A line that ends before it starts is found wrong once and is left out:
/// reading it under the header of a day adds one finding, with the number
/// of that line, and no activity.
pub proof fn lemma_end_before_start(ls: Seq<Seq<char>>, line: Seq<char>)
    requires
        scan(ls).day matches Some(day) && line_of(line) matches Line::Entry(entry) && entry_record(
            day,
            entry,
        ) == Err::<Record, ParseErrorKind>(ParseErrorKind::EndBeforeStart),
    ensures
        scan(ls.push(line)).log == scan(ls).log,
        scan(ls.push(line)).findings == scan(ls).findings.push(
            LineError { line: (ls.len() + 1) as usize, kind: ParseErrorKind::EndBeforeStart },
        ),
{
    lemma_scan_push(ls, line);
}

/// No line is found wrong twice: the findings name lines of the text, in
/// rising order.
pub proof fn lemma_findings_rise(ls: Seq<Seq<char>>)
    requires
        ls.len() <= usize::MAX,
    ensures
        forall|i: int|
            0 <= i < scan(ls).findings.len() ==> 1 <= (#[trigger] scan(ls).findings[i]).line
                <= ls.len(),
        forall|i: int, j: int|
            0 <= i < j < scan(ls).findings.len() ==> (#[trigger] scan(ls).findings[i]).line < (
            #[trigger] scan(ls).findings[j]).line,
    decreases ls.len(),
{
    if ls.len() > 0 {
        let before = scan(ls.drop_last()).findings;
        let all = scan(ls).findings;
        lemma_findings_rise(ls.drop_last());
        assert forall|i: int| 0 <= i < all.len() implies 1 <= (#[trigger] all[i]).line
            <= ls.len() by {
            if i < before.len() {
                assert(all[i] == before[i]);
            }
        }
        assert forall|i: int, j: int| 0 <= i < j < all.len() implies (#[trigger] all[i]).line < (
        #[trigger] all[j]).line by {
            assert(all[i] == before[i]);
            if j < before.len() {
                assert(all[j] == before[j]);
            }
        }
    }
}

/// A text that is read without fault gives a well-formed log, and that
/// log, written and read again, is the same log.
pub proof fn lemma_read_again(text: Seq<char>)
    requires
        parsed(text).is_ok(),
    ensures
        log_wf(parsed(text).unwrap()),
        parsed(rendered(parsed(text).unwrap())) == parsed(text),
{
    lemma_scan_wf(lines(text));
    lemma_round_trip(parsed(text).unwrap());
}

/// A well-formed log that is written and read is the same log again, with
/// nothing found wrong; so the text of what was read is the text read.
pub proof fn lemma_round_trip(log: Seq<Record>)
    requires
        log_wf(log),
    ensures
        findings(rendered(log)) == Seq::<LineError>::empty(),
        parsed(rendered(log)) == Ok::<Seq<Record>, LineError>(log),
        rendered(parsed(rendered(log)).unwrap()) == rendered(log),
{
    lemma_day_lines_one_line(log);
    lemma_lines_joined(day_lines(log));
    lemma_scan_day_lines(log);
}

proof fn lemma_joined_push(ls: Seq<Seq<char>>, line: Seq<char>)
    ensures
        joined(ls.push(line)) == joined(ls) + line + seq!['\n'],
{
    assert(ls.push(line).drop_last() =~= ls);
}

/// Splits a text into its lines.
pub fn split_lines(text: &Vec<char>) -> (r: Vec<Vec<char>>)
    ensures
        texts(r@) == lines(text@),
{
    let mut done: Vec<Vec<char>> = Vec::new();
    let mut open: Vec<char> = Vec::new();
    let mut i: usize = 0;
    while i < text.len()
        invariant
            i <= text.len(),
            split(text@.take(i as int)) == (texts(done@), open@),
        decreases text.len() - i,
    {
        let c = text[i];
        proof {
            let t = text@.take(i + 1);
            assert(t.drop_last() =~= text@.take(i as int));
        }
        if c == '\n' {
            done.push(open);
            open = Vec::new();
        } else {
            open.push(c);
        }
        i += 1;
    }
    proof {
        assert(text@.take(text.len() as int) =~= text@);
    }
    if open.len() > 0 {
        done.push(open);
    }
    done
}

/// The activity that a line gives under the header of `day`, unless it ends
/// before it starts.
fn entry_activity(day: Date, start: Time, end: End, project: String, description: String) -> (r:
    Result<Activity, ParseErrorKind>)
    requires
        day.wf(),
        start.wf(),
        end.wf(),
        project@.len() > 0,
    ensures
        match r {
            Ok(activity) => activity.wf() && entry_record(
                day.days as int,
                EntryLine {
                    start: start.minutes as int,
                    end: end@,
                    project: project@,
                    description: description@,
                },
            ) == Ok::<Record, ParseErrorKind>(activity@),
            Err(kind) => entry_record(
                day.days as int,
                EntryLine {
                    start: start.minutes as int,
                    end: end@,
                    project: project@,
                    description: description@,
                },
            ) == Err::<Record, ParseErrorKind>(kind),
        },
{
    let from = DateTime::new(day, start);
    let to: Option<DateTime> = match end {
        End::Running => None,
        End::SameDay(time) => Some(DateTime::new(day, time)),
        End::Dated(date, time) => Some(DateTime::new(date, time)),
    };
    match to {
        Some(to) => {
            if to.to_stamp() < from.to_stamp() {
                return Err(ParseErrorKind::EndBeforeStart);
            }
        },
        None => {},
    }
    Ok(Activity { project, description, start: from, end: to })
}

/// Reads a text: the log of the lines that can be read, and the others, each
/// with its number and what is wrong with it, in the order of the text.
pub fn read(text: &str) -> (r: (Log, Vec<LineError>))
    ensures
        r.0.wf(),
        r.0@ == scan(lines(text@)).log,
        r.1@ == findings(text@),
{
    let chars = chars_of(text);
    let ls = split_lines(&chars);
    let mut day: Option<Date> = None;
    let mut log = Log::new();
    let mut found: Vec<LineError> = Vec::new();
    let mut i: usize = 0;
    while i < ls.len()
        invariant
            i <= ls.len(),
            log.wf(),
            day matches Some(date) ==> date.wf(),
            scan(texts(ls@).take(i as int)) == (Scan {
                day: match day {
                    Some(date) => Some(date.days as int),
                    None => None,
                },
                log: log@,
                findings: found@,
            }),
        decreases ls.len() - i,
    {
        proof {
            let t = texts(ls@).take(i + 1);
            assert(t.drop_last() =~= texts(ls@).take(i as int));
        }
        let item = read_line(&ls[i]);
        match item {
            Item::Blank => {},
            Item::Header(date) => {
                day = Some(date);
            },
            Item::Bad(kind) => {
                found.push(LineError { line: i + 1, kind });
            },
            Item::Entry { start, end, project, description } => match day {
                None => {
                    found.push(LineError { line: i + 1, kind: ParseErrorKind::MissingDateHeader });
                },
                Some(date) => match entry_activity(date, start, end, project, description) {
                    Ok(activity) => {
                        log.record(activity);
                    },
                    Err(kind) => {
                        found.push(LineError { line: i + 1, kind });
                    },
                },
            },
        }
        i += 1;
    }
    proof {
        assert(texts(ls@).take(ls.len() as int) =~= texts(ls@));
    }
    (log, found)
}

/// Reads a log from its text. Fails with the first line that cannot be read.
pub fn parse(text: &str) -> (r: Result<Log, LineError>)
    ensures
        match r {
            Ok(log) => log.wf() && parsed(text@) == Ok::<Seq<Record>, LineError>(log@),
            Err(error) => parsed(text@) == Err::<Seq<Record>, LineError>(error),
        },
{
    let (log, found) = read(text);
    if found.len() == 0 {
        Ok(log)
    } else {
        Err(found[0])
    }
}

/// Every line of a text that cannot be read, in the order of the text.
pub fn check(text: &str) -> (r: Vec<LineError>)
    ensures
        r@ == findings(text@),
{
    let (log, found) = read(text);
    found
}

/// Writes a log as a text.
pub fn serialize(log: &Log) -> (r: String)
    requires
        log.wf(),
    ensures
        r@ == rendered(log@),
{
    let mut out: Vec<char> = Vec::new();
    let mut i: usize = 0;
    proof {
        assert(log@.take(0) =~= Seq::<Record>::empty());
        assert(out@ =~= Seq::<char>::empty());
    }
    while i < log.activities.len()
        invariant
            i <= log.activities.len(),
            log.wf(),
            out@ == rendered(log@.take(i as int)),
        decreases log.activities.len() - i,
    {
        let activity = &log.activities[i];
        let ghost before = log@.take(i as int);
        let ghost head = day_lines(before);
        proof {
            let t = log@.take(i + 1);
            assert(t.drop_last() =~= before);
            assert(t.last() == activity@);
            activity.lemma_record_wf();
            if i > 0 {
                log.activities[i - 1].lemma_record_wf();
                assert(before.last() == log.activities[i - 1]@);
            }
        }
        if i > 0 && log.activities[i - 1].start.date.days == activity.start.date.days {
            proof {
                lemma_joined_push(head, entry_text(activity@));
            }
        } else {
            write_header(&mut out, activity.start.date);
            out.push('\n');
            proof {
                let header = header_text(activity@.day());
                lemma_joined_push(head, header);
                lemma_joined_push(head.push(header), entry_text(activity@));
                assert(out@ =~= joined(head) + header + seq!['\n']);
            }
        }
        let ghost middle = out@;
        write_entry(&mut out, activity);
        out.push('\n');
        proof {
            assert(out@ =~= middle + entry_text(activity@) + seq!['\n']);
        }
        i += 1;
    }
    proof {
        assert(log@.take(log.activities.len() as int) =~= log@);
    }
    let n: usize = out.len();
    let text = string_of(&out, 0, n);
    proof {
        assert(out@.subrange(0, n as int) =~= out@);
    }
    text
}

} // verus!
