//! One line of the log's text.
//!
//! A line is empty, or the header of a day, `YYYY-MM-DD`, or an activity of
//! the day whose header stands above it:
//!
//! ```text
//! HH:MM - | project | description
//! HH:MM - HH:MM | project | description
//! HH:MM - YYYY-MM-DD HH:MM | project | description
//! ```
//!
//! A year from 0000 to 9999 stands in four digits; any other year stands
//! with its sign and in ten digits, as in `-0000000044-03-15`.
//!
//! The first form is a running activity, the second one that ended on the day
//! it started, the third one that ended on the day named. A line whose third
//! character is a colon is read as an activity, any other as a header.

use vstd::prelude::*;
use crate::activity::{Activity, Record};
use crate::calendar::{calendar_day, civil_date, civil_of_days, days_of_civil, Date, Time};
use crate::syntax::{
    date_at, date_text, escape, field_at, lemma_date, lemma_escape_one_line, lemma_field,
    lemma_number2, lemma_time, one_line, read_date, read_field, read_time, text2,
    time_at, time_text, write_date, write_field, write_time,
};
use crate::text::{chars_of, string_of};

verus! {

/// What is wrong with a line.
#[derive(Clone, Copy, Debug, PartialEq, Eq, Structural)]
pub enum ParseErrorKind {
    /// A line that should name a day is no date of the calendar.
    MalformedDateHeader,
    /// An activity stands above the first header.
    MissingDateHeader,
    /// The times of an activity cannot be read.
    MalformedTimeRange,
    /// An activity ends before it starts.
    EndBeforeStart,
    /// Project and description of an activity cannot be read, or the project
    /// is empty.
    MalformedLabels,
}

/// The end of an activity as its line gives it.
pub enum EndMark {
    Running,
    /// Minutes of the day on which the activity started.
    SameDay(int),
    /// Day number and minutes of that day.
    Dated(int, int),
}

/// An activity as its line gives it, without the day.
pub struct EntryLine {
    pub start: int,
    pub end: EndMark,
    pub project: Seq<char>,
    pub description: Seq<char>,
}

/// What a line holds.
pub enum Line {
    Blank,
    Header(int),
    Entry(EntryLine),
    Bad(ParseErrorKind),
}

/// The day number of a date of the calendar that was read from a text.
pub open spec fn day_of(ymd: (int, int, int)) -> Option<int> {
    if i32::MIN <= ymd.0 <= i32::MAX && civil_date(ymd.0 as i32, ymd.1 as u32, ymd.2 as u32) {
        Some(days_of_civil(ymd.0 as i32, ymd.1 as u32, ymd.2 as u32).unwrap() as int)
    } else {
        None
    }
}

/// A line that is read as a header.
pub open spec fn header_of(line: Seq<char>) -> Line {
    match date_at(line) {
        Some((ymd, used)) => match day_of(ymd) {
            Some(day) => if line.len() == used {
                Line::Header(day)
            } else {
                Line::Bad(ParseErrorKind::MalformedDateHeader)
            },
            None => Line::Bad(ParseErrorKind::MalformedDateHeader),
        },
        None => Line::Bad(ParseErrorKind::MalformedDateHeader),
    }
}

/// The end at the front of a text, and the number of characters up to the
/// bar that follows it.
pub open spec fn end_at(s: Seq<char>) -> Option<(EndMark, int)> {
    if s.len() > 0 && s[0] == '|' {
        Some((EndMark::Running, 0))
    } else if s.len() > 5 && s[2] == ':' {
        match time_at(s) {
            Some(minutes) => if s[5] == ' ' {
                Some((EndMark::SameDay(minutes), 6))
            } else {
                None
            },
            None => None,
        }
    } else {
        dated_end_at(s)
    }
}

/// An end with its date at the front of a text, and the number of
/// characters up to the bar that follows it.
pub open spec fn dated_end_at(s: Seq<char>) -> Option<(EndMark, int)> {
    match date_at(s) {
        Some((ymd, used)) => if s.len() >= used + 7 && s[used] == ' ' && s[used + 6] == ' ' {
            match (day_of(ymd), time_at(s.skip(used + 1))) {
                (Some(day), Some(minutes)) => Some((EndMark::Dated(day, minutes), used + 7)),
                _ => None,
            }
        } else {
            None
        },
        None => None,
    }
}

/// Project and description in a text that begins with the bar before the
/// project and ends with the description.
pub open spec fn labels_at(s: Seq<char>) -> Option<(Seq<char>, Seq<char>)> {
    if s.len() >= 2 && s[0] == '|' && s[1] == ' ' {
        match field_at(s.skip(2)) {
            Some((first, used)) => {
                let rest = s.skip(2 + used);
                if first.len() >= 2 && first.last() == ' ' && rest.len() >= 2 && rest[0] == '|'
                    && rest[1] == ' ' {
                    match field_at(rest.skip(2)) {
                        Some((second, more)) => if 2 + more == rest.len() {
                            Some((first.drop_last(), second))
                        } else {
                            None
                        },
                        None => None,
                    }
                } else {
                    None
                }
            },
            None => None,
        }
    } else {
        None
    }
}

/// A line that is read as an activity.
pub open spec fn entry_of(line: Seq<char>) -> Line {
    match time_at(line) {
        Some(start) => if line.len() >= 8 && line[5] == ' ' && line[6] == '-' && line[7] == ' ' {
            match end_at(line.skip(8)) {
                Some((end, used)) => match labels_at(line.skip(8 + used)) {
                    Some((project, description)) => Line::Entry(
                        EntryLine { start, end, project, description },
                    ),
                    None => Line::Bad(ParseErrorKind::MalformedLabels),
                },
                None => Line::Bad(ParseErrorKind::MalformedTimeRange),
            }
        } else {
            Line::Bad(ParseErrorKind::MalformedTimeRange)
        },
        None => Line::Bad(ParseErrorKind::MalformedTimeRange),
    }
}

/// What a line holds.
pub open spec fn line_of(line: Seq<char>) -> Line {
    if line.len() == 0 {
        Line::Blank
    } else if line.len() >= 3 && line[2] == ':' {
        entry_of(line)
    } else {
        header_of(line)
    }
}

/// The activity that a line gives under the header of the day `day`.
pub open spec fn entry_record(day: int, entry: EntryLine) -> Result<Record, ParseErrorKind> {
    let start = day * 1440 + entry.start;
    let end = match entry.end {
        EndMark::Running => None,
        EndMark::SameDay(minutes) => Some(day * 1440 + minutes),
        EndMark::Dated(other, minutes) => Some(other * 1440 + minutes),
    };
    if end.is_some() && end.unwrap() < start {
        Err(ParseErrorKind::EndBeforeStart)
    } else {
        Ok(Record { project: entry.project, description: entry.description, start, end })
    }
}

/// The header of the day `day`.
pub open spec fn header_text(day: int) -> Seq<char> {
    match civil_of_days(day as i32) {
        Some((year, month, day)) => date_text(year as int, month as int, day as int),
        None => Seq::empty(),
    }
}

/// The end of an activity as its line holds it, with the space before the
/// bar.
pub open spec fn end_text(r: Record) -> Seq<char> {
    match r.end {
        None => Seq::empty(),
        Some(end) => if end / 1440 == r.start / 1440 {
            time_text(end % 1440) + seq![' ']
        } else {
            header_text(end / 1440) + seq![' '] + time_text(end % 1440) + seq![' ']
        },
    }
}

/// Project and description as a line holds them, from the bar before the
/// project on.
pub open spec fn labels_text(project: Seq<char>, description: Seq<char>) -> Seq<char> {
    seq!['|', ' '] + escape(project) + seq![' ', '|', ' '] + escape(description)
}

/// The line of an activity.
pub open spec fn entry_text(r: Record) -> Seq<char> {
    time_text(r.start % 1440) + seq![' ', '-', ' '] + end_text(r) + labels_text(
        r.project,
        r.description,
    )
}

/// The end of an activity as its line gives it.
pub enum End {
    Running,
    SameDay(Time),
    Dated(Date, Time),
}

/// What a line holds.
pub enum Item {
    Blank,
    Header(Date),
    Entry { start: Time, end: End, project: String, description: String },
    Bad(ParseErrorKind),
}

impl View for End {
    type V = EndMark;

    open spec fn view(&self) -> EndMark {
        match *self {
            End::Running => EndMark::Running,
            End::SameDay(time) => EndMark::SameDay(time.minutes as int),
            End::Dated(date, time) => EndMark::Dated(date.days as int, time.minutes as int),
        }
    }
}

impl End {
    pub open spec fn wf(self) -> bool {
        match self {
            End::Running => true,
            End::SameDay(time) => time.wf(),
            End::Dated(date, time) => date.wf() && time.wf(),
        }
    }
}

impl View for Item {
    type V = Line;

    open spec fn view(&self) -> Line {
        match *self {
            Item::Blank => Line::Blank,
            Item::Header(date) => Line::Header(date.days as int),
            Item::Entry { start, end, project, description } => Line::Entry(
                EntryLine {
                    start: start.minutes as int,
                    end: end@,
                    project: project@,
                    description: description@,
                },
            ),
            Item::Bad(kind) => Line::Bad(kind),
        }
    }
}

impl Item {
    /// What the reader of lines promises of an item besides its view: its
    /// dates are days of the calendar, its times are times of day, and the
    /// project is named.
    pub open spec fn wf(self) -> bool {
        match self {
            Item::Blank => true,
            Item::Header(date) => date.wf(),
            Item::Entry { start, end, project, description } => start.wf() && end.wf()
                && project@.len() > 0,
            Item::Bad(_) => true,
        }
    }
}

/// The date of the calendar for year, month and day as they were read.
fn read_day(ymd: (i64, u32, u32)) -> (r: Option<Date>)
    requires
        ymd.1 < 100,
        ymd.2 < 100,
    ensures
        match r {
            Some(date) => date.wf() && day_of((ymd.0 as int, ymd.1 as int, ymd.2 as int)) == Some(
                date.days as int,
            ),
            None => day_of((ymd.0 as int, ymd.1 as int, ymd.2 as int)).is_none(),
        },
{
    if ymd.0 < i32::MIN as i64 || ymd.0 > i32::MAX as i64 {
        return None;
    }
    Date::from_ymd(ymd.0 as i32, ymd.1, ymd.2)
}


fn read_header(line: &Vec<char>) -> (r: Item)
    ensures
        r@ == header_of(line@),
        r.wf(),
{
    proof {
        assert(line@.skip(0) =~= line@);
    }
    match read_date(line, 0) {
        Some((ymd, next)) => match read_day(ymd) {
            Some(date) => if line.len() == next {
                Item::Header(date)
            } else {
                Item::Bad(ParseErrorKind::MalformedDateHeader)
            },
            None => Item::Bad(ParseErrorKind::MalformedDateHeader),
        },
        None => Item::Bad(ParseErrorKind::MalformedDateHeader),
    }
}


/// The end with its date at `from`, and the place of the bar behind it.
fn read_dated_end(line: &Vec<char>, from: usize) -> (r: Option<(End, usize)>)
    requires
        from <= line.len(),
    ensures
        match r {
            Some((end, next)) => from <= next <= line.len() && end.wf() && dated_end_at(
                line@.skip(from as int),
            ) == Some((end@, next - from)),
            None => dated_end_at(line@.skip(from as int)).is_none(),
        },
{
    match read_date(line, from) {
        Some((ymd, at)) => {
            if line.len() - at < 7 || line[at] != ' ' || line[at + 6] != ' ' {
                return None;
            }
            proof {
                assert(line@.skip(from as int).skip(at - from + 1) =~= line@.skip(at + 1));
            }
            match (read_day(ymd), read_time(line, at + 1)) {
                (Some(date), Some(minutes)) => Some((End::Dated(date, Time { minutes }), at + 7)),
                _ => None,
            }
        },
        None => None,
    }
}

/// The end at `from`, and the place of the bar behind it.
fn read_end(line: &Vec<char>, from: usize) -> (r: Option<(End, usize)>)
    requires
        from <= line.len(),
    ensures
        match r {
            Some((end, next)) => from <= next <= line.len() && end.wf() && end_at(
                line@.skip(from as int),
            ) == Some((end@, next - from)),
            None => end_at(line@.skip(from as int)).is_none(),
        },
{
    let left: usize = line.len() - from;
    if left > 0 && line[from] == '|' {
        Some((End::Running, from))
    } else if left > 5 && line[from + 2] == ':' {
        match read_time(line, from) {
            Some(minutes) => if line[from + 5] == ' ' {
                Some((End::SameDay(Time { minutes }), from + 6))
            } else {
                None
            },
            None => None,
        }
    } else {
        read_dated_end(line, from)
    }
}



/// Project and description from the bar at `from` to the end of the line.
fn read_labels(line: &Vec<char>, from: usize) -> (r: Option<(String, String)>)
    requires
        from <= line.len(),
    ensures
        match r {
            Some((project, description)) => project@.len() > 0 && labels_at(
                line@.skip(from as int),
            ) == Some((project@, description@)),
            None => labels_at(line@.skip(from as int)).is_none(),
        },
{
    let ghost s = line@.skip(from as int);
    if line.len() - from < 2 || line[from] != '|' || line[from + 1] != ' ' {
        return None;
    }
    proof {
        assert(s.skip(2) =~= line@.skip(from + 2));
    }
    match read_field(line, from + 2) {
        Some((first, next)) => {
            let ghost rest = s.skip(2 + (next - (from + 2)));
            proof {
                assert(rest =~= line@.skip(next as int));
            }
            if first.len() >= 2 && first[first.len() - 1] == ' ' && line.len() - next >= 2
                && line[next] == '|' && line[next + 1] == ' ' {
                proof {
                    assert(rest.skip(2) =~= line@.skip(next + 2));
                }
                match read_field(line, next + 2) {
                    Some((second, end)) => if end == line.len() {
                        let project = string_of(&first, 0, first.len() - 1);
                        let description = string_of(&second, 0, second.len());
                        proof {
                            assert(first@.subrange(0, first.len() - 1) =~= first@.drop_last());
                            assert(second@.subrange(0, second.len() as int) =~= second@);
                        }
                        Some((project, description))
                    } else {
                        None
                    },
                    None => None,
                }
            } else {
                None
            }
        },
        None => None,
    }
}

fn read_entry(line: &Vec<char>) -> (r: Item)
    ensures
        r@ == entry_of(line@),
        r.wf(),
{
    proof {
        assert(line@.skip(0) =~= line@);
    }
    match read_time(line, 0) {
        Some(minutes) => if line.len() >= 8 && line[5] == ' ' && line[6] == '-' && line[7]
            == ' ' {
            match read_end(line, 8) {
                Some((end, next)) => match read_labels(line, next) {
                    Some((project, description)) => Item::Entry {
                        start: Time { minutes },
                        end,
                        project,
                        description,
                    },
                    None => Item::Bad(ParseErrorKind::MalformedLabels),
                },
                None => Item::Bad(ParseErrorKind::MalformedTimeRange),
            }
        } else {
            Item::Bad(ParseErrorKind::MalformedTimeRange)
        },
        None => Item::Bad(ParseErrorKind::MalformedTimeRange),
    }
}

/// Reads one line.
pub fn read_line(line: &Vec<char>) -> (r: Item)
    ensures
        r@ == line_of(line@),
        r.wf(),
{
    if line.len() == 0 {
        Item::Blank
    } else if line.len() >= 3 && line[2] == ':' {
        read_entry(line)
    } else {
        read_header(line)
    }
}

/// The day that a header gives is a day of the calendar.
pub proof fn lemma_header_sound(line: Seq<char>)
    ensures
        line_of(line) matches Line::Header(day) ==> i32::MIN <= day <= i32::MAX && calendar_day(
            day as i32,
        ),
{
}

/// An activity that a line gives under the header of a day of the
/// calendar, if it does not end before it starts, is well-formed and of
/// that day.
pub proof fn lemma_line_sound(line: Seq<char>, day: int)
    requires
        i32::MIN <= day <= i32::MAX,
        calendar_day(day as i32),
    ensures
        line_of(line) matches Line::Entry(entry) ==> (entry_record(day, entry) matches Ok(r)
            ==> r.wf() && r.day() == day),
{
    match line_of(line) {
        Line::Entry(entry) => {
            let after = line.skip(8);
            let used = end_at(after).unwrap().1;
            let labels = labels_at(after.skip(used)).unwrap();
            assert(labels == labels_at(line.skip(8 + used)).unwrap()) by {
                assert(after.skip(used) =~= line.skip(8 + used));
            }
            assert(entry.project.len() > 0);
            assert(0 <= entry.start < 1440);
            match entry_record(day, entry) {
                Ok(r) => {
                    assert(r.start / 1440 == day);
                    match entry.end {
                        EndMark::Running => {},
                        EndMark::SameDay(minutes) => {
                            assert(0 <= minutes < 1440);
                            assert((day * 1440 + minutes) / 1440 == day);
                        },
                        EndMark::Dated(other, minutes) => {
                            assert(0 <= minutes < 1440);
                            assert(i32::MIN <= other <= i32::MAX && calendar_day(other as i32));
                            assert((other * 1440 + minutes) / 1440 == other);
                        },
                    }
                },
                Err(_) => {},
            }
        },
        _ => {},
    }
}

/// The end of an activity as its line gives it.
pub open spec fn mark_of(r: Record) -> EndMark {
    match r.end {
        None => EndMark::Running,
        Some(end) => if end / 1440 == r.start / 1440 {
            EndMark::SameDay(end % 1440)
        } else {
            EndMark::Dated(end / 1440, end % 1440)
        },
    }
}

/// Reading finds the day whose header was written.
pub proof fn lemma_header(day: int, rest: Seq<char>)
    requires
        i32::MIN <= day <= i32::MAX,
        calendar_day(day as i32),
    ensures
        date_at(header_text(day) + rest) matches Some((ymd, used)) && day_of(ymd) == Some(day)
            && used == header_text(day).len(),
        (header_text(day) + rest).skip(header_text(day).len() as int) == rest,
        (header_text(day) + rest)[2] != ':',
        (header_text(day) + rest)[0] != '|',
        header_text(day).len() == 10 || header_text(day).len() == 17,
        one_line(header_text(day)),
{
    let ymd = civil_of_days(day as i32).unwrap();
    lemma_date(ymd.0 as int, ymd.1 as int, ymd.2 as int, rest);
}


proof fn lemma_end_same_day(minutes: int, rest: Seq<char>)
    requires
        0 <= minutes < 1440,
        rest.len() > 0,
        rest[0] == '|',
    ensures
        end_at(time_text(minutes) + seq![' '] + rest) == Some((EndMark::SameDay(minutes), 6int)),
        (time_text(minutes) + seq![' '] + rest).skip(6) == rest,
{
    let s = time_text(minutes) + seq![' '] + rest;
    let tail = seq![' '] + rest;
    lemma_time(minutes, tail);
    lemma_number2(minutes / 60, Seq::empty());
    assert(s =~= time_text(minutes) + tail);
    assert(s[0] == text2(minutes / 60)[0]);
    assert(s.skip(6) =~= rest);
}

proof fn lemma_dated_whole(s: Seq<char>, ymd: (int, int, int), used: int, day: int, minutes: int)
    requires
        date_at(s) == Some((ymd, used)),
        day_of(ymd) == Some(day),
        s.len() >= used + 7,
        s[used] == ' ',
        s[used + 6] == ' ',
        time_at(s.skip(used + 1)) == Some(minutes),
    ensures
        dated_end_at(s) == Some((EndMark::Dated(day, minutes), used + 7)),
{
}

proof fn lemma_dated(day: int, minutes: int, rest: Seq<char>)
    requires
        i32::MIN <= day <= i32::MAX,
        calendar_day(day as i32),
        0 <= minutes < 1440,
    ensures
        ({
            let s = header_text(day) + (seq![' '] + (time_text(minutes) + (seq![' '] + rest)));
            let used = header_text(day).len() as int;
            &&& dated_end_at(s) == Some((EndMark::Dated(day, minutes), used + 7))
            &&& s.skip(used + 7) == rest
            &&& s.len() > 5
            &&& s[0] != '|'
            &&& s[2] != ':'
        }),
{
    let used = header_text(day).len() as int;
    let tail = seq![' '] + rest;
    let back = time_text(minutes) + tail;
    let mid = seq![' '] + back;
    let s = header_text(day) + mid;
    lemma_header(day, mid);
    let ymd = date_at(s).unwrap().0;
    assert(time_at(back) == Some(minutes) && back.len() >= 6 && back[5] == ' ' && back.skip(5)
        == tail) by {
        lemma_time(minutes, tail);
    }
    assert(s.skip(used + 1) == back) by {
        assert(s.skip(used + 1) =~= mid.skip(1));
        assert(mid.skip(1) =~= back);
    }
    assert(s.skip(used + 7) == rest) by {
        assert(s.skip(used + 7) =~= back.skip(6));
        assert(back.skip(6) =~= tail.skip(1));
        assert(tail.skip(1) =~= rest);
    }
    assert(s[used] == ' ') by {
        assert(s[used] == mid[0]);
    }
    assert(s[used + 6] == ' ') by {
        assert(s[used + 6] == mid[6]);
        assert(mid[6] == back[5]);
    }
    lemma_dated_whole(s, ymd, used, day, minutes);
}


proof fn lemma_end_dated(day: int, minutes: int, rest: Seq<char>)
    requires
        i32::MIN <= day <= i32::MAX,
        calendar_day(day as i32),
        0 <= minutes < 1440,
        rest.len() > 0,
        rest[0] == '|',
    ensures
        end_at(header_text(day) + seq![' '] + time_text(minutes) + seq![' '] + rest) == Some(
            (EndMark::Dated(day, minutes), header_text(day).len() as int + 7),
        ),
        (header_text(day) + seq![' '] + time_text(minutes) + seq![' '] + rest).skip(
            header_text(day).len() as int + 7,
        ) == rest,
{
    let s = header_text(day) + seq![' '] + time_text(minutes) + seq![' '] + rest;
    let nested = header_text(day) + (seq![' '] + (time_text(minutes) + (seq![' '] + rest)));
    lemma_dated(day, minutes, rest);
    assert(s == nested) by {
        assert(s =~= nested);
    }
}




/// Reading finds the end that was written, in front of a bar.
pub proof fn lemma_end(r: Record, rest: Seq<char>)
    requires
        r.wf(),
        rest.len() > 0,
        rest[0] == '|',
    ensures
        end_at(end_text(r) + rest) == Some((mark_of(r), end_text(r).len() as int)),
        (end_text(r) + rest).skip(end_text(r).len() as int) == rest,
{
    let s = end_text(r) + rest;
    match r.end {
        None => {
            assert(s =~= rest);
            assert(s.skip(0) =~= rest);
        },
        Some(end) => {
            let minutes = end % 1440;
            let day = end / 1440;
            lemma_time(minutes, Seq::empty());
            if day == r.start / 1440 {
                lemma_end_same_day(minutes, rest);
            } else {
                lemma_header(day, Seq::empty());
                lemma_end_dated(day, minutes, rest);
            }
        },
    }
}

proof fn lemma_end_one_line(r: Record)
    requires
        r.wf(),
    ensures
        one_line(end_text(r)),
{
    if let Some(end) = r.end {
        lemma_time(end % 1440, Seq::empty());
        if end / 1440 != r.start / 1440 {
            lemma_header(end / 1440, Seq::empty());
        }
    }
}


proof fn lemma_field_space(rest: Seq<char>)
    requires
        rest.len() > 0,
        rest[0] == '|',
    ensures
        field_at(seq![' '] + rest) == Some((seq![' '], 1int)),
{
    let s = seq![' '] + rest;
    assert(s.skip(1) =~= rest);
    assert(field_at(rest) == Some((Seq::<char>::empty(), 0int)));
    assert(seq![s[0]] + Seq::<char>::empty() =~= seq![' ']);
}

proof fn lemma_project(project: Seq<char>, rest: Seq<char>)
    requires
        rest.len() > 0,
        rest[0] == '|',
    ensures
        field_at(escape(project) + (seq![' '] + rest)) == Some(
            (project.push(' '), escape(project).len() as int + 1),
        ),
{
    lemma_field(project, seq![' '] + rest);
    lemma_field_space(rest);
    assert(project + seq![' '] =~= project.push(' '));
}

proof fn lemma_description(description: Seq<char>)
    ensures
        field_at(escape(description)) == Some((description, escape(description).len() as int)),
{
    lemma_field(description, Seq::empty());
    assert(escape(description) + Seq::<char>::empty() =~= escape(description));
    assert(description + Seq::<char>::empty() =~= description);
}

/// Reading finds project and description that were written.
pub proof fn lemma_labels(project: Seq<char>, description: Seq<char>)
    requires
        project.len() > 0,
    ensures
        labels_at(labels_text(project, description)) == Some((project, description)),
        labels_text(project, description).len() >= 2,
        labels_text(project, description)[0] == '|',
{
    let s = labels_text(project, description);
    let back = seq!['|', ' '] + escape(description);
    let used: int = escape(project).len() as int + 1;
    assert(field_at(s.skip(2)) == Some((project.push(' '), used))) by {
        assert(s.skip(2) =~= escape(project) + (seq![' '] + back));
        lemma_project(project, back);
    }
    assert(s.skip(2 + used) =~= back);
    assert(field_at(back.skip(2)) == Some((description, back.len() - 2))) by {
        assert(back.skip(2) =~= escape(description));
        lemma_description(description);
    }
    assert(project.push(' ').drop_last() =~= project);
}

proof fn lemma_labels_one_line(project: Seq<char>, description: Seq<char>)
    ensures
        one_line(labels_text(project, description)),
{
    lemma_escape_one_line(project);
    lemma_escape_one_line(description);
}

proof fn lemma_entry_record(r: Record)
    requires
        r.wf(),
    ensures
        entry_record(
            r.day(),
            EntryLine {
                start: r.start % 1440,
                end: mark_of(r),
                project: r.project,
                description: r.description,
            },
        ) == Ok::<Record, ParseErrorKind>(r),
{
}

proof fn lemma_entry_front(minutes: int, mid: Seq<char>, tail: Seq<char>)
    requires
        0 <= minutes < 1440,
    ensures
        ({
            let s = time_text(minutes) + seq![' ', '-', ' '] + mid + tail;
            &&& time_at(s) == Some(minutes)
            &&& s.len() >= 8
            &&& s[2] == ':'
            &&& s[5] == ' '
            &&& s[6] == '-'
            &&& s[7] == ' '
            &&& s.skip(8) == mid + tail
        }),
{
    let s = time_text(minutes) + seq![' ', '-', ' '] + mid + tail;
    let rest = seq![' ', '-', ' '] + (mid + tail);
    lemma_time(minutes, rest);
    assert(s =~= time_text(minutes) + rest);
    assert(s.skip(8) =~= mid + tail);
}

proof fn lemma_entry_whole(
    s: Seq<char>,
    start: int,
    end: EndMark,
    used: int,
    project: Seq<char>,
    description: Seq<char>,
)
    requires
        time_at(s) == Some(start),
        s.len() >= 8,
        s[2] == ':',
        s[5] == ' ',
        s[6] == '-',
        s[7] == ' ',
        end_at(s.skip(8)) == Some((end, used)),
        labels_at(s.skip(8 + used)) == Some((project, description)),
    ensures
        line_of(s) == Line::Entry(EntryLine { start, end, project, description }),
{
}

/// Reading finds the activity whose line was written.
pub proof fn lemma_entry(r: Record)
    requires
        r.wf(),
    ensures
        line_of(entry_text(r)) matches Line::Entry(entry) && entry_record(r.day(), entry) == Ok::<
            Record,
            ParseErrorKind,
        >(r),
{
    let s = entry_text(r);
    let labels = labels_text(r.project, r.description);
    let used = end_text(r).len() as int;
    lemma_entry_front(r.start % 1440, end_text(r), labels);
    lemma_labels(r.project, r.description);
    lemma_end(r, labels);
    assert(s.skip(8 + used) == labels) by {
        assert(s.skip(8 + used) =~= s.skip(8).skip(used));
    }
    lemma_entry_whole(s, r.start % 1440, mark_of(r), used, r.project, r.description);
    lemma_entry_record(r);
}



/// The line of an activity holds no line feed.
pub proof fn lemma_entry_one_line(r: Record)
    requires
        r.wf(),
    ensures
        one_line(entry_text(r)),
{
    lemma_labels_one_line(r.project, r.description);
    lemma_end_one_line(r);
    lemma_time(r.start % 1440, Seq::empty());
}

/// Writes the header of a day.
pub fn write_header(out: &mut Vec<char>, date: Date)
    requires
        date.wf(),
    ensures
        final(out)@ == old(out)@ + header_text(date.days as int),
{
    let ymd = date.civil();
    write_date(out, ymd.0, ymd.1, ymd.2);
}


fn write_end(out: &mut Vec<char>, activity: &Activity)
    requires
        activity.wf(),
    ensures
        final(out)@ == old(out)@ + end_text(activity@),
{
    let ghost r = activity@;
    match activity.end {
        None => {
            assert(out@ =~= old(out)@ + Seq::<char>::empty());
        },
        Some(end) => {
            assert(r.end == Some(end.stamp()));
            assert(end.stamp() / 1440 == end.date.days as int);
            assert(end.stamp() % 1440 == end.time.minutes as int);
            assert(r.start / 1440 == activity.start.date.days as int);
            let ghost day = header_text(end.date.days as int);
            let ghost time = time_text(end.time.minutes as int);
            if end.date.days != activity.start.date.days {
                write_header(out, end.date);
                out.push(' ');
                write_time(out, end.time.minutes);
                out.push(' ');
                assert(out@ =~= old(out)@ + (day + seq![' '] + time + seq![' ']));
            } else {
                write_time(out, end.time.minutes);
                out.push(' ');
                assert(out@ =~= old(out)@ + (time + seq![' ']));
            }
        },
    }
}

fn write_labels(out: &mut Vec<char>, project: &Vec<char>, description: &Vec<char>)
    ensures
        final(out)@ == old(out)@ + labels_text(project@, description@),
{
    out.push('|');
    out.push(' ');
    write_field(out, project);
    out.push(' ');
    out.push('|');
    out.push(' ');
    write_field(out, description);
    assert(out@ =~= old(out)@ + labels_text(project@, description@));
}

fn write_start(out: &mut Vec<char>, minutes: u16)
    requires
        minutes < 1440,
    ensures
        final(out)@ == old(out)@ + (time_text(minutes as int) + seq![' ', '-', ' ']),
{
    write_time(out, minutes);
    out.push(' ');
    out.push('-');
    out.push(' ');
    assert(out@ =~= old(out)@ + (time_text(minutes as int) + seq![' ', '-', ' ']));
}

/// Writes the line of an activity.
pub fn write_entry(out: &mut Vec<char>, activity: &Activity)
    requires
        activity.wf(),
    ensures
        final(out)@ == old(out)@ + entry_text(activity@),
{
    let ghost r = activity@;
    let project = chars_of(activity.project.as_str());
    let description = chars_of(activity.description.as_str());
    assert(r.start % 1440 == activity.start.time.minutes as int);
    write_start(out, activity.start.time.minutes);
    let ghost head = out@;
    write_end(out, activity);
    let ghost middle = out@;
    write_labels(out, &project, &description);
    proof {
        let a = time_text(r.start % 1440) + seq![' ', '-', ' '];
        let b = end_text(r);
        let c = labels_text(r.project, r.description);
        assert(entry_text(r) == a + b + c);
        assert(out@ == old(out)@ + a + b + c);
        assert(old(out)@ + a + b + c =~= old(out)@ + (a + b + c));
    }
}

} // verus!
