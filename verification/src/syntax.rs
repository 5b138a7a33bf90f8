//! The pieces of the log's text: numbers of fixed width, times of day, dates
//! and labels. Each piece has a spec function that reads it from the front of
//! a text, a spec function that writes it, a lemma that reading finds what
//! was written, and the executable reader and writer.

use vstd::prelude::*;
use crate::text::{char_of_digit, digit_char, digit_of, digit_value};

verus! {

/// The number written by the first two characters, both decimal digits.
pub open spec fn number2(s: Seq<char>) -> Option<int> {
    if s.len() >= 2 && digit_value(s[0]).is_some() && digit_value(s[1]).is_some() {
        Some(digit_value(s[0]).unwrap() * 10 + digit_value(s[1]).unwrap())
    } else {
        None
    }
}

/// The number written by the first four characters, all decimal digits.
pub open spec fn number4(s: Seq<char>) -> Option<int> {
    if s.len() < 4 {
        None
    } else {
        match (number2(s), number2(s.skip(2))) {
            (Some(high), Some(low)) => Some(high * 100 + low),
            _ => None,
        }
    }
}

/// A number below 100 in two digits.
pub open spec fn text2(n: int) -> Seq<char> {
    seq![digit_char(n / 10), digit_char(n % 10)]
}

/// A number below 10000 in four digits.
pub open spec fn text4(n: int) -> Seq<char> {
    text2(n / 100) + text2(n % 100)
}

/// The time of day, in minutes, written as `HH:MM` at the front.
pub open spec fn time_at(s: Seq<char>) -> Option<int> {
    if s.len() < 5 {
        None
    } else {
        match (number2(s), number2(s.skip(3))) {
            (Some(hour), Some(minute)) => if s[2] == ':' && hour < 24 && minute < 60 {
                Some(hour * 60 + minute)
            } else {
                None
            },
            _ => None,
        }
    }
}

/// A time of day, given in minutes, as `HH:MM`.
pub open spec fn time_text(minutes: int) -> Seq<char> {
    text2(minutes / 60) + seq![':'] + text2(minutes % 60)
}

/// The number written by the first ten characters, all decimal digits.
pub open spec fn number10(s: Seq<char>) -> Option<int> {
    if s.len() < 10 {
        None
    } else {
        match (number4(s), number4(s.skip(4)), number2(s.skip(8))) {
            (Some(high), Some(middle), Some(low)) => Some(high * 1_000_000 + middle * 100 + low),
            _ => None,
        }
    }
}

/// A number below 10000000000 in ten digits.
pub open spec fn text10(n: int) -> Seq<char> {
    text4(n / 1_000_000) + text4(n / 100 % 10_000) + text2(n % 100)
}

/// The year written at the front, and the number of characters that it
/// takes up: four digits, or a sign and ten digits.
pub open spec fn year_at(s: Seq<char>) -> Option<(int, int)> {
    if s.len() > 0 && (s[0] == '+' || s[0] == '-') {
        match number10(s.skip(1)) {
            Some(n) => Some((if s[0] == '-' {
                -n
            } else {
                n
            }, 11int)),
            None => None,
        }
    } else {
        match number4(s) {
            Some(n) => Some((n, 4int)),
            None => None,
        }
    }
}

/// A year as the text holds it: in four digits from 0000 to 9999, any
/// other with its sign and in ten digits.
pub open spec fn year_text(year: int) -> Seq<char> {
    if 0 <= year <= 9999 {
        text4(year)
    } else if year < 0 {
        seq!['-'] + text10(-year)
    } else {
        seq!['+'] + text10(year)
    }
}

/// Year, month and day written as `YYYY-MM-DD` at the front, the year in
/// one of its two forms, and the number of characters that they take up.
/// Whether the calendar has that date is not asked here.
pub open spec fn date_at(s: Seq<char>) -> Option<((int, int, int), int)> {
    match year_at(s) {
        Some((year, used)) => if s.len() >= used + 6 && s[used] == '-' && s[used + 3] == '-' {
            match (number2(s.skip(used + 1)), number2(s.skip(used + 4))) {
                (Some(month), Some(day)) => Some(((year, month, day), used + 6)),
                _ => None,
            }
        } else {
            None
        },
        None => None,
    }
}

/// A date as `YYYY-MM-DD`, the year in the form that `year_text` gives it.
pub open spec fn date_text(year: int, month: int, day: int) -> Seq<char> {
    year_text(year) + seq!['-'] + text2(month) + seq!['-'] + text2(day)
}

/// Whether a text holds decimal digits only.
pub open spec fn all_digits(s: Seq<char>) -> bool {
    forall|i: int| 0 <= i < s.len() ==> digit_value(#[trigger] s[i]).is_some()
}

/// The letter that stands behind a backslash for a character that a label
/// cannot hold as it is: the backslash, the bar and the line feed.
pub open spec fn escape_code(c: char) -> Option<char> {
    if c == '\\' {
        Some('\\')
    } else if c == '|' {
        Some('|')
    } else if c == '\n' {
        Some('n')
    } else {
        None
    }
}

/// The character that a letter behind a backslash stands for.
pub open spec fn escaped_char(code: char) -> Option<char> {
    if code == '\\' {
        Some('\\')
    } else if code == '|' {
        Some('|')
    } else if code == 'n' {
        Some('\n')
    } else {
        None
    }
}

/// One character of a label as the text holds it.
pub open spec fn escape_one(c: char) -> Seq<char> {
    match escape_code(c) {
        Some(code) => seq!['\\', code],
        None => seq![c],
    }
}

/// A label as the text holds it.
pub open spec fn escape(label: Seq<char>) -> Seq<char>
    decreases label.len(),
{
    if label.len() == 0 {
        Seq::empty()
    } else {
        escape_one(label[0]) + escape(label.skip(1))
    }
}

/// The label at the front of a text, up to the first bar that no backslash
/// precedes or to the end, and the number of characters that it takes up; or
/// `None` where a backslash stands before anything but one of its letters.
pub open spec fn field_at(s: Seq<char>) -> Option<(Seq<char>, int)>
    decreases s.len(),
{
    if s.len() == 0 || s[0] == '|' {
        Some((Seq::empty(), 0))
    } else if s[0] == '\\' {
        if s.len() >= 2 && escaped_char(s[1]).is_some() {
            match field_at(s.skip(2)) {
                Some((label, used)) => Some((seq![escaped_char(s[1]).unwrap()] + label, used + 2)),
                None => None,
            }
        } else {
            None
        }
    } else {
        match field_at(s.skip(1)) {
            Some((label, used)) => Some((seq![s[0]] + label, used + 1)),
            None => None,
        }
    }
}

/// Whether a text holds no line feed.
pub open spec fn one_line(s: Seq<char>) -> bool {
    forall|i: int| 0 <= i < s.len() ==> s[i] != '\n'
}

/// Reading finds a number that was written in two digits.
pub proof fn lemma_number2(n: int, rest: Seq<char>)
    requires
        0 <= n < 100,
    ensures
        number2(text2(n) + rest) == Some(n),
        (text2(n) + rest).skip(2) == rest,
        text2(n).len() == 2,
        all_digits(text2(n)),
        one_line(text2(n)),
{
    let s = text2(n) + rest;
    assert(s[0] == digit_char(n / 10));
    assert(s[1] == digit_char(n % 10));
    assert(s.skip(2) =~= rest);
}


/// Reading finds a number that was written in four digits.
pub proof fn lemma_number4(n: int, rest: Seq<char>)
    requires
        0 <= n < 10000,
    ensures
        number4(text4(n) + rest) == Some(n),
        (text4(n) + rest).skip(4) == rest,
        text4(n).len() == 4,
        all_digits(text4(n)),
        one_line(text4(n)),
{
    let s = text4(n) + rest;
    lemma_number2(n / 100, text2(n % 100) + rest);
    lemma_number2(n % 100, rest);
    assert(s =~= text2(n / 100) + (text2(n % 100) + rest));
    assert(s.skip(4) =~= rest);
    lemma_number2(n / 100, Seq::empty());
    lemma_number2(n % 100, Seq::empty());
}

/// Reading finds a number that was written in ten digits.
pub proof fn lemma_number10(n: int, rest: Seq<char>)
    requires
        0 <= n < 10_000_000_000,
    ensures
        number10(text10(n) + rest) == Some(n),
        (text10(n) + rest).skip(10) == rest,
        text10(n).len() == 10,
        all_digits(text10(n)),
        one_line(text10(n)),
{
    let high = n / 1_000_000;
    let middle = n / 100 % 10_000;
    let low = n % 100;
    let s = text10(n) + rest;
    lemma_number4(high, text4(middle) + (text2(low) + rest));
    lemma_number4(middle, text2(low) + rest);
    lemma_number2(low, rest);
    assert(s =~= text4(high) + (text4(middle) + (text2(low) + rest)));
    assert(s.skip(4) =~= text4(middle) + (text2(low) + rest));
    assert(s.skip(8) =~= text2(low) + rest);
    assert(s.skip(10) =~= rest);
    assert(high * 1_000_000 + middle * 100 + low == n);
    lemma_number4(high, Seq::empty());
    lemma_number4(middle, Seq::empty());
    lemma_number2(low, Seq::empty());
}

/// Reading finds a year that was written.
pub proof fn lemma_year(year: int, rest: Seq<char>)
    requires
        -10_000_000_000 < year < 10_000_000_000,
    ensures
        year_at(year_text(year) + rest) == Some((year, year_text(year).len() as int)),
        (year_text(year) + rest).skip(year_text(year).len() as int) == rest,
        year_text(year).len() == 4 || year_text(year).len() == 11,
        (year_text(year) + rest)[0] != '|',
        (year_text(year) + rest)[2] != ':',
        one_line(year_text(year)),
{
    let s = year_text(year) + rest;
    if 0 <= year <= 9999 {
        lemma_number4(year, rest);
        lemma_number4(year, Seq::empty());
        assert(s[0] == text4(year)[0]);
        assert(s[2] == text4(year)[2]);
    } else {
        let n = if year < 0 {
            -year
        } else {
            year
        };
        lemma_number10(n, rest);
        lemma_number10(n, Seq::empty());
        assert(s.skip(1) =~= text10(n) + rest);
        assert(s.skip(11) =~= rest);
        assert(s[2] == text10(n)[1]);
    }
}


/// Reading finds a time of day that was written.
pub proof fn lemma_time(minutes: int, rest: Seq<char>)
    requires
        0 <= minutes < 1440,
    ensures
        time_at(time_text(minutes) + rest) == Some(minutes),
        (time_text(minutes) + rest).skip(5) == rest,
        time_text(minutes).len() == 5,
        (time_text(minutes) + rest)[2] == ':',
        one_line(time_text(minutes)),
{
    let s = time_text(minutes) + rest;
    let tail = seq![':'] + text2(minutes % 60) + rest;
    lemma_number2(minutes / 60, tail);
    lemma_number2(minutes % 60, rest);
    assert(s =~= text2(minutes / 60) + tail);
    assert(s.skip(3) =~= text2(minutes % 60) + rest);
    assert(s.skip(5) =~= rest);
    lemma_number2(minutes / 60, Seq::empty());
    lemma_number2(minutes % 60, Seq::empty());
}

/// Reading finds year, month and day that were written.
pub proof fn lemma_date(year: int, month: int, day: int, rest: Seq<char>)
    requires
        -10_000_000_000 < year < 10_000_000_000,
        0 <= month < 100,
        0 <= day < 100,
    ensures
        date_at(date_text(year, month, day) + rest) == Some(
            ((year, month, day), date_text(year, month, day).len() as int),
        ),
        (date_text(year, month, day) + rest).skip(date_text(year, month, day).len() as int)
            == rest,
        date_text(year, month, day).len() == 10 || date_text(year, month, day).len() == 17,
        (date_text(year, month, day) + rest)[0] != '|',
        (date_text(year, month, day) + rest)[2] != ':',
        one_line(date_text(year, month, day)),
{
    let s = date_text(year, month, day) + rest;
    let used = year_text(year).len() as int;
    let back = seq!['-'] + text2(day) + rest;
    let tail = seq!['-'] + text2(month) + back;
    lemma_year(year, tail);
    lemma_number2(month, back);
    lemma_number2(day, rest);
    assert(s =~= year_text(year) + tail);
    assert(s.skip(used) == tail);
    assert(s[used] == tail[0]);
    assert(s[used + 3] == tail[3]);
    assert(s.skip(used + 1) =~= text2(month) + back);
    assert(s.skip(used + 4) =~= text2(day) + rest);
    assert(s.skip(used + 6) =~= rest);
    lemma_year(year, Seq::empty());
    lemma_number2(month, Seq::empty());
    lemma_number2(day, Seq::empty());
    assert(year_text(year) + Seq::<char>::empty() =~= year_text(year));
}


/// A label as the text holds it has no line feed.
pub proof fn lemma_escape_one_line(label: Seq<char>)
    ensures
        one_line(escape(label)),
    decreases label.len(),
{
    if label.len() > 0 {
        lemma_escape_one_line(label.skip(1));
    }
}

/// Reading finds a label that was written, and goes on behind it.
pub proof fn lemma_field(label: Seq<char>, rest: Seq<char>)
    ensures
        field_at(escape(label) + rest) == match field_at(rest) {
            Some((more, used)) => Some((label + more, escape(label).len() + used)),
            None => None,
        },
    decreases label.len(),
{
    if label.len() == 0 {
        assert(escape(label) + rest =~= rest);
        match field_at(rest) {
            Some((more, used)) => {
                assert(label + more =~= more);
            },
            None => {},
        }
    } else {
        let c = label[0];
        let tail = label.skip(1);
        let s = escape(label) + rest;
        lemma_field(tail, rest);
        assert(s =~= escape_one(c) + (escape(tail) + rest));
        if escape_code(c).is_some() {
            assert(s[0] == '\\');
            assert(s[1] == escape_code(c).unwrap());
            assert(escaped_char(s[1]) == Some(c));
            assert(s.skip(2) =~= escape(tail) + rest);
        } else {
            assert(s[0] == c);
            assert(s.skip(1) =~= escape(tail) + rest);
        }
        match field_at(rest) {
            Some((more, used)) => {
                assert(seq![c] + (tail + more) =~= label + more);
            },
            None => {},
        }
    }
}

/// The number at `from`, in two digits.
pub fn read_number2(line: &Vec<char>, from: usize) -> (r: Option<u32>)
    requires
        from <= line.len(),
    ensures
        match r {
            Some(n) => number2(line@.skip(from as int)) == Some(n as int) && n < 100,
            None => number2(line@.skip(from as int)).is_none(),
        },
{
    if line.len() - from < 2 {
        return None;
    }
    match (digit_of(line[from]), digit_of(line[from + 1])) {
        (Some(high), Some(low)) => Some(high * 10 + low),
        _ => None,
    }
}

/// The number at `from`, in four digits.
pub fn read_number4(line: &Vec<char>, from: usize) -> (r: Option<u32>)
    requires
        from <= line.len(),
    ensures
        match r {
            Some(n) => number4(line@.skip(from as int)) == Some(n as int) && n < 10000,
            None => number4(line@.skip(from as int)).is_none(),
        },
{
    if line.len() - from < 4 {
        return None;
    }
    match (read_number2(line, from), read_number2(line, from + 2)) {
        (Some(high), Some(low)) => Some(high * 100 + low),
        _ => None,
    }
}

/// The time of day at `from`, in minutes.
pub fn read_time(line: &Vec<char>, from: usize) -> (r: Option<u16>)
    requires
        from <= line.len(),
    ensures
        match r {
            Some(minutes) => time_at(line@.skip(from as int)) == Some(minutes as int) && minutes
                < 1440,
            None => time_at(line@.skip(from as int)).is_none(),
        },
{
    if line.len() - from < 5 {
        return None;
    }
    match (read_number2(line, from), read_number2(line, from + 3)) {
        (Some(hour), Some(minute)) => if line[from + 2] == ':' && hour < 24 && minute < 60 {
            Some((hour * 60 + minute) as u16)
        } else {
            None
        },
        _ => None,
    }
}

/// The number at `from`, in ten digits.
pub fn read_number10(line: &Vec<char>, from: usize) -> (r: Option<i64>)
    requires
        from <= line.len(),
    ensures
        match r {
            Some(n) => number10(line@.skip(from as int)) == Some(n as int) && 0 <= n
                < 10_000_000_000,
            None => number10(line@.skip(from as int)).is_none(),
        },
{
    if line.len() - from < 10 {
        return None;
    }
    proof {
        assert(line@.skip(from as int).skip(4) =~= line@.skip(from + 4));
        assert(line@.skip(from as int).skip(8) =~= line@.skip(from + 8));
    }
    match (read_number4(line, from), read_number4(line, from + 4), read_number2(line, from + 8)) {
        (Some(high), Some(middle), Some(low)) => Some(
            high as i64 * 1_000_000 + middle as i64 * 100 + low as i64,
        ),
        _ => None,
    }
}

/// The year at `from`, and the place behind it.
pub fn read_year(line: &Vec<char>, from: usize) -> (r: Option<(i64, usize)>)
    requires
        from <= line.len(),
    ensures
        match r {
            Some((year, next)) => from < next <= line.len() && year_at(line@.skip(from as int))
                == Some((year as int, next - from)) && -10_000_000_000 < year < 10_000_000_000,
            None => year_at(line@.skip(from as int)).is_none(),
        },
{
    if line.len() - from > 0 && (line[from] == '+' || line[from] == '-') {
        proof {
            assert(line@.skip(from as int).skip(1) =~= line@.skip(from + 1));
        }
        match read_number10(line, from + 1) {
            Some(n) => Some((if line[from] == '-' {
                -n
            } else {
                n
            }, from + 11)),
            None => None,
        }
    } else {
        match read_number4(line, from) {
            Some(n) => Some((n as i64, from + 4)),
            None => None,
        }
    }
}

/// Year, month and day at `from`, and the place behind them.
pub fn read_date(line: &Vec<char>, from: usize) -> (r: Option<((i64, u32, u32), usize)>)
    requires
        from <= line.len(),
    ensures
        match r {
            Some((ymd, next)) => from < next <= line.len() && date_at(line@.skip(from as int))
                == Some(((ymd.0 as int, ymd.1 as int, ymd.2 as int), next - from))
                && -10_000_000_000 < ymd.0 < 10_000_000_000 && ymd.1 < 100 && ymd.2 < 100,
            None => date_at(line@.skip(from as int)).is_none(),
        },
{
    match read_year(line, from) {
        Some((year, at)) => {
            if line.len() - at < 6 || line[at] != '-' || line[at + 3] != '-' {
                return None;
            }
            proof {
                let used = at - from;
                assert(line@.skip(from as int).skip(used + 1) =~= line@.skip(at + 1));
                assert(line@.skip(from as int).skip(used + 4) =~= line@.skip(at + 4));
            }
            match (read_number2(line, at + 1), read_number2(line, at + 4)) {
                (Some(month), Some(day)) => Some(((year, month, day), at + 6)),
                _ => None,
            }
        },
        None => None,
    }
}


/// The character that a letter behind a backslash stands for.
pub fn unescape_code(code: char) -> (r: Option<char>)
    ensures
        r == escaped_char(code),
{
    if code == '\\' {
        Some('\\')
    } else if code == '|' {
        Some('|')
    } else if code == 'n' {
        Some('\n')
    } else {
        None
    }
}

/// The label at `from`, and the place behind it.
pub fn read_field(line: &Vec<char>, from: usize) -> (r: Option<(Vec<char>, usize)>)
    requires
        from <= line.len(),
    ensures
        match r {
            Some((label, next)) => from <= next <= line.len() && field_at(
                line@.skip(from as int),
            ) == Some((label@, next - from)),
            None => field_at(line@.skip(from as int)).is_none(),
        },
{
    let mut label: Vec<char> = Vec::new();
    let mut i: usize = from;
    let ghost whole = field_at(line@.skip(from as int));
    while i < line.len() && line[i] != '|'
        invariant
            from <= i <= line.len(),
            whole == field_at(line@.skip(from as int)),
            whole == match field_at(line@.skip(i as int)) {
                Some((more, used)) => Some((label@ + more, i - from + used)),
                None => None,
            },
        decreases line.len() - i,
    {
        let ghost s = line@.skip(i as int);
        if line[i] == '\\' {
            if line.len() - i < 2 {
                return None;
            }
            match unescape_code(line[i + 1]) {
                Some(c) => {
                    label.push(c);
                    proof {
                        assert(s.skip(2) =~= line@.skip(i + 2));
                    }
                    i += 2;
                },
                None => {
                    return None;
                },
            }
        } else {
            label.push(line[i]);
            proof {
                assert(s.skip(1) =~= line@.skip(i + 1));
            }
            i += 1;
        }
    }
    Some((label, i))
}

/// Writes a number below 100 in two digits.
pub fn write_number2(out: &mut Vec<char>, n: u32)
    requires
        n < 100,
    ensures
        final(out)@ == old(out)@ + text2(n as int),
{
    out.push(char_of_digit(n / 10));
    out.push(char_of_digit(n % 10));
}

/// Writes a number below 10000 in four digits.
pub fn write_number4(out: &mut Vec<char>, n: u32)
    requires
        n < 10000,
    ensures
        final(out)@ == old(out)@ + text4(n as int),
{
    write_number2(out, n / 100);
    write_number2(out, n % 100);
}

/// Writes a time of day as `HH:MM`.
pub fn write_time(out: &mut Vec<char>, minutes: u16)
    requires
        minutes < 1440,
    ensures
        final(out)@ == old(out)@ + time_text(minutes as int),
{
    write_number2(out, (minutes / 60) as u32);
    out.push(':');
    write_number2(out, (minutes % 60) as u32);
}

/// Writes a number below 10000000000 in ten digits.
pub fn write_number10(out: &mut Vec<char>, n: i64)
    requires
        0 <= n < 10_000_000_000,
    ensures
        final(out)@ == old(out)@ + text10(n as int),
{
    write_number4(out, (n / 1_000_000) as u32);
    write_number4(out, (n / 100 % 10_000) as u32);
    write_number2(out, (n % 100) as u32);
    assert(out@ =~= old(out)@ + text10(n as int));
}

/// Writes a year: in four digits from 0000 to 9999, any other with its sign
/// and in ten digits.
pub fn write_year(out: &mut Vec<char>, year: i32)
    ensures
        final(out)@ == old(out)@ + year_text(year as int),
{
    if 0 <= year && year <= 9999 {
        write_number4(out, year as u32);
    } else if year < 0 {
        out.push('-');
        write_number10(out, -(year as i64));
        assert(out@ =~= old(out)@ + year_text(year as int));
    } else {
        out.push('+');
        write_number10(out, year as i64);
        assert(out@ =~= old(out)@ + year_text(year as int));
    }
}

/// Writes a date as `YYYY-MM-DD`.
pub fn write_date(out: &mut Vec<char>, year: i32, month: u32, day: u32)
    requires
        month < 100,
        day < 100,
    ensures
        final(out)@ == old(out)@ + date_text(year as int, month as int, day as int),
{
    write_year(out, year);
    out.push('-');
    write_number2(out, month);
    out.push('-');
    write_number2(out, day);
    assert(out@ =~= old(out)@ + date_text(year as int, month as int, day as int));
}



/// Writes a label, with a backslash and a letter for each character that the
/// text cannot hold as it is.
pub fn write_field(out: &mut Vec<char>, label: &Vec<char>)
    ensures
        final(out)@ == old(out)@ + escape(label@),
{
    let mut i: usize = 0;
    proof {
        assert(label@.skip(0) =~= label@);
    }
    while i < label.len()
        invariant
            i <= label.len(),
            out@ + escape(label@.skip(i as int)) == old(out)@ + escape(label@),
        decreases label.len() - i,
    {
        let c = label[i];
        let ghost rest = label@.skip(i as int);
        if c == '\\' {
            out.push('\\');
            out.push('\\');
        } else if c == '|' {
            out.push('\\');
            out.push('|');
        } else if c == '\n' {
            out.push('\\');
            out.push('n');
        } else {
            out.push(c);
        }
        proof {
            assert(rest.skip(1) =~= label@.skip(i + 1));
        }
        i += 1;
    }
}

} // verus!
