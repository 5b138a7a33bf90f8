use bartib::calendar::{Date, DateTime, Time};
use bartib::format::{check, parse, serialize, LineError};
use bartib::line::ParseErrorKind;

fn at(year: i32, month: u32, day: u32, hour: u32, minute: u32) -> DateTime {
    DateTime::new(Date::from_ymd(year, month, day).unwrap(), Time::from_hm(hour, minute).unwrap())
}

#[test]
fn parse_reads_days_and_activities() {
    let text = "2021-02-16\n09:00 - 10:30 | work | write spec\n10:30 - | home | cooking\n2021-02-17\n23:00 - 2021-02-18 01:15 | work | night\n";
    let log = parse(text).unwrap();
    assert_eq!(log.len(), 3);
    let first = log.get(0);
    assert_eq!(first.project, "work");
    assert_eq!(first.description, "write spec");
    assert_eq!(first.start, at(2021, 2, 16, 9, 0));
    assert_eq!(first.end, Some(at(2021, 2, 16, 10, 30)));
    let second = log.get(1);
    assert_eq!(second.project, "home");
    assert_eq!(second.end, None);
    let third = log.get(2);
    assert_eq!(third.start, at(2021, 2, 17, 23, 0));
    assert_eq!(third.end, Some(at(2021, 2, 18, 1, 15)));
}

#[test]
fn serialize_writes_what_parse_read() {
    let text = "2021-02-16\n09:00 - 10:30 | work | write spec\n10:30 - | home | cooking\n2021-02-17\n23:00 - 2021-02-18 01:15 | work | night\n";
    let log = parse(text).unwrap();
    assert_eq!(serialize(&log), text);
}

#[test]
fn round_trip_keeps_bars_backslashes_and_line_feeds() {
    let mut log = bartib::log::Log::new();
    log.start("a|b", "line one\nline \\ two | three ", at(2022, 12, 31, 23, 59)).unwrap();
    let text = serialize(&log);
    assert_eq!(text, "2022-12-31\n23:59 - | a\\|b | line one\\nline \\\\ two \\| three \n");
    let again = parse(&text).unwrap();
    assert_eq!(again.len(), 1);
    assert_eq!(again.get(0).project, "a|b");
    assert_eq!(again.get(0).description, "line one\nline \\ two | three ");
    assert_eq!(serialize(&again), text);
}

#[test]
fn headers_out_of_order_are_put_in_order() {
    let text = "2021-02-17\n08:00 - 09:00 | b | later\n2021-02-16\n08:00 - 09:00 | a | earlier\n";
    let log = parse(text).unwrap();
    assert_eq!(log.get(0).project, "a");
    assert_eq!(log.get(1).project, "b");
    assert_eq!(
        serialize(&log),
        "2021-02-16\n08:00 - 09:00 | a | earlier\n2021-02-17\n08:00 - 09:00 | b | later\n"
    );
}

#[test]
fn end_before_start_is_one_finding() {
    let text = "2021-02-16\n09:00 - 10:00 | work | fine\n11:00 - 10:00 | work | backwards\n12:00 - | work | open\n";
    let found = check(text);
    assert_eq!(found, vec![LineError { line: 3, kind: ParseErrorKind::EndBeforeStart }]);
    assert_eq!(parse(text).err(), Some(LineError { line: 3, kind: ParseErrorKind::EndBeforeStart }));
}

#[test]
fn check_reports_every_bad_line() {
    let text = "09:00 - 10:00 | early | no day yet\n2021-02-30\n2021-02-16\n9:00 - 10:00 | a | b\n09:00 - 25:00 | a | b\n09:00 - 10:00 | | b\n09:00 - 10:00 | a\n\n09:00 - 2021-02-15 10:00 | a | b\n09:00 - 10:00 | a | b\n";
    let found = check(text);
    assert_eq!(
        found,
        vec![
            LineError { line: 1, kind: ParseErrorKind::MissingDateHeader },
            LineError { line: 2, kind: ParseErrorKind::MalformedDateHeader },
            LineError { line: 4, kind: ParseErrorKind::MalformedDateHeader },
            LineError { line: 5, kind: ParseErrorKind::MalformedTimeRange },
            LineError { line: 6, kind: ParseErrorKind::MalformedLabels },
            LineError { line: 7, kind: ParseErrorKind::MalformedLabels },
            LineError { line: 9, kind: ParseErrorKind::EndBeforeStart },
        ]
    );
}

#[test]
fn empty_text_is_the_empty_log() {
    let log = parse("").unwrap();
    assert_eq!(log.len(), 0);
    assert_eq!(serialize(&log), "");
    assert!(check("").is_empty());
}

#[test]
fn last_line_needs_no_line_feed() {
    let log = parse("2021-02-16\n09:00 - | work | x").unwrap();
    assert_eq!(log.len(), 1);
    assert_eq!(serialize(&log), "2021-02-16\n09:00 - | work | x\n");
}

#[test]
fn years_outside_four_digits_are_written_with_sign_and_read_again() {
    let mut log = bartib::log::Log::new();
    log.start("rome", "senate", at(-44, 3, 15, 11, 0)).unwrap();
    log.start("eve", "year zero", at(0, 12, 31, 23, 0)).unwrap();
    log.stop(at(1, 1, 1, 1, 0)).unwrap();
    log.start("far", "future", at(10000, 1, 1, 0, 0)).unwrap();
    log.stop(at(12345, 6, 7, 8, 9)).unwrap();
    let text = serialize(&log);
    assert_eq!(
        text,
        "-0000000044-03-15\n11:00 - 0001-01-01 01:00 | rome | senate\n0000-12-31\n23:00 - 0001-01-01 01:00 | eve | year zero\n+0000010000-01-01\n00:00 - +0000012345-06-07 08:09 | far | future\n"
    );
    let again = parse(&text).unwrap();
    assert_eq!(again.len(), 3);
    assert_eq!(again.get(0).start, at(-44, 3, 15, 11, 0));
    assert_eq!(again.get(2).end, Some(at(12345, 6, 7, 8, 9)));
    assert_eq!(serialize(&again), text);
}

#[test]
fn a_signed_year_needs_ten_digits_and_a_year_of_chrono() {
    assert!(check("+0000002021-02-16\n09:00 - | a | b\n").is_empty());
    assert_eq!(parse("+0000002021-02-16\n09:00 - | a | b\n").unwrap().get(0).start, at(2021, 2, 16, 9, 0));
    assert_eq!(
        check("+2021-02-16\n-9999999999-01-01\n+0000400000-01-01\n-0000000044-02-30\n"),
        vec![
            LineError { line: 1, kind: ParseErrorKind::MalformedDateHeader },
            LineError { line: 2, kind: ParseErrorKind::MalformedDateHeader },
            LineError { line: 3, kind: ParseErrorKind::MalformedDateHeader },
            LineError { line: 4, kind: ParseErrorKind::MalformedDateHeader },
        ]
    );
}
