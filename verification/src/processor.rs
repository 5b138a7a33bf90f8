//! What is done to the chosen activities before they are shown: a list of
//! processors, each applied to what the one before it gave. The one
//! processor there is rounds the bounds of an activity to a unit of time,
//! the start down and the end up, so that no work is lost from a report.

use vstd::prelude::*;
use vstd::string::*;
use vstd::arithmetic::div_mod::{
    lemma_fundamental_div_mod, lemma_mod_bound, lemma_mod_multiples_basic,
};
use crate::activity::{records, Activity, Record};
use crate::calendar::{chrono_has, DateTime};
use crate::text::{chars_of, digit_value, string_of};

verus! {

/// A span of time, in minutes.
#[derive(Clone, Copy, Debug, PartialEq, Eq, Structural)]
pub struct Duration {
    pub minutes: i64,
}

/// Why a text is no number, as `str::parse` says it.
#[derive(Clone, Copy, Debug, PartialEq, Eq, Structural)]
pub enum NumberError {
    /// The text is empty.
    Empty,
    /// The text holds what is no digit where a digit must stand.
    InvalidDigit,
    /// The number is too large.
    PosOverflow,
    /// The number is too small.
    NegOverflow,
    /// Another fault.
    Other,
}

/// Why a text is no duration.
#[derive(Clone, Copy, Debug, PartialEq, Eq, Structural)]
pub enum DurationError {
    /// The text is empty.
    Empty,
    /// What stands before the unit is no number.
    InvalidNumber(NumberError),
    /// The unit is neither `m` nor `h`.
    InvalidUnit,
    /// The number of hours is too large to be counted in minutes.
    OutOfRange,
}

/// The number that one or more decimal digits write.
pub open spec fn digits_value(s: Seq<char>) -> Option<int>
    decreases s.len(),
{
    if s.len() == 0 {
        None
    } else {
        match digit_value(s.last()) {
            Some(digit) => if s.len() == 1 {
                Some(digit)
            } else {
                match digits_value(s.drop_last()) {
                    Some(before) => Some(before * 10 + digit),
                    None => None,
                }
            },
            None => None,
        }
    }
}

/// The whole number that a text writes: decimal digits, with a `+` or a `-`
/// before them or with none.
pub open spec fn decimal(s: Seq<char>) -> Option<int> {
    if s.len() > 0 && s[0] == '-' {
        match digits_value(s.skip(1)) {
            Some(value) => Some(-value),
            None => None,
        }
    } else if s.len() > 0 && s[0] == '+' {
        digits_value(s.skip(1))
    } else {
        digits_value(s)
    }
}

/// The number that a text writes, if it is one that an `i64` holds.
pub open spec fn number_of_text(s: Seq<char>) -> Option<i64> {
    match decimal(s) {
        Some(value) => if i64::MIN <= value <= i64::MAX {
            Some(value as i64)
        } else {
            None
        },
        None => None,
    }
}

/// What is known of the fault that `str::parse` finds in a text that is no
/// number of an `i64`: it is `Empty` for the empty text and for no other,
/// and for a number that is too large or too small it says which.
pub open spec fn number_fault(s: Seq<char>, kind: NumberError) -> bool {
    &&& (kind == NumberError::Empty) == (s.len() == 0)
    &&& decimal(s) matches Some(value) ==> kind == if value > i64::MAX {
        NumberError::PosOverflow
    } else {
        NumberError::NegOverflow
    }
}

/// Calls `str::parse::<i64>`. It reads the numbers that its documentation
/// names: decimal digits with an optional sign before them, within the range
/// of an `i64`. Of its error the kind is handed on, of which
/// `number_fault` says what `IntErrorKind` documents.
#[verifier::external_body]
fn parse_i64(text: &str) -> (r: Result<i64, NumberError>)
    ensures
        match r {
            Ok(number) => number_of_text(text@) == Some(number),
            Err(kind) => number_of_text(text@).is_none() && number_fault(text@, kind),
        },
{
    match text.parse::<i64>() {
        Ok(number) => Ok(number),
        Err(error) => Err(
            match error.kind() {
                std::num::IntErrorKind::Empty => NumberError::Empty,
                std::num::IntErrorKind::InvalidDigit => NumberError::InvalidDigit,
                std::num::IntErrorKind::PosOverflow => NumberError::PosOverflow,
                std::num::IntErrorKind::NegOverflow => NumberError::NegOverflow,
                _ => NumberError::Other,
            },
        ),
    }
}

/// The duration of `number` units, the unit being `m` for minutes or `h`
/// for hours.
pub open spec fn span(number: i64, unit: char) -> Result<Duration, DurationError> {
    if unit == 'm' {
        Ok(Duration { minutes: number })
    } else if unit == 'h' {
        if i64::MIN <= number * 60 <= i64::MAX {
            Ok(Duration { minutes: (number * 60) as i64 })
        } else {
            Err(DurationError::OutOfRange)
        }
    } else {
        Err(DurationError::InvalidUnit)
    }
}

/// The duration that a text gives: a number and one character for the
/// unit. `None` where the text is empty or what stands before the unit is
/// no number.
pub open spec fn duration_of_text(text: Seq<char>) -> Option<Result<Duration, DurationError>> {
    if text.len() == 0 {
        Some(Err(DurationError::Empty))
    } else {
        match number_of_text(text.drop_last()) {
            Some(number) => Some(span(number, text.last())),
            None => None,
        }
    }
}

/// The duration of a number that was read, in the unit given.
pub fn duration_of(number: Result<i64, NumberError>, unit: char) -> (r: Result<
    Duration,
    DurationError,
>)
    ensures
        r == match number {
            Ok(number) => span(number, unit),
            Err(kind) => Err(DurationError::InvalidNumber(kind)),
        },
{
    let number: i64 = match number {
        Ok(number) => number,
        Err(kind) => {
            return Err(DurationError::InvalidNumber(kind));
        },
    };
    if unit == 'm' {
        Ok(Duration { minutes: number })
    } else if unit == 'h' {
        match number.checked_mul(60) {
            Some(minutes) => Ok(Duration { minutes }),
            None => Err(DurationError::OutOfRange),
        }
    } else {
        Err(DurationError::InvalidUnit)
    }
}

/// Reads a duration such as `15m` or `4h`: a whole number, then `m` for
/// minutes or `h` for hours. Where what stands before the unit is no
/// number, the error says why.
pub fn parse_duration(duration_string: &str) -> (r: Result<Duration, DurationError>)
    ensures
        match duration_of_text(duration_string@) {
            Some(duration) => r == duration,
            None => r matches Err(DurationError::InvalidNumber(kind)) && number_fault(
                duration_string@.drop_last(),
                kind,
            ),
        },
{
    let chars = chars_of(duration_string);
    let n: usize = chars.len();
    if n == 0 {
        return Err(DurationError::Empty);
    }
    let number_string = string_of(&chars, 0, n - 1);
    proof {
        assert(chars@.subrange(0, n - 1) =~= chars@.drop_last());
    }
    duration_of(parse_i64(number_string.as_str()), chars[n - 1])
}

/// The message for a text that is no duration.
pub open spec fn message_of(text: Seq<char>, error: DurationError) -> Seq<char> {
    match error {
        DurationError::Empty => "a duration is a number and a unit, 'm' or 'h'"@,
        DurationError::InvalidNumber(kind) => match kind {
            NumberError::Empty => "cannot parse integer from empty string"@,
            NumberError::InvalidDigit => "invalid digit found in string"@,
            NumberError::PosOverflow => "number too large to fit in target type"@,
            NumberError::NegOverflow => "number too small to fit in target type"@,
            NumberError::Other => "not a number"@,
        },
        DurationError::InvalidUnit => "invalid duration unit '"@ + (if text.len() > 0 {
            seq![text.last()]
        } else {
            Seq::empty()
        }) + "', expected 'm' or 'h'"@,
        DurationError::OutOfRange => "number of hours too large to fit in minutes"@,
    }
}

/// The message for a text that is no duration, given why it is none.
pub fn duration_message(duration_string: &str, error: DurationError) -> (r: String)
    ensures
        r@ == message_of(duration_string@, error),
{
    match error {
        DurationError::Empty => String::from_str("a duration is a number and a unit, 'm' or 'h'"),
        DurationError::InvalidNumber(kind) => match kind {
            NumberError::Empty => String::from_str("cannot parse integer from empty string"),
            NumberError::InvalidDigit => String::from_str("invalid digit found in string"),
            NumberError::PosOverflow => String::from_str("number too large to fit in target type"),
            NumberError::NegOverflow => String::from_str("number too small to fit in target type"),
            NumberError::Other => String::from_str("not a number"),
        },
        DurationError::InvalidUnit => {
            let chars = chars_of(duration_string);
            let n: usize = chars.len();
            let unit = if n > 0 {
                string_of(&chars, n - 1, n)
            } else {
                String::new()
            };
            proof {
                if n > 0 {
                    assert(chars@.subrange(n - 1, n as int) =~= seq![chars@.last()]);
                }
            }
            String::from_str("invalid duration unit '").concat(unit.as_str()).concat(
                "', expected 'm' or 'h'",
            )
        },
        DurationError::OutOfRange => String::from_str(
            "number of hours too large to fit in minutes",
        ),
    }
}

/// The last multiple of `unit` that is not behind `stamp`.
pub open spec fn floor_to(stamp: int, unit: int) -> int {
    stamp - stamp % unit
}

/// The first multiple of `unit` that is not before `stamp`.
pub open spec fn ceil_to(stamp: int, unit: int) -> int {
    if stamp % unit == 0 {
        stamp
    } else {
        stamp - stamp % unit + unit
    }
}

/// A start rounded to `unit` minutes: down to a multiple of the unit,
/// counted from the midnight that begins day 0. It stays as it is where the
/// unit is not positive or chrono has no date for the day of that multiple.
pub open spec fn rounded_down(stamp: int, unit: int) -> int {
    if unit >= 1 && chrono_has(floor_to(stamp, unit)) {
        floor_to(stamp, unit)
    } else {
        stamp
    }
}

/// An end rounded to `unit` minutes: up to a multiple of the unit, counted
/// from the midnight that begins day 0. It stays as it is where the unit is
/// not positive or chrono has no date for the day of that multiple.
pub open spec fn rounded_up(stamp: int, unit: int) -> int {
    if unit >= 1 && chrono_has(ceil_to(stamp, unit)) {
        ceil_to(stamp, unit)
    } else {
        stamp
    }
}

/// An activity with its bounds rounded to `unit` minutes.
pub open spec fn rounded(r: Record, unit: int) -> Record {
    Record {
        start: rounded_down(r.start, unit),
        end: match r.end {
            Some(end) => Some(rounded_up(end, unit)),
            None => None,
        },
        ..r
    }
}

/// Rounds both bounds of an activity to a unit of time.
#[derive(Clone, Copy, Debug, PartialEq, Eq, Structural)]
pub struct RoundProcessor {
    pub round: Duration,
}

/// A processor of activities.
#[derive(Clone, Copy, Debug, PartialEq, Eq, Structural)]
pub enum ActivityProcessor {
    Round(RoundProcessor),
}

/// The processors to apply, the first one first.
pub type ProcessorList = Vec<ActivityProcessor>;

impl ActivityProcessor {
    /// What the processor makes of an activity.
    pub open spec fn output(self, r: Record) -> Record {
        match self {
            ActivityProcessor::Round(processor) => rounded(r, processor.round.minutes as int),
        }
    }
}

/// What the processors make of an activity, one after the other.
pub open spec fn piped(processors: Seq<ActivityProcessor>, r: Record) -> Record
    decreases processors.len(),
{
    if processors.len() == 0 {
        r
    } else {
        processors.last().output(piped(processors.drop_last(), r))
    }
}

/// What the processors make of some activities.
pub open spec fn piped_all(processors: Seq<ActivityProcessor>, s: Seq<Record>) -> Seq<Record> {
    s.map_values(|r: Record| piped(processors, r))
}

/// The multiples that rounding goes to: they are multiples of the unit, and
/// less than a unit away.
pub proof fn lemma_multiples(stamp: int, unit: int)
    requires
        1 <= unit,
    ensures
        floor_to(stamp, unit) % unit == 0,
        ceil_to(stamp, unit) % unit == 0,
        stamp - unit < floor_to(stamp, unit) <= stamp <= ceil_to(stamp, unit) < stamp + unit,
{
    lemma_mod_bound(stamp, unit);
    lemma_fundamental_div_mod(stamp, unit);
    let q = stamp / unit;
    assert(floor_to(stamp, unit) == q * unit) by (nonlinear_arith)
        requires
            stamp == unit * q + stamp % unit,
            floor_to(stamp, unit) == stamp - stamp % unit,
    ;
    lemma_mod_multiples_basic(q, unit);
    if stamp % unit != 0 {
        assert(ceil_to(stamp, unit) == (q + 1) * unit) by (nonlinear_arith)
            requires
                floor_to(stamp, unit) == q * unit,
                ceil_to(stamp, unit) == floor_to(stamp, unit) + unit,
        ;
        lemma_mod_multiples_basic(q + 1, unit);
    }
}


/// Rounding never narrows: whatever the activity and the unit, the start
/// is not later than it was and the end not earlier, and all else stays.
/// Where the unit is positive and chrono has the days, both bounds are
/// multiples of the unit, less than a unit from where they were.
pub proof fn lemma_round_widens(r: Record, unit: int)
    ensures
        rounded(r, unit).start <= r.start,
        r.end matches Some(end) ==> rounded(r, unit).end matches Some(after) && end <= after,
        r.end.is_none() ==> rounded(r, unit).end.is_none(),
        rounded(r, unit).project == r.project,
        rounded(r, unit).description == r.description,
        unit >= 1 && chrono_has(floor_to(r.start, unit)) ==> rounded(r, unit).start % unit == 0
            && r.start - rounded(r, unit).start < unit,
        r.end matches Some(end) ==> (unit >= 1 && chrono_has(ceil_to(end, unit)) ==> rounded(
            r,
            unit,
        ).end.unwrap() % unit == 0 && rounded(r, unit).end.unwrap() - end < unit),
{
    if unit >= 1 {
        lemma_multiples(r.start, unit);
        if let Some(end) = r.end {
            lemma_multiples(end, unit);
        }
    }
}



/// No list of processors narrows an activity.
pub proof fn lemma_pipeline_widens(processors: Seq<ActivityProcessor>, r: Record)
    ensures
        piped(processors, r).start <= r.start,
        r.end matches Some(end) ==> piped(processors, r).end matches Some(after) && end <= after,
        r.end.is_none() ==> piped(processors, r).end.is_none(),
        piped(processors, r).project == r.project,
        piped(processors, r).description == r.description,
    decreases processors.len(),
{
    if processors.len() > 0 {
        let before = piped(processors.drop_last(), r);
        lemma_pipeline_widens(processors.drop_last(), r);
        match processors.last() {
            ActivityProcessor::Round(processor) => {
                lemma_round_widens(before, processor.round.minutes as int);
            },
        }
    }
}



/// A start rounded down to `unit` minutes: the last multiple of the unit
/// that is not behind it, wherever chrono has a date for the day of that
/// multiple.
pub fn round_down(at: DateTime, unit: i64) -> (r: DateTime)
    requires
        at.wf(),
    ensures
        r.wf(),
        r.stamp() == rounded_down(at.stamp(), unit as int),
{
    if unit < 1 {
        return at;
    }
    let stamp: i64 = at.to_stamp();
    proof {
        lemma_mod_bound(stamp as int, unit as int);
    }
    let rest: i64 = match stamp.checked_rem_euclid(unit) {
        Some(rest) => rest,
        None => {
            return at;
        },
    };
    match stamp.checked_sub(rest) {
        Some(floor) => match DateTime::from_stamp(floor) {
            Some(down) => down,
            None => at,
        },
        None => at,
    }
}


/// An end rounded up to `unit` minutes: the first multiple of the unit that
/// is not before it, wherever chrono has a date for the day of that
/// multiple.
pub fn round_up(at: DateTime, unit: i64) -> (r: DateTime)
    requires
        at.wf(),
    ensures
        r.wf(),
        r.stamp() == rounded_up(at.stamp(), unit as int),
{
    if unit < 1 {
        return at;
    }
    let stamp: i64 = at.to_stamp();
    proof {
        lemma_mod_bound(stamp as int, unit as int);
    }
    let rest: i64 = match stamp.checked_rem_euclid(unit) {
        Some(rest) => rest,
        None => {
            return at;
        },
    };
    if rest == 0 {
        return at;
    }
    match stamp.checked_add(unit - rest) {
        Some(ceil) => match DateTime::from_stamp(ceil) {
            Some(up) => up,
            None => at,
        },
        None => at,
    }
}


impl RoundProcessor {
    /// The activity with its bounds rounded.
    pub fn process(&self, activity: &Activity) -> (r: Activity)
        requires
            activity.wf(),
        ensures
            r.wf(),
            r@ == rounded(activity@, self.round.minutes as int),
    {
        Activity {
            project: activity.project.clone(),
            description: activity.description.clone(),
            start: round_down(activity.start, self.round.minutes),
            end: match activity.end {
                Some(end) => Some(round_up(end, self.round.minutes)),
                None => None,
            },
        }
    }
}

impl ActivityProcessor {
    /// What the processor makes of an activity.
    pub fn process(&self, activity: &Activity) -> (r: Activity)
        requires
            activity.wf(),
        ensures
            r.wf(),
            r@ == self.output(activity@),
    {
        match self {
            ActivityProcessor::Round(processor) => processor.process(activity),
        }
    }
}

/// The processors for a list or a report: one that rounds, if there is
/// something to round to.
pub fn create_processors(round: Option<Duration>) -> (r: ProcessorList)
    ensures
        r@ == match round {
            Some(round) => seq![ActivityProcessor::Round(RoundProcessor { round })],
            None => Seq::empty(),
        },
{
    let mut processors: Vec<ActivityProcessor> = Vec::new();
    if let Some(round) = round {
        processors.push(ActivityProcessor::Round(RoundProcessor { round }));
    }
    processors
}

/// Applies the processors, the first one first, to one activity.
pub fn process_one(processors: &Vec<ActivityProcessor>, activity: &Activity) -> (r: Activity)
    requires
        activity.wf(),
    ensures
        r.wf(),
        r@ == piped(processors@, activity@),
{
    let mut current = activity.copy();
    let mut i: usize = 0;
    while i < processors.len()
        invariant
            i <= processors.len(),
            current.wf(),
            current@ == piped(processors@.take(i as int), activity@),
        decreases processors.len() - i,
    {
        proof {
            let t = processors@.take(i + 1);
            assert(t.drop_last() =~= processors@.take(i as int));
        }
        current = processors[i].process(&current);
        i += 1;
    }
    proof {
        assert(processors@.take(processors.len() as int) =~= processors@);
    }
    current
}

/// Applies the processors to each of some activities. The activities
/// themselves stay as they are.
pub fn process_all(processors: &Vec<ActivityProcessor>, activities: &Vec<Activity>) -> (r: Vec<
    Activity,
>)
    requires
        forall|i: int| 0 <= i < activities.len() ==> (#[trigger] activities[i]).wf(),
    ensures
        records(r@) == piped_all(processors@, records(activities@)),
        forall|i: int| 0 <= i < r.len() ==> (#[trigger] r[i]).wf(),
{
    let mut done: Vec<Activity> = Vec::new();
    let mut i: usize = 0;
    while i < activities.len()
        invariant
            i <= activities.len(),
            forall|j: int| 0 <= j < activities.len() ==> (#[trigger] activities[j]).wf(),
            done.len() == i,
            forall|j: int| 0 <= j < i ==> (#[trigger] done[j])@ == piped(processors@, activities[j]@),
            forall|j: int| 0 <= j < i ==> (#[trigger] done[j]).wf(),
        decreases activities.len() - i,
    {
        done.push(process_one(processors, &activities[i]));
        i += 1;
    }
    done
}

} // verus!
