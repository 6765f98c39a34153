//! The minute by which a task is due, and the clock's time it is held against.

use crate::error::Error;
use crate::text::{
    append_char, chars_of, digit, digit_char, digit_value, is_digit, last_digit,
    lemma_digit_char, lemma_digit_value, same_chars, string_of,
};
use chrono::{Datelike, Local, NaiveDateTime, Timelike};
use vstd::prelude::*;
use vstd::slice::slice_subrange;

verus! {

/// The pattern of a deadline in chrono's own notation: year, month and day with
/// hyphens between them, a space, then hour and minute with a colon between them.
pub const TIMESTAMP_FORMAT: &'static str = "%Y-%m-%d %H:%M";

/// The word that a task without a deadline holds in place of one.
pub const NO_DEADLINE: &'static str = "none";

/// Whether chrono reads `text` as a date and time under the pattern `format`.
pub uninterp spec fn chrono_parses(text: Seq<char>, format: Seq<char>) -> bool;

/// Asks `NaiveDateTime::parse_from_str` of chrono whether it reads `text` under
/// `format`. The answer depends on the two texts alone, and `chrono_parses` is its
/// name; nothing more is claimed of it.
#[verifier::external_body]
fn parses_as(text: &str, format: &str) -> (read: bool)
    ensures
        read == chrono_parses(text@, format@),
{
    NaiveDateTime::parse_from_str(text, format).is_ok()
}

/// A minute as its digits write it.
pub struct Minute {
    pub year: nat,
    pub month: nat,
    pub day: nat,
    pub hour: nat,
    pub minute: nat,
}

/// The date and time of a clock.
#[derive(Clone, Copy, Debug, PartialEq, Eq, Structural)]
pub struct Moment {
    pub year: i32,
    pub month: u32,
    pub day: u32,
    pub hour: u32,
    pub minute: u32,
    pub second: u32,
    pub nanosecond: u32,
}

/// `moment` is what a clock can show: the month lies from 1 to 12, the day from 1
/// to 31, the hour from 0 to 23, the minute and the second from 0 to 59, and the
/// nanosecond below two thousand million, where a thousand million and more stand
/// for a leap second.
pub open spec fn clock_reading(moment: Moment) -> bool {
    &&& 1 <= moment.month <= 12
    &&& 1 <= moment.day <= 31
    &&& moment.hour <= 23
    &&& moment.minute <= 59
    &&& moment.second <= 59
    &&& moment.nanosecond <= 1_999_999_999
}

/// The local date and time of the machine's clock: `Local::now` of chrono, without
/// its time zone, taken apart by `year`, `month`, `day`, `hour`, `minute`, `second`
/// and `nanosecond`. Which moment comes back is the clock's to say; claimed are the
/// ranges that chrono documents for those parts.
#[verifier::external_body]
fn local_now() -> (now: Moment)
    ensures
        clock_reading(now),
{
    let now = Local::now().naive_local();
    Moment {
        year: now.year(),
        month: now.month(),
        day: now.day(),
        hour: now.hour(),
        minute: now.minute(),
        second: now.second(),
        nanosecond: now.nanosecond(),
    }
}

/// The local date and time of the machine's clock: a moment that a clock can show.
pub fn now() -> (now: Moment)
    ensures
        clock_reading(now),
{
    local_now()
}

/// `text` has the shape of a deadline: four digits, a hyphen, two digits, a hyphen,
/// two digits, a space, two digits, a colon and two digits.
pub open spec fn timestamp_shape(text: Seq<char>) -> bool {
    &&& text.len() == 16
    &&& is_digit(text[0]) && is_digit(text[1]) && is_digit(text[2]) && is_digit(text[3])
    &&& text[4] == '-'
    &&& is_digit(text[5]) && is_digit(text[6])
    &&& text[7] == '-'
    &&& is_digit(text[8]) && is_digit(text[9])
    &&& text[10] == ' '
    &&& is_digit(text[11]) && is_digit(text[12])
    &&& text[13] == ':'
    &&& is_digit(text[14]) && is_digit(text[15])
}

/// The number that the two digits of `text` from place `at` on write.
pub open spec fn two_digits(text: Seq<char>, at: int) -> nat {
    10 * digit_value(text[at]) + digit_value(text[at + 1])
}

/// The minute that the digits of `text` write, where it has the shape of a deadline.
pub open spec fn minute_of(text: Seq<char>) -> Minute {
    Minute {
        year: 100 * two_digits(text, 0) + two_digits(text, 2),
        month: two_digits(text, 5),
        day: two_digits(text, 8),
        hour: two_digits(text, 11),
        minute: two_digits(text, 14),
    }
}

/// The last two decimal places of `n`.
pub open spec fn two_digit_text(n: nat) -> Seq<char> {
    seq![digit_char(n / 10 % 10), digit_char(n % 10)]
}

/// A minute as a store holds it and as it is shown: the year in four digits, the
/// month, the day, the hour and the minute in two each, with a hyphen, a hyphen, a
/// space and a colon between them.
pub open spec fn minute_text(at: Minute) -> Seq<char> {
    seq![
        digit_char(at.year / 1000 % 10),
        digit_char(at.year / 100 % 10),
        digit_char(at.year / 10 % 10),
        digit_char(at.year % 10),
        '-',
        digit_char(at.month / 10 % 10),
        digit_char(at.month % 10),
        '-',
        digit_char(at.day / 10 % 10),
        digit_char(at.day % 10),
        ' ',
        digit_char(at.hour / 10 % 10),
        digit_char(at.hour % 10),
        ':',
        digit_char(at.minute / 10 % 10),
        digit_char(at.minute % 10),
    ]
}

/// The year of `at` has at most four digits, and its other parts at most two.
pub open spec fn writable(at: Minute) -> bool {
    &&& at.year <= 9999
    &&& at.month <= 99
    &&& at.day <= 99
    &&& at.hour <= 99
    &&& at.minute <= 99
}

/// `text` writes a deadline: it has the shape of one, and chrono reads it as a date
/// and time.
pub open spec fn is_timestamp(text: Seq<char>) -> bool {
    timestamp_shape(text) && chrono_parses(text, TIMESTAMP_FORMAT@)
}

/// `at` is a minute of the calendar: what a store holds for it writes a deadline.
pub open spec fn valid_minute(at: Minute) -> bool {
    writable(at) && chrono_parses(minute_text(at), TIMESTAMP_FORMAT@)
}

/// What the deadline of a task line says: `Some(None)` for the word `none`,
/// `Some(Some(..))` for a deadline, and `None` for anything else.
pub open spec fn deadline_named(text: Seq<char>) -> Option<Option<Minute>> {
    if text == NO_DEADLINE@ {
        Some(None)
    } else if is_timestamp(text) {
        Some(Some(minute_of(text)))
    } else {
        None
    }
}

/// What a store holds for a deadline, or for none.
pub open spec fn deadline_text(deadline: Option<Minute>) -> Seq<char> {
    match deadline {
        Some(at) => minute_text(at),
        None => NO_DEADLINE@,
    }
}

/// `a` comes before `b`.
pub open spec fn earlier(a: Minute, b: Minute) -> bool {
    if a.year != b.year {
        a.year < b.year
    } else if a.month != b.month {
        a.month < b.month
    } else if a.day != b.day {
        a.day < b.day
    } else if a.hour != b.hour {
        a.hour < b.hour
    } else {
        a.minute < b.minute
    }
}

/// The start of the minute `deadline` lies before `now`.
pub open spec fn past(deadline: Minute, now: Moment) -> bool {
    if deadline.year != now.year {
        deadline.year < now.year
    } else if deadline.month != now.month {
        deadline.month < now.month
    } else if deadline.day != now.day {
        deadline.day < now.day
    } else if deadline.hour != now.hour {
        deadline.hour < now.hour
    } else if deadline.minute != now.minute {
        deadline.minute < now.minute
    } else {
        now.second > 0 || now.nanosecond > 0
    }
}

/// A number of two places is ten times its first digit and its second.
proof fn lemma_two_places(n: nat)
    requires
        n <= 99,
    ensures
        10 * (n / 10 % 10) + n % 10 == n,
{
}

/// A number of four places is the sum of its digits, each times its place.
proof fn lemma_four_places(n: nat)
    requires
        n <= 9999,
    ensures
        100 * (10 * (n / 1000 % 10) + n / 100 % 10) + (10 * (n / 10 % 10) + n % 10) == n,
{
}

/// The digits of a number written as ten times a digit and a digit.
proof fn lemma_places_of_two(tens: nat, ones: nat)
    requires
        tens < 10,
        ones < 10,
    ensures
        (10 * tens + ones) / 10 % 10 == tens,
        (10 * tens + ones) % 10 == ones,
        10 * tens + ones <= 99,
{
}

/// The digits of a number written as two numbers of two places.
proof fn lemma_places_of_four(high: nat, low: nat)
    requires
        high <= 99,
        low <= 99,
    ensures
        (100 * high + low) / 1000 % 10 == high / 10 % 10,
        (100 * high + low) / 100 % 10 == high % 10,
        (100 * high + low) / 10 % 10 == low / 10 % 10,
        (100 * high + low) % 10 == low % 10,
        100 * high + low <= 9999,
{
}

/// The text of a writable minute has the shape of a deadline, holds no tab and no
/// line ending, and its digits write that minute.
pub proof fn lemma_minute_text(at: Minute)
    requires
        writable(at),
    ensures
        timestamp_shape(minute_text(at)),
        minute_of(minute_text(at)) == at,
        forall|i: int|
            0 <= i < 16 ==> #[trigger] minute_text(at)[i] != '\t' && minute_text(at)[i] != '\n'
                && minute_text(at)[i] != '\r',
{
    let text = minute_text(at);
    lemma_digit_char(at.year / 1000 % 10);
    lemma_digit_char(at.year / 100 % 10);
    lemma_digit_char(at.year / 10 % 10);
    lemma_digit_char(at.year % 10);
    lemma_digit_char(at.month / 10 % 10);
    lemma_digit_char(at.month % 10);
    lemma_digit_char(at.day / 10 % 10);
    lemma_digit_char(at.day % 10);
    lemma_digit_char(at.hour / 10 % 10);
    lemma_digit_char(at.hour % 10);
    lemma_digit_char(at.minute / 10 % 10);
    lemma_digit_char(at.minute % 10);
    lemma_four_places(at.year);
    lemma_two_places(at.month);
    lemma_two_places(at.day);
    lemma_two_places(at.hour);
    lemma_two_places(at.minute);
    assert(two_digits(text, 0) == 10 * (at.year / 1000 % 10) + at.year / 100 % 10);
    assert(two_digits(text, 2) == 10 * (at.year / 10 % 10) + at.year % 10);
    assert(two_digits(text, 5) == at.month);
    assert(two_digits(text, 8) == at.day);
    assert(two_digits(text, 11) == at.hour);
    assert(two_digits(text, 14) == at.minute);
}

/// Two digits write a number of two places whose digits they are.
proof fn lemma_two_digits(text: Seq<char>, at: int)
    requires
        0 <= at,
        at + 1 < text.len(),
        is_digit(text[at]),
        is_digit(text[at + 1]),
    ensures
        two_digits(text, at) <= 99,
        digit_char(two_digits(text, at) / 10 % 10) == text[at],
        digit_char(two_digits(text, at) % 10) == text[at + 1],
{
    lemma_digit_value(text[at]);
    lemma_digit_value(text[at + 1]);
    lemma_places_of_two(digit_value(text[at]), digit_value(text[at + 1]));
}

/// A text with the shape of a deadline is the text of the minute that its digits
/// write.
pub proof fn lemma_minute_of(text: Seq<char>)
    requires
        timestamp_shape(text),
    ensures
        writable(minute_of(text)),
        minute_text(minute_of(text)) == text,
{
    lemma_two_digits(text, 0);
    lemma_two_digits(text, 2);
    lemma_two_digits(text, 5);
    lemma_two_digits(text, 8);
    lemma_two_digits(text, 11);
    lemma_two_digits(text, 14);
    lemma_places_of_four(two_digits(text, 0), two_digits(text, 2));
    assert(minute_text(minute_of(text)) =~= text);
}

/// What a store holds for a deadline of the calendar, or for none, is read back as
/// the same, and is a piece of a line that is not empty and holds no tab and no line
/// ending.
pub proof fn lemma_deadline_text(deadline: Option<Minute>)
    requires
        deadline is Some ==> valid_minute(deadline->0),
    ensures
        deadline_named(deadline_text(deadline)) == Some(deadline),
        deadline_text(deadline).len() > 0,
        forall|i: int|
            0 <= i < deadline_text(deadline).len() ==> #[trigger] deadline_text(deadline)[i]
                != '\t' && deadline_text(deadline)[i] != '\n' && deadline_text(deadline)[i]
                != '\r',
{
    reveal_strlit("none");
    match deadline {
        Some(at) => {
            lemma_minute_text(at);
            assert(minute_text(at).len() == 16);
        },
        None => {},
    }
}

/// A deadline that a text writes is a minute of the calendar.
pub proof fn lemma_deadline_named(text: Seq<char>)
    ensures
        deadline_named(text) matches Some(Some(at)) ==> valid_minute(at),
{
    if text != NO_DEADLINE@ && is_timestamp(text) {
        lemma_minute_of(text);
    }
}

/// The minute by which a task is due.
#[derive(Clone, Copy, Debug, PartialEq, Eq)]
pub struct Deadline {
    year: u16,
    month: u8,
    day: u8,
    hour: u8,
    minute: u8,
}

impl View for Deadline {
    type V = Minute;

    closed spec fn view(&self) -> Minute {
        Minute {
            year: self.year as nat,
            month: self.month as nat,
            day: self.day as nat,
            hour: self.hour as nat,
            minute: self.minute as nat,
        }
    }
}

fn has_shape(text: &[char]) -> (r: bool)
    ensures
        r == timestamp_shape(text@),
{
    text.len() == 16 && digit(text[0]).is_some() && digit(text[1]).is_some() && digit(
        text[2],
    ).is_some() && digit(text[3]).is_some() && text[4] == '-' && digit(text[5]).is_some()
        && digit(text[6]).is_some() && text[7] == '-' && digit(text[8]).is_some() && digit(
        text[9],
    ).is_some() && text[10] == ' ' && digit(text[11]).is_some() && digit(text[12]).is_some()
        && text[13] == ':' && digit(text[14]).is_some() && digit(text[15]).is_some()
}

fn pair(text: &[char], at: usize) -> (n: u8)
    requires
        at + 1 < text@.len(),
        is_digit(text@[at as int]),
        is_digit(text@[at + 1]),
    ensures
        n == two_digits(text@, at as int),
        n <= 99,
{
    let tens = match digit(text[at]) {
        Some(d) => d,
        None => 0,
    };
    let ones = match digit(text[at + 1]) {
        Some(d) => d,
        None => 0,
    };
    10 * tens + ones
}

fn append_pair(s: &mut String, n: u16)
    ensures
        final(s)@ == old(s)@ + two_digit_text(n as nat),
{
    append_char(s, last_digit(n / 10));
    append_char(s, last_digit(n));
    assert(s@ =~= old(s)@ + two_digit_text(n as nat));
}

/// The deadline that `text` writes, given whether chrono reads `text` as a date and
/// time: the minute of its digits where it has the shape of a deadline and chrono
/// reads it, none otherwise.
pub fn deadline_from(text: &[char], read: bool) -> (r: Option<Deadline>)
    ensures
        r is Some <==> timestamp_shape(text@) && read,
        r is Some ==> r->0@ == minute_of(text@),
{
    if read && has_shape(text) {
        let century = pair(text, 0);
        let years = pair(text, 2);
        Some(
            Deadline {
                year: 100 * (century as u16) + years as u16,
                month: pair(text, 5),
                day: pair(text, 8),
                hour: pair(text, 11),
                minute: pair(text, 14),
            },
        )
    } else {
        None
    }
}

/// What the deadline of a task line says: no deadline for the word `none`, a
/// deadline for a text that writes one, and `InvalidDeadline` for anything else.
pub(crate) fn deadline_of(text: &[char]) -> (r: Result<Option<Deadline>, Error>)
    ensures
        match deadline_named(text@) {
            Some(Some(at)) => r is Ok && r->Ok_0 is Some && r->Ok_0->0@ == at,
            Some(None) => r is Ok && r->Ok_0 is None,
            None => r == Err::<Option<Deadline>, Error>(Error::InvalidDeadline),
        },
{
    let none = chars_of(NO_DEADLINE);
    if same_chars(text, none.as_slice()) {
        return Ok(None);
    }
    let read = has_shape(text) && parses_as(string_of(text).as_str(), TIMESTAMP_FORMAT);
    match deadline_from(text, read) {
        Some(deadline) => Ok(Some(deadline)),
        None => Err(Error::InvalidDeadline),
    }
}

/// `c` is white space: a space, a tab, a line ending or another of the blank
/// characters.
pub open spec fn is_space(c: char) -> bool {
    ||| c == ' '
    ||| ('\t' <= c && c <= '\r')
    ||| c == '\u{85}'
    ||| c == '\u{a0}'
    ||| c == '\u{1680}'
    ||| ('\u{2000}' <= c && c <= '\u{200a}')
    ||| c == '\u{2028}'
    ||| c == '\u{2029}'
    ||| c == '\u{202f}'
    ||| c == '\u{205f}'
    ||| c == '\u{3000}'
}

/// `text` without the white space that it begins with.
pub open spec fn without_leading_space(text: Seq<char>) -> Seq<char>
    decreases text.len(),
{
    if text.len() > 0 && is_space(text[0]) {
        without_leading_space(text.drop_first())
    } else {
        text
    }
}

/// `text` without the white space that it ends in.
pub open spec fn without_trailing_space(text: Seq<char>) -> Seq<char>
    decreases text.len(),
{
    if text.len() > 0 && is_space(text.last()) {
        without_trailing_space(text.drop_last())
    } else {
        text
    }
}

/// `text` without the white space around it.
pub open spec fn trimmed(text: Seq<char>) -> Seq<char> {
    without_trailing_space(without_leading_space(text))
}

/// What an answer to the question for a deadline says: no deadline where it is
/// blank, the deadline that it writes between the white space around it, and
/// `None` for anything else.
pub open spec fn deadline_answered(answer: Seq<char>) -> Option<Option<Minute>> {
    if trimmed(answer).len() == 0 {
        Some(None)
    } else if is_timestamp(trimmed(answer)) {
        Some(Some(minute_of(trimmed(answer))))
    } else {
        None
    }
}

fn space(c: char) -> (r: bool)
    ensures
        r == is_space(c),
{
    c == ' ' || ('\t' <= c && c <= '\r') || c == '\u{85}' || c == '\u{a0}' || c == '\u{1680}' || (
    '\u{2000}' <= c && c <= '\u{200a}') || c == '\u{2028}' || c == '\u{2029}' || c == '\u{202f}'
        || c == '\u{205f}' || c == '\u{3000}'
}

fn trim(text: &[char]) -> (r: &[char])
    ensures
        r@ == trimmed(text@),
{
    let mut from: usize = 0;
    assert(text@.skip(0) =~= text@);
    while from < text.len() && space(text[from])
        invariant
            from <= text@.len(),
            without_leading_space(text@) == without_leading_space(text@.skip(from as int)),
        decreases text@.len() - from,
    {
        assert(text@.skip(from as int).drop_first() =~= text@.skip(from + 1));
        from += 1;
    }
    let rest = slice_subrange(text, from, text.len());
    assert(rest@ =~= text@.skip(from as int));
    let mut to: usize = rest.len();
    assert(rest@.take(to as int) =~= rest@);
    while to > 0 && space(rest[to - 1])
        invariant
            to <= rest@.len(),
            without_trailing_space(rest@) == without_trailing_space(rest@.take(to as int)),
        decreases to,
    {
        assert(rest@.take(to as int).drop_last() =~= rest@.take(to - 1));
        to -= 1;
    }
    let r = slice_subrange(rest, 0, to);
    assert(r@ =~= rest@.take(to as int));
    r
}

/// What an answer to the question for a deadline says: no deadline where the
/// answer is blank, the deadline that it writes between the white space around it,
/// and `InvalidDeadline` for any other answer.
pub fn get_deadline(answer: &str) -> (r: Result<Option<Deadline>, Error>)
    ensures
        match deadline_answered(answer@) {
            Some(Some(at)) => r is Ok && r->Ok_0 is Some && r->Ok_0->0@ == at,
            Some(None) => r is Ok && r->Ok_0 is None,
            None => r == Err::<Option<Deadline>, Error>(Error::InvalidDeadline),
        },
{
    let chars = chars_of(answer);
    let text = trim(chars.as_slice());
    if text.len() == 0 {
        return Ok(None);
    }
    let read = has_shape(text) && parses_as(string_of(text).as_str(), TIMESTAMP_FORMAT);
    match deadline_from(text, read) {
        Some(deadline) => Ok(Some(deadline)),
        None => Err(Error::InvalidDeadline),
    }
}

impl Deadline {
    #[verifier::type_invariant]
    spec fn bounded(self) -> bool {
        &&& self.year <= 9999
        &&& self.month <= 99
        &&& self.day <= 99
        &&& self.hour <= 99
        &&& self.minute <= 99
    }

    /// The deadline that `text` writes: `text` has the shape of a deadline and chrono
    /// reads it as a date and time. `InvalidDeadline` for any other text.
    pub fn parse(text: &str) -> (r: Result<Deadline, Error>)
        ensures
            is_timestamp(text@) ==> r is Ok && r->Ok_0@ == minute_of(text@),
            !is_timestamp(text@) ==> r == Err::<Deadline, Error>(Error::InvalidDeadline),
    {
        let chars = chars_of(text);
        let read = has_shape(chars.as_slice()) && parses_as(text, TIMESTAMP_FORMAT);
        match deadline_from(chars.as_slice(), read) {
            Some(deadline) => Ok(deadline),
            None => Err(Error::InvalidDeadline),
        }
    }

    /// The deadline as a store holds it and as it is shown.
    pub fn text(&self) -> (s: String)
        ensures
            s@ == minute_text(self@),
            writable(self@),
    {
        proof {
            use_type_invariant(self);
        }
        let mut s = String::new();
        append_char(&mut s, last_digit(self.year / 1000));
        append_char(&mut s, last_digit(self.year / 100));
        append_char(&mut s, last_digit(self.year / 10));
        append_char(&mut s, last_digit(self.year));
        append_char(&mut s, '-');
        append_pair(&mut s, self.month as u16);
        append_char(&mut s, '-');
        append_pair(&mut s, self.day as u16);
        append_char(&mut s, ' ');
        append_pair(&mut s, self.hour as u16);
        append_char(&mut s, ':');
        append_pair(&mut s, self.minute as u16);
        assert(s@ =~= minute_text(self@));
        s
    }

    /// Whether this deadline comes before `other`.
    pub fn before(&self, other: &Deadline) -> (r: bool)
        ensures
            r == earlier(self@, other@),
    {
        if self.year != other.year {
            self.year < other.year
        } else if self.month != other.month {
            self.month < other.month
        } else if self.day != other.day {
            self.day < other.day
        } else if self.hour != other.hour {
            self.hour < other.hour
        } else {
            self.minute < other.minute
        }
    }

    /// Whether the start of this minute lies before `now`.
    pub fn is_past(&self, now: &Moment) -> (r: bool)
        ensures
            r == past(self@, *now),
    {
        let year = self.year as i32;
        let month = self.month as u32;
        let day = self.day as u32;
        let hour = self.hour as u32;
        let minute = self.minute as u32;
        if year != now.year {
            year < now.year
        } else if month != now.month {
            month < now.month
        } else if day != now.day {
            day < now.day
        } else if hour != now.hour {
            hour < now.hour
        } else if minute != now.minute {
            minute < now.minute
        } else {
            now.second > 0 || now.nanosecond > 0
        }
    }
}

} // verus!
