//! Points in time, as the calendar of `chrono` knows them.

use crate::text::text_of;
use vstd::prelude::*;

verus! {

/// The calendar date on which the second `seconds` falls, written as year,
/// month and day with hyphens between them; `None` for a second that lies
/// outside the calendar. Seconds are counted from the start of 1970, a day
/// has 86 400 of them, and no time zone is applied.
pub uninterp spec fn date_text(seconds: int) -> Option<Seq<char>>;

/// A character that can stand in a date: a digit, the hyphen between the
/// parts, or the sign before a year that is not written with four digits.
pub open spec fn is_date_char(c: char) -> bool {
    ('0' <= c && c <= '9') || c == '-' || c == '+'
}

/// A text made of such characters only.
pub open spec fn is_date_shaped(text: Seq<char>) -> bool {
    forall|i: int| 0 <= i < text.len() ==> is_date_char(#[trigger] text[i])
}

/// Calls `chrono::DateTime::from_timestamp` with no nanoseconds and formats
/// the date it finds with `%Y-%m-%d`. The result is `None` exactly where
/// `from_timestamp` finds no date. Of the text, the contract claims what the
/// three format items are documented to write: digits, hyphens and at most a
/// sign.
#[verifier::external_body]
fn calendar_date(seconds: i64) -> (label: Option<String>)
    ensures
        text_of(label) == date_text(seconds as int),
        label matches Some(text) ==> is_date_shaped(text@),
{
    chrono::DateTime::from_timestamp(seconds, 0).map(
        |t| t.naive_utc().format("%Y-%m-%d").to_string(),
    )
}

/// The second that a text names, where it is a date and a time of day in
/// the form `2024-01-15 14:30:00`; `None` for any other text.
pub uninterp spec fn parsed_datetime(text: Seq<char>) -> Option<int>;

/// What an optional number of seconds holds.
pub open spec fn seconds_of(seconds: Option<i64>) -> Option<int> {
    match seconds {
        Some(s) => Some(s as int),
        None => None,
    }
}

/// Calls `chrono::NaiveDateTime::parse_from_str` with the format
/// `%Y-%m-%d %H:%M:%S` and, where that succeeds, takes the seconds that
/// `timestamp` counts for the result read as UTC. Nothing is claimed of the
/// result but that it is the one `chrono` gives for this text.
#[verifier::external_body]
pub(crate) fn parse_datetime(text: &str) -> (seconds: Option<i64>)
    ensures
        seconds_of(seconds) == parsed_datetime(text@),
{
    chrono::NaiveDateTime::parse_from_str(text, "%Y-%m-%d %H:%M:%S").ok().map(
        |t| t.and_utc().timestamp(),
    )
}

/// A date and time of day without a time zone, cut to the second: the whole
/// seconds that have passed since the start of 1970. What a clock or a file
/// system knows beyond the second is dropped when the value is made, so two
/// times are as far apart as their whole seconds are. Every value lies on a
/// day that the calendar can name.
#[derive(Debug, Clone, Copy)]
pub struct Timestamp {
    seconds: i64,
}

impl View for Timestamp {
    type V = int;

    closed spec fn view(&self) -> int {
        self.seconds as int
    }
}

/// The date of a second that the calendar can name.
pub open spec fn date_label(seconds: int) -> Seq<char> {
    date_text(seconds)->0
}

/// The second `seconds`, if it is one that a `Timestamp` can hold.
pub open spec fn on_calendar(seconds: int) -> Option<int> {
    if i64::MIN <= seconds <= i64::MAX && date_text(seconds).is_some() {
        Some(seconds)
    } else {
        None
    }
}

/// The second that an optional point in time stands for.
pub open spec fn time_of(time: Option<Timestamp>) -> Option<int> {
    match time {
        Some(t) => Some(t@),
        None => None,
    }
}

/// The time between two seconds, whichever is the later.
pub open spec fn seconds_apart(a: int, b: int) -> nat {
    if a >= b {
        (a - b) as nat
    } else {
        (b - a) as nat
    }
}

impl Timestamp {
    #[verifier::type_invariant]
    spec fn has_date(self) -> bool {
        date_text(self.seconds as int).is_some()
    }

    /// The point in time `seconds` after the start of 1970, if the calendar
    /// reaches that far.
    pub fn from_seconds(seconds: i64) -> (time: Option<Timestamp>)
        ensures
            time_of(time) == on_calendar(seconds as int),
    {
        match calendar_date(seconds) {
            Some(_) => Some(Timestamp { seconds }),
            None => None,
        }
    }

    /// The point in time `seconds` and `nanoseconds` after the start of 1970,
    /// cut to the second: the nanoseconds are dropped.
    pub fn cut_to_second(seconds: i64, nanoseconds: u32) -> (time: Option<Timestamp>)
        ensures
            time_of(time) == on_calendar(seconds as int),
    {
        Timestamp::from_seconds(seconds)
    }

    /// The seconds since the start of 1970.
    pub fn seconds(&self) -> (seconds: i64)
        ensures
            seconds == self@,
            date_text(seconds as int).is_some(),
    {
        proof {
            use_type_invariant(self);
        }
        self.seconds
    }

    /// The calendar date of this point in time.
    pub fn date(&self) -> (label: String)
        ensures
            label@ == date_label(self@),
            is_date_shaped(label@),
    {
        proof {
            use_type_invariant(self);
        }
        match calendar_date(self.seconds) {
            Some(label) => label,
            None => vstd::pervasive::unreached(),
        }
    }

    /// The time between this point and another, in seconds.
    pub fn seconds_between(&self, other: &Timestamp) -> (apart: u64)
        ensures
            apart == seconds_apart(self@, other@),
    {
        if self.seconds >= other.seconds {
            (self.seconds as i128 - other.seconds as i128) as u64
        } else {
            (other.seconds as i128 - self.seconds as i128) as u64
        }
    }
}

} // verus!
