//! When a picture or a film was taken, from what its file says of it.

use crate::text::text_of;
use crate::timestamp::{
    on_calendar, parse_datetime, parsed_datetime, seconds_of, time_of, Timestamp,
};
use vstd::prelude::*;

verus! {

/// The start of the time that a film's header counts from, the first second
/// of 1904, in seconds since the start of 1970.
pub const FILM_EPOCH: i64 = -2_082_844_800;

/// What could be read of the time at which a file was made.
#[derive(Debug)]
pub enum Embedded {
    /// The two date fields of a raw image, as far as it has them: the time at
    /// which the picture was taken, and the time at which the file was changed.
    Exif { date_time_original: Option<String>, date_time: Option<String> },
    /// The creation time in the header of a film, in seconds since the start
    /// of 1904.
    Film { creation_time: u64 },
    /// Nothing: the file is of no kind that holds such a time, or it could
    /// not be read.
    Nothing,
}

/// What was read, as text and numbers.
pub enum EmbeddedView {
    Exif { date_time_original: Option<Seq<char>>, date_time: Option<Seq<char>> },
    Film { creation_time: u64 },
    Nothing,
}

impl View for Embedded {
    type V = EmbeddedView;

    open spec fn view(&self) -> EmbeddedView {
        match self {
            Embedded::Exif { date_time_original, date_time } => EmbeddedView::Exif {
                date_time_original: text_of(*date_time_original),
                date_time: text_of(*date_time),
            },
            Embedded::Film { creation_time } => EmbeddedView::Film {
                creation_time: *creation_time,
            },
            Embedded::Nothing => EmbeddedView::Nothing,
        }
    }
}

/// The second that a parsed text stands for, if a `Timestamp` can hold it.
pub open spec fn parsed_time(seconds: Option<int>) -> Option<int> {
    match seconds {
        Some(s) => on_calendar(s),
        None => None,
    }
}

/// The time that the date fields of a raw image give: the field that says
/// when the picture was taken decides if it is there, whatever it holds; the
/// other field is read only in its absence.
pub open spec fn exif_time(
    date_time_original: Option<Seq<char>>,
    date_time: Option<Seq<char>>,
) -> Option<int> {
    match date_time_original {
        Some(text) => parsed_time(parsed_datetime(text)),
        None => match date_time {
            Some(text) => parsed_time(parsed_datetime(text)),
            None => None,
        },
    }
}

/// The creation time of a film as the header's 64 bits are read: as a signed
/// number of seconds.
pub open spec fn signed_seconds(creation_time: u64) -> int {
    if creation_time <= i64::MAX {
        creation_time as int
    } else {
        creation_time - 0x1_0000_0000_0000_0000
    }
}

/// The time that the header of a film gives. A creation time of zero means
/// that none was written.
pub open spec fn film_time(creation_time: u64) -> Option<int> {
    if creation_time == 0 {
        None
    } else {
        on_calendar(FILM_EPOCH + signed_seconds(creation_time))
    }
}

/// The time that was read from the file itself.
pub open spec fn embedded_time(embedded: EmbeddedView) -> Option<int> {
    match embedded {
        EmbeddedView::Exif { date_time_original, date_time } => exif_time(
            date_time_original,
            date_time,
        ),
        EmbeddedView::Film { creation_time } => film_time(creation_time),
        EmbeddedView::Nothing => None,
    }
}

/// The point in time that a parsed text stands for.
pub fn time_from_parsed(seconds: Option<i64>) -> (time: Option<Timestamp>)
    ensures
        time_of(time) == parsed_time(seconds_of(seconds)),
{
    match seconds {
        Some(s) => Timestamp::from_seconds(s),
        None => None,
    }
}

/// The time that the date fields of a raw image give.
pub fn extract_exif_datetime(date_time_original: &Option<String>, date_time: &Option<String>) -> (time:
    Option<Timestamp>)
    ensures
        time_of(time) == exif_time(text_of(*date_time_original), text_of(*date_time)),
{
    match date_time_original {
        Some(text) => time_from_parsed(parse_datetime(text.as_str())),
        None => match date_time {
            Some(text) => time_from_parsed(parse_datetime(text.as_str())),
            None => None,
        },
    }
}

/// The time that the header of a film gives.
pub fn extract_mp4_datetime(creation_time: u64) -> (time: Option<Timestamp>)
    ensures
        time_of(time) == film_time(creation_time),
{
    if creation_time == 0 {
        return None;
    }
    let signed: i64 = if creation_time <= 0x7fff_ffff_ffff_ffff {
        creation_time as i64
    } else {
        ((creation_time - 0x8000_0000_0000_0000) as i128 - 0x8000_0000_0000_0000) as i64
    };
    assert(signed == signed_seconds(creation_time));
    if signed < i64::MIN - FILM_EPOCH {
        return None;
    }
    Timestamp::from_seconds(FILM_EPOCH + signed)
}

/// Whether the time of the file system is read at all: only where the file
/// itself gives none.
pub fn needs_file_time(embedded: &Embedded) -> (needed: bool)
    ensures
        needed == embedded_time(embedded@).is_none(),
{
    let found = match embedded {
        Embedded::Exif { date_time_original, date_time } => extract_exif_datetime(
            date_time_original,
            date_time,
        ),
        Embedded::Film { creation_time } => extract_mp4_datetime(*creation_time),
        Embedded::Nothing => None,
    };
    found.is_none()
}

/// The time at which a file was made: the time that the file itself holds,
/// or else the time at which the file system saw it changed last.
pub fn extract_datetime(embedded: &Embedded, modified: Option<Timestamp>) -> (time: Option<
    Timestamp,
>)
    ensures
        time_of(time) == match embedded_time(embedded@) {
            Some(seconds) => Some(seconds),
            None => time_of(modified),
        },
{
    let found = match embedded {
        Embedded::Exif { date_time_original, date_time } => extract_exif_datetime(
            date_time_original,
            date_time,
        ),
        Embedded::Film { creation_time } => extract_mp4_datetime(*creation_time),
        Embedded::Nothing => None,
    };
    match found {
        Some(time) => Some(time),
        None => modified,
    }
}

} // verus!
