//! Why a timestamp, offset or duration was rejected.

use vstd::prelude::*;

verus! {

/// The specific reason an input was rejected, with the out-of-range value
/// where there is one.
#[derive(Debug, Clone, Copy, PartialEq, Eq, Structural)]
pub enum ParseErrorKind {
    /// The timestamp holds a non-ASCII character.
    NonAscii,
    /// The timestamp has fewer than 20 characters.
    TooShort,
    /// Position 10 holds neither `T`, `t` nor a space.
    BadDateTimeSeparator,
    /// Positions 4 and 7 do not both hold `-`.
    BadDateSeparator,
    /// Positions 13 and 16 do not both hold `:`.
    BadTimeSeparator,
    BadYear,
    BadMonth,
    BadDay,
    BadHour,
    BadMinute,
    BadSecond,
    /// A `.` with no digit after it.
    MissingFractionDigits,
    /// An offset that is not `Z`, `z` or six characters with `:` in the middle.
    BadOffset,
    /// A six-character offset that starts with neither `+` nor `-`.
    BadOffsetSign,
    BadOffsetHours,
    BadOffsetMinutes,
    /// Offset minutes above 59.
    OffsetMinutesOutOfRange(u32),
    /// An offset, in minutes, outside -12:00..=+14:00.
    OffsetOutOfRange(i32),
    MonthOutOfRange(u32),
    DayOutOfRange { year: i32, month: u32, day: u32 },
    HourOutOfRange(u32),
    MinuteOutOfRange(u32),
    SecondOutOfRange(u32),
    /// A duration with nothing in it.
    EmptyDuration,
    /// A duration that is only a sign.
    SignWithoutDigits,
    /// A unit character with no number before it.
    MissingNumber(char),
    /// A number too large for 64-bit seconds.
    BadNumber,
    /// A character that is neither a digit nor one of `d`, `h`, `m`, `s`.
    UnknownUnit(char),
    /// Digits at the end with no unit after them.
    TrailingDigits,
}

#[derive(Debug, Clone, Copy, PartialEq, Eq, Structural)]
pub struct ParseError(pub ParseErrorKind);

pub type ParseResult<T> = Result<T, ParseError>;

} // verus!
