//! What a refused input is told: one line of text per kind of error,
//! quoting the text that was refused.

use vstd::prelude::*;
use vstd::string::StringExecFns;
use crate::error::{ParseError, ParseErrorKind};
use crate::text::{decimal, push_decimal, push_zero_padded, zero_padded};

verus! {

/// An integer as `{}` prints it: a `-` before negative numbers.
pub open spec fn signed_decimal(x: int) -> Seq<char> {
    if x < 0 {
        seq!['-'] + decimal((-x) as nat)
    } else {
        decimal(x as nat)
    }
}

/// `s` between single quotes.
pub open spec fn quoted(s: Seq<char>) -> Seq<char> {
    seq!['\''] + s + seq!['\'']
}

/// The message for an error of kind `kind` about the text `s`.
pub open spec fn error_message(kind: ParseErrorKind, s: Seq<char>) -> Seq<char> {
    match kind {
        ParseErrorKind::NonAscii => quoted(s) + " contains non-ASCII bytes"@,
        ParseErrorKind::TooShort => quoted(s) + " is too short to be a timestamp"@,
        ParseErrorKind::BadDateTimeSeparator => "expected 'T' or a space at position 10 in "@
            + quoted(s),
        ParseErrorKind::BadDateSeparator => "expected '-' separators in the date part of "@
            + quoted(s),
        ParseErrorKind::BadTimeSeparator => "expected ':' separators in the time part of "@
            + quoted(s),
        ParseErrorKind::BadYear => "bad year in "@ + quoted(s),
        ParseErrorKind::BadMonth => "bad month in "@ + quoted(s),
        ParseErrorKind::BadDay => "bad day in "@ + quoted(s),
        ParseErrorKind::BadHour => "bad hour in "@ + quoted(s),
        ParseErrorKind::BadMinute => "bad minute in "@ + quoted(s),
        ParseErrorKind::BadSecond => "bad second in "@ + quoted(s),
        ParseErrorKind::MissingFractionDigits => "expected digits after '.' in "@ + quoted(s),
        ParseErrorKind::BadOffset => "bad offset "@ + quoted(s)
            + ", expected +HH:MM, -HH:MM or Z"@,
        ParseErrorKind::BadOffsetSign => "offset "@ + quoted(s) + " must start with + or -"@,
        ParseErrorKind::BadOffsetHours => "bad offset hours in "@ + quoted(s),
        ParseErrorKind::BadOffsetMinutes => "bad offset minutes in "@ + quoted(s),
        ParseErrorKind::OffsetMinutesOutOfRange(mm) => "offset minutes "@ + decimal(mm as nat)
            + " out of range 0..=59"@,
        ParseErrorKind::OffsetOutOfRange(minutes) => "offset of "@ + signed_decimal(
            minutes as int,
        ) + " minutes is outside the real-world range -12:00..=+14:00"@,
        ParseErrorKind::MonthOutOfRange(month) => "month "@ + decimal(month as nat)
            + " out of range 1..=12"@,
        ParseErrorKind::DayOutOfRange { year, month, day } => "day "@ + decimal(day as nat)
            + " out of range for "@ + signed_decimal(year as int) + seq!['-'] + zero_padded(
            month as nat,
            2,
        ),
        ParseErrorKind::HourOutOfRange(hour) => "hour "@ + decimal(hour as nat)
            + " out of range 0..=23"@,
        ParseErrorKind::MinuteOutOfRange(minute) => "minute "@ + decimal(minute as nat)
            + " out of range 0..=59"@,
        ParseErrorKind::SecondOutOfRange(second) => "second "@ + decimal(second as nat)
            + " out of range 0..=59"@,
        ParseErrorKind::EmptyDuration => "duration is empty"@,
        ParseErrorKind::SignWithoutDigits => "duration "@ + quoted(s)
            + " has a sign but no digits"@,
        ParseErrorKind::MissingNumber(c) => "duration "@ + quoted(s)
            + " is missing a number before "@ + quoted(seq![c]),
        ParseErrorKind::BadNumber => "bad number in duration "@ + quoted(s),
        ParseErrorKind::UnknownUnit(c) => "unknown duration unit "@ + quoted(seq![c]) + " in "@
            + quoted(s),
        ParseErrorKind::TrailingDigits => "duration "@ + quoted(s)
            + " has trailing digits with no unit"@,
    }
}

/// Appends `s` between single quotes.
fn push_quoted(out: &mut String, s: &str)
    ensures
        final(out)@ == old(out)@ + quoted(s@),
{
    out.push('\'');
    out.append(s);
    out.push('\'');
    assert(final(out)@ =~= old(out)@ + quoted(s@));
}

/// Appends `x` as `{}` prints it.
fn push_signed(out: &mut String, x: i32)
    ensures
        final(out)@ == old(out)@ + signed_decimal(x as int),
{
    if x < 0 {
        out.push('-');
        push_decimal(out, (-(x as i64)) as u64);
    } else {
        push_decimal(out, x as u64);
    }
    assert(final(out)@ =~= old(out)@ + signed_decimal(x as int));
}

impl ParseError {
    /// The message for this error about the text `subject`: the trimmed
    /// timestamp or duration that was refused, or the offset text for an
    /// offset's own errors (see `DateTime::error_subject`).
    pub fn message(&self, subject: &str) -> (r: String)
        ensures
            r@ == error_message(self.0, subject@),
    {
        let mut out = String::new();
        match self.0 {
            ParseErrorKind::NonAscii => {
                push_quoted(&mut out, subject);
                out.append(" contains non-ASCII bytes");
            },
            ParseErrorKind::TooShort => {
                push_quoted(&mut out, subject);
                out.append(" is too short to be a timestamp");
            },
            ParseErrorKind::BadDateTimeSeparator => {
                out.append("expected 'T' or a space at position 10 in ");
                push_quoted(&mut out, subject);
            },
            ParseErrorKind::BadDateSeparator => {
                out.append("expected '-' separators in the date part of ");
                push_quoted(&mut out, subject);
            },
            ParseErrorKind::BadTimeSeparator => {
                out.append("expected ':' separators in the time part of ");
                push_quoted(&mut out, subject);
            },
            ParseErrorKind::BadYear => {
                out.append("bad year in ");
                push_quoted(&mut out, subject);
            },
            ParseErrorKind::BadMonth => {
                out.append("bad month in ");
                push_quoted(&mut out, subject);
            },
            ParseErrorKind::BadDay => {
                out.append("bad day in ");
                push_quoted(&mut out, subject);
            },
            ParseErrorKind::BadHour => {
                out.append("bad hour in ");
                push_quoted(&mut out, subject);
            },
            ParseErrorKind::BadMinute => {
                out.append("bad minute in ");
                push_quoted(&mut out, subject);
            },
            ParseErrorKind::BadSecond => {
                out.append("bad second in ");
                push_quoted(&mut out, subject);
            },
            ParseErrorKind::MissingFractionDigits => {
                out.append("expected digits after '.' in ");
                push_quoted(&mut out, subject);
            },
            ParseErrorKind::BadOffset => {
                out.append("bad offset ");
                push_quoted(&mut out, subject);
                out.append(", expected +HH:MM, -HH:MM or Z");
            },
            ParseErrorKind::BadOffsetSign => {
                out.append("offset ");
                push_quoted(&mut out, subject);
                out.append(" must start with + or -");
            },
            ParseErrorKind::BadOffsetHours => {
                out.append("bad offset hours in ");
                push_quoted(&mut out, subject);
            },
            ParseErrorKind::BadOffsetMinutes => {
                out.append("bad offset minutes in ");
                push_quoted(&mut out, subject);
            },
            ParseErrorKind::OffsetMinutesOutOfRange(mm) => {
                out.append("offset minutes ");
                push_decimal(&mut out, mm as u64);
                out.append(" out of range 0..=59");
            },
            ParseErrorKind::OffsetOutOfRange(minutes) => {
                out.append("offset of ");
                push_signed(&mut out, minutes);
                out.append(" minutes is outside the real-world range -12:00..=+14:00");
            },
            ParseErrorKind::MonthOutOfRange(month) => {
                out.append("month ");
                push_decimal(&mut out, month as u64);
                out.append(" out of range 1..=12");
            },
            ParseErrorKind::DayOutOfRange { year, month, day } => {
                out.append("day ");
                push_decimal(&mut out, day as u64);
                out.append(" out of range for ");
                push_signed(&mut out, year);
                out.push('-');
                push_zero_padded(&mut out, month as u64, 2);
            },
            ParseErrorKind::HourOutOfRange(hour) => {
                out.append("hour ");
                push_decimal(&mut out, hour as u64);
                out.append(" out of range 0..=23");
            },
            ParseErrorKind::MinuteOutOfRange(minute) => {
                out.append("minute ");
                push_decimal(&mut out, minute as u64);
                out.append(" out of range 0..=59");
            },
            ParseErrorKind::SecondOutOfRange(second) => {
                out.append("second ");
                push_decimal(&mut out, second as u64);
                out.append(" out of range 0..=59");
            },
            ParseErrorKind::EmptyDuration => {
                out.append("duration is empty");
            },
            ParseErrorKind::SignWithoutDigits => {
                out.append("duration ");
                push_quoted(&mut out, subject);
                out.append(" has a sign but no digits");
            },
            ParseErrorKind::MissingNumber(c) => {
                out.append("duration ");
                push_quoted(&mut out, subject);
                out.append(" is missing a number before ");
                out.push('\'');
                out.push(c);
                out.push('\'');
            },
            ParseErrorKind::BadNumber => {
                out.append("bad number in duration ");
                push_quoted(&mut out, subject);
            },
            ParseErrorKind::UnknownUnit(c) => {
                out.append("unknown duration unit ");
                out.push('\'');
                out.push(c);
                out.push('\'');
                out.append(" in ");
                push_quoted(&mut out, subject);
            },
            ParseErrorKind::TrailingDigits => {
                out.append("duration ");
                push_quoted(&mut out, subject);
                out.append(" has trailing digits with no unit");
            },
        }
        assert(out@ =~= error_message(self.0, subject@));
        out
    }
}

} // verus!
