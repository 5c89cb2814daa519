//! Civil timestamps read under a fixed offset, and the instants they name.

use vstd::prelude::*;
use vstd::string::StrSliceExecFns;
use crate::calendar::{
    algorithm_days, civil_date_of_day, civil_days, civil_from_days, days_from_civil,
    days_in_month, is_valid_date, month_length,
};
use crate::error::{ParseError, ParseErrorKind, ParseResult};
use crate::offset::{
    lemma_offset_text, offset_from_bytes, offset_text, parse_offset_bytes, push_offset, Offset,
    MAX_OFFSET_MINUTES, MIN_OFFSET_MINUTES,
};
use crate::text::{
    all_digit_chars, all_digits, ascii_bytes, digits_at, digits_value, int_at, is_digit_byte,
    is_digit_char, is_whitespace, lemma_ascii_bytes_subrange, lemma_number_field_bound,
    lemma_parsed_digits, lemma_strip_trailing_zeros, lemma_trimmed_unchanged, lemma_zero_padded,
    number_field, pow10, push_fraction, push_zero_padded, strip_trailing_zeros, trim, trimmed,
    zero_padded,
};

verus! {

/// A civil (wall-clock) date and time paired with the offset it was read
/// under. Two `DateTime`s can name the same instant while disagreeing on
/// every field.
#[derive(Debug, Clone, Copy, PartialEq, Eq, Structural)]
pub struct DateTime {
    pub year: i32,
    pub month: u32,
    pub day: u32,
    pub hour: u32,
    pub minute: u32,
    pub second: u32,
    /// Fraction of the second, in nanoseconds (0..=999_999_999).
    pub nanosecond: u32,
    pub offset: Offset,
}

impl DateTime {
    /// Every field within its range, the day within its month.
    pub open spec fn is_valid(self) -> bool {
        &&& is_valid_date(self.year as int, self.month as int, self.day as int)
        &&& self.hour <= 23
        &&& self.minute <= 59
        &&& self.second <= 59
        &&& self.nanosecond <= 999_999_999
    }

    /// Seconds of the wall-clock reading since midnight.
    pub open spec fn second_of_day(self) -> int {
        self.hour * 3600 + self.minute * 60 + self.second
    }

    /// The instant, in seconds since 1970-01-01T00:00:00Z, that the reading
    /// names: its day count times 86400, plus the time of day, minus the
    /// offset.
    pub open spec fn instant(self) -> int {
        civil_days(self.year as int, self.month as int, self.day as int) * 86400
            + self.second_of_day() - self.offset@ * 60
    }

    /// What `to_epoch_seconds` returns for any field values, in range or not.
    pub open spec fn epoch_seconds(self) -> int {
        algorithm_days(self.year as int, self.month as int, self.day as int) * 86400
            + self.second_of_day() - self.offset@ * 60
    }
}

/// The reading that a clock set to `offset` shows at the instant `epoch`,
/// with a zero fraction of a second. Its year is the civil year taken as
/// an `i32`.
pub open spec fn reading_at(epoch: int, offset: Offset) -> DateTime {
    let local = epoch + offset@ * 60;
    let days = local / 86400;
    let sod = local % 86400;
    let date = civil_date_of_day(days);
    DateTime {
        year: date.0 as i32,
        month: date.1 as u32,
        day: date.2 as u32,
        hour: (sod / 3600) as u32,
        minute: (sod / 60 % 60) as u32,
        second: (sod % 60) as u32,
        nanosecond: 0,
        offset,
    }
}

/// `dt` with its fraction of a second replaced by `nanosecond`.
pub open spec fn with_nanosecond(dt: DateTime, nanosecond: u32) -> DateTime {
    DateTime { nanosecond, ..dt }
}

/// Bounds of `epoch_seconds` over all field values.
#[verifier::spinoff_prover]
#[verifier::rlimit(40)]
pub(crate) proof fn lemma_epoch_seconds_bound(dt: DateTime)
    requires
        MIN_OFFSET_MINUTES <= dt.offset@ <= MAX_OFFSET_MINUTES,
    ensures
        -0x200_0000_0000_0000 <= dt.epoch_seconds() <= 0x200_0000_0000_0000,
{
    let y = dt.year as int;
    let m = dt.month as int;
    let yy = if m <= 2 { y - 1 } else { y };
    let era = yy / 400;
    assert(-6_000_000 <= era <= 6_000_000);
    assert(0 <= (m + 9) % 12 < 12);
    let days = algorithm_days(y, m, dt.day as int);
    assert(-900_000_000_000 <= days <= 900_000_000_000);
}

/// Where the run of digits in `b` that starts at `i` ends.
pub open spec fn digit_run_end(b: Seq<u8>, i: int) -> int
    decreases b.len() - i,
{
    if 0 <= i < b.len() && is_digit_byte(b[i]) {
        digit_run_end(b, i + 1)
    } else {
        i
    }
}

/// The number that the field of `b` from `start` to `end` writes: digits,
/// or a `-` and digits where `signed`.
pub open spec fn field(b: Seq<u8>, start: int, end: int, signed: bool) -> int {
    number_field(b.subrange(start, end), signed)->Some_0
}

/// What the ASCII bytes `b` say as a timestamp, from the offset on, given
/// where the offset starts and the fraction of a second read before it.
pub open spec fn datetime_from_bytes_tail(b: Seq<u8>, idx: int, nanosecond: int) -> ParseResult<DateTime> {
    let year = field(b, 0, 4, true);
    let month = field(b, 5, 7, false);
    let day = field(b, 8, 10, false);
    let hour = field(b, 11, 13, false);
    let minute = field(b, 14, 16, false);
    let second = field(b, 17, 19, false);
    match offset_from_bytes(b.subrange(idx, b.len() as int)) {
        Err(e) => Err(e),
        Ok(offset) => if !(1 <= month <= 12) {
            Err(ParseError(ParseErrorKind::MonthOutOfRange(month as u32)))
        } else if !(1 <= day <= month_length(year, month)) {
            Err(
                ParseError(
                    ParseErrorKind::DayOutOfRange {
                        year: year as i32,
                        month: month as u32,
                        day: day as u32,
                    },
                ),
            )
        } else if hour > 23 {
            Err(ParseError(ParseErrorKind::HourOutOfRange(hour as u32)))
        } else if minute > 59 {
            Err(ParseError(ParseErrorKind::MinuteOutOfRange(minute as u32)))
        } else if second > 59 {
            Err(ParseError(ParseErrorKind::SecondOutOfRange(second as u32)))
        } else {
            Ok(
                DateTime {
                    year: year as i32,
                    month: month as u32,
                    day: day as u32,
                    hour: hour as u32,
                    minute: minute as u32,
                    second: second as u32,
                    nanosecond: nanosecond as u32,
                    offset,
                },
            )
        },
    }
}

/// The nanoseconds that the digits of `b` from 20 to `end` give: the first
/// nine of them, as a fraction of a second.
pub open spec fn fraction_nanos(b: Seq<u8>, end: int) -> int {
    let k = if end - 20 < 9 { end - 20 } else { 9 };
    (digits_value(b.subrange(20, 20 + k)) * pow10((9 - k) as nat)) as int
}

/// What the ASCII bytes `b` say as a timestamp:
/// `YYYY-MM-DD` then `T`, `t` or a space, then `HH:MM:SS`, then optionally
/// `.` and one or more digits of which the first nine count, then an
/// offset. Every field but the year is digits only; the year is four
/// digits, or `-` and three digits for a year before 0.
/// Fields are checked in that order, then their ranges.
pub open spec fn datetime_from_bytes(b: Seq<u8>) -> ParseResult<DateTime> {
    if b.len() < 20 {
        Err(ParseError(ParseErrorKind::TooShort))
    } else if b[10] != 'T' as u8 && b[10] != 't' as u8 && b[10] != ' ' as u8 {
        Err(ParseError(ParseErrorKind::BadDateTimeSeparator))
    } else if b[4] != '-' as u8 || b[7] != '-' as u8 {
        Err(ParseError(ParseErrorKind::BadDateSeparator))
    } else if b[13] != ':' as u8 || b[16] != ':' as u8 {
        Err(ParseError(ParseErrorKind::BadTimeSeparator))
    } else if number_field(b.subrange(0, 4), true) is None {
        Err(ParseError(ParseErrorKind::BadYear))
    } else if number_field(b.subrange(5, 7), false) is None {
        Err(ParseError(ParseErrorKind::BadMonth))
    } else if number_field(b.subrange(8, 10), false) is None {
        Err(ParseError(ParseErrorKind::BadDay))
    } else if number_field(b.subrange(11, 13), false) is None {
        Err(ParseError(ParseErrorKind::BadHour))
    } else if number_field(b.subrange(14, 16), false) is None {
        Err(ParseError(ParseErrorKind::BadMinute))
    } else if number_field(b.subrange(17, 19), false) is None {
        Err(ParseError(ParseErrorKind::BadSecond))
    } else if b[19] == '.' as u8 {
        let end = digit_run_end(b, 20);
        if end == 20 {
            Err(ParseError(ParseErrorKind::MissingFractionDigits))
        } else {
            datetime_from_bytes_tail(b, end, fraction_nanos(b, end))
        }
    } else {
        datetime_from_bytes_tail(b, 19, 0)
    }
}

/// What the text `s` says as a timestamp, once surrounding whitespace is
/// trimmed.
pub open spec fn datetime_from_text(s: Seq<char>) -> ParseResult<DateTime> {
    let t = trimmed(s);
    if !vstd::utf8::is_ascii_chars(t) {
        Err(ParseError(ParseErrorKind::NonAscii))
    } else {
        datetime_from_bytes(ascii_bytes(t))
    }
}

impl DateTime {
    /// Seconds since the Unix epoch, i.e. the offset-independent instant.
    pub fn to_epoch_seconds(&self) -> (r: i64)
        ensures
            r == self.epoch_seconds(),
            1 <= self.month <= 12 ==> r == self.instant(),
    {
        let m = self.offset.minutes();
        proof {
            lemma_epoch_seconds_bound(*self);
        }
        let days = days_from_civil(self.year as i64, self.month as i64, self.day as i64);
        let local = days * 86400 + self.hour as i64 * 3600 + self.minute as i64 * 60
            + self.second as i64;
        local - m as i64 * 60
    }

    /// Builds the wall-clock reading a clock set to `offset` would show at
    /// the given instant. The nanosecond field is always zero; instants
    /// only carry whole seconds.
    pub fn from_epoch_seconds(epoch: i64, offset: Offset) -> (r: DateTime)
        requires
            i64::MIN <= epoch + offset@ * 60 <= i64::MAX,
        ensures
            r == reading_at(epoch as int, offset),
    {
        let local = epoch + offset.minutes() as i64 * 60;
        let days = local.checked_div_euclid(86400).unwrap();
        let secs_of_day = local.checked_rem_euclid(86400).unwrap();
        let (y, m, d) = civil_from_days(days);
        DateTime {
            year: y as i32,
            month: m as u32,
            day: d as u32,
            hour: (secs_of_day / 3600) as u32,
            minute: (secs_of_day / 60 % 60) as u32,
            second: (secs_of_day % 60) as u32,
            nanosecond: 0,
            offset,
        }
    }

    /// Re-expresses the same instant under a different offset, keeping the
    /// fraction of a second.
    pub fn with_offset(&self, offset: Offset) -> (r: DateTime)
        ensures
            r == with_nanosecond(reading_at(self.epoch_seconds(), offset), self.nanosecond),
    {
        proof {
            use_type_invariant(&self.offset);
            use_type_invariant(&offset);
        }
        let epoch = self.to_epoch_seconds();
        proof {
            lemma_epoch_seconds_bound(*self);
        }
        DateTime { nanosecond: self.nanosecond, ..DateTime::from_epoch_seconds(epoch, offset) }
    }

    /// Adds a (possibly negative) number of seconds, keeping the offset and
    /// the fraction of a second.
    pub fn add_seconds(&self, delta: i64) -> (r: DateTime)
        requires
            i64::MIN <= self.epoch_seconds() + delta <= i64::MAX,
            i64::MIN <= self.epoch_seconds() + delta + self.offset@ * 60 <= i64::MAX,
        ensures
            r == with_nanosecond(
                reading_at(self.epoch_seconds() + delta, self.offset),
                self.nanosecond,
            ),
    {
        let epoch = self.to_epoch_seconds();
        DateTime {
            nanosecond: self.nanosecond,
            ..DateTime::from_epoch_seconds(epoch + delta, self.offset)
        }
    }
}

/// Reads the run of digits from 20 on, after a `.`: where it ends and the
/// nanoseconds its first nine digits give.
#[verifier::spinoff_prover]
#[verifier::rlimit(40)]
fn parse_fraction(b: &[u8]) -> (r: Option<(usize, u32)>)
    requires
        20 <= b@.len(),
    ensures
        r is None <==> digit_run_end(b@, 20) == 20,
        r matches Some(p) ==> (p.0 == digit_run_end(b@, 20) && p.0 <= b@.len() && p.1 == fraction_nanos(b@, p.0 as int)),
{
    let len = b.len();
    let mut idx: usize = 20;
    while idx < len && b[idx] >= 48 && b[idx] <= 57
        invariant
            20 <= idx <= len,
            len == b@.len(),
            digit_run_end(b@, 20) == digit_run_end(b@, idx as int),
            all_digits(b@.subrange(20, idx as int)),
        decreases len - idx,
    {
        assert(b@.subrange(20, idx + 1) =~= b@.subrange(20, idx as int).push(b@[idx as int]));
        idx = idx + 1;
    }
    assert(all_digits(b@.subrange(20, 20 + (if idx - 20 < 9 { idx - 20 } else { 9 })))) by {
        let k = if idx - 20 < 9 { idx - 20 } else { 9 };
        assert forall|i: int| 0 <= i < k implies is_digit_byte(
            #[trigger] b@.subrange(20, 20 + k)[i],
        ) by {
            assert(b@.subrange(20, 20 + k)[i] == b@.subrange(20, idx as int)[i]);
        }
    }
    if idx == 20 {
        return None;
    }
    let k: usize = if idx - 20 < 9 { idx - 20 } else { 9 };
    let v = digits_at(b, 20, k).unwrap();
    proof {
        crate::text::lemma_digits_value_bound(b@.subrange(20, 20 + k));
        crate::text::lemma_pow10_mono(k as nat, 9);
        reveal_with_fuel(pow10, 10);
    }
    proof {
        crate::text::lemma_pow10_add(k as nat, (9 - k) as nat);
        crate::text::lemma_pow10_add((9 - k) as nat, 0);
        assert(pow10(0) == 1);
        assert(v * pow10((9 - k) as nat) < 1_000_000_000) by (nonlinear_arith)
            requires
                v < pow10(k as nat),
                pow10(k as nat) * pow10((9 - k) as nat) == 1_000_000_000,
                pow10((9 - k) as nat) >= 1;
        assert(v * pow10(0) == v);
    }
    let mut nanos: u32 = v;
    let mut j: usize = k;
    while j < 9
        invariant
            k <= j <= 9,
            nanos == v * pow10((j - k) as nat),
            nanos * pow10((9 - j) as nat) < 1_000_000_000,
        decreases 9 - j,
    {
        proof {
            assert(pow10((j + 1 - k) as nat) == 10 * pow10((j - k) as nat));
            crate::text::lemma_pow10_mono(0, (9 - j - 1) as nat);
            assert(pow10((9 - j) as nat) == 10 * pow10((9 - j - 1) as nat));
            assert(nanos * pow10((9 - j) as nat) == (nanos * 10) * pow10((9 - j - 1) as nat))
                by (nonlinear_arith)
                requires pow10((9 - j) as nat) == 10 * pow10((9 - j - 1) as nat);
            assert(nanos * 10 < 1_000_000_000) by (nonlinear_arith)
                requires
                    (nanos * 10) * pow10((9 - j - 1) as nat) < 1_000_000_000,
                    pow10((9 - j - 1) as nat) >= 1;
            assert(v * pow10((j + 1 - k) as nat) == nanos * 10) by (nonlinear_arith)
                requires
                    nanos == v * pow10((j - k) as nat),
                    pow10((j + 1 - k) as nat) == 10 * pow10((j - k) as nat);
        }
        nanos = nanos * 10;
        j = j + 1;
    }
    Some((idx, nanos))
}

proof fn lemma_digit_run(b: Seq<u8>, i: int)
    requires
        0 <= i,
    ensures
        i <= digit_run_end(b, i),
        digit_run_end(b, i) <= i || digit_run_end(b, i) <= b.len(),
        forall|j: int| i <= j < digit_run_end(b, i) ==> is_digit_byte(#[trigger] b[j]),
    decreases b.len() - i,
{
    if 0 <= i < b.len() && is_digit_byte(b[i]) {
        lemma_digit_run(b, i + 1);
    }
}

/// Every timestamp that parses is a valid reading.
#[verifier::spinoff_prover]
#[verifier::rlimit(40)]
proof fn lemma_parsed_is_valid(b: Seq<u8>)
    ensures
        datetime_from_bytes(b) matches Ok(dt) ==> dt.is_valid(),
{
    if b.len() >= 20 {
        lemma_number_field_bound(b.subrange(0, 4), true);
        lemma_number_field_bound(b.subrange(5, 7), false);
        lemma_number_field_bound(b.subrange(8, 10), false);
        lemma_number_field_bound(b.subrange(11, 13), false);
        lemma_number_field_bound(b.subrange(14, 16), false);
        lemma_number_field_bound(b.subrange(17, 19), false);
        reveal_with_fuel(pow10, 5);
        if b[19] == '.' as u8 {
            let end = digit_run_end(b, 20);
            lemma_digit_run(b, 20);
            if end != 20 {
                let k = if end - 20 < 9 { end - 20 } else { 9 };
                let f = b.subrange(20, 20 + k);
                assert(all_digits(f)) by {
                    assert forall|j: int| 0 <= j < f.len() implies is_digit_byte(#[trigger] f[j]) by {
                        assert(f[j] == b[20 + j]);
                    }
                }
                crate::text::lemma_digits_value_bound(f);
                crate::text::lemma_pow10_add(k as nat, (9 - k) as nat);
                crate::text::lemma_pow10_add((9 - k) as nat, 0);
                reveal_with_fuel(pow10, 10);
                let v = digits_value(f);
                assert(v * pow10((9 - k) as nat) < 1_000_000_000) by (nonlinear_arith)
                    requires
                        v < pow10(k as nat),
                        v >= 0,
                        pow10(k as nat) * pow10((9 - k) as nat) == 1_000_000_000,
                        pow10((9 - k) as nat) >= 1;
            }
        }
    }
}

/// Parses the ASCII bytes of a timestamp.
#[verifier::spinoff_prover]
#[verifier::rlimit(40)]
fn parse_bytes(b: &[u8]) -> (r: ParseResult<DateTime>)
    ensures
        r == datetime_from_bytes(b@),
{
    if b.len() < 20 {
        return Err(ParseError(ParseErrorKind::TooShort));
    }
    if b[10] != 'T' as u8 && b[10] != 't' as u8 && b[10] != ' ' as u8 {
        return Err(ParseError(ParseErrorKind::BadDateTimeSeparator));
    }
    if b[4] != '-' as u8 || b[7] != '-' as u8 {
        return Err(ParseError(ParseErrorKind::BadDateSeparator));
    }
    if b[13] != ':' as u8 || b[16] != ':' as u8 {
        return Err(ParseError(ParseErrorKind::BadTimeSeparator));
    }
    let year = match int_at(b, 0, 4, true) {
        Some(v) => v,
        None => return Err(ParseError(ParseErrorKind::BadYear)),
    };
    let month = match int_at(b, 5, 2, false) {
        Some(v) => v,
        None => return Err(ParseError(ParseErrorKind::BadMonth)),
    };
    let day = match int_at(b, 8, 2, false) {
        Some(v) => v,
        None => return Err(ParseError(ParseErrorKind::BadDay)),
    };
    let hour = match int_at(b, 11, 2, false) {
        Some(v) => v,
        None => return Err(ParseError(ParseErrorKind::BadHour)),
    };
    let minute = match int_at(b, 14, 2, false) {
        Some(v) => v,
        None => return Err(ParseError(ParseErrorKind::BadMinute)),
    };
    let second = match int_at(b, 17, 2, false) {
        Some(v) => v,
        None => return Err(ParseError(ParseErrorKind::BadSecond)),
    };
    proof {
        lemma_number_field_bound(b@.subrange(0, 4), true);
        lemma_number_field_bound(b@.subrange(5, 7), false);
        lemma_number_field_bound(b@.subrange(8, 10), false);
        lemma_number_field_bound(b@.subrange(11, 13), false);
        lemma_number_field_bound(b@.subrange(14, 16), false);
        lemma_number_field_bound(b@.subrange(17, 19), false);
        reveal_with_fuel(pow10, 5);
    }
    let month = month as u32;
    let day = day as u32;
    let hour = hour as u32;
    let minute = minute as u32;
    let second = second as u32;
    let (idx, nanosecond) = if b[19] == '.' as u8 {
        match parse_fraction(b) {
            Some(p) => p,
            None => return Err(ParseError(ParseErrorKind::MissingFractionDigits)),
        }
    } else {
        (19, 0)
    };
    let offset = match parse_offset_bytes(b, idx) {
        Ok(o) => o,
        Err(e) => return Err(e),
    };
    if month < 1 || month > 12 {
        return Err(ParseError(ParseErrorKind::MonthOutOfRange(month)));
    }
    let max_day = days_in_month(year, month);
    if day < 1 || day > max_day {
        return Err(ParseError(ParseErrorKind::DayOutOfRange { year, month, day }));
    }
    if hour > 23 {
        return Err(ParseError(ParseErrorKind::HourOutOfRange(hour)));
    }
    if minute > 59 {
        return Err(ParseError(ParseErrorKind::MinuteOutOfRange(minute)));
    }
    if second > 59 {
        return Err(ParseError(ParseErrorKind::SecondOutOfRange(second)));
    }
    Ok(DateTime { year, month, day, hour, minute, second, nanosecond, offset })
}

impl DateTime {
    /// Parses `YYYY-MM-DDTHH:MM:SS` (a space or `t` instead of `T` is also
    /// accepted), an optional `.` followed by fractional-second digits,
    /// then `Z`, `z` or a `+HH:MM` / `-HH:MM` offset, once surrounding
    /// whitespace is trimmed. A year before 0 is written `-YYY`, as it is
    /// printed. Every field is range-checked, including day-of-month against the
    /// length of that month in that year.
    /// Fractional digits beyond nanosecond precision are truncated rather
    /// than rejected.
    pub fn parse(s: &str) -> (r: ParseResult<DateTime>)
        ensures
            r == datetime_from_text(s@),
            r matches Ok(dt) ==> dt.is_valid(),
    {
        let t = trim(s);
        if !t.is_ascii() {
            return Err(ParseError(ParseErrorKind::NonAscii));
        }
        let b = t.as_bytes();
        proof {
            vstd::string::is_ascii_spec_bytes(t);
            assert(b@ =~= ascii_bytes(t@));
            lemma_parsed_is_valid(b@);
        }
        parse_bytes(b)
    }
}

/// Where the offset starts in the ASCII bytes `b` of a timestamp: after the
/// seconds, or after the digits of a fraction of a second.
pub open spec fn offset_start(b: Seq<u8>) -> int {
    if b[19] == '.' as u8 {
        digit_run_end(b, 20)
    } else {
        19
    }
}

/// The errors that reading an offset gives about its own text.
pub open spec fn is_offset_text_error(kind: ParseErrorKind) -> bool {
    ||| kind is BadOffset
    ||| kind is BadOffsetSign
    ||| kind is BadOffsetHours
    ||| kind is BadOffsetMinutes
}

/// The text that an error of kind `kind` from parsing the timestamp `s` is
/// about: the offset part of the trimmed timestamp where the offset's own
/// text was refused, else the whole trimmed timestamp.
pub open spec fn error_subject_text(s: Seq<char>, kind: ParseErrorKind) -> Seq<char> {
    let t = trimmed(s);
    if is_offset_text_error(kind) && vstd::utf8::is_ascii_chars(t) && t.len() >= 20 {
        t.subrange(offset_start(ascii_bytes(t)), t.len() as int)
    } else {
        t
    }
}

impl DateTime {
    /// The text that the error `e` from `DateTime::parse(s)` is about, for
    /// `ParseError::message`.
    pub fn error_subject<'a>(s: &'a str, e: &ParseError) -> (r: &'a str)
        ensures
            r@ == error_subject_text(s@, e.0),
    {
        let t = trim(s);
        let offset_error = match e.0 {
            ParseErrorKind::BadOffset => true,
            ParseErrorKind::BadOffsetSign => true,
            ParseErrorKind::BadOffsetHours => true,
            ParseErrorKind::BadOffsetMinutes => true,
            _ => false,
        };
        if !offset_error || !t.is_ascii() {
            return t;
        }
        let b = t.as_bytes();
        proof {
            vstd::string::is_ascii_spec_bytes(t);
            assert(b@ =~= ascii_bytes(t@));
        }
        if b.len() < 20 {
            return t;
        }
        let start: usize = if b[19] == '.' as u8 {
            match parse_fraction(b) {
                Some(p) => p.0,
                None => 20,
            }
        } else {
            19
        };
        t.substring_ascii(start, b.len())
    }
}

/// A year as `{:04}` prints it: at least four characters, zero-padded after
/// the sign.
pub open spec fn year_text(y: int) -> Seq<char> {
    if y < 0 {
        seq!['-'] + zero_padded((-y) as nat, 3)
    } else {
        zero_padded(y as nat, 4)
    }
}

/// Nanoseconds as a fraction of a second: nothing for zero, else `.` and
/// the nine-digit fraction without its trailing zeros.
pub open spec fn fraction_text(n: nat) -> Seq<char> {
    if n == 0 {
        Seq::empty()
    } else {
        seq!['.'] + strip_trailing_zeros(zero_padded(n, 9))
    }
}

/// The canonical text of a reading:
/// `YYYY-MM-DDTHH:MM:SS[.fraction]` and its offset.
pub open spec fn datetime_text(dt: DateTime) -> Seq<char> {
    year_text(dt.year as int) + seq!['-'] + zero_padded(dt.month as nat, 2) + seq!['-']
        + zero_padded(dt.day as nat, 2) + seq!['T'] + zero_padded(dt.hour as nat, 2) + seq![':']
        + zero_padded(dt.minute as nat, 2) + seq![':'] + zero_padded(dt.second as nat, 2)
        + fraction_text(dt.nanosecond as nat) + offset_text(dt.offset@)
}

impl DateTime {
    /// The canonical text of the reading, fraction of a second trimmed of
    /// trailing zeros and left out when zero.
    pub fn to_string(&self) -> (r: String)
        ensures
            r@ == datetime_text(*self),
    {
        let mut out = String::new();
        if self.year < 0 {
            out.push('-');
            push_zero_padded(&mut out, (-(self.year as i64)) as u64, 3);
        } else {
            push_zero_padded(&mut out, self.year as u64, 4);
        }
        out.push('-');
        push_zero_padded(&mut out, self.month as u64, 2);
        out.push('-');
        push_zero_padded(&mut out, self.day as u64, 2);
        out.push('T');
        push_zero_padded(&mut out, self.hour as u64, 2);
        out.push(':');
        push_zero_padded(&mut out, self.minute as u64, 2);
        out.push(':');
        push_zero_padded(&mut out, self.second as u64, 2);
        push_fraction(&mut out, self.nanosecond);
        push_offset(&mut out, self.offset);
        assert(out@ =~= datetime_text(*self));
        out
    }
}

proof fn lemma_digit_run_end_at(b: Seq<u8>, i: int, j: int)
    requires
        0 <= i <= j <= b.len(),
        forall|k: int| i <= k < j ==> is_digit_byte(#[trigger] b[k]),
        j == b.len() || !is_digit_byte(b[j]),
    ensures
        digit_run_end(b, i) == j,
    decreases j - i,
{
    if i < j {
        lemma_digit_run_end_at(b, i + 1, j);
    }
}

/// The fraction text of non-zero nanoseconds: a `.`, then between one and
/// nine digits that, scaled to nine places, give the nanoseconds back.
#[verifier::spinoff_prover]
#[verifier::rlimit(40)]
proof fn lemma_fraction_text(n: nat)
    requires
        0 < n < 1_000_000_000,
    ensures
        fraction_text(n).len() >= 2,
        fraction_text(n).len() <= 10,
        fraction_text(n)[0] == '.',
        all_digit_chars(fraction_text(n).drop_first()),
        digits_value(ascii_bytes(fraction_text(n).drop_first())) * pow10(
            (10 - fraction_text(n).len()) as nat,
        ) == n,
{
    reveal_with_fuel(pow10, 10);
    assert(pow10(9) == 1_000_000_000);
    let z = zero_padded(n, 9);
    lemma_zero_padded(n, 9);
    assert(z.len() == 9);
    assert(digits_value(ascii_bytes(z)) == n);
    lemma_strip_trailing_zeros(z);
    let st = strip_trailing_zeros(z);
    assert(fraction_text(n).drop_first() =~= st);
    assert(st.len() >= 1) by {
        if st.len() == 0 {
            assert(ascii_bytes(st) =~= Seq::<u8>::empty());
            assert(digits_value(ascii_bytes(st)) == 0);
            assert(digits_value(ascii_bytes(z)) == 0 * pow10(9));
        }
    }
    assert forall|i: int| 0 <= i < st.len() implies is_digit_char(#[trigger] st[i]) by {
        assert(st[i] == z[i]);
    }
}

/// The year of a reading's text is four ASCII characters, a `-` or a digit
/// first, that read back as the year.
proof fn lemma_year_text(y: int)
    requires
        -999 <= y <= 9999,
    ensures
        year_text(y).len() == 4,
        vstd::utf8::is_ascii_chars(year_text(y)),
        year_text(y)[0] == '-' || is_digit_char(year_text(y)[0]),
        number_field(ascii_bytes(year_text(y)), true) == Some(y),
{
    reveal_with_fuel(pow10, 5);
    let t = year_text(y);
    if y >= 0 {
        lemma_zero_padded(y as nat, 4);
        lemma_parsed_digits(ascii_bytes(t), true);
        assert forall|i: int| 0 <= i < t.len() implies '\0' <= #[trigger] t[i] <= '\u{7f}' by {
            assert(is_digit_char(t[i]));
        }
    } else {
        let z = zero_padded((-y) as nat, 3);
        lemma_zero_padded((-y) as nat, 3);
        let b = ascii_bytes(t);
        assert(b.drop_first() =~= ascii_bytes(z));
        assert forall|i: int| 0 <= i < t.len() implies '\0' <= #[trigger] t[i] <= '\u{7f}' by {
            if i > 0 {
                assert(t[i] == z[i - 1]);
                assert(is_digit_char(z[i - 1]));
            }
        }
    }
}

/// The first nineteen characters of a reading's text, `YYYY-MM-DDTHH:MM:SS`.
pub open spec fn clock_text(dt: DateTime) -> Seq<char> {
    year_text(dt.year as int) + seq!['-'] + zero_padded(dt.month as nat, 2) + seq!['-']
        + zero_padded(dt.day as nat, 2) + seq!['T'] + zero_padded(dt.hour as nat, 2) + seq![':']
        + zero_padded(dt.minute as nat, 2) + seq![':'] + zero_padded(dt.second as nat, 2)
}

/// The date and time part of a reading's text is nineteen ASCII characters
/// with the separators in place and fields that read back as the reading's.
#[verifier::spinoff_prover]
#[verifier::rlimit(40)]
proof fn lemma_clock_text(dt: DateTime)
    requires
        dt.is_valid(),
        -999 <= dt.year <= 9999,
    ensures
        clock_text(dt).len() == 19,
        vstd::utf8::is_ascii_chars(clock_text(dt)),
        !is_whitespace(clock_text(dt)[0]),
        ({
            let b = ascii_bytes(clock_text(dt));
            &&& b[4] == '-' as u8 && b[7] == '-' as u8 && b[10] == 'T' as u8
            &&& b[13] == ':' as u8 && b[16] == ':' as u8
            &&& number_field(b.subrange(0, 4), true) == Some(dt.year as int)
            &&& number_field(b.subrange(5, 7), false) == Some(dt.month as int)
            &&& number_field(b.subrange(8, 10), false) == Some(dt.day as int)
            &&& number_field(b.subrange(11, 13), false) == Some(dt.hour as int)
            &&& number_field(b.subrange(14, 16), false) == Some(dt.minute as int)
            &&& number_field(b.subrange(17, 19), false) == Some(dt.second as int)
        }),
{
    reveal_with_fuel(pow10, 5);
    let y = year_text(dt.year as int);
    let mo = zero_padded(dt.month as nat, 2);
    let d = zero_padded(dt.day as nat, 2);
    let h = zero_padded(dt.hour as nat, 2);
    let mi = zero_padded(dt.minute as nat, 2);
    let se = zero_padded(dt.second as nat, 2);
    lemma_year_text(dt.year as int);
    lemma_zero_padded(dt.month as nat, 2);
    lemma_zero_padded(dt.day as nat, 2);
    lemma_zero_padded(dt.hour as nat, 2);
    lemma_zero_padded(dt.minute as nat, 2);
    lemma_zero_padded(dt.second as nat, 2);
    lemma_parsed_digits(ascii_bytes(mo), false);
    lemma_parsed_digits(ascii_bytes(d), false);
    lemma_parsed_digits(ascii_bytes(h), false);
    lemma_parsed_digits(ascii_bytes(mi), false);
    lemma_parsed_digits(ascii_bytes(se), false);
    let t = clock_text(dt);
    assert(t.subrange(0, 4) =~= y);
    assert(t.subrange(5, 7) =~= mo);
    assert(t.subrange(8, 10) =~= d);
    assert(t.subrange(11, 13) =~= h);
    assert(t.subrange(14, 16) =~= mi);
    assert(t.subrange(17, 19) =~= se);
    lemma_ascii_bytes_subrange(t, 0, 4);
    lemma_ascii_bytes_subrange(t, 5, 7);
    lemma_ascii_bytes_subrange(t, 8, 10);
    lemma_ascii_bytes_subrange(t, 11, 13);
    lemma_ascii_bytes_subrange(t, 14, 16);
    lemma_ascii_bytes_subrange(t, 17, 19);
    assert(t[0] == y[0]);
    assert forall|i: int| 0 <= i < t.len() implies '\0' <= #[trigger] t[i] <= '\u{7f}' by {
        if i < 4 {
            assert(t[i] == y[i]);
        } else if 5 <= i < 7 {
            assert(t[i] == mo[i - 5]);
        } else if 8 <= i < 10 {
            assert(t[i] == d[i - 8]);
        } else if 11 <= i < 13 {
            assert(t[i] == h[i - 11]);
        } else if 14 <= i < 16 {
            assert(t[i] == mi[i - 14]);
        } else if 17 <= i < 19 {
            assert(t[i] == se[i - 17]);
        }
    }
}

/// The nanoseconds that the fraction digits `ds` give: the first nine of
/// them, scaled to nine places.
pub open spec fn fraction_of_digits(ds: Seq<char>) -> int {
    let k = if ds.len() < 9 { ds.len() as int } else { 9 };
    (digits_value(ascii_bytes(ds.take(k))) * pow10((9 - k) as nat)) as int
}

/// A reading's date and time, then `.` and digits, then its offset, parses
/// as the reading with the fraction that the digits give.
#[verifier::spinoff_prover]
#[verifier::rlimit(60)]
pub(crate) proof fn lemma_parse_with_fraction(dt: DateTime, ds: Seq<char>)
    requires
        dt.is_valid(),
        -999 <= dt.year <= 9999,
        MIN_OFFSET_MINUTES <= dt.offset@ <= MAX_OFFSET_MINUTES,
        ds.len() > 0,
        all_digit_chars(ds),
    ensures
        0 <= fraction_of_digits(ds) < 1_000_000_000,
        datetime_from_text(clock_text(dt) + seq!['.'] + ds + offset_text(dt.offset@)) == Ok::<
            DateTime,
            ParseError,
        >(with_nanosecond(dt, fraction_of_digits(ds) as u32)),
{
    let p = clock_text(dt);
    let o = offset_text(dt.offset@);
    let f = seq!['.'] + ds;
    let t = p + seq!['.'] + ds + o;
    lemma_clock_text(dt);
    lemma_offset_text(dt.offset);
    assert(t =~= p + f + o);
    assert(t[0] == p[0]);
    assert(t.last() == o.last());
    assert(!is_whitespace(o.last()));
    lemma_trimmed_unchanged(t);
    assert(vstd::utf8::is_ascii_chars(t)) by {
        assert forall|i: int| 0 <= i < t.len() implies '\0' <= #[trigger] t[i] <= '\u{7f}' by {
            if i >= 20 + ds.len() {
                assert(t[i] == o[i - 20 - ds.len()]);
            } else if i >= 20 {
                assert(t[i] == ds[i - 20]);
                assert(is_digit_char(ds[i - 20]));
            } else if i < 19 {
                assert(t[i] == p[i]);
            }
        }
    }
    let b = ascii_bytes(t);
    let pb = ascii_bytes(p);
    assert(b.subrange(0, 19) =~= pb);
    assert(b.subrange(0, 4) =~= pb.subrange(0, 4));
    assert(b.subrange(5, 7) =~= pb.subrange(5, 7));
    assert(b.subrange(8, 10) =~= pb.subrange(8, 10));
    assert(b.subrange(11, 13) =~= pb.subrange(11, 13));
    assert(b.subrange(14, 16) =~= pb.subrange(14, 16));
    assert(b.subrange(17, 19) =~= pb.subrange(17, 19));
    assert(b[19] == '.' as u8);
    let end: int = 20 + ds.len() as int;
    assert forall|j: int| 20 <= j < end implies is_digit_byte(#[trigger] b[j]) by {
        assert(b[j] == ds[j - 20] as u8);
        assert(is_digit_char(ds[j - 20]));
    }
    assert(b[end] == o[0] as u8);
    lemma_digit_run_end_at(b, 20, end);
    assert(b.subrange(end, b.len() as int) =~= ascii_bytes(o));
    let k = if ds.len() < 9 { ds.len() as int } else { 9 };
    assert(b.subrange(20, 20 + k) =~= ascii_bytes(ds.take(k)));
    let fb = ascii_bytes(ds.take(k));
    assert(all_digits(fb)) by {
        assert forall|j: int| 0 <= j < fb.len() implies is_digit_byte(#[trigger] fb[j]) by {
            assert(fb[j] == b[20 + j]);
        }
    }
    crate::text::lemma_digits_value_bound(fb);
    crate::text::lemma_pow10_add(k as nat, (9 - k) as nat);
    reveal_with_fuel(pow10, 10);
    let v = digits_value(fb);
    assert(v * pow10((9 - k) as nat) < 1_000_000_000) by (nonlinear_arith)
        requires
            v < pow10(k as nat),
            v >= 0,
            pow10(k as nat) * pow10((9 - k) as nat) == 1_000_000_000,
            pow10((9 - k) as nat) >= 1;
    assert(fraction_nanos(b, end) == fraction_of_digits(ds));
}

/// A reading's date and time with `T`, `t` or a space between them, then
/// any text that reads as its offset, parses as the reading without a
/// fraction of a second.
#[verifier::spinoff_prover]
#[verifier::rlimit(60)]
pub(crate) proof fn lemma_parse_spelled(dt: DateTime, sep: char, o: Seq<char>)
    requires
        dt.is_valid(),
        -999 <= dt.year <= 9999,
        MIN_OFFSET_MINUTES <= dt.offset@ <= MAX_OFFSET_MINUTES,
        sep == 'T' || sep == 't' || sep == ' ',
        vstd::utf8::is_ascii_chars(o),
        offset_from_bytes(ascii_bytes(o)) == Ok::<Offset, ParseError>(dt.offset),
    ensures
        datetime_from_text(clock_text(dt).update(10, sep) + o) == Ok::<DateTime, ParseError>(
            with_nanosecond(dt, 0),
        ),
{
    let p = clock_text(dt);
    lemma_clock_text(dt);
    let q = p.update(10, sep);
    let t = q + o;
    let ob = ascii_bytes(o);
    assert(o.len() > 0 && o[0] != '.' && !is_whitespace(o.last())) by {
        if ob == seq!['Z' as u8] || ob == seq!['z' as u8] {
            assert(o.len() == 1);
            assert(ob[0] == o[0] as u8);
        } else {
            assert(ob.len() == 6);
            assert(ob[0] == o[0] as u8);
            assert(number_field(ob.subrange(4, 6), false) is Some);
            assert(is_digit_byte(ob.subrange(4, 6)[1]));
            assert(ob[5] == o[5] as u8);
        }
    }
    assert(t[0] == p[0]);
    assert(t.last() == o.last());
    lemma_trimmed_unchanged(t);
    assert(vstd::utf8::is_ascii_chars(t)) by {
        assert forall|i: int| 0 <= i < t.len() implies '\0' <= #[trigger] t[i] <= '\u{7f}' by {
            if i >= 19 {
                assert(t[i] == o[i - 19]);
            } else if i != 10 {
                assert(t[i] == p[i]);
            }
        }
    }
    let b = ascii_bytes(t);
    let pb = ascii_bytes(p);
    assert(b.subrange(0, 4) =~= pb.subrange(0, 4));
    assert(b.subrange(5, 7) =~= pb.subrange(5, 7));
    assert(b.subrange(8, 10) =~= pb.subrange(8, 10));
    assert(b.subrange(11, 13) =~= pb.subrange(11, 13));
    assert(b.subrange(14, 16) =~= pb.subrange(14, 16));
    assert(b.subrange(17, 19) =~= pb.subrange(17, 19));
    assert(b[4] == pb[4] && b[7] == pb[7] && b[13] == pb[13] && b[16] == pb[16]);
    assert(b[10] == sep as u8);
    assert(b[19] == o[0] as u8);
    assert(b.subrange(19, b.len() as int) =~= ob);
}

/// A valid reading with a year in -999..=9999 prints as text that parses
/// back to the same reading.
#[verifier::spinoff_prover]
#[verifier::rlimit(40)]
pub(crate) proof fn lemma_datetime_text_round_trip(dt: DateTime)
    requires
        dt.is_valid(),
        -999 <= dt.year <= 9999,
        MIN_OFFSET_MINUTES <= dt.offset@ <= MAX_OFFSET_MINUTES,
    ensures
        datetime_from_text(datetime_text(dt)) == Ok::<DateTime, ParseError>(dt),
{
    let p = clock_text(dt);
    let f = fraction_text(dt.nanosecond as nat);
    let o = offset_text(dt.offset@);
    lemma_clock_text(dt);
    lemma_offset_text(dt.offset);
    let t = datetime_text(dt);
    assert(t =~= p + f + o);
    if dt.nanosecond != 0 {
        lemma_fraction_text(dt.nanosecond as nat);
    } else {
        assert(f =~= Seq::<char>::empty());
    }
    assert(t[0] == p[0]);
    assert(t.last() == o.last());
    lemma_trimmed_unchanged(t);
    assert(vstd::utf8::is_ascii_chars(t)) by {
        assert forall|i: int| 0 <= i < t.len() implies '\0' <= #[trigger] t[i] <= '\u{7f}' by {
            if i >= 19 + f.len() {
                assert(t[i] == o[i - 19 - f.len()]);
            } else if i > 19 {
                assert(t[i] == f.drop_first()[i - 20]);
            } else if i < 19 {
                assert(t[i] == p[i]);
            }
        }
    }
    let b = ascii_bytes(t);
    let pb = ascii_bytes(p);
    assert(b.subrange(0, 19) =~= pb);
    assert(b.subrange(0, 4) =~= pb.subrange(0, 4));
    assert(b.subrange(5, 7) =~= pb.subrange(5, 7));
    assert(b.subrange(8, 10) =~= pb.subrange(8, 10));
    assert(b.subrange(11, 13) =~= pb.subrange(11, 13));
    assert(b.subrange(14, 16) =~= pb.subrange(14, 16));
    assert(b.subrange(17, 19) =~= pb.subrange(17, 19));
    let idx: int = 19 + f.len() as int;
    assert(b.subrange(idx, b.len() as int) =~= ascii_bytes(o));
    if dt.nanosecond != 0 {
        let k = f.len() - 1;
        let fd = f.drop_first();
        assert(b.subrange(20, 20 + k) =~= ascii_bytes(fd));
        assert forall|j: int| 20 <= j < 20 + k implies is_digit_byte(#[trigger] b[j]) by {
            assert(b[j] == fd[j - 20] as u8);
            assert(is_digit_char(fd[j - 20]));
        }
        assert(b[20 + k] == o[0] as u8);
        lemma_digit_run_end_at(b, 20, 20 + k);
        assert(fraction_nanos(b, 20 + k) == dt.nanosecond);
    } else {
        assert(b[19] == o[0] as u8);
    }
}

} // verus!
