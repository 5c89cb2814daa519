//! What holds across the library's operations: instants survive offset
//! changes and additions, readings survive a trip through instants and
//! through text, and what the parsers, the trimming and a batch run give
//! for every well-formed input.

use vstd::prelude::*;
use crate::calendar::{
    algorithm_days, civil_date_of_day, civil_days, is_valid_date, lemma_algorithm_days_exact,
    lemma_civil_date_of_day, lemma_civil_date_round_trip, lemma_days_before_month,
    lemma_days_before_year_step, march_month_start, month_length, next_date,
};
use crate::datetime::{
    clock_text, datetime_from_text, datetime_text, lemma_datetime_text_round_trip,
    lemma_parse_spelled, lemma_parse_with_fraction, reading_at, with_nanosecond, DateTime,
};
use crate::duration::{
    components_text, components_total, duration_body, duration_from_text, duration_text,
    is_component, lemma_duration_text_round_trip, lemma_scan_components, lemma_scan_parts,
};
use crate::batch::joined_lines;
use crate::commands::instant_fits;
use crate::error::{ParseError, ParseErrorKind};
use crate::text::{
    all_digit_chars, ascii_bytes, digit_char, digits_value, is_whitespace, lemma_trimmed_around,
    lemma_trimmed_unchanged, lemma_zeros_value, number_field, pow10, trimmed,
};
use crate::offset::{
    lemma_offset_text, offset_from_text, offset_text, Offset, MAX_OFFSET_MINUTES, MIN_OFFSET_MINUTES,
};

verus! {

/// Whether the civil year of the reading at instant `epoch` under `offset`
/// fits in an `i32`, as a `DateTime` year must.
pub open spec fn reading_year_fits(epoch: int, offset: Offset) -> bool {
    let y = civil_date_of_day((epoch + offset@ * 60) / 86400).0;
    i32::MIN <= y <= i32::MAX
}

/// A second of the day splits into hours, minutes and seconds.
proof fn lemma_split_second_of_day(sod: int)
    requires
        0 <= sod < 86400,
    ensures
        0 <= sod / 3600 <= 23,
        0 <= sod / 60 % 60 <= 59,
        0 <= sod % 60 <= 59,
        (sod / 3600) * 3600 + (sod / 60 % 60) * 60 + sod % 60 == sod,
{
}

/// An instant splits into a day and a second of that day.
proof fn lemma_split_instant(local: int)
    ensures
        0 <= local % 86400 < 86400,
        (local / 86400) * 86400 + local % 86400 == local,
{
}

/// The reading that a clock set to `offset` shows at an instant is a valid
/// date and time, and it names that instant again.
#[verifier::spinoff_prover]
#[verifier::rlimit(40)]
pub proof fn law_reading_names_its_instant(epoch: int, offset: Offset)
    requires
        reading_year_fits(epoch, offset),
    ensures
        reading_at(epoch, offset).is_valid(),
        reading_at(epoch, offset).epoch_seconds() == epoch,
        reading_at(epoch, offset).instant() == epoch,
{
    let local = epoch + offset@ * 60;
    let days = local / 86400;
    let sod = local % 86400;
    lemma_split_instant(local);
    lemma_split_second_of_day(sod);
    lemma_civil_date_of_day(days);
    let date = civil_date_of_day(days);
    let r = reading_at(epoch, offset);
    assert(r.year as int == date.0);
    assert(r.month as int == date.1);
    assert(r.day as int == date.2);
    assert(r.second_of_day() == sod);
    lemma_algorithm_days_exact(date.0, date.1, date.2);
}

/// A valid reading is what a clock set to its own offset shows at the
/// instant it names, fraction of a second aside.
#[verifier::spinoff_prover]
#[verifier::rlimit(40)]
pub proof fn law_valid_reading_round_trip(dt: DateTime)
    requires
        dt.is_valid(),
    ensures
        with_nanosecond(reading_at(dt.epoch_seconds(), dt.offset), dt.nanosecond) == dt,
{
    let y = dt.year as int;
    let m = dt.month as int;
    let d = dt.day as int;
    lemma_algorithm_days_exact(y, m, d);
    lemma_civil_date_round_trip(y, m, d);
    let days = civil_days(y, m, d);
    let sod = dt.second_of_day();
    let local = dt.epoch_seconds() + dt.offset@ * 60;
    assert(local == days * 86400 + sod);
    assert(0 <= sod < 86400);
    assert(local / 86400 == days);
    assert(local % 86400 == sod);
    let r = with_nanosecond(reading_at(dt.epoch_seconds(), dt.offset), dt.nanosecond);
    assert(r.hour == dt.hour);
    assert(r.minute == dt.minute);
    assert(r.second == dt.second);
}

/// Re-expressing a reading under another offset keeps the instant it names.
pub proof fn law_with_offset_keeps_instant(dt: DateTime, offset: Offset)
    requires
        reading_year_fits(dt.epoch_seconds(), offset),
    ensures
        with_nanosecond(reading_at(dt.epoch_seconds(), offset), dt.nanosecond).epoch_seconds()
            == dt.epoch_seconds(),
        with_nanosecond(reading_at(dt.epoch_seconds(), offset), dt.nanosecond).offset == offset,
        with_nanosecond(reading_at(dt.epoch_seconds(), offset), dt.nanosecond).nanosecond
            == dt.nanosecond,
{
    law_reading_names_its_instant(dt.epoch_seconds(), offset);
}

/// Adding seconds moves the instant by exactly that many seconds and keeps
/// the offset and the fraction of a second.
pub proof fn law_add_seconds_moves_instant(dt: DateTime, delta: int)
    requires
        reading_year_fits(dt.epoch_seconds() + delta, dt.offset),
    ensures
        with_nanosecond(
            reading_at(dt.epoch_seconds() + delta, dt.offset),
            dt.nanosecond,
        ).epoch_seconds() == dt.epoch_seconds() + delta,
        with_nanosecond(reading_at(dt.epoch_seconds() + delta, dt.offset), dt.nanosecond).offset
            == dt.offset,
        with_nanosecond(
            reading_at(dt.epoch_seconds() + delta, dt.offset),
            dt.nanosecond,
        ).nanosecond == dt.nanosecond,
{
    law_reading_names_its_instant(dt.epoch_seconds() + delta, dt.offset);
}

/// Adding `a` seconds and then `b` is adding `a + b`.
pub proof fn law_add_seconds_compose(dt: DateTime, a: int, b: int)
    requires
        reading_year_fits(dt.epoch_seconds() + a, dt.offset),
    ensures
        ({
            let once = with_nanosecond(reading_at(dt.epoch_seconds() + a, dt.offset), dt.nanosecond);
            with_nanosecond(reading_at(once.epoch_seconds() + b, once.offset), once.nanosecond)
                == with_nanosecond(reading_at(dt.epoch_seconds() + (a + b), dt.offset), dt.nanosecond)
        }),
{
    law_add_seconds_moves_instant(dt, a);
    let once = with_nanosecond(reading_at(dt.epoch_seconds() + a, dt.offset), dt.nanosecond);
    assert(once.epoch_seconds() + b == dt.epoch_seconds() + (a + b));
}

/// Converting to one offset and then another is converting to the second.
pub proof fn law_with_offset_compose(dt: DateTime, first: Offset, second: Offset)
    requires
        reading_year_fits(dt.epoch_seconds(), first),
    ensures
        ({
            let once = with_nanosecond(reading_at(dt.epoch_seconds(), first), dt.nanosecond);
            with_nanosecond(reading_at(once.epoch_seconds(), second), once.nanosecond)
                == with_nanosecond(reading_at(dt.epoch_seconds(), second), dt.nanosecond)
        }),
{
    law_with_offset_keeps_instant(dt, first);
}

/// An offset's canonical text parses back to that offset.
pub proof fn law_offset_text_round_trip(offset: Offset)
    requires
        MIN_OFFSET_MINUTES <= offset@ <= MAX_OFFSET_MINUTES,
    ensures
        offset_from_text(offset_text(offset@)) == Ok::<Offset, ParseError>(offset),
{
    lemma_offset_text(offset);
}

/// A valid reading whose year prints in four characters (-999..=9999)
/// prints as text that parses back to the same reading: printing
/// normalizes, parsing loses nothing.
pub proof fn law_text_round_trip(dt: DateTime)
    requires
        dt.is_valid(),
        -999 <= dt.year <= 9999,
        MIN_OFFSET_MINUTES <= dt.offset@ <= MAX_OFFSET_MINUTES,
    ensures
        datetime_from_text(datetime_text(dt)) == Ok::<DateTime, ParseError>(dt),
{
    lemma_datetime_text_round_trip(dt);
}

/// Every number of seconds but `i64::MIN` is written by `format_duration`
/// as text that `parse_duration` reads back as that number.
pub proof fn law_duration_text_round_trip(seconds: i64)
    requires
        seconds != i64::MIN,
    ensures
        duration_from_text(duration_text(seconds as int)) == Ok::<i64, ParseError>(seconds),
{
    lemma_duration_text_round_trip(seconds as int);
}

/// A duration's text that, trimmed and stripped of a leading `+` or `-`,
/// is one or more components, each decimal digits then a unit `d`, `h`,
/// `m` or `s` (units may repeat and come in any order), reads as the sum
/// of the components' seconds, negated after a `-`; where that sum does
/// not fit in 64-bit seconds it is refused as a bad number.
pub proof fn law_duration_components(s: Seq<char>, parts: Seq<(Seq<char>, char)>)
    requires
        parts.len() > 0,
        forall|i: int| 0 <= i < parts.len() ==> is_component(#[trigger] parts[i]),
        duration_body(trimmed(s)) == components_text(parts),
    ensures
        duration_from_text(s) == (if components_total(parts) > i64::MAX {
            Err(ParseError(ParseErrorKind::BadNumber))
        } else if trimmed(s)[0] == '-' {
            Ok((-components_total(parts)) as i64)
        } else {
            Ok(components_total(parts) as i64)
        }),
{
    lemma_scan_components(parts);
}

/// A duration's text that reads as a number of seconds is, trimmed and
/// stripped of a leading `+` or `-`, one or more components whose seconds
/// add up within 64-bit seconds.
pub proof fn law_duration_reads_only_components(s: Seq<char>)
    requires
        duration_from_text(s) is Ok,
    ensures
        exists|parts: Seq<(Seq<char>, char)>|
            #![trigger components_text(parts)]
            {
                &&& parts.len() > 0
                &&& forall|i: int| 0 <= i < parts.len() ==> is_component(#[trigger] parts[i])
                &&& duration_body(trimmed(s)) == components_text(parts)
                &&& components_total(parts) <= i64::MAX
            },
{
    let body = duration_body(trimmed(s));
    let (parts, ds) = lemma_scan_parts(body);
    assert(ds.len() == 0);
    assert(body =~= components_text(parts));
    lemma_scan_components(parts);
    assert(parts.len() > 0);
}

/// Days are counted from 1970-01-01, which is day 0, and the day after a
/// valid date is a valid date counted one more: by the year-by-year count
/// and by the closed-form algorithm that `days_from_civil` runs alike.
pub proof fn law_day_count_steps(y: int, m: int, d: int)
    requires
        is_valid_date(y, m, d),
    ensures
        civil_days(1970, 1, 1) == 0,
        algorithm_days(1970, 1, 1) == 0,
        is_valid_date(next_date(y, m, d).0, next_date(y, m, d).1, next_date(y, m, d).2),
        civil_days(next_date(y, m, d).0, next_date(y, m, d).1, next_date(y, m, d).2)
            == civil_days(y, m, d) + 1,
        algorithm_days(next_date(y, m, d).0, next_date(y, m, d).1, next_date(y, m, d).2)
            == algorithm_days(y, m, d) + 1,
{
    let (y2, m2, d2) = next_date(y, m, d);
    lemma_algorithm_days_exact(1970, 1, 1);
    lemma_algorithm_days_exact(y, m, d);
    lemma_algorithm_days_exact(y2, m2, d2);
    lemma_days_before_month(y, m);
    lemma_days_before_month(y2, m2);
    lemma_days_before_year_step(y);
    if d == month_length(y, m) && m == 12 {
        assert(march_month_start(9) == 275);
    }
}

/// Moving a reading to an instant fails exactly when the instant, or the
/// instant shifted by the reading's offset, leaves 64-bit seconds: so
/// every instant within 64-bit seconds, 14 hours from either end, is
/// reached under every offset, before 1970 as after it.
pub proof fn law_instant_fits(epoch: int, offset: Offset)
    requires
        MIN_OFFSET_MINUTES <= offset@ <= MAX_OFFSET_MINUTES,
    ensures
        instant_fits(epoch, offset) <==> (-0x8000_0000_0000_0000 <= epoch
            <= 0x7fff_ffff_ffff_ffff && -0x8000_0000_0000_0000 <= epoch + offset@ * 60
            <= 0x7fff_ffff_ffff_ffff),
        -0x8000_0000_0000_0000 + 50_400 <= epoch <= 0x7fff_ffff_ffff_ffff - 50_400
            ==> instant_fits(epoch, offset),
{
}

/// The total length of the texts `rs`.
pub open spec fn total_length(rs: Seq<Seq<char>>) -> int
    decreases rs.len(),
{
    if rs.len() == 0 {
        0
    } else {
        total_length(rs.drop_last()) + rs.last().len()
    }
}

/// A batch run's output of one result is that result, and its output of
/// several splits, after any of them, into the output of those before, a
/// newline, and the output of those after.
pub proof fn law_joined_lines_split(rs: Seq<Seq<char>>, k: int)
    requires
        1 <= k < rs.len(),
    ensures
        joined_lines(seq![rs[0]]) == rs[0],
        joined_lines(rs) == joined_lines(rs.take(k)) + seq!['\n'] + joined_lines(rs.skip(k)),
    decreases rs.len(),
{
    if k == rs.len() - 1 {
        assert(rs.take(k) =~= rs.drop_last());
        assert(rs.skip(k) =~= seq![rs.last()]);
    } else {
        let d = rs.drop_last();
        law_joined_lines_split(d, k);
        assert(d.take(k) =~= rs.take(k));
        let t = rs.skip(k);
        assert(t.drop_last() =~= d.skip(k));
        assert(t.last() == rs.last());
    }
}

/// A batch run's output of `n >= 1` results is as long as the results
/// together, plus `n - 1` newlines.
pub proof fn law_joined_lines_length(rs: Seq<Seq<char>>)
    requires
        rs.len() >= 1,
    ensures
        joined_lines(rs).len() == total_length(rs) + rs.len() - 1,
    decreases rs.len(),
{
    if rs.len() == 1 {
        assert(rs.drop_last() =~= Seq::<Seq<char>>::empty());
        assert(total_length(rs.drop_last()) == 0);
        assert(rs.last() == rs[0]);
    } else {
        law_joined_lines_length(rs.drop_last());
    }
}

/// The characters with the Unicode `White_Space` property, one by one:
/// tab, line feed, vertical tab, form feed, carriage return, space, next
/// line, no-break space, ogham space mark, the eleven spaces from en quad
/// to hair space, line and paragraph separators, narrow no-break space,
/// medium mathematical space and ideographic space.
pub open spec fn is_listed_white_space(c: char) -> bool {
    ||| c == '\u{9}' || c == '\u{a}' || c == '\u{b}' || c == '\u{c}' || c == '\u{d}'
    ||| c == '\u{20}' || c == '\u{85}' || c == '\u{a0}' || c == '\u{1680}'
    ||| c == '\u{2000}' || c == '\u{2001}' || c == '\u{2002}' || c == '\u{2003}'
    ||| c == '\u{2004}' || c == '\u{2005}' || c == '\u{2006}' || c == '\u{2007}'
    ||| c == '\u{2008}' || c == '\u{2009}' || c == '\u{200a}'
    ||| c == '\u{2028}' || c == '\u{2029}' || c == '\u{202f}' || c == '\u{205f}'
    ||| c == '\u{3000}'
}

proof fn lemma_white_space_listed(c: char)
    ensures
        is_whitespace(c) <==> is_listed_white_space(c),
{
}

/// Text with any run of `White_Space` characters (line endings `\r` and
/// `\n` among them) before and after it trims, reads as a duration and
/// reads as a timestamp exactly as the text alone does.
pub proof fn law_white_space_is_trimmed(w1: Seq<char>, s: Seq<char>, w2: Seq<char>)
    requires
        forall|i: int| 0 <= i < w1.len() ==> is_listed_white_space(#[trigger] w1[i]),
        forall|i: int| 0 <= i < w2.len() ==> is_listed_white_space(#[trigger] w2[i]),
    ensures
        trimmed(w1 + s + w2) == trimmed(s),
        duration_from_text(w1 + s + w2) == duration_from_text(s),
        crate::datetime::datetime_from_text(w1 + s + w2) == crate::datetime::datetime_from_text(s),
{
    assert forall|i: int| 0 <= i < w1.len() implies is_whitespace(#[trigger] w1[i]) by {
        lemma_white_space_listed(w1[i]);
    }
    assert forall|i: int| 0 <= i < w2.len() implies is_whitespace(#[trigger] w2[i]) by {
        lemma_white_space_listed(w2[i]);
    }
    lemma_trimmed_around(w1, s, w2);
}

/// Text that neither starts nor ends with a `White_Space` character is
/// left as it is by trimming.
pub proof fn law_trim_keeps_other_characters(s: Seq<char>)
    requires
        s.len() > 0,
        !is_listed_white_space(s[0]),
        !is_listed_white_space(s.last()),
    ensures
        trimmed(s) == s,
{
    lemma_white_space_listed(s[0]);
    lemma_white_space_listed(s.last());
    lemma_trimmed_unchanged(s);
}

/// The two digits of a number below 100, a leading zero included.
pub open spec fn two_digits(n: nat) -> Seq<char> {
    seq![digit_char((n / 10) as int), digit_char((n % 10) as int)]
}

/// Two digits read back as the number they write.
proof fn lemma_two_digits(n: nat)
    requires
        n <= 99,
    ensures
        number_field(ascii_bytes(two_digits(n)), false) == Some(n as int),
{
    let t = two_digits(n);
    let b = ascii_bytes(t);
    assert(t[0] as int == n / 10 + 48);
    assert(t[1] as int == n % 10 + 48);
    assert(b[0] == n / 10 + 48);
    assert(b[1] == n % 10 + 48);
    let d = b.drop_last();
    assert(d.len() == 1 && d.last() == b[0]);
    assert(d.drop_last() =~= Seq::<u8>::empty());
    assert(digits_value(d.drop_last()) == 0);
    assert(digits_value(d) == n / 10);
    assert(digits_value(b) == n);
}

/// `+HH:MM` or `-HH:MM`, with two digits each and minutes up to 59, reads
/// as the offset of `HH * 60 + MM` minutes east (west after `-`) where that
/// lies within -12:00..=+14:00, and is refused as out of range elsewhere.
/// So `+00:00` and `-00:00` read as UTC, as `Z` does.
pub proof fn law_offset_fields(negative: bool, hh: nat, mm: nat)
    requires
        hh <= 99,
        mm <= 59,
    ensures
        ({
            let text = seq![if negative { '-' } else { '+' }] + two_digits(hh) + seq![':']
                + two_digits(mm);
            let m: int = if negative { -(hh * 60 + mm) } else { (hh * 60 + mm) as int };
            &&& offset_from_text(text) == (if MIN_OFFSET_MINUTES <= m <= MAX_OFFSET_MINUTES {
                Ok::<Offset, ParseError>(Offset::of_minutes(m))
            } else {
                Err(ParseError(ParseErrorKind::OffsetOutOfRange(m as i32)))
            })
            &&& MIN_OFFSET_MINUTES <= m <= MAX_OFFSET_MINUTES ==> Offset::of_minutes(m)@ == m
            &&& (hh == 0 && mm == 0) ==> offset_from_text(text) == offset_from_text(seq!['Z'])
        }),
{
    let h = two_digits(hh);
    let mi = two_digits(mm);
    let text = seq![if negative { '-' } else { '+' }] + h + seq![':'] + mi;
    let b = ascii_bytes(text);
    lemma_two_digits(hh);
    lemma_two_digits(mm);
    assert(vstd::utf8::is_ascii_chars(text));
    assert(b.subrange(1, 3) =~= ascii_bytes(h));
    assert(b.subrange(4, 6) =~= ascii_bytes(mi));
    assert(!(b == seq!['Z' as u8] || b == seq!['z' as u8])) by {
        if b == seq!['Z' as u8] || b == seq!['z' as u8] {
            assert(b.len() == 1);
        }
    }
    assert(ascii_bytes(seq!['Z']) =~= seq!['Z' as u8]);
    let m: int = if negative { -(hh * 60 + mm) } else { (hh * 60 + mm) as int };
    if MIN_OFFSET_MINUTES <= m <= MAX_OFFSET_MINUTES {
        Offset::lemma_of_minutes(m);
    }
}

/// A valid reading's date and time, then `.` and one or more digits, then
/// its offset, parses as that reading with the first nine digits, scaled
/// to nine places, as its fraction of a second. So a fraction of zeros
/// only, of any length, parses as the same text without the fraction.
pub proof fn law_fraction_digits(dt: DateTime, ds: Seq<char>)
    requires
        dt.is_valid(),
        -999 <= dt.year <= 9999,
        MIN_OFFSET_MINUTES <= dt.offset@ <= MAX_OFFSET_MINUTES,
        ds.len() > 0,
        all_digit_chars(ds),
    ensures
        ({
            let k = if ds.len() < 9 { ds.len() as int } else { 9 };
            let n = digits_value(ascii_bytes(ds.take(k))) * pow10((9 - k) as nat);
            &&& n < 1_000_000_000
            &&& datetime_from_text(clock_text(dt) + seq!['.'] + ds + offset_text(dt.offset@))
                == Ok::<DateTime, ParseError>(with_nanosecond(dt, n as u32))
        }),
        (forall|i: int| 0 <= i < ds.len() ==> ds[i] == '0') ==> datetime_from_text(
            clock_text(dt) + seq!['.'] + ds + offset_text(dt.offset@),
        ) == datetime_from_text(clock_text(dt) + offset_text(dt.offset@)),
{
    lemma_parse_with_fraction(dt, ds);
    if forall|i: int| 0 <= i < ds.len() ==> ds[i] == '0' {
        let k = if ds.len() < 9 { ds.len() as int } else { 9 };
        let z = ascii_bytes(ds.take(k));
        assert forall|i: int| 0 <= i < z.len() implies #[trigger] z[i] == 48 by {
            assert(ds[i] == '0');
        }
        lemma_zeros_value(z);
        let d0 = with_nanosecond(dt, 0);
        lemma_datetime_text_round_trip(d0);
        assert(datetime_text(d0) =~= clock_text(dt) + offset_text(dt.offset@));
    }
}

/// A valid reading's date and time, with `T`, `t` or a space between
/// them, followed by any text that reads as its offset (`Z`, `z`, `+00:00`
/// and `-00:00` alike for UTC), parses as that reading without a fraction
/// of a second.
pub proof fn law_timestamp_spellings(dt: DateTime, sep: char, o: Seq<char>)
    requires
        dt.is_valid(),
        -999 <= dt.year <= 9999,
        MIN_OFFSET_MINUTES <= dt.offset@ <= MAX_OFFSET_MINUTES,
        sep == 'T' || sep == 't' || sep == ' ',
        offset_from_text(o) == Ok::<Offset, ParseError>(dt.offset),
    ensures
        datetime_from_text(clock_text(dt).update(10, sep) + o) == Ok::<DateTime, ParseError>(
            with_nanosecond(dt, 0),
        ),
{
    lemma_parse_spelled(dt, sep, o);
}

/// `Z` and `z` both read as UTC, the offset of 0 minutes.
pub proof fn law_offset_utc_letters()
    ensures
        offset_from_text(seq!['Z']) == Ok::<Offset, ParseError>(Offset::of_minutes(0)),
        offset_from_text(seq!['z']) == Ok::<Offset, ParseError>(Offset::of_minutes(0)),
        Offset::of_minutes(0)@ == 0,
{
    assert(ascii_bytes(seq!['Z']) =~= seq!['Z' as u8]);
    assert(ascii_bytes(seq!['z']) =~= seq!['z' as u8]);
    Offset::lemma_of_minutes(0);
}

} // verus!
