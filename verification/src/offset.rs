//! Fixed UTC offsets, stored as signed minutes.

use vstd::prelude::*;
use crate::error::{ParseError, ParseErrorKind, ParseResult};
use crate::text::{
    ascii_bytes, int_at, is_digit_char, lemma_number_field_bound, lemma_parsed_digits,
    number_field, push_zero_padded, zero_padded,
};

verus! {

/// A fixed UTC offset stored as signed minutes. Real-world offsets run from
/// -12:00 (Baker Island) to +14:00 (Kiribati), so that is what every offset
/// stays within.
#[derive(Debug, Clone, Copy, PartialEq, Eq, Structural)]
pub struct Offset {
    minutes: i32,
}

/// The smallest offset, -12:00, in minutes.
pub const MIN_OFFSET_MINUTES: i32 = -720;

/// The largest offset, +14:00, in minutes.
pub const MAX_OFFSET_MINUTES: i32 = 840;

impl View for Offset {
    type V = int;

    /// The offset in minutes east of UTC.
    closed spec fn view(&self) -> int {
        self.minutes as int
    }
}

impl Offset {
    #[verifier::type_invariant]
    pub(crate) open spec fn in_range(self) -> bool {
        MIN_OFFSET_MINUTES <= self@ <= MAX_OFFSET_MINUTES
    }

    /// The offset of `m` minutes, for `m` within -12:00..=+14:00.
    pub closed spec fn of_minutes(m: int) -> Offset {
        Offset { minutes: m as i32 }
    }

    /// An offset is determined by its minutes.
    pub broadcast proof fn lemma_of_minutes(m: int)
        requires
            MIN_OFFSET_MINUTES <= m <= MAX_OFFSET_MINUTES,
        ensures
            (#[trigger] Offset::of_minutes(m))@ == m,
    {
    }

    /// An offset is the one built from its own minutes.
    pub broadcast proof fn lemma_of_own_minutes(o: Offset)
        ensures
            Offset::of_minutes(#[trigger] o@) == o,
    {
    }

    /// The zero offset, UTC.
    pub fn utc() -> (r: Offset)
        ensures
            r@ == 0,
    {
        Offset { minutes: 0 }
    }

    pub fn from_minutes(minutes: i32) -> (r: ParseResult<Offset>)
        ensures
            r == offset_from_minutes(minutes as int),
    {
        if minutes < -12 * 60 || minutes > 14 * 60 {
            return Err(ParseError(ParseErrorKind::OffsetOutOfRange(minutes)));
        }
        Ok(Offset { minutes })
    }

    pub fn minutes(&self) -> (m: i32)
        ensures
            m == self@,
            MIN_OFFSET_MINUTES <= m <= MAX_OFFSET_MINUTES,
    {
        proof {
            use_type_invariant(self);
        }
        self.minutes
    }

    /// Parses `Z`, `z`, `+HH:MM` or `-HH:MM`, `HH` and `MM` two digits each.
    pub fn parse(s: &str) -> (r: ParseResult<Offset>)
        ensures
            r == offset_from_text(s@),
    {
        if !s.is_ascii() {
            return Err(ParseError(ParseErrorKind::BadOffset));
        }
        let b = s.as_bytes();
        proof {
            vstd::string::is_ascii_spec_bytes(s);
            assert(b@ =~= ascii_bytes(s@));
            assert(b@.subrange(0, b@.len() as int) =~= b@);
        }
        parse_offset_bytes(b, 0)
    }

    /// The canonical text of the offset: `Z` for UTC, else `+HH:MM` or `-HH:MM`.
    pub fn to_string(&self) -> (r: String)
        ensures
            r@ == offset_text(self@),
    {
        proof {
            use_type_invariant(self);
        }
        let mut out = String::new();
        push_offset(&mut out, *self);
        out
    }
}

/// `from_minutes` on `m`.
pub open spec fn offset_from_minutes(m: int) -> ParseResult<Offset> {
    if m < MIN_OFFSET_MINUTES || m > MAX_OFFSET_MINUTES {
        Err(ParseError(ParseErrorKind::OffsetOutOfRange(m as i32)))
    } else {
        Ok(Offset::of_minutes(m))
    }
}

/// What the ASCII bytes `b` say as an offset: `Z`, `z`, or a sign, two
/// digits of hours, `:` and two digits of minutes.
pub open spec fn offset_from_bytes(b: Seq<u8>) -> ParseResult<Offset> {
    if b == seq!['Z' as u8] || b == seq!['z' as u8] {
        Ok(Offset::of_minutes(0))
    } else if b.len() != 6 || b[3] != ':' as u8 {
        Err(ParseError(ParseErrorKind::BadOffset))
    } else if b[0] != '+' as u8 && b[0] != '-' as u8 {
        Err(ParseError(ParseErrorKind::BadOffsetSign))
    } else if number_field(b.subrange(1, 3), false) is None {
        Err(ParseError(ParseErrorKind::BadOffsetHours))
    } else if number_field(b.subrange(4, 6), false) is None {
        Err(ParseError(ParseErrorKind::BadOffsetMinutes))
    } else {
        let hh = number_field(b.subrange(1, 3), false)->Some_0;
        let mm = number_field(b.subrange(4, 6), false)->Some_0;
        if mm > 59 {
            Err(ParseError(ParseErrorKind::OffsetMinutesOutOfRange(mm as u32)))
        } else if b[0] == '+' as u8 {
            offset_from_minutes(hh * 60 + mm)
        } else {
            offset_from_minutes(-(hh * 60 + mm))
        }
    }
}

/// What the text `s` says as an offset.
pub open spec fn offset_from_text(s: Seq<char>) -> ParseResult<Offset> {
    if !vstd::utf8::is_ascii_chars(s) {
        Err(ParseError(ParseErrorKind::BadOffset))
    } else {
        offset_from_bytes(ascii_bytes(s))
    }
}

/// The canonical text of an offset of `m` minutes.
pub open spec fn offset_text(m: int) -> Seq<char> {
    if m == 0 {
        seq!['Z']
    } else {
        let a = if m < 0 { -m } else { m };
        seq![if m < 0 { '-' } else { '+' }] + zero_padded((a / 60) as nat, 2) + seq![':']
            + zero_padded((a % 60) as nat, 2)
    }
}

/// Parses the bytes of `b` from `start` to the end as an offset.
#[verifier::spinoff_prover]
#[verifier::rlimit(40)]
pub(crate) fn parse_offset_bytes(b: &[u8], start: usize) -> (r: ParseResult<Offset>)
    requires
        start <= b@.len(),
    ensures
        r == offset_from_bytes(b@.subrange(start as int, b@.len() as int)),
{
    let ghost t = b@.subrange(start as int, b@.len() as int);
    let len = b.len() - start;
    if len == 1 && (b[start] == 'Z' as u8 || b[start] == 'z' as u8) {
        assert(t == seq!['Z' as u8] || t == seq!['z' as u8]);
        return Ok(Offset::utc());
    }
    assert(!(t == seq!['Z' as u8] || t == seq!['z' as u8])) by {
        if t == seq!['Z' as u8] || t == seq!['z' as u8] {
            assert(t[0] == b[start as int]);
        }
    }
    if len != 6 || b[start + 3] != ':' as u8 {
        return Err(ParseError(ParseErrorKind::BadOffset));
    }
    let sign = b[start];
    if sign != '+' as u8 && sign != '-' as u8 {
        return Err(ParseError(ParseErrorKind::BadOffsetSign));
    }
    assert(b@.subrange(start + 1, start + 3) =~= t.subrange(1, 3));
    assert(b@.subrange(start + 4, start + 6) =~= t.subrange(4, 6));
    let hh = match int_at(b, start + 1, 2, false) {
        Some(v) => v,
        None => return Err(ParseError(ParseErrorKind::BadOffsetHours)),
    };
    let mm = match int_at(b, start + 4, 2, false) {
        Some(v) => v,
        None => return Err(ParseError(ParseErrorKind::BadOffsetMinutes)),
    };
    proof {
        lemma_number_field_bound(t.subrange(1, 3), false);
        lemma_number_field_bound(t.subrange(4, 6), false);
        reveal_with_fuel(crate::text::pow10, 3);
    }
    if mm > 59 {
        return Err(ParseError(ParseErrorKind::OffsetMinutesOutOfRange(mm as u32)));
    }
    let total = hh * 60 + mm;
    if sign == '+' as u8 {
        Offset::from_minutes(total)
    } else {
        Offset::from_minutes(-total)
    }
}

/// Appends the canonical text of `o`.
pub(crate) fn push_offset(out: &mut String, o: Offset)
    ensures
        final(out)@ == old(out)@ + offset_text(o@),
{
    let m = o.minutes();
    if m == 0 {
        out.push('Z');
        return;
    }
    let a: i32 = if m < 0 { -m } else { m };
    out.push(if m < 0 { '-' } else { '+' });
    push_zero_padded(out, (a / 60) as u64, 2);
    out.push(':');
    push_zero_padded(out, (a % 60) as u64, 2);
    assert(final(out)@ =~= old(out)@ + offset_text(o@));
}

/// The canonical text of an offset is ASCII, starts with `Z`, `+` or `-`,
/// ends with `Z` or a digit, and reads back as that offset.
#[verifier::spinoff_prover]
#[verifier::rlimit(40)]
pub(crate) proof fn lemma_offset_text(o: Offset)
    requires
        MIN_OFFSET_MINUTES <= o@ <= MAX_OFFSET_MINUTES,
    ensures
        offset_text(o@).len() >= 1,
        vstd::utf8::is_ascii_chars(offset_text(o@)),
        offset_text(o@)[0] == 'Z' || offset_text(o@)[0] == '+' || offset_text(o@)[0] == '-',
        offset_text(o@).last() == 'Z' || is_digit_char(offset_text(o@).last()),
        offset_from_bytes(ascii_bytes(offset_text(o@))) == Ok::<Offset, ParseError>(o),
{
    let m = o@;
    Offset::lemma_of_own_minutes(o);
    let t = offset_text(m);
    let b = ascii_bytes(t);
    if m == 0 {
        assert(b =~= seq!['Z' as u8]);
    } else {
        let a = if m < 0 { -m } else { m };
        let h = zero_padded((a / 60) as nat, 2);
        let mm = zero_padded((a % 60) as nat, 2);
        reveal_with_fuel(crate::text::pow10, 3);
        crate::text::lemma_zero_padded((a / 60) as nat, 2);
        crate::text::lemma_zero_padded((a % 60) as nat, 2);
        assert(t.len() == 6);
        assert(b.subrange(1, 3) =~= ascii_bytes(h));
        assert(b.subrange(4, 6) =~= ascii_bytes(mm));
        lemma_parsed_digits(ascii_bytes(h), false);
        lemma_parsed_digits(ascii_bytes(mm), false);
        assert(!(b == seq!['Z' as u8] || b == seq!['z' as u8])) by {
            if b == seq!['Z' as u8] || b == seq!['z' as u8] {
                assert(b.len() == 1);
            }
        }
        assert(vstd::utf8::is_ascii_chars(t)) by {
            assert forall|i: int| 0 <= i < t.len() implies '\0' <= #[trigger] t[i] <= '\u{7f}' by {
                if 1 <= i < 3 {
                    assert(t[i] == h[i - 1]);
                } else if 4 <= i < 6 {
                    assert(t[i] == mm[i - 4]);
                }
            }
        }
        assert(t.last() == mm[1]);
    }
}

} // verus!
