//! Signed durations written as `d`/`h`/`m`/`s` components, e.g. `3h30m`.

use vstd::prelude::*;
use crate::error::{ParseError, ParseErrorKind, ParseResult};
use crate::text::{
    all_digit_chars, decimal, digit_char, is_digit_char, is_whitespace, lemma_decimal, push_decimal,
    trim, trim_end, trim_start, trimmed,
};
use vstd::string::StrSliceExecFns;

verus! {

broadcast use vstd::string::group_string_axioms;

/// Where reading a duration's components stands after some characters.
pub enum DurationScan {
    /// Reading on: the seconds added up so far, and the digits read since
    /// the last unit (their value, and whether there were any).
    Reading { total: int, number: int, has_digits: bool },
    /// Rejected at some character.
    Rejected(ParseError),
    /// The total no longer fits in 64-bit seconds.
    Overflowed,
}

pub open spec fn is_ascii_digit(c: char) -> bool {
    '0' <= c <= '9'
}

/// Seconds per unit: `d`, `h`, `m`, `s`; 0 for any other character.
pub open spec fn unit_seconds(c: char) -> int {
    if c == 'd' {
        86400
    } else if c == 'h' {
        3600
    } else if c == 'm' {
        60
    } else if c == 's' {
        1
    } else {
        0
    }
}

/// Reading one more character.
pub open spec fn scan_step(st: DurationScan, c: char) -> DurationScan {
    match st {
        DurationScan::Reading { total, number, has_digits } => {
            if is_ascii_digit(c) {
                DurationScan::Reading {
                    total,
                    number: number * 10 + (c as int - '0' as int),
                    has_digits: true,
                }
            } else if !has_digits {
                DurationScan::Rejected(ParseError(ParseErrorKind::MissingNumber(c)))
            } else if number > i64::MAX {
                DurationScan::Rejected(ParseError(ParseErrorKind::BadNumber))
            } else if unit_seconds(c) == 0 {
                DurationScan::Rejected(ParseError(ParseErrorKind::UnknownUnit(c)))
            } else if total + number * unit_seconds(c) > i64::MAX {
                DurationScan::Overflowed
            } else {
                DurationScan::Reading {
                    total: total + number * unit_seconds(c),
                    number: 0,
                    has_digits: false,
                }
            }
        },
        _ => st,
    }
}

/// Reading the characters `cs` from the start.
pub open spec fn scan(cs: Seq<char>) -> DurationScan
    decreases cs.len(),
{
    if cs.len() == 0 {
        DurationScan::Reading { total: 0, number: 0, has_digits: false }
    } else {
        scan_step(scan(cs.drop_last()), cs.last())
    }
}

/// Once rejected or overflowed, reading more characters changes nothing.
proof fn lemma_scan_settled(cs: Seq<char>, n: int)
    requires
        0 <= n <= cs.len(),
        !(scan(cs.take(n)) is Reading),
    ensures
        scan(cs) == scan(cs.take(n)),
    decreases cs.len(),
{
    if n == cs.len() {
        assert(cs.take(n) =~= cs);
    } else {
        assert(cs.drop_last().take(n) =~= cs.take(n));
        lemma_scan_settled(cs.drop_last(), n);
    }
}

/// The trimmed text without its sign.
pub open spec fn duration_body(t: Seq<char>) -> Seq<char> {
    if t.len() > 0 && (t[0] == '-' || t[0] == '+') {
        t.drop_first()
    } else {
        t
    }
}

/// What the text `s` says as a duration in seconds, once surrounding
/// whitespace is trimmed: an optional sign, then numbers each followed by
/// a unit. A number or a running total beyond 64-bit seconds is a bad
/// number.
pub open spec fn duration_from_text(s: Seq<char>) -> ParseResult<i64> {
    let t = trimmed(s);
    let body = duration_body(t);
    if t.len() == 0 {
        Err(ParseError(ParseErrorKind::EmptyDuration))
    } else if body.len() == 0 {
        Err(ParseError(ParseErrorKind::SignWithoutDigits))
    } else {
        match scan(body) {
            DurationScan::Reading { total, has_digits, .. } => if has_digits {
                Err(ParseError(ParseErrorKind::TrailingDigits))
            } else if t[0] == '-' {
                Ok((-total) as i64)
            } else {
                Ok(total as i64)
            },
            DurationScan::Rejected(e) => Err(e),
            DurationScan::Overflowed => Err(ParseError(ParseErrorKind::BadNumber)),
        }
    }
}

/// The number that the decimal digit characters `ds` write, most
/// significant first.
pub open spec fn digit_chars_value(ds: Seq<char>) -> int
    decreases ds.len(),
{
    if ds.len() == 0 {
        0
    } else {
        digit_chars_value(ds.drop_last()) * 10 + (ds.last() as int - '0' as int)
    }
}

/// A component of a duration: one or more decimal digits, then a unit
/// `d`, `h`, `m` or `s`.
pub open spec fn is_component(p: (Seq<char>, char)) -> bool {
    p.0.len() > 0 && all_digit_chars(p.0) && unit_seconds(p.1) > 0
}

/// The text of the components `parts`, one after another.
pub open spec fn components_text(parts: Seq<(Seq<char>, char)>) -> Seq<char>
    decreases parts.len(),
{
    if parts.len() == 0 {
        Seq::empty()
    } else {
        components_text(parts.drop_last()) + parts.last().0.push(parts.last().1)
    }
}

/// The seconds of the components `parts`, added up.
pub open spec fn components_total(parts: Seq<(Seq<char>, char)>) -> int
    decreases parts.len(),
{
    if parts.len() == 0 {
        0
    } else {
        components_total(parts.drop_last()) + digit_chars_value(parts.last().0) * unit_seconds(
            parts.last().1,
        )
    }
}

fn unit_of(c: char) -> (r: i64)
    ensures
        r == unit_seconds(c),
{
    match c {
        'd' => 86400,
        'h' => 3600,
        'm' => 60,
        's' => 1,
        _ => 0,
    }
}

/// Reads the components of the trimmed text `t`, skipping its first
/// `start` characters; `None` where the total overflows.
#[verifier::spinoff_prover]
#[verifier::rlimit(40)]
fn scan_duration(t: &str, start: usize) -> (r: Option<ParseResult<i64>>)
    requires
        start <= 1,
        start < t@.len(),
        start == 1 ==> duration_body(t@) == t@.drop_first(),
        start == 0 ==> duration_body(t@) == t@,
    ensures
        r is None <==> scan(duration_body(t@)) is Overflowed,
        r matches Some(res) ==> res == (match scan(duration_body(t@)) {
            DurationScan::Reading { total, has_digits, .. } => if has_digits {
                Err(ParseError(ParseErrorKind::TrailingDigits))
            } else {
                Ok(total as i64)
            },
            DurationScan::Rejected(e) => Err(e),
            DurationScan::Overflowed => Err(ParseError(ParseErrorKind::BadNumber)),
        }),
        r matches Some(Ok(v)) ==> v >= 0 && (scan(duration_body(t@)) matches DurationScan::Reading {
            total,
            ..
        } && total == v),
{
    let ghost body = duration_body(t@);
    let mut total: i64 = 0;
    let mut number: i64 = 0;
    let mut too_big = false;
    let mut has_digits = false;
    let mut first = true;
    for c in it: t.chars()
        invariant
            start <= 1,
            start < t@.len(),
            start == 1 ==> body == t@.drop_first(),
            start == 0 ==> body == t@,
            body == duration_body(t@),
            it.seq() == t@,
            first <==> it.index() == 0,
            it.index() <= t@.len(),
            scan(body.take(if it.index() < start { 0 } else { it.index() - start })) matches DurationScan::Reading {
                total: st,
                number: sn,
                has_digits: sh,
            } && total == st && has_digits == sh && (too_big <==> sn > i64::MAX) && (!too_big
                ==> number == sn) && total >= 0 && sn >= 0,
    {
        let ghost k: int = if it.index() < start { 0 } else { it.index() - start };
        if !(first && start == 1) {
            assert(body.take(k + 1).drop_last() =~= body.take(k));
            assert(body.take(k + 1).last() == c);
            assert(k + 1 <= body.len());
            if '0' <= c && c <= '9' {
                let d = (c as u32 - '0' as u32) as i64;
                if !too_big {
                    if number > (i64::MAX - d) / 10 {
                        too_big = true;
                    } else {
                        number = number * 10 + d;
                    }
                }
                has_digits = true;
            } else {
                if !has_digits {
                    proof {
                        lemma_scan_settled(body, k + 1);
                    }
                    return Some(Err(ParseError(ParseErrorKind::MissingNumber(c))));
                }
                if too_big {
                    proof {
                        lemma_scan_settled(body, k + 1);
                    }
                    return Some(Err(ParseError(ParseErrorKind::BadNumber)));
                }
                let unit = unit_of(c);
                if unit == 0 {
                    proof {
                        lemma_scan_settled(body, k + 1);
                    }
                    return Some(Err(ParseError(ParseErrorKind::UnknownUnit(c))));
                }
                let add = match number.checked_mul(unit) {
                    Some(v) => v,
                    None => {
                        proof {
                            lemma_scan_settled(body, k + 1);
                        }
                        return None;
                    },
                };
                total = match total.checked_add(add) {
                    Some(v) => v,
                    None => {
                        proof {
                            lemma_scan_settled(body, k + 1);
                        }
                        return None;
                    },
                };
                number = 0;
                has_digits = false;
            }
        }
        first = false;
    }
    assert(body.take(t@.len() - start) =~= body);
    if has_digits {
        return Some(Err(ParseError(ParseErrorKind::TrailingDigits)));
    }
    Some(Ok(total))
}

/// The trimmed text and how many sign characters lead it.
fn split_sign(s: &str) -> (r: (&str, usize))
    ensures
        r.0@ == trimmed(s@),
        r.1 <= 1,
        r.1 == 1 <==> (r.0@.len() > 0 && (r.0@[0] == '-' || r.0@[0] == '+')),
{
    let t = trim(s);
    if t.is_empty() {
        return (t, 0);
    }
    let first = t.get_char(0);
    if first == '-' || first == '+' {
        (t, 1)
    } else {
        (t, 0)
    }
}

/// Parses a signed duration made of `d`/`h`/`m`/`s` components, e.g.
/// `3h30m`, `-90m`, `1d`, and returns the total in seconds. A total that
/// does not fit in 64-bit seconds is refused as a bad number.
pub fn parse_duration(s: &str) -> (r: ParseResult<i64>)
    ensures
        r == duration_from_text(s@),
{
    let (t, start) = split_sign(s);
    if t.is_empty() {
        return Err(ParseError(ParseErrorKind::EmptyDuration));
    }
    if start == 1 && t.unicode_len() == 1 {
        return Err(ParseError(ParseErrorKind::SignWithoutDigits));
    }
    let negative = start == 1 && t.get_char(0) == '-';
    match scan_duration(t, start) {
        Some(Ok(total)) => if negative {
            Ok(-total)
        } else {
            Ok(total)
        },
        Some(Err(e)) => Err(e),
        None => Err(ParseError(ParseErrorKind::BadNumber)),
    }
}

/// One component of a duration's text: nothing for zero, else the number
/// and its unit.
pub open spec fn component_text(n: nat, unit: char) -> Seq<char> {
    if n == 0 {
        Seq::empty()
    } else {
        decimal(n).push(unit)
    }
}

/// The text of a non-negative number of seconds: its non-zero day, hour,
/// minute and second components in that order, or `0s`.
pub open spec fn magnitude_text(a: nat) -> Seq<char> {
    if a == 0 {
        seq!['0', 's']
    } else {
        component_text(a / 86400, 'd') + component_text(a % 86400 / 3600, 'h') + component_text(
            a % 3600 / 60,
            'm',
        ) + component_text(a % 60, 's')
    }
}

/// The text of a signed number of seconds, e.g. `3h30m`, `-1d1s`, `0s`.
pub open spec fn duration_text(x: int) -> Seq<char> {
    if x < 0 {
        seq!['-'] + magnitude_text((-x) as nat)
    } else {
        magnitude_text(x as nat)
    }
}

fn push_component(out: &mut String, n: u64, unit: char)
    ensures
        final(out)@ == old(out)@ + component_text(n as nat, unit),
{
    if n != 0 {
        push_decimal(out, n);
        out.push(unit);
    }
    assert(final(out)@ =~= old(out)@ + component_text(n as nat, unit));
}

/// Writes a number of seconds as a duration that `parse_duration` reads:
/// a `-` for negative amounts, then days, hours, minutes and seconds,
/// each left out when zero, or `0s` for nothing.
pub fn format_duration(seconds: i64) -> (r: String)
    ensures
        r@ == duration_text(seconds as int),
{
    let mut out = String::new();
    let a: u64 = if seconds < 0 {
        out.push('-');
        if seconds == i64::MIN {
            9_223_372_036_854_775_808
        } else {
            (-seconds) as u64
        }
    } else {
        seconds as u64
    };
    if a == 0 {
        out.push('0');
        out.push('s');
    } else {
        push_component(&mut out, a / 86400, 'd');
        push_component(&mut out, a % 86400 / 3600, 'h');
        push_component(&mut out, a % 3600 / 60, 'm');
        push_component(&mut out, a % 60, 's');
    }
    assert(out@ =~= duration_text(seconds as int));
    out
}

/// Reading the characters `cs` from the state `st`.
spec fn scan_from(st: DurationScan, cs: Seq<char>) -> DurationScan
    decreases cs.len(),
{
    if cs.len() == 0 {
        st
    } else {
        scan_step(scan_from(st, cs.drop_last()), cs.last())
    }
}

/// The reading state with these fields.
pub(crate) open spec fn reading(total: int, number: int, has_digits: bool) -> DurationScan {
    DurationScan::Reading { total, number, has_digits }
}

proof fn lemma_scan_is_scan_from(cs: Seq<char>)
    ensures
        scan(cs) == scan_from(reading(0, 0, false), cs),
    decreases cs.len(),
{
    if cs.len() > 0 {
        lemma_scan_is_scan_from(cs.drop_last());
    }
}

proof fn lemma_scan_from_append(st: DurationScan, a: Seq<char>, b: Seq<char>)
    ensures
        scan_from(st, a + b) == scan_from(scan_from(st, a), b),
    decreases b.len(),
{
    if b.len() == 0 {
        assert(a + b =~= a);
    } else {
        assert((a + b).drop_last() =~= a + b.drop_last());
        lemma_scan_from_append(st, a, b.drop_last());
    }
}

#[verifier::spinoff_prover]
#[verifier::rlimit(40)]
proof fn lemma_scan_decimal(total: int, n: nat)
    ensures
        scan_from(reading(total, 0, false), decimal(n)) == reading(total, n as int, true),
    decreases n,
{
    let c = digit_char((n % 10) as int);
    let prev = if n >= 10 { n / 10 } else { 0 };
    if n >= 10 {
        lemma_scan_decimal(total, n / 10);
        assert(decimal(n).drop_last() =~= decimal(n / 10));
        assert(scan_from(reading(total, 0, false), decimal(n).drop_last()) == reading(
            total,
            prev as int,
            true,
        ));
    } else {
        assert(decimal(n).drop_last() =~= Seq::<char>::empty());
        assert(scan_from(reading(total, 0, false), decimal(n).drop_last()) == reading(
            total,
            0,
            false,
        ));
    }
    assert(decimal(n).last() == c);
    assert(c as int - '0' as int == n % 10);
    assert(is_ascii_digit(c));
    assert(prev * 10 + n % 10 == n);
    assert(scan_from(reading(total, 0, false), decimal(n)) == scan_step(
        scan_from(reading(total, 0, false), decimal(n).drop_last()),
        c,
    ));
}

proof fn lemma_scan_component(total: int, n: nat, unit: char)
    requires
        unit_seconds(unit) > 0,
        0 <= total,
        total + n * unit_seconds(unit) <= i64::MAX,
    ensures
        scan_from(reading(total, 0, false), component_text(n, unit)) == reading(
            total + n * unit_seconds(unit),
            0,
            false,
        ),
{
    if n > 0 {
        lemma_scan_decimal(total, n);
        assert(component_text(n, unit).drop_last() =~= decimal(n));
        assert(n <= i64::MAX) by (nonlinear_arith)
            requires
                total + n * unit_seconds(unit) <= i64::MAX,
                unit_seconds(unit) >= 1,
                total >= 0,
                n >= 0;
    } else {
        assert(component_text(n, unit) =~= Seq::<char>::empty());
    }
}

proof fn lemma_component_chars(n: nat, unit: char)
    requires
        unit_seconds(unit) > 0,
    ensures
        forall|i: int|
            0 <= i < component_text(n, unit).len() ==> !is_whitespace(
                #[trigger] component_text(n, unit)[i],
            ),
{
    lemma_decimal(n);
    assert forall|i: int| 0 <= i < component_text(n, unit).len() implies !is_whitespace(
        #[trigger] component_text(n, unit)[i],
    ) by {
        if i < decimal(n).len() {
            assert(crate::text::is_digit_char(decimal(n)[i]));
        }
    }
}

/// A positive number of seconds splits into its four components.
proof fn lemma_split_magnitude(a: nat)
    ensures
        a == (a / 86400) * 86400 + (a % 86400 / 3600) * 3600 + (a % 3600 / 60) * 60 + a % 60,
{
    let x = a as int;
    vstd::arithmetic::div_mod::lemma_fundamental_div_mod(x, 86400);
    vstd::arithmetic::div_mod::lemma_fundamental_div_mod(x % 86400, 3600);
    vstd::arithmetic::div_mod::lemma_fundamental_div_mod(x % 3600, 60);
    vstd::arithmetic::div_mod::lemma_mod_mod(x, 3600, 24);
    vstd::arithmetic::div_mod::lemma_mod_mod(x, 60, 60);
    assert(x == 86400 * (x / 86400) + 3600 * (x % 86400 / 3600) + 60 * (x % 3600 / 60) + x % 60);
}

/// The text of a positive number of seconds adds up to that number.
#[verifier::spinoff_prover]
#[verifier::rlimit(40)]
proof fn lemma_magnitude_scan(a: nat)
    requires
        0 < a <= i64::MAX,
    ensures
        scan(magnitude_text(a)) == reading(a as int, 0, false),
{
    let m = magnitude_text(a);
    let r0 = reading(0, 0, false);
    let d = a / 86400;
    let h = a % 86400 / 3600;
    let mi = a % 3600 / 60;
    let s = a % 60;
    let cd = component_text(d, 'd');
    let ch = component_text(h, 'h');
    let cm = component_text(mi, 'm');
    let cs = component_text(s, 's');
    lemma_split_magnitude(a);
    let t1: int = (d * 86400) as int;
    let t2: int = t1 + h * 3600;
    let t3: int = t2 + mi * 60;
    assert(t3 + s == a);
    lemma_scan_is_scan_from(m);
    assert(m == cd + ch + cm + cs);
    lemma_scan_from_append(r0, cd + ch + cm, cs);
    lemma_scan_from_append(r0, cd + ch, cm);
    lemma_scan_from_append(r0, cd, ch);
    lemma_scan_component(0, d, 'd');
    assert(scan_from(r0, cd) == reading(t1, 0, false));
    lemma_scan_component(t1, h, 'h');
    assert(scan_from(r0, cd + ch) == reading(t2, 0, false));
    lemma_scan_component(t2, mi, 'm');
    assert(scan_from(r0, cd + ch + cm) == reading(t3, 0, false));
    lemma_scan_component(t3, s, 's');
}

/// The text of a positive number of seconds is not empty, holds no
/// whitespace and starts with a digit.
#[verifier::spinoff_prover]
#[verifier::rlimit(40)]
proof fn lemma_magnitude_chars(a: nat)
    requires
        0 < a,
    ensures
        magnitude_text(a).len() > 0,
        forall|i: int|
            0 <= i < magnitude_text(a).len() ==> !is_whitespace(#[trigger] magnitude_text(a)[i]),
        magnitude_text(a)[0] != '-' && magnitude_text(a)[0] != '+',
{
    let m = magnitude_text(a);
    let d = a / 86400;
    let h = a % 86400 / 3600;
    let mi = a % 3600 / 60;
    let s = a % 60;
    let cd = component_text(d, 'd');
    let ch = component_text(h, 'h');
    let cm = component_text(mi, 'm');
    let cs = component_text(s, 's');
    lemma_split_magnitude(a);
    assert(m == cd + ch + cm + cs);
    lemma_component_chars(d, 'd');
    lemma_component_chars(h, 'h');
    lemma_component_chars(mi, 'm');
    lemma_component_chars(s, 's');
    assert forall|i: int| 0 <= i < m.len() implies !is_whitespace(#[trigger] m[i]) by {
        if i < cd.len() {
            assert(m[i] == cd[i]);
        } else if i < cd.len() + ch.len() {
            assert(m[i] == ch[i - cd.len()]);
        } else if i < cd.len() + ch.len() + cm.len() {
            assert(m[i] == cm[i - cd.len() - ch.len()]);
        } else {
            assert(m[i] == cs[i - cd.len() - ch.len() - cm.len()]);
        }
    }
    assert(m.len() > 0) by {
        if m.len() == 0 {
            assert(cd.len() == 0 && ch.len() == 0 && cm.len() == 0 && cs.len() == 0);
        }
    }
    assert(m[0] != '-' && m[0] != '+') by {
        lemma_decimal(d);
        lemma_decimal(h);
        lemma_decimal(mi);
        lemma_decimal(s);
        if cd.len() > 0 {
            assert(m[0] == decimal(d)[0]);
        } else if ch.len() > 0 {
            assert(m[0] == decimal(h)[0]);
        } else if cm.len() > 0 {
            assert(m[0] == decimal(mi)[0]);
        } else {
            assert(m[0] == decimal(s)[0]);
        }
    }
}

/// The text of any number of seconds but the most negative reads back as
/// that number.
#[verifier::spinoff_prover]
#[verifier::rlimit(40)]
pub(crate) proof fn lemma_duration_text_round_trip(x: int)
    requires
        i64::MIN < x <= i64::MAX,
    ensures
        duration_from_text(duration_text(x)) == Ok::<i64, ParseError>(x as i64),
{
    let a: nat = if x < 0 { (-x) as nat } else { x as nat };
    let m = magnitude_text(a);
    let t = duration_text(x);
    if a == 0 {
        assert(m =~= seq!['0', 's']);
        assert(m.drop_last() =~= seq!['0']);
        assert(m.drop_last().drop_last() =~= Seq::<char>::empty());
        assert(scan(m.drop_last().drop_last()) == reading(0, 0, false));
        assert(scan(m.drop_last()) == scan_step(reading(0, 0, false), '0'));
        assert(scan(m.drop_last()) == reading(0, 0, true));
        assert(scan(m) == scan_step(reading(0, 0, true), 's'));
        assert(scan(m) == reading(0, 0, false));
    } else {
        lemma_magnitude_scan(a);
        lemma_magnitude_chars(a);
    }
    assert(!is_whitespace(t[0]));
    assert(!is_whitespace(t.last()));
    assert(trim_start(t) == t);
    assert(trim_end(t) == t);
    if x < 0 {
        assert(t.drop_first() =~= m);
    }
}

/// A rejected or overflowed reading stays as it is.
proof fn lemma_scan_from_settled(st: DurationScan, cs: Seq<char>)
    requires
        !(st is Reading),
    ensures
        scan_from(st, cs) == st,
    decreases cs.len(),
{
    if cs.len() > 0 {
        lemma_scan_from_settled(st, cs.drop_last());
    }
}

/// Reading digits after a unit gathers the number they write.
proof fn lemma_scan_digits(total: int, ds: Seq<char>)
    requires
        all_digit_chars(ds),
    ensures
        scan_from(reading(total, 0, false), ds) == reading(
            total,
            digit_chars_value(ds),
            ds.len() > 0,
        ),
        digit_chars_value(ds) >= 0,
    decreases ds.len(),
{
    if ds.len() > 0 {
        lemma_scan_digits(total, ds.drop_last());
        assert(is_digit_char(ds.last()));
    }
}

/// Reading well-formed components adds up their seconds while the sum fits
/// in 64-bit seconds, and ends rejected as a bad number or overflowed when
/// it does not.
#[verifier::spinoff_prover]
#[verifier::rlimit(40)]
pub(crate) proof fn lemma_scan_components(parts: Seq<(Seq<char>, char)>)
    requires
        forall|i: int| 0 <= i < parts.len() ==> is_component(#[trigger] parts[i]),
    ensures
        components_total(parts) >= 0,
        parts.len() > 0 ==> components_text(parts).len() > 0,
        components_total(parts) <= i64::MAX ==> scan(components_text(parts)) == reading(
            components_total(parts),
            0,
            false,
        ),
        components_total(parts) > i64::MAX ==> (scan(components_text(parts)) is Overflowed
            || scan(components_text(parts)) == DurationScan::Rejected(
            ParseError(ParseErrorKind::BadNumber),
        )),
    decreases parts.len(),
{
    let r0 = reading(0, 0, false);
    lemma_scan_is_scan_from(components_text(parts));
    if parts.len() > 0 {
        let prev = parts.drop_last();
        let p = parts.last();
        assert(is_component(parts[parts.len() - 1]));
        assert forall|i: int| 0 <= i < prev.len() implies is_component(#[trigger] prev[i]) by {
            assert(prev[i] == parts[i]);
        }
        lemma_scan_components(prev);
        lemma_scan_is_scan_from(components_text(prev));
        let tp = components_text(prev);
        let piece = p.0.push(p.1);
        lemma_scan_from_append(r0, tp, piece);
        let st = scan_from(r0, tp);
        let tprev = components_total(prev);
        let n = digit_chars_value(p.0);
        let u = unit_seconds(p.1);
        lemma_scan_digits(tprev, p.0);
        assert(n * u >= n) by (nonlinear_arith)
            requires
                n >= 0,
                u >= 1;
        assert(piece.drop_last() =~= p.0);
        assert(piece.last() == p.1);
        if tprev > i64::MAX {
            lemma_scan_from_settled(st, piece);
        } else {
            assert(!is_ascii_digit(p.1));
        }
    }
}

/// What has been read while reading on is well-formed components followed
/// by the digits of a number not yet given its unit.
#[verifier::spinoff_prover]
#[verifier::rlimit(40)]
pub(crate) proof fn lemma_scan_parts(cs: Seq<char>) -> (r: (Seq<(Seq<char>, char)>, Seq<char>))
    requires
        scan(cs) is Reading,
    ensures
        forall|i: int| 0 <= i < r.0.len() ==> is_component(#[trigger] r.0[i]),
        all_digit_chars(r.1),
        cs == components_text(r.0) + r.1,
        scan(cs) == reading(components_total(r.0), digit_chars_value(r.1), r.1.len() > 0),
    decreases cs.len(),
{
    if cs.len() == 0 {
        let parts = Seq::<(Seq<char>, char)>::empty();
        assert(cs =~= components_text(parts) + Seq::<char>::empty());
        (parts, Seq::empty())
    } else {
        let pre = cs.drop_last();
        let c = cs.last();
        let (parts, ds) = lemma_scan_parts(pre);
        assert(cs =~= pre.push(c));
        if is_ascii_digit(c) {
            let ds2 = ds.push(c);
            assert(ds2.drop_last() =~= ds);
            assert(cs =~= (components_text(parts) + ds).push(c));
            assert(cs =~= components_text(parts) + ds2);
            assert forall|i: int| 0 <= i < ds2.len() implies is_digit_char(#[trigger] ds2[i]) by {
                if i < ds.len() {
                    assert(ds2[i] == ds[i]);
                }
            }
            (parts, ds2)
        } else {
            let parts2 = parts.push((ds, c));
            assert(parts2.drop_last() =~= parts);
            assert(parts2.last() == (ds, c));
            assert(components_text(parts2) == components_text(parts) + ds.push(c));
            assert(cs =~= (components_text(parts) + ds).push(c));
            assert(cs =~= components_text(parts2) + Seq::<char>::empty());
            assert forall|i: int| 0 <= i < parts2.len() implies is_component(#[trigger] parts2[i]) by {
                if i < parts.len() {
                    assert(parts2[i] == parts[i]);
                }
            }
            (parts2, Seq::empty())
        }
    }
}

} // verus!
