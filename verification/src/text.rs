//! Characters, digits and whitespace: what the parsers and printers read
//! and write, trimming, and the one std string operation they rely on.

use vstd::prelude::*;
use vstd::string::StrSliceExecFns;

verus! {

/// A character with the Unicode `White_Space` property, which is what
/// `char::is_whitespace` and `str::trim` go by.
pub open spec fn is_whitespace(c: char) -> bool {
    ('\u{9}' <= c <= '\u{d}') || c == ' ' || c == '\u{85}' || c == '\u{a0}' || c == '\u{1680}'
        || ('\u{2000}' <= c <= '\u{200a}') || c == '\u{2028}' || c == '\u{2029}'
        || c == '\u{202f}' || c == '\u{205f}' || c == '\u{3000}'
}

pub open spec fn trim_start(s: Seq<char>) -> Seq<char>
    decreases s.len(),
{
    if s.len() > 0 && is_whitespace(s[0]) {
        trim_start(s.drop_first())
    } else {
        s
    }
}

pub open spec fn trim_end(s: Seq<char>) -> Seq<char>
    decreases s.len(),
{
    if s.len() > 0 && is_whitespace(s.last()) {
        trim_end(s.drop_last())
    } else {
        s
    }
}

/// `s` without its leading and trailing whitespace.
pub open spec fn trimmed(s: Seq<char>) -> Seq<char> {
    trim_end(trim_start(s))
}

/// Whitespace before the text goes when it is trimmed from the start.
pub(crate) proof fn lemma_trim_start_drops(w: Seq<char>, x: Seq<char>)
    requires
        forall|i: int| 0 <= i < w.len() ==> is_whitespace(#[trigger] w[i]),
    ensures
        trim_start(w + x) == trim_start(x),
    decreases w.len(),
{
    if w.len() > 0 {
        assert((w + x)[0] == w[0]);
        assert((w + x).drop_first() =~= w.drop_first() + x);
        assert forall|i: int| 0 <= i < w.drop_first().len() implies is_whitespace(
            #[trigger] w.drop_first()[i],
        ) by {
            assert(w.drop_first()[i] == w[i + 1]);
        }
        lemma_trim_start_drops(w.drop_first(), x);
    } else {
        assert(w + x =~= x);
    }
}

/// Whitespace after the text goes when it is trimmed from the end.
pub(crate) proof fn lemma_trim_end_drops(x: Seq<char>, w: Seq<char>)
    requires
        forall|i: int| 0 <= i < w.len() ==> is_whitespace(#[trigger] w[i]),
    ensures
        trim_end(x + w) == trim_end(x),
    decreases w.len(),
{
    if w.len() > 0 {
        assert((x + w).last() == w.last());
        assert((x + w).drop_last() =~= x + w.drop_last());
        assert forall|i: int| 0 <= i < w.drop_last().len() implies is_whitespace(
            #[trigger] w.drop_last()[i],
        ) by {
            assert(w.drop_last()[i] == w[i]);
        }
        lemma_trim_end_drops(x, w.drop_last());
    } else {
        assert(x + w =~= x);
    }
}

/// Trimming the start of `x + w` trims `x`, and reaches into `w` only when
/// `x` is all whitespace.
proof fn lemma_trim_start_append(x: Seq<char>, w: Seq<char>)
    ensures
        trim_start(x + w) == (if trim_start(x).len() > 0 {
            trim_start(x) + w
        } else {
            trim_start(w)
        }),
    decreases x.len(),
{
    if x.len() == 0 {
        assert(x + w =~= w);
    } else {
        assert((x + w)[0] == x[0]);
        if is_whitespace(x[0]) {
            assert((x + w).drop_first() =~= x.drop_first() + w);
            lemma_trim_start_append(x.drop_first(), w);
        }
    }
}

/// Whitespace around a text does not change what trimming it gives.
pub proof fn lemma_trimmed_around(w1: Seq<char>, s: Seq<char>, w2: Seq<char>)
    requires
        forall|i: int| 0 <= i < w1.len() ==> is_whitespace(#[trigger] w1[i]),
        forall|i: int| 0 <= i < w2.len() ==> is_whitespace(#[trigger] w2[i]),
    ensures
        trimmed(w1 + s + w2) == trimmed(s),
{
    assert(w1 + s + w2 =~= w1 + (s + w2));
    lemma_trim_start_drops(w1, s + w2);
    lemma_trim_start_append(s, w2);
    if trim_start(s).len() > 0 {
        lemma_trim_end_drops(trim_start(s), w2);
    } else {
        lemma_trim_start_drops(w2, Seq::empty());
        assert(w2 + Seq::<char>::empty() =~= w2);
        assert(trim_start(Seq::<char>::empty()) =~= Seq::<char>::empty());
        assert(trim_start(s) =~= Seq::<char>::empty());
    }
}

/// Text that neither starts nor ends with whitespace is its own trimming.
pub proof fn lemma_trimmed_unchanged(t: Seq<char>)
    requires
        t.len() > 0,
        !is_whitespace(t[0]),
        !is_whitespace(t.last()),
    ensures
        trimmed(t) == t,
{
    assert(trim_start(t) == t);
    assert(trim_end(t) == t);
}

/// Whether `c` has the Unicode `White_Space` property.
fn char_is_whitespace(c: char) -> (r: bool)
    ensures
        r == is_whitespace(c),
{
    ('\u{9}' <= c && c <= '\u{d}') || c == ' ' || c == '\u{85}' || c == '\u{a0}'
        || c == '\u{1680}' || ('\u{2000}' <= c && c <= '\u{200a}') || c == '\u{2028}'
        || c == '\u{2029}' || c == '\u{202f}' || c == '\u{205f}' || c == '\u{3000}'
}

/// Dropping leading whitespace up to the first other character.
proof fn lemma_trim_start_at(s: Seq<char>, i: int)
    requires
        0 <= i <= s.len(),
        forall|k: int| 0 <= k < i ==> is_whitespace(#[trigger] s[k]),
        i == s.len() || !is_whitespace(s[i]),
    ensures
        trim_start(s) == s.skip(i),
    decreases i,
{
    if i == 0 {
        assert(s.skip(0) =~= s);
    } else {
        assert(is_whitespace(s[0]));
        let rest = s.drop_first();
        assert forall|k: int| 0 <= k < i - 1 implies is_whitespace(#[trigger] rest[k]) by {
            assert(rest[k] == s[k + 1]);
        }
        lemma_trim_start_at(rest, i - 1);
        assert(rest.skip(i - 1) =~= s.skip(i));
    }
}

/// Dropping trailing whitespace back to the last other character.
proof fn lemma_trim_end_at(s: Seq<char>, j: int)
    requires
        0 <= j <= s.len(),
        forall|k: int| j <= k < s.len() ==> is_whitespace(#[trigger] s[k]),
        j == 0 || !is_whitespace(s[j - 1]),
    ensures
        trim_end(s) == s.take(j),
    decreases s.len() - j,
{
    if j == s.len() {
        assert(s.take(j) =~= s);
    } else {
        assert(is_whitespace(s.last()));
        let rest = s.drop_last();
        assert forall|k: int| j <= k < rest.len() implies is_whitespace(#[trigger] rest[k]) by {
            assert(rest[k] == s[k]);
        }
        lemma_trim_end_at(rest, j);
        assert(rest.take(j) =~= s.take(j));
    }
}

/// `s` without its leading and trailing `White_Space` characters, as
/// `str::trim` gives it.
pub(crate) fn trim<'a>(s: &'a str) -> (r: &'a str)
    ensures
        r@ == trimmed(s@),
{
    let mut start: usize = 0;
    let mut end: usize = 0;
    let mut seen = false;
    let mut k: usize = 0;
    let n = s.unicode_len();
    for c in it: s.chars()
        invariant
            n == s@.len(),
            it.seq() == s@,
            k == it.index(),
            k <= s@.len(),
            start <= k,
            forall|m: int| 0 <= m < start ==> is_whitespace(#[trigger] s@[m]),
            !seen ==> start == k,
            seen ==> start < end <= k && !is_whitespace(s@[start as int]) && !is_whitespace(
                s@[end - 1],
            ),
            seen ==> forall|m: int| end <= m < k ==> is_whitespace(#[trigger] s@[m]),
    {
        assert(c == s@[k as int]);
        if char_is_whitespace(c) {
            if !seen {
                start = k + 1;
            }
        } else {
            if !seen {
                seen = true;
                start = k;
            }
            end = k + 1;
        }
        k = k + 1;
    }
    let ghost t = s@;
    if !seen {
        proof {
            lemma_trim_start_at(t, t.len() as int);
            assert(t.skip(t.len() as int) =~= Seq::<char>::empty());
        }
        return s.substring_char(start, start);
    }
    proof {
        lemma_trim_start_at(t, start as int);
        let u = t.skip(start as int);
        assert forall|m: int| end - start <= m < u.len() implies is_whitespace(#[trigger] u[m]) by {
            assert(u[m] == t[m + start]);
        }
        assert(u[end - start - 1] == t[end - 1]);
        lemma_trim_end_at(u, end - start);
        assert(u.take(end - start) =~= t.subrange(start as int, end as int));
    }
    s.substring_char(start, end)
}

/// `String::push` appends one character.
pub assume_specification[ String::push ](s: &mut String, ch: char)
    ensures
        final(s)@ == old(s)@.push(ch),
;

/// The bytes of an ASCII string, one per character.
pub open spec fn ascii_bytes(cs: Seq<char>) -> Seq<u8> {
    Seq::new(cs.len(), |i: int| cs[i] as u8)
}

pub open spec fn is_digit_byte(b: u8) -> bool {
    48 <= b <= 57
}

pub open spec fn all_digits(s: Seq<u8>) -> bool {
    forall|i: int| 0 <= i < s.len() ==> is_digit_byte(#[trigger] s[i])
}

/// The number written by the decimal digits `s`, most significant first.
pub open spec fn digits_value(s: Seq<u8>) -> nat
    decreases s.len(),
{
    if s.len() == 0 {
        0
    } else {
        (digits_value(s.drop_last()) * 10 + (s.last() - 48)) as nat
    }
}

pub open spec fn pow10(n: nat) -> nat
    decreases n,
{
    if n == 0 {
        1
    } else {
        10 * pow10((n - 1) as nat)
    }
}

pub proof fn lemma_digits_value_bound(s: Seq<u8>)
    requires
        all_digits(s),
    ensures
        digits_value(s) < pow10(s.len()),
    decreases s.len(),
{
    if s.len() > 0 {
        lemma_digits_value_bound(s.drop_last());
    }
}

/// The `len` bytes of `b` from `start` as a number, if they are all digits.
pub(crate) fn digits_at(b: &[u8], start: usize, len: usize) -> (r: Option<u32>)
    requires
        start + len <= b@.len(),
        len <= 9,
    ensures
        r matches Some(v) ==> all_digits(b@.subrange(start as int, start + len))
            && v == digits_value(b@.subrange(start as int, start + len)),
        r is None ==> !all_digits(b@.subrange(start as int, start + len)),
{
    let mut v: u32 = 0;
    let mut i: usize = 0;
    while i < len
        invariant
            start + len <= b.len(),
            len <= 9,
            i <= len,
            all_digits(b@.subrange(start as int, start + i)),
            v == digits_value(b@.subrange(start as int, start + i)),
            v < pow10(i as nat),
        decreases len - i,
    {
        let c = b[start + i];
        if c < 48 || c > 57 {
            assert(!is_digit_byte(b@.subrange(start as int, start + len)[i as int]));
            return None;
        }
        let ghost prev = b@.subrange(start as int, start + i);
        let ghost next = b@.subrange(start as int, start + i + 1);
        assert(next.drop_last() =~= prev);
        assert(pow10((i + 1) as nat) == 10 * pow10(i as nat));
        assert(pow10(i as nat) <= 100_000_000) by {
            lemma_pow10_mono(i as nat, 8);
            reveal_with_fuel(pow10, 9);
        }
        v = v * 10 + (c - 48) as u32;
        i = i + 1;
    }
    Some(v)
}

/// The number that a field of the bytes `s` writes: decimal digits only,
/// or, where `signed`, also a `-` followed by digits; `None` for anything
/// else.
pub open spec fn number_field(s: Seq<u8>, signed: bool) -> Option<int> {
    if s.len() == 0 {
        None
    } else if signed && s[0] == '-' as u8 {
        let rest = s.drop_first();
        if rest.len() == 0 || !all_digits(rest) {
            None
        } else {
            Some(-(digits_value(rest) as int))
        }
    } else if all_digits(s) {
        Some(digits_value(s) as int)
    } else {
        None
    }
}

/// Digits alone read as the number they write.
pub proof fn lemma_parsed_digits(s: Seq<u8>, signed: bool)
    requires
        s.len() > 0,
        all_digits(s),
    ensures
        number_field(s, signed) == Some(digits_value(s) as int),
{
    assert(is_digit_byte(s[0]));
}

/// What `number_field` reads from `len` bytes lies strictly between
/// `-10^len` and `10^len`, and is not negative unless `signed`.
pub proof fn lemma_number_field_bound(s: Seq<u8>, signed: bool)
    ensures
        number_field(s, signed) matches Some(v) ==> {
            &&& -(pow10(s.len()) as int) < v < pow10(s.len())
            &&& (!signed ==> v >= 0)
        },
{
    if s.len() > 0 {
        let rest = s.drop_first();
        if all_digits(rest) {
            lemma_digits_value_bound(rest);
            assert(pow10(s.len()) == 10 * pow10(rest.len()));
        }
        if all_digits(s) {
            lemma_digits_value_bound(s);
        }
    }
}

/// The `len` bytes of `b` from `start` read as a number field.
pub(crate) fn int_at(b: &[u8], start: usize, len: usize, signed: bool) -> (r: Option<i32>)
    requires
        start + len <= b@.len(),
        1 <= len <= 4,
    ensures
        r is Some <==> number_field(b@.subrange(start as int, start + len), signed) is Some,
        r matches Some(v) ==> number_field(b@.subrange(start as int, start + len), signed)
            == Some(v as int),
{
    let ghost s = b@.subrange(start as int, start + len);
    proof {
        reveal_with_fuel(pow10, 5);
    }
    let first = b[start];
    if signed && first == '-' as u8 {
        if len == 1 {
            return None;
        }
        assert(b@.subrange(start + 1, start + len) =~= s.drop_first());
        match digits_at(b, start + 1, len - 1) {
            None => None,
            Some(v) => {
                proof {
                    lemma_digits_value_bound(s.drop_first());
                    lemma_pow10_mono((len - 1) as nat, 4);
                }
                Some(-(v as i32))
            },
        }
    } else {
        match digits_at(b, start, len) {
            None => None,
            Some(v) => {
                proof {
                    lemma_digits_value_bound(s);
                    lemma_pow10_mono(len as nat, 4);
                }
                Some(v as i32)
            },
        }
    }
}

pub proof fn lemma_pow10_add(a: nat, b: nat)
    ensures
        pow10(a + b) == pow10(a) * pow10(b),
        pow10(a) >= 1,
    decreases a,
{
    if a > 0 {
        lemma_pow10_add((a - 1) as nat, b);
        assert(pow10(a + b) == 10 * pow10((a - 1 + b) as nat));
        assert(10 * (pow10((a - 1) as nat) * pow10(b)) == (10 * pow10((a - 1) as nat)) * pow10(b))
            by (nonlinear_arith);
        assert(pow10(a) == 10 * pow10((a - 1) as nat));
    } else {
        assert(pow10(0) == 1);
        assert(a + b == b);
    }
}

pub proof fn lemma_pow10_mono(a: nat, b: nat)
    requires
        a <= b,
    ensures
        pow10(a) <= pow10(b),
    decreases b,
{
    if a < b {
        lemma_pow10_mono(a, (b - 1) as nat);
    }
}

pub open spec fn digit_char(d: int) -> char {
    (d + 48) as char
}

/// The decimal digits of `n`, most significant first, with no leading zero.
pub open spec fn decimal(n: nat) -> Seq<char>
    decreases n,
{
    if n < 10 {
        seq![digit_char(n as int)]
    } else {
        decimal(n / 10).push(digit_char((n % 10) as int))
    }
}

/// `n` in decimal, padded on the left with zeros to at least `width` characters.
pub open spec fn zero_padded(n: nat, width: nat) -> Seq<char> {
    Seq::new(
        if decimal(n).len() < width { (width - decimal(n).len()) as nat } else { 0 },
        |i: int| '0',
    ) + decimal(n)
}

fn decimal_len(n: u64) -> (r: u64)
    ensures
        r == decimal(n as nat).len(),
        r <= n + 1,
    decreases n,
{
    if n < 10 {
        1
    } else {
        decimal_len(n / 10) + 1
    }
}

pub(crate) fn push_decimal(out: &mut String, n: u64)
    ensures
        final(out)@ == old(out)@ + decimal(n as nat),
    decreases n,
{
    if n >= 10 {
        push_decimal(out, n / 10);
    }
    let d = (n % 10) as u32;
    let c = char_from_digit(d);
    out.push(c);
    assert(final(out)@ =~= old(out)@ + decimal(n as nat)) by {
        if n >= 10 {
            assert(decimal(n as nat) == decimal((n / 10) as nat).push(c));
        }
    }
}

fn char_from_digit(d: u32) -> (c: char)
    requires
        d < 10,
    ensures
        c == digit_char(d as int),
{
    match d {
        0 => '0',
        1 => '1',
        2 => '2',
        3 => '3',
        4 => '4',
        5 => '5',
        6 => '6',
        7 => '7',
        8 => '8',
        _ => '9',
    }
}

/// Appends `n` in decimal, zero-padded to at least `width` characters.
pub(crate) fn push_zero_padded(out: &mut String, n: u64, width: u64)
    ensures
        final(out)@ == old(out)@ + zero_padded(n as nat, width as nat),
{
    let len = decimal_len(n);
    let ghost start = out@;
    let mut k: u64 = len;
    while k < width
        invariant
            len <= k <= width || (width < len && k == len),
            out@ == start + Seq::new((k - len) as nat, |i: int| '0'),
        decreases width - k,
    {
        out.push('0');
        assert(out@ =~= start + Seq::new((k + 1 - len) as nat, |i: int| '0'));
        k = k + 1;
    }
    push_decimal(out, n);
    assert(out@ =~= start + zero_padded(n as nat, width as nat));
}

/// `s` without its trailing `0` characters.
pub open spec fn strip_trailing_zeros(s: Seq<char>) -> Seq<char>
    decreases s.len(),
{
    if s.len() > 0 && s.last() == '0' {
        strip_trailing_zeros(s.drop_last())
    } else {
        s
    }
}

proof fn lemma_zero_padded_times_ten(v: nat, w: nat)
    requires
        v > 0,
    ensures
        zero_padded(10 * v, w) == zero_padded(v, if w > 0 { (w - 1) as nat } else { 0 }).push('0'),
{
    assert((10 * v) / 10 == v);
    assert((10 * v) % 10 == 0);
    assert(decimal(10 * v) == decimal(v).push('0'));
    let w2: nat = if w > 0 { (w - 1) as nat } else { 0 };
    assert(zero_padded(10 * v, w) =~= zero_padded(v, w2).push('0'));
}

/// Appends `n`, taken as nanoseconds, as a fraction of a second: nothing
/// for zero, else `.` and its nine zero-padded digits without trailing zeros.
pub(crate) fn push_fraction(out: &mut String, n: u32)
    ensures
        final(out)@ == old(out)@ + (if n == 0 {
            Seq::<char>::empty()
        } else {
            seq!['.'] + strip_trailing_zeros(zero_padded(n as nat, 9))
        }),
{
    if n == 0 {
        assert(final(out)@ =~= old(out)@ + Seq::<char>::empty());
        return;
    }
    out.push('.');
    let mut v: u32 = n;
    let mut w: u64 = 9;
    while v % 10 == 0
        invariant
            v > 0,
            w <= 9,
            strip_trailing_zeros(zero_padded(n as nat, 9)) == strip_trailing_zeros(
                zero_padded(v as nat, w as nat),
            ),
        decreases v,
    {
        let ghost old_v = v;
        let ghost old_w = w;
        v = v / 10;
        if w > 0 {
            w = w - 1;
        }
        proof {
            assert(old_v == 10 * v);
            lemma_zero_padded_times_ten(v as nat, old_w as nat);
            let z = zero_padded(v as nat, w as nat);
            assert(z.push('0').drop_last() =~= z);
        }
    }
    proof {
        let z = zero_padded(v as nat, w as nat);
        if v >= 10 {
            assert(decimal(v as nat) == decimal((v / 10) as nat).push(digit_char((v % 10) as int)));
        }
        assert(z.last() == decimal(v as nat).last());
        assert(strip_trailing_zeros(z) == z);
    }
    push_zero_padded(out, v as u64, w);
    assert(final(out)@ =~= old(out)@ + (seq!['.'] + strip_trailing_zeros(zero_padded(n as nat, 9))));
}

pub open spec fn is_digit_char(c: char) -> bool {
    '0' <= c <= '9'
}

pub open spec fn all_digit_chars(s: Seq<char>) -> bool {
    forall|i: int| 0 <= i < s.len() ==> is_digit_char(#[trigger] s[i])
}

pub proof fn lemma_ascii_bytes_add(a: Seq<char>, b: Seq<char>)
    ensures
        ascii_bytes(a + b) == ascii_bytes(a) + ascii_bytes(b),
{
    assert(ascii_bytes(a + b) =~= ascii_bytes(a) + ascii_bytes(b));
}

pub proof fn lemma_ascii_bytes_subrange(a: Seq<char>, i: int, j: int)
    requires
        0 <= i <= j <= a.len(),
    ensures
        ascii_bytes(a).subrange(i, j) == ascii_bytes(a.subrange(i, j)),
{
    assert(ascii_bytes(a).subrange(i, j) =~= ascii_bytes(a.subrange(i, j)));
}

/// Digit characters become digit bytes of the same value.
pub proof fn lemma_digit_chars_bytes(s: Seq<char>)
    requires
        all_digit_chars(s),
    ensures
        all_digits(ascii_bytes(s)),
{
    assert forall|i: int| 0 <= i < ascii_bytes(s).len() implies is_digit_byte(
        #[trigger] ascii_bytes(s)[i],
    ) by {
        assert(is_digit_char(s[i]));
    }
}

/// The decimal digits of `n` read back as `n`.
pub proof fn lemma_decimal(n: nat)
    ensures
        decimal(n).len() >= 1,
        all_digit_chars(decimal(n)),
        digits_value(ascii_bytes(decimal(n))) == n,
    decreases n,
{
    if n >= 10 {
        lemma_decimal(n / 10);
        let s = decimal(n / 10);
        let c = digit_char((n % 10) as int);
        assert(ascii_bytes(s.push(c)) =~= ascii_bytes(s).push(c as u8));
        assert(ascii_bytes(s.push(c)).drop_last() =~= ascii_bytes(s));
        assert(c as u8 == n % 10 + 48);
        assert(ascii_bytes(s.push(c)).last() == c as u8);
        assert(digits_value(ascii_bytes(decimal(n))) == (n / 10) * 10 + n % 10);
    } else {
        let c = digit_char(n as int);
        assert(c as u8 == n + 48);
        assert(ascii_bytes(decimal(n)).drop_last() =~= Seq::<u8>::empty());
        assert(ascii_bytes(decimal(n)).last() == c as u8);
        assert(digits_value(Seq::<u8>::empty()) == 0);
        assert(ascii_bytes(decimal(n)).len() == 1);
        assert(digits_value(ascii_bytes(decimal(n))) == digits_value(Seq::<u8>::empty()) * 10 + (
        c as u8 - 48));
    }
}

/// A number below `10^w` has at most `w` decimal digits.
pub proof fn lemma_decimal_len(n: nat, w: nat)
    requires
        n < pow10(w),
        w >= 1,
    ensures
        decimal(n).len() <= w,
    decreases n,
{
    if n >= 10 {
        if w < 2 {
            reveal_with_fuel(pow10, 2);
        }
        assert(pow10(w) == 10 * pow10((w - 1) as nat));
        lemma_decimal_len(n / 10, (w - 1) as nat);
    }
}

pub proof fn lemma_zeros_value(z: Seq<u8>)
    requires
        forall|i: int| 0 <= i < z.len() ==> #[trigger] z[i] == 48,
    ensures
        digits_value(z) == 0,
    decreases z.len(),
{
    if z.len() > 0 {
        lemma_zeros_value(z.drop_last());
    }
}

/// Leading zeros do not change the value of a number.
proof fn lemma_leading_zeros(z: Seq<u8>, s: Seq<u8>)
    requires
        forall|i: int| 0 <= i < z.len() ==> #[trigger] z[i] == 48,
    ensures
        digits_value(z + s) == digits_value(s),
    decreases s.len(),
{
    if s.len() == 0 {
        assert(z + s =~= z);
        lemma_zeros_value(z);
    } else {
        assert((z + s).drop_last() =~= z + s.drop_last());
        lemma_leading_zeros(z, s.drop_last());
    }
}

/// The zero-padded decimal text of `n` is digits that read back as `n`,
/// exactly `w` of them when `n` is below `10^w`.
pub proof fn lemma_zero_padded(n: nat, w: nat)
    ensures
        zero_padded(n, w).len() >= 1,
        zero_padded(n, w).len() >= w,
        all_digit_chars(zero_padded(n, w)),
        all_digits(ascii_bytes(zero_padded(n, w))),
        digits_value(ascii_bytes(zero_padded(n, w))) == n,
        n < pow10(w) && w >= 1 ==> zero_padded(n, w).len() == w,
{
    lemma_decimal(n);
    if n < pow10(w) && w >= 1 {
        lemma_decimal_len(n, w);
    }
    let len = if decimal(n).len() < w { (w - decimal(n).len()) as nat } else { 0 };
    let zeros = Seq::new(len, |i: int| '0');
    lemma_ascii_bytes_add(zeros, decimal(n));
    lemma_leading_zeros(ascii_bytes(zeros), ascii_bytes(decimal(n)));
    lemma_digit_chars_bytes(zero_padded(n, w));
}

/// Stripping trailing zeros keeps a prefix, ends on a non-zero digit, and
/// divides the value by a power of ten.
pub proof fn lemma_strip_trailing_zeros(s: Seq<char>)
    requires
        all_digit_chars(s),
    ensures
        strip_trailing_zeros(s).len() <= s.len(),
        strip_trailing_zeros(s) == s.take(strip_trailing_zeros(s).len() as int),
        strip_trailing_zeros(s).len() > 0 ==> strip_trailing_zeros(s).last() != '0',
        digits_value(ascii_bytes(s)) == digits_value(ascii_bytes(strip_trailing_zeros(s))) * pow10(
            (s.len() - strip_trailing_zeros(s).len()) as nat,
        ),
    decreases s.len(),
{
    if s.len() > 0 && s.last() == '0' {
        let p = s.drop_last();
        lemma_strip_trailing_zeros(p);
        let t = strip_trailing_zeros(p);
        assert(ascii_bytes(s).drop_last() =~= ascii_bytes(p));
        assert(p.take(t.len() as int) =~= s.take(t.len() as int));
        let k = (p.len() - t.len()) as nat;
        assert(pow10(k + 1) == 10 * pow10(k));
        assert(digits_value(ascii_bytes(t)) * pow10(k) * 10 == digits_value(ascii_bytes(t)) * (10
            * pow10(k))) by (nonlinear_arith);
        assert((s.len() - t.len()) as nat == k + 1);
        assert(strip_trailing_zeros(s) == t);
        assert(ascii_bytes(s).last() == 48);
        assert(digits_value(ascii_bytes(s)) == digits_value(ascii_bytes(p)) * 10);
        assert(digits_value(ascii_bytes(s)) == digits_value(ascii_bytes(t)) * pow10(k + 1));
    } else {
        assert(s.take(s.len() as int) =~= s);
        assert(pow10(0) == 1);
        assert(strip_trailing_zeros(s) == s);
        assert((s.len() - s.len()) as nat == 0);
        assert(digits_value(ascii_bytes(s)) * 1 == digits_value(ascii_bytes(s)));
    }
}

} // verus!
