//! The proleptic Gregorian calendar: a direct model (years and months
//! counted one by one from 1970-01-01) and the closed-form day-count
//! algorithm that the library runs, proved to agree with the model.

use vstd::prelude::*;

verus! {

/// The 4/100/400 leap-year rule.
pub open spec fn is_leap(y: int) -> bool {
    (y % 4 == 0 && y % 100 != 0) || y % 400 == 0
}

pub open spec fn year_length(y: int) -> int {
    if is_leap(y) { 366 } else { 365 }
}

/// Length of month `m` of year `y`; 0 for a month number outside 1..=12.
pub open spec fn month_length(y: int, m: int) -> int {
    if m == 1 || m == 3 || m == 5 || m == 7 || m == 8 || m == 10 || m == 12 {
        31
    } else if m == 4 || m == 6 || m == 9 || m == 11 {
        30
    } else if m == 2 {
        if is_leap(y) { 29 } else { 28 }
    } else {
        0
    }
}

pub open spec fn is_valid_date(y: int, m: int, d: int) -> bool {
    1 <= m <= 12 && 1 <= d <= month_length(y, m)
}

/// Days from 1970-01-01 to January 1 of year `y` (negative before 1970),
/// adding up whole years one at a time.
pub open spec fn days_before_year(y: int) -> int
    decreases (if y >= 1970 { y - 1970 } else { 1970 - y }),
{
    if y == 1970 {
        0
    } else if y > 1970 {
        days_before_year(y - 1) + year_length(y - 1)
    } else {
        days_before_year(y + 1) - year_length(y)
    }
}

/// Days from January 1 to the first day of month `m` of year `y`.
pub open spec fn days_before_month(y: int, m: int) -> int
    decreases m,
{
    if m <= 1 {
        0
    } else {
        days_before_month(y, m - 1) + month_length(y, m - 1)
    }
}

/// The calendar day after `y-m-d`.
pub open spec fn next_date(y: int, m: int, d: int) -> (int, int, int) {
    if d < month_length(y, m) {
        (y, m, d + 1)
    } else if m < 12 {
        (y, m + 1, 1)
    } else {
        (y + 1, 1, 1)
    }
}

/// Days since 1970-01-01 of the civil date `y-m-d`.
pub open spec fn civil_days(y: int, m: int, d: int) -> int {
    days_before_year(y) + days_before_month(y, m) + d - 1
}

/// Leap years before `y`, counted from a fixed origin.
spec fn leaps_before(y: int) -> int {
    (y - 1) / 4 - (y - 1) / 100 + (y - 1) / 400
}

proof fn lemma_leaps_step(y: int)
    ensures
        leaps_before(y + 1) == leaps_before(y) + (if is_leap(y) { 1int } else { 0int }),
{
}

pub(crate) proof fn lemma_days_before_year_step(y: int)
    ensures
        days_before_year(y + 1) == days_before_year(y) + year_length(y),
{
}

proof fn lemma_days_before_year_closed(y: int)
    ensures
        days_before_year(y) == 365 * (y - 1970) + leaps_before(y) - 477,
    decreases (if y >= 1970 { y - 1970 } else { 1970 - y }),
{
    if y == 1970 {
    } else if y > 1970 {
        lemma_days_before_year_closed(y - 1);
        lemma_leaps_step(y - 1);
    } else {
        lemma_days_before_year_closed(y + 1);
        lemma_leaps_step(y);
    }
}

// ---------------------------------------------------------------------
// The closed-form algorithm. Its years start on March 1, so that the
// leap day is the last day of a year; 400-year eras repeat exactly.
// ---------------------------------------------------------------------

/// First day, counted from the start of the era, of March-year `t` of an era.
pub open spec fn era_year_start(t: int) -> int {
    365 * t + t / 4 - t / 100
}

/// Length of March-year `t` of an era: its February belongs to calendar
/// year `t + 1` of the era.
pub open spec fn era_year_length(t: int) -> int {
    year_length(t + 1)
}

/// First day, counted from March 1, of the month with March-based index `mp`.
pub open spec fn march_month_start(mp: int) -> int {
    (153 * mp + 2) / 5
}

/// Calendar month of the March-based month index `mp`.
pub open spec fn month_of_march_index(mp: int) -> int {
    if mp < 10 { mp + 3 } else { mp - 9 }
}

/// The year-of-era that the algorithm reads off a day-of-era.
pub open spec fn year_of_era(doe: int) -> int {
    (doe - doe / 1460 + doe / 36524 - doe / 146096) / 365
}

/// A day of an era, given as a March-year and a day inside it, is read back
/// as that March-year.
#[verifier::spinoff_prover]
#[verifier::rlimit(40)]
proof fn lemma_year_of_era(t: int, e: int)
    requires
        0 <= t <= 399,
        0 <= e < era_year_length(t),
    ensures
        year_of_era(era_year_start(t) + e) == t,
        era_year_start(t) + e <= 146096,
{
    let h = t / 100;
    let k = (t % 100) / 4;
    let j = t % 4;
    assert(t == 100 * h + 4 * k + j);
    assert(era_year_start(t) == 36524 * h + 1461 * k + 365 * j);
    let doe = era_year_start(t) + e;
    if t == 399 && e == 365 {
        assert(doe == 146096);
    } else {
        assert(e <= 364 || (j == 3 && k < 24));
        assert(doe / 146096 == 0);
        assert(doe / 36524 == h);
        let n = 25 * h + k;
        let q = (24 * h + k + 365 * j + e) / 1460;
        assert(doe / 1460 == n + q);
        assert(0 <= e - q <= 364);
        assert(doe - doe / 1460 + doe / 36524 - doe / 146096 == 365 * t + (e - q));
    }
}

/// Every day of an era lies in exactly one March-year of it.
#[verifier::spinoff_prover]
#[verifier::rlimit(40)]
proof fn lemma_split_day_of_era(doe: int) -> (te: (int, int))
    requires
        0 <= doe <= 146096,
    ensures
        0 <= te.0 <= 399,
        0 <= te.1 < era_year_length(te.0),
        doe == era_year_start(te.0) + te.1,
{
    if doe == 146096 {
        (399, 365)
    } else {
        let h = doe / 36524;
        let s = doe % 36524;
        let k = s / 1461;
        let rem = s % 1461;
        let j = if rem >= 1095 { 3 } else { rem / 365 };
        let e = rem - 365 * j;
        let t = 100 * h + 4 * k + j;
        assert(t / 4 == 25 * h + k);
        assert(t / 100 == h);
        assert(era_year_start(t) == 36524 * h + 1461 * k + 365 * j);
        if e == 365 {
            assert(k < 24);
            assert((t + 1) % 4 == 0);
            assert((t + 1) % 100 != 0);
        }
        (t, e)
    }
}

/// Length of the month with March-based index `mp` in a March-year whose
/// February has `feb` days.
pub open spec fn march_month_length(mp: int, feb: int) -> int {
    if mp == 11 { feb } else { month_length(1970, month_of_march_index(mp)) }
}

/// A day of a March-year, given as a month and a day inside it, is read back
/// as that month.
#[verifier::spinoff_prover]
#[verifier::rlimit(40)]
proof fn lemma_month_of_day(mp: int, d: int, feb: int)
    requires
        0 <= mp <= 11,
        28 <= feb <= 29,
        1 <= d <= march_month_length(mp, feb),
    ensures
        (5 * (march_month_start(mp) + d - 1) + 2) / 153 == mp,
{
    assert(mp == 0 || mp == 1 || mp == 2 || mp == 3 || mp == 4 || mp == 5 || mp == 6
        || mp == 7 || mp == 8 || mp == 9 || mp == 10 || mp == 11);
}

/// Every day of a March-year lies in exactly one of its months.
#[verifier::spinoff_prover]
#[verifier::rlimit(40)]
proof fn lemma_split_day_of_year(doy: int, feb: int)
    requires
        28 <= feb <= 29,
        0 <= doy < 337 + feb,
    ensures
        0 <= (5 * doy + 2) / 153 <= 11,
        march_month_start((5 * doy + 2) / 153) <= doy,
        doy - march_month_start((5 * doy + 2) / 153) < march_month_length((5 * doy + 2) / 153, feb),
{
    let mp = (5 * doy + 2) / 153;
    assert(mp == 0 || mp == 1 || mp == 2 || mp == 3 || mp == 4 || mp == 5 || mp == 6
        || mp == 7 || mp == 8 || mp == 9 || mp == 10 || mp == 11);
}

/// Day count of `y-m-d` as the closed-form algorithm computes it.
pub open spec fn algorithm_days(y: int, m: int, d: int) -> int {
    let yy = if m <= 2 { y - 1 } else { y };
    let era = yy / 400;
    let yoe = yy - era * 400;
    let mp = (m + 9) % 12;
    let doy = march_month_start(mp) + d - 1;
    let doe = era_year_start(yoe) + doy;
    era * 146097 + doe - 719468
}

/// Civil date of day `z` as the closed-form algorithm computes it.
pub open spec fn algorithm_civil(z: int) -> (int, int, int) {
    let zz = z + 719468;
    let era = zz / 146097;
    let doe = zz - era * 146097;
    let yoe = year_of_era(doe);
    let y = yoe + era * 400;
    let doy = doe - era_year_start(yoe);
    let mp = (5 * doy + 2) / 153;
    let d = doy - march_month_start(mp) + 1;
    let m = month_of_march_index(mp);
    (if m <= 2 { y + 1 } else { y }, m, d)
}

proof fn lemma_leap_era(era: int, u: int)
    ensures
        is_leap(400 * era + u) == is_leap(u),
{
    vstd::arithmetic::div_mod::lemma_mod_multiples_vanish(100 * era, u, 4);
    vstd::arithmetic::div_mod::lemma_mod_multiples_vanish(4 * era, u, 100);
    vstd::arithmetic::div_mod::lemma_mod_multiples_vanish(era, u, 400);
    assert(4 * (100 * era) == 400 * era);
    assert(100 * (4 * era) == 400 * era);
}

pub(crate) proof fn lemma_days_before_month(y: int, m: int)
    requires
        1 <= m <= 12,
    ensures
        days_before_month(y, m) == (if m == 1 {
            0
        } else if m == 2 {
            31
        } else {
            59 + (if is_leap(y) { 1int } else { 0int }) + march_month_start(m - 3)
        }),
{
    reveal_with_fuel(days_before_month, 12);
}

/// Day 0 of era `era`, March 1 of year `400 * era`, counted from 1970-01-01,
/// plus the start of March-year `yoe` of the era.
#[verifier::spinoff_prover]
#[verifier::rlimit(40)]
proof fn lemma_march_start(era: int, yoe: int)
    requires
        0 <= yoe < 400,
    ensures
        era * 146097 + era_year_start(yoe) - 719468
            == days_before_year(400 * era + yoe + 1) - 306,
{
    let yy = 400 * era + yoe;
    lemma_days_before_year_closed(yy + 1);
    assert(yy / 4 == 100 * era + yoe / 4);
    assert(yy / 100 == 4 * era + yoe / 100);
    assert(yy / 400 == era);
}

/// The closed-form algorithm counts days exactly: it agrees with the
/// year-by-year, month-by-month count for every month 1..=12 and every day.
#[verifier::spinoff_prover]
#[verifier::rlimit(40)]
pub proof fn lemma_algorithm_days_exact(y: int, m: int, d: int)
    requires
        1 <= m <= 12,
    ensures
        algorithm_days(y, m, d) == civil_days(y, m, d),
{
    let yy = if m <= 2 { y - 1 } else { y };
    let era = yy / 400;
    let yoe = yy - era * 400;
    lemma_march_start(era, yoe);
    lemma_days_before_month(y, m);
    lemma_days_before_year_step(y);
    if m <= 2 {
        assert(yy + 1 == y);
    } else {
        assert((m + 9) % 12 == m - 3);
    }
}

/// On a valid date, the algorithm's day count is read back as that date.
#[verifier::spinoff_prover]
#[verifier::rlimit(40)]
proof fn lemma_algorithm_civil_of_days(y: int, m: int, d: int)
    requires
        is_valid_date(y, m, d),
    ensures
        algorithm_civil(algorithm_days(y, m, d)) == (y, m, d),
{
    let yy = if m <= 2 { y - 1 } else { y };
    let era = yy / 400;
    let yoe = yy - era * 400;
    let mp = (m + 9) % 12;
    let doy = march_month_start(mp) + d - 1;
    let feb = month_length(yy + 1, 2);
    lemma_leap_era(era, yoe + 1);
    assert(mp == m + 9 || mp == m - 3);
    lemma_month_of_day(mp, d, feb);
    assert(0 <= doy < era_year_length(yoe)) by {
        assert(march_month_start(mp) + march_month_length(mp, feb) <= 337 + feb);
    }
    lemma_year_of_era(yoe, doy);
    let doe = era_year_start(yoe) + doy;
    let zz = algorithm_days(y, m, d) + 719468;
    assert(zz == era * 146097 + doe);
    assert(zz / 146097 == era);
}

/// The algorithm's day count of the date in month `mp` (March-based) of
/// March-year `t` of era `era`.
proof fn lemma_algorithm_days_of_march_date(era: int, t: int, mp: int, d: int)
    requires
        0 <= t < 400,
        0 <= mp <= 11,
    ensures
        algorithm_days(
            if mp >= 10 { 400 * era + t + 1 } else { 400 * era + t },
            month_of_march_index(mp),
            d,
        ) == era * 146097 + era_year_start(t) + march_month_start(mp) + d - 1 - 719468,
{
    let m = month_of_march_index(mp);
    let y = if mp >= 10 { 400 * era + t + 1 } else { 400 * era + t };
    let yy = if m <= 2 { y - 1 } else { y };
    assert(yy == 400 * era + t);
    assert(yy / 400 == era);
    assert(yy - era * 400 == t);
    assert((m + 9) % 12 == mp);
}

/// Outside February a month's length does not depend on the year.
proof fn lemma_month_length_not_february(y1: int, y2: int, m: int)
    requires
        m != 2,
    ensures
        month_length(y1, m) == month_length(y2, m),
{
}

/// The algorithm maps every day to a valid date that has that day count.
#[verifier::spinoff_prover]
#[verifier::rlimit(40)]
proof fn lemma_algorithm_civil_valid(z: int)
    ensures
        is_valid_date(algorithm_civil(z).0, algorithm_civil(z).1, algorithm_civil(z).2),
        algorithm_days(algorithm_civil(z).0, algorithm_civil(z).1, algorithm_civil(z).2) == z,
{
    let zz = z + 719468;
    let era = zz / 146097;
    let doe = zz - era * 146097;
    assert(0 <= doe <= 146096);
    let (t, e) = lemma_split_day_of_era(doe);
    lemma_year_of_era(t, e);
    assert(year_of_era(doe) == t);
    let feb = month_length(t + 1, 2);
    assert(e < 337 + feb);
    lemma_split_day_of_year(e, feb);
    let mp = (5 * e + 2) / 153;
    let d = e - march_month_start(mp) + 1;
    let m = month_of_march_index(mp);
    let y = if mp >= 10 { 400 * era + t + 1 } else { 400 * era + t };
    assert(algorithm_civil(z) == (y, m, d));
    assert(1 <= d <= march_month_length(mp, feb));
    if mp == 11 {
        lemma_leap_era(era, t + 1);
        assert(month_length(y, 2) == feb);
    } else {
        lemma_month_length_not_february(1970, y, m);
    }
    assert(is_valid_date(y, m, d));
    lemma_algorithm_days_of_march_date(era, t, mp, d);
}

/// The valid civil date that lies `z` days after 1970-01-01.
pub open spec fn civil_date_of_day(z: int) -> (int, int, int) {
    choose|date: (int, int, int)|
        is_valid_date(date.0, date.1, date.2) && civil_days(date.0, date.1, date.2) == z
}

/// Distinct valid dates have distinct day counts.
pub proof fn lemma_civil_days_injective(y1: int, m1: int, d1: int, y2: int, m2: int, d2: int)
    requires
        is_valid_date(y1, m1, d1),
        is_valid_date(y2, m2, d2),
        civil_days(y1, m1, d1) == civil_days(y2, m2, d2),
    ensures
        y1 == y2 && m1 == m2 && d1 == d2,
{
    lemma_algorithm_days_exact(y1, m1, d1);
    lemma_algorithm_days_exact(y2, m2, d2);
    lemma_algorithm_civil_of_days(y1, m1, d1);
    lemma_algorithm_civil_of_days(y2, m2, d2);
}

/// Every day count belongs to exactly one valid date, and the closed-form
/// algorithm finds it.
pub proof fn lemma_civil_date_of_day(z: int)
    ensures
        is_valid_date(civil_date_of_day(z).0, civil_date_of_day(z).1, civil_date_of_day(z).2),
        civil_days(civil_date_of_day(z).0, civil_date_of_day(z).1, civil_date_of_day(z).2) == z,
        algorithm_civil(z) == civil_date_of_day(z),
{
    lemma_algorithm_civil_valid(z);
    let a = algorithm_civil(z);
    lemma_algorithm_days_exact(a.0, a.1, a.2);
    assert(is_valid_date(a.0, a.1, a.2) && civil_days(a.0, a.1, a.2) == z);
    let c = civil_date_of_day(z);
    lemma_civil_days_injective(a.0, a.1, a.2, c.0, c.1, c.2);
}

/// Reading a valid date's day count back gives the date.
pub proof fn lemma_civil_date_round_trip(y: int, m: int, d: int)
    requires
        is_valid_date(y, m, d),
    ensures
        civil_date_of_day(civil_days(y, m, d)) == (y, m, d),
{
    lemma_civil_date_of_day(civil_days(y, m, d));
    let c = civil_date_of_day(civil_days(y, m, d));
    lemma_civil_days_injective(y, m, d, c.0, c.1, c.2);
}

pub(crate) fn is_leap_year(y: i32) -> (r: bool)
    ensures
        r == is_leap(y as int),
{
    (y % 4 == 0 && y % 100 != 0) || y % 400 == 0
}

pub(crate) fn days_in_month(y: i32, m: u32) -> (r: u32)
    ensures
        r == month_length(y as int, m as int),
{
    match m {
        1 | 3 | 5 | 7 | 8 | 10 | 12 => 31,
        4 | 6 | 9 | 11 => 30,
        2 => {
            if is_leap_year(y) {
                29
            } else {
                28
            }
        },
        _ => 0,
    }
}

/// Days since 1970-01-01 for a proleptic Gregorian civil date, by Howard
/// Hinnant's `days_from_civil` algorithm.
#[verifier::spinoff_prover]
#[verifier::rlimit(40)]
pub(crate) fn days_from_civil(y: i64, m: i64, d: i64) -> (r: i64)
    requires
        i32::MIN <= y <= i32::MAX,
        0 <= m <= u32::MAX,
        0 <= d <= u32::MAX,
    ensures
        r == algorithm_days(y as int, m as int, d as int),
        1 <= m <= 12 ==> r == civil_days(y as int, m as int, d as int),
{
    let ghost spec_days = algorithm_days(y as int, m as int, d as int);
    proof {
        if 1 <= m <= 12 {
            lemma_algorithm_days_exact(y as int, m as int, d as int);
        }
    }
    let y = if m <= 2 { y - 1 } else { y };
    let era = if y >= 0 { y / 400 } else { (y - 399) / 400 };
    assert(era == y as int / 400);
    let yoe = y - era * 400;
    assert(0 <= yoe < 400);
    let mp = (m + 9) % 12;
    assert(0 <= mp < 12);
    let doy = (153 * mp + 2) / 5 + d - 1;
    assert(doy == march_month_start(mp as int) + d - 1);
    let doe = yoe * 365 + yoe / 4 - yoe / 100 + doy;
    assert(doe == era_year_start(yoe as int) + doy);
    assert(era * 146097 + doe - 719468 == spec_days);
    era * 146097 + doe - 719468
}

/// Inverse of `days_from_civil`.
#[verifier::spinoff_prover]
#[verifier::rlimit(40)]
pub(crate) fn civil_from_days(z: i64) -> (r: (i64, i64, i64))
    requires
        -0x4_0000_0000_0000 <= z <= 0x4_0000_0000_0000,
    ensures
        (r.0 as int, r.1 as int, r.2 as int) == civil_date_of_day(z as int),
        is_valid_date(r.0 as int, r.1 as int, r.2 as int),
        civil_days(r.0 as int, r.1 as int, r.2 as int) == z,
{
    let ghost spec_date = algorithm_civil(z as int);
    proof {
        lemma_civil_date_of_day(z as int);
        lemma_algorithm_civil_valid(z as int);
        lemma_algorithm_days_exact(spec_date.0, spec_date.1, spec_date.2);
    }
    let z = z + 719468;
    let era = if z >= 0 { z / 146097 } else { (z - 146096) / 146097 };
    assert(era == z as int / 146097);
    let doe = z - era * 146097;
    assert(0 <= doe <= 146096);
    let ghost te = lemma_split_day_of_era(doe as int);
    proof {
        lemma_year_of_era(te.0, te.1);
    }
    let yoe = (doe - doe / 1460 + doe / 36524 - doe / 146096) / 365;
    assert(yoe == te.0);
    let y = yoe + era * 400;
    let doy = doe - (365 * yoe + yoe / 4 - yoe / 100);
    assert(doy == te.1);
    let mp = (5 * doy + 2) / 153;
    assert(0 <= mp <= 11);
    let d = doy - (153 * mp + 2) / 5 + 1;
    let m = if mp < 10 { mp + 3 } else { mp - 9 };
    let r = (if m <= 2 { y + 1 } else { y }, m, d);
    assert((r.0 as int, r.1 as int, r.2 as int) == spec_date);
    r
}

} // verus!
