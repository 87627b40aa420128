//! Calendar dates of Unix times in the proleptic Gregorian calendar (UTC).
use vstd::prelude::*;
use crate::text::{all_ascii, ascii_chars, ascii_string};
use vstd::arithmetic::div_mod::{
    lemma_fundamental_div_mod_converse, lemma_hoist_over_denominator, lemma_mod_multiples_vanish,
};

verus! {

/// A calendar date and time of day.
#[derive(Debug, Clone, Copy, PartialEq, Eq, Structural)]
pub struct CivilTime {
    pub year: i64,
    pub month: i64,
    pub day: i64,
    pub hour: i64,
    pub minute: i64,
    pub second: i64,
}

/// Whether `y` is a leap year.
pub open spec fn is_leap(y: int) -> bool {
    (y % 4 == 0 && y % 100 != 0) || y % 400 == 0
}

/// The number of days of month `m` (1..=12) of year `y`.
pub open spec fn days_in_month(y: int, m: int) -> int {
    if m == 2 {
        if is_leap(y) {
            29
        } else {
            28
        }
    } else if m == 4 || m == 6 || m == 9 || m == 11 {
        30
    } else {
        31
    }
}

/// The number of days of year `y` before the first of month `m`.
pub open spec fn days_before_month(y: int, m: int) -> int {
    let before: int = if m == 1 {
        0
    } else if m == 2 {
        31
    } else if m == 3 {
        59
    } else if m == 4 {
        90
    } else if m == 5 {
        120
    } else if m == 6 {
        151
    } else if m == 7 {
        181
    } else if m == 8 {
        212
    } else if m == 9 {
        243
    } else if m == 10 {
        273
    } else if m == 11 {
        304
    } else {
        334
    };
    if m > 2 && is_leap(y) {
        before + 1
    } else {
        before
    }
}

/// The number of days from January 1 of year 0 to January 1 of year `y`.
pub open spec fn days_before_year(y: int) -> int {
    365 * y + (y + 3) / 4 - (y + 99) / 100 + (y + 399) / 400
}

/// The number of days from 1970-01-01 to the date `y-m-d`.
pub open spec fn days_from_civil(y: int, m: int, d: int) -> int {
    days_before_year(y) - days_before_year(1970) + days_before_month(y, m) + d - 1
}

/// The signed number that the 64 bits of `u` stand for in two's complement.
pub open spec fn as_signed(u: u64) -> int {
    if u < 0x8000000000000000 {
        u as int
    } else {
        u - 0x10000000000000000
    }
}

/// The year of the cycle and the day of that (March-based) year of the
/// day `doe` of a 400-year cycle.
proof fn lemma_cycle_split(doe: u32)
    requires
        doe < 146097,
    ensures
        ({
            let yoe = (doe - doe / 1460 + doe / 36524 - doe / 146096) / 365;
            let doy = doe - (365 * yoe + yoe / 4 - yoe / 100);
            &&& yoe < 400
            &&& 0 <= doy <= 365
            &&& doy == 365 ==> is_leap(yoe + 1)
        }),
{
    assert({
        let yoe = (doe - doe / 1460 + doe / 36524 - doe / 146096) / 365;
        let doy = doe - (365 * yoe + yoe / 4 - yoe / 100);
        &&& yoe < 400
        &&& 0 <= doy <= 365
        &&& doy == 365 ==> ((yoe + 1) % 4 == 0 && (yoe + 1) % 100 != 0) || (yoe + 1) % 400 == 0
    }) by (bit_vector)
        requires
            doe < 146097,
    ;
}

/// The month and day of the day `doy` of a March-based year.
proof fn lemma_month_day(doy: u32)
    requires
        doy <= 365,
    ensures
        ({
            let mp = (5 * doy + 2) / 153;
            let d = doy - (153 * mp + 2) / 5 + 1;
            &&& mp <= 11
            &&& 1 <= d
            &&& mp == 11 ==> d <= 29
            &&& mp == 11 && doy < 365 ==> d <= 28
            &&& (mp == 1 || mp == 3 || mp == 6 || mp == 8) ==> d <= 30
            &&& d <= 31
            &&& mp == 0 ==> (153 * mp + 2) / 5 == 0
            &&& mp == 1 ==> (153 * mp + 2) / 5 == 31
            &&& mp == 2 ==> (153 * mp + 2) / 5 == 61
            &&& mp == 3 ==> (153 * mp + 2) / 5 == 92
            &&& mp == 4 ==> (153 * mp + 2) / 5 == 122
            &&& mp == 5 ==> (153 * mp + 2) / 5 == 153
            &&& mp == 6 ==> (153 * mp + 2) / 5 == 184
            &&& mp == 7 ==> (153 * mp + 2) / 5 == 214
            &&& mp == 8 ==> (153 * mp + 2) / 5 == 245
            &&& mp == 9 ==> (153 * mp + 2) / 5 == 275
            &&& mp == 10 ==> (153 * mp + 2) / 5 == 306
            &&& mp == 11 ==> (153 * mp + 2) / 5 == 337
        }),
{
    assert({
        let mp = (5 * doy + 2) / 153;
        let d = doy - (153 * mp + 2) / 5 + 1;
        &&& mp <= 11
        &&& 1 <= d
        &&& mp == 11 ==> d <= 29
        &&& mp == 11 && doy < 365 ==> d <= 28
        &&& (mp == 1 || mp == 3 || mp == 6 || mp == 8) ==> d <= 30
        &&& d <= 31
        &&& mp == 0 ==> (153 * mp + 2) / 5 == 0
        &&& mp == 1 ==> (153 * mp + 2) / 5 == 31
        &&& mp == 2 ==> (153 * mp + 2) / 5 == 61
        &&& mp == 3 ==> (153 * mp + 2) / 5 == 92
        &&& mp == 4 ==> (153 * mp + 2) / 5 == 122
        &&& mp == 5 ==> (153 * mp + 2) / 5 == 153
        &&& mp == 6 ==> (153 * mp + 2) / 5 == 184
        &&& mp == 7 ==> (153 * mp + 2) / 5 == 214
        &&& mp == 8 ==> (153 * mp + 2) / 5 == 245
        &&& mp == 9 ==> (153 * mp + 2) / 5 == 275
        &&& mp == 10 ==> (153 * mp + 2) / 5 == 306
        &&& mp == 11 ==> (153 * mp + 2) / 5 == 337
    }) by (bit_vector)
        requires
            doy <= 365,
    ;
}


/// Shifting a year by whole 400-year cycles shifts its day count by whole
/// cycles of days and keeps whether it is a leap year.
proof fn lemma_era_shift(era: int, yy: int)
    ensures
        days_before_year(400 * era + yy) == 146097 * era + days_before_year(yy),
        is_leap(400 * era + yy) == is_leap(yy),
{
    lemma_hoist_over_denominator(yy + 3, 100 * era, 4);
    lemma_hoist_over_denominator(yy + 99, 4 * era, 100);
    lemma_hoist_over_denominator(yy + 399, era, 400);
    lemma_mod_multiples_vanish(100 * era, yy, 4);
    lemma_mod_multiples_vanish(4 * era, yy, 100);
    lemma_mod_multiples_vanish(era, yy, 400);
    assert(400 * era + yy + 3 == yy + 3 + (100 * era) * 4);
    assert(400 * era + yy + 99 == yy + 99 + (4 * era) * 100);
    assert(400 * era + yy + 399 == yy + 399 + era * 400);
}

/// The year of the cycle of the day `doe` of a 400-year cycle that starts on
/// March 1.
pub open spec fn cycle_year(doe: int) -> int {
    (doe - doe / 1460 + doe / 36524 - doe / 146096) / 365
}

/// The day of its (March-based) year of the day `doe` of a cycle.
pub open spec fn cycle_day(doe: int) -> int {
    let yoe = cycle_year(doe);
    doe - (365 * yoe + yoe / 4 - yoe / 100)
}

/// The month index (0 for March, 11 for February) of the day `doy` of a
/// March-based year.
pub open spec fn march_month(doy: int) -> int {
    (5 * doy + 2) / 153
}

/// The day of its month of the day `doy` of a March-based year.
pub open spec fn march_day(doy: int) -> int {
    doy - (153 * march_month(doy) + 2) / 5 + 1
}

/// The calendar month (1..=12) of the month index `mp` (0 for March).
pub open spec fn calendar_month(mp: int) -> int {
    if mp < 10 {
        mp + 3
    } else {
        mp - 9
    }
}

/// The day `doe` of a cycle is the date `Y-m-d` of that cycle, where `Y` is
/// the cycle year, moved on by one for January and February.
proof fn lemma_cycle_date(doe: int)
    requires
        0 <= doe < 146097,
    ensures
        ({
            let yoe = cycle_year(doe);
            let doy = cycle_day(doe);
            let m = calendar_month(march_month(doy));
            let yy = if m <= 2 { yoe + 1 } else { yoe };
            let d = march_day(doy);
            &&& 0 <= yoe < 400
            &&& 0 <= doy <= 365
            &&& 1 <= m <= 12
            &&& 1 <= d <= days_in_month(yy, m)
            &&& days_before_year(yy) + days_before_month(yy, m) + d - 1 == doe + 60
        }),
{
    lemma_cycle_split(doe as u32);
    let yoe = cycle_year(doe);
    let doy = cycle_day(doe);
    lemma_month_day(doy as u32);
    let mp = march_month(doy);
    let m = calendar_month(mp);
    let d = march_day(doy);
    if mp < 10 {
        assert(days_before_month(yoe, m) == 59 + (153 * mp + 2) / 5 + (if is_leap(yoe) { 1int } else { 0 }));
        if yoe == 0 {
            assert(days_before_year(0) == 0);
        } else {
            assert((yoe + 399) / 400 == 1);
            assert((yoe + 3) / 4 == yoe / 4 + (if yoe % 4 != 0 { 1int } else { 0 }));
            assert((yoe + 99) / 100 == yoe / 100 + (if yoe % 100 != 0 { 1int } else { 0 }));
        }
    } else {
        assert(days_before_month(yoe + 1, m) == (153 * mp + 2) / 5 - 306);
        assert((yoe + 4) / 4 == yoe / 4 + 1);
        assert((yoe + 100) / 100 == yoe / 100 + 1);
        assert((yoe + 400) / 400 == 1);
    }
}


/// Whether `c` is the date and time of day, in UTC, of the Unix time of
/// `secs` seconds.
pub open spec fn is_civil_time_of(c: CivilTime, secs: int) -> bool {
    let days = secs / 86400;
    let tod = secs % 86400;
    &&& c.hour == tod / 3600
    &&& c.minute == tod % 3600 / 60
    &&& c.second == tod % 60
    &&& 1 <= c.month <= 12
    &&& 1 <= c.day <= days_in_month(c.year as int, c.month as int)
    &&& days_from_civil(c.year as int, c.month as int, c.day as int) == days
}

/// Whole 400-year cycles added to a day count to keep it non-negative.
const ERA_SHIFT: u64 = 800_000_000;

/// Days added to a day count since 1970-01-01 to count from a March 1 that
/// starts a 400-year cycle and lies before every day that 64 bits of seconds
/// reach.
const DAY_SHIFT: u64 = 116_877_600_719_468;

/// The day count of `unix_secs` (read as signed) moved on by `DAY_SHIFT`,
/// and its second of the day.
fn split_days(unix_secs: u64) -> (r: (u64, u64))
    ensures
        r.0 == as_signed(unix_secs) / 86400 + DAY_SHIFT,
        r.1 == as_signed(unix_secs) % 86400,
{
    let ghost secs = as_signed(unix_secs);
    if unix_secs < 0x8000000000000000 {
        proof {
            lemma_fundamental_div_mod_converse(secs, 86400, (unix_secs / 86400) as int, (unix_secs % 86400) as int);
        }
        (unix_secs / 86400 + DAY_SHIFT, unix_secs % 86400)
    } else {
        let n: u64 = (u64::MAX - unix_secs) + 1;
        let q: u64 = (n + 86399) / 86400;
        assert(q * 86400 <= n + 86399 && n + 86399 < q * 86400 + 86400) by (nonlinear_arith)
            requires
                q == (n + 86399) / 86400,
        ;
        let r: u64 = q * 86400 - n;
        proof {
            lemma_fundamental_div_mod_converse(secs, 86400, -(q as int), r as int);
        }
        (DAY_SHIFT - q, r)
    }
}

/// The cycle year moved on for January and February, the month and the day
/// of the day `doe` of a 400-year cycle.
fn cycle_date(doe: u64) -> (r: (u64, u64, u64))
    requires
        doe < 146097,
    ensures
        r.0 < 401,
        1 <= r.1 <= 12,
        1 <= r.2 <= days_in_month(r.0 as int, r.1 as int),
        days_before_year(r.0 as int) + days_before_month(r.0 as int, r.1 as int) + r.2 - 1 == doe + 60,
{
    proof {
        lemma_cycle_date(doe as int);
    }
    let yoe: u64 = (doe - doe / 1460 + doe / 36524 - doe / 146096) / 365;
    let doy: u64 = doe - (365 * yoe + yoe / 4 - yoe / 100);
    let mp: u64 = (5 * doy + 2) / 153;
    let d: u64 = doy - (153 * mp + 2) / 5 + 1;
    let m: u64 = if mp < 10 {
        mp + 3
    } else {
        mp - 9
    };
    let yy: u64 = if m <= 2 {
        yoe + 1
    } else {
        yoe
    };
    (yy, m, d)
}

/// The date and time of day, in UTC, of the Unix time `unix_secs`, whose 64
/// bits are read as a signed number of seconds.
pub fn civil_time(unix_secs: u64) -> (c: CivilTime)
    ensures
        is_civil_time_of(c, as_signed(unix_secs)),
{
    let (shifted, tod) = split_days(unix_secs);
    let era: u64 = shifted / 146097;
    let doe: u64 = shifted % 146097;
    let (yy, m, d) = cycle_date(doe);
    let year: i64 = (400 * era) as i64 - (400 * ERA_SHIFT) as i64 + yy as i64;
    proof {
        let e = era - ERA_SHIFT;
        lemma_era_shift(e, yy as int);
        assert(year == 400 * e + yy);
        assert(days_before_year(1970) == 719528);
        assert(shifted == 146097 * era + doe);
    }
    CivilTime {
        year,
        month: m as i64,
        day: d as i64,
        hour: (tod / 3600) as i64,
        minute: (tod % 3600 / 60) as i64,
        second: (tod % 60) as i64,
    }
}


/// Moving on by one moves the quotient by `d` on by one exactly when the
/// remainder comes back to zero.
proof fn lemma_div_step(x: int, d: int)
    requires
        d > 0,
    ensures
        (x + 1) / d == x / d + (if (x + 1) % d == 0 { 1int } else { 0 }),
{
    let q = x / d;
    let r = x % d;
    vstd::arithmetic::div_mod::lemma_mod_bound(x, d);
    assert(x == q * d + r) by {
        vstd::arithmetic::div_mod::lemma_fundamental_div_mod(x, d);
        vstd::arithmetic::mul::lemma_mul_is_commutative(q, d);
    }
    if r + 1 < d {
        lemma_fundamental_div_mod_converse(x + 1, d, q, r + 1);
    } else {
        assert(x + 1 == (q + 1) * d + 0) by {
            vstd::arithmetic::mul::lemma_mul_is_distributive_add_other_way(d, q, 1);
        }
        lemma_fundamental_div_mod_converse(x + 1, d, q + 1, 0);
    }
}

/// A multiple of `a * b` is a multiple of `b`.
proof fn lemma_multiple_of_factor(y: int, a: int, b: int)
    requires
        a > 0,
        b > 0,
        y % (a * b) == 0,
    ensures
        y % b == 0,
{
    vstd::arithmetic::mul::lemma_mul_strictly_positive(a, b);
    vstd::arithmetic::div_mod::lemma_fundamental_div_mod(y, a * b);
    let k = y / (a * b);
    assert(y == b * (a * k)) by {
        vstd::arithmetic::mul::lemma_mul_is_associative(b, a, k);
        vstd::arithmetic::mul::lemma_mul_is_commutative(a, b);
    }
    vstd::arithmetic::div_mod::lemma_mod_multiples_basic(a * k, b);
    vstd::arithmetic::mul::lemma_mul_is_commutative(a * k, b);
}

/// A year has 365 days, 366 in a leap year.
pub proof fn lemma_year_length(y: int)
    ensures
        days_before_year(y + 1) - days_before_year(y) == 365 + (if is_leap(y) { 1int } else { 0 }),
{
    lemma_div_step(y + 3, 4);
    lemma_div_step(y + 99, 100);
    lemma_div_step(y + 399, 400);
    lemma_mod_multiples_vanish(1, y, 4);
    lemma_mod_multiples_vanish(1, y, 100);
    lemma_mod_multiples_vanish(1, y, 400);
    if y % 400 == 0 {
        lemma_multiple_of_factor(y, 4, 100);
    }
    if y % 100 == 0 {
        lemma_multiple_of_factor(y, 25, 4);
    }
}

/// Later years start later.
proof fn lemma_year_start_monotone(a: int, b: int)
    requires
        a <= b,
    ensures
        days_before_year(a) <= days_before_year(b),
    decreases b - a,
{
    if a < b {
        lemma_year_start_monotone(a, b - 1);
        lemma_year_length(b - 1);
    }
}

/// The day of its year of a valid date, counted from 0.
pub open spec fn day_of_year(y: int, m: int, d: int) -> int {
    days_before_month(y, m) + d - 1
}

/// Within a year, valid dates fall on distinct days, all inside the year.
proof fn lemma_day_of_year(y: int, m1: int, d1: int, m2: int, d2: int)
    requires
        1 <= m1 <= 12,
        1 <= d1 <= days_in_month(y, m1),
        1 <= m2 <= 12,
        1 <= d2 <= days_in_month(y, m2),
    ensures
        0 <= day_of_year(y, m1, d1) < 365 + (if is_leap(y) { 1int } else { 0 }),
        day_of_year(y, m1, d1) == day_of_year(y, m2, d2) ==> m1 == m2 && d1 == d2,
{
}

/// Valid dates fall on distinct days.
pub proof fn lemma_days_from_civil_injective(y1: int, m1: int, d1: int, y2: int, m2: int, d2: int)
    requires
        1 <= m1 <= 12,
        1 <= d1 <= days_in_month(y1, m1),
        1 <= m2 <= 12,
        1 <= d2 <= days_in_month(y2, m2),
        days_from_civil(y1, m1, d1) == days_from_civil(y2, m2, d2),
    ensures
        y1 == y2,
        m1 == m2,
        d1 == d2,
{
    lemma_day_of_year(y1, m1, d1, m1, d1);
    lemma_day_of_year(y2, m2, d2, m2, d2);
    lemma_year_length(y1);
    lemma_year_length(y2);
    if y1 < y2 {
        lemma_year_start_monotone(y1 + 1, y2);
    } else if y2 < y1 {
        lemma_year_start_monotone(y2 + 1, y1);
    }
    lemma_day_of_year(y1, m1, d1, m2, d2);
}

/// A Unix time has one date and time of day: `civil_time` names it.
pub proof fn lemma_civil_time_unique(c1: CivilTime, c2: CivilTime, secs: int)
    requires
        is_civil_time_of(c1, secs),
        is_civil_time_of(c2, secs),
    ensures
        c1 == c2,
{
    lemma_days_from_civil_injective(
        c1.year as int,
        c1.month as int,
        c1.day as int,
        c2.year as int,
        c2.month as int,
        c2.day as int,
    );
}

/// The decimal digits (ASCII) of `n`, without leading zeros.
pub open spec fn decimal(n: nat) -> Seq<u8>
    decreases n,
{
    if n < 10 {
        seq![(48 + n) as u8]
    } else {
        decimal(n / 10).push((48 + n % 10) as u8)
    }
}

/// `digits` with ASCII zeros in front up to `width` bytes.
pub open spec fn zero_padded(digits: Seq<u8>, width: nat) -> Seq<u8> {
    if digits.len() >= width {
        digits
    } else {
        Seq::new((width - digits.len()) as nat, |i: int| 48u8) + digits
    }
}

/// The decimal form of `v` padded with zeros to `width` bytes, the sign
/// counted in the width, as `{:0width}` writes it.
pub open spec fn padded_decimal(v: int, width: nat) -> Seq<u8> {
    if v < 0 {
        seq![45u8] + zero_padded(decimal((-v) as nat), (width - 1) as nat)
    } else {
        zero_padded(decimal(v as nat), width)
    }
}

/// The RFC 3339 text `YYYY-MM-DDTHH:MM:SSZ` of a date and time of day.
pub open spec fn civil_text(c: CivilTime) -> Seq<u8> {
    padded_decimal(c.year as int, 4) + seq![45u8] + padded_decimal(c.month as int, 2) + seq![45u8]
        + padded_decimal(c.day as int, 2) + seq![84u8] + padded_decimal(c.hour as int, 2)
        + seq![58u8] + padded_decimal(c.minute as int, 2) + seq![58u8]
        + padded_decimal(c.second as int, 2) + seq![90u8]
}

/// Decimal digits are ASCII digits, at least one of them.
pub proof fn lemma_decimal_digits(n: nat)
    ensures
        decimal(n).len() >= 1,
        forall|i: int| 0 <= i < decimal(n).len() ==> 48 <= #[trigger] decimal(n)[i] <= 57,
    decreases n,
{
    if n >= 10 {
        lemma_decimal_digits(n / 10);
    }
}

/// Padded decimal forms are ASCII.
pub proof fn lemma_padded_ascii(v: int, width: nat)
    ensures
        all_ascii(padded_decimal(v, width)),
{
    let n: nat = if v < 0 { (-v) as nat } else { v as nat };
    lemma_decimal_digits(n);
}

/// The decimal digits of `n`.
pub(crate) fn decimal_digits(n: u64) -> (v: Vec<u8>)
    ensures
        v@ == decimal(n as nat),
    decreases n,
{
    if n < 10 {
        let mut v: Vec<u8> = Vec::new();
        v.push(48u8 + n as u8);
        assert(v@ =~= seq![(48 + n) as u8]);
        v
    } else {
        let mut v = decimal_digits(n / 10);
        v.push(48u8 + (n % 10) as u8);
        v
    }
}

/// Appends `{:0width}` of `v` to `out`.
fn push_padded(out: &mut Vec<u8>, v: i64, width: usize)
    requires
        width >= 1,
    ensures
        final(out)@ == old(out)@ + padded_decimal(v as int, width as nat),
{
    let magnitude: u64 = if v < 0 {
        (-(v + 1)) as u64 + 1
    } else {
        v as u64
    };
    let digits = decimal_digits(magnitude);
    let field: usize = if v < 0 {
        out.push(45u8);
        width - 1
    } else {
        width
    };
    let ghost before = out@;
    let mut k: usize = digits.len();
    while k < field
        invariant
            k <= field || k == digits@.len(),
            digits@.len() <= k,
            out@ == before + Seq::new((k - digits@.len()) as nat, |i: int| 48u8),
        decreases field - k,
    {
        out.push(48u8);
        k += 1;
        assert(out@ =~= before + Seq::new((k - digits@.len()) as nat, |i: int| 48u8));
    }
    let mut j: usize = 0;
    let ghost padded = out@;
    while j < digits.len()
        invariant
            j <= digits@.len(),
            out@ == padded + digits@.take(j as int),
        decreases digits@.len() - j,
    {
        out.push(digits[j]);
        j += 1;
        assert(out@ =~= padded + digits@.take(j as int));
    }
    assert(digits@.take(digits@.len() as int) =~= digits@);
    proof {
        let w: nat = if v < 0 { (width - 1) as nat } else { width as nat };
        assert(field == w);
        if digits@.len() >= w {
            assert(Seq::new((k - digits@.len()) as nat, |i: int| 48u8) =~= Seq::<u8>::empty());
        }
        if v < 0 {
            assert(out@ =~= old(out)@ + padded_decimal(v as int, width as nat));
        } else {
            assert(out@ =~= old(out)@ + padded_decimal(v as int, width as nat));
        }
    }
}

/// The RFC 3339 text of a date and time of day.
pub fn format_civil(c: &CivilTime) -> (s: String)
    ensures
        s@ == ascii_chars(civil_text(*c)),
{
    let mut out: Vec<u8> = Vec::new();
    push_padded(&mut out, c.year, 4);
    out.push(45u8);
    push_padded(&mut out, c.month, 2);
    out.push(45u8);
    push_padded(&mut out, c.day, 2);
    out.push(84u8);
    push_padded(&mut out, c.hour, 2);
    out.push(58u8);
    push_padded(&mut out, c.minute, 2);
    out.push(58u8);
    push_padded(&mut out, c.second, 2);
    out.push(90u8);
    proof {
        assert(out@ =~= civil_text(*c));
        lemma_padded_ascii(c.year as int, 4);
        lemma_padded_ascii(c.month as int, 2);
        lemma_padded_ascii(c.day as int, 2);
        lemma_padded_ascii(c.hour as int, 2);
        lemma_padded_ascii(c.minute as int, 2);
        lemma_padded_ascii(c.second as int, 2);
        assert(all_ascii(civil_text(*c)));
    }
    ascii_string(out)
}

/// The RFC 3339 text, in UTC, of the Unix time `unix_secs`.
pub fn rfc3339(unix_secs: u64) -> (s: String)
    ensures
        exists|c: CivilTime| is_civil_time_of(c, as_signed(unix_secs)) && s@ == ascii_chars(civil_text(c)),
{
    let c = civil_time(unix_secs);
    format_civil(&c)
}


/// The decimal text of `n`.
pub fn decimal_string(n: u64) -> (s: String)
    ensures
        s@ == ascii_chars(decimal(n as nat)),
{
    proof {
        lemma_decimal_digits(n as nat);
    }
    ascii_string(decimal_digits(n))
}

} // verus!
