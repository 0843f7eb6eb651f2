//! Timestamps: the current Unix time and the ISO-8601 form the store uses
//! for `date` fields.

use vstd::arithmetic::div_mod::{lemma_fundamental_div_mod, lemma_fundamental_div_mod_converse};
use vstd::prelude::*;


verus! {

/// The civil date `(year, month, day)` of day `z` counted from 1970-01-01,
/// in the proleptic Gregorian calendar: eras of 400 years (146 097 days),
/// years counted from March so that the leap day comes last.
pub open spec fn civil(z: nat) -> (int, int, int) {
    let zz = z + 719_468;
    let era = zz / 146_097;
    let doe = zz % 146_097;
    let yoe = (doe - doe / 1460 + doe / 36_524 - doe / 146_096) / 365;
    let y = yoe + era * 400;
    let doy = doe - (365 * yoe + yoe / 4 - yoe / 100);
    let mp = (5 * doy + 2) / 153;
    let d = doy - (153 * mp + 2) / 5 + 1;
    let m = if mp < 10 {
        mp + 3
    } else {
        mp - 9
    };
    (if m <= 2 {
        y + 1
    } else {
        y
    }, m, d)
}

/// Within an era, the year and the day of the year stay in range.
proof fn lemma_year_of_era(doe: u64)
    requires
        doe <= 146096,
    ensures
        doe - doe / 1460 + doe / 36524 >= doe / 146096,
        ({
            let yoe = (doe - doe / 1460 + doe / 36524 - doe / 146096) / 365;
            &&& yoe <= 399
            &&& 365 * yoe + yoe / 4 - yoe / 100 <= doe
            &&& doe - (365 * yoe + yoe / 4 - yoe / 100) <= 365
        }),
{
    assert(doe - doe / 1460 + doe / 36524 >= doe / 146096) by (bit_vector)
        requires
            doe <= 146096,
    ;
    assert({
        let yoe = (doe - doe / 1460 + doe / 36524 - doe / 146096) / 365;
        &&& yoe <= 399
        &&& 365 * yoe + yoe / 4 - yoe / 100 <= doe
        &&& doe - (365 * yoe + yoe / 4 - yoe / 100) <= 365
    }) by (bit_vector)
        requires
            doe <= 146096,
    ;
}

/// The day of the year (from March) reaches 365 only in a year whose
/// February (in the next calendar year) has a leap day.
proof fn lemma_last_day_of_year(doe: u64)
    requires
        doe <= 146096,
    ensures
        ({
            let yoe = (doe - doe / 1460 + doe / 36524 - doe / 146096) / 365;
            doe - (365 * yoe + yoe / 4 - yoe / 100) == 365 ==> (yoe + 1) % 4 == 0 && ((yoe + 1) % 100 != 0
                || (yoe + 1) % 400 == 0)
        }),
{
    assert({
        let yoe = (doe - doe / 1460 + doe / 36524 - doe / 146096) / 365;
        doe - (365 * yoe + yoe / 4 - yoe / 100) == 365 ==> (yoe + 1) % 4 == 0 && ((yoe + 1) % 100 != 0
            || (yoe + 1) % 400 == 0)
    }) by (bit_vector)
        requires
            doe <= 146096,
    ;
}

/// The first day of year `k` of an era, counted from the era's start.
pub open spec fn year_start(k: int) -> int {
    365 * k + k / 4 - k / 100 + k / 400
}

/// Within an era, a day lies before the start of the year after its own.
proof fn lemma_before_next_year(doe: u64)
    requires
        doe <= 146096,
    ensures
        ({
            let yoe = (doe - doe / 1460 + doe / 36524 - doe / 146096) / 365;
            doe < 365 * (yoe + 1) + (yoe + 1) / 4 - (yoe + 1) / 100 + (yoe + 1) / 400
        }),
{
    assert({
        let yoe = (doe - doe / 1460 + doe / 36524 - doe / 146096) / 365;
        doe < 365 * (yoe + 1) + (yoe + 1) / 4 - (yoe + 1) / 100 + (yoe + 1) / 400
    }) by (bit_vector)
        requires
            doe <= 146096,
    ;
}

/// Later years of an era start later.
proof fn lemma_year_start_grows(a: u64, b: u64)
    requires
        a < b <= 400,
    ensures
        365 * (a + 1) + (a + 1) / 4 - (a + 1) / 100 + (a + 1) / 400 <= 365 * b + b / 4 - b / 100 + b / 400,
{
    assert(365 * (a + 1) + (a + 1) / 4 - (a + 1) / 100 + (a + 1) / 400 <= 365 * b + b / 4 - b / 100 + b / 400)
        by (bit_vector)
        requires
            a < b <= 400,
    ;
}

/// A year of an era has 365 days, 366 when it ends on a leap day.
proof fn lemma_year_length(k: u64)
    requires
        k <= 399,
    ensures
        365 * (k + 1) + (k + 1) / 4 - (k + 1) / 100 + (k + 1) / 400 - (365 * k + k / 4 - k / 100 + k / 400)
            == if (k + 1) % 4 == 0 && ((k + 1) % 100 != 0 || (k + 1) % 400 == 0) {
            366int
        } else {
            365int
        },
        k / 400 == 0,
{
    assert(365 * (k + 1) + (k + 1) / 4 - (k + 1) / 100 + (k + 1) / 400 - (365 * k + k / 4 - k / 100 + k / 400)
        == if (k + 1) % 4 == 0 && ((k + 1) % 100 != 0 || (k + 1) % 400 == 0) {
        366int
    } else {
        365int
    }) by (bit_vector)
        requires
            k <= 399,
    ;
}

/// The first day of month `k` of a year counted from March (March is 0).
pub open spec fn month_start(k: int) -> int {
    (153 * k + 2) / 5
}

/// Within a year counted from March, a day lies in its month.
proof fn lemma_month_of_day(dy: u64)
    requires
        dy <= 365,
    ensures
        (5 * dy + 2) / 153 <= 11,
        (153 * ((5 * dy + 2) / 153) + 2) / 5 <= dy,
        dy < (153 * ((5 * dy + 2) / 153 + 1) + 2) / 5,
{
    assert((5 * dy + 2) / 153 <= 11 && (153 * ((5 * dy + 2) / 153) + 2) / 5 <= dy && dy < (153 * ((5 * dy + 2)
        / 153 + 1) + 2) / 5) by (bit_vector)
        requires
            dy <= 365,
    ;
}

/// Later months start later.
proof fn lemma_month_start_grows(a: u64, b: u64)
    requires
        a < b <= 12,
    ensures
        (153 * (a + 1) + 2) / 5 <= (153 * b + 2) / 5,
{
    assert((153 * (a + 1) + 2) / 5 <= (153 * b + 2) / 5) by (bit_vector)
        requires
            a < b <= 12,
    ;
}

/// The months from March to January have 31 days but April, June,
/// September and November (months 1, 3, 6 and 8 from March), which have 30.
proof fn lemma_month_length(k: u64)
    requires
        k <= 10,
    ensures
        (153 * (k + 1) + 2) / 5 - (153 * k + 2) / 5 == if k == 1 || k == 3 || k == 6 || k == 8 {
            30int
        } else {
            31int
        },
{
    assert((153 * (k + 1) + 2) / 5 - (153 * k + 2) / 5 == if k == 1 || k == 3 || k == 6 || k == 8 {
        30int
    } else {
        31int
    }) by (bit_vector)
        requires
            k <= 10,
    ;
}

/// Whether `y` is a leap year of the proleptic Gregorian calendar.
pub open spec fn is_leap(y: int) -> bool {
    y % 4 == 0 && (y % 100 != 0 || y % 400 == 0)
}

/// The number of days of month `m` of year `y`.
pub open spec fn days_in_month(y: int, m: int) -> int {
    if m == 2 {
        if is_leap(y) {
            29
        } else {
            28
        }
    } else if m == 4 || m == 6 || m == 9 || m == 11 {
        30
    } else {
        31
    }
}

/// The day count from 1970-01-01 of the date `(y, m, d)`.
pub open spec fn days_from_civil(y: int, m: int, d: int) -> int {
    let yy = if m <= 2 {
        y - 1
    } else {
        y
    };
    let era = yy / 400;
    let yoe = yy - era * 400;
    let mp = if m > 2 {
        m - 3
    } else {
        m + 9
    };
    let doy = month_start(mp) + d - 1;
    era * 146_097 + 365 * yoe + yoe / 4 - yoe / 100 + doy - 719_468
}

/// The calendar day after `(y, m, d)`.
pub open spec fn next_day(c: (int, int, int)) -> (int, int, int) {
    if c.2 < days_in_month(c.0, c.1) {
        (c.0, c.1, c.2 + 1)
    } else if c.1 < 12 {
        (c.0, c.1 + 1, 1)
    } else {
        (c.0 + 1, 1, 1)
    }
}

proof fn lemma_leap_shift(t: int, e: int)
    requires
        t >= 0,
        e >= 0,
    ensures
        is_leap(t + 400 * e) == is_leap(t),
{
    lemma_fundamental_div_mod(t, 4);
    lemma_fundamental_div_mod(t, 100);
    lemma_fundamental_div_mod(t, 400);
    lemma_fundamental_div_mod_converse(t + 400 * e, 4, t / 4 + 100 * e, t % 4);
    lemma_fundamental_div_mod_converse(t + 400 * e, 100, t / 100 + 4 * e, t % 100);
    lemma_fundamental_div_mod_converse(t + 400 * e, 400, t / 400 + e, t % 400);
}

/// The year of the era (counted from March) of day `doe` of an era.
pub open spec fn yoe_of(doe: int) -> int {
    (doe - doe / 1460 + doe / 36_524 - doe / 146_096) / 365
}

/// The day of that year (from March 1) of day `doe` of an era.
pub open spec fn doy_of(doe: int) -> int {
    doe - (365 * yoe_of(doe) + yoe_of(doe) / 4 - yoe_of(doe) / 100)
}

/// The civil date of day `doe` of era `era` (eras of 400 years starting on
/// March 1 of year 0).
pub open spec fn date_of_era(era: int, doe: int) -> (int, int, int) {
    let y = yoe_of(doe) + era * 400;
    let doy = doy_of(doe);
    let mp = (5 * doy + 2) / 153;
    let d = doy - month_start(mp) + 1;
    let m = if mp < 10 {
        mp + 3
    } else {
        mp - 9
    };
    (if m <= 2 {
        y + 1
    } else {
        y
    }, m, d)
}

proof fn lemma_era_day(doe: int)
    requires
        0 <= doe <= 146_096,
    ensures
        0 <= yoe_of(doe) <= 399,
        0 <= doy_of(doe) <= 365,
        year_start(yoe_of(doe)) + doy_of(doe) == doe,
        doe < year_start(yoe_of(doe) + 1),
        year_start(yoe_of(doe) + 1) - year_start(yoe_of(doe)) == if is_leap(yoe_of(doe) + 1) {
            366int
        } else {
            365int
        },
        doy_of(doe) == 365 ==> is_leap(yoe_of(doe) + 1),
{
    let x = doe as u64;
    lemma_year_of_era(x);
    lemma_before_next_year(x);
    lemma_last_day_of_year(x);
    let y = (x - x / 1460 + x / 36524 - x / 146096) / 365;
    assert(y == yoe_of(doe));
    lemma_year_length(y as u64);
}

proof fn lemma_year_of_day(a: int, b: int, x: int)
    requires
        0 <= a <= 399,
        0 <= b <= 399,
        year_start(a) <= x < year_start(a + 1),
        year_start(b) <= x < year_start(b + 1),
    ensures
        a == b,
{
    if a < b {
        lemma_year_start_grows(a as u64, b as u64);
    } else if b < a {
        lemma_year_start_grows(b as u64, a as u64);
    }
}

proof fn lemma_month_of(dy: int)
    requires
        0 <= dy <= 365,
    ensures
        0 <= (5 * dy + 2) / 153 <= 11,
        month_start((5 * dy + 2) / 153) <= dy < month_start((5 * dy + 2) / 153 + 1),
{
    lemma_month_of_day(dy as u64);
}

proof fn lemma_month_unique(a: int, b: int, x: int)
    requires
        0 <= a <= 11,
        0 <= b <= 11,
        month_start(a) <= x < month_start(a + 1),
        month_start(b) <= x < month_start(b + 1),
    ensures
        a == b,
{
    if a < b {
        lemma_month_start_grows(a as u64, b as u64);
    } else if b < a {
        lemma_month_start_grows(b as u64, a as u64);
    }
}

proof fn lemma_month_days(mp: int)
    requires
        0 <= mp <= 10,
    ensures
        month_start(mp + 1) - month_start(mp) == days_in_month(
            0,
            if mp < 10 {
                mp + 3
            } else {
                mp - 9
            },
        ),
{
    lemma_month_length(mp as u64);
}

proof fn lemma_date_valid(era: int, doe: int)
    requires
        era >= 0,
        0 <= doe <= 146_096,
    ensures
        1 <= date_of_era(era, doe).1 <= 12,
        1 <= date_of_era(era, doe).2 <= days_in_month(date_of_era(era, doe).0, date_of_era(era, doe).1),
{
    lemma_era_day(doe);
    let yoe = yoe_of(doe);
    let dy = doy_of(doe);
    lemma_month_of(dy);
    let mp = (5 * dy + 2) / 153;
    if mp <= 10 {
        lemma_month_days(mp);
    } else {
        assert(month_start(11) == 337);
        if dy == 365 {
            lemma_leap_shift(yoe + 1, era);
            assert(yoe + era * 400 + 1 == yoe + 1 + 400 * era);
        }
    }
}

proof fn lemma_date_round_trip(era: int, doe: int)
    requires
        era >= 0,
        0 <= doe <= 146_096,
    ensures
        ({
            let c = date_of_era(era, doe);
            days_from_civil(c.0, c.1, c.2) == era * 146_097 + doe - 719_468
        }),
{
    lemma_era_day(doe);
    let yoe = yoe_of(doe);
    let dy = doy_of(doe);
    lemma_month_of(dy);
    let yy = yoe + era * 400;
    lemma_fundamental_div_mod_converse(yy, 400, era, yoe);
    assert(yoe / 400 == 0);
}

proof fn lemma_date_next(era: int, doe: int)
    requires
        era >= 0,
        0 <= doe < 146_096,
    ensures
        date_of_era(era, doe + 1) == next_day(date_of_era(era, doe)),
{
    lemma_era_day(doe);
    lemma_era_day(doe + 1);
    let y1 = yoe_of(doe);
    let y2 = yoe_of(doe + 1);
    let d1 = doy_of(doe);
    let d2 = doy_of(doe + 1);
    lemma_month_of(d1);
    lemma_month_of(d2);
    let m1 = (5 * d1 + 2) / 153;
    let m2 = (5 * d2 + 2) / 153;
    assert(month_start(11) == 337);
    assert(month_start(12) == 367);
    if doe + 1 < year_start(y1 + 1) {
        lemma_year_of_day(y1, y2, doe + 1);
        assert(d2 == d1 + 1);
        if d1 + 1 < month_start(m1 + 1) {
            lemma_month_unique(m1, m2, d2);
            if m1 <= 10 {
                lemma_month_days(m1);
            } else if d2 == 365 {
                lemma_leap_shift(y1 + 1, era);
                assert(y1 + era * 400 + 1 == y1 + 1 + 400 * era);
            }
        } else {
            assert(m1 <= 10);
            lemma_month_days(m1);
            if m1 + 1 <= 10 {
                lemma_month_length((m1 + 1) as u64);
            }
            lemma_month_unique(m1 + 1, m2, d2);
        }
    } else {
        assert(y1 <= 398) by {
            if y1 == 399 {
                assert(year_start(400) == 146_097);
            }
        }
        lemma_year_length((y1 + 1) as u64);
        lemma_year_of_day(y1 + 1, y2, doe + 1);
        assert(d2 == 0);
        assert(m2 == 0);
        assert(d1 == 364 || d1 == 365);
        assert(m1 == 11);
        lemma_leap_shift(y1 + 1, era);
        assert(y1 + era * 400 + 1 == y1 + 1 + 400 * era);
    }
}

proof fn lemma_date_next_era(era: int)
    requires
        era >= 0,
    ensures
        date_of_era(era + 1, 0) == next_day(date_of_era(era, 146_096)),
{
    lemma_era_day(146_096);
    assert(yoe_of(146_096) == 399);
    assert(doy_of(146_096) == 365);
    assert(month_start(11) == 337);
    assert(yoe_of(0) == 0);
    assert(doy_of(0) == 0);
    lemma_leap_shift(400, era);
    assert(399 + era * 400 + 1 == 400 + 400 * era);
    assert(0 + (era + 1) * 400 == 400 + 400 * era);
}

/// The civil date of a day count is a real calendar date, the day count of
/// that date is the one it came from, and the next day count gives the next
/// calendar day; day 0 is 1970-01-01.
pub proof fn lemma_civil_calendar(z: nat)
    ensures
        1 <= civil(z).1 <= 12,
        1 <= civil(z).2 <= days_in_month(civil(z).0, civil(z).1),
        days_from_civil(civil(z).0, civil(z).1, civil(z).2) == z,
        civil(z + 1) == next_day(civil(z)),
        civil(0) == (1970int, 1int, 1int),
{
    let zz: int = z as int + 719_468;
    let era: int = zz / 146_097;
    let doe: int = zz % 146_097;
    lemma_fundamental_div_mod(zz, 146_097);
    assert(civil(z) == date_of_era(era, doe));
    lemma_date_valid(era, doe);
    lemma_date_round_trip(era, doe);
    if doe < 146_096 {
        lemma_fundamental_div_mod_converse(zz + 1, 146_097, era, doe + 1);
        assert(civil(z + 1) == date_of_era(era, doe + 1));
        lemma_date_next(era, doe);
    } else {
        lemma_fundamental_div_mod_converse(zz + 1, 146_097, era + 1, 0);
        assert(civil(z + 1) == date_of_era(era + 1, 0));
        lemma_date_next_era(era);
    }
    lemma_fundamental_div_mod_converse(719_468, 146_097, 4, 135_080);
    assert(civil(0) == date_of_era(4, 135_080));
    assert(yoe_of(135_080) == 369);
    assert(doy_of(135_080) == 306);
    assert(month_start(10) == 306);
}

/// Within a year counted from March, the month and the day stay in range.
proof fn lemma_month_of_year(doy: u64)
    requires
        doy <= 365,
    ensures
        (5 * doy + 2) / 153 <= 11,
        (153 * ((5 * doy + 2) / 153) + 2) / 5 <= doy,
        doy - (153 * ((5 * doy + 2) / 153) + 2) / 5 <= 30,
{
    assert((5 * doy + 2) / 153 <= 11 && (153 * ((5 * doy + 2) / 153) + 2) / 5 <= doy && doy - (153 * (
    (5 * doy + 2) / 153) + 2) / 5 <= 30) by (bit_vector)
        requires
            doy <= 365,
    ;
}

/// The decimal digits of `n`, most significant first.
pub open spec fn decimal(n: nat) -> Seq<char>
    decreases n,
{
    if n < 10 {
        seq![digit(n)]
    } else {
        decimal(n / 10).push(digit(n % 10))
    }
}

/// The character of decimal digit `n`.
pub open spec fn digit(n: nat) -> char {
    if n == 0 {
        '0'
    } else if n == 1 {
        '1'
    } else if n == 2 {
        '2'
    } else if n == 3 {
        '3'
    } else if n == 4 {
        '4'
    } else if n == 5 {
        '5'
    } else if n == 6 {
        '6'
    } else if n == 7 {
        '7'
    } else if n == 8 {
        '8'
    } else {
        '9'
    }
}

/// Trusted: `SystemTime::now` measured from `UNIX_EPOCH` in whole seconds
/// (0 when the clock reads before the epoch). Nothing is promised of the
/// value: it is the machine's clock.
#[verifier::external_body]
pub fn now_secs() -> (r: u64) {
    std::time::SystemTime::now().duration_since(std::time::UNIX_EPOCH).unwrap_or_default().as_secs()
}

/// The civil date of day `z` counted from 1970-01-01 (see [`civil`]).
pub fn civil_from_days(z: u64) -> (r: (u64, u64, u64))
    requires
        z <= u64::MAX / 2,
    ensures
        (r.0 as int, r.1 as int, r.2 as int) == civil(z as nat),
        1 <= r.1 <= 12,
        1 <= r.2 <= days_in_month(r.0 as int, r.1 as int),
        days_from_civil(r.0 as int, r.1 as int, r.2 as int) == z,
{
    proof {
        lemma_civil_calendar(z as nat);
    }
    let zz = z + 719_468;
    let era = zz / 146_097;
    let doe = zz % 146_097;
    proof {
        lemma_year_of_era(doe);
    }
    let yoe = (doe - doe / 1460 + doe / 36_524 - doe / 146_096) / 365;
    let y = yoe + era * 400;
    let doy = doe - (365 * yoe + yoe / 4 - yoe / 100);
    proof {
        lemma_month_of_year(doy);
    }
    let mp = (5 * doy + 2) / 153;
    let d = doy - (153 * mp + 2) / 5 + 1;
    let m = if mp < 10 {
        mp + 3
    } else {
        mp - 9
    };
    (if m <= 2 {
        y + 1
    } else {
        y
    }, m, d)
}

/// Appends the decimal digits of `n`.
pub(crate) fn push_decimal(out: &mut Vec<char>, n: u64)
    ensures
        final(out)@ == old(out)@ + decimal(n as nat),
    decreases n,
{
    if n >= 10 {
        push_decimal(out, n / 10);
    }
    let k = n % 10;
    let c = if k == 0 {
        '0'
    } else if k == 1 {
        '1'
    } else if k == 2 {
        '2'
    } else if k == 3 {
        '3'
    } else if k == 4 {
        '4'
    } else if k == 5 {
        '5'
    } else if k == 6 {
        '6'
    } else if k == 7 {
        '7'
    } else if k == 8 {
        '8'
    } else {
        '9'
    };
    let ghost before = out@;
    out.push(c);
    proof {
        if n < 10 {
            assert(n % 10 == n);
        }
    }
}

/// The decimal digits of `n`, left-padded with zeros to `width`.
pub open spec fn padded(n: nat, width: nat) -> Seq<char> {
    let s = decimal(n);
    if s.len() < width {
        Seq::new((width - s.len()) as nat, |i: int| '0') + s
    } else {
        s
    }
}

/// A year as chrono's `%Y` writes it: four digits, zero-padded, up to 9999;
/// from 10000 on a `+` sign and all its digits.
pub open spec fn year_text(y: nat) -> Seq<char> {
    if y <= 9999 {
        padded(y, 4)
    } else {
        seq!['+'] + decimal(y)
    }
}

/// `YYYY-MM-DD HH:MM:SS.000Z` for the Unix time `secs` (UTC), the date
/// being the civil date of its day (see [`civil`] and
/// [`lemma_civil_calendar`]) and the year written as [`year_text`] says.
pub open spec fn iso8601_of(secs: nat) -> Seq<char> {
    let c = civil(secs / 86_400);
    let rem = secs % 86_400;
    year_text(c.0 as nat) + seq!['-'] + padded(c.1 as nat, 2) + seq!['-'] + padded(c.2 as nat, 2) + seq![' ']
        + padded(rem / 3600, 2) + seq![':'] + padded((rem % 3600) / 60, 2) + seq![':'] + padded(rem % 60, 2)
        + seq!['.', '0', '0', '0', 'Z']
}

/// The first Unix second that chrono cannot represent: the start of year
/// 262143, one past its last year.
pub const CHRONO_END: u64 = 8_210_266_876_800;

/// The least `u64` whose `as i64` reading (a negative number) is again a
/// time chrono can represent: 2^64 less the seconds from the start of year
/// -262143, chrono's first year, to 1970.
pub const WRAPPED_IN_RANGE: u64 = 18_446_735_739_108_322_816;

/// The text that chrono writes for the Unix time `secs`: the UTC date-time
/// of `DateTime::from_timestamp(secs as i64, 0)` (the Unix epoch when that
/// is out of chrono's range), formatted with `%Y-%m-%d %H:%M:%S%.3fZ`.
pub uninterp spec fn utc_timestamp_text(secs: u64) -> Seq<char>;

/// Trusted: `chrono::DateTime::from_timestamp`, `unwrap_or_default` on its
/// `None` (out of range), then `format("%Y-%m-%d %H:%M:%S%.3fZ")`. The
/// contract names the result, a function of `secs` alone (chrono's UTC
/// formatting reads no locale and no time zone), and states it wherever
/// `secs as i64` is not negative: chrono's dates are those of the
/// proleptic Gregorian calendar up to year 262142, `%Y` writes a year as
/// [`year_text`] says, the other fields take two digits, and `%.3f` writes
/// `.000` for a whole second; past year 262142 `from_timestamp` gives
/// `None` and the default is the Unix epoch, as it is for the `u64` values
/// whose `as i64` reading lies before chrono's first year. For the values
/// from [`WRAPPED_IN_RANGE`] on, read as times before 1970, the text is
/// only named.
#[verifier::external_body]
fn format_utc(secs: u64) -> (r: String)
    ensures
        r@ == utc_timestamp_text(secs),
        secs < CHRONO_END ==> r@ == iso8601_of(secs as nat),
        CHRONO_END <= secs < WRAPPED_IN_RANGE ==> r@ == iso8601_of(0),
{
    chrono::DateTime::from_timestamp(secs as i64, 0).unwrap_or_default().format("%Y-%m-%d %H:%M:%S%.3fZ").to_string()
}

/// Formats a Unix timestamp as the ISO-8601 string used for the store's
/// `date` fields and the matrix `generated_at`: `YYYY-MM-DD HH:MM:SS.mmmZ`,
/// UTC, as chrono writes it (see [`utc_timestamp_text`]).
pub fn iso8601(secs: u64) -> (r: String)
    ensures
        r@ == utc_timestamp_text(secs),
        secs < CHRONO_END ==> r@ == iso8601_of(secs as nat),
        CHRONO_END <= secs < WRAPPED_IN_RANGE ==> r@ == iso8601_of(0),
{
    format_utc(secs)
}

} // verus!
