//! The proleptic Gregorian calendar, counted in days from 1970-01-01, and the
//! zero-padded decimal text that timestamps are written in.

use vstd::prelude::*;

verus! {

/// Leap years: every fourth, except centuries not divisible by 400.
pub open spec fn is_leap(y: int) -> bool {
    y % 4 == 0 && (y % 100 != 0 || y % 400 == 0)
}

/// The length of year `y` in days.
pub open spec fn days_in_year(y: int) -> int {
    if is_leap(y) { 366 } else { 365 }
}

/// The length of month `m` (1 = January) of year `y` in days.
pub open spec fn days_in_month(y: int, m: int) -> int {
    if m == 2 {
        if is_leap(y) { 29 } else { 28 }
    } else if m == 4 || m == 6 || m == 9 || m == 11 {
        30
    } else {
        31
    }
}

/// Days from 1 January of year `y` to the first of month `m`.
pub open spec fn days_before_month(y: int, m: int) -> int
    decreases m,
{
    if m <= 1 { 0 } else { days_before_month(y, m - 1) + days_in_month(y, m - 1) }
}

/// Days from 1970-01-01 to 1 January of year `y` (negative before 1970).
pub open spec fn days_before_year(y: int) -> int
    decreases (if y >= 1970 { y - 1970 } else { 1970 - y }),
{
    if y > 1970 {
        days_before_year(y - 1) + days_in_year(y - 1)
    } else if y < 1970 {
        days_before_year(y + 1) - days_in_year(y)
    } else {
        0
    }
}

/// `y-m-d` names a day of the calendar.
pub open spec fn valid_date(y: int, m: int, d: int) -> bool {
    1 <= m <= 12 && 1 <= d <= days_in_month(y, m)
}

/// Days from 1970-01-01 to `y-m-d`.
pub open spec fn day_number(y: int, m: int, d: int) -> int {
    days_before_year(y) + days_before_month(y, m) + d - 1
}

/// The number of leap years among years 1..=n (for n >= 1), extended to all
/// integers with floor division.
pub open spec fn leaps_through(n: int) -> int {
    n / 4 - n / 100 + n / 400
}

/// `n / k` steps up by one exactly where `n` is a multiple of `k`.
proof fn lemma_div_step(n: int, k: int)
    requires
        k > 0,
    ensures
        n / k - (n - 1) / k == (if n % k == 0 { 1int } else { 0int }),
{
    assert(n / k - (n - 1) / k == (if n % k == 0 { 1int } else { 0int })) by (nonlinear_arith)
        requires
            k > 0,
    {
        vstd::arithmetic::div_mod::lemma_fundamental_div_mod(n, k);
        vstd::arithmetic::div_mod::lemma_fundamental_div_mod(n - 1, k);
    }
}

/// Counting leap years one year further adds one exactly for a leap year.
pub(crate) proof fn lemma_leaps_step(n: int)
    ensures
        leaps_through(n) == leaps_through(n - 1) + (if is_leap(n) { 1int } else { 0int }),
{
    lemma_div_step(n, 4);
    lemma_div_step(n, 100);
    lemma_div_step(n, 400);
    assert(n % 400 == 0 ==> n % 100 == 0);
    assert(n % 100 == 0 ==> n % 4 == 0);
}

/// The closed form of [`days_before_year`].
pub(crate) proof fn lemma_days_before_year(y: int)
    ensures
        days_before_year(y) == 365 * (y - 1970) + leaps_through(y - 1) - leaps_through(1969),
    decreases (if y >= 1970 { y - 1970 } else { 1970 - y }),
{
    if y > 1970 {
        lemma_days_before_year(y - 1);
        lemma_leaps_step(y - 1);
    } else if y < 1970 {
        lemma_days_before_year(y + 1);
        lemma_leaps_step(y);
    }
}

/// Hinnant's year-of-era step: `doe` days into a 400-year era (counted from
/// 1 March) fall in year `yoe` of the era, `doy` days after its 1 March.
proof fn lemma_year_of_era_bits(doe: u32)
    by (bit_vector)
    requires
        doe < 146097,
    ensures
        ({
            let yoe = (doe - doe / 1460 + doe / 36524 - doe / 146096) / 365;
            &&& yoe <= 399
            &&& 365 * yoe + yoe / 4 - yoe / 100 <= doe
            &&& doe - (365 * yoe + yoe / 4 - yoe / 100) <= 365
            &&& (doe - (365 * yoe + yoe / 4 - yoe / 100) == 365 ==> ((yoe + 1) % 4 == 0 && ((yoe
                + 1) % 100 != 0 || yoe == 399)))
        }),
{
}

/// Hinnant's month step: day `doy` of a March-based year lies in month `mp`
/// (0 = March), whose first day is `(153 * mp + 2) / 5`.
proof fn lemma_month_of_year_bits(doy: u32)
    by (bit_vector)
    requires
        doy < 366,
    ensures
        ({
            let mp = (5 * doy + 2) / 153;
            &&& mp <= 11
            &&& (153 * mp + 2) / 5 <= doy
            &&& mp < 11 ==> doy < (153 * (mp + 1) + 2) / 5
        }),
{
}


/// Days from 0000-03-01 to 1 March of year `y`.
pub open spec fn march_first(y: int) -> int {
    365 * y + leaps_through(y)
}

/// 1 March of year `y`, and 1 January after it, measured from 1970-01-01.
proof fn lemma_march_first(y: int)
    ensures
        days_before_year(y) + 59 + (if is_leap(y) { 1int } else { 0int }) == march_first(y)
            - 719468,
        days_before_year(y + 1) == march_first(y) + 306 - 719468,
{
    lemma_days_before_year(y);
    lemma_days_before_year(y + 1);
    lemma_leaps_step(y);
}

/// A 400-year era is 146097 days; `yoe` years into one, the count of leap
/// days restarts.
proof fn lemma_era(era: int, yoe: int)
    requires
        0 <= yoe < 400,
    ensures
        march_first(400 * era + yoe) == 146097 * era + 365 * yoe + yoe / 4 - yoe / 100,
{
    let y = 400 * era + yoe;
    vstd::arithmetic::div_mod::lemma_fundamental_div_mod_converse(
        y,
        4,
        100 * era + yoe / 4,
        yoe % 4,
    );
    vstd::arithmetic::div_mod::lemma_fundamental_div_mod_converse(
        y,
        100,
        4 * era + yoe / 100,
        yoe % 100,
    );
    vstd::arithmetic::div_mod::lemma_fundamental_div_mod_converse(y, 400, era, yoe);
}

/// The first of each month, in days after 1 January.
proof fn lemma_month_starts(y: int)
    ensures
        ({
            let l: int = if is_leap(y) { 1 } else { 0 };
            &&& days_before_month(y, 1) == 0
            &&& days_before_month(y, 2) == 31
            &&& days_before_month(y, 3) == 59 + l
            &&& days_before_month(y, 4) == 90 + l
            &&& days_before_month(y, 5) == 120 + l
            &&& days_before_month(y, 6) == 151 + l
            &&& days_before_month(y, 7) == 181 + l
            &&& days_before_month(y, 8) == 212 + l
            &&& days_before_month(y, 9) == 243 + l
            &&& days_before_month(y, 10) == 273 + l
            &&& days_before_month(y, 11) == 304 + l
            &&& days_before_month(y, 12) == 334 + l
        }),
{
    assert(days_before_month(y, 1) == 0);
    assert(days_before_month(y, 2) == 31);
    assert(days_before_month(y, 3) == days_before_month(y, 2) + days_in_month(y, 2));
    assert(days_before_month(y, 4) == days_before_month(y, 3) + 31);
    assert(days_before_month(y, 5) == days_before_month(y, 4) + 30);
    assert(days_before_month(y, 6) == days_before_month(y, 5) + 31);
    assert(days_before_month(y, 7) == days_before_month(y, 6) + 30);
    assert(days_before_month(y, 8) == days_before_month(y, 7) + 31);
    assert(days_before_month(y, 9) == days_before_month(y, 8) + 31);
    assert(days_before_month(y, 10) == days_before_month(y, 9) + 30);
    assert(days_before_month(y, 11) == days_before_month(y, 10) + 31);
    assert(days_before_month(y, 12) == days_before_month(y, 11) + 30);
}

/// Hinnant's arithmetic on a day count `z` (days since 1970-01-01, negative
/// before it) lands on a valid date with that day number.
#[verifier::rlimit(40)]
pub(crate) proof fn lemma_civil(z: int)
    ensures
        ({
            let zz = z + 719468;
            let era = zz / 146097;
            let doe = zz - era * 146097;
            let yoe = (doe - doe / 1460 + doe / 36524 - doe / 146096) / 365;
            let y = yoe + era * 400;
            let doy = doe - (365 * yoe + yoe / 4 - yoe / 100);
            let mp = (5 * doy + 2) / 153;
            let d = doy - (153 * mp + 2) / 5 + 1;
            let m = if mp < 10 { mp + 3 } else { mp - 9 };
            let yy = if m <= 2 { y + 1 } else { y };
            &&& 0 <= doe < 146097
            &&& 0 <= yoe <= 399
            &&& 0 <= doy <= 365
            &&& 0 <= mp <= 11
            &&& valid_date(yy, m, d)
            &&& day_number(yy, m, d) == z
        }),
{
    let zz = z + 719468;
    let era = zz / 146097;
    let doe = zz - era * 146097;
    vstd::arithmetic::div_mod::lemma_fundamental_div_mod(zz, 146097);
    assert(0 <= doe < 146097);
    lemma_year_of_era_bits(doe as u32);
    let yoe = (doe - doe / 1460 + doe / 36524 - doe / 146096) / 365;
    let y = yoe + era * 400;
    let doy = doe - (365 * yoe + yoe / 4 - yoe / 100);
    lemma_month_of_year_bits(doy as u32);
    let mp = (5 * doy + 2) / 153;
    let d = doy - (153 * mp + 2) / 5 + 1;
    let m = if mp < 10 { mp + 3 } else { mp - 9 };
    let yy = if m <= 2 { y + 1 } else { y };
    lemma_era(era, yoe);
    lemma_march_first(y);
    lemma_month_starts(y);
    lemma_month_starts(y + 1);
    assert(march_first(y) == zz - doy);
    if doy == 365 {
        let k = yoe + 1;
        vstd::arithmetic::div_mod::lemma_fundamental_div_mod_converse(y + 1, 4, 100 * era + k / 4, k % 4);
        vstd::arithmetic::div_mod::lemma_fundamental_div_mod_converse(y + 1, 100, 4 * era + k / 100, k % 100);
        vstd::arithmetic::div_mod::lemma_fundamental_div_mod_converse(y + 1, 400, era + k / 400, k % 400);
        assert((y + 1) % 4 == 0 && ((y + 1) % 100 != 0 || (y + 1) % 400 == 0));
    }
}

/// The decimal digit `d` as a character.
pub open spec fn digit_char(d: int) -> char {
    (d + 48) as char
}

/// Appends the decimal digit `d`.
pub(crate) fn push_digit(s: &mut String, d: u64)
    requires
        d < 10,
    ensures
        final(s)@ == old(s)@.push(digit_char(d as int)),
{
    proof {
        reveal_strlit("0");
        reveal_strlit("1");
        reveal_strlit("2");
        reveal_strlit("3");
        reveal_strlit("4");
        reveal_strlit("5");
        reveal_strlit("6");
        reveal_strlit("7");
        reveal_strlit("8");
        reveal_strlit("9");
    }
    let t = match d {
        0 => "0",
        1 => "1",
        2 => "2",
        3 => "3",
        4 => "4",
        5 => "5",
        6 => "6",
        7 => "7",
        8 => "8",
        _ => "9",
    };
    s.append(t);
}

/// The decimal digits of `n`, most significant first.
pub open spec fn decimal(n: nat) -> Seq<char>
    decreases n,
{
    if n < 10 {
        seq![digit_char(n as int)]
    } else {
        decimal(n / 10).push(digit_char((n % 10) as int))
    }
}

/// The decimal digits of `n`, left-padded with `'0'` to at least `width`
/// characters.
pub open spec fn zero_padded(n: nat, width: nat) -> Seq<char> {
    let digits = decimal(n);
    if digits.len() < width {
        Seq::new((width - digits.len()) as nat, |_i: int| '0') + digits
    } else {
        digits
    }
}

/// A decimal numeral has at least one digit.
proof fn lemma_decimal_len(n: nat)
    ensures
        decimal(n).len() >= 1,
    decreases n,
{
    if n >= 10 {
        lemma_decimal_len(n / 10);
    }
}

/// Peeling the last digit off a padded numeral.
proof fn lemma_zero_padded_step(n: nat, width: nat)
    ensures
        width <= 1 ==> zero_padded(n, width) == decimal(n),
        width > 1 ==> zero_padded(n, width) == zero_padded(n / 10, (width - 1) as nat).push(
            digit_char((n % 10) as int),
        ),
{
    lemma_decimal_len(n);
    lemma_decimal_len(n / 10);
    if width > 1 {
        let d = digit_char((n % 10) as int);
        if n >= 10 {
            assert(decimal(n) == decimal(n / 10).push(d));
            assert(zero_padded(n, width) =~= zero_padded(n / 10, (width - 1) as nat).push(d));
        } else {
            assert(decimal(n / 10) == seq!['0']);
            assert(decimal(n) == seq![d]);
            assert(zero_padded(n, width) =~= zero_padded(n / 10, (width - 1) as nat).push(d));
        }
    }
}

/// Appends the decimal digits of `n`.
pub(crate) fn push_decimal(s: &mut String, n: u64)
    ensures
        final(s)@ == old(s)@ + decimal(n as nat),
    decreases n,
{
    if n >= 10 {
        push_decimal(s, n / 10);
    }
    push_digit(s, n % 10);
    proof {
        assert(old(s)@ + decimal(n as nat) =~= s@);
    }
}

/// Appends `n` in decimal, zero-padded to `width` characters (`{:0width}`).
pub(crate) fn push_zero_padded(s: &mut String, n: u64, width: u64)
    ensures
        final(s)@ == old(s)@ + zero_padded(n as nat, width as nat),
    decreases width,
{
    proof {
        lemma_zero_padded_step(n as nat, width as nat);
    }
    if width <= 1 {
        push_decimal(s, n);
    } else {
        push_zero_padded(s, n / 10, width - 1);
        push_digit(s, n % 10);
        proof {
            assert(old(s)@ + zero_padded(n as nat, width as nat) =~= s@);
        }
    }
}

/// Consecutive years are one year length apart.
pub(crate) proof fn lemma_year_step(y: int)
    ensures
        days_before_year(y + 1) == days_before_year(y) + days_in_year(y),
{
    lemma_days_before_year(y);
    lemma_days_before_year(y + 1);
    lemma_leaps_step(y);
}

/// Later years start later, by at least 365 days a year.
pub(crate) proof fn lemma_years_ordered(a: int, b: int)
    requires
        a <= b,
    ensures
        days_before_year(a) + 365 * (b - a) <= days_before_year(b),
    decreases b - a,
{
    if a < b {
        lemma_years_ordered(a, b - 1);
        lemma_year_step(b - 1);
    }
}

/// A valid date's day number falls within its year.
pub(crate) proof fn lemma_date_in_year(y: int, m: int, d: int)
    requires
        valid_date(y, m, d),
    ensures
        days_before_year(y) <= day_number(y, m, d) < days_before_year(y + 1),
        days_before_month(y, m) <= day_number(y, m, d) - days_before_year(y) < days_before_month(y, m) + days_in_month(y, m),
{
    lemma_month_starts(y);
    lemma_year_step(y);
}

/// Each day number names at most one valid date.
pub proof fn lemma_day_number_unique(y1: int, m1: int, d1: int, y2: int, m2: int, d2: int)
    requires
        valid_date(y1, m1, d1),
        valid_date(y2, m2, d2),
        day_number(y1, m1, d1) == day_number(y2, m2, d2),
    ensures
        y1 == y2 && m1 == m2 && d1 == d2,
{
    lemma_date_in_year(y1, m1, d1);
    lemma_date_in_year(y2, m2, d2);
    if y1 < y2 {
        lemma_years_ordered(y1 + 1, y2);
    } else if y2 < y1 {
        lemma_years_ordered(y2 + 1, y1);
    }
    assert(y1 == y2);
    lemma_month_starts(y1);
}

/// Dates on or after 1970-01-01 have non-negative day numbers.
pub(crate) proof fn lemma_epoch_year(y: int, m: int, d: int)
    requires
        valid_date(y, m, d),
        day_number(y, m, d) >= 0,
    ensures
        y >= 1970,
{
    lemma_date_in_year(y, m, d);
    if y < 1970 {
        lemma_years_ordered(y + 1, 1970);
    }
}

/// The date with day number `days`, counted from 1970-01-01.
pub open spec fn civil_of(days: int) -> (int, int, int) {
    choose|t: (int, int, int)| valid_date(t.0, t.1, t.2) && day_number(t.0, t.1, t.2) == days
}

/// Every day has its date: [`civil_of`] names the one valid date with that day
/// number (counted from 1970-01-01, negative before it), which falls in 1970 or
/// later exactly for the days from 1970-01-01 on.
pub proof fn lemma_civil_of(days: int)
    ensures
        ({
            let t = civil_of(days);
            &&& valid_date(t.0, t.1, t.2)
            &&& day_number(t.0, t.1, t.2) == days
            &&& (t.0 >= 1970 <==> days >= 0)
        }),
{
    lemma_civil(days);
    let zz = days + 719468;
    let era = zz / 146097;
    let doe = zz - era * 146097;
    let yoe = (doe - doe / 1460 + doe / 36524 - doe / 146096) / 365;
    let doy = doe - (365 * yoe + yoe / 4 - yoe / 100);
    let mp = (5 * doy + 2) / 153;
    let m = if mp < 10 { mp + 3 } else { mp - 9 };
    let date = (
        if m <= 2 { yoe + era * 400 + 1 } else { yoe + era * 400 },
        m,
        doy - (153 * mp + 2) / 5 + 1,
    );
    assert(valid_date(date.0, date.1, date.2) && day_number(date.0, date.1, date.2) == days);
    let t = civil_of(days);
    assert(valid_date(t.0, t.1, t.2) && day_number(t.0, t.1, t.2) == days);
    lemma_date_in_year(t.0, t.1, t.2);
    if days >= 0 {
        lemma_epoch_year(t.0, t.1, t.2);
    } else if t.0 >= 1970 {
        lemma_years_ordered(1970, t.0);
    }
}

} // verus!
