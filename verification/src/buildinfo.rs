//! Which build is this, and how old is the log? UTC ISO 8601 timestamps from
//! seconds since the Unix epoch, computed by hand with the proleptic Gregorian
//! calendar, and the `/version` report body.

use vstd::prelude::*;
use crate::text::{
    dec, decimal, digit_char, lemma_seq_lt_blocks, lemma_seq_lt_irrefl, push_char, push_chars,
    push_str, seq_lt,
};

verus! {

/// Euclidean quotient and remainder by a positive divisor (`div_euclid`,
/// `rem_euclid`).
pub fn div_rem_euclid(x: i64, d: i64) -> (r: (i64, i64))
    requires
        d > 0,
    ensures
        r.0 == x / d,
        r.1 == x % d,
        0 <= r.1 < d,
{
    if x >= 0 {
        let q = x / d;
        let m = x % d;
        assert(q == x / d && m == x % d) by (nonlinear_arith)
            requires
                x >= 0,
                d > 0,
                q == x / d,
                m == x % d,
        ;
        (q, m)
    } else {
        let t: i64 = -(x + 1);
        let qq = t / d;
        let rr = t % d;
        let q = -qq - 1;
        let m = d - 1 - rr;
        proof {
            vstd::arithmetic::div_mod::lemma_fundamental_div_mod(t as int, d as int);
            assert(x == q * d + m) by (nonlinear_arith)
                requires
                    t == d * qq + rr,
                    x == -(t + 1),
                    q == -qq - 1,
                    m == d - 1 - rr,
            ;
            vstd::arithmetic::div_mod::lemma_fundamental_div_mod_converse(
                x as int,
                d as int,
                q as int,
                m as int,
            );
        }
        (q, m)
    }
}

/// Hinnant's `civil_from_days`: days since 1970-01-01 to (year, month, day) in the
/// proleptic Gregorian calendar, with the shifted (March-based) era.
pub open spec fn civil(z: int) -> (int, int, int) {
    let z = z + 719_468;
    let era = z / 146_097;
    let doe = z % 146_097;
    let yoe = (doe - doe / 1460 + doe / 36_524 - doe / 146_096) / 365;
    let y = yoe + era * 400;
    let doy = doe - (365 * yoe + yoe / 4 - yoe / 100);
    let mp = (5 * doy + 2) / 153;
    let d = doy - (153 * mp + 2) / 5 + 1;
    let m = if mp < 10 { mp + 3 } else { mp - 9 };
    (if m <= 2 { y + 1 } else { y }, m, d)
}

proof fn lemma_day_of_era(doe: u64)
    requires
        doe <= 146_096,
    ensures
        ({
            let yoe = (doe - doe / 1460 + doe / 36_524 - doe / 146_096) / 365;
            let doy = doe - (365 * yoe + yoe / 4 - yoe / 100);
            let mp = (5 * doy + 2) / 153;
            &&& 0 <= yoe <= 399
            &&& 0 <= doy <= 365
            &&& 0 <= mp <= 11
            &&& 1 <= doy - (153 * mp + 2) / 5 + 1 <= 31
        }),
{
    assert(doe <= 146_096 ==> (doe - doe / 1460 + doe / 36_524 - doe / 146_096) / 365 <= 399)
        by (bit_vector);
    assert(doe <= 146_096 ==> 365 * ((doe - doe / 1460 + doe / 36_524 - doe / 146_096) / 365)
        + ((doe - doe / 1460 + doe / 36_524 - doe / 146_096) / 365) / 4 - ((doe - doe / 1460
        + doe / 36_524 - doe / 146_096) / 365) / 100 <= doe) by (bit_vector);
    assert(doe <= 146_096 ==> doe - (365 * ((doe - doe / 1460 + doe / 36_524 - doe / 146_096)
        / 365) + ((doe - doe / 1460 + doe / 36_524 - doe / 146_096) / 365) / 4 - ((doe - doe
        / 1460 + doe / 36_524 - doe / 146_096) / 365) / 100) <= 365) by (bit_vector);
    let yoe = (doe - doe / 1460 + doe / 36_524 - doe / 146_096) / 365;
    let doy = doe - (365 * yoe + yoe / 4 - yoe / 100);
    lemma_month_of_year(doy as u64);
}

proof fn lemma_month_of_year(doy: u64)
    requires
        doy <= 365,
    ensures
        0 <= (5 * doy + 2) / 153 <= 11,
        1 <= doy - (153 * ((5 * doy + 2) / 153) + 2) / 5 + 1 <= 31,
{
    assert(doy <= 365 ==> (5 * doy + 2) / 153 <= 11) by (bit_vector);
    assert(doy <= 365 ==> (153 * ((5 * doy + 2) / 153) + 2) / 5 <= doy) by (bit_vector);
    assert(doy <= 365 ==> doy - (153 * ((5 * doy + 2) / 153) + 2) / 5 <= 30) by (bit_vector);
}

/// Every day number maps to a month in 1..=12 and a day in 1..=31.
pub proof fn lemma_civil_ranges(z: int)
    ensures
        1 <= civil(z).1 <= 12,
        1 <= civil(z).2 <= 31,
{
    let zz = z + 719_468;
    let doe = zz % 146_097;
    lemma_day_of_era(doe as u64);
}

/// Year of the era (March-based) for a day of the era.
pub open spec fn year_of_era(doe: int) -> int {
    (doe - doe / 1460 + doe / 36_524 - doe / 146_096) / 365
}

/// Day of the (March-based) year for a day of the era.
pub open spec fn day_of_year(doe: int) -> int {
    let yoe = year_of_era(doe);
    doe - (365 * yoe + yoe / 4 - yoe / 100)
}

/// Whether the March-based year `yoe` of an era ends with a 29 February,
/// that is, whether the calendar year `yoe + 1` is a leap year.
pub open spec fn ends_leap(yoe: int) -> bool {
    (yoe + 1) % 4 == 0 && ((yoe + 1) % 100 != 0 || (yoe + 1) % 400 == 0)
}

proof fn lemma_year_length(doe: u32)
    requires
        doe <= 146_096,
    ensures
        day_of_year(doe as int) <= 364 || (day_of_year(doe as int) == 365 && ends_leap(
            year_of_era(doe as int),
        )),
{
    assert(doe <= 146_096 ==> (doe - (365 * ((doe - doe / 1460 + doe / 36_524 - doe / 146_096)
        / 365) + ((doe - doe / 1460 + doe / 36_524 - doe / 146_096) / 365) / 4 - ((doe - doe
        / 1460 + doe / 36_524 - doe / 146_096) / 365) / 100) <= 364 || (((doe - doe / 1460 + doe
        / 36_524 - doe / 146_096) / 365 + 1) % 4 == 0 && (((doe - doe / 1460 + doe / 36_524 - doe
        / 146_096) / 365 + 1) % 100 != 0 || ((doe - doe / 1460 + doe / 36_524 - doe / 146_096)
        / 365 + 1) % 400 == 0)))) by (bit_vector);
}

/// First day of the March-based year `yoe` within its era.
pub open spec fn year_start(yoe: int) -> int {
    365 * yoe + yoe / 4 - yoe / 100
}

proof fn lemma_year_step(doe: u32)
    requires
        doe < 146_096,
    ensures
        year_of_era(doe + 1) == year_of_era(doe as int) || year_of_era(doe + 1) == year_of_era(
            doe as int,
        ) + 1,
{
    assert(doe < 146_096 ==> (year_of_era(doe + 1) == year_of_era(doe as int) || year_of_era(
        doe + 1,
    ) == year_of_era(doe as int) + 1)) by (bit_vector);
}

proof fn lemma_year_start_step(yoe: u32)
    requires
        yoe <= 398,
    ensures
        year_start(yoe + 1) - year_start(yoe as int) == if ends_leap(yoe as int) {
            366int
        } else {
            365int
        },
{
    assert(yoe <= 398 ==> year_start(yoe + 1) - year_start(yoe as int) == if ends_leap(
        yoe as int,
    ) {
        366int
    } else {
        365int
    }) by (bit_vector);
}

/// Whether `y` is a leap year of the proleptic Gregorian calendar.
pub open spec fn is_leap(y: int) -> bool {
    y % 4 == 0 && (y % 100 != 0 || y % 400 == 0)
}

/// The number of days of month `m` (1 to 12) of year `y`.
pub open spec fn days_in_month(y: int, m: int) -> int {
    if m == 2 {
        if is_leap(y) {
            29
        } else {
            28
        }
    } else if m == 4 || m == 6 || m == 9 || m == 11 {
        30
    } else {
        31
    }
}

/// `date` = (year, month, day) names a day of the calendar.
pub open spec fn valid_date(date: (int, int, int)) -> bool {
    1 <= date.1 <= 12 && 1 <= date.2 <= days_in_month(date.0, date.1)
}

/// The calendar day after `date` = (year, month, day).
pub open spec fn next_day(date: (int, int, int)) -> (int, int, int) {
    if date.2 < days_in_month(date.0, date.1) {
        (date.0, date.1, date.2 + 1)
    } else if date.1 < 12 {
        (date.0, date.1 + 1, 1)
    } else {
        (date.0 + 1, 1, 1)
    }
}

/// First day of the March-based month `mp` (March = 0) within its year.
pub open spec fn month_start(mp: int) -> int {
    (153 * mp + 2) / 5
}

/// Length of the March-based month `mp`, with February counted long.
pub open spec fn march_month_len(mp: int) -> int {
    if mp == 11 {
        29
    } else if mp == 1 || mp == 3 || mp == 6 || mp == 8 {
        30
    } else {
        31
    }
}

/// The calendar date of day `doy` (1 March = 0) of the March-based year `y`,
/// which ends with the February of calendar year `y + 1`.
pub open spec fn march_date(y: int, doy: int) -> (int, int, int) {
    let mp = (5 * doy + 2) / 153;
    let m = if mp < 10 {
        mp + 3
    } else {
        mp - 9
    };
    (if m <= 2 {
        y + 1
    } else {
        y
    }, m, doy - month_start(mp) + 1)
}

proof fn lemma_month_bracket(doy: u32)
    requires
        doy <= 365,
    ensures
        (5 * doy + 2) / 153 <= 11,
        month_start((5 * doy + 2) / 153) <= doy,
        (5 * doy + 2) / 153 <= 10 ==> doy < month_start((5 * doy + 2) / 153 + 1),
        doy <= 364 ==> ((5 * (doy + 1) + 2) / 153 == (5 * doy + 2) / 153 || (5 * (doy + 1) + 2)
            / 153 == (5 * doy + 2) / 153 + 1),
{
    assert(doy <= 365 ==> (5 * doy + 2) / 153 <= 11) by (bit_vector);
    assert(doy <= 365 ==> month_start((5 * doy + 2) / 153) <= doy) by (bit_vector);
    assert(doy <= 365 ==> ((5 * doy + 2) / 153 <= 10 ==> doy < month_start((5 * doy + 2) / 153
        + 1))) by (bit_vector);
    assert(doy <= 364 ==> ((5 * (doy + 1) + 2) / 153 == (5 * doy + 2) / 153 || (5 * (doy + 1)
        + 2) / 153 == (5 * doy + 2) / 153 + 1)) by (bit_vector);
}

proof fn lemma_month_len(mp: u32)
    requires
        mp <= 10,
    ensures
        month_start(mp + 1) - month_start(mp as int) == march_month_len(mp as int),
{
    assert(mp <= 10 ==> month_start(mp + 1) - month_start(mp as int) == march_month_len(
        mp as int,
    )) by (bit_vector);
}

proof fn lemma_march_valid(y: int, doy: int)
    requires
        0 <= doy <= 365,
        doy == 365 ==> is_leap(y + 1),
    ensures
        valid_date(march_date(y, doy)),
{
    lemma_month_bracket(doy as u32);
    let mp = (5 * doy + 2) / 153;
    if mp <= 10 {
        lemma_month_len(mp as u32);
    }
}

proof fn lemma_march_next(y: int, doy: int)
    requires
        0 <= doy,
        doy + 1 <= 364 || (doy + 1 == 365 && is_leap(y + 1)),
    ensures
        march_date(y, doy + 1) == next_day(march_date(y, doy)),
{
    lemma_month_bracket(doy as u32);
    lemma_month_bracket((doy + 1) as u32);
    lemma_march_valid(y, doy + 1);
    let mp = (5 * doy + 2) / 153;
    if mp <= 10 {
        lemma_month_len(mp as u32);
    }
}

proof fn lemma_march_year_end(y: int)
    ensures
        next_day(march_date(y, if is_leap(y + 1) { 365 } else { 364 })) == march_date(y + 1, 0),
{
}

proof fn lemma_leap_in_era(era: int, yoe: int)
    ensures
        is_leap(era * 400 + yoe + 1) == ends_leap(yoe),
{
    vstd::arithmetic::div_mod::lemma_mod_multiples_vanish(100 * era, yoe + 1, 4);
    vstd::arithmetic::div_mod::lemma_mod_multiples_vanish(4 * era, yoe + 1, 100);
    vstd::arithmetic::div_mod::lemma_mod_multiples_vanish(era, yoe + 1, 400);
}

/// The date of each day number is a day of the calendar.
pub proof fn lemma_civil_valid(z: int)
    ensures
        valid_date(civil(z)),
{
    let zz = z + 719_468;
    let era = zz / 146_097;
    let doe = zz % 146_097;
    lemma_day_of_era(doe as u64);
    lemma_year_length(doe as u32);
    let yoe = year_of_era(doe);
    lemma_leap_in_era(era, yoe);
    lemma_march_valid(era * 400 + yoe, day_of_year(doe));
    assert(civil(z) == march_date(era * 400 + yoe, day_of_year(doe)));
}

/// Day number 0 is 1970-01-01.
pub proof fn lemma_civil_epoch()
    ensures
        civil(0) == (1970int, 1int, 1int),
{
    assert(719_468int / 146_097 == 4);
    assert(719_468int % 146_097 == 135_080);
    assert(year_of_era(135_080) == 369);
    assert(day_of_year(135_080) == 306);
    assert((5 * 306int + 2) / 153 == 10);
    assert(month_start(10) == 306);
}

/// The date of day number `z + 1` is the calendar day after that of `z`.
pub proof fn lemma_civil_next(z: int)
    ensures
        civil(z + 1) == next_day(civil(z)),
{
    let zz = z + 719_468;
    let era = zz / 146_097;
    let doe = zz % 146_097;
    lemma_day_of_era(doe as u64);
    lemma_year_length(doe as u32);
    let yoe = year_of_era(doe);
    let doy = day_of_year(doe);
    lemma_leap_in_era(era, yoe);
    assert(civil(z) == march_date(era * 400 + yoe, doy));
    if doe < 146_096 {
        vstd::arithmetic::div_mod::lemma_fundamental_div_mod(zz, 146_097);
        vstd::arithmetic::div_mod::lemma_fundamental_div_mod_converse(zz + 1, 146_097, era, doe + 1);
        lemma_day_of_era((doe + 1) as u64);
        lemma_year_length((doe + 1) as u32);
        lemma_year_step(doe as u32);
        let yoe1 = year_of_era(doe + 1);
        let doy1 = day_of_year(doe + 1);
        assert(civil(z + 1) == march_date(era * 400 + yoe1, doy1));
        if yoe1 == yoe + 1 {
            lemma_year_start_step(yoe as u32);
            lemma_march_year_end(era * 400 + yoe);
            assert(doy1 == 0);
        } else {
            assert(doy1 == doy + 1);
            lemma_leap_in_era(era, yoe);
            lemma_march_next(era * 400 + yoe, doy);
        }
    } else {
        vstd::arithmetic::div_mod::lemma_fundamental_div_mod(zz, 146_097);
        vstd::arithmetic::div_mod::lemma_fundamental_div_mod_converse(zz + 1, 146_097, era + 1, 0);
        assert(year_of_era(0) == 0);
        assert(day_of_year(0) == 0);
        assert(year_of_era(146_096) == 399);
        assert(day_of_year(146_096) == 365);
        assert(civil(z + 1) == march_date((era + 1) * 400, 0));
        lemma_march_year_end(era * 400 + 399);
    }
}

/// Calendar order: `a` = (year, month, day) comes before `b`.
pub open spec fn date_lt(a: (int, int, int), b: (int, int, int)) -> bool {
    a.0 < b.0 || (a.0 == b.0 && (a.1 < b.1 || (a.1 == b.1 && a.2 < b.2)))
}

/// Later day numbers have later dates.
pub proof fn lemma_civil_increasing(z1: int, z2: int)
    requires
        z1 < z2,
    ensures
        date_lt(civil(z1), civil(z2)),
    decreases z2 - z1,
{
    lemma_civil_next(z2 - 1);
    lemma_civil_valid(z2 - 1);
    if z1 < z2 - 1 {
        lemma_civil_increasing(z1, z2 - 1);
    }
}

proof fn lemma_civil_last_day()
    ensures
        civil(2_932_896) == (9999int, 12int, 31int),
{
    assert(3_652_364int / 146_097 == 24);
    assert(3_652_364int % 146_097 == 146_036);
    assert(year_of_era(146_036) == 399);
    assert(day_of_year(146_036) == 305);
    assert((5 * 305int + 2) / 153 == 9);
    assert(month_start(9) == 275);
}

/// Days since 1970-01-01 -> (year, month, day).
pub fn civil_from_days(z: i64) -> (r: (i64, u32, u32))
    requires
        z <= i64::MAX - 719_468,
    ensures
        r.0 == civil(z as int).0,
        r.1 == civil(z as int).1,
        r.2 == civil(z as int).2,
{
    let z = z + 719_468;
    let (era, doe) = div_rem_euclid(z, 146_097);
    proof {
        lemma_day_of_era(doe as u64);
    }
    let yoe = (doe - doe / 1460 + doe / 36_524 - doe / 146_096) / 365;
    let y = yoe + era * 400;
    let doy = doe - (365 * yoe + yoe / 4 - yoe / 100);
    let mp = (5 * doy + 2) / 153;
    let d = (doy - (153 * mp + 2) / 5 + 1) as u32;
    let m = (if mp < 10 { mp + 3 } else { mp - 9 }) as u32;
    (if m <= 2 { y + 1 } else { y }, m, d)
}

/// `s` left-padded with '0' to at least `w` characters.
pub open spec fn zero_pad(s: Seq<char>, w: nat) -> Seq<char> {
    if s.len() >= w {
        s
    } else {
        Seq::new((w - s.len()) as nat, |i: int| '0') + s
    }
}

/// `{n:0w}`: sign-aware zero padding to width `w`.
pub open spec fn pad_int(n: int, w: nat) -> Seq<char> {
    if n < 0 {
        seq!['-'] + zero_pad(dec((-n) as nat), (w - 1) as nat)
    } else {
        zero_pad(dec(n as nat), w)
    }
}

fn push_padded_digits(out: &mut String, n: u64, w: usize)
    ensures
        final(out)@ == old(out)@ + zero_pad(dec(n as nat), w as nat),
{
    let digits = decimal(n);
    let ghost before = out@;
    let mut k: usize = digits.len();
    while k < w
        invariant
            digits.len() <= k <= w || (k == digits.len() && k >= w),
            out@ == before + Seq::new((k - digits.len()) as nat, |i: int| '0'),
        decreases w - k,
    {
        push_char(out, '0');
        assert(Seq::new((k + 1 - digits.len()) as nat, |i: int| '0') == Seq::new(
            (k - digits.len()) as nat,
            |i: int| '0',
        ).push('0'));
        k = k + 1;
    }
    push_chars(out, &digits);
    if digits.len() >= w {
        assert(Seq::new(0, |i: int| '0') + digits@ == digits@);
    }
}

fn push_padded(out: &mut String, n: i64, w: usize)
    requires
        w >= 1,
    ensures
        final(out)@ == old(out)@ + pad_int(n as int, w as nat),
{
    if n < 0 {
        push_char(out, '-');
        let a: u64 = (-(n as i128)) as u64;
        push_padded_digits(out, a, w - 1);
        assert(old(out)@.push('-') + zero_pad(dec(a as nat), (w - 1) as nat) == old(out)@ + (
        seq!['-'] + zero_pad(dec(a as nat), (w - 1) as nat)));
    } else {
        push_padded_digits(out, n as u64, w);
    }
}

/// The two decimal digits of `n` (0 to 99).
pub open spec fn two_digits(n: int) -> Seq<char> {
    seq![digit_char((n / 10) as nat)] + seq![digit_char((n % 10) as nat)]
}

proof fn lemma_digit_code(d: int)
    requires
        0 <= d < 10,
    ensures
        digit_char(d as nat) as int == 48 + d,
{
}

proof fn lemma_pad2(n: int)
    requires
        0 <= n < 100,
    ensures
        pad_int(n, 2) == two_digits(n),
{
    if n < 10 {
        assert(dec(n as nat) == seq![digit_char(n as nat)]);
        assert(pad_int(n, 2) =~= two_digits(n));
    } else {
        assert(dec((n / 10) as nat) == seq![digit_char((n / 10) as nat)]);
        assert(dec(n as nat) == dec((n / 10) as nat).push(digit_char((n % 10) as nat)));
        assert(pad_int(n, 2) =~= two_digits(n));
    }
}

proof fn lemma_pad4(n: int)
    requires
        0 <= n < 10_000,
    ensures
        pad_int(n, 4) == two_digits(n / 100) + two_digits(n % 100),
{
    let a = n / 1000;
    let b = (n / 100) % 10;
    let c = (n / 10) % 10;
    let e = n % 10;
    assert((n / 100) / 10 == a && (n / 100) % 10 == b && (n % 100) / 10 == c && (n % 100) % 10
        == e);
    let want = two_digits(n / 100) + two_digits(n % 100);
    if n < 10 {
        assert(dec(n as nat) == seq![digit_char(n as nat)]);
        assert(pad_int(n, 4) =~= want);
    } else if n < 100 {
        assert(dec((n / 10) as nat) == seq![digit_char((n / 10) as nat)]);
        assert(dec(n as nat) == dec((n / 10) as nat).push(digit_char((n % 10) as nat)));
        assert(pad_int(n, 4) =~= want);
    } else if n < 1000 {
        assert(dec((n / 100) as nat) == seq![digit_char((n / 100) as nat)]);
        assert(dec((n / 10) as nat) == dec((n / 100) as nat).push(digit_char(((n / 10) % 10) as nat)));
        assert((n / 10) / 10 == n / 100);
        assert(dec(n as nat) == dec((n / 10) as nat).push(digit_char((n % 10) as nat)));
        assert(pad_int(n, 4) =~= want);
    } else {
        assert(dec((n / 1000) as nat) == seq![digit_char((n / 1000) as nat)]);
        assert((n / 100) / 10 == n / 1000);
        assert(dec((n / 100) as nat) == dec((n / 1000) as nat).push(digit_char(((n / 100) % 10) as nat)));
        assert((n / 10) / 10 == n / 100);
        assert(dec((n / 10) as nat) == dec((n / 100) as nat).push(digit_char(((n / 10) % 10) as nat)));
        assert(dec(n as nat) == dec((n / 10) as nat).push(digit_char((n % 10) as nat)));
        assert(pad_int(n, 4) =~= want);
    }
}

proof fn lemma_one_char_lt(x: char, y: char)
    ensures
        seq_lt(seq![x], seq![y]) == (x < y),
        (seq![x] == seq![y]) == (x == y),
{
    assert(seq![x].drop_first() =~= Seq::<char>::empty());
    assert(seq![y].drop_first() =~= Seq::<char>::empty());
    assert(seq![x][0] == x && seq![y][0] == y);
    lemma_seq_lt_irrefl(Seq::<char>::empty());
    if seq![x] == seq![y] {
        assert(seq![x][0] == seq![y][0]);
    }
}

proof fn lemma_two_digits_order(a: int, b: int)
    requires
        0 <= a < 100,
        0 <= b < 100,
    ensures
        seq_lt(two_digits(a), two_digits(b)) == (a < b),
        (two_digits(a) == two_digits(b)) == (a == b),
        two_digits(a).len() == 2,
{
    let x1 = digit_char((a / 10) as nat);
    let x2 = digit_char((a % 10) as nat);
    let y1 = digit_char((b / 10) as nat);
    let y2 = digit_char((b % 10) as nat);
    lemma_digit_code(a / 10);
    lemma_digit_code(a % 10);
    lemma_digit_code(b / 10);
    lemma_digit_code(b % 10);
    lemma_one_char_lt(x1, y1);
    lemma_one_char_lt(x2, y2);
    lemma_seq_lt_blocks(seq![x1], seq![y1], seq![x2], seq![y2]);
}

proof fn lemma_four_digits_order(a: int, b: int)
    requires
        0 <= a < 10_000,
        0 <= b < 10_000,
    ensures
        seq_lt(pad_int(a, 4), pad_int(b, 4)) == (a < b),
        (pad_int(a, 4) == pad_int(b, 4)) == (a == b),
        pad_int(a, 4).len() == 4,
        pad_int(b, 4).len() == 4,
{
    lemma_pad4(a);
    lemma_pad4(b);
    lemma_two_digits_order(a / 100, b / 100);
    lemma_two_digits_order(a % 100, b % 100);
    lemma_seq_lt_blocks(two_digits(a / 100), two_digits(b / 100), two_digits(a % 100), two_digits(b % 100));
}

/// The ISO 8601 rendering of a UTC instant given as seconds since the epoch
/// (`YYYY-MM-DDThh:mm:ssZ`).
pub open spec fn iso8601(secs: int) -> Seq<char> {
    let (y, m, d) = civil(secs / 86_400);
    let tod = secs % 86_400;
    pad_int(y, 4) + seq!['-'] + pad_int(m, 2) + seq!['-'] + pad_int(d, 2) + seq!['T'] + pad_int(
        tod / 3600,
        2,
    ) + seq![':'] + pad_int((tod % 3600) / 60, 2) + seq![':'] + pad_int(tod % 60, 2) + seq!['Z']
}

proof fn lemma_append_sep(a1: Seq<char>, a2: Seq<char>, c: char)
    requires
        a1.len() == a2.len(),
    ensures
        seq_lt(a1 + seq![c], a2 + seq![c]) == seq_lt(a1, a2),
        (a1 + seq![c] == a2 + seq![c]) == (a1 == a2),
{
    lemma_seq_lt_blocks(a1, a2, seq![c], seq![c]);
    lemma_seq_lt_irrefl(seq![c]);
}

proof fn lemma_append_two(a1: Seq<char>, a2: Seq<char>, n1: int, n2: int)
    requires
        a1.len() == a2.len(),
        0 <= n1 < 100,
        0 <= n2 < 100,
    ensures
        seq_lt(a1 + pad_int(n1, 2), a2 + pad_int(n2, 2)) == (seq_lt(a1, a2) || (a1 == a2 && n1
            < n2)),
        (a1 + pad_int(n1, 2) == a2 + pad_int(n2, 2)) == (a1 == a2 && n1 == n2),
        pad_int(n1, 2).len() == 2,
        pad_int(n2, 2).len() == 2,
{
    lemma_pad2(n1);
    lemma_pad2(n2);
    lemma_two_digits_order(n1, n2);
    lemma_two_digits_order(n2, n1);
    lemma_seq_lt_blocks(a1, a2, pad_int(n1, 2), pad_int(n2, 2));
}

/// The fields of a UTC instant: year, month, day, hour, minute, second.
pub open spec fn stamp(secs: int) -> (int, int, int, int, int, int) {
    let (y, m, d) = civil(secs / 86_400);
    let tod = secs % 86_400;
    (y, m, d, tod / 3600, (tod % 3600) / 60, tod % 60)
}

/// Order of instants by their fields, most significant first.
pub open spec fn stamp_lt(a: (int, int, int, int, int, int), b: (int, int, int, int, int, int)) -> bool {
    a.0 < b.0 || (a.0 == b.0 && (a.1 < b.1 || (a.1 == b.1 && (a.2 < b.2 || (a.2 == b.2 && (a.3
        < b.3 || (a.3 == b.3 && (a.4 < b.4 || (a.4 == b.4 && a.5 < b.5)))))))))
}

/// Every field of the instant fits its width: a year of four digits, the others of two.
pub open spec fn stamp_fits(a: (int, int, int, int, int, int)) -> bool {
    0 <= a.0 < 10_000 && 0 <= a.1 < 100 && 0 <= a.2 < 100 && 0 <= a.3 < 100 && 0 <= a.4 < 100
        && 0 <= a.5 < 100
}

proof fn lemma_iso8601_text_order(t1: int, t2: int)
    requires
        stamp_fits(stamp(t1)),
        stamp_fits(stamp(t2)),
    ensures
        seq_lt(iso8601(t1), iso8601(t2)) == stamp_lt(stamp(t1), stamp(t2)),
        (iso8601(t1) == iso8601(t2)) == (stamp(t1) == stamp(t2)),
{
    let a = stamp(t1);
    let b = stamp(t2);
    lemma_four_digits_order(a.0, b.0);
    let p0a = pad_int(a.0, 4);
    let p0b = pad_int(b.0, 4);
    lemma_append_sep(p0a, p0b, '-');
    let p1a = p0a + seq!['-'];
    let p1b = p0b + seq!['-'];
    lemma_append_two(p1a, p1b, a.1, b.1);
    let p2a = p1a + pad_int(a.1, 2);
    let p2b = p1b + pad_int(b.1, 2);
    lemma_append_sep(p2a, p2b, '-');
    let p3a = p2a + seq!['-'];
    let p3b = p2b + seq!['-'];
    lemma_append_two(p3a, p3b, a.2, b.2);
    let p4a = p3a + pad_int(a.2, 2);
    let p4b = p3b + pad_int(b.2, 2);
    lemma_append_sep(p4a, p4b, 'T');
    let p5a = p4a + seq!['T'];
    let p5b = p4b + seq!['T'];
    lemma_append_two(p5a, p5b, a.3, b.3);
    let p6a = p5a + pad_int(a.3, 2);
    let p6b = p5b + pad_int(b.3, 2);
    lemma_append_sep(p6a, p6b, ':');
    let p7a = p6a + seq![':'];
    let p7b = p6b + seq![':'];
    lemma_append_two(p7a, p7b, a.4, b.4);
    let p8a = p7a + pad_int(a.4, 2);
    let p8b = p7b + pad_int(b.4, 2);
    lemma_append_sep(p8a, p8b, ':');
    let p9a = p8a + seq![':'];
    let p9b = p8b + seq![':'];
    lemma_append_two(p9a, p9b, a.5, b.5);
    let p10a = p9a + pad_int(a.5, 2);
    let p10b = p9b + pad_int(b.5, 2);
    lemma_append_sep(p10a, p10b, 'Z');
    assert(iso8601(t1) == p10a + seq!['Z']);
    assert(iso8601(t2) == p10b + seq!['Z']);
}

/// The last instant whose year has four digits, plus one: 10000-01-01T00:00:00Z.
pub open spec fn year_ten_thousand() -> int {
    253_402_300_800
}

/// From 1970 up to the end of year 9999, later instants render as later text in
/// code-point (and so byte) order, and two renderings are equal exactly when they
/// are of the same second.
pub proof fn lemma_iso8601_monotone(t1: int, t2: int)
    requires
        0 <= t1 <= t2 < year_ten_thousand(),
    ensures
        t1 < t2 ==> seq_lt(iso8601(t1), iso8601(t2)),
        (iso8601(t1) == iso8601(t2)) == (t1 == t2),
{
    lemma_stamp_fits(t1);
    lemma_stamp_fits(t2);
    lemma_iso8601_text_order(t1, t2);
    if t1 < t2 {
        lemma_stamp_increasing(t1, t2);
    }
}

proof fn lemma_stamp_increasing(t1: int, t2: int)
    requires
        0 <= t1 < t2,
    ensures
        stamp_lt(stamp(t1), stamp(t2)),
{
    let z1 = t1 / 86_400;
    let z2 = t2 / 86_400;
    if z1 < z2 {
        lemma_civil_increasing(z1, z2);
    } else {
        lemma_time_of_day_increasing(t1 % 86_400, t2 % 86_400);
    }
}

proof fn lemma_time_of_day_increasing(a: int, b: int)
    requires
        0 <= a < b,
    ensures
        a / 3600 < b / 3600 || (a / 3600 == b / 3600 && ((a % 3600) / 60 < (b % 3600) / 60 || (
        (a % 3600) / 60 == (b % 3600) / 60 && a % 60 < b % 60))),
{
    vstd::arithmetic::div_mod::lemma_fundamental_div_mod(a, 3600);
    vstd::arithmetic::div_mod::lemma_fundamental_div_mod(b, 3600);
    vstd::arithmetic::div_mod::lemma_fundamental_div_mod(a % 3600, 60);
    vstd::arithmetic::div_mod::lemma_fundamental_div_mod(b % 3600, 60);
    vstd::arithmetic::div_mod::lemma_mod_mod(a, 3600, 60);
    vstd::arithmetic::div_mod::lemma_mod_mod(b, 3600, 60);
}

proof fn lemma_stamp_fits(t: int)
    requires
        0 <= t < year_ten_thousand(),
    ensures
        stamp_fits(stamp(t)),
{
    let z = t / 86_400;
    assert(0 <= z <= 2_932_896);
    lemma_civil_valid(z);
    lemma_civil_epoch();
    lemma_civil_last_day();
    if 0 < z {
        lemma_civil_increasing(0, z);
    }
    if z < 2_932_896 {
        lemma_civil_increasing(z, 2_932_896);
    }
}

/// `2026-08-05T01:23:45Z`. The seconds since the epoch are taken as a signed
/// 64-bit count, as the clock reading is.
pub fn iso8601_utc(secs_since_epoch: u64) -> (s: String)
    ensures
        s@ == iso8601(secs_since_epoch as i64 as int),
{
    let secs = secs_since_epoch as i64;
    let (days, tod) = div_rem_euclid(secs, 86_400);
    assert(days <= i64::MAX - 719_468) by (nonlinear_arith)
        requires
            days == secs / 86_400,
    ;
    let (y, m, d) = civil_from_days(days);
    proof {
        lemma_civil_ranges(days as int);
    }
    let mut out = String::new();
    push_padded(&mut out, y, 4);
    push_char(&mut out, '-');
    push_padded(&mut out, m as i64, 2);
    push_char(&mut out, '-');
    push_padded(&mut out, d as i64, 2);
    push_char(&mut out, 'T');
    push_padded(&mut out, tod / 3600, 2);
    push_char(&mut out, ':');
    push_padded(&mut out, (tod % 3600) / 60, 2);
    push_char(&mut out, ':');
    push_padded(&mut out, tod % 60, 2);
    push_char(&mut out, 'Z');
    out
}

/// When this process started, as UTC ISO 8601, from the clock reading taken at
/// startup.
pub fn started_at(secs_since_epoch: u64) -> (s: String)
    ensures
        s@ == iso8601(secs_since_epoch as i64 as int),
{
    iso8601_utc(secs_since_epoch)
}

/// The current time, as UTC ISO 8601, from the clock reading taken now.
pub fn now(secs_since_epoch: u64) -> (s: String)
    ensures
        s@ == iso8601(secs_since_epoch as i64 as int),
{
    iso8601_utc(secs_since_epoch)
}

/// The body served at `/version`.
pub open spec fn report_text(
    version: Seq<char>,
    built: Seq<char>,
    started: Seq<char>,
    now: Seq<char>,
) -> Seq<char> {
    "coolwords "@ + version + seq!['\n'] + "built   "@ + built + seq!['\n'] + "started "@ + started
        + seq!['\n'] + "now     "@ + now + seq!['\n']
}

/// The body served at `/version`: version, build time, start time and the current
/// time, one per line.
pub fn report(version: &str, built: &str, started: &str, now: &str) -> (s: String)
    ensures
        s@ == report_text(version@, built@, started@, now@),
{
    let mut out = String::new();
    push_str(&mut out, "coolwords ");
    push_str(&mut out, version);
    push_char(&mut out, '\n');
    push_str(&mut out, "built   ");
    push_str(&mut out, built);
    push_char(&mut out, '\n');
    push_str(&mut out, "started ");
    push_str(&mut out, started);
    push_char(&mut out, '\n');
    push_str(&mut out, "now     ");
    push_str(&mut out, now);
    push_char(&mut out, '\n');
    out
}

} // verus!
