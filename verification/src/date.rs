//! Calendar dates for the registry's `allocated` / `released` fields.
//!
//! Dates are proleptic Gregorian and written `YYYY-MM-DD`. Day numbers
//! count from 1970-01-01. The conversions use Hinnant's era-based
//! algorithms; their contracts are stated against the textbook calendar
//! (`epoch_day`), so the two directions are proved to be inverse.

use vstd::arithmetic::div_mod::{lemma_fundamental_div_mod, lemma_fundamental_div_mod_converse};
use vstd::prelude::*;

use crate::text::{chars_of, dec, pad_left, push_char, push_dec_padded};

verus! {

pub open spec fn is_leap(y: int) -> bool {
    (y % 4 == 0 && y % 100 != 0) || y % 400 == 0
}

/// Days in month `m` of year `y`.
pub open spec fn month_len(y: int, m: int) -> int {
    if m == 2 {
        if is_leap(y) { 29 } else { 28 }
    } else if m == 4 || m == 6 || m == 9 || m == 11 {
        30
    } else {
        31
    }
}

/// Days before the first of month `m` in a common year.
pub open spec fn cum_days(m: int) -> int {
    if m <= 1 { 0 }
    else if m == 2 { 31 }
    else if m == 3 { 59 }
    else if m == 4 { 90 }
    else if m == 5 { 120 }
    else if m == 6 { 151 }
    else if m == 7 { 181 }
    else if m == 8 { 212 }
    else if m == 9 { 243 }
    else if m == 10 { 273 }
    else if m == 11 { 304 }
    else { 334 }
}

pub open spec fn days_before_month(y: int, m: int) -> int {
    cum_days(m) + if m > 2 && is_leap(y) { 1int } else { 0int }
}

/// Days from 0001-01-01 to the first of January of year `y`.
pub open spec fn days_before_year(y: int) -> int {
    365 * (y - 1) + (y - 1) / 4 - (y - 1) / 100 + (y - 1) / 400
}

/// Days from 1970-01-01 to `y-m-d`.
pub open spec fn epoch_day(y: int, m: int, d: int) -> int {
    days_before_year(y) - days_before_year(1970) + days_before_month(y, m) + d - 1
}

pub open spec fn valid_date(y: int, m: int, d: int) -> bool {
    1 <= m <= 12 && 1 <= d <= month_len(y, m)
}

proof fn lemma_floor_step(y: int, k: int)
    requires
        k > 0,
    ensures
        y / k - (y - 1) / k == (if y % k == 0 { 1int } else { 0int }),
{
    lemma_fundamental_div_mod(y, k);
    let q = y / k;
    let r = y % k;
    assert(0 <= r < k) by {
        vstd::arithmetic::div_mod::lemma_mod_bound(y, k);
    }
    if r == 0 {
        assert(y - 1 == (q - 1) * k + (k - 1)) by (nonlinear_arith)
            requires
                y == k * q + r,
                r == 0,
        ;
        lemma_fundamental_div_mod_converse(y - 1, k, q - 1, k - 1);
    } else {
        assert(y - 1 == q * k + (r - 1)) by (nonlinear_arith)
            requires
                y == k * q + r,
        ;
        lemma_fundamental_div_mod_converse(y - 1, k, q, r - 1);
    }
}

proof fn lemma_year_step(y: int)
    ensures
        days_before_year(y + 1) == days_before_year(y) + 365 + if is_leap(y) { 1int } else { 0int },
{
    lemma_floor_step(y, 4);
    lemma_floor_step(y, 100);
    lemma_floor_step(y, 400);
    assert(y % 4 != 0 ==> y % 100 != 0) by {
        lemma_fundamental_div_mod(y, 100);
        lemma_fundamental_div_mod_converse(y, 4, 25 * (y / 100) + (y % 100) / 4, (y % 100) % 4);
        vstd::arithmetic::div_mod::lemma_mod_bound(y, 100);
    }
    assert(y % 100 != 0 ==> y % 400 != 0) by {
        lemma_fundamental_div_mod(y, 400);
        vstd::arithmetic::div_mod::lemma_mod_bound(y, 400);
        lemma_fundamental_div_mod_converse(y, 100, 4 * (y / 400) + (y % 400) / 100, (y % 400) % 100);
    }
}

proof fn lemma_era_split(yy: int, era: int, yoe: int)
    requires
        yy == 400 * era + yoe,
        0 <= yoe < 400,
    ensures
        yy / 4 == 100 * era + yoe / 4,
        yy / 100 == 4 * era + yoe / 100,
        yy / 400 == era,
        yy % 4 == yoe % 4,
        yy % 100 == yoe % 100,
        yy % 400 == yoe,
{
    lemma_fundamental_div_mod(yoe, 4);
    vstd::arithmetic::div_mod::lemma_mod_bound(yoe, 4);
    lemma_fundamental_div_mod_converse(yy, 4, 100 * era + yoe / 4, yoe % 4);
    lemma_fundamental_div_mod(yoe, 100);
    vstd::arithmetic::div_mod::lemma_mod_bound(yoe, 100);
    lemma_fundamental_div_mod_converse(yy, 100, 4 * era + yoe / 100, yoe % 100);
    lemma_fundamental_div_mod_converse(yy, 400, era, yoe);
}

/// Day number of the March-based year `yy` (its March 1st), counted from 0000-03-01.
pub open spec fn march_start(yy: int) -> int {
    365 * yy + yy / 4 - yy / 100 + yy / 400
}

/// Hinnant's forward computation, stated over mathematical integers.
pub open spec fn hinnant_days(y: int, m: int, d: int) -> int {
    let yy = if m <= 2 { y - 1 } else { y };
    let era = yy / 400;
    let yoe = yy - era * 400;
    let mp = if m > 2 { m - 3 } else { m + 9 };
    let doy = (153 * mp + 2) / 5 + d - 1;
    let doe = yoe * 365 + yoe / 4 - yoe / 100 + doy;
    era * 146097 + doe - 719468
}

proof fn lemma_hinnant_forward(y: int, m: int, d: int)
    requires
        1 <= m <= 12,
    ensures
        hinnant_days(y, m, d) == epoch_day(y, m, d),
{
    let yy = if m <= 2 { y - 1 } else { y };
    let era = yy / 400;
    let yoe = yy - era * 400;
    lemma_fundamental_div_mod(yy, 400);
    vstd::arithmetic::div_mod::lemma_mod_bound(yy, 400);
    lemma_era_split(yy, era, yoe);
    assert(days_before_year(1970) == 719162) by {
        assert(1969int / 4 == 492);
        assert(1969int / 100 == 19);
        assert(1969int / 400 == 4);
    }
    lemma_year_step(yy);
    assert(days_before_year(yy + 1) == march_start(yy));
    if m > 2 {
        assert(yy == y);
    } else {
        assert(yy + 1 == y);
    }
}

/// `a / b` rounded toward negative infinity.
fn floor_div(a: i64, b: i64) -> (r: i64)
    requires
        b > 0,
    ensures
        r == a as int / b as int,
{
    if a >= 0 {
        let q = (a as u64) / (b as u64);
        proof {
            lemma_fundamental_div_mod(a as int, b as int);
            vstd::arithmetic::div_mod::lemma_mod_bound(a as int, b as int);
            lemma_fundamental_div_mod(a as int, b as int);
        }
        q as i64
    } else {
        let na: u64 = ((-(a + 1)) as u64);
        let q = na / (b as u64);
        proof {
            let r = na as int % b as int;
            lemma_fundamental_div_mod(na as int, b as int);
            vstd::arithmetic::div_mod::lemma_mod_bound(na as int, b as int);
            let qi = q as int;
            let bi = b as int;
            assert(a as int == (-qi - 1) * bi + (bi - 1 - r)) by (nonlinear_arith)
                requires
                    na as int == bi * qi + r,
                    na as int == -(a as int + 1),
            ;
            lemma_fundamental_div_mod_converse(a as int, b as int, -(q as int) - 1, b - 1 - r);
        }
        -(q as i64) - 1
    }
}

proof fn lemma_year_of_era(doe: u64, t: u64, yoe: u64)
    by (bit_vector)
    requires
        doe < 146097u64,
        t == ((((doe - doe / 1460u64) as u64) + doe / 36524u64) as u64 - doe / 146096u64) as u64,
        yoe == t / 365u64,
    ensures
        yoe < 400u64,
        ((((365u64 * yoe) as u64 + yoe / 4u64) as u64) - yoe / 100u64) as u64 <= doe,
        doe < ((((((365u64 * ((yoe + 1u64) as u64)) as u64 + ((yoe + 1u64) as u64) / 4u64) as u64)
            - ((yoe + 1u64) as u64) / 100u64) as u64) + ((yoe + 1u64) as u64) / 400u64) as u64,
{
}

proof fn lemma_month_of_year(doy: u64, mp: u64)
    by (bit_vector)
    requires
        doy < 366u64,
        mp == ((5u64 * doy) as u64 + 2u64) as u64 / 153u64,
    ensures
        mp < 12u64,
        ((153u64 * mp) as u64 + 2u64) as u64 / 5u64 <= doy,
        doy < ((153u64 * ((mp + 1u64) as u64)) as u64 + 2u64) as u64 / 5u64,
{
}

/// Day number `days` as `(year, month, day)`.
pub fn civil_from_days(days: i64) -> (r: (i64, u64, u64))
    requires
        days <= i64::MAX - 719_468,
    ensures
        valid_date(r.0 as int, r.1 as int, r.2 as int),
        epoch_day(r.0 as int, r.1 as int, r.2 as int) == days,
{
    let z: i64 = days + 719_468;
    let era: i64 = floor_div(z, 146_097);
    proof {
        lemma_fundamental_div_mod(z as int, 146097);
        vstd::arithmetic::div_mod::lemma_mod_bound(z as int, 146097);
    }
    let doe: u64 = (z - era * 146_097) as u64;
    let t: u64 = doe - doe / 1_460 + doe / 36_524 - doe / 146_096;
    let yoe: u64 = t / 365;
    proof {
        lemma_year_of_era(doe, t, yoe);
    }
    let yb: i64 = yoe as i64 + era * 400;
    let doy: u64 = doe - (365 * yoe + yoe / 4 - yoe / 100);
    proof {
        // The March-based year holds 365 or 366 days.
        let k = yoe as int + 1;
        if k == 400 {
            assert(k / 4 == 100 && k / 100 == 4 && k / 400 == 1);
        } else {
            assert(k / 400 == 0);
        }
    }
    let mp: u64 = (5 * doy + 2) / 153;
    proof {
        lemma_month_of_year(doy, mp);
    }
    let d: u64 = doy - (153 * mp + 2) / 5 + 1;
    let m: u64 = if mp < 10 { mp + 3 } else { mp - 9 };
    let y: i64 = if m <= 2 { yb + 1 } else { yb };
    proof {
        let yy = yb as int;
        lemma_era_split(yy, era as int, yoe as int);
        lemma_hinnant_forward(y as int, m as int, d as int);
        assert(hinnant_days(y as int, m as int, d as int) == days);
        // Month lengths from the March-based table.
        if mp == 11 {
            let k = yoe as int + 1;
            lemma_floor_step(k, 4);
            lemma_floor_step(k, 100);
            lemma_floor_step(k, 400);
            assert(yoe as int / 400 == 0);
            if k < 400 {
                lemma_era_split(y as int, era as int, k);
            } else {
                lemma_era_split(y as int, era as int + 1, 0);
            }
            assert(is_leap(y as int) == is_leap(k)) by {
                if k < 400 {
                    assert(k % 400 == k);
                }
            }
        }
    }
    (y, m, d)
}


/// Day number of `y-m-d`.
pub fn days_from_civil(y: i64, m: u64, d: u64) -> (r: i64)
    requires
        1 <= m <= 12,
        1 <= d <= 31,
        -25_200_000_000_000_000 <= y <= 25_200_000_000_000_000,
    ensures
        r == epoch_day(y as int, m as int, d as int),
{
    let yy: i64 = if m <= 2 { y - 1 } else { y };
    let era: i64 = floor_div(yy, 400);
    proof {
        lemma_fundamental_div_mod(yy as int, 400);
        vstd::arithmetic::div_mod::lemma_mod_bound(yy as int, 400);
    }
    let yoe: u64 = (yy - era * 400) as u64;
    let mp: u64 = if m > 2 { m - 3 } else { m + 9 };
    let doy: u64 = (153 * mp + 2) / 5 + d - 1;
    let doe: u64 = yoe * 365 + yoe / 4 - yoe / 100 + doy;
    proof {
        lemma_hinnant_forward(y as int, m as int, d as int);
    }
    era * 146_097 + doe as i64 - 719_468
}

proof fn lemma_day_of_year(y: int, m: int, d: int)
    requires
        valid_date(y, m, d),
    ensures
        0 <= days_before_month(y, m) + d - 1,
        days_before_month(y, m) + d - 1 < 365 + if is_leap(y) { 1int } else { 0int },
{
}

proof fn lemma_years_ordered(y1: int, y2: int)
    requires
        y1 < y2,
    ensures
        days_before_year(y1) + 365 + (if is_leap(y1) { 1int } else { 0int }) <= days_before_year(y2),
    decreases y2 - y1,
{
    lemma_year_step(y1);
    if y1 + 1 < y2 {
        lemma_years_ordered(y1 + 1, y2);
        lemma_year_step(y1 + 1);
    }
}

/// Distinct dates have distinct day numbers: a day number names exactly
/// one date, so converting it to a date and back gives it again.
pub proof fn law_epoch_day_injective(y1: int, m1: int, d1: int, y2: int, m2: int, d2: int)
    requires
        valid_date(y1, m1, d1),
        valid_date(y2, m2, d2),
        epoch_day(y1, m1, d1) == epoch_day(y2, m2, d2),
    ensures
        y1 == y2 && m1 == m2 && d1 == d2,
{
    lemma_day_of_year(y1, m1, d1);
    lemma_day_of_year(y2, m2, d2);
    if y1 < y2 {
        lemma_years_ordered(y1, y2);
    } else if y2 < y1 {
        lemma_years_ordered(y2, y1);
    }
    assert(y1 == y2);
    if m1 < m2 {
        assert(days_before_month(y1, m1) + month_len(y1, m1) <= days_before_month(y1, m2));
    } else if m2 < m1 {
        assert(days_before_month(y1, m2) + month_len(y1, m2) <= days_before_month(y1, m1));
    }
}

/// The year field as `{:04}` renders it.
pub open spec fn year_text(y: int) -> Seq<char> {
    if y >= 0 {
        pad_left(dec(y as nat), 4, '0')
    } else {
        seq!['-'] + pad_left(dec((-y) as nat), 3, '0')
    }
}

/// `YYYY-MM-DD`.
pub open spec fn iso_text(y: int, m: int, d: int) -> Seq<char> {
    year_text(y) + seq!['-'] + pad_left(dec(m as nat), 2, '0') + seq!['-'] + pad_left(dec(d as nat), 2, '0')
}

/// Renders `y-m-d` as `YYYY-MM-DD`.
pub fn format_iso(y: i64, m: u64, d: u64) -> (r: String)
    ensures
        r@ == iso_text(y as int, m as int, d as int),
{
    let mut s = String::new();
    if y >= 0 {
        push_dec_padded(&mut s, y as u64, 4);
    } else {
        push_char(&mut s, '-');
        let mag: u64 = ((-(y + 1)) as u64) + 1;
        push_dec_padded(&mut s, mag, 3);
    }
    push_char(&mut s, '-');
    push_dec_padded(&mut s, m, 2);
    push_char(&mut s, '-');
    push_dec_padded(&mut s, d, 2);
    proof {
        assert(s@ =~= iso_text(y as int, m as int, d as int));
    }
    s
}

#[verifier::external_type_specification]
#[verifier::external_body]
pub struct ExSystemTime(std::time::SystemTime);

#[verifier::external_type_specification]
#[verifier::external_body]
pub struct ExSystemTimeError(std::time::SystemTimeError);

/// `SystemTime::now()`: the clock's reading. Nothing is claimed of it.
#[verifier::external_body]
fn clock_now() -> std::time::SystemTime {
    std::time::SystemTime::now()
}

/// `SystemTime::duration_since(UNIX_EPOCH)`: the time elapsed since the
/// Unix epoch, or an error when `t` is earlier. Nothing is claimed of it.
#[verifier::external_body]
fn since_unix_epoch(t: &std::time::SystemTime) -> Result<std::time::Duration, std::time::SystemTimeError> {
    t.duration_since(std::time::UNIX_EPOCH)
}

/// `Duration::as_secs`: the whole seconds of `d`. Nothing is claimed of
/// the value.
#[verifier::external_body]
fn whole_secs(d: &std::time::Duration) -> u64 {
    d.as_secs()
}

/// The clock in whole seconds since the Unix epoch; 0 when it reads
/// earlier than the epoch.
fn unix_now_secs() -> u64 {
    let now = clock_now();
    match since_unix_epoch(&now) {
        Ok(elapsed) => whole_secs(&elapsed),
        Err(_) => 0,
    }
}

/// The text of a date on or after 1970-01-01 that a 64-bit seconds clock can reach.
pub open spec fn is_clock_date(t: Seq<char>) -> bool {
    exists|y: int, m: int, d: int|
        valid_date(y, m, d) && 0 <= epoch_day(y, m, d) <= u64::MAX / 86400 && t == #[trigger] iso_text(y, m, d)
}

/// Today's date as `YYYY-MM-DD`.
pub fn today_iso() -> (r: String)
    ensures
        is_clock_date(r@),
        exists|y: int, m: int, d: int| valid_date(y, m, d) && r@ == #[trigger] iso_text(y, m, d)
            && (-999 <= y <= 9999 ==> r@.len() == 10 && r@[4] == '-' && r@[7] == '-' && iso_fields(r@) == Some((y, m, d))),
{
    let secs = unix_now_secs();
    let days: i64 = (secs / 86_400) as i64;
    let (y, m, d) = civil_from_days(days);
    let r = format_iso(y, m, d);
    assert(valid_date(y as int, m as int, d as int) && 0 <= epoch_day(y as int, m as int, d as int) <= u64::MAX / 86400 && r@ == iso_text(y as int, m as int, d as int));
    proof {
        if -999 <= y <= 9999 {
            law_iso_round_trip(y as int, m as int, d as int);
        }
    }
    r
}

pub open spec fn is_digit(c: char) -> bool {
    '0' <= c && c <= '9'
}

pub open spec fn all_digits(s: Seq<char>) -> bool {
    forall|i: int| 0 <= i < s.len() ==> is_digit(#[trigger] s[i])
}

/// Value of a run of decimal digits.
pub open spec fn digits_value(s: Seq<char>) -> int
    decreases s.len(),
{
    if s.len() == 0 {
        0
    } else {
        digits_value(s.drop_last()) * 10 + (s.last() as int - '0' as int)
    }
}

/// What `str::parse` into an unsigned integer accepts: an optional `+`
/// followed by one or more decimal digits.
pub open spec fn parse_unsigned(s: Seq<char>) -> Option<int> {
    if s.len() > 1 && s[0] == '+' && all_digits(s.drop_first()) {
        Some(digits_value(s.drop_first()))
    } else if s.len() > 0 && all_digits(s) {
        Some(digits_value(s))
    } else {
        None
    }
}

/// What `str::parse` into a signed integer accepts: an optional sign
/// followed by one or more decimal digits.
pub open spec fn parse_signed(s: Seq<char>) -> Option<int> {
    if s.len() > 1 && s[0] == '-' && all_digits(s.drop_first()) {
        Some(-digits_value(s.drop_first()))
    } else {
        parse_unsigned(s)
    }
}

/// The fields of a strict `YYYY-MM-DD` text: ten characters, dashes at 4 and
/// 7, month 1..=12, day 1..=31 (days are not checked against the month).
pub open spec fn iso_fields(s: Seq<char>) -> Option<(int, int, int)> {
    if s.len() == 10 && s[4] == '-' && s[7] == '-' {
        match (parse_signed(s.subrange(0, 4)), parse_unsigned(s.subrange(5, 7)), parse_unsigned(s.subrange(8, 10))) {
            (Some(y), Some(m), Some(d)) => if 1 <= m <= 12 && 1 <= d <= 31 {
                Some((y, m, d))
            } else {
                None
            },
            _ => None,
        }
    } else {
        None
    }
}

proof fn lemma_digits_bound(s: Seq<char>)
    requires
        all_digits(s),
    ensures
        0 <= digits_value(s) < pow10(s.len()),
    decreases s.len(),
{
    if s.len() > 0 {
        lemma_digits_bound(s.drop_last());
        assert(is_digit(s[s.len() - 1]));
    }
}

proof fn lemma_pow10_small()
    ensures
        pow10(0) == 1,
        pow10(1) == 10,
        pow10(2) == 100,
        pow10(3) == 1000,
        pow10(4) == 10000,
{
    assert(pow10(0) == 1);
    assert(pow10(1) == 10);
    assert(pow10(2) == 100);
    assert(pow10(3) == 1000);
    assert(pow10(4) == 10000);
}

pub open spec fn pow10(n: nat) -> int
    decreases n,
{
    if n == 0 { 1 } else { 10 * pow10((n - 1) as nat) }
}

/// Value of the digits `cs[from..to]` (at most four of them).
fn digits_in(cs: &Vec<char>, from: usize, to: usize) -> (r: Option<u64>)
    requires
        from <= to <= cs.len(),
        to - from <= 4,
    ensures
        match r {
            Some(v) => all_digits(cs@.subrange(from as int, to as int)) && v == digits_value(cs@.subrange(from as int, to as int)),
            None => !all_digits(cs@.subrange(from as int, to as int)),
        },
{
    let mut v: u64 = 0;
    let mut i = from;
    while i < to
        invariant
            from <= i <= to,
            to <= cs.len(),
            to - from <= 4,
            all_digits(cs@.subrange(from as int, i as int)),
            v == digits_value(cs@.subrange(from as int, i as int)),
            v < pow10((i - from) as nat),
        decreases to - i,
    {
        let c = cs[i];
        if !('0' <= c && c <= '9') {
            assert(!all_digits(cs@.subrange(from as int, to as int))) by {
                assert(cs@.subrange(from as int, to as int)[i - from] == c);
            }
            return None;
        }
        proof {
            let sub = cs@.subrange(from as int, i as int + 1);
            assert(sub.drop_last() =~= cs@.subrange(from as int, i as int));
            assert(pow10((i + 1 - from) as nat) == 10 * pow10((i - from) as nat));
            assert(pow10(4) == 10000) by {
                assert(pow10(0) == 1);
                assert(pow10(1) == 10);
                assert(pow10(2) == 100);
                assert(pow10(3) == 1000);
            }
            assert(pow10((i - from) as nat) <= 1000) by {
                assert(pow10(0) == 1);
                assert(pow10(1) == 10);
                assert(pow10(2) == 100);
                assert(pow10(3) == 1000);
            }
        }
        let digit = (c as u32 - '0' as u32) as u64;
        v = v * 10 + digit;
        i = i + 1;
        proof {
            let sub = cs@.subrange(from as int, i as int);
            assert(sub.drop_last() =~= cs@.subrange(from as int, i - 1));
            assert forall|j: int| 0 <= j < sub.len() implies is_digit(#[trigger] sub[j]) by {
                if j < sub.len() - 1 {
                    assert(sub[j] == cs@.subrange(from as int, i - 1)[j]);
                }
            }
        }
    }
    Some(v)
}

/// Rust's unsigned parse of `cs[from..to]` (at most four characters).
fn parse_unsigned_in(cs: &Vec<char>, from: usize, to: usize) -> (r: Option<u64>)
    requires
        from <= to <= cs.len(),
        to - from <= 4,
    ensures
        match r {
            Some(v) => parse_unsigned(cs@.subrange(from as int, to as int)) == Some(v as int),
            None => parse_unsigned(cs@.subrange(from as int, to as int)) is None,
        },
{
    let ghost s = cs@.subrange(from as int, to as int);
    if to - from > 1 && cs[from] == '+' {
        assert(s.drop_first() =~= cs@.subrange(from + 1, to as int));
        let r = digits_in(cs, from + 1, to);
        return r;
    }
    if to > from {
        digits_in(cs, from, to)
    } else {
        None
    }
}

/// Rust's signed parse of `cs[from..to]` (at most four characters).
fn parse_signed_in(cs: &Vec<char>, from: usize, to: usize) -> (r: Option<i64>)
    requires
        from <= to <= cs.len(),
        to - from <= 4,
    ensures
        match r {
            Some(v) => parse_signed(cs@.subrange(from as int, to as int)) == Some(v as int),
            None => parse_signed(cs@.subrange(from as int, to as int)) is None,
        },
{
    let ghost s = cs@.subrange(from as int, to as int);
    if to - from > 1 && cs[from] == '-' {
        assert(s.drop_first() =~= cs@.subrange(from + 1, to as int));
        match digits_in(cs, from + 1, to) {
            Some(v) => {
                proof {
                    lemma_digits_bound(s.drop_first());
                    lemma_pow10_small();
                    assert(s.drop_first().len() <= 3);
                    assert(pow10(s.drop_first().len()) <= 1000);
                }
                return Some(-(v as i64));
            }
            None => return None,
        }
    }
    match parse_unsigned_in(cs, from, to) {
        Some(v) => {
            proof {
                lemma_pow10_small();
                if s.len() > 1 && s[0] == '+' && all_digits(s.drop_first()) {
                    lemma_digits_bound(s.drop_first());
                    assert(pow10(s.drop_first().len()) <= 1000);
                } else {
                    lemma_digits_bound(s);
                    assert(pow10(s.len()) <= 10000);
                }
            }
            Some(v as i64)
        }
        None => None,
    }
}

/// Parses a strict `YYYY-MM-DD` date into `(year, month, day)`.
pub fn parse_iso_date(s: &str) -> (r: Option<(i64, u64, u64)>)
    ensures
        match r {
            Some(t) => iso_fields(s@) == Some((t.0 as int, t.1 as int, t.2 as int)),
            None => iso_fields(s@) is None,
        },
{
    let cs = chars_of(s);
    if cs.len() != 10 || cs[4] != '-' || cs[7] != '-' {
        return None;
    }
    let y = match parse_signed_in(&cs, 0, 4) {
        Some(v) => v,
        None => return None,
    };
    let m = match parse_unsigned_in(&cs, 5, 7) {
        Some(v) => v,
        None => return None,
    };
    let d = match parse_unsigned_in(&cs, 8, 10) {
        Some(v) => v,
        None => return None,
    };
    if m < 1 || m > 12 || d < 1 || d > 31 {
        return None;
    }
    Some((y, m, d))
}

/// Day difference between two strict ISO dates.
pub open spec fn days_between_spec(from: Seq<char>, to: Seq<char>) -> Option<int> {
    match (iso_fields(from), iso_fields(to)) {
        (Some(a), Some(b)) => Some(epoch_day(b.0, b.1, b.2) - epoch_day(a.0, a.1, a.2)),
        _ => None,
    }
}

/// Whole days from `from` to `to` (negative when `to` is earlier); `None`
/// when either fails to parse.
pub fn days_between(from: &str, to: &str) -> (r: Option<i64>)
    ensures
        match r {
            Some(n) => days_between_spec(from@, to@) == Some(n as int),
            None => days_between_spec(from@, to@) is None,
        },
{
    let (y1, m1, d1) = match parse_iso_date(from) {
        Some(t) => t,
        None => return None,
    };
    let (y2, m2, d2) = match parse_iso_date(to) {
        Some(t) => t,
        None => return None,
    };
    proof {
        let a = from@.subrange(0, 4);
        let b = to@.subrange(0, 4);
        if a.len() > 1 && a[0] == '-' && all_digits(a.drop_first()) {
            lemma_digits_bound(a.drop_first());
        } else if a.len() > 1 && a[0] == '+' && all_digits(a.drop_first()) {
            lemma_digits_bound(a.drop_first());
        } else {
            lemma_digits_bound(a);
        }
        if b.len() > 1 && b[0] == '-' && all_digits(b.drop_first()) {
            lemma_digits_bound(b.drop_first());
        } else if b.len() > 1 && b[0] == '+' && all_digits(b.drop_first()) {
            lemma_digits_bound(b.drop_first());
        } else {
            lemma_digits_bound(b);
        }
        assert(pow10(4) == 10000 && pow10(3) == 1000) by {
            assert(pow10(0) == 1);
            assert(pow10(1) == 10);
            assert(pow10(2) == 100);
        }
        assert(a.drop_first().len() == 3 && b.drop_first().len() == 3);
    }
    let later = days_from_civil(y2, m2, d2);
    let earlier = days_from_civil(y1, m1, d1);
    Some(later - earlier)
}

/// Whole days from `from` to today; `None` when `from` does not parse.
pub fn days_ago(from: &str) -> (r: Option<i64>)
    ensures
        exists|today: Seq<char>|
            is_clock_date(today) && match r {
                Some(n) => days_between_spec(from@, today) == Some(n as int),
                None => days_between_spec(from@, today) is None,
            },
{
    let today = today_iso();
    days_between(from, today.as_str())
}

} // verus!

verus! {

proof fn lemma_dec_digits(n: nat)
    ensures
        all_digits(dec(n)),
        digits_value(dec(n)) == n,
        n < 10 ==> dec(n).len() == 1,
        n < 100 ==> dec(n).len() <= 2,
        n < 1000 ==> dec(n).len() <= 3,
        n < 10000 ==> dec(n).len() <= 4,
        dec(n).len() >= 1,
    decreases n,
{
    if n < 10 {
        assert(dec(n) == seq![crate::text::digit_char(n)]);
        assert(crate::text::digit_char(n) as int == n + 48);
        assert(dec(n).drop_last() =~= Seq::<char>::empty());
        assert(digits_value(dec(n).drop_last()) == 0);
        assert(dec(n).last() as int - '0' as int == n);
        assert(digits_value(dec(n)) == digits_value(dec(n).drop_last()) * 10 + (dec(n).last() as int - '0' as int));
    } else {
        lemma_dec_digits(n / 10);
        lemma_fundamental_div_mod(n as int, 10);
        let s = dec(n);
        assert(s == dec(n / 10).push(crate::text::digit_char(n % 10)));
        assert(s.drop_last() =~= dec(n / 10));
        assert(crate::text::digit_char(n % 10) as int == n % 10 + 48);
        assert(s.last() as int - '0' as int == n % 10);
        assert(digits_value(s) == digits_value(s.drop_last()) * 10 + (s.last() as int - '0' as int));
        assert(digits_value(s) == (n / 10) * 10 + n % 10);
        assert forall|i: int| 0 <= i < s.len() implies is_digit(#[trigger] s[i]) by {
            if i < s.len() - 1 {
                assert(s[i] == dec(n / 10)[i]);
            }
        }
    }
}

proof fn lemma_zeros_value(z: Seq<char>)
    requires
        forall|i: int| 0 <= i < z.len() ==> z[i] == '0',
    ensures
        all_digits(z),
        digits_value(z) == 0,
    decreases z.len(),
{
    if z.len() > 0 {
        lemma_zeros_value(z.drop_last());
    }
}

proof fn lemma_leading_zeros(z: Seq<char>, s: Seq<char>)
    requires
        forall|i: int| 0 <= i < z.len() ==> z[i] == '0',
        all_digits(s),
    ensures
        all_digits(z + s),
        digits_value(z + s) == digits_value(s),
    decreases s.len(),
{
    if s.len() == 0 {
        lemma_zeros_value(z);
        assert(z + s =~= z);
    } else {
        assert forall|i: int| 0 <= i < s.drop_last().len() implies is_digit(#[trigger] s.drop_last()[i]) by {
            assert(s.drop_last()[i] == s[i]);
        }
        lemma_leading_zeros(z, s.drop_last());
        assert((z + s).drop_last() =~= z + s.drop_last());
        assert(is_digit(s.last()));
        assert forall|i: int| 0 <= i < (z + s).len() implies is_digit(#[trigger] (z + s)[i]) by {
            if i < z.len() {
            } else {
                assert((z + s)[i] == s[i - z.len()]);
            }
        }
    }
}

proof fn lemma_padded_digits(n: nat, w: nat)
    requires
        dec(n).len() <= w,
    ensures
        all_digits(pad_left(dec(n), w, '0')),
        digits_value(pad_left(dec(n), w, '0')) == n,
        pad_left(dec(n), w, '0').len() == w,
{
    lemma_dec_digits(n);
    if dec(n).len() < w {
        let z = Seq::new((w - dec(n).len()) as nat, |i: int| '0');
        assert(pad_left(dec(n), w, '0') == z + dec(n));
        lemma_leading_zeros(z, dec(n));
    }
}

/// A date written as `YYYY-MM-DD` is ten characters with `-` at the fifth
/// and eighth, and parses back to the same date, for every year that fits
/// four characters (-999 to 9999).
pub proof fn law_iso_round_trip(y: int, m: int, d: int)
    requires
        valid_date(y, m, d),
        -999 <= y <= 9999,
    ensures
        iso_text(y, m, d).len() == 10,
        iso_text(y, m, d)[4] == '-',
        iso_text(y, m, d)[7] == '-',
        iso_fields(iso_text(y, m, d)) == Some((y, m, d)),
{
    let s = iso_text(y, m, d);
    let yt = year_text(y);
    let mt = pad_left(dec(m as nat), 2, '0');
    let dt = pad_left(dec(d as nat), 2, '0');
    lemma_dec_digits(m as nat);
    lemma_dec_digits(d as nat);
    lemma_padded_digits(m as nat, 2);
    lemma_padded_digits(d as nat, 2);
    if y >= 0 {
        lemma_dec_digits(y as nat);
        lemma_padded_digits(y as nat, 4);
        assert(!is_digit('-'));
        assert(!is_digit('+'));
        assert(is_digit(yt[0]));
        assert(parse_signed(yt) == Some(y));
    } else {
        lemma_dec_digits((-y) as nat);
        lemma_padded_digits((-y) as nat, 3);
        assert(yt.drop_first() =~= pad_left(dec((-y) as nat), 3, '0'));
        assert(parse_signed(yt) == Some(y));
    }
    assert(yt.len() == 4);
    assert(s.len() == 10);
    assert(s[4] == '-');
    assert(s[7] == '-');
    assert(s.subrange(0, 4) =~= yt);
    assert(s.subrange(5, 7) =~= mt);
    assert(s.subrange(8, 10) =~= dt);
    assert(is_digit(mt[0]));
    assert(is_digit(dt[0]));
    assert(parse_unsigned(mt) == Some(m));
    assert(parse_unsigned(dt) == Some(d));
}

} // verus!
