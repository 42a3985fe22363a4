//! Rendering of a Unix-epoch instant as an RFC3339 UTC timestamp
//! (`1970-01-01T00:00:00Z`), with the civil-calendar arithmetic proved: the
//! rendered fields always re-compose to the instant they came from.
use vstd::prelude::*;

use crate::json::{append_u64, dec_digit, dec_digit_char, dec_digits, push_char};

verus! {

/// A leap year of the proleptic Gregorian calendar.
pub open spec fn is_leap(y: nat) -> bool {
    y % 4 == 0 && (y % 100 != 0 || y % 400 == 0)
}

/// Days in a year.
pub open spec fn days_in_year(y: nat) -> nat {
    if is_leap(y) {
        366
    } else {
        365
    }
}

/// Days from the epoch to the start of year `y`.
pub open spec fn days_before_year(y: nat) -> nat
    decreases y,
{
    if y <= 1970 {
        0
    } else {
        days_before_year((y - 1) as nat) + days_in_year((y - 1) as nat)
    }
}

/// Days in month `m` of year `y`.
pub open spec fn days_in_month(y: nat, m: nat) -> nat {
    if m == 2 {
        if is_leap(y) {
            29
        } else {
            28
        }
    } else if m == 4 || m == 6 || m == 9 || m == 11 {
        30
    } else {
        31
    }
}

/// Days from the start of year `y` to the start of month `m`.
pub open spec fn days_before_month(y: nat, m: nat) -> nat
    decreases m,
{
    if m <= 1 {
        0
    } else {
        days_before_month(y, (m - 1) as nat) + days_in_month(y, (m - 1) as nat)
    }
}

/// The months of a year cover it exactly.
pub proof fn lemma_months_sum(y: nat)
    ensures
        days_before_month(y, 13) == days_in_year(y),
{
    reveal_with_fuel(days_before_month, 13);
}

/// The instant of a civil date and time, in seconds from the epoch.
pub open spec fn epoch_secs(y: nat, mo: nat, d: nat, h: nat, mi: nat, s: nat) -> int {
    (days_before_year(y) + days_before_month(y, mo) + d - 1) * 86400 + h * 3600 + mi * 60 + s
}

/// The year that day `days` (counted from the epoch) falls in, and the day
/// of that year, accumulating from year `y`.
pub open spec fn split_year(days: nat, y: nat) -> (nat, nat)
    decreases days,
{
    if days < days_in_year(y) {
        (y, days)
    } else {
        split_year((days - days_in_year(y)) as nat, y + 1)
    }
}

/// The month that day `days` of a year falls in, and the day of that month,
/// accumulating from month `m`.
pub open spec fn split_month(days: nat, y: nat, m: nat) -> (nat, nat)
    decreases 13 - m,
{
    if m >= 12 || days < days_in_month(y, m) {
        (m, days)
    } else {
        split_month((days - days_in_month(y, m)) as nat, y, m + 1)
    }
}

/// The civil date and time of an instant: year, month, day, hour, minute,
/// second.
pub open spec fn civil_of(ts: nat) -> (nat, nat, nat, nat, nat, nat) {
    let days = ts / 86400;
    let rem = ts % 86400;
    let (y, doy) = split_year(days, 1970);
    let (mo, dom) = split_month(doy, y, 1);
    (y, mo, dom + 1, rem / 3600, (rem % 3600) / 60, rem % 60)
}

pub proof fn lemma_split_year(days: nat, y: nat)
    requires
        y >= 1970,
    ensures
        ({
            let (ry, doy) = split_year(days, y);
            &&& ry >= y
            &&& doy < days_in_year(ry)
            &&& days_before_year(ry) + doy == days_before_year(y) + days
        }),
    decreases days,
{
    if days < days_in_year(y) {
    } else {
        lemma_split_year((days - days_in_year(y)) as nat, y + 1);
    }
}

pub proof fn lemma_split_month(days: nat, y: nat, m: nat)
    requires
        1 <= m <= 12,
        days_before_month(y, m) + days < days_in_year(y),
    ensures
        ({
            let (rm, dom) = split_month(days, y, m);
            &&& 1 <= rm <= 12
            &&& dom < days_in_month(y, rm)
            &&& days_before_month(y, rm) + dom == days_before_month(y, m) + days
        }),
    decreases 13 - m,
{
    if m >= 12 || days < days_in_month(y, m) {
        if m >= 12 && days >= days_in_month(y, m) {
            lemma_months_sum(y);
            assert(days_before_month(y, 13) == days_before_month(y, 12) + days_in_month(y, 12));
            assert(false);
        }
    } else {
        lemma_split_month((days - days_in_month(y, m)) as nat, y, m + 1);
    }
}

/// The civil fields of an instant are in range and re-compose to it.
pub proof fn lemma_civil_of(ts: nat)
    ensures
        ({
            let (y, mo, d, h, mi, s) = civil_of(ts);
            &&& y >= 1970
            &&& 1 <= mo <= 12
            &&& 1 <= d <= 31
            &&& h < 24
            &&& mi < 60
            &&& s < 60
            &&& epoch_secs(y, mo, d, h, mi, s) == ts
        }),
{
    let days = ts / 86400;
    let rem = ts % 86400;
    assert(days * 86400 + rem == ts) by {
        vstd::arithmetic::div_mod::lemma_fundamental_div_mod(ts as int, 86400);
    }
    assert(rem < 86400) by {
        vstd::arithmetic::div_mod::lemma_mod_bound(ts as int, 86400);
    }
    lemma_split_year(days, 1970);
    let (y, doy) = split_year(days, 1970);
    lemma_split_month(doy, y, 1);
    let (mo, dom) = split_month(doy, y, 1);
    let h = rem / 3600;
    let mi = (rem % 3600) / 60;
    let s = rem % 60;
    assert(h * 3600 + mi * 60 + s == rem && h < 24 && mi < 60 && s < 60) by {
        vstd::arithmetic::div_mod::lemma_fundamental_div_mod(rem as int, 3600);
        vstd::arithmetic::div_mod::lemma_mod_bound(rem as int, 3600);
        vstd::arithmetic::div_mod::lemma_fundamental_div_mod((rem % 3600) as int, 60);
        vstd::arithmetic::div_mod::lemma_mod_bound((rem % 3600) as int, 60);
        assert(rem % 60 == (rem % 3600) % 60) by {
            vstd::arithmetic::div_mod::lemma_mod_mod(rem as int, 60, 60);
            assert(3600 == 60 * 60);
            vstd::arithmetic::div_mod::lemma_mod_breakdown(rem as int, 60, 60);
        }
    }
    assert((days_before_year(y) + days_before_month(y, mo) + dom) * 86400 + rem == ts) by {
        assert(days_before_year(y) + days_before_month(y, mo) + dom == days);
    }
}

/// A two-digit decimal field, zero-padded.
pub open spec fn pad2(n: nat) -> Seq<char> {
    if n < 10 {
        seq!['0', dec_digit(n as int)]
    } else {
        dec_digits(n)
    }
}

/// The RFC3339 UTC rendering of an instant.
#[verifier::opaque]
pub open spec fn rfc3339_of(ts: u64) -> Seq<char> {
    let (y, mo, d, h, mi, s) = civil_of(ts as nat);
    dec_digits(y) + seq!['-'] + pad2(mo) + seq!['-'] + pad2(d) + seq!['T'] + pad2(h) + seq![':']
        + pad2(mi) + seq![':'] + pad2(s) + seq!['Z']
}

/// Days in a year, executable.
fn days_in_year_x(y: u64) -> (r: u64)
    ensures
        r == days_in_year(y as nat),
        365 <= r <= 366,
{
    if y % 4 == 0 && (y % 100 != 0 || y % 400 == 0) {
        366
    } else {
        365
    }
}

/// Days in a month, executable.
fn days_in_month_x(y: u64, m: u64) -> (r: u64)
    ensures
        r == days_in_month(y as nat, m as nat),
        28 <= r <= 31,
{
    if m == 2 {
        if y % 4 == 0 && (y % 100 != 0 || y % 400 == 0) {
            29
        } else {
            28
        }
    } else if m == 4 || m == 6 || m == 9 || m == 11 {
        30
    } else {
        31
    }
}

/// The civil date and time of an instant.
pub fn civil_from_secs(ts: u64) -> (r: (u64, u64, u64, u64, u64, u64))
    ensures
        (r.0 as nat, r.1 as nat, r.2 as nat, r.3 as nat, r.4 as nat, r.5 as nat) == civil_of(
            ts as nat,
        ),
        1970 <= r.0,
        1 <= r.1 <= 12,
        1 <= r.2 <= 31,
        r.3 < 24,
        r.4 < 60,
        r.5 < 60,
{
    let total_days: u64 = ts / 86400;
    let rem: u64 = ts % 86400;
    let mut days: u64 = total_days;
    let mut y: u64 = 1970;
    while days >= days_in_year_x(y)
        invariant
            y >= 1970,
            y - 1970 + days <= total_days,
            total_days == ts as nat / 86400,
            split_year(total_days as nat, 1970) == split_year(days as nat, y as nat),
        decreases days,
    {
        days = days - days_in_year_x(y);
        y = y + 1;
    }
    let mut m: u64 = 1;
    while m < 12 && days >= days_in_month_x(y, m)
        invariant
            1 <= m <= 12,
            days <= total_days,
            split_month(split_year(total_days as nat, 1970).1, y as nat, 1) == split_month(
                days as nat,
                y as nat,
                m as nat,
            ),
            split_year(total_days as nat, 1970) == (y as nat, split_year(
                total_days as nat,
                1970,
            ).1),
        decreases 12 - m,
    {
        days = days - days_in_month_x(y, m);
        m = m + 1;
    }
    proof {
        lemma_civil_of(ts as nat);
        lemma_split_year(total_days as nat, 1970);
        lemma_split_month(split_year(total_days as nat, 1970).1, y as nat, 1);
    }
    (y, m, days + 1, rem / 3600, (rem % 3600) / 60, rem % 60)
}


/// Years from the epoch put at least 365 days each behind them.
pub proof fn lemma_days_before_year_lower(y: nat)
    requires
        y >= 1970,
    ensures
        days_before_year(y) >= 365 * (y - 1970),
    decreases y,
{
    if y > 1970 {
        lemma_days_before_year_lower((y - 1) as nat);
    }
}

/// Later years have at least as many days behind them.
pub proof fn lemma_days_before_year_mono(a: nat, b: nat)
    requires
        a <= b,
    ensures
        days_before_year(a) <= days_before_year(b),
    decreases b,
{
    if a < b {
        lemma_days_before_year_mono(a, (b - 1) as nat);
    }
}

/// Appends a two-digit zero-padded field.
fn append_pad2(out: &mut String, n: u64)
    requires
        n < 100,
    ensures
        final(out)@ == old(out)@ + pad2(n as nat),
{
    if n < 10 {
        push_char(out, '0');
        push_char(out, dec_digit_char(n));
        assert(final(out)@ =~= old(out)@ + pad2(n as nat));
    } else {
        append_u64(out, n);
    }
}

/// Appends the RFC3339 UTC rendering of `ts`.
pub(crate) fn append_datetime(out: &mut String, ts: u64)
    ensures
        final(out)@ == old(out)@ + rfc3339_of(ts),
{
    let parts = civil_from_secs(ts);
    append_u64(out, parts.0);
    push_char(out, '-');
    append_pad2(out, parts.1);
    push_char(out, '-');
    append_pad2(out, parts.2);
    push_char(out, 'T');
    append_pad2(out, parts.3);
    push_char(out, ':');
    append_pad2(out, parts.4);
    push_char(out, ':');
    append_pad2(out, parts.5);
    push_char(out, 'Z');
    proof {
        reveal(rfc3339_of);
        assert(final(out)@ =~= old(out)@ + rfc3339_of(ts));
    }
}


/// Days from the epoch to the start of year `y`, or `None` when the count
/// leaves the 64-bit range.
pub(crate) fn days_before_year_x(y: u64) -> (r: Option<u64>)
    requires
        y >= 1970,
    ensures
        match r {
            Some(v) => v as nat == days_before_year(y as nat),
            None => days_before_year(y as nat) > u64::MAX,
        },
{
    let mut acc: u64 = 0;
    let mut yy: u64 = 1970;
    while yy < y
        invariant
            1970 <= yy <= y,
            acc as nat == days_before_year(yy as nat),
        decreases y - yy,
    {
        let len = days_in_year_x(yy);
        acc = match acc.checked_add(len) {
            Some(v) => v,
            None => {
                proof {
                    assert(days_before_year(yy as nat + 1) == days_before_year(yy as nat)
                        + days_in_year(yy as nat));
                    lemma_days_before_year_mono(yy as nat + 1, y as nat);
                }
                return None;
            },
        };
        yy = yy + 1;
    }
    Some(acc)
}

/// Days from the start of year `y` to the start of month `m`.
pub(crate) fn days_before_month_x(y: u64, m: u64) -> (r: u64)
    requires
        1 <= m <= 13,
    ensures
        r as nat == days_before_month(y as nat, m as nat),
        r <= 372,
{
    let mut acc: u64 = 0;
    let mut mm: u64 = 1;
    while mm < m
        invariant
            1 <= mm <= m,
            m <= 13,
            acc as nat == days_before_month(y as nat, mm as nat),
            acc <= 31 * (mm - 1),
        decreases m - mm,
    {
        acc = acc + days_in_month_x(y, mm);
        mm = mm + 1;
    }
    acc
}

/// The instant of a civil date and time, or `None` when it leaves the
/// 64-bit range.
pub(crate) fn epoch_secs_x(y: u64, mo: u64, d: u64, h: u64, mi: u64, s: u64) -> (r: Option<u64>)
    requires
        1970 <= y,
        1 <= mo <= 12,
        1 <= d <= 99,
        h < 24,
        mi < 60,
        s < 60,
    ensures
        match r {
            Some(v) => v as int == epoch_secs(y as nat, mo as nat, d as nat, h as nat, mi as nat, s as nat),
            None => epoch_secs(y as nat, mo as nat, d as nat, h as nat, mi as nat, s as nat)
                > u64::MAX,
        },
{
    let ghost total: int = epoch_secs(y as nat, mo as nat, d as nat, h as nat, mi as nat, s as nat);
    let ghost all_days: int = days_before_year(y as nat) + days_before_month(y as nat, mo as nat)
        + d - 1;
    proof {
        assert(total == all_days * 86400 + h * 3600 + mi * 60 + s);
        assert(all_days * 86400 >= all_days) by (nonlinear_arith)
            requires
                all_days >= 0,
        ;
    }
    let dby = match days_before_year_x(y) {
        Some(v) => v,
        None => {
            return None;
        },
    };
    let dbm = days_before_month_x(y, mo);
    let days1 = match dby.checked_add(dbm) {
        Some(v) => v,
        None => {
            return None;
        },
    };
    let days = match days1.checked_add(d - 1) {
        Some(v) => v,
        None => {
            return None;
        },
    };
    let base = match days.checked_mul(86400) {
        Some(v) => v,
        None => {
            proof {
                assert(total >= all_days * 86400);
            }
            return None;
        },
    };
    let hms: u64 = h * 3600 + mi * 60 + s;
    match base.checked_add(hms) {
        Some(v) => Some(v),
        None => None,
    }
}

} // verus!
