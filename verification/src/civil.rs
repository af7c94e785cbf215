//! Dates of the Gregorian calendar.

use crate::text;
use vstd::prelude::*;

verus! {

/// Whether a year has a leap day.
pub open spec fn leap(y: int) -> bool {
    y % 4 == 0 && (y % 100 != 0 || y % 400 == 0)
}

/// How many leap days the years from 1 to `y` have.
pub open spec fn leap_days(y: int) -> int {
    y / 4 - y / 100 + y / 400
}

/// How many days of a year lie before a month.
pub open spec fn days_before_month(y: int, m: int) -> int {
    let base: int = if m <= 1 {
        0
    } else if m == 2 {
        31
    } else if m == 3 {
        59
    } else if m == 4 {
        90
    } else if m == 5 {
        120
    } else if m == 6 {
        151
    } else if m == 7 {
        181
    } else if m == 8 {
        212
    } else if m == 9 {
        243
    } else if m == 10 {
        273
    } else if m == 11 {
        304
    } else {
        334
    };
    if m > 2 && leap(y) {
        base + 1
    } else {
        base
    }
}

/// How many days a month has.
pub open spec fn month_len(y: int, m: int) -> int {
    if m == 2 {
        if leap(y) {
            29
        } else {
            28
        }
    } else if m == 4 || m == 6 || m == 9 || m == 11 {
        30
    } else {
        31
    }
}

/// Whether there is such a date.
pub open spec fn valid(y: int, m: int, d: int) -> bool {
    y >= 1 && 1 <= m <= 12 && 1 <= d <= month_len(y, m)
}

/// How many days a date lies after 1 January 1970.
pub open spec fn day_number(y: int, m: int, d: int) -> int {
    365 * (y - 1970) + leap_days(y - 1) - leap_days(1969) + days_before_month(y, m) + d - 1
}

/// The leap days count up by one after each leap year.
proof fn lemma_leap_days_step(y: int)
    requires
        y >= 1,
    ensures
        leap_days(y) == leap_days(y - 1) + if leap(y) {
            1int
        } else {
            0int
        },
{
}

/// Later years start later.
proof fn lemma_years_apart(a: int, b: int)
    requires
        1 <= a < b,
    ensures
        day_number(b, 1, 1) >= day_number(a, 1, 1) + 365 + if leap(a) {
            1int
        } else {
            0int
        },
    decreases b - a,
{
    lemma_leap_days_step(b - 1);
    if a < b - 1 {
        lemma_years_apart(a, b - 1);
    }
}

/// A day has one date.
pub proof fn law_one_date(y1: int, m1: int, d1: int, y2: int, m2: int, d2: int)
    requires
        valid(y1, m1, d1),
        valid(y2, m2, d2),
        day_number(y1, m1, d1) == day_number(y2, m2, d2),
    ensures
        y1 == y2,
        m1 == m2,
        d1 == d2,
{
    if y1 < y2 {
        lemma_years_apart(y1, y2);
    } else if y2 < y1 {
        lemma_years_apart(y2, y1);
    }
}

/// The day of a year that starts in March at which its month `mp` starts.
spec fn month_start(mp: int) -> int {
    if mp <= 0 {
        0
    } else if mp == 1 {
        31
    } else if mp == 2 {
        61
    } else if mp == 3 {
        92
    } else if mp == 4 {
        122
    } else if mp == 5 {
        153
    } else if mp == 6 {
        184
    } else if mp == 7 {
        214
    } else if mp == 8 {
        245
    } else if mp == 9 {
        275
    } else if mp == 10 {
        306
    } else if mp == 11 {
        337
    } else {
        366
    }
}

/// The month in which a day of a year that starts in March lies.
proof fn lemma_month(doy: int)
    requires
        0 <= doy <= 365,
    ensures
        ({
            let mp = (5 * doy + 2) / 153;
            &&& 0 <= mp <= 11
            &&& (153 * mp + 2) / 5 == month_start(mp)
            &&& month_start(mp) <= doy < month_start(mp + 1)
        }),
{
}

/// The centuries, the leap years and the eras in a year.
proof fn lemma_year_parts(era: int, century: int, quad: int, one: int)
    requires
        era >= 0,
        0 <= century <= 3,
        0 <= quad <= 24,
        0 <= one <= 3,
    ensures
        ({
            let my = era * 400 + century * 100 + quad * 4 + one;
            &&& my / 4 == era * 100 + century * 25 + quad
            &&& my / 100 == era * 4 + century
            &&& my / 400 == era
        }),
{
}

/// A year whose number ends a run of four is followed by a leap year, unless a
/// century ends with it that does not end an era.
proof fn lemma_leap_follows(era: int, century: int, quad: int)
    requires
        era >= 0,
        0 <= century <= 3,
        0 <= quad <= 24,
        quad == 24 ==> century == 3,
    ensures
        leap(era * 400 + century * 100 + quad * 4 + 4),
{
    let y = era * 400 + century * 100 + quad * 4 + 4;
    assert(y % 4 == 0);
    if quad < 24 {
        assert(y % 100 == quad * 4 + 4);
    } else {
        assert(y == (era + 1) * 400);
        assert(y % 400 == 0);
    }
}

/// A day of a year that starts in March as a date.
proof fn lemma_date(my: int, doy: int, y: int, m: int, d: int)
    requires
        my >= 1,
        0 <= doy <= 365,
        doy == 365 ==> leap(my + 1),
        ({
            let mp = (5 * doy + 2) / 153;
            &&& d == doy - month_start(mp) + 1
            &&& m == if mp < 10 {
                mp + 3
            } else {
                mp - 9
            }
            &&& y == if mp < 10 {
                my
            } else {
                my + 1
            }
        }),
    ensures
        valid(y, m, d),
        day_number(y, m, d) == 365 * my + leap_days(my) + doy - 719_468,
{
    lemma_month(doy);
    lemma_leap_days_step(my);
    lemma_leap_days_step(my + 1);
    assert(leap_days(1969) == 477);
}

/// The date of a day after 1 January 1970.
pub fn civil_date(days: u64) -> (r: (u64, u64, u64))
    requires
        days <= 0x3fff_ffff_ffff,
    ensures
        valid(r.0 as int, r.1 as int, r.2 as int),
        day_number(r.0 as int, r.1 as int, r.2 as int) == days,
{
    // Days and years are counted from 1 March of the year 0, so that a leap day is
    // the last day of its year.
    let z: u64 = days + 719_468;
    let era: u64 = z / 146_097;
    let in_era: u64 = z % 146_097;
    let century: u64 = if in_era >= 146_096 {
        3
    } else {
        in_era / 36_524
    };
    assert(century <= 3);
    let in_century: u64 = in_era - century * 36_524;
    assert(in_century <= 36_524);
    assert(century < 3 ==> in_century < 36_524);
    let quad: u64 = in_century / 1461;
    assert(quad <= 24);
    let in_quad: u64 = in_century % 1461;
    let one: u64 = if in_quad >= 1460 {
        3
    } else {
        in_quad / 365
    };
    assert(one <= 3);
    let doy: u64 = in_quad - one * 365;
    assert(doy <= 365);
    let march_year: u64 = era * 400 + century * 100 + quad * 4 + one;
    proof {
        lemma_month(doy as int);
    }
    let mp: u64 = (5 * doy + 2) / 153;
    let d: u64 = doy - (153 * mp + 2) / 5 + 1;
    let m: u64 = if mp < 10 {
        mp + 3
    } else {
        mp - 9
    };
    let y: u64 = if mp < 10 {
        march_year
    } else {
        march_year + 1
    };
    proof {
        let my = march_year as int;
        lemma_year_parts(era as int, century as int, quad as int, one as int);
        assert(z == 365 * my + leap_days(my) + doy) by {
            assert(z == era * 146_097 + century * 36_524 + quad * 1461 + one * 365 + doy);
        }
        if doy == 365 {
            assert(one == 3 && in_quad == 1460);
            assert(quad == 24 ==> century == 3);
            lemma_leap_follows(era as int, century as int, quad as int);
        }
        assert(era >= 4);
        lemma_date(my, doy as int, y as int, m as int, d as int);
    }
    (y, m, d)
}

/// A date and a time of day in the form of RFC 3339, in milliseconds.
pub open spec fn date_text(y: int, m: int, d: int, ms_of_day: int) -> Seq<char> {
    text::zero_padded(text::decimal(y), 4) + "-"@ + text::zero_padded(text::decimal(m), 2) + "-"@
        + text::zero_padded(text::decimal(d), 2) + "T"@ + text::zero_padded(
        text::decimal(ms_of_day / 3_600_000),
        2,
    ) + ":"@ + text::zero_padded(text::decimal(ms_of_day / 60_000 % 60), 2) + ":"@
        + text::zero_padded(text::decimal(ms_of_day / 1000 % 60), 2) + "."@ + text::zero_padded(
        text::decimal(ms_of_day % 1000),
        3,
    ) + "Z"@
}

/// Whether a text is a moment, in milliseconds after the start of 1970, in the form
/// of RFC 3339.
pub open spec fn is_moment(t: Seq<char>, epoch_ms: int) -> bool {
    exists|y: int, m: int, d: int|
        valid(y, m, d) && #[trigger] day_number(y, m, d) == epoch_ms / 86_400_000 && t == date_text(
            y,
            m,
            d,
            epoch_ms % 86_400_000,
        )
}

/// A moment in the form of RFC 3339.
pub open spec fn moment(epoch_ms: int) -> Seq<char> {
    choose|t: Seq<char>| is_moment(t, epoch_ms)
}

/// A moment has one form.
pub proof fn law_one_moment(t: Seq<char>, epoch_ms: int)
    requires
        is_moment(t, epoch_ms),
    ensures
        t == moment(epoch_ms),
{
    let u = moment(epoch_ms);
    assert(is_moment(u, epoch_ms));
    let (y1, m1, d1) = choose|y: int, m: int, d: int|
        valid(y, m, d) && #[trigger] day_number(y, m, d) == epoch_ms / 86_400_000 && t == date_text(
            y,
            m,
            d,
            epoch_ms % 86_400_000,
        );
    let (y2, m2, d2) = choose|y: int, m: int, d: int|
        valid(y, m, d) && #[trigger] day_number(y, m, d) == epoch_ms / 86_400_000 && u == date_text(
            y,
            m,
            d,
            epoch_ms % 86_400_000,
        );
    law_one_date(y1, m1, d1, y2, m2, d2);
}

/// A moment in the form of RFC 3339.
pub fn rfc3339_ms(epoch_ms: u64) -> (r: String)
    ensures
        is_moment(r@, epoch_ms as int),
{
    let (y, m, d) = civil_date(epoch_ms / 86_400_000);
    let t: u64 = epoch_ms % 86_400_000;
    let mut out = String::new();
    text::push_padded(&mut out, y, 10, 4);
    out.append("-");
    text::push_padded(&mut out, m, 10, 2);
    out.append("-");
    text::push_padded(&mut out, d, 10, 2);
    out.append("T");
    text::push_padded(&mut out, t / 3_600_000, 10, 2);
    out.append(":");
    text::push_padded(&mut out, t / 60_000 % 60, 10, 2);
    out.append(":");
    text::push_padded(&mut out, t / 1000 % 60, 10, 2);
    out.append(".");
    text::push_padded(&mut out, t % 1000, 10, 3);
    out.append("Z");
    assert(out@ =~= date_text(y as int, m as int, d as int, t as int));
    assert(day_number(y as int, m as int, d as int) == epoch_ms as int / 86_400_000);
    out
}

/// A moment has one text.
pub proof fn law_one_text(a: Seq<char>, b: Seq<char>, epoch_ms: int)
    requires
        is_moment(a, epoch_ms),
        is_moment(b, epoch_ms),
    ensures
        a == b,
{
    let (y1, m1, d1) = choose|y: int, m: int, d: int|
        valid(y, m, d) && #[trigger] day_number(y, m, d) == epoch_ms / 86_400_000 && a == date_text(
            y,
            m,
            d,
            epoch_ms % 86_400_000,
        );
    let (y2, m2, d2) = choose|y: int, m: int, d: int|
        valid(y, m, d) && #[trigger] day_number(y, m, d) == epoch_ms / 86_400_000 && b == date_text(
            y,
            m,
            d,
            epoch_ms % 86_400_000,
        );
    law_one_date(y1, m1, d1, y2, m2, d2);
}

/// The days are counted from the first of 1970, and each day follows the one before it: in
/// its month, from the end of a month to the first of the next, and from the end of a year
/// to the first of the next.
pub proof fn law_day_after_day(y: int, m: int, d: int)
    requires
        valid(y, m, d),
    ensures
        day_number(1970, 1, 1) == 0,
        d < month_len(y, m) ==> day_number(y, m, d + 1) == day_number(y, m, d) + 1,
        d == month_len(y, m) && m < 12 ==> day_number(y, m + 1, 1) == day_number(y, m, d) + 1,
        d == month_len(y, m) && m == 12 ==> day_number(y + 1, 1, 1) == day_number(y, m, d) + 1,
{
    lemma_quotients(y);
}

/// How the counts of leap years grow from a year to the next.
proof fn lemma_quotients(y: int)
    requires
        y >= 1,
    ensures
        leap_days(y) == leap_days(y - 1) + if leap(y) {
            1int
        } else {
            0
        },
{
    assert(y % 400 == 0 ==> y % 100 == 0 && y % 4 == 0);
    assert(y % 100 == 0 ==> y % 4 == 0);
}

/// The lengths of the months, and the years with a day more.
pub proof fn law_lengths_of_months(y: int)
    ensures
        month_len(y, 1) == 31 && month_len(y, 3) == 31 && month_len(y, 4) == 30,
        month_len(y, 5) == 31 && month_len(y, 6) == 30 && month_len(y, 7) == 31,
        month_len(y, 8) == 31 && month_len(y, 9) == 30 && month_len(y, 10) == 31,
        month_len(y, 11) == 30 && month_len(y, 12) == 31,
        month_len(y, 2) == if y % 400 == 0 || y % 4 == 0 && y % 100 != 0 {
            29int
        } else {
            28
        },
{
    assert(y % 400 == 0 ==> y % 4 == 0);
}

/// A moment is written with its year, month, day, hour, minute, second and thousandths, in
/// that order.
pub proof fn law_order_of_a_moment(y: int, m: int, d: int, hh: int, mm: int, ss: int, ms: int)
    requires
        1000 <= y <= 9999,
        10 <= m <= 12,
        10 <= d <= 31,
        10 <= hh < 24,
        10 <= mm < 60,
        10 <= ss < 60,
        100 <= ms < 1000,
    ensures
        date_text(y, m, d, ((hh * 60 + mm) * 60 + ss) * 1000 + ms) == text::decimal(y) + "-"@
            + text::decimal(m) + "-"@ + text::decimal(d) + "T"@ + text::decimal(hh) + ":"@
            + text::decimal(mm) + ":"@ + text::decimal(ss) + "."@ + text::decimal(ms) + "Z"@,
{
    let t = ((hh * 60 + mm) * 60 + ss) * 1000 + ms;
    assert(t / 3_600_000 == hh);
    assert(t / 60_000 % 60 == mm);
    assert(t / 1000 % 60 == ss);
    assert(t % 1000 == ms);
    lemma_digits(y);
    lemma_digits(m);
    lemma_digits(d);
    lemma_digits(hh);
    lemma_digits(mm);
    lemma_digits(ss);
    lemma_digits(ms);
}

/// How many digits a number has.
proof fn lemma_digits(n: int)
    requires
        n >= 0,
    ensures
        n < 10 ==> text::decimal(n).len() == 1,
        10 <= n < 100 ==> text::decimal(n).len() == 2,
        100 <= n < 1000 ==> text::decimal(n).len() == 3,
        1000 <= n < 10_000 ==> text::decimal(n).len() == 4,
{
    reveal_with_fuel(text::written, 5);
}

/// A number with fewer digits than there is room for stands behind noughts.
pub proof fn law_short_numbers_are_filled_up(n: int)
    ensures
        0 <= n < 10 ==> text::zero_padded(text::decimal(n), 2) == seq!['0'] + text::decimal(n),
        0 <= n < 10 ==> text::zero_padded(text::decimal(n), 3) == seq!['0', '0'] + text::decimal(n),
        10 <= n < 100 ==> text::zero_padded(text::decimal(n), 3) == seq!['0'] + text::decimal(n),
{
    if 0 <= n < 100 {
        lemma_digits(n);
        let t = text::decimal(n);
        if n < 10 {
            assert(text::zero_padded(t, 2) =~= seq!['0'] + t);
            assert(text::zero_padded(t, 3) =~= seq!['0', '0'] + t);
        } else {
            assert(text::zero_padded(t, 3) =~= seq!['0'] + t);
        }
    }
}

} // verus!
