//! Civil dates: days since 1970-01-01 and their `YYYY-MM-DD` text in the
//! proleptic Gregorian calendar, both ways.

use vstd::prelude::*;

use crate::text::{
    all_digits, chars_of, digits_value, is_digit, lemma_digits_order, lemma_seq_lt_extend,
    lemma_seq_lt_prefix, pow10_guard, seq_lt, lemma_parse_zero_padded, lemma_zero_padded, parse_int_text,
    parse_short_int, push_char, push_signed_padded, push_zero_padded, signed_padded, zero_padded,
};

verus! {

// ---- Civil dates ---------------------------------------------------------
//
// Days are stored and compared as `YYYY-MM-DD` text; only the conversion
// between days since 1970-01-01 and the proleptic Gregorian calendar is
// needed.

pub open spec fn is_leap_year(y: int) -> bool {
    (y % 4 == 0 && y % 100 != 0) || y % 400 == 0
}

pub open spec fn month_length(y: int, m: int) -> int {
    if m == 1 || m == 3 || m == 5 || m == 7 || m == 8 || m == 10 || m == 12 {
        31
    } else if m == 4 || m == 6 || m == 9 || m == 11 {
        30
    } else if m == 2 {
        if is_leap_year(y) {
            29
        } else {
            28
        }
    } else {
        0
    }
}

pub open spec fn is_valid_date(y: int, m: int, d: int) -> bool {
    1 <= m <= 12 && 1 <= d <= month_length(y, m)
}

/// Leap years in `[0, y)`; for `y < 0`, minus the leap years in `[y, 0)`.
pub open spec fn leap_years_before(y: int) -> int {
    (y - 1) / 4 - (y - 1) / 100 + (y - 1) / 400 + 1
}

/// Days in the months of year `y` that precede month `m`.
pub open spec fn days_before_month(y: int, m: int) -> int {
    let base: int = if m == 1 {
        0
    } else if m == 2 {
        31
    } else if m == 3 {
        59
    } else if m == 4 {
        90
    } else if m == 5 {
        120
    } else if m == 6 {
        151
    } else if m == 7 {
        181
    } else if m == 8 {
        212
    } else if m == 9 {
        243
    } else if m == 10 {
        273
    } else if m == 11 {
        304
    } else {
        334
    };
    if m > 2 && is_leap_year(y) {
        base + 1
    } else {
        base
    }
}

/// Days from 1970-01-01 to the given date (negative before it).
pub open spec fn epoch_day(y: int, m: int, d: int) -> int {
    365 * y + leap_years_before(y) + days_before_month(y, m) + d - 1 - 719528
}

/// The calendar date of day `n` since 1970-01-01.
pub open spec fn civil_date(n: int) -> (int, int, int) {
    choose|ymd: (int, int, int)|
        is_valid_date(ymd.0, ymd.1, ymd.2) && epoch_day(ymd.0, ymd.1, ymd.2) == n
}

/// `YYYY-MM-DD`, the year printed as `{:04}` and month and day as `{:02}`.
pub open spec fn date_text(y: int, m: int, d: int) -> Seq<char> {
    signed_padded(y, 4) + seq!['-'] + zero_padded(m as nat, 2) + seq!['-'] + zero_padded(
        d as nat,
        2,
    )
}

/// The text of day `n`.
#[verifier::opaque]
pub open spec fn day_text(n: int) -> Seq<char> {
    date_text(civil_date(n).0, civil_date(n).1, civil_date(n).2)
}

/// A field of decimal digits only, and its value.
pub open spec fn unsigned_field(s: Seq<char>) -> Option<int> {
    if s.len() > 0 && is_digit(s[0]) {
        parse_int_text(s)
    } else {
        None
    }
}

/// The year field: decimal digits, or `-` then digits (how `format_day`
/// prints the years before year 0), and its value.
pub open spec fn year_field(s: Seq<char>) -> Option<int> {
    if s.len() > 0 && s[0] != '+' {
        parse_int_text(s)
    } else {
        None
    }
}

/// What `parse_day` accepts: `YYYY-MM-DD`, ten chars whose month and day
/// are two digits each and whose year is four digits (or `-` and three),
/// naming a real calendar date.
#[verifier::opaque]
pub open spec fn parse_day_text(s: Seq<char>) -> Option<int> {
    if s.len() != 10 || s[4] != '-' || s[7] != '-' {
        None
    } else {
        match (
            year_field(s.subrange(0, 4)),
            unsigned_field(s.subrange(5, 7)),
            unsigned_field(s.subrange(8, 10)),
        ) {
            (Some(y), Some(m), Some(d)) => if is_valid_date(y, m, d) {
                Some(epoch_day(y, m, d))
            } else {
                None
            },
            _ => None,
        }
    }
}

/// Howard Hinnant's `days_from_civil`, which `parse_day` runs.
spec fn march_days_from_civil(y: int, m: int, d: int) -> int {
    let yy = if m <= 2 {
        y - 1
    } else {
        y
    };
    let era = yy / 400;
    let yoe = yy - era * 400;
    let mp = if m > 2 {
        m - 3
    } else {
        m + 9
    };
    let doy = (153 * mp + 2) / 5 + d - 1;
    let doe = yoe * 365 + yoe / 4 - yoe / 100 + doy;
    era * 146097 + doe - 719468
}

/// Howard Hinnant's `civil_from_days`, which `format_day` runs.
spec fn march_civil_from_days(n: int) -> (int, int, int) {
    let z = n + 719468;
    let era = z / 146097;
    let doe = z - era * 146097;
    let yoe = (doe - doe / 1460 + doe / 36524 - doe / 146096) / 365;
    let doy = doe - (365 * yoe + yoe / 4 - yoe / 100);
    let mp = (5 * doy + 2) / 153;
    let d = doy - (153 * mp + 2) / 5 + 1;
    let m = if mp < 10 {
        mp + 3
    } else {
        mp - 9
    };
    let y = yoe + era * 400 + (if m <= 2 {
        1int
    } else {
        0
    });
    (y, m, d)
}

spec fn march_month_length(mp: int) -> int {
    if mp == 11 {
        29
    } else if mp == 0 || mp == 2 || mp == 4 || mp == 5 || mp == 7 || mp == 9 || mp == 10 {
        31
    } else {
        30
    }
}

proof fn lemma_march_doy(doy: int)
    requires
        0 <= doy <= 365,
    ensures
        ({
            let mp = (5 * doy + 2) / 153;
            let d = doy - (153 * mp + 2) / 5 + 1;
            &&& 0 <= mp <= 11
            &&& 1 <= d <= march_month_length(mp)
            &&& (153 * mp + 2) / 5 + d - 1 == doy
            &&& (mp == 11 && d == 29) <==> doy == 365
        }),
{
}

#[verifier::spinoff_prover]
#[verifier::rlimit(60)]
proof fn lemma_year_of_era(doe: int)
    requires
        0 <= doe <= 146096,
    ensures
        ({
            let yoe = (doe - doe / 1460 + doe / 36524 - doe / 146096) / 365;
            let doy = doe - (365 * yoe + yoe / 4 - yoe / 100);
            &&& 0 <= yoe <= 399
            &&& 0 <= doy <= 365
            &&& doy == 365 ==> ((yoe + 1) % 4 == 0 && ((yoe + 1) % 100 != 0 || yoe == 399))
        }),
{
}

proof fn lemma_march_days_from_civil(y: int, m: int, d: int)
    requires
        1 <= m <= 12,
    ensures
        march_days_from_civil(y, m, d) == epoch_day(y, m, d),
{
    let yy = if m <= 2 {
        y - 1
    } else {
        y
    };
    let era = yy / 400;
    let yoe = yy - era * 400;
    assert(0 <= yoe < 400);
    assert(yy / 4 == 100 * era + yoe / 4);
    assert(yy / 100 == 4 * era + yoe / 100);
    assert((y - 1) / 4 == y / 4 - (if y % 4 == 0 {
        1int
    } else {
        0
    }));
    assert((y - 1) / 100 == y / 100 - (if y % 100 == 0 {
        1int
    } else {
        0
    }));
    assert((y - 1) / 400 == y / 400 - (if y % 400 == 0 {
        1int
    } else {
        0
    }));
    if m <= 2 {
        assert(yy + 1 == y);
        assert(yy / 400 == (y - 1) / 400);
    } else {
        assert(y / 400 == era);
    }
}

#[verifier::spinoff_prover]
#[verifier::rlimit(60)]
proof fn lemma_march_civil_from_days(n: int)
    ensures
        is_valid_date(
            march_civil_from_days(n).0,
            march_civil_from_days(n).1,
            march_civil_from_days(n).2,
        ),
        epoch_day(march_civil_from_days(n).0, march_civil_from_days(n).1, march_civil_from_days(n).2)
            == n,
{
    let z = n + 719468;
    let era = z / 146097;
    let doe = z - era * 146097;
    assert(0 <= doe <= 146096);
    lemma_year_of_era(doe);
    let yoe = (doe - doe / 1460 + doe / 36524 - doe / 146096) / 365;
    let doy = doe - (365 * yoe + yoe / 4 - yoe / 100);
    lemma_march_doy(doy);
    let mp = (5 * doy + 2) / 153;
    let d = doy - (153 * mp + 2) / 5 + 1;
    let m = if mp < 10 {
        mp + 3
    } else {
        mp - 9
    };
    let y = yoe + era * 400 + (if m <= 2 {
        1int
    } else {
        0
    });
    assert(march_civil_from_days(n) == (y, m, d));
    let yy = yoe + era * 400;
    assert(yy / 400 == era && yy - era * 400 == yoe) by {
        assert(0 <= yoe < 400);
    }
    assert(march_days_from_civil(y, m, d) == era * 146097 + doe - 719468);
    lemma_march_days_from_civil(y, m, d);
    if mp == 11 && d == 29 {
        assert(is_leap_year(y));
    }
}

proof fn lemma_year_start_monotone(a: int, b: int)
    requires
        a <= b,
    ensures
        365 * a + leap_years_before(a) <= 365 * b + leap_years_before(b),
{
    assert((b - 1) / 4 >= (a - 1) / 4);
    assert((b - 1) / 400 >= (a - 1) / 400);
    assert((b - 1) / 100 - (a - 1) / 100 <= (b - a) / 100 + 1);
}

#[verifier::spinoff_prover]
proof fn lemma_leap_step(y: int)
    ensures
        leap_years_before(y + 1) == leap_years_before(y) + (if is_leap_year(y) {
            1int
        } else {
            0
        }),
{
    lemma_div_step_4(y);
    lemma_div_step_100(y);
    lemma_div_step_400(y);
}

proof fn lemma_div_step_4(y: int)
    ensures
        y / 4 == (y - 1) / 4 + (if y % 4 == 0 { 1int } else { 0 }),
{
}

proof fn lemma_div_step_100(y: int)
    ensures
        y / 100 == (y - 1) / 100 + (if y % 100 == 0 { 1int } else { 0 }),
{
}

proof fn lemma_div_step_400(y: int)
    ensures
        y / 400 == (y - 1) / 400 + (if y % 400 == 0 { 1int } else { 0 }),
{
}

proof fn lemma_within_year(y: int, m: int, d: int)
    requires
        is_valid_date(y, m, d),
    ensures
        epoch_day(y, 1, 1) <= epoch_day(y, m, d),
        epoch_day(y, m, d) < epoch_day(y + 1, 1, 1),
{
    lemma_leap_step(y);
}

proof fn lemma_month_order(y: int, m1: int, d1: int, m2: int, d2: int)
    requires
        is_valid_date(y, m1, d1),
        is_valid_date(y, m2, d2),
        m1 < m2,
    ensures
        epoch_day(y, m1, d1) < epoch_day(y, m2, d2),
{
}

/// Distinct calendar dates are distinct days.
pub proof fn lemma_epoch_day_injective(y1: int, m1: int, d1: int, y2: int, m2: int, d2: int)
    requires
        is_valid_date(y1, m1, d1),
        is_valid_date(y2, m2, d2),
        epoch_day(y1, m1, d1) == epoch_day(y2, m2, d2),
    ensures
        y1 == y2 && m1 == m2 && d1 == d2,
{
    lemma_within_year(y1, m1, d1);
    lemma_within_year(y2, m2, d2);
    if y1 < y2 {
        lemma_year_start_monotone(y1 + 1, y2);
    } else if y2 < y1 {
        lemma_year_start_monotone(y2 + 1, y1);
    } else if m1 < m2 {
        lemma_month_order(y1, m1, d1, m2, d2);
    } else if m2 < m1 {
        lemma_month_order(y1, m2, d2, m1, d1);
    }
}

/// Every day has exactly one calendar date.
proof fn lemma_civil_date(n: int)
    ensures
        is_valid_date(civil_date(n).0, civil_date(n).1, civil_date(n).2),
        epoch_day(civil_date(n).0, civil_date(n).1, civil_date(n).2) == n,
        civil_date(n) == march_civil_from_days(n),
{
    lemma_march_civil_from_days(n);
    let w = march_civil_from_days(n);
    assert(is_valid_date(w.0, w.1, w.2) && epoch_day(w.0, w.1, w.2) == n);
    let c = civil_date(n);
    lemma_epoch_day_injective(c.0, c.1, c.2, w.0, w.1, w.2);
}

/// Law: a day whose year has at most four digits prints as ten chars that
/// `parse_day` reads back as the same day.
pub proof fn lemma_day_text_round_trip(n: int)
    requires
        -999 <= civil_date(n).0 <= 9999,
    ensures
        day_text(n).len() == 10,
        parse_day_text(day_text(n)) == Some(n),
{
    reveal(day_text);
    reveal(parse_day_text);
    lemma_civil_date(n);
    let (y, m, d) = civil_date(n);
    let ys = signed_padded(y, 4);
    let ms = zero_padded(m as nat, 2);
    let ds = zero_padded(d as nat, 2);
    lemma_zero_padded(m as nat, 2);
    lemma_zero_padded(d as nat, 2);
    lemma_parse_zero_padded(m as nat, 2);
    lemma_parse_zero_padded(d as nat, 2);
    if y >= 0 {
        lemma_zero_padded(y as nat, 4);
        lemma_parse_zero_padded(y as nat, 4);
    } else {
        lemma_zero_padded((-y) as nat, 3);
        lemma_parse_zero_padded((-y) as nat, 3);
        assert(ys.drop_first() =~= zero_padded((-y) as nat, 3));
        lemma_zero_padded((-y) as nat, 3);
        assert(all_digits(ys.drop_first()));
    }
    let s = day_text(n);
    assert(s =~= ys + seq!['-'] + ms + seq!['-'] + ds);
    assert(s.subrange(0, 4) =~= ys);
    assert(s.subrange(5, 7) =~= ms);
    assert(s.subrange(8, 10) =~= ds);
}

/// Every day from 0000-01-01 to 9999-12-31 has a four-digit year.
pub proof fn lemma_four_digit_year(n: int)
    requires
        -719_528 <= n <= 2_932_896,
    ensures
        0 <= civil_date(n).0 <= 9999,
{
    lemma_civil_date(n);
    let (y, m, d) = civil_date(n);
    lemma_within_year(y, m, d);
    if y < 0 {
        lemma_year_start_monotone(y + 1, 0);
    }
    if y > 9999 {
        lemma_year_start_monotone(10000, y);
    }
}

/// Law: every day from 0000-01-01 to 9999-12-31 prints as ten chars that
/// `parse_day` reads back as the same day.
pub proof fn lemma_day_round_trip_in_range(n: int)
    requires
        -719_528 <= n <= 2_932_896,
    ensures
        day_text(n).len() == 10,
        parse_day_text(day_text(n)) == Some(n),
{
    lemma_four_digit_year(n);
    lemma_day_text_round_trip(n);
}

/// Later days have later calendar dates, compared year, then month, then
/// day.
proof fn lemma_civil_order(n1: int, n2: int)
    requires
        n1 < n2,
    ensures
        ({
            let (y1, m1, d1) = civil_date(n1);
            let (y2, m2, d2) = civil_date(n2);
            y1 < y2 || (y1 == y2 && m1 < m2) || (y1 == y2 && m1 == m2 && d1 < d2)
        }),
{
    lemma_civil_date(n1);
    lemma_civil_date(n2);
    let (y1, m1, d1) = civil_date(n1);
    let (y2, m2, d2) = civil_date(n2);
    lemma_within_year(y1, m1, d1);
    lemma_within_year(y2, m2, d2);
    if y1 > y2 {
        lemma_year_start_monotone(y2 + 1, y1);
    } else if y1 == y2 && m1 > m2 {
        lemma_month_order(y1, m2, d2, m1, d1);
    }
}

/// Law: from 0000-01-01 to 9999-12-31, the texts of days sort (char by
/// char, so byte by byte: they are ASCII) exactly like the days.
pub proof fn lemma_day_text_order(n1: int, n2: int)
    requires
        -719_528 <= n1 < n2 <= 2_932_896,
    ensures
        seq_lt(day_text(n1), day_text(n2)),
{
    reveal(day_text);
    lemma_four_digit_year(n1);
    lemma_four_digit_year(n2);
    lemma_civil_date(n1);
    lemma_civil_date(n2);
    lemma_civil_order(n1, n2);
    let (y1, m1, d1) = civil_date(n1);
    let (y2, m2, d2) = civil_date(n2);
    let (ya, yb) = (zero_padded(y1 as nat, 4), zero_padded(y2 as nat, 4));
    let (ma, mb) = (zero_padded(m1 as nat, 2), zero_padded(m2 as nat, 2));
    let (da, db) = (zero_padded(d1 as nat, 2), zero_padded(d2 as nat, 2));
    lemma_zero_padded(y1 as nat, 4);
    lemma_zero_padded(y2 as nat, 4);
    lemma_zero_padded(m1 as nat, 2);
    lemma_zero_padded(m2 as nat, 2);
    lemma_zero_padded(d1 as nat, 2);
    lemma_zero_padded(d2 as nat, 2);
    let t1 = day_text(n1);
    let t2 = day_text(n2);
    let dash = seq!['-'];
    assert(t1 =~= ya + (dash + ma + dash + da));
    assert(t2 =~= yb + (dash + mb + dash + db));
    if y1 < y2 {
        lemma_digits_order(ya, yb);
        lemma_seq_lt_extend(ya, yb, dash + ma + dash + da, dash + mb + dash + db);
    } else if m1 < m2 {
        assert(t1 =~= (ya + dash) + (ma + (dash + da)));
        assert(t2 =~= (ya + dash) + (mb + (dash + db)));
        lemma_digits_order(ma, mb);
        lemma_seq_lt_extend(ma, mb, dash + da, dash + db);
        lemma_seq_lt_prefix(ya + dash, ma + (dash + da), mb + (dash + db));
    } else {
        assert(t1 =~= (ya + dash + ma + dash) + da);
        assert(t2 =~= (ya + dash + ma + dash) + db);
        lemma_digits_order(da, db);
        lemma_seq_lt_prefix(ya + dash + ma + dash, da, db);
    }
}

proof fn lemma_short_digits_bound(s: Seq<char>)
    requires
        all_digits(s),
        s.len() <= 4,
    ensures
        0 <= digits_value(s) < pow10_guard(s.len()),
    decreases s.len(),
{
    if s.len() > 0 {
        let t = s.drop_last();
        assert(all_digits(t)) by {
            assert forall|i: int| 0 <= i < t.len() implies is_digit(#[trigger] t[i]) by {
                assert(t[i] == s[i]);
            }
        }
        lemma_short_digits_bound(t);
        assert(is_digit(s[s.len() - 1]));
    }
}

/// Law: a day that `parse_day` accepts prints back as text that reads as
/// the same day.
pub proof fn lemma_parsed_day_prints_back(s: Seq<char>)
    requires
        parse_day_text(s) is Some,
    ensures
        parse_day_text(day_text(parse_day_text(s)->0)) == parse_day_text(s),
{
    reveal(parse_day_text);
    let n = parse_day_text(s)->0;
    let ys = s.subrange(0, 4);
    let y = parse_int_text(ys)->0;
    let m = parse_int_text(s.subrange(5, 7))->0;
    let d = parse_int_text(s.subrange(8, 10))->0;
    if ys[0] == '+' || ys[0] == '-' {
        lemma_short_digits_bound(ys.drop_first());
    } else {
        lemma_short_digits_bound(ys);
    }
    assert(-999 <= y <= 9999);
    lemma_civil_date(n);
    let c = civil_date(n);
    lemma_epoch_day_injective(c.0, c.1, c.2, y, m, d);
    lemma_day_text_round_trip(n);
}

#[verifier::spinoff_prover]
pub fn is_leap(year: i64) -> (r: bool)
    ensures
        r == is_leap_year(year as int),
{
    (year % 4 == 0 && year % 100 != 0) || year % 400 == 0
}

pub fn days_in_month(year: i64, month: i64) -> (r: i64)
    ensures
        r == month_length(year as int, month as int),
{
    if month == 1 || month == 3 || month == 5 || month == 7 || month == 8 || month == 10 || month
        == 12 {
        31
    } else if month == 4 || month == 6 || month == 9 || month == 11 {
        30
    } else if month == 2 {
        if is_leap(year) {
            29
        } else {
            28
        }
    } else {
        0
    }
}

/// Days since the Unix epoch -> `YYYY-MM-DD` (proleptic Gregorian).
#[verifier::spinoff_prover]
#[verifier::rlimit(60)]
pub fn format_day(epoch_day: i64) -> (s: String)
    requires
        epoch_day <= i64::MAX - 719_468,
    ensures
        s@ == day_text(epoch_day as int),
{
    proof {
        reveal(day_text);
        lemma_civil_date(epoch_day as int);
    }
    let z = epoch_day + 719_468;
    let era = if z >= 0 {
        z
    } else {
        z - 146_096
    } / 146_097;
    let doe = z - era * 146_097;
    let yoe = (doe - doe / 1_460 + doe / 36_524 - doe / 146_096) / 365;
    let y = yoe + era * 400;
    let doy = doe - (365 * yoe + yoe / 4 - yoe / 100);
    let mp = (5 * doy + 2) / 153;
    let d = doy - (153 * mp + 2) / 5 + 1;
    let m = if mp < 10 {
        mp + 3
    } else {
        mp - 9
    };
    let year = y + if m <= 2 {
        1
    } else {
        0
    };
    assert(civil_date(epoch_day as int) == (year as int, m as int, d as int));
    let mut s = String::new();
    push_signed_padded(&mut s, year, 4);
    push_char(&mut s, '-');
    push_zero_padded(&mut s, m as u64, 2);
    push_char(&mut s, '-');
    push_zero_padded(&mut s, d as u64, 2);
    assert(s@ =~= day_text(epoch_day as int));
    s
}

fn is_ascii_digit(c: char) -> (r: bool)
    ensures
        r == is_digit(c),
{
    '0' <= c && c <= '9'
}

/// `YYYY-MM-DD` -> days since the Unix epoch, rejecting malformed input and
/// impossible dates.
pub fn parse_day(s: &str) -> (r: Option<i64>)
    ensures
        match parse_day_text(s@) {
            Some(n) => r == Some(n as i64),
            None => r is None,
        },
        r matches Some(v) ==> -5_000_000 <= v <= 5_000_000,
        parse_day_text(s@) matches Some(n) ==> -5_000_000 <= n <= 5_000_000,
{
    reveal(parse_day_text);
    let cs = chars_of(s);
    if cs.len() != 10 || cs[4] != '-' || cs[7] != '-' {
        return None;
    }
    if cs[0] == '+' || !is_ascii_digit(cs[5]) || !is_ascii_digit(cs[8]) {
        proof {
            assert(cs@.subrange(0, 4)[0] == cs@[0]);
            assert(cs@.subrange(5, 7)[0] == cs@[5]);
            assert(cs@.subrange(8, 10)[0] == cs@[8]);
        }
        return None;
    }
    proof {
        assert(cs@.subrange(0, 4)[0] == cs@[0]);
        assert(cs@.subrange(5, 7)[0] == cs@[5]);
        assert(cs@.subrange(8, 10)[0] == cs@[8]);
    }
    let year = match parse_short_int(&cs, 0, 4) {
        Some(v) => v,
        None => return None,
    };
    let month = match parse_short_int(&cs, 5, 7) {
        Some(v) => v,
        None => return None,
    };
    let day = match parse_short_int(&cs, 8, 10) {
        Some(v) => v,
        None => return None,
    };
    if !(1 <= month && month <= 12) || !(1 <= day && day <= 31) {
        return None;
    }
    if day > days_in_month(year, month) {
        return None;
    }
    proof {
        lemma_march_days_from_civil(year as int, month as int, day as int);
    }
    Some(days_from_civil(year, month, day))
}

/// Hinnant's `days_from_civil` for a validated date.
#[verifier::spinoff_prover]
#[verifier::rlimit(40)]
fn days_from_civil(year: i64, month: i64, day: i64) -> (r: i64)
    requires
        -10000 < year < 10000,
        1 <= month <= 12,
        1 <= day <= 31,
    ensures
        r == march_days_from_civil(year as int, month as int, day as int),
        -5_000_000 <= r <= 5_000_000,
{
    let y = year - if month <= 2 {
        1
    } else {
        0
    };
    let era = if y >= 0 {
        y
    } else {
        y - 399
    } / 400;
    let yoe = y - era * 400;
    let mp = if month > 2 {
        month - 3
    } else {
        month + 9
    };
    let doy = (153 * mp + 2) / 5 + day - 1;
    let doe = yoe * 365 + yoe / 4 - yoe / 100 + doy;
    era * 146_097 + doe - 719_468
}

} // verus!
