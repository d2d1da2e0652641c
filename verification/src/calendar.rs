//! Calendar dates: Unix seconds to and from the proleptic Gregorian calendar
//! (UTC), and the `YYYY-MM-DD HH:MM` form that the panels show.

use crate::text::{
    chars_of, decimal, find, find_char, lemma_find, lemma_find_is, lemma_padded_reads_back, number, padded,
    push_char, push_padded, read_unsigned, unsigned, all_digits, is_digit,
};
use vstd::arithmetic::div_mod::lemma_fundamental_div_mod_converse;
use vstd::prelude::*;

verus! {

pub open spec fn is_leap(year: int) -> bool {
    year % 4 == 0 && (year % 100 != 0 || year % 400 == 0)
}

pub open spec fn days_in_year(year: int) -> int {
    if is_leap(year) {
        366
    } else {
        365
    }
}

pub open spec fn days_in_month(year: int, month: int) -> int {
    if month == 2 {
        if is_leap(year) {
            29
        } else {
            28
        }
    } else if month == 4 || month == 6 || month == 9 || month == 11 {
        30
    } else {
        31
    }
}

/// Leap years from year 1 up to but excluding `year`; negative for years
/// before that.
pub open spec fn leap_years_before(year: int) -> int {
    (year - 1) / 4 - (year - 1) / 100 + (year - 1) / 400
}

/// Days from 1970-01-01 to January 1st of `year`.
pub open spec fn days_before_year(year: int) -> int {
    365 * (year - 1970) + leap_years_before(year) - leap_years_before(1970)
}

/// Days from January 1st of `year` to the first of `month`.
pub open spec fn days_before_month(year: int, month: int) -> int
    decreases month,
{
    if month <= 1 {
        0
    } else {
        days_before_month(year, month - 1) + days_in_month(year, month - 1)
    }
}

/// Days from 1970-01-01 to the given date.
pub open spec fn day_number(year: int, month: int, day: int) -> int {
    days_before_year(year) + days_before_month(year, month) + (day - 1)
}

/// A moment: whole Unix seconds, and nanoseconds within the second.
#[derive(Clone, Copy, Debug, PartialEq, Eq, Structural)]
pub struct Timestamp {
    pub secs: i64,
    pub nanos: u32,
}

/// A calendar date and a time of day: year, month, day, hour, minute.
pub type Civil = (int, int, int, int, int);

/// Whether the calendar has the date and the clock has the time.
pub open spec fn is_civil(c: Civil) -> bool {
    &&& 1 <= c.1 <= 12
    &&& 1 <= c.2 <= days_in_month(c.0, c.1)
    &&& 0 <= c.3 < 24
    &&& 0 <= c.4 < 60
}

/// Unix seconds at which the given minute begins.
pub open spec fn civil_seconds(c: Civil) -> int {
    day_number(c.0, c.1, c.2) * 86400 + c.3 * 3600 + c.4 * 60
}

/// Whether `secs` falls into the minute that `c` names.
pub open spec fn in_minute(c: Civil, secs: int) -> bool {
    is_civil(c) && civil_seconds(c) <= secs < civil_seconds(c) + 60
}

/// The minute into which `secs` falls.
pub open spec fn civil_at(secs: int) -> Civil {
    choose|c: Civil| in_minute(c, secs)
}

/// Successive years are one year's days apart, counting from 1970.
pub proof fn lemma_year_by_year(year: int)
    ensures
        days_before_year(1970) == 0,
        days_before_year(year + 1) == days_before_year(year) + days_in_year(year),
{
}

proof fn lemma_years_in_order(a: int, b: int)
    requires
        a < b,
    ensures
        days_before_year(a) + days_in_year(a) <= days_before_year(b),
    decreases b - a,
{
    lemma_year_by_year(a);
    if a + 1 < b {
        lemma_years_in_order(a + 1, b);
    }
}

proof fn lemma_months_fill_the_year(year: int)
    ensures
        days_before_month(year, 12) + days_in_month(year, 12) == days_in_year(year),
{
    reveal_with_fuel(days_before_month, 13);
}

proof fn lemma_months_in_order(year: int, a: int, b: int)
    requires
        1 <= a < b,
    ensures
        days_before_month(year, a) + days_in_month(year, a) <= days_before_month(year, b),
    decreases b - a,
{
    if a + 1 < b {
        lemma_months_in_order(year, a, b - 1);
    }
}

proof fn lemma_month_is_not_negative(year: int, month: int)
    ensures
        0 <= days_before_month(year, month),
    decreases month,
{
    if month > 1 {
        lemma_month_is_not_negative(year, month - 1);
    }
}

proof fn lemma_day_within_year(year: int, month: int, day: int)
    requires
        1 <= month <= 12,
        1 <= day <= days_in_month(year, month),
    ensures
        0 <= days_before_month(year, month) + (day - 1) < days_in_year(year),
{
    lemma_month_is_not_negative(year, month);
    lemma_months_fill_the_year(year);
    if month < 12 {
        lemma_months_in_order(year, month, 12);
    }
}

/// Two dates with the same day number are the same date.
pub proof fn lemma_day_number_is_unique(y1: int, m1: int, d1: int, y2: int, m2: int, d2: int)
    requires
        1 <= m1 <= 12,
        1 <= d1 <= days_in_month(y1, m1),
        1 <= m2 <= 12,
        1 <= d2 <= days_in_month(y2, m2),
        day_number(y1, m1, d1) == day_number(y2, m2, d2),
    ensures
        y1 == y2 && m1 == m2 && d1 == d2,
{
    lemma_day_within_year(y1, m1, d1);
    lemma_day_within_year(y2, m2, d2);
    if y1 < y2 {
        lemma_years_in_order(y1, y2);
    } else if y2 < y1 {
        lemma_years_in_order(y2, y1);
    } else if m1 < m2 {
        lemma_months_in_order(y1, m1, m2);
    } else if m2 < m1 {
        lemma_months_in_order(y1, m2, m1);
    }
}

/// Every second falls into at most one minute of the calendar.
pub proof fn lemma_minute_is_unique(a: Civil, b: Civil, secs: int)
    requires
        in_minute(a, secs),
        in_minute(b, secs),
    ensures
        a == b,
{
    let na = day_number(a.0, a.1, a.2);
    let nb = day_number(b.0, b.1, b.2);
    assert(na == nb);
    lemma_day_number_is_unique(a.0, a.1, a.2, b.0, b.1, b.2);
    assert(a.3 == b.3);
    assert(a.4 == b.4);
}

proof fn lemma_year_of_day(day: int, near: int) -> (year: int)
    ensures
        days_before_year(year) <= day < days_before_year(year) + days_in_year(year),
    decreases
            if day < days_before_year(near) {
                days_before_year(near) - day
            } else {
                day - days_before_year(near)
            },
{
    lemma_year_by_year(near);
    lemma_year_by_year(near - 1);
    if day < days_before_year(near) {
        if days_before_year(near - 1) <= day {
            near - 1
        } else {
            lemma_year_of_day(day, near - 1)
        }
    } else if day >= days_before_year(near + 1) {
        lemma_year_of_day(day, near + 1)
    } else {
        near
    }
}

proof fn lemma_month_of_day(year: int, day_of_year: int, from: int) -> (month: int)
    requires
        1 <= from <= 12,
        days_before_month(year, from) <= day_of_year < days_in_year(year),
    ensures
        1 <= month <= 12,
        days_before_month(year, month) <= day_of_year < days_before_month(year, month)
            + days_in_month(year, month),
    decreases 12 - from,
{
    lemma_months_fill_the_year(year);
    if day_of_year < days_before_month(year, from) + days_in_month(year, from) {
        from
    } else {
        lemma_month_of_day(year, day_of_year, from + 1)
    }
}

/// Every second falls into a minute of the calendar.
pub proof fn lemma_every_second_has_a_minute(secs: int)
    ensures
        in_minute(civil_at(secs), secs),
{
    let day = secs / 86400;
    let year = lemma_year_of_day(day, 1970);
    let day_of_year = day - days_before_year(year);
    let month = lemma_month_of_day(year, day_of_year, 1);
    let time = secs % 86400;
    let c: Civil = (
        year,
        month,
        day_of_year - days_before_month(year, month) + 1,
        time / 3600,
        (time % 3600) / 60,
    );
    assert(in_minute(c, secs));
}

/// The quotient of `a` by `b`, rounded down.
fn floor_div(a: i128, b: u64) -> (q: i128)
    requires
        b > 0,
    ensures
        q == a as int / b as int,
{
    if a >= 0 {
        (a as u128 / b as u128) as i128
    } else {
        let below = (-(a + 1)) as u128;
        let n = (below / b as u128) as i128;
        proof {
            let r = below as int % b as int;
            assert(below as int == n * b + r) by {
                vstd::arithmetic::div_mod::lemma_fundamental_div_mod(below as int, b as int);
                assert(b as int * (below as int / b as int) == (below as int / b as int) * b as int)
                    by (nonlinear_arith);
            }
            let q = -n - 1;
            assert(a as int == q * b + (b - 1 - r)) by (nonlinear_arith)
                requires
                    below as int == n * b + r,
                    below as int == -(a as int + 1),
                    q == -n - 1,
            ;
            lemma_fundamental_div_mod_converse(a as int, b as int, q, b - 1 - r);
            assert(n <= below) by (nonlinear_arith)
                requires
                    below as int == n * b + r,
                    b >= 1,
                    r >= 0,
                    n >= 0,
            ;
        }
        -n - 1
    }
}

/// Days from January 1st of a year that 400 divides to January 1st `n` years
/// later.
spec fn cycle_days(n: int) -> int {
    365 * n + (n + 3) / 4 - (n + 99) / 100 + (n + 399) / 400
}

proof fn lemma_cycle(cycle: int, n: int)
    requires
        0 <= n <= 400,
    ensures
        days_before_year(2000 + 400 * cycle + n) == 10957 + 146097 * cycle + cycle_days(n),
{
    let k = 1999 + 400 * cycle + n;
    lemma_fundamental_div_mod_converse(k, 4, 100 * cycle + 499 + (n + 3) / 4, (n + 3) % 4);
    lemma_fundamental_div_mod_converse(k, 100, 4 * cycle + 19 + (n + 99) / 100, (n + 99) % 100);
    lemma_fundamental_div_mod_converse(k, 400, cycle + 4 + (n + 399) / 400, (n + 399) % 400);
}

fn month_length(year: i64, month: u32) -> (n: u32)
    ensures
        n == days_in_month(year as int, month as int),
        28 <= n <= 31,
{
    if month == 2 {
        let cycle = floor_div(year as i128, 400);
        let n: i128 = year as i128 - cycle * 400;
        assert(n == year as int % 400);
        proof {
            let y = year as int;
            lemma_fundamental_div_mod_converse(y, 4, 100 * cycle + n as int / 4, n as int % 4);
            lemma_fundamental_div_mod_converse(y, 100, 4 * cycle + n as int / 100, n as int % 100);
        }
        let n: u32 = n as u32;
        if n % 4 == 0 && (n % 100 != 0 || n == 0) {
            29
        } else {
            28
        }
    } else if month == 4 || month == 6 || month == 9 || month == 11 {
        30
    } else {
        31
    }
}

/// The minute into which `secs` falls: year, month, day, hour and minute.
pub fn civil_from_unix(secs: i64) -> (c: (i64, u32, u32, u32, u32))
    ensures
        in_minute((c.0 as int, c.1 as int, c.2 as int, c.3 as int, c.4 as int), secs as int),
        (c.0 as int, c.1 as int, c.2 as int, c.3 as int, c.4 as int) == civil_at(secs as int),
{
    let days: i128 = floor_div(secs as i128, 86400);
    let time_of_day: u32 = (secs as i128 - days * 86400) as u32;
    let hour: u32 = time_of_day / 3600;
    let minute: u32 = (time_of_day % 3600) / 60;

    let since: i128 = days - 10957;
    let cycle: i128 = floor_div(since, 146097);
    let day_of_cycle: u32 = (since - cycle * 146097) as u32;
    let mut n: u32 = day_of_cycle / 366;
    assert(cycle_days(n as int) <= day_of_cycle);
    let mut next_start: u32 = 365 * (n + 1) + (n + 4) / 4 - (n + 100) / 100 + (n + 400) / 400;
    while n < 399 && next_start <= day_of_cycle
        invariant
            n <= 399,
            day_of_cycle < 146097,
            cycle_days(n as int) <= day_of_cycle,
            next_start == cycle_days(n + 1),
        decreases 399 - n,
    {
        n = n + 1;
        next_start = 365 * (n + 1) + (n + 4) / 4 - (n + 100) / 100 + (n + 400) / 400;
    }
    assert(cycle_days(400) == 146097);
    let start: u32 = 365 * n + (n + 3) / 4 - (n + 99) / 100 + (n + 399) / 400;
    assert(start == cycle_days(n as int));
    let year: i64 = (2000 + cycle * 400 + n as i128) as i64;
    proof {
        lemma_cycle(cycle as int, n as int);
        lemma_cycle(cycle as int, n + 1);
        lemma_year_by_year(year as int);
        assert(day_of_cycle - start < days_in_year(year as int));
    }
    let mut rest: u32 = day_of_cycle - start;
    let mut month: u32 = 1;
    let ghost day_of_year = day_of_cycle - start;
    let mut length: u32 = month_length(year, month);
    while month < 12 && rest >= length
        invariant
            1 <= month <= 12,
            length == days_in_month(year as int, month as int),
            day_of_year == days_before_month(year as int, month as int) + rest,
            0 <= day_of_year < days_in_year(year as int),
        decreases 12 - month,
    {
        rest = rest - length;
        month = month + 1;
        length = month_length(year, month);
    }
    proof {
        lemma_months_fill_the_year(year as int);
        let c: Civil = (year as int, month as int, rest + 1, hour as int, minute as int);
        assert(day_number(year as int, month as int, rest + 1) == days);
        assert(in_minute(c, secs as int));
        lemma_minute_is_unique(c, civil_at(secs as int), secs as int);
    }
    (year, month, rest + 1, hour, minute)
}

/// Unix seconds at which the given minute begins; `None` where the calendar
/// has no such date, the clock no such time, or the seconds do not fit.
pub fn unix_from_civil(y: i64, m: u32, d: u32, hh: u32, mm: u32) -> (secs: Option<i64>)
    ensures
        match secs {
            Some(s) => is_civil((y as int, m as int, d as int, hh as int, mm as int)) && s
                == civil_seconds((y as int, m as int, d as int, hh as int, mm as int)),
            None => !is_civil((y as int, m as int, d as int, hh as int, mm as int)) || {
                let s = civil_seconds((y as int, m as int, d as int, hh as int, mm as int));
                s < i64::MIN || s > i64::MAX
            },
        },
{
    if m < 1 || m > 12 || d < 1 || d > month_length(y, m) || hh >= 24 || mm >= 60 {
        return None;
    }
    let before: i128 = y as i128 - 1;
    let leaps: i128 = floor_div(before, 4) - floor_div(before, 100) + floor_div(before, 400);
    let mut days: i128 = 365 * (y as i128 - 1970) + leaps - 477;
    assert(days == days_before_year(y as int));
    let mut month: u32 = 1;
    let ghost first = days;
    assert(-4000000000000000000000 <= days <= 4000000000000000000000);
    while month < m
        invariant
            1 <= month <= m <= 12,
            first == days_before_year(y as int),
            days == first + days_before_month(y as int, month as int),
            -4000000000000000000000 <= first <= 4000000000000000000000,
            0 <= days - first <= 31 * (month - 1),
        decreases m - month,
    {
        days = days + month_length(y, month) as i128;
        month = month + 1;
    }
    let s: i128 = (days + (d as i128 - 1)) * 86400 + hh as i128 * 3600 + mm as i128 * 60;
    if s < i64::MIN as i128 || s > i64::MAX as i128 {
        return None;
    }
    Some(s as i64)
}

/// A year as the panels show it: at least four characters, the sign included.
pub open spec fn year_text(year: int) -> Seq<char> {
    if year < 0 {
        seq!['-'] + padded((-year) as nat, 3)
    } else {
        padded(year as nat, 4)
    }
}

/// `YYYY-MM-DD HH:MM`.
pub open spec fn civil_text(c: Civil) -> Seq<char> {
    year_text(c.0) + seq!['-'] + padded(c.1 as nat, 2) + seq!['-'] + padded(c.2 as nat, 2) + seq![
        ' ',
    ] + padded(c.3 as nat, 2) + seq![':'] + padded(c.4 as nat, 2)
}

/// How the panels show a modification time: `-` for none (second 0).
pub open spec fn date_text(secs: int) -> Seq<char> {
    if secs == 0 {
        seq!['-']
    } else {
        civil_text(civil_at(secs))
    }
}

/// Appends the modification time as the panels show it.
pub fn write_date(out: &mut String, mtime_secs: i64)
    ensures
        final(out)@ == old(out)@ + date_text(mtime_secs as int),
{
    let ghost start = out@;
    if mtime_secs == 0 {
        out.push('-');
        assert(out@ =~= start + date_text(0));
        return;
    }
    let (y, mo, d, hh, mm) = civil_from_unix(mtime_secs);
    let mut text = String::new();
    if y < 0 {
        text.push('-');
        push_padded(&mut text, (-(y as i128)) as u64, 3);
    } else {
        push_padded(&mut text, y as u64, 4);
    }
    assert(text@ =~= year_text(y as int));
    push_char(&mut text, '-');
    push_padded(&mut text, mo as u64, 2);
    push_char(&mut text, '-');
    push_padded(&mut text, d as u64, 2);
    push_char(&mut text, ' ');
    push_padded(&mut text, hh as u64, 2);
    push_char(&mut text, ':');
    push_padded(&mut text, mm as u64, 2);
    out.append(text.as_str());
}

/// The date and time that `text` spells: the part before the first space as
/// three numbers joined by `-`, the part after it as two numbers around the
/// first `:`.
pub open spec fn spelled(text: Seq<char>) -> Option<Civil> {
    let n = text.len() as int;
    let space = find(text, ' ', 0);
    let date = text.take(space);
    let dash1 = find(date, '-', 0);
    let dash2 = find(date, '-', dash1 + 1);
    let colon = find(text, ':', space + 1);
    if space >= n || dash1 >= space || dash2 >= space || find(date, '-', dash2 + 1) < space || colon
        >= n {
        None
    } else {
        match (
            unsigned(text.subrange(0, dash1), i64::MAX as nat),
            unsigned(text.subrange(dash1 + 1, dash2), u32::MAX as nat),
            unsigned(text.subrange(dash2 + 1, space), u32::MAX as nat),
            unsigned(text.subrange(space + 1, colon), u32::MAX as nat),
            unsigned(text.subrange(colon + 1, n), u32::MAX as nat),
        ) {
            (Some(y), Some(mo), Some(d), Some(hh), Some(mm)) => Some(
                (y as int, mo as int, d as int, hh as int, mm as int),
            ),
            _ => None,
        }
    }
}

/// Whether `text` spells a minute of the calendar whose seconds fit.
pub open spec fn spells_a_minute(text: Seq<char>) -> bool {
    match spelled(text) {
        Some(c) => is_civil(c) && i64::MIN <= civil_seconds(c) <= i64::MAX,
        None => false,
    }
}

proof fn lemma_find_in_prefix(text: Seq<char>, upto: int, c: char, from: int)
    requires
        0 <= from <= upto <= text.len(),
    ensures
        find(text.take(upto), c, from) == if find(text, c, from) < upto {
            find(text, c, from)
        } else {
            upto
        },
{
    lemma_find(text, c, from);
    let at = if find(text, c, from) < upto {
        find(text, c, from)
    } else {
        upto
    };
    lemma_find_is(text.take(upto), c, from, at);
}

/// A shown time reads back as the minute it shows.
pub proof fn lemma_shown_date_reads_back(secs: int)
    requires
        i64::MIN + 60 <= secs <= i64::MAX,
        secs != 0,
        civil_at(secs).0 >= 0,
    ensures
        spells_a_minute(date_text(secs)),
        spelled(date_text(secs)) == Some(civil_at(secs)),
        civil_seconds(civil_at(secs)) <= secs < civil_seconds(civil_at(secs)) + 60,
{
    lemma_every_second_has_a_minute(secs);
    let c = civil_at(secs);
    lemma_year_bound(c, secs);
    lemma_civil_text_reads_back(c);
}

proof fn lemma_year_bound(c: Civil, secs: int)
    requires
        in_minute(c, secs),
        secs <= i64::MAX,
    ensures
        c.0 <= i64::MAX,
{
    lemma_day_within_year(c.0, c.1, c.2);
    if c.0 > i64::MAX {
        lemma_years_in_order(1970, c.0);
        assert(days_before_year(c.0) >= 365 * (c.0 - 1970));
    }
}

proof fn lemma_unsigned_of_padded(n: nat, width: nat, max: nat)
    requires
        n <= max,
    ensures
        unsigned(padded(n, width), max) == Some(n),
        all_digits(padded(n, width)),
{
    lemma_padded_reads_back(n, width);
    assert(is_digit(padded(n, width)[0]));
}

proof fn lemma_layout(y: Seq<char>, mo: Seq<char>, d: Seq<char>, hh: Seq<char>, mm: Seq<char>)
    requires
        all_digits(y),
        all_digits(mo),
        all_digits(d),
        all_digits(hh),
        all_digits(mm),
    ensures
        ({
            let text = y + seq!['-'] + mo + seq!['-'] + d + seq![' '] + hh + seq![':'] + mm;
            let dash1 = y.len() as int;
            let dash2 = dash1 + 1 + mo.len();
            let space = dash2 + 1 + d.len();
            let colon = space + 1 + hh.len();
            &&& find(text, ' ', 0) == space < text.len()
            &&& find(text.take(space), '-', 0) == dash1
            &&& find(text.take(space), '-', dash1 + 1) == dash2
            &&& find(text.take(space), '-', dash2 + 1) == space
            &&& find(text, ':', space + 1) == colon < text.len()
            &&& text.subrange(0, dash1) == y
            &&& text.subrange(dash1 + 1, dash2) == mo
            &&& text.subrange(dash2 + 1, space) == d
            &&& text.subrange(space + 1, colon) == hh
            &&& text.subrange(colon + 1, text.len() as int) == mm
        }),
{
    let text = y + seq!['-'] + mo + seq!['-'] + d + seq![' '] + hh + seq![':'] + mm;
    let dash1 = y.len() as int;
    let dash2 = dash1 + 1 + mo.len();
    let space = dash2 + 1 + d.len();
    let colon = space + 1 + hh.len();
    let date = text.take(space);
    assert(forall|i: int| 0 <= i < dash1 ==> text[i] == y[i]);
    assert(text[dash1] == '-');
    assert(forall|i: int| dash1 < i < dash2 ==> text[i] == mo[i - dash1 - 1]);
    assert(text[dash2] == '-');
    assert(forall|i: int| dash2 < i < space ==> text[i] == d[i - dash2 - 1]);
    assert(text[space] == ' ');
    assert(forall|i: int| space < i < colon ==> text[i] == hh[i - space - 1]);
    assert(text[colon] == ':');
    assert(text.subrange(0, dash1) =~= y);
    assert(text.subrange(dash1 + 1, dash2) =~= mo);
    assert(text.subrange(dash2 + 1, space) =~= d);
    assert(text.subrange(space + 1, colon) =~= hh);
    assert(text.subrange(colon + 1, text.len() as int) =~= mm);
    lemma_find_is(text, ' ', 0, space);
    lemma_find_is(date, '-', 0, dash1);
    lemma_find_is(date, '-', dash1 + 1, dash2);
    lemma_find_is(date, '-', dash2 + 1, space);
    lemma_find_is(text, ':', space + 1, colon);
}

proof fn lemma_civil_text_reads_back(c: Civil)
    requires
        is_civil(c),
        0 <= c.0 <= i64::MAX,
    ensures
        spelled(civil_text(c)) == Some(c),
{
    lemma_unsigned_of_padded(c.0 as nat, 4, i64::MAX as nat);
    lemma_unsigned_of_padded(c.1 as nat, 2, u32::MAX as nat);
    lemma_unsigned_of_padded(c.2 as nat, 2, u32::MAX as nat);
    lemma_unsigned_of_padded(c.3 as nat, 2, u32::MAX as nat);
    lemma_unsigned_of_padded(c.4 as nat, 2, u32::MAX as nat);
    lemma_layout(
        padded(c.0 as nat, 4),
        padded(c.1 as nat, 2),
        padded(c.2 as nat, 2),
        padded(c.3 as nat, 2),
        padded(c.4 as nat, 2),
    );
}

/// Reads `YYYY-MM-DD HH:MM` as the moment at which that minute begins. A date
/// that the calendar does not have is refused.
pub fn parse_date_time(text: &str) -> (time: Option<Timestamp>)
    ensures
        match time {
            Some(t) => spells_a_minute(text@) && t.secs == civil_seconds(spelled(text@)->0)
                && t.nanos == 0,
            None => !spells_a_minute(text@),
        },
{
    let chars = chars_of(text);
    let n: usize = chars.len();
    let space: usize = find_char(&chars, ' ', 0);
    if space >= n {
        return None;
    }
    let dash1: usize = find_char(&chars, '-', 0);
    proof {
        lemma_find_in_prefix(chars@, space as int, '-', 0);
    }
    if dash1 >= space {
        return None;
    }
    let dash2: usize = find_char(&chars, '-', dash1 + 1);
    proof {
        lemma_find_in_prefix(chars@, space as int, '-', dash1 + 1);
    }
    if dash2 >= space {
        return None;
    }
    let dash3: usize = find_char(&chars, '-', dash2 + 1);
    proof {
        lemma_find_in_prefix(chars@, space as int, '-', dash2 + 1);
    }
    if dash3 < space {
        return None;
    }
    let colon: usize = find_char(&chars, ':', space + 1);
    if colon >= n {
        return None;
    }
    let y = read_unsigned(&chars, 0, dash1, i64::MAX as u64);
    let mo = read_unsigned(&chars, dash1 + 1, dash2, u32::MAX as u64);
    let d = read_unsigned(&chars, dash2 + 1, space, u32::MAX as u64);
    let hh = read_unsigned(&chars, space + 1, colon, u32::MAX as u64);
    let mm = read_unsigned(&chars, colon + 1, n, u32::MAX as u64);
    match (y, mo, d, hh, mm) {
        (Some(y), Some(mo), Some(d), Some(hh), Some(mm)) => {
            match unix_from_civil(y as i64, mo as u32, d as u32, hh as u32, mm as u32) {
                Some(secs) => Some(Timestamp { secs, nanos: 0 }),
                None => None,
            }
        },
        _ => None,
    }
}

/// The lengths of the months. Every fourth year is a leap year, but not every
/// hundredth, but every four-hundredth.
pub proof fn lemma_month_lengths(year: int, month: int)
    requires
        1 <= month <= 12,
    ensures
        days_in_month(year, month) == seq![31int, 28, 31, 30, 31, 30, 31, 31, 30, 31, 30, 31][month
            - 1] + (if month == 2 && (year % 400 == 0 || (year % 4 == 0 && year % 100 != 0)) {
            1int
        } else {
            0
        }),
{
}

/// The day after a date is the next of its month, else the first of the next
/// month, else the first of the next year; the count begins in 1970.
pub proof fn lemma_next_day(year: int, month: int, day: int)
    requires
        1 <= month <= 12,
        1 <= day <= days_in_month(year, month),
    ensures
        day_number(1970, 1, 1) == 0,
        day_number(year, month, day) + 1 == (if day < days_in_month(year, month) {
            day_number(year, month, day + 1)
        } else if month < 12 {
            day_number(year, month + 1, 1)
        } else {
            day_number(year + 1, 1, 1)
        }),
{
    lemma_year_by_year(year);
    lemma_months_fill_the_year(year);
}

/// The time of day is what is left of the seconds when whole days are taken
/// away, and the days are the date's.
pub proof fn lemma_time_of_day(secs: int)
    ensures
        ({
            let c = civil_at(secs);
            &&& day_number(c.0, c.1, c.2) == secs / 86400
            &&& c.3 == secs % 86400 / 3600
            &&& c.4 == secs % 3600 / 60
        }),
{
    lemma_every_second_has_a_minute(secs);
    let c = civil_at(secs);
    let day = day_number(c.0, c.1, c.2);
    lemma_fundamental_div_mod_converse(secs, 86400, day, secs - day * 86400);
    let time = secs - day * 86400;
    lemma_fundamental_div_mod_converse(time, 3600, c.3, time - c.3 * 3600);
    lemma_fundamental_div_mod_converse(time - c.3 * 3600, 60, c.4, secs - civil_seconds(c));
    assert(secs % 3600 == time % 3600) by {
        lemma_fundamental_div_mod_converse(secs, 3600, day * 24 + c.3, time - c.3 * 3600);
    }
}

proof fn lemma_width_two(n: nat)
    requires
        n < 100,
    ensures
        padded(n, 2).len() == 2,
{
    reveal_with_fuel(decimal, 3);
}

proof fn lemma_width_four(n: nat)
    requires
        n < 10000,
    ensures
        padded(n, 4).len() == 4,
{
    reveal_with_fuel(decimal, 5);
}

/// A time is shown as the four digits of its year, then two each of its month,
/// day, hour and minute, with `-`, `-`, a space and `:` between; no time as `-`.
pub proof fn lemma_date_layout(secs: int)
    requires
        0 <= civil_at(secs).0 < 10000,
    ensures
        secs == 0 ==> date_text(secs) == seq!['-'],
        secs != 0 ==> {
            let text = date_text(secs);
            let c = civil_at(secs);
            &&& text.len() == 16
            &&& number(text.subrange(0, 4)) == c.0 && text[4] == '-'
            &&& number(text.subrange(5, 7)) == c.1 && text[7] == '-'
            &&& number(text.subrange(8, 10)) == c.2 && text[10] == ' '
            &&& number(text.subrange(11, 13)) == c.3 && text[13] == ':'
            &&& number(text.subrange(14, 16)) == c.4
        },
{
    lemma_every_second_has_a_minute(secs);
    let c = civil_at(secs);
    let text = civil_text(c);
    let (y, mo, d, hh, mm) = (
        padded(c.0 as nat, 4),
        padded(c.1 as nat, 2),
        padded(c.2 as nat, 2),
        padded(c.3 as nat, 2),
        padded(c.4 as nat, 2),
    );
    lemma_width_four(c.0 as nat);
    lemma_width_two(c.1 as nat);
    lemma_width_two(c.2 as nat);
    lemma_width_two(c.3 as nat);
    lemma_width_two(c.4 as nat);
    lemma_padded_reads_back(c.0 as nat, 4);
    lemma_padded_reads_back(c.1 as nat, 2);
    lemma_padded_reads_back(c.2 as nat, 2);
    lemma_padded_reads_back(c.3 as nat, 2);
    lemma_padded_reads_back(c.4 as nat, 2);
    assert(text.subrange(0, 4) =~= y);
    assert(text.subrange(5, 7) =~= mo);
    assert(text.subrange(8, 10) =~= d);
    assert(text.subrange(11, 13) =~= hh);
    assert(text.subrange(14, 16) =~= mm);
}

/// A text that spells a time is five numbers: two dashes between the first
/// three, a space, and a colon between the last two.
pub proof fn lemma_spelled_times_are_five_numbers(text: Seq<char>)
    requires
        spelled(text) is Some,
    ensures
        exists|y: Seq<char>, mo: Seq<char>, d: Seq<char>, hh: Seq<char>, mm: Seq<char>|
            {
                let c = spelled(text)->0;
                &&& text == #[trigger] five_parts(y, mo, d, hh, mm)
                &&& unsigned(y, i64::MAX as nat) == Some(c.0 as nat)
                &&& unsigned(mo, u32::MAX as nat) == Some(c.1 as nat)
                &&& unsigned(d, u32::MAX as nat) == Some(c.2 as nat)
                &&& unsigned(hh, u32::MAX as nat) == Some(c.3 as nat)
                &&& unsigned(mm, u32::MAX as nat) == Some(c.4 as nat)
            },
{
    let n = text.len() as int;
    let space = find(text, ' ', 0);
    let date = text.take(space);
    lemma_find(text, ' ', 0);
    lemma_find(date, '-', 0);
    let dash1 = find(date, '-', 0);
    lemma_find(date, '-', dash1 + 1);
    let dash2 = find(date, '-', dash1 + 1);
    lemma_find(text, ':', space + 1);
    let colon = find(text, ':', space + 1);
    let y = text.subrange(0, dash1);
    let mo = text.subrange(dash1 + 1, dash2);
    let d = text.subrange(dash2 + 1, space);
    let hh = text.subrange(space + 1, colon);
    let mm = text.subrange(colon + 1, n);
    assert(text[dash1] == date[dash1]);
    assert(text[dash2] == date[dash2]);
    assert(text =~= five_parts(y, mo, d, hh, mm));
}

/// Five texts with `-`, `-`, a space and `:` between them.
pub open spec fn five_parts(
    y: Seq<char>,
    mo: Seq<char>,
    d: Seq<char>,
    hh: Seq<char>,
    mm: Seq<char>,
) -> Seq<char> {
    y + seq!['-'] + mo + seq!['-'] + d + seq![' '] + hh + seq![':'] + mm
}

/// A year before the first is shown with a minus sign in front of its number.
pub proof fn lemma_year_is_shown(year: int)
    ensures
        year < 0 ==> year_text(year)[0] == '-' && number(year_text(year).skip(1)) == -year,
        year >= 0 ==> number(year_text(year)) == year && all_digits(year_text(year)),
        year_text(year).len() >= 4,
{
    if year < 0 {
        lemma_padded_reads_back((-year) as nat, 3);
        assert(year_text(year).skip(1) =~= padded((-year) as nat, 3));
    } else {
        lemma_padded_reads_back(year as nat, 4);
    }
}

} // verus!
