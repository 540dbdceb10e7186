//! Calendar dates for the task store.
//!
//! A date is a plain `year-month-day` triple in the proleptic Gregorian
//! calendar, restricted to the years 0 through 9999 so that every date has
//! exactly one `YYYY-MM-DD` rendering.  The module also holds the calendar
//! arithmetic the recurrence engine relies on: stepping by days and adding
//! months with the end-of-month policy described at `add_months_spec`.

use chrono::Datelike;
use vstd::prelude::*;

verus! {

pub const MAX_YEAR: u16 = 9999;

/// A calendar day, valid when `valid()` holds.
#[derive(Clone, Copy, Debug, PartialEq, Eq, Structural)]
pub struct Date {
    pub year: u16,
    pub month: u8,
    pub day: u8,
}

pub open spec fn is_leap_year(y: int) -> bool {
    y % 4 == 0 && (y % 100 != 0 || y % 400 == 0)
}

pub open spec fn days_in_month(y: int, m: int) -> int {
    if m == 2 {
        if is_leap_year(y) {
            29
        } else {
            28
        }
    } else if m == 1 || m == 3 || m == 5 || m == 7 || m == 8 || m == 10 || m == 12 {
        31
    } else {
        30
    }
}

impl Date {
    pub open spec fn valid(self) -> bool {
        &&& self.year <= MAX_YEAR
        &&& 1 <= self.month <= 12
        &&& 1 <= self.day as int <= days_in_month(self.year as int, self.month as int)
    }

    /// Lexicographic order on (year, month, day).
    pub open spec fn le_spec(self, other: Date) -> bool {
        if self.year != other.year {
            self.year < other.year
        } else if self.month != other.month {
            self.month < other.month
        } else {
            self.day <= other.day
        }
    }

    pub open spec fn lt_spec(self, other: Date) -> bool {
        self.le_spec(other) && self != other
    }

    pub fn new(year: u16, month: u8, day: u8) -> (r: Date)
        requires
            (Date { year, month, day }).valid(),
        ensures
            r == (Date { year, month, day }),
    {
        Date { year, month, day }
    }

    /// Builds a date when the triple is a valid calendar day.
    pub fn from_ymd(year: u16, month: u8, day: u8) -> (r: Option<Date>)
        ensures
            (Date { year, month, day }).valid() ==> r == Some(Date { year, month, day }),
            !(Date { year, month, day }).valid() ==> r is None,
    {
        if year <= MAX_YEAR && 1 <= month && month <= 12 && 1 <= day && day
            <= days_in_month_x(year, month) {
            Some(Date { year, month, day })
        } else {
            None
        }
    }

    pub fn le(self, other: Date) -> (r: bool)
        ensures
            r == self.le_spec(other),
    {
        if self.year != other.year {
            self.year < other.year
        } else if self.month != other.month {
            self.month < other.month
        } else {
            self.day <= other.day
        }
    }

    pub fn lt(self, other: Date) -> (r: bool)
        ensures
            r == self.lt_spec(other),
    {
        if self.year != other.year {
            self.year < other.year
        } else if self.month != other.month {
            self.month < other.month
        } else {
            self.day < other.day
        }
    }
}

pub fn days_in_month_x(y: u16, m: u8) -> (r: u8)
    ensures
        r as int == days_in_month(y as int, m as int),
{
    if m == 2 {
        if y % 4 == 0 && (y % 100 != 0 || y % 400 == 0) {
            29
        } else {
            28
        }
    } else if m == 1 || m == 3 || m == 5 || m == 7 || m == 8 || m == 10 || m == 12 {
        31
    } else {
        30
    }
}

/// The day after `d`, or `None` past the supported range.
pub open spec fn succ_date(d: Date) -> Option<Date> {
    if (d.day as int) < days_in_month(d.year as int, d.month as int) {
        Some(Date { year: d.year, month: d.month, day: (d.day + 1) as u8 })
    } else if d.month < 12 {
        Some(Date { year: d.year, month: (d.month + 1) as u8, day: 1 })
    } else if d.year < MAX_YEAR {
        Some(Date { year: (d.year + 1) as u16, month: 1, day: 1 })
    } else {
        None
    }
}

/// The day before `d`, or `None` before the supported range.
pub open spec fn pred_date(d: Date) -> Option<Date> {
    if d.day > 1 {
        Some(Date { year: d.year, month: d.month, day: (d.day - 1) as u8 })
    } else if d.month > 1 {
        Some(
            Date {
                year: d.year,
                month: (d.month - 1) as u8,
                day: days_in_month(d.year as int, d.month as int - 1) as u8,
            },
        )
    } else if d.year > 0 {
        Some(Date { year: (d.year - 1) as u16, month: 12, day: 31 })
    } else {
        None
    }
}

/// `d` shifted by `n` calendar days, or `None` when the result would leave
/// the supported year range.
pub open spec fn add_days_spec(d: Date, n: int) -> Option<Date>
    decreases vstd::math::abs(n),
{
    if n == 0 {
        Some(d)
    } else if n > 0 {
        match succ_date(d) {
            Some(next) => add_days_spec(next, n - 1),
            None => None,
        }
    } else {
        match pred_date(d) {
            Some(prev) => add_days_spec(prev, n + 1),
            None => None,
        }
    }
}

pub fn succ_date_x(d: Date) -> (r: Option<Date>)
    requires
        d.valid(),
    ensures
        r == succ_date(d),
        r is Some ==> r.unwrap().valid(),
{
    if d.day < days_in_month_x(d.year, d.month) {
        Some(Date { year: d.year, month: d.month, day: d.day + 1 })
    } else if d.month < 12 {
        Some(Date { year: d.year, month: d.month + 1, day: 1 })
    } else if d.year < MAX_YEAR {
        Some(Date { year: d.year + 1, month: 1, day: 1 })
    } else {
        None
    }
}

pub fn pred_date_x(d: Date) -> (r: Option<Date>)
    requires
        d.valid(),
    ensures
        r == pred_date(d),
        r is Some ==> r.unwrap().valid(),
{
    if d.day > 1 {
        Some(Date { year: d.year, month: d.month, day: d.day - 1 })
    } else if d.month > 1 {
        Some(Date { year: d.year, month: d.month - 1, day: days_in_month_x(d.year, d.month - 1) })
    } else if d.year > 0 {
        Some(Date { year: d.year - 1, month: 12, day: 31 })
    } else {
        None
    }
}

pub fn add_days(d: Date, n: i128) -> (r: Option<Date>)
    requires
        d.valid(),
    ensures
        r == add_days_spec(d, n as int),
        r is Some ==> r.unwrap().valid(),
{
    let mut cur = d;
    if n >= 0 {
        let mut i: i128 = 0;
        while i < n
            invariant
                0 <= i <= n,
                cur.valid(),
                add_days_spec(d, n as int) == add_days_spec(cur, n - i),
            decreases n - i,
        {
            match succ_date_x(cur) {
                Some(next) => {
                    cur = next;
                },
                None => {
                    return None;
                },
            }
            i = i + 1;
        }
        Some(cur)
    } else {
        let mut i: i128 = 0;
        while i > n
            invariant
                n <= i <= 0,
                cur.valid(),
                add_days_spec(d, n as int) == add_days_spec(cur, n - i),
            decreases i - n,
        {
            match pred_date_x(cur) {
                Some(prev) => {
                    cur = prev;
                },
                None => {
                    return None;
                },
            }
            i = i - 1;
        }
        Some(cur)
    }
}

/// `d` shifted by `n` calendar months.
///
/// The policy mirrors the usual todo.txt month arithmetic: the month index
/// is shifted as a whole, and the day is kept, except that a day past the
/// end of the target month is clamped to that month's last day, and a date
/// that was the last day of its month stays the last day of the target
/// month.  `None` when the result would leave the supported year range.
pub open spec fn add_months_spec(d: Date, n: int) -> Option<Date> {
    let total = d.year as int * 12 + (d.month as int - 1) + n;
    if total < 0 || total >= 120000 {
        None
    } else {
        let y = total / 12;
        let m = total % 12 + 1;
        let dd = if d.day as int == days_in_month(d.year as int, d.month as int) || d.day as int
            > days_in_month(y, m) {
            days_in_month(y, m)
        } else {
            d.day as int
        };
        Some(Date { year: y as u16, month: m as u8, day: dd as u8 })
    }
}

pub proof fn lemma_add_months_valid(d: Date, n: int)
    requires
        d.valid(),
        add_months_spec(d, n) is Some,
    ensures
        add_months_spec(d, n).unwrap().valid(),
{
    let total = d.year as int * 12 + (d.month as int - 1) + n;
    assert(0 <= total < 120000);
    assert(0 <= total / 12 <= 9999);
    assert(0 <= total % 12 < 12);
}

pub fn add_months(d: Date, n: i128) -> (r: Option<Date>)
    requires
        d.valid(),
    ensures
        r == add_months_spec(d, n as int),
        r is Some ==> r.unwrap().valid(),
{
    proof {
        if add_months_spec(d, n as int) is Some {
            lemma_add_months_valid(d, n as int);
        }
    }
    if n > 200000 || n < -200000 {
        return None;
    }
    let total: i128 = d.year as i128 * 12 + (d.month as i128 - 1) + n;
    if total < 0 || total >= 120000 {
        return None;
    }
    let y: u16 = (total / 12) as u16;
    let m: u8 = (total % 12 + 1) as u8;
    let dim_src = days_in_month_x(d.year, d.month);
    let dim_dst = days_in_month_x(y, m);
    let dd: u8 = if d.day == dim_src || d.day > dim_dst {
        dim_dst
    } else {
        d.day
    };
    Some(Date { year: y, month: m, day: dd })
}

pub open spec fn digit_char(v: int) -> char {
    if v == 0 {
        '0'
    } else if v == 1 {
        '1'
    } else if v == 2 {
        '2'
    } else if v == 3 {
        '3'
    } else if v == 4 {
        '4'
    } else if v == 5 {
        '5'
    } else if v == 6 {
        '6'
    } else if v == 7 {
        '7'
    } else if v == 8 {
        '8'
    } else {
        '9'
    }
}

/// The value of a decimal digit character; 10 for any other character.
pub open spec fn char_val(c: char) -> int {
    if c == '0' {
        0
    } else if c == '1' {
        1
    } else if c == '2' {
        2
    } else if c == '3' {
        3
    } else if c == '4' {
        4
    } else if c == '5' {
        5
    } else if c == '6' {
        6
    } else if c == '7' {
        7
    } else if c == '8' {
        8
    } else if c == '9' {
        9
    } else {
        10
    }
}

pub open spec fn is_digit_char(c: char) -> bool {
    char_val(c) < 10
}

pub fn digit_char_x(v: u8) -> (r: char)
    requires
        v <= 9,
    ensures
        r == digit_char(v as int),
{
    match v {
        0 => '0',
        1 => '1',
        2 => '2',
        3 => '3',
        4 => '4',
        5 => '5',
        6 => '6',
        7 => '7',
        8 => '8',
        _ => '9',
    }
}

pub fn char_val_x(c: char) -> (r: u8)
    ensures
        r as int == char_val(c),
{
    match c {
        '0' => 0,
        '1' => 1,
        '2' => 2,
        '3' => 3,
        '4' => 4,
        '5' => 5,
        '6' => 6,
        '7' => 7,
        '8' => 8,
        '9' => 9,
        _ => 10,
    }
}

/// The canonical `YYYY-MM-DD` rendering of a date.
pub open spec fn date_token(d: Date) -> Seq<char> {
    let y = d.year as int;
    let m = d.month as int;
    let dd = d.day as int;
    seq![
        digit_char(y / 1000),
        digit_char((y / 100) % 10),
        digit_char((y / 10) % 10),
        digit_char(y % 10),
        '-',
        digit_char(m / 10),
        digit_char(m % 10),
        '-',
        digit_char(dd / 10),
        digit_char(dd % 10),
    ]
}

/// Whether a token has the `YYYY-MM-DD` shape, valid calendar day or not.
pub open spec fn date_shaped(t: Seq<char>) -> bool {
    &&& t.len() == 10
    &&& is_digit_char(t[0])
    &&& is_digit_char(t[1])
    &&& is_digit_char(t[2])
    &&& is_digit_char(t[3])
    &&& t[4] == '-'
    &&& is_digit_char(t[5])
    &&& is_digit_char(t[6])
    &&& t[7] == '-'
    &&& is_digit_char(t[8])
    &&& is_digit_char(t[9])
}

pub open spec fn token_year(t: Seq<char>) -> int {
    1000 * char_val(t[0]) + 100 * char_val(t[1]) + 10 * char_val(t[2]) + char_val(t[3])
}

pub open spec fn token_month(t: Seq<char>) -> int {
    10 * char_val(t[5]) + char_val(t[6])
}

pub open spec fn token_day(t: Seq<char>) -> int {
    10 * char_val(t[8]) + char_val(t[9])
}

/// The date a `YYYY-MM-DD` shaped token denotes, when it is a valid
/// calendar day.
pub open spec fn token_date(t: Seq<char>) -> Option<Date> {
    if date_shaped(t) {
        let cand = Date {
            year: token_year(t) as u16,
            month: token_month(t) as u8,
            day: token_day(t) as u8,
        };
        if cand.valid() {
            Some(cand)
        } else {
            None
        }
    } else {
        None
    }
}

/// A decimal digit character is none of the separator or marker characters
/// the grammar treats specially, and `char_val` undoes `digit_char`.
pub proof fn lemma_char_val_digit(v: int)
    requires
        0 <= v <= 9,
    ensures
        char_val(digit_char(v)) == v,
        is_digit_char(digit_char(v)),
        digit_char(v) != ' ',
        digit_char(v) != '\n',
        digit_char(v) != ':',
        digit_char(v) != '(',
        digit_char(v) != '-',
        digit_char(v) != '/',
{
}

#[verifier::rlimit(50)]
pub proof fn lemma_date_token_inverse(d: Date)
    requires
        d.valid(),
    ensures
        date_shaped(date_token(d)),
        token_date(date_token(d)) == Some(d),
        !date_token(d).contains(' '),
        !date_token(d).contains('\n'),
        !date_token(d).contains(':'),
        date_token(d)[0] != '(',
        date_token(d)[0] != '/',
        date_token(d).len() == 10,
{
    let y = d.year as int;
    let m = d.month as int;
    let dd = d.day as int;
    let t = date_token(d);
    assert(0 <= y / 1000 <= 9) by {
        vstd::arithmetic::div_mod::lemma_fundamental_div_mod(y, 1000);
        vstd::arithmetic::div_mod::lemma_mod_bound(y, 1000);
    }
    assert(0 <= (y / 100) % 10 <= 9) by {
        vstd::arithmetic::div_mod::lemma_mod_bound(y / 100, 10);
    }
    assert(0 <= (y / 10) % 10 <= 9) by {
        vstd::arithmetic::div_mod::lemma_mod_bound(y / 10, 10);
    }
    assert(0 <= y % 10 <= 9) by {
        vstd::arithmetic::div_mod::lemma_mod_bound(y, 10);
    }
    assert(0 <= m / 10 <= 9 && 0 <= m % 10 <= 9 && 0 <= dd / 10 <= 9 && 0 <= dd % 10 <= 9) by {
        vstd::arithmetic::div_mod::lemma_mod_bound(m, 10);
        vstd::arithmetic::div_mod::lemma_mod_bound(dd, 10);
    }
    lemma_char_val_digit(y / 1000);
    lemma_char_val_digit((y / 100) % 10);
    lemma_char_val_digit((y / 10) % 10);
    lemma_char_val_digit(y % 10);
    lemma_char_val_digit(m / 10);
    lemma_char_val_digit(m % 10);
    lemma_char_val_digit(dd / 10);
    lemma_char_val_digit(dd % 10);
    assert(date_shaped(t));
    assert(token_year(t) == 1000 * (y / 1000) + 100 * ((y / 100) % 10) + 10 * ((y / 10) % 10) + y
        % 10);
    assert(token_year(t) == y) by {
        vstd::arithmetic::div_mod::lemma_fundamental_div_mod(y, 10);
        vstd::arithmetic::div_mod::lemma_fundamental_div_mod(y / 10, 10);
        vstd::arithmetic::div_mod::lemma_fundamental_div_mod(y / 100, 10);
        vstd::arithmetic::div_mod::lemma_div_denominator(y, 10, 10);
        vstd::arithmetic::div_mod::lemma_div_denominator(y, 100, 10);
    }
    assert(token_month(t) == m) by {
        vstd::arithmetic::div_mod::lemma_fundamental_div_mod(m, 10);
    }
    assert(token_day(t) == dd) by {
        vstd::arithmetic::div_mod::lemma_fundamental_div_mod(dd, 10);
    }
    assert(token_date(t) == Some(d));
    assert forall|i: int| 0 <= i < t.len() implies t[i] != ' ' && t[i] != '\n' && t[i] != ':' by {
        if i != 4 && i != 7 {
            assert(is_digit_char(t[i]));
        }
    }
}

pub fn format_date(d: Date) -> (r: Vec<char>)
    requires
        d.valid(),
    ensures
        r@ == date_token(d),
{
    let mut out: Vec<char> = Vec::new();
    out.push(digit_char_x((d.year / 1000) as u8));
    out.push(digit_char_x(((d.year / 100) % 10) as u8));
    out.push(digit_char_x(((d.year / 10) % 10) as u8));
    out.push(digit_char_x((d.year % 10) as u8));
    out.push('-');
    out.push(digit_char_x(d.month / 10));
    out.push(digit_char_x(d.month % 10));
    out.push('-');
    out.push(digit_char_x(d.day / 10));
    out.push(digit_char_x(d.day % 10));
    proof {
        assert(out@ =~= date_token(d));
    }
    out
}

pub fn date_shaped_x(t: &Vec<char>) -> (r: bool)
    ensures
        r == date_shaped(t@),
{
    if t.len() != 10 {
        return false;
    }
    char_val_x(t[0]) < 10 && char_val_x(t[1]) < 10 && char_val_x(t[2]) < 10 && char_val_x(t[3])
        < 10 && t[4] == '-' && char_val_x(t[5]) < 10 && char_val_x(t[6]) < 10 && t[7] == '-'
        && char_val_x(t[8]) < 10 && char_val_x(t[9]) < 10
}

pub fn token_date_x(t: &Vec<char>) -> (r: Option<Date>)
    ensures
        r == token_date(t@),
{
    if !date_shaped_x(t) {
        return None;
    }
    let y: u16 = 1000 * char_val_x(t[0]) as u16 + 100 * char_val_x(t[1]) as u16 + 10 * char_val_x(
        t[2],
    ) as u16 + char_val_x(t[3]) as u16;
    let m: u8 = 10 * char_val_x(t[5]) + char_val_x(t[6]);
    let dd: u8 = 10 * char_val_x(t[8]) + char_val_x(t[9]);
    Date::from_ymd(y, m, dd)
}

/// Relies on chrono: `Local::now().date_naive()` is the current local
/// calendar day, `Datelike::{year, month, day}` return its components with
/// the month in 1..=12 and the day no larger than that month's length in
/// the proleptic Gregorian calendar, and chrono's `NaiveDate` years lie
/// strictly within +/-(1 << 18).
#[verifier::external_body]
fn today_parts() -> (r: (i64, u8, u8))
    ensures
        1 <= r.1 <= 12,
        1 <= r.2 as int <= days_in_month(r.0 as int, r.1 as int),
        -262144 <= r.0 <= 262144,
{
    let d = chrono::Local::now().date_naive();
    (d.year() as i64, d.month() as u8, d.day() as u8)
}

/// The current local calendar day, clamped into the supported year range.
pub fn today() -> (r: Date)
    ensures
        r.valid(),
{
    let (y, m, d) = today_parts();
    if y < 0 {
        Date { year: 0, month: 1, day: 1 }
    } else if y > MAX_YEAR as i64 {
        Date { year: MAX_YEAR, month: 12, day: 31 }
    } else {
        Date { year: y as u16, month: m, day: d }
    }
}

} // verus!
