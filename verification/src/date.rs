//! Calendar dates as plain year/month/day numbers, and the strict
//! `YYYY-MM-DD` text form they are read from and written to.

use vstd::prelude::*;

verus! {

/// One calendar date in the proleptic Gregorian calendar. The text format
/// pins years to four digits, so a well-formed date has `year <= 9999`.
#[derive(Clone, Copy, Debug, PartialEq, Eq, Structural)]
pub struct Date {
    pub year: u32,
    pub month: u32,
    pub day: u32,
}

pub open spec fn is_leap_year(y: int) -> bool {
    y % 4 == 0 && (y % 100 != 0 || y % 400 == 0)
}

pub open spec fn days_in_month(y: int, m: int) -> int {
    if m == 2 {
        if is_leap_year(y) {
            29
        } else {
            28
        }
    } else if m == 4 || m == 6 || m == 9 || m == 11 {
        30
    } else {
        31
    }
}

impl Date {
    pub open spec fn wf(self) -> bool {
        &&& self.year <= 9999
        &&& 1 <= self.month <= 12
        &&& 1 <= self.day <= days_in_month(self.year as int, self.month as int)
    }

    /// Builds a date from its three fields, rejecting anything that is not
    /// a valid calendar date of the four-digit-year range.
    pub fn from_ymd(year: u32, month: u32, day: u32) -> (r: Option<Date>)
        ensures
            r == if (Date { year, month, day }).wf() {
                Some(Date { year, month, day })
            } else {
                None::<Date>
            },
    {
        let d = Date { year, month, day };
        if year <= 9999 && 1 <= month && month <= 12 && 1 <= day && day <= days_in_month_exec(
            year,
            month,
        ) {
            Some(d)
        } else {
            None
        }
    }
}

pub open spec fn is_digit(c: char) -> bool {
    ('0' as int) <= (c as int) && (c as int) <= ('9' as int)
}

pub open spec fn digit_val(c: char) -> int {
    c as int - ('0' as int)
}

pub open spec fn spec_digit_char(v: int) -> char {
    if v == 0 {
        '0'
    } else if v == 1 {
        '1'
    } else if v == 2 {
        '2'
    } else if v == 3 {
        '3'
    } else if v == 4 {
        '4'
    } else if v == 5 {
        '5'
    } else if v == 6 {
        '6'
    } else if v == 7 {
        '7'
    } else if v == 8 {
        '8'
    } else {
        '9'
    }
}

/// The lexical shape of a date token: exactly `YYYY-MM-DD`, ten characters,
/// zero-padded, hyphen-separated.
pub open spec fn date_shape(t: Seq<char>) -> bool {
    &&& t.len() == 10
    &&& is_digit(t[0]) && is_digit(t[1]) && is_digit(t[2]) && is_digit(t[3])
    &&& t[4] == '-'
    &&& is_digit(t[5]) && is_digit(t[6])
    &&& t[7] == '-'
    &&& is_digit(t[8]) && is_digit(t[9])
}

pub open spec fn token_year(t: Seq<char>) -> int {
    digit_val(t[0]) * 1000 + digit_val(t[1]) * 100 + digit_val(t[2]) * 10 + digit_val(t[3])
}

pub open spec fn token_month(t: Seq<char>) -> int {
    digit_val(t[5]) * 10 + digit_val(t[6])
}

pub open spec fn token_day(t: Seq<char>) -> int {
    digit_val(t[8]) * 10 + digit_val(t[9])
}

pub open spec fn date_of_token(t: Seq<char>) -> Date {
    Date { year: token_year(t) as u32, month: token_month(t) as u32, day: token_day(t) as u32 }
}

/// A token reads as a date only if it has the strict shape and names a
/// valid calendar date.
pub open spec fn is_date_token(t: Seq<char>) -> bool {
    date_shape(t) && date_of_token(t).wf()
}

/// The canonical ten-character text of a well-formed date.
pub open spec fn date_token_of(d: Date) -> Seq<char> {
    seq![
        spec_digit_char(d.year as int / 1000),
        spec_digit_char((d.year as int / 100) % 10),
        spec_digit_char((d.year as int / 10) % 10),
        spec_digit_char(d.year as int % 10),
        '-',
        spec_digit_char(d.month as int / 10),
        spec_digit_char(d.month as int % 10),
        '-',
        spec_digit_char(d.day as int / 10),
        spec_digit_char(d.day as int % 10),
    ]
}

proof fn lemma_digit_char_val(v: int)
    requires
        0 <= v <= 9,
    ensures
        is_digit(spec_digit_char(v)),
        digit_val(spec_digit_char(v)) == v,
{
}

proof fn lemma_four_digits(y: int)
    requires
        0 <= y <= 9999,
    ensures
        (y / 1000) * 1000 + ((y / 100) % 10) * 100 + ((y / 10) % 10) * 10 + y % 10 == y,
        0 <= y / 1000 <= 9,
        0 <= (y / 100) % 10 <= 9,
        0 <= (y / 10) % 10 <= 9,
        0 <= y % 10 <= 9,
{
    assert((y / 1000) * 1000 + ((y / 100) % 10) * 100 + ((y / 10) % 10) * 10 + y % 10 == y)
        by (nonlinear_arith)
        requires
            0 <= y <= 9999,
    ;
    assert(0 <= y / 1000 <= 9) by (nonlinear_arith)
        requires
            0 <= y <= 9999,
    ;
}

proof fn lemma_two_digits(m: int)
    requires
        0 <= m <= 99,
    ensures
        (m / 10) * 10 + m % 10 == m,
        0 <= m / 10 <= 9,
        0 <= m % 10 <= 9,
{
}

/// The canonical text of a well-formed date reads back as the same date.
pub proof fn lemma_date_token_round_trip(d: Date)
    requires
        d.wf(),
    ensures
        is_date_token(date_token_of(d)),
        date_of_token(date_token_of(d)) == d,
{
    let t = date_token_of(d);
    let y = d.year as int;
    let m = d.month as int;
    let dy = d.day as int;
    lemma_four_digits(y);
    lemma_two_digits(m);
    lemma_two_digits(dy);
    lemma_digit_char_val(y / 1000);
    lemma_digit_char_val((y / 100) % 10);
    lemma_digit_char_val((y / 10) % 10);
    lemma_digit_char_val(y % 10);
    lemma_digit_char_val(m / 10);
    lemma_digit_char_val(m % 10);
    lemma_digit_char_val(dy / 10);
    lemma_digit_char_val(dy % 10);
    assert(token_year(t) == y);
    assert(token_month(t) == m);
    assert(token_day(t) == dy);
}

fn days_in_month_exec(y: u32, m: u32) -> (r: u32)
    requires
        1 <= m <= 12,
    ensures
        r == days_in_month(y as int, m as int),
{
    if m == 2 {
        if y % 4 == 0 && (y % 100 != 0 || y % 400 == 0) {
            29
        } else {
            28
        }
    } else if m == 4 || m == 6 || m == 9 || m == 11 {
        30
    } else {
        31
    }
}

fn digit_value(c: char) -> (r: Option<u32>)
    ensures
        r == if is_digit(c) {
            Some(digit_val(c) as u32)
        } else {
            None::<u32>
        },
{
    let u = c as u32;
    if 48 <= u && u <= 57 {
        Some(u - 48)
    } else {
        None
    }
}

/// Reads a token as a date: `Some` exactly on strict, calendar-valid
/// `YYYY-MM-DD` text, and `None` on everything else.
pub fn parse_date_token(t: &str) -> (r: Option<Date>)
    ensures
        r == if is_date_token(t@) {
            Some(date_of_token(t@))
        } else {
            None::<Date>
        },
{
    let n = t.unicode_len();
    if n != 10 {
        return None;
    }
    if t.get_char(4) != '-' || t.get_char(7) != '-' {
        return None;
    }
    let c0 = digit_value(t.get_char(0));
    let c1 = digit_value(t.get_char(1));
    let c2 = digit_value(t.get_char(2));
    let c3 = digit_value(t.get_char(3));
    let c5 = digit_value(t.get_char(5));
    let c6 = digit_value(t.get_char(6));
    let c8 = digit_value(t.get_char(8));
    let c9 = digit_value(t.get_char(9));
    match (c0, c1, c2, c3, c5, c6, c8, c9) {
        (
            Some(v0),
            Some(v1),
            Some(v2),
            Some(v3),
            Some(v5),
            Some(v6),
            Some(v8),
            Some(v9),
        ) => {
            let year = v0 * 1000 + v1 * 100 + v2 * 10 + v3;
            let month = v5 * 10 + v6;
            let day = v8 * 10 + v9;
            assert(date_shape(t@));
            assert(year == token_year(t@) && month == token_month(t@) && day == token_day(t@));
            Date::from_ymd(year, month, day)
        },
        _ => None,
    }
}

fn digit_str(v: u32) -> (r: &'static str)
    ensures
        r@ == seq![spec_digit_char(v as int)],
{
    proof {
        reveal_strlit("0");
        reveal_strlit("1");
        reveal_strlit("2");
        reveal_strlit("3");
        reveal_strlit("4");
        reveal_strlit("5");
        reveal_strlit("6");
        reveal_strlit("7");
        reveal_strlit("8");
        reveal_strlit("9");
    }
    let r = match v {
        0 => "0",
        1 => "1",
        2 => "2",
        3 => "3",
        4 => "4",
        5 => "5",
        6 => "6",
        7 => "7",
        8 => "8",
        _ => "9",
    };
    assert(r@ =~= seq![spec_digit_char(v as int)]);
    r
}

/// Writes a date as its ten-character text; the text reads back as the
/// same date whenever the date is well-formed.
pub fn format_date(d: &Date) -> (r: String)
    ensures
        r@ == date_token_of(*d),
{
    proof {
        reveal_strlit("-");
    }
    let mut s = String::new();
    s.append(digit_str(d.year / 1000));
    s.append(digit_str((d.year / 100) % 10));
    s.append(digit_str((d.year / 10) % 10));
    s.append(digit_str(d.year % 10));
    s.append("-");
    s.append(digit_str(d.month / 10));
    s.append(digit_str(d.month % 10));
    s.append("-");
    s.append(digit_str(d.day / 10));
    s.append(digit_str(d.day % 10));
    assert(s@ =~= date_token_of(*d));
    s
}

} // verus!
