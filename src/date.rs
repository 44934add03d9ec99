//! The date clause of a record: `<Day> <Month> <Year> <HH:MM:SS>`, read as
//! wall-clock time in the reader's own time zone.
use vstd::prelude::*;

use crate::error::ParseError;
use crate::text::{
    all_digits, chars_of, digits_to_usize, digits_value, find_char, find_char_from,
    lemma_find_char_from, same_chars,
};

verus! {

/// chrono's calendar date, which `NaiveDate::from_ymd_opt` returns; opaque here.
#[verifier::external_type_specification]
#[verifier::external_body]
pub struct ExNaiveDate(chrono::NaiveDate);

pub open spec fn is_leap_year(y: int) -> bool {
    (y % 4 == 0 && y % 100 != 0) || y % 400 == 0
}

pub open spec fn days_in_month(y: int, m: int) -> int {
    if m == 2 {
        if is_leap_year(y) {
            29
        } else {
            28
        }
    } else if m == 4 || m == 6 || m == 9 || m == 11 {
        30
    } else {
        31
    }
}

/// Day `d` of month `m` exists in year `y` of the Gregorian calendar.
pub open spec fn is_calendar_date(y: int, m: int, d: int) -> bool {
    1 <= m <= 12 && 1 <= d <= days_in_month(y, m)
}

/// Relies on chrono's `NaiveDate::from_ymd_opt`, which returns a date exactly when
/// the calendar day exists and the year lies in chrono's range (which holds every
/// year from 0 to 9999).
pub assume_specification[ chrono::NaiveDate::from_ymd_opt ](year: i32, month: u32, day: u32) -> (r:
    Option<chrono::NaiveDate>)
    ensures
        0 <= year <= 9999 ==> (r is Some <==> is_calendar_date(year as int, month as int, day as int)),
;

/// A wall-clock date and time in the reader's local time zone. The export carries
/// no offset: the zone is attached where the value leaves the library.
#[derive(Debug, Clone, Copy, PartialEq, Eq, Structural)]
pub struct LocalDateTime {
    pub year: i32,
    pub month: u32,
    pub day: u32,
    pub hour: u32,
    pub minute: u32,
    pub second: u32,
}

impl LocalDateTime {
    /// A four-digit year, a day that exists, and a time of day on the 24-hour clock.
    pub open spec fn wf(self) -> bool {
        &&& 0 <= self.year <= 9999
        &&& is_calendar_date(self.year as int, self.month as int, self.day as int)
        &&& self.hour < 24
        &&& self.minute < 60
        &&& self.second < 60
    }
}

/// The number of a month from its full English name, or 0 for any other text.
pub open spec fn month_number(name: Seq<char>) -> u32 {
    if name == "January"@ {
        1
    } else if name == "February"@ {
        2
    } else if name == "March"@ {
        3
    } else if name == "April"@ {
        4
    } else if name == "May"@ {
        5
    } else if name == "June"@ {
        6
    } else if name == "July"@ {
        7
    } else if name == "August"@ {
        8
    } else if name == "September"@ {
        9
    } else if name == "October"@ {
        10
    } else if name == "November"@ {
        11
    } else if name == "December"@ {
        12
    } else {
        0
    }
}

/// The positions of the first three `sep` in `s`, when `s` holds exactly three
/// (`s` splits into four fields).
pub open spec fn three_seps(s: Seq<char>, sep: char) -> Option<(int, int, int)> {
    let a = find_char_from(s, sep, 0);
    let b = find_char_from(s, sep, a + 1);
    let c = find_char_from(s, sep, b + 1);
    if c < s.len() && find_char_from(s, sep, c + 1) == s.len() {
        Some((a, b, c))
    } else {
        None
    }
}

/// The positions of the first two `sep` in `s`, when `s` holds exactly two
/// (`s` splits into three fields).
pub open spec fn two_seps(s: Seq<char>, sep: char) -> Option<(int, int)> {
    let a = find_char_from(s, sep, 0);
    let b = find_char_from(s, sep, a + 1);
    if b < s.len() && find_char_from(s, sep, b + 1) == s.len() {
        Some((a, b))
    } else {
        None
    }
}

pub open spec fn is_number_of_width(s: Seq<char>, lo: nat, hi: nat) -> bool {
    lo <= s.len() <= hi && all_digits(s)
}

/// What the date text `d` denotes, or why it is rejected. The text is four fields
/// split by single spaces, the last one three fields split by `:`. Checks come in
/// this order: that layout, the month name, the width of each number, the ranges.
pub open spec fn date_of(d: Seq<char>) -> Result<LocalDateTime, ParseError> {
    match three_seps(d, ' ') {
        None => Err(ParseError::StructuralParseError),
        Some((a, b, c)) => {
            let day = d.subrange(0, a);
            let month = d.subrange(a + 1, b);
            let year = d.subrange(b + 1, c);
            let time = d.subrange(c + 1, d.len() as int);
            match two_seps(time, ':') {
                None => Err(ParseError::StructuralParseError),
                Some((p, q)) => {
                    let hh = time.subrange(0, p);
                    let mm = time.subrange(p + 1, q);
                    let ss = time.subrange(q + 1, time.len() as int);
                    if month_number(month) == 0 {
                        Err(ParseError::UnknownMonthError)
                    } else if !is_number_of_width(day, 1, 2) || !is_number_of_width(year, 4, 4)
                        || !is_number_of_width(hh, 2, 2) || !is_number_of_width(mm, 2, 2)
                        || !is_number_of_width(ss, 2, 2) {
                        Err(ParseError::NumericFormatError)
                    } else if !is_calendar_date(
                        digits_value(year) as int,
                        month_number(month) as int,
                        digits_value(day) as int,
                    ) || digits_value(hh) >= 24 || digits_value(mm) >= 60 || digits_value(ss)
                        >= 60 {
                        Err(ParseError::NumericFormatError)
                    } else {
                        Ok(
                            LocalDateTime {
                                year: digits_value(year) as i32,
                                month: month_number(month),
                                day: digits_value(day) as u32,
                                hour: digits_value(hh) as u32,
                                minute: digits_value(mm) as u32,
                                second: digits_value(ss) as u32,
                            },
                        )
                    }
                },
            }
        },
    }
}

pub open spec fn pow10(n: nat) -> nat
    decreases n,
{
    if n == 0 {
        1
    } else {
        10 * pow10((n - 1) as nat)
    }
}

pub proof fn lemma_digits_value_bound(s: Seq<char>)
    requires
        all_digits(s),
    ensures
        digits_value(s) < pow10(s.len()),
    decreases s.len(),
{
    if s.len() > 0 {
        let t = s.drop_last();
        assert forall|i: int| 0 <= i < t.len() implies crate::text::is_digit(#[trigger] t[i]) by {
            assert(t[i] == s[i]);
        }
        lemma_digits_value_bound(t);
        assert(crate::text::is_digit(s[s.len() - 1]));
    }
}

proof fn lemma_small_number(s: Seq<char>)
    requires
        all_digits(s),
        s.len() <= 4,
    ensures
        digits_value(s) < 10000,
{
    lemma_digits_value_bound(s);
    assert(pow10(0) == 1);
    assert(pow10(1) == 10);
    assert(pow10(2) == 100);
    assert(pow10(3) == 1000);
    assert(pow10(4) == 10000);
}

/// The value of a run of at most four digits.
fn small_number(s: &[char]) -> (r: u32)
    requires
        all_digits(s@),
        s@.len() <= 4,
    ensures
        r == digits_value(s@),
        r < 10000,
{
    proof {
        lemma_small_number(s@);
    }
    match digits_to_usize(s) {
        Some(v) => v as u32,
        None => 0,
    }
}

fn is_number_of_width_exec(s: &[char], lo: usize, hi: usize) -> (r: bool)
    ensures
        r == is_number_of_width(s@, lo as nat, hi as nat),
{
    if s.len() < lo || s.len() > hi {
        return false;
    }
    let mut i: usize = 0;
    while i < s.len()
        invariant
            i <= s@.len(),
            forall|j: int| 0 <= j < i ==> crate::text::is_digit(#[trigger] s@[j]),
        decreases s@.len() - i,
    {
        if s[i] < '0' || s[i] > '9' {
            return false;
        }
        i += 1;
    }
    true
}

fn month_number_exec(name: &[char]) -> (r: u32)
    ensures
        r == month_number(name@),
{
    if same_chars(name, "January") {
        1
    } else if same_chars(name, "February") {
        2
    } else if same_chars(name, "March") {
        3
    } else if same_chars(name, "April") {
        4
    } else if same_chars(name, "May") {
        5
    } else if same_chars(name, "June") {
        6
    } else if same_chars(name, "July") {
        7
    } else if same_chars(name, "August") {
        8
    } else if same_chars(name, "September") {
        9
    } else if same_chars(name, "October") {
        10
    } else if same_chars(name, "November") {
        11
    } else if same_chars(name, "December") {
        12
    } else {
        0
    }
}

/// The positions of the first four `sep` in `s` (each `s.len()` when missing), from
/// which `three_seps` and `two_seps` are read.
fn find_seps(s: &[char], sep: char) -> (r: (usize, usize, usize, usize))
    ensures
        r.0 == find_char_from(s@, sep, 0),
        r.1 == find_char_from(s@, sep, r.0 + 1),
        r.2 == find_char_from(s@, sep, r.1 + 1),
        r.3 == find_char_from(s@, sep, r.2 + 1),
        r.0 <= r.1 <= r.2 <= r.3 <= s@.len(),
        r.0 < s@.len() ==> r.0 < r.1,
        r.1 < s@.len() ==> r.1 < r.2,
        r.2 < s@.len() ==> r.2 < r.3,
{
    let a = find_char(s, sep, 0);
    proof {
        lemma_find_char_from(s@, sep, 0);
    }
    let b = if a < s.len() {
        find_char(s, sep, a + 1)
    } else {
        s.len()
    };
    proof {
        if a < s@.len() {
            lemma_find_char_from(s@, sep, a + 1);
        }
    }
    let c = if b < s.len() {
        find_char(s, sep, b + 1)
    } else {
        s.len()
    };
    proof {
        if b < s@.len() {
            lemma_find_char_from(s@, sep, b + 1);
        }
    }
    let e = if c < s.len() {
        find_char(s, sep, c + 1)
    } else {
        s.len()
    };
    proof {
        if c < s@.len() {
            lemma_find_char_from(s@, sep, c + 1);
        }
    }
    (a, b, c, e)
}

/// Reads a date clause held as characters.
pub fn date_of_chars(d: &[char]) -> (r: Result<LocalDateTime, ParseError>)
    ensures
        r == date_of(d@),
        r matches Ok(t) ==> t.wf(),
{
    let (a, b, c, e) = find_seps(d, ' ');
    if !(c < d.len() && e == d.len()) {
        return Err(ParseError::StructuralParseError);
    }
    let day = vstd::slice::slice_subrange(d, 0, a);
    let month = vstd::slice::slice_subrange(d, a + 1, b);
    let year = vstd::slice::slice_subrange(d, b + 1, c);
    let time = vstd::slice::slice_subrange(d, c + 1, d.len());
    let (p, q, x, _) = find_seps(time, ':');
    if !(q < time.len() && x == time.len()) {
        return Err(ParseError::StructuralParseError);
    }
    let hh = vstd::slice::slice_subrange(time, 0, p);
    let mm = vstd::slice::slice_subrange(time, p + 1, q);
    let ss = vstd::slice::slice_subrange(time, q + 1, time.len());
    let m = month_number_exec(month);
    if m == 0 {
        return Err(ParseError::UnknownMonthError);
    }
    if !is_number_of_width_exec(day, 1, 2) || !is_number_of_width_exec(year, 4, 4)
        || !is_number_of_width_exec(hh, 2, 2) || !is_number_of_width_exec(mm, 2, 2)
        || !is_number_of_width_exec(ss, 2, 2) {
        return Err(ParseError::NumericFormatError);
    }
    let dv = small_number(day);
    let yv = small_number(year);
    let hv = small_number(hh);
    let mv = small_number(mm);
    let sv = small_number(ss);
    let found = chrono::NaiveDate::from_ymd_opt(yv as i32, m, dv).is_some();
    if !found || hv >= 24 || mv >= 60 || sv >= 60 {
        return Err(ParseError::NumericFormatError);
    }
    Ok(LocalDateTime { year: yv as i32, month: m, day: dv, hour: hv, minute: mv, second: sv })
}

/// Reads a date clause such as `1 December 2020 16:58:58`: the day of the month
/// (one or two digits), the month's full English name, a four-digit year and a
/// 24-hour `HH:MM:SS` time, split by single spaces.
pub fn parse_date(input: &str) -> (r: Result<LocalDateTime, ParseError>)
    ensures
        r == date_of(input@),
        r matches Ok(t) ==> t.wf(),
{
    let v = chars_of(input);
    date_of_chars(v.as_slice())
}

} // verus!
