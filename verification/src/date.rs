//! Calendar dates of the proleptic Gregorian calendar and their ISO 8601
//! text, `YYYY-MM-DD`.

use crate::text::{
    is_digit, lemma_between_shares_prefix, lemma_le_behind_prefix, lemma_padded_digits,
    lemma_padded_digits_differ, lemma_two_digits, lemma_two_digits_ordered, padded_digits,
    push_padded_digits, str_le, string_of, text_le,
};
use vstd::prelude::*;

verus! {

/// The earliest year a `Date` can hold.
pub const MIN_YEAR: i32 = -262143;

/// The latest year a `Date` can hold.
pub const MAX_YEAR: i32 = 262142;

/// Whether `year` has a 29th of February.
pub open spec fn is_leap_year(year: int) -> bool {
    year % 4 == 0 && (year % 100 != 0 || year % 400 == 0)
}

/// The number of days of a month; 0 where `month` is not in 1..=12.
pub open spec fn month_length(year: int, month: int) -> int {
    if month == 2 {
        if is_leap_year(year) {
            29
        } else {
            28
        }
    } else if month == 4 || month == 6 || month == 9 || month == 11 {
        30
    } else if 1 <= month <= 12 {
        31
    } else {
        0
    }
}

/// The year as ISO 8601 writes it: four digits from 0 to 9999, and a sign
/// followed by at least four digits outside that range.
pub open spec fn year_text(year: int) -> Seq<char> {
    if 0 <= year <= 9999 {
        padded_digits(year as nat, 4)
    } else if year > 9999 {
        seq!['+'] + padded_digits(year as nat, 4)
    } else {
        seq!['-'] + padded_digits((-year) as nat, 4)
    }
}

/// A year, a month and a day as plain numbers.
pub struct Ymd {
    pub year: int,
    pub month: int,
    pub day: int,
}

impl Ymd {
    /// Whether the calendar has such a day, whatever the year.
    pub open spec fn on_calendar(self) -> bool {
        &&& 1 <= self.month <= 12
        &&& 1 <= self.day <= month_length(self.year, self.month)
    }

    /// Whether the three numbers name a day of the calendar that a `Date`
    /// can hold.
    pub open spec fn is_calendar_date(self) -> bool {
        &&& MIN_YEAR <= self.year <= MAX_YEAR
        &&& self.on_calendar()
    }

    /// The text `YYYY-MM-DD` of the date.
    pub open spec fn iso_text(self) -> Seq<char> {
        month_prefix(self.year, self.month) + padded_digits(self.day as nat, 2)
    }
}

/// What the texts of all days of a month begin with: `YYYY-MM-`.
pub open spec fn month_prefix(year: int, month: int) -> Seq<char> {
    year_text(year) + seq!['-'] + padded_digits(month as nat, 2) + seq!['-']
}

/// Whether a date text lies in the given month of the given year, whatever
/// the year: from the text of its first day to that of its last, both
/// included, in the order of texts. No text lies in a month that the
/// calendar does not have.
pub open spec fn in_month(date: Seq<char>, year: int, month: int) -> bool {
    let first = Ymd { year, month, day: 1 };
    let last = Ymd { year, month, day: month_length(year, month) };
    1 <= month <= 12 && text_le(first.iso_text(), date) && text_le(date, last.iso_text())
}

/// Formats a date with chrono: `NaiveDate::from_ymd_opt` and
/// `NaiveDate::format("%Y-%m-%d")`. Trusted: for a day of the calendar the
/// text is the year as `year_text` gives it, the month and the day in two
/// digits each, joined by hyphens.
#[verifier::external_body]
fn format_ymd(year: i32, month: u32, day: u32) -> (s: String)
    requires
        (Ymd { year: year as int, month: month as int, day: day as int }).is_calendar_date(),
    ensures
        s@ == (Ymd { year: year as int, month: month as int, day: day as int }).iso_text(),
{
    chrono::NaiveDate::from_ymd_opt(year, month, day).unwrap().format("%Y-%m-%d").to_string()
}

/// Tests `year` for a leap year.
pub fn leap_year(year: i32) -> (r: bool)
    ensures
        r == is_leap_year(year as int),
{
    year % 4 == 0 && (year % 100 != 0 || year % 400 == 0)
}

/// The number of days of a month, which is its last day; 0 where `month` is
/// not in 1..=12.
pub fn days_in_month(year: i32, month: u32) -> (r: u32)
    ensures
        r == month_length(year as int, month as int),
{
    if month == 2 {
        if leap_year(year) {
            29
        } else {
            28
        }
    } else if month == 4 || month == 6 || month == 9 || month == 11 {
        30
    } else if 1 <= month && month <= 12 {
        31
    } else {
        0
    }
}

/// A day of the calendar.
#[derive(Clone, Copy, PartialEq, Eq, Debug, Structural)]
pub struct Date {
    year: i32,
    month: u32,
    day: u32,
}

impl View for Date {
    type V = Ymd;

    closed spec fn view(&self) -> Ymd {
        Ymd { year: self.year as int, month: self.month as int, day: self.day as int }
    }
}

impl Date {
    #[verifier::type_invariant]
    spec fn well_formed(self) -> bool {
        self@.is_calendar_date()
    }

    /// The date of the given year, month and day, where the calendar has
    /// such a day and the year lies within `MIN_YEAR..=MAX_YEAR`.
    pub fn from_ymd_opt(year: i32, month: u32, day: u32) -> (r: Option<Date>)
        ensures
            match r {
                Some(d) => d@ == (Ymd { year: year as int, month: month as int, day: day as int })
                    && d@.is_calendar_date(),
                None => !(Ymd {
                    year: year as int,
                    month: month as int,
                    day: day as int,
                }).is_calendar_date(),
            },
    {
        if MIN_YEAR <= year && year <= MAX_YEAR && 1 <= month && month <= 12 && 1 <= day && day
            <= days_in_month(year, month) {
            Some(Date { year, month, day })
        } else {
            None
        }
    }

    /// The year.
    pub fn year(&self) -> (r: i32)
        ensures
            r == self@.year,
    {
        self.year
    }

    /// The month, from 1 to 12.
    pub fn month(&self) -> (r: u32)
        ensures
            r == self@.month,
            1 <= r <= 12,
    {
        proof {
            use_type_invariant(self);
        }
        self.month
    }

    /// The day of the month, from 1.
    pub fn day(&self) -> (r: u32)
        ensures
            r == self@.day,
            1 <= r <= month_length(self@.year, self@.month),
    {
        proof {
            use_type_invariant(self);
        }
        self.day
    }

    /// The text `YYYY-MM-DD` of the date.
    pub fn to_iso_string(&self) -> (s: String)
        ensures
            s@ == self@.iso_text(),
            self@.is_calendar_date(),
    {
        proof {
            use_type_invariant(self);
        }
        format_ymd(self.year, self.month, self.day)
    }
}

/// The text `YYYY-MM-DD` of a year, a month and a day, whatever the year:
/// the text that `Date::to_iso_string` gives for the years a `Date` can
/// hold, by the same rule for every other year.
fn iso_string(year: i32, month: u32, day: u32) -> (s: String)
    ensures
        s@ == (Ymd { year: year as int, month: month as int, day: day as int }).iso_text(),
{
    let mut chars: Vec<char> = Vec::new();
    let wide: i64 = year as i64;
    if wide > 9999 {
        chars.push('+');
        push_padded_digits(&mut chars, wide as u64, 4);
    } else if wide < 0 {
        chars.push('-');
        push_padded_digits(&mut chars, (-wide) as u64, 4);
    } else {
        push_padded_digits(&mut chars, wide as u64, 4);
    }
    assert(chars@ =~= year_text(year as int));
    chars.push('-');
    push_padded_digits(&mut chars, month as u64, 2);
    chars.push('-');
    assert(chars@ =~= month_prefix(year as int, month as int));
    push_padded_digits(&mut chars, day as u64, 2);
    string_of(&chars)
}

/// A month of a year, held with the texts of its first and last day. The
/// year may be any, also one that no `Date` can hold.
pub struct MonthRange {
    year: i32,
    month: u32,
    first: String,
    last: String,
}

impl MonthRange {
    #[verifier::type_invariant]
    spec fn well_formed(self) -> bool {
        let year = self.year as int;
        let month = self.month as int;
        &&& 1 <= month <= 12
        &&& self.first@ == (Ymd { year, month, day: 1 }).iso_text()
        &&& self.last@ == (Ymd { year, month, day: month_length(year, month) }).iso_text()
    }

    /// The year of the month.
    pub closed spec fn year(self) -> int {
        self.year as int
    }

    /// The month, from 1 to 12.
    pub closed spec fn month(self) -> int {
        self.month as int
    }

    /// The range of the given month, where the calendar has that month.
    pub fn of(year: i32, month: u32) -> (r: Option<MonthRange>)
        ensures
            match r {
                Some(range) => range.year() == year && range.month() == month && 1 <= month
                    <= 12,
                None => !(1 <= month <= 12),
            },
    {
        if 1 <= month && month <= 12 {
            let first = iso_string(year, month, 1);
            let last = iso_string(year, month, days_in_month(year, month));
            Some(MonthRange { year, month, first, last })
        } else {
            None
        }
    }

    /// Whether a date text lies in the month.
    pub fn contains(&self, date: &str) -> (r: bool)
        ensures
            r == in_month(date@, self.year(), self.month()),
    {
        proof {
            use_type_invariant(self);
        }
        str_le(self.first.as_str(), date) && str_le(date, self.last.as_str())
    }
}

/// The text of a year has at least four characters, and decimal digits
/// behind the first, which is a digit, a plus or a minus sign.
pub proof fn lemma_year_text(year: int)
    ensures
        year_text(year).len() >= 4,
        forall|i: int| 1 <= i < year_text(year).len() ==> is_digit(#[trigger] year_text(year)[i]),
        (0 <= year <= 9999) == is_digit(year_text(year)[0]),
        year > 9999 ==> year_text(year)[0] == '+',
        year < 0 ==> year_text(year)[0] == '-',
{
    let t = year_text(year);
    if 0 <= year <= 9999 {
        lemma_padded_digits(year as nat, 4);
        assert(is_digit(t[0]));
    } else if year > 9999 {
        lemma_padded_digits(year as nat, 4);
        let d = padded_digits(year as nat, 4);
        assert forall|i: int| 1 <= i < t.len() implies is_digit(#[trigger] t[i]) by {
            assert(t[i] == d[i - 1]);
        }
    } else {
        lemma_padded_digits((-year) as nat, 4);
        let d = padded_digits((-year) as nat, 4);
        assert forall|i: int| 1 <= i < t.len() implies is_digit(#[trigger] t[i]) by {
            assert(t[i] == d[i - 1]);
        }
    }
}

/// Different years have different texts.
pub proof fn lemma_year_texts_differ(a: int, b: int)
    requires
        year_text(a) == year_text(b),
    ensures
        a == b,
{
    lemma_year_text(a);
    lemma_year_text(b);
    let ta = year_text(a);
    let tb = year_text(b);
    assert(ta[0] == tb[0]);
    if 0 <= a <= 9999 {
        lemma_padded_digits_differ(a as nat, b as nat, 4);
    } else if a > 9999 {
        assert(ta.skip(1) =~= padded_digits(a as nat, 4));
        assert(tb.skip(1) =~= padded_digits(b as nat, 4));
        lemma_padded_digits_differ(a as nat, b as nat, 4);
    } else {
        assert(ta.skip(1) =~= padded_digits((-a) as nat, 4));
        assert(tb.skip(1) =~= padded_digits((-b) as nat, 4));
        lemma_padded_digits_differ((-a) as nat, (-b) as nat, 4);
    }
}

/// The text of a date begins like the texts of one month only: its own.
pub proof fn lemma_month_prefix_differ(date: Ymd, year: int, month: int)
    requires
        1 <= date.month <= 12,
        1 <= date.day <= 31,
        1 <= month <= 12,
        date.iso_text().len() >= month_prefix(year, month).len(),
        date.iso_text().take(month_prefix(year, month).len() as int) == month_prefix(year, month),
    ensures
        date.year == year,
        date.month == month,
{
    let t = date.iso_text();
    let p = month_prefix(year, month);
    let own = year_text(date.year);
    let other = year_text(year);
    lemma_year_text(date.year);
    lemma_year_text(year);
    lemma_two_digits(date.month as nat);
    lemma_two_digits(date.day as nat);
    lemma_two_digits(month as nat);
    let len_own = own.len() as int;
    let len_other = other.len() as int;
    assert(p.len() == len_other + 4);
    assert(t.len() == len_own + 6);
    assert forall|i: int| 0 <= i < p.len() implies t[i] == p[i] by {
        assert(t.take(p.len() as int)[i] == t[i]);
    }
    assert(p[len_other] == '-');
    assert(t[len_own] == '-');
    if len_other < len_own {
        assert(t[len_other] == own[len_other]);
        assert(is_digit(own[len_other]));
    } else if len_own < len_other {
        assert(p[len_own] == other[len_own]);
        assert(is_digit(other[len_own]));
    }
    assert(own =~= other) by {
        assert forall|i: int| 0 <= i < len_own implies own[i] == other[i] by {
            assert(t[i] == own[i]);
            assert(p[i] == other[i]);
        }
    }
    lemma_year_texts_differ(date.year, year);
    let m_own = padded_digits(date.month as nat, 2);
    let m_other = padded_digits(month as nat, 2);
    assert(m_own =~= m_other) by {
        assert(t[len_own + 1] == m_own[0]);
        assert(t[len_own + 2] == m_own[1]);
        assert(p[len_own + 1] == m_other[0]);
        assert(p[len_own + 2] == m_other[1]);
    }
    lemma_padded_digits_differ(date.month as nat, month as nat, 2);
}

/// Among the texts of the days of the calendar, of whatever year, those
/// that lie in a month are the days of that month of that year: its last
/// day is in, the first day of the next month is out, whatever the length
/// of the month.
pub proof fn lemma_in_month_is_same_month(date: Ymd, year: int, month: int)
    requires
        date.on_calendar(),
    ensures
        in_month(date.iso_text(), year, month) == (1 <= month <= 12 && date.year == year
            && date.month == month),
{
    let p = month_prefix(year, month);
    let t = date.iso_text();
    if 1 <= month <= 12 {
        if date.year == year && date.month == month {
            lemma_two_digits_ordered(1, date.day as nat);
            lemma_two_digits_ordered(date.day as nat, month_length(year, month) as nat);
            lemma_le_behind_prefix(p, padded_digits(1, 2), padded_digits(date.day as nat, 2));
            lemma_le_behind_prefix(
                p,
                padded_digits(date.day as nat, 2),
                padded_digits(month_length(year, month) as nat, 2),
            );
        } else if in_month(t, year, month) {
            lemma_between_shares_prefix(
                p,
                padded_digits(1, 2),
                padded_digits(month_length(year, month) as nat, 2),
                t,
            );
            lemma_month_prefix_differ(date, year, month);
        }
    }
}

/// In every year, the first and the last day of a month lie in it, and the
/// first day of the month after it does not.
pub proof fn lemma_month_ends(year: int, month: int)
    requires
        1 <= month <= 12,
    ensures
        in_month((Ymd { year, month, day: 1 }).iso_text(), year, month),
        in_month((Ymd { year, month, day: month_length(year, month) }).iso_text(), year, month),
        month < 12 ==> !in_month((Ymd { year, month: month + 1, day: 1 }).iso_text(), year, month),
        month == 12 ==> !in_month(
            (Ymd { year: year + 1, month: 1, day: 1 }).iso_text(),
            year,
            month,
        ),
{
    lemma_in_month_is_same_month(Ymd { year, month, day: 1 }, year, month);
    lemma_in_month_is_same_month(Ymd { year, month, day: month_length(year, month) }, year, month);
    if month < 12 {
        lemma_in_month_is_same_month(Ymd { year, month: month + 1, day: 1 }, year, month);
    } else {
        lemma_in_month_is_same_month(Ymd { year: year + 1, month: 1, day: 1 }, year, month);
    }
}

} // verus!
