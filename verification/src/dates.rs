//! Calendar dates.

use crate::text;
use chrono::Datelike;
use vstd::prelude::*;

verus! {

/// The format of a full date: year, month and day with `-` between them.
pub const FULL_DATE_FORMAT: &'static str = "%Y-%m-%d";

/// A day of the proleptic Gregorian calendar.
#[derive(Clone, Copy, Debug, PartialEq, Eq, Structural)]
pub struct CalendarDate {
    pub year: i32,
    pub month: u32,
    pub day: u32,
}

pub open spec fn leap_year(year: int) -> bool {
    year % 4 == 0 && (year % 100 != 0 || year % 400 == 0)
}

pub open spec fn days_in_month(year: int, month: int) -> int {
    if month == 2 {
        if leap_year(year) {
            29
        } else {
            28
        }
    } else if month == 4 || month == 6 || month == 9 || month == 11 {
        30
    } else {
        31
    }
}

impl CalendarDate {
    /// The date exists and its year is within the range of the calendar.
    pub open spec fn valid(self) -> bool {
        &&& -262143 <= self.year <= 262142
        &&& 1 <= self.month <= 12
        &&& 1 <= self.day <= days_in_month(self.year as int, self.month as int)
    }

    /// `self` comes before `other`.
    pub open spec fn earlier(self, other: CalendarDate) -> bool {
        ||| self.year < other.year
        ||| self.year == other.year && self.month < other.month
        ||| self.year == other.year && self.month == other.month && self.day < other.day
    }

    /// The day after `self`.
    pub open spec fn next(self) -> CalendarDate {
        if self.day < days_in_month(self.year as int, self.month as int) {
            CalendarDate { year: self.year, month: self.month, day: (self.day + 1) as u32 }
        } else if self.month < 12 {
            CalendarDate { year: self.year, month: (self.month + 1) as u32, day: 1 }
        } else {
            CalendarDate { year: (self.year + 1) as i32, month: 1, day: 1 }
        }
    }

    pub fn is_earlier(self, other: CalendarDate) -> (r: bool)
        ensures
            r == self.earlier(other),
    {
        if self.year != other.year {
            self.year < other.year
        } else if self.month != other.month {
            self.month < other.month
        } else {
            self.day < other.day
        }
    }
}

/// What `chrono::NaiveDate::parse_from_str` reads from a text by a format.
pub uninterp spec fn date_by_format(value: Seq<char>, format: Seq<char>) -> Option<CalendarDate>;

/// `chrono::NaiveDate::parse_from_str`, as year, month and day; `None` where it
/// reports an error. What it reads is a function of the two texts, and what it
/// returns is a date of the calendar.
#[verifier::external_body]
fn parse_date(value: &str, format: &str) -> (r: Option<CalendarDate>)
    ensures
        r == date_by_format(value@, format@),
        r matches Some(date) ==> date.valid(),
{
    chrono::NaiveDate::parse_from_str(value, format).ok().map(
        |d| CalendarDate { year: d.year(), month: d.month(), day: d.day() },
    )
}

/// The local date of what `chrono::DateTime::parse_from_rfc3339` reads.
pub uninterp spec fn rfc3339_date(value: Seq<char>) -> Option<CalendarDate>;

/// `chrono::DateTime::parse_from_rfc3339` and the date in the offset that the
/// text gives; `None` where the text is not read. What is read is a function of
/// the text, and it is a date of the calendar.
#[verifier::external_body]
fn parse_rfc3339_date(value: &str) -> (r: Option<CalendarDate>)
    ensures
        r == rfc3339_date(value@),
        r matches Some(date) ==> date.valid(),
{
    chrono::DateTime::parse_from_rfc3339(value).ok().map(|t| t.date_naive()).map(
        |d| CalendarDate { year: d.year(), month: d.month(), day: d.day() },
    )
}

/// `n` in decimal with zeros in front up to `width` digits.
pub open spec fn padded(n: nat, width: nat) -> Seq<char> {
    let digits = text::decimal(n);
    if digits.len() >= width {
        digits
    } else {
        Seq::new((width - digits.len()) as nat, |i: int| '0') + digits
    }
}

/// The year of a full date: four digits at least, with a sign where it is
/// outside of 0 to 9999.
pub open spec fn year_text(year: int) -> Seq<char> {
    if 0 <= year <= 9999 {
        padded(year as nat, 4)
    } else if year > 9999 {
        seq!['+'] + padded(year as nat, 4)
    } else {
        seq!['-'] + padded((-year) as nat, 4)
    }
}

pub open spec fn full_date_text(date: CalendarDate) -> Seq<char> {
    year_text(date.year as int) + seq!['-'] + padded(date.month as nat, 2) + seq!['-'] + padded(
        date.day as nat,
        2,
    )
}

/// `chrono::NaiveDate::format` of a date by the full-date format: the year with
/// four digits at least and a sign outside of 0 to 9999, then month and day with
/// two digits each, `-` between them.
#[verifier::external_body]
fn format_date(date: CalendarDate, format: &str) -> (r: String)
    requires
        date.valid(),
        format@ == FULL_DATE_FORMAT@,
    ensures
        r@ == full_date_text(date),
{
    chrono::NaiveDate::from_ymd_opt(date.year, date.month, date.day).unwrap().format(
        format,
    ).to_string()
}

/// The text of a date: year, month and day.
pub fn date_label(date: CalendarDate) -> (r: String)
    requires
        date.valid(),
    ensures
        r@ == full_date_text(date),
{
    format_date(date, FULL_DATE_FORMAT)
}

/// A full date, where `value` is one.
pub fn parse_full_date(value: &str) -> (r: Option<CalendarDate>)
    ensures
        r == date_by_format(value@, FULL_DATE_FORMAT@),
        r matches Some(date) ==> date.valid(),
{
    parse_date(value, FULL_DATE_FORMAT)
}

/// The date of an occurrence: of a timestamp, or else a full date.
pub open spec fn occurred_date(
    timestamp: Option<CalendarDate>,
    full_date: Option<CalendarDate>,
) -> Option<CalendarDate> {
    if timestamp is Some {
        timestamp
    } else {
        full_date
    }
}

/// The date on which a fact occurred.
pub fn parse_fact_occurred_date(value: &str) -> (r: Option<CalendarDate>)
    ensures
        r == occurred_date(rfc3339_date(value@), date_by_format(value@, FULL_DATE_FORMAT@)),
        r matches Some(date) ==> date.valid(),
{
    let timestamp = parse_rfc3339_date(value);
    if timestamp.is_some() {
        timestamp
    } else {
        parse_full_date(value)
    }
}

pub open spec fn is_digit(c: char) -> bool {
    '0' <= c <= '9'
}

/// The number that decimal digits write, most significant first.
pub open spec fn digits_value(s: Seq<char>) -> nat
    decreases s.len(),
{
    if s.len() == 0 {
        0
    } else {
        digits_value(s.drop_last()) * 10 + ((s.last() as u32 - 48) as nat)
    }
}

pub open spec fn all_digits(s: Seq<char>) -> bool {
    s.len() > 0 && forall|i: int| 0 <= i < s.len() ==> is_digit(#[trigger] s[i])
}

/// The number that `s` writes: digits, at least one, after an optional `+`.
pub open spec fn number_text(s: Seq<char>) -> Option<nat> {
    let digits = if s.len() > 0 && s[0] == '+' {
        s.drop_first()
    } else {
        s
    };
    if all_digits(digits) {
        Some(digits_value(digits))
    } else {
        None
    }
}

/// Reads a number of at most four characters.
fn read_number(s: &[char]) -> (r: Option<u32>)
    requires
        s@.len() <= 4,
    ensures
        match r {
            Some(n) => number_text(s@) == Some(n as nat) && n <= 9999,
            None => number_text(s@) is None,
        },
{
    let n: usize = s.len();
    let start: usize = if n > 0 && s[0] == '+' {
        1
    } else {
        0
    };
    let ghost digits = s@.skip(start as int);
    assert(start == 0 ==> digits == s@);
    assert(start == 1 ==> digits == s@.drop_first());
    if start == n {
        return None;
    }
    let mut value: u32 = 0;
    let mut i: usize = start;
    while i < n
        invariant
            start <= i <= n,
            n == s@.len() <= 4,
            start <= 1,
            start == 1 <==> s@[0] == '+',
            digits == s@.skip(start as int),
            forall|k: int| 0 <= k < i - start ==> is_digit(#[trigger] digits[k]),
            value == digits_value(digits.take(i - start)),
            i == start ==> value == 0,
            i == start + 1 ==> value <= 9,
            i == start + 2 ==> value <= 99,
            i == start + 3 ==> value <= 999,
            i == start + 4 ==> value <= 9999,
        decreases n - i,
    {
        let c: char = s[i];
        assert(digits[i - start] == c);
        if !('0' <= c && c <= '9') {
            assert(!is_digit(digits[i - start]));
            assert(start == 0 ==> digits == s@);
            assert(start == 1 ==> digits == s@.drop_first());
            return None;
        }
        assert(digits.take(i - start + 1).drop_last() == digits.take(i - start));
        value = value * 10 + (c as u32 - 48);
        i = i + 1;
    }
    assert(digits.take(n - start) == digits);
    Some(value)
}

/// The pieces before and after the only `-` of `s`, where it has exactly one.
pub open spec fn around_dash(s: Seq<char>) -> Option<(Seq<char>, Seq<char>)> {
    let pieces = text::split(s, text::Separator::Char('-'));
    if pieces.len() == 2 {
        Some((pieces[0], pieces[1]))
    } else {
        None
    }
}

/// The month that `value` names: four bytes of year, `-`, two bytes of month.
pub open spec fn month_text(value: Seq<char>) -> Option<(nat, nat)> {
    match around_dash(value) {
        None => None,
        Some((year, month)) => if text::utf8_len(year) != 4 || text::utf8_len(month) != 2 {
            None
        } else {
            match (number_text(year), number_text(month)) {
                (Some(y), Some(m)) => if 1 <= m <= 12 {
                    Some((y, m))
                } else {
                    None
                },
                _ => None,
            }
        },
    }
}

/// A boundary of a time range: a full date stands for itself; a month stands
/// for its first day at the start of a range and for its last day at the end.
pub open spec fn time_boundary(
    full_date: Option<CalendarDate>,
    value: Seq<char>,
    is_start: bool,
) -> Option<CalendarDate> {
    match full_date {
        Some(date) => Some(date),
        None => match month_text(value) {
            None => None,
            Some((year, month)) => Some(
                CalendarDate {
                    year: year as i32,
                    month: month as u32,
                    day: if is_start {
                        1
                    } else {
                        days_in_month(year as int, month as int) as u32
                    },
                },
            ),
        },
    }
}

proof fn char_width(s: Seq<char>)
    ensures
        s.len() <= text::utf8_len(s),
    decreases s.len(),
{
    if s.len() > 0 {
        char_width(s.drop_first());
    }
}

fn month_length(year: u32, month: u32) -> (r: u32)
    requires
        year <= 9999,
        1 <= month <= 12,
    ensures
        r == days_in_month(year as int, month as int),
{
    if month == 2 {
        if year % 4 == 0 && (year % 100 != 0 || year % 400 == 0) {
            29
        } else {
            28
        }
    } else if month == 4 || month == 6 || month == 9 || month == 11 {
        30
    } else {
        31
    }
}

/// The boundary that a text names when it was read as `full_date`.
pub fn boundary_from(full_date: Option<CalendarDate>, value: &str, is_start: bool) -> (r: Option<
    CalendarDate,
>)
    ensures
        r == time_boundary(full_date, value@, is_start),
{
    if full_date.is_some() {
        return full_date;
    }
    let pieces = text::split_chars(text::chars_of(value).as_slice(), text::Separator::Char('-'));
    let ghost all = text::split(value@, text::Separator::Char('-'));
    if pieces.len() != 2 {
        return None;
    }
    assert(all[0] == pieces@[0]@);
    assert(all[1] == pieces@[1]@);
    if text::byte_len(pieces[0].as_str()) != 4 || text::byte_len(pieces[1].as_str()) != 2 {
        return None;
    }
    let year_chars = text::chars_of(pieces[0].as_str());
    let month_chars = text::chars_of(pieces[1].as_str());
    proof {
        char_width(year_chars@);
        char_width(month_chars@);
    }
    match (read_number(year_chars.as_slice()), read_number(month_chars.as_slice())) {
        (Some(year), Some(month)) => {
            if month < 1 || month > 12 {
                return None;
            }
            let day: u32 = if is_start {
                1
            } else {
                month_length(year, month)
            };
            Some(CalendarDate { year: year as i32, month, day })
        },
        _ => None,
    }
}

/// Reads a boundary of a time range.
pub fn parse_time_boundary(value: &str, is_start: bool) -> (r: Option<CalendarDate>)
    ensures
        r == time_boundary(date_by_format(value@, FULL_DATE_FORMAT@), value@, is_start),
{
    boundary_from(parse_full_date(value), value, is_start)
}

proof fn digits_value_bound(s: Seq<char>)
    requires
        s.len() <= 4,
        forall|i: int| 0 <= i < s.len() ==> is_digit(#[trigger] s[i]),
    ensures
        s.len() == 0 ==> digits_value(s) == 0,
        s.len() == 1 ==> digits_value(s) <= 9,
        s.len() == 2 ==> digits_value(s) <= 99,
        s.len() == 3 ==> digits_value(s) <= 999,
        digits_value(s) <= 9999,
    decreases s.len(),
{
    if s.len() > 0 {
        assert(is_digit(s[s.len() - 1]));
        digits_value_bound(s.drop_last());
    }
}

/// A month as the start and as the end of a range covers the month: its first
/// day is not after its last, and the day after its last is the first day of
/// the month that follows.
pub proof fn month_boundaries_cover_the_month(value: Seq<char>)
    requires
        month_text(value) is Some,
    ensures
        ({
            let first = time_boundary(None, value, true)->0;
            let last = time_boundary(None, value, false)->0;
            let (year, month) = month_text(value)->0;
            &&& first.valid() && last.valid()
            &&& first.day == 1 && !last.earlier(first)
            &&& first.year == last.year == year && first.month == last.month == month
            &&& last.next().day == 1 && last.earlier(last.next())
        }),
{
    let (year, month) = around_dash(value)->0;
    char_width(year);
    let digits = if year.len() > 0 && year[0] == '+' {
        year.drop_first()
    } else {
        year
    };
    digits_value_bound(digits);
}

// Numbers, days and months

/// A number is written in digits that write this number, with no zero in front.
pub proof fn decimals_write_their_numbers(n: nat)
    ensures
        all_digits(text::decimal(n)),
        digits_value(text::decimal(n)) == n,
        n > 0 ==> text::decimal(n)[0] != '0',
        n < 10 ==> text::decimal(n).len() == 1,
        n >= 10 ==> text::decimal(n).len() >= 2,
        n < 100 ==> text::decimal(n).len() <= 2,
        n < 10000 ==> text::decimal(n).len() <= 4,
    decreases n,
{
    let s = text::decimal(n);
    let last = n % 10;
    assert(text::digit(last) as u32 == 48 + last);
    if n < 10 {
        assert(s.drop_last() =~= Seq::<char>::empty());
        assert(digits_value(s.drop_last()) == 0);
        assert(s.last() == text::digit(n));
    } else {
        decimals_write_their_numbers(n / 10);
        let front = text::decimal(n / 10);
        assert(s.drop_last() =~= front);
        assert(s.last() == text::digit(last));
        assert forall|i: int| 0 <= i < s.len() implies is_digit(#[trigger] s[i]) by {
            if i < front.len() {
                assert(s[i] == front[i]);
            }
        }
        three_digits(n);
    }
}

proof fn three_digits(n: nat)
    requires
        10 <= n,
    ensures
        n < 100 ==> text::decimal(n).len() == 2,
        n < 1000 ==> text::decimal(n).len() <= 3,
        n < 10000 ==> text::decimal(n).len() <= 4,
    decreases n,
{
    if n < 100 {
        assert(text::decimal(n / 10).len() == 1);
    } else {
        three_digits(n / 10);
    }
}

/// Zeros in front fill up the width and leave the number as it is.
pub proof fn zeros_in_front_add_nothing(n: nat, width: nat)
    ensures
        all_digits(padded(n, width)),
        digits_value(padded(n, width)) == n,
        padded(n, width).len() >= width,
        text::decimal(n).len() <= width ==> padded(n, width).len() == width,
        number_text(padded(n, width)) == Some(n),
{
    decimals_write_their_numbers(n);
    let digits = text::decimal(n);
    let s = padded(n, width);
    if digits.len() < width {
        let zeros = Seq::new((width - digits.len()) as nat, |i: int| '0');
        zeros_count_for_nothing(zeros, digits);
        assert forall|i: int| 0 <= i < s.len() implies is_digit(#[trigger] s[i]) by {
            if i >= zeros.len() {
                assert(s[i] == digits[i - zeros.len()]);
            }
        }
    }
    assert(is_digit(s[0]));
}

proof fn zeros_count_for_nothing(zeros: Seq<char>, digits: Seq<char>)
    requires
        forall|i: int| 0 <= i < zeros.len() ==> #[trigger] zeros[i] == '0',
    ensures
        digits_value(zeros + digits) == digits_value(digits),
    decreases zeros.len() + digits.len(),
{
    let s = zeros + digits;
    if digits.len() > 0 {
        zeros_count_for_nothing(zeros, digits.drop_last());
        assert(s.drop_last() =~= zeros + digits.drop_last());
        assert(s.last() == digits.last());
    } else if zeros.len() > 0 {
        let fewer = zeros.drop_last();
        assert forall|i: int| 0 <= i < fewer.len() implies #[trigger] fewer[i] == '0' by {
            assert(fewer[i] == zeros[i]);
        }
        zeros_count_for_nothing(fewer, digits);
        assert(s.drop_last() =~= fewer + digits);
        assert(s.last() == zeros[zeros.len() - 1]);
    } else {
        assert(s =~= digits);
    }
}

proof fn ascii_width(s: Seq<char>)
    requires
        forall|i: int| 0 <= i < s.len() ==> is_digit(#[trigger] s[i]),
    ensures
        text::utf8_len(s) == s.len(),
{
    assert(vstd::utf8::is_ascii_chars(s)) by {
        assert forall|i: int| 0 <= i < s.len() implies '\0' <= #[trigger] s[i] <= '\u{7f}' by {
            assert(is_digit(s[i]));
        }
    }
    vstd::utf8::is_ascii_chars_encode_utf8(s);
}

/// A month that is written as year and month is read as that month: as the start
/// of a range it stands for its first day, as the end for its last. What is no
/// month is no boundary, and a full date stands for itself on either side.
pub proof fn months_are_read_as_written(
    year: nat,
    month: nat,
    date: CalendarDate,
    is_start: bool,
    value: Seq<char>,
)
    requires
        year <= 9999,
        1 <= month <= 12,
    ensures
        ({
            let written = padded(year, 4) + seq!['-'] + padded(month, 2);
            &&& month_text(written) == Some((year, month))
            &&& time_boundary(None, written, true) == Some(
                CalendarDate { year: year as i32, month: month as u32, day: 1 },
            )
            &&& time_boundary(None, written, false) == Some(
                CalendarDate {
                    year: year as i32,
                    month: month as u32,
                    day: days_in_month(year as int, month as int) as u32,
                },
            )
        }),
        time_boundary(Some(date), value, is_start) == Some(date),
        month_text(value) is None ==> time_boundary(None, value, is_start) is None,
{
    let y = padded(year, 4);
    let m = padded(month, 2);
    let by = text::Separator::Char('-');
    zeros_in_front_add_nothing(year, 4);
    zeros_in_front_add_nothing(month, 2);
    decimals_write_their_numbers(year);
    decimals_write_their_numbers(month);
    ascii_width(y);
    ascii_width(m);
    assert(text::unseparated(y, by)) by {
        assert forall|i: int| 0 <= i < y.len() implies !text::separates(by, #[trigger] y[i]) by {
            assert(is_digit(y[i]));
        }
    }
    assert(text::unseparated(m, by)) by {
        assert forall|i: int| 0 <= i < m.len() implies !text::separates(by, #[trigger] m[i]) by {
            assert(is_digit(m[i]));
        }
    }
    text::split_behind_a_part(y, '-', m, by);
    text::split_of_one(m, by);
    assert(seq![y] + seq![m] =~= seq![y, m]);
}

/// The months have their lengths: seven have 31 days, four have 30, and the
/// second has 29 in a leap year and 28 otherwise. A leap year is every fourth
/// year, but of the hundreds only every fourth.
pub proof fn months_have_their_lengths(year: int, month: int)
    requires
        1 <= month <= 12,
    ensures
        days_in_month(year, month) == 31 <==> month == 1 || month == 3 || month == 5 || month == 7
            || month == 8 || month == 10 || month == 12,
        days_in_month(year, month) == 30 <==> month == 4 || month == 6 || month == 9 || month == 11,
        days_in_month(year, month) == 29 <==> month == 2 && leap_year(year),
        28 <= days_in_month(year, month) <= 31,
        year % 100 != 0 ==> (leap_year(year) <==> year % 4 == 0),
        year % 100 == 0 ==> (leap_year(year) <==> year % 400 == 0),
{
}

/// Of two different days one is earlier, and not the other; earlier than earlier
/// is earlier; and no day lies between a day and the next.
pub proof fn days_are_in_order(a: CalendarDate, b: CalendarDate, c: CalendarDate)
    ensures
        !a.earlier(a),
        a.earlier(b) || a == b || b.earlier(a),
        !(a.earlier(b) && b.earlier(a)),
        a.earlier(b) && b.earlier(c) ==> a.earlier(c),
        a.valid() && b.valid() && a.year < 262142 ==> a.next().valid() && a.earlier(a.next()) && !(
        a.earlier(b) && b.earlier(a.next())),
{
}

/// A date is written as its year, its month and its day, in four, two and two
/// digits, with dashes between them.
pub proof fn dates_are_written_in_full(date: CalendarDate)
    requires
        date.valid(),
        0 <= date.year <= 9999,
    ensures
        ({
            let s = full_date_text(date);
            &&& s.len() == 10
            &&& s[4] == '-' && s[7] == '-'
            &&& digits_value(s.subrange(0, 4)) == date.year
            &&& digits_value(s.subrange(5, 7)) == date.month
            &&& digits_value(s.subrange(8, 10)) == date.day
            &&& all_digits(s.subrange(0, 4)) && all_digits(s.subrange(5, 7)) && all_digits(
                s.subrange(8, 10),
            )
        }),
{
    let y = padded(date.year as nat, 4);
    let m = padded(date.month as nat, 2);
    let d = padded(date.day as nat, 2);
    decimals_write_their_numbers(date.year as nat);
    decimals_write_their_numbers(date.month as nat);
    decimals_write_their_numbers(date.day as nat);
    zeros_in_front_add_nothing(date.year as nat, 4);
    zeros_in_front_add_nothing(date.month as nat, 2);
    zeros_in_front_add_nothing(date.day as nat, 2);
    let s = full_date_text(date);
    assert(s.subrange(0, 4) =~= y);
    assert(s.subrange(5, 7) =~= m);
    assert(s.subrange(8, 10) =~= d);
}

/// A year outside of four digits has its sign before it.
pub proof fn far_years_have_a_sign(year: int)
    ensures
        0 <= year <= 9999 ==> year_text(year).len() == 4,
        year > 9999 ==> year_text(year)[0] == '+' && digits_value(year_text(year).skip(1)) == year,
        year < 0 ==> year_text(year)[0] == '-' && digits_value(year_text(year).skip(1)) == -year,
{
    if 0 <= year <= 9999 {
        decimals_write_their_numbers(year as nat);
        zeros_in_front_add_nothing(year as nat, 4);
    } else if year > 9999 {
        zeros_in_front_add_nothing(year as nat, 4);
        assert(year_text(year).skip(1) =~= padded(year as nat, 4));
    } else {
        zeros_in_front_add_nothing((-year) as nat, 4);
        assert(year_text(year).skip(1) =~= padded((-year) as nat, 4));
    }
}

/// A timestamp goes before a full date, and either is taken where it is alone.
pub proof fn timestamps_go_first(a: CalendarDate, b: Option<CalendarDate>)
    ensures
        occurred_date(Some(a), b) == Some(a),
        occurred_date(None, b) == b,
{
}

/// A number has at least one digit, nothing but digits, and at most one plus
/// before them.
pub proof fn numbers_are_digits(s: Seq<char>, i: int)
    ensures
        s.len() == 0 ==> number_text(s) is None,
        s.len() == 1 && s[0] == '+' ==> number_text(s) is None,
        0 <= i < s.len() && !('0' <= s[i] <= '9') && !(i == 0 && s[i] == '+') ==> number_text(s)
            is None,
        all_digits(s) ==> number_text(s) == Some(digits_value(s)) && number_text(seq!['+'] + s)
            == Some(digits_value(s)),
{
    if all_digits(s) {
        assert(is_digit(s[0]));
        assert((seq!['+'] + s).drop_first() =~= s);
    }
    if 0 <= i < s.len() && !('0' <= s[i] <= '9') && !(i == 0 && s[i] == '+') {
        let rest = s.drop_first();
        if s[0] == '+' {
            assert(rest[i - 1] == s[i]);
            assert(!is_digit(rest[i - 1]));
        } else {
            assert(!is_digit(s[i]));
        }
    }
}

} // verus!
