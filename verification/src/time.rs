//! UTC time stamps of the form `YYYY-MM-DDThh:mm:ssZ` and their seconds since
//! the start of 1970.

use vstd::prelude::*;

use crate::text;

verus! {

/// Whether place `i` of a time stamp holds a digit.
pub open spec fn is_digit_place(i: int) -> bool {
    0 <= i < 19 && i != 4 && i != 7 && i != 10 && i != 13 && i != 16
}

/// The shape of a time stamp: `YYYY-MM-DDThh:mm:ssZ` with any digits.
pub open spec fn is_stamp(text: Seq<char>) -> bool {
    &&& text.len() == 20
    &&& text[4] == '-'
    &&& text[7] == '-'
    &&& text[10] == 'T'
    &&& text[13] == ':'
    &&& text[16] == ':'
    &&& text[19] == 'Z'
    &&& forall|i: int| is_digit_place(i) ==> text::is_digit(#[trigger] text[i])
}

/// Checks the shape of a time stamp.
pub fn looks_rfc3339_utc(value: &str) -> (looks: bool)
    ensures
        looks == is_stamp(value@),
{
    let chars = text::chars_of(value);
    if chars.len() != 20 || chars[4] != '-' || chars[7] != '-' || chars[10] != 'T' || chars[13]
        != ':' || chars[16] != ':' || chars[19] != 'Z' {
        return false;
    }
    let mut i: usize = 0;
    while i < 19
        invariant
            chars@ == value@,
            chars@.len() == 20,
            i <= 19,
            forall|k: int| 0 <= k < i && is_digit_place(k) ==> text::is_digit(#[trigger] value@[k]),
        decreases 19 - i,
    {
        if i != 4 && i != 7 && i != 10 && i != 13 && i != 16 && !('0' <= chars[i] && chars[i]
            <= '9') {
            assert(is_digit_place(i as int));
            return false;
        }
        i = i + 1;
    }
    true
}

/// Whether a year of the Gregorian calendar has a 29th of February.
pub open spec fn leap(year: int) -> bool {
    year % 4 == 0 && (year % 100 != 0 || year % 400 == 0)
}

/// The number of days of a month; every month out of range counts 31.
pub open spec fn month_days(year: int, month: int) -> int {
    if month == 2 {
        if leap(year) {
            29
        } else {
            28
        }
    } else if month == 4 || month == 6 || month == 9 || month == 11 {
        30
    } else {
        31
    }
}

/// A number and its negation have the same divisors.
proof fn lemma_negation_keeps_divisors(n: int, divisor: int)
    requires
        divisor > 0,
    ensures
        (-n) % divisor == 0 ==> n % divisor == 0,
{
    if (-n) % divisor == 0 {
        let q = (-n) / divisor;
        vstd::arithmetic::div_mod::lemma_fundamental_div_mod(-n, divisor);
        assert(n == (-q) * divisor) by (nonlinear_arith)
            requires
                -n == divisor * q,
        ;
        vstd::arithmetic::div_mod::lemma_mod_multiples_basic(-q, divisor);
    }
}

fn divides(divisor: i64, n: i64) -> (yes: bool)
    requires
        divisor > 0,
    ensures
        yes == (n as int % divisor as int == 0),
{
    proof {
        lemma_negation_keeps_divisors(n as int, divisor as int);
        lemma_negation_keeps_divisors(-(n as int), divisor as int);
        vstd::arithmetic::div_mod::lemma_mod_bound(-(n as int), divisor as int);
        vstd::arithmetic::div_mod::lemma_mod_bound(n as int, divisor as int);
    }
    n % divisor == 0
}

/// Decides whether a year is a leap year.
pub fn is_leap_year(year: i64) -> (yes: bool)
    ensures
        yes == leap(year as int),
{
    divides(4, year) && (!divides(100, year) || divides(400, year))
}

/// Counts the days of a month.
pub fn days_in_month(year: i64, month: i64) -> (days: i64)
    ensures
        days == month_days(year as int, month as int),
{
    match month {
        2 => if is_leap_year(year) {
            29
        } else {
            28
        },
        4 | 6 | 9 | 11 => 30,
        _ => 31,
    }
}

/// The number that a text of digits writes in decimal notation.
pub open spec fn number(digits: Seq<char>) -> int
    decreases digits.len(),
{
    if digits.len() == 0 {
        0
    } else {
        number(digits.drop_last()) * 10 + (digits.last() as int - '0' as int)
    }
}

/// The six numbers of a time stamp.
pub struct Stamp {
    pub year: int,
    pub month: int,
    pub day: int,
    pub hour: int,
    pub minute: int,
    pub second: int,
}

/// The numbers that stand in a time stamp.
pub open spec fn stamp_of(text: Seq<char>) -> Stamp {
    Stamp {
        year: number(text.subrange(0, 4)),
        month: number(text.subrange(5, 7)),
        day: number(text.subrange(8, 10)),
        hour: number(text.subrange(11, 13)),
        minute: number(text.subrange(14, 16)),
        second: number(text.subrange(17, 19)),
    }
}

/// The number of days of a year.
pub open spec fn year_days(year: int) -> int {
    if leap(year) {
        366
    } else {
        365
    }
}

/// The number of days from the start of 1970 to the start of `year`.
pub open spec fn days_before_year(year: int) -> int
    decreases year - 1970,
{
    if year <= 1970 {
        0
    } else {
        days_before_year(year - 1) + year_days(year - 1)
    }
}

/// The number of days from the start of `year` to the start of `month`.
pub open spec fn days_before_month(year: int, month: int) -> int
    decreases month,
{
    if month <= 1 {
        0
    } else {
        days_before_month(year, month - 1) + month_days(year, month - 1)
    }
}

impl Stamp {
    /// A date that the calendar has, not before 1970.
    pub open spec fn has_date(self) -> bool {
        &&& self.year >= 1970
        &&& 1 <= self.month <= 12
        &&& 1 <= self.day <= month_days(self.year, self.month)
    }

    /// A time of day that a clock shows.
    pub open spec fn has_clock_time(self) -> bool {
        self.hour < 24 && self.minute < 60 && self.second < 60
    }

    /// The number of days from the start of 1970 to the start of the date.
    pub open spec fn days(self) -> int {
        days_before_year(self.year) + days_before_month(self.year, self.month) + self.day - 1
    }

    /// The seconds of the time of day.
    pub open spec fn seconds_of_day(self) -> int {
        self.hour * 3600 + self.minute * 60 + self.second
    }

    /// The seconds from the start of 1970.
    pub open spec fn seconds(self) -> int {
        self.days() * 86400 + self.seconds_of_day()
    }
}

/// The seconds of a time stamp since the start of 1970: none unless the text
/// has the shape of a time stamp and a date that the calendar has. The time of
/// day is not held to the clock.
pub open spec fn seconds_of(text: Seq<char>) -> Option<int> {
    if is_stamp(text) && stamp_of(text).has_date() {
        Some(stamp_of(text).seconds())
    } else {
        None
    }
}

/// A number of at most four digits is below the power of ten of its length.
pub proof fn lemma_number_bound(digits: Seq<char>)
    requires
        text::all_digits(digits),
        digits.len() <= 4,
    ensures
        0 <= number(digits),
        digits.len() <= 2 ==> number(digits) < 100,
        number(digits) < 10000,
{
    reveal_with_fuel(number, 5);
}

fn number_at(chars: &Vec<char>, start: usize, end: usize) -> (value: i64)
    requires
        start <= end <= chars@.len(),
        end - start <= 4,
        text::all_digits(chars@.subrange(start as int, end as int)),
    ensures
        value == number(chars@.subrange(start as int, end as int)),
        0 <= value < 10000,
        end - start <= 2 ==> value < 100,
{
    let mut value: i64 = 0;
    let mut i: usize = start;
    while i < end
        invariant
            start <= i <= end <= chars@.len(),
            end - start <= 4,
            text::all_digits(chars@.subrange(start as int, end as int)),
            value == number(chars@.subrange(start as int, i as int)),
            0 <= value < 10000,
        decreases end - i,
    {
        let ghost whole = chars@.subrange(start as int, end as int);
        let ghost next = chars@.subrange(start as int, i + 1);
        proof {
            assert(whole[i - start] == chars@[i as int]);
            assert(next.drop_last() =~= chars@.subrange(start as int, i as int));
            assert forall|k: int| 0 <= k < next.len() implies text::is_digit(#[trigger] next[k]) by {
                assert(next[k] == whole[k]);
            }
            lemma_number_bound(next);
        }
        value = value * 10 + (chars[i] as u32 as i64 - '0' as u32 as i64);
        i = i + 1;
    }
    proof {
        lemma_number_bound(chars@.subrange(start as int, end as int));
    }
    value
}

/// Computes the seconds of a time stamp since the start of 1970.
pub fn utc_seconds(value: &str) -> (seconds: Option<i64>)
    ensures
        match seconds {
            Some(s) => seconds_of(value@) == Some(s as int) && 0 <= s < 300_000_000_000,
            None => seconds_of(value@) is None,
        },
{
    if !looks_rfc3339_utc(value) {
        return None;
    }
    let chars = text::chars_of(value);
    proof {
        assert forall|a: int, b: int|
            0 <= a <= b <= 19 && (forall|k: int| a <= k < b ==> is_digit_place(k)) implies text::all_digits(
            #[trigger] value@.subrange(a, b),
        ) by {
            let part = value@.subrange(a, b);
            assert forall|k: int| 0 <= k < part.len() implies text::is_digit(#[trigger] part[k]) by {
                assert(is_digit_place(a + k));
                assert(part[k] == value@[a + k]);
            }
        }
    }
    let year = number_at(&chars, 0, 4);
    let month = number_at(&chars, 5, 7);
    let day = number_at(&chars, 8, 10);
    let hour = number_at(&chars, 11, 13);
    let minute = number_at(&chars, 14, 16);
    let second = number_at(&chars, 17, 19);
    if year < 1970 || month < 1 || month > 12 || day < 1 || day > days_in_month(year, month) {
        return None;
    }
    let mut days: i64 = 0;
    let mut current_year: i64 = 1970;
    while current_year < year
        invariant
            1970 <= current_year <= year < 10000,
            days == days_before_year(current_year as int),
            0 <= days <= 366 * (current_year - 1970),
        decreases year - current_year,
    {
        days = days + if is_leap_year(current_year) {
            366
        } else {
            365
        };
        current_year = current_year + 1;
    }
    let ghost years = days;
    let mut current_month: i64 = 1;
    while current_month < month
        invariant
            1 <= current_month <= month <= 12,
            0 <= years <= 366 * 8030,
            days == years + days_before_month(year as int, current_month as int),
            0 <= days - years <= 31 * (current_month - 1),
        decreases month - current_month,
    {
        days = days + days_in_month(year, current_month);
        current_month = current_month + 1;
    }
    Some((days + day - 1) * 86_400 + hour * 3_600 + minute * 60 + second)
}

/// A year ends before any later year starts.
proof fn lemma_years_follow(year: int, later: int)
    requires
        1970 <= year < later,
    ensures
        days_before_year(year) + year_days(year) <= days_before_year(later),
    decreases later - year,
{
    if year < later - 1 {
        lemma_years_follow(year, later - 1);
    }
}

/// A month ends before any later month of its year starts; the twelfth ends
/// with the year.
proof fn lemma_months_follow(year: int, month: int, later: int)
    requires
        1 <= month < later <= 13,
    ensures
        days_before_month(year, month) + month_days(year, month) <= days_before_month(year, later),
        days_before_month(year, 13) == year_days(year),
    decreases later - month,
{
    reveal_with_fuel(days_before_month, 13);
    if month < later - 1 {
        lemma_months_follow(year, month, later - 1);
    }
}

impl Stamp {
    /// Whether `self` comes before `other` when year, month, day, hour, minute
    /// and second are compared in this order.
    pub open spec fn earlier(self, other: Stamp) -> bool {
        ||| self.year < other.year
        ||| self.year == other.year && {
            ||| self.month < other.month
            ||| self.month == other.month && {
                ||| self.day < other.day
                ||| self.day == other.day && {
                    ||| self.hour < other.hour
                    ||| self.hour == other.hour && {
                        ||| self.minute < other.minute
                        ||| self.minute == other.minute && self.second < other.second
                    }
                }
            }
        }
    }

    /// No number of a time stamp is negative.
    pub open spec fn non_negative(self) -> bool {
        self.hour >= 0 && self.minute >= 0 && self.second >= 0
    }
}

proof fn lemma_earlier_has_fewer_seconds(a: Stamp, b: Stamp)
    requires
        a.has_date(),
        b.has_date(),
        a.has_clock_time(),
        b.has_clock_time(),
        a.non_negative(),
        b.non_negative(),
        a.earlier(b),
    ensures
        a.seconds() < b.seconds(),
{
    if a.year < b.year {
        lemma_years_follow(a.year, b.year);
        lemma_months_follow(a.year, a.month, 13);
        lemma_months_follow(b.year, 1, 13);
        if b.month > 1 {
            lemma_months_follow(b.year, 1, b.month);
        }
        assert(a.days() < b.days());
    } else if a.month < b.month {
        lemma_months_follow(a.year, a.month, b.month);
        assert(a.days() < b.days());
    }
}

/// Digits of one length are ordered as the numbers that they write.
proof fn lemma_number_order(a: Seq<char>, b: Seq<char>)
    requires
        a.len() == b.len(),
        text::all_digits(a),
        text::all_digits(b),
    ensures
        text::sorts_before(a, b) <==> number(a) < number(b),
        a == b <==> number(a) == number(b),
    decreases a.len(),
{
    if a.len() == 0 {
        assert(a =~= b);
    } else {
        let (x, y) = (a.drop_last(), b.drop_last());
        assert forall|i: int| 0 <= i < x.len() implies text::is_digit(#[trigger] x[i]) by {
            assert(x[i] == a[i]);
        }
        assert forall|i: int| 0 <= i < y.len() implies text::is_digit(#[trigger] y[i]) by {
            assert(y[i] == b[i]);
        }
        lemma_number_order(x, y);
        let (u, v) = (seq![a.last()], seq![b.last()]);
        assert(a =~= x + u);
        assert(b =~= y + v);
        text::lemma_sorts_before_concat(x, u, y, v);
        assert(text::sorts_before(u, v) == (u[0] < v[0])) by {
            if u[0] == v[0] {
                assert(u =~= v);
                text::lemma_sorts_before_irreflexive(u);
            }
        }
        assert(text::is_digit(a.last()) && text::is_digit(b.last()));
        if number(a) == number(b) {
            assert(x == y && u =~= v);
        }
    }
}

/// The order of two time stamps from place `from` on: by the digits up to
/// place `to`, then, past the separator there, by what follows.
proof fn lemma_stamp_order_from(a: Seq<char>, b: Seq<char>, from: int, to: int)
    requires
        is_stamp(a),
        is_stamp(b),
        0 <= from < to < 20,
        to - from <= 4,
        !is_digit_place(to),
        forall|i: int| from <= i < to ==> is_digit_place(i),
    ensures
        text::sorts_before(a.subrange(from, 20), b.subrange(from, 20)) <==> {
            let m = number(a.subrange(from, to));
            let n = number(b.subrange(from, to));
            m < n || (m == n && text::sorts_before(
                a.subrange(to + 1, 20),
                b.subrange(to + 1, 20),
            ))
        },
        number(a.subrange(from, to)) >= 0,
{
    let (x, y) = (a.subrange(from, to), b.subrange(from, to));
    let (u, v) = (a.subrange(to, to + 1), b.subrange(to, to + 1));
    let (p, q) = (a.subrange(to + 1, 20), b.subrange(to + 1, 20));
    assert forall|i: int| 0 <= i < x.len() implies text::is_digit(#[trigger] x[i]) by {
        assert(is_digit_place(from + i));
        assert(x[i] == a[from + i]);
    }
    assert forall|i: int| 0 <= i < y.len() implies text::is_digit(#[trigger] y[i]) by {
        assert(is_digit_place(from + i));
        assert(y[i] == b[from + i]);
    }
    lemma_number_order(x, y);
    assert(u =~= v);
    assert(a.subrange(from, 20) =~= x + (u + p));
    assert(b.subrange(from, 20) =~= y + (v + q));
    text::lemma_sorts_before_concat(x, u + p, y, v + q);
    text::lemma_sorts_before_concat(u, p, v, q);
    text::lemma_sorts_before_irreflexive(u);
    lemma_number_bound(x);
}

/// The order of time stamps as texts is the order of their six numbers, none of
/// which is negative.
pub proof fn lemma_stamp_order(a: Seq<char>, b: Seq<char>)
    requires
        is_stamp(a),
        is_stamp(b),
    ensures
        text::sorts_before(a, b) <==> stamp_of(a).earlier(stamp_of(b)),
        stamp_of(a).non_negative(),
{
    assert(a.subrange(0, 20) =~= a);
    assert(b.subrange(0, 20) =~= b);
    lemma_stamp_order_from(a, b, 0, 4);
    lemma_stamp_order_from(a, b, 5, 7);
    lemma_stamp_order_from(a, b, 8, 10);
    lemma_stamp_order_from(a, b, 11, 13);
    lemma_stamp_order_from(a, b, 14, 16);
    lemma_stamp_order_from(a, b, 17, 19);
}

/// Time stamps sort as the moments that they name: of two stamps with a date
/// and a time of day on the clock, the one that comes first as a text is the
/// earlier one.
pub proof fn law_stamps_sort_by_time(a: Seq<char>, b: Seq<char>)
    requires
        seconds_of(a) is Some,
        seconds_of(b) is Some,
        stamp_of(a).has_clock_time(),
        stamp_of(b).has_clock_time(),
    ensures
        text::sorts_before(a, b) <==> seconds_of(a)->0 < seconds_of(b)->0,
{
    lemma_stamp_order(a, b);
    lemma_stamp_order(b, a);
    let (x, y) = (stamp_of(a), stamp_of(b));
    if x.earlier(y) {
        lemma_earlier_has_fewer_seconds(x, y);
    } else if y.earlier(x) {
        lemma_earlier_has_fewer_seconds(y, x);
    } else {
        assert(x == y);
    }
}

} // verus!
