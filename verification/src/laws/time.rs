//! What UTC time stamps are, character by character, and what moments they name.

use vstd::prelude::*;

use crate::text;
use crate::time;

verus! {

/// Twenty characters: digits, but for `-` at places 4 and 7, `T` at place 10,
/// `:` at places 13 and 16 and `Z` at place 19.
pub open spec fn stamp(value: Seq<char>) -> bool {
    &&& value.len() == 20
    &&& forall|i: int|
        0 <= i < 20 ==> if i == 4 || i == 7 {
            #[trigger] value[i] == '-'
        } else if i == 10 {
            value[i] == 'T'
        } else if i == 13 || i == 16 {
            value[i] == ':'
        } else if i == 19 {
            value[i] == 'Z'
        } else {
            '0' <= value[i] <= '9'
        }
}

/// Exactly the texts of that shape are time stamps.
pub proof fn law_stamps_by_their_characters(value: Seq<char>)
    ensures
        time::is_stamp(value) <==> stamp(value),
{
    if time::is_stamp(value) {
        assert forall|i: int| 0 <= i < 20 implies if i == 4 || i == 7 {
            #[trigger] value[i] == '-'
        } else if i == 10 {
            value[i] == 'T'
        } else if i == 13 || i == 16 {
            value[i] == ':'
        } else if i == 19 {
            value[i] == 'Z'
        } else {
            '0' <= value[i] <= '9'
        } by {
            if time::is_digit_place(i) {
                assert(text::is_digit(value[i]));
            }
        }
    }
    if stamp(value) {
        assert(value[4] == '-' && value[7] == '-' && value[10] == 'T' && value[13] == ':'
            && value[16] == ':' && value[19] == 'Z');
        assert forall|i: int| time::is_digit_place(i) implies text::is_digit(
            #[trigger] value[i],
        ) by {}
    }
}

/// The two-digit number at a place.
pub open spec fn pair(value: Seq<char>, at: int) -> int {
    (value[at] as int - '0' as int) * 10 + (value[at + 1] as int - '0' as int)
}

/// The year of a time stamp.
pub open spec fn year(value: Seq<char>) -> int {
    pair(value, 0) * 100 + pair(value, 2)
}

/// Whether a year has 366 days.
pub open spec fn long_year(year: int) -> bool {
    year % 400 == 0 || (year % 4 == 0 && !(year % 100 == 0))
}

/// The days of a year that come before a month, in a year of 365 days.
pub open spec fn days_before(month: int) -> int {
    seq![0int, 31, 59, 90, 120, 151, 181, 212, 243, 273, 304, 334, 365][month - 1]
}

/// The length of a month.
pub open spec fn month_length(year: int, month: int) -> int {
    days_before(month + 1) - days_before(month) + if month == 2 && long_year(year) {
        1int
    } else {
        0int
    }
}

/// A time stamp with a date of the Gregorian calendar, not before 1970.
pub open spec fn dated(value: Seq<char>) -> bool {
    &&& stamp(value)
    &&& year(value) >= 1970
    &&& 1 <= pair(value, 5) <= 12
    &&& 1 <= pair(value, 8) <= month_length(year(value), pair(value, 5))
}

/// The days from the first day of 1970 to a date.
pub open spec fn day_number(year: int, month: int, day: int) -> int {
    let past = year - 1;
    (year - 1970) * 365 + (past / 4 - past / 100 + past / 400 - 477) + days_before(month) + if month
        > 2 && long_year(year) {
        1int
    } else {
        0int
    } + day - 1
}

/// The seconds from the start of 1970 to the moment of a time stamp.
pub open spec fn moment(value: Seq<char>) -> int {
    day_number(year(value), pair(value, 5), pair(value, 8)) * 86400 + pair(value, 11) * 3600 + pair(
        value,
        14,
    ) * 60 + pair(value, 17)
}

proof fn lemma_past_years(y: int)
    requires
        y >= 1970,
    ensures
        time::days_before_year(y) == (y - 1970) * 365 + ((y - 1) / 4 - (y - 1) / 100 + (y - 1) / 400
            - 477),
    decreases y,
{
    if y > 1970 {
        lemma_past_years(y - 1);
    }
}

proof fn lemma_past_months(y: int, month: int)
    requires
        1 <= month <= 12,
    ensures
        time::days_before_month(y, month) == days_before(month) + if month > 2 && long_year(y) {
            1int
        } else {
            0int
        },
        time::month_days(y, month) == month_length(y, month),
{
    reveal_with_fuel(time::days_before_month, 13);
}

proof fn lemma_pair(value: Seq<char>, at: int)
    requires
        0 <= at,
        at + 2 <= value.len(),
    ensures
        time::number(value.subrange(at, at + 2)) == pair(value, at),
{
    reveal_with_fuel(time::number, 3);
    let part = value.subrange(at, at + 2);
    assert(part.last() == value[at + 1]);
    assert(part.drop_last().last() == value[at]);
    assert(part.drop_last().drop_last().len() == 0);
}

proof fn lemma_year(value: Seq<char>)
    requires
        value.len() == 20,
    ensures
        time::number(value.subrange(0, 4)) == year(value),
{
    reveal_with_fuel(time::number, 5);
    let part = value.subrange(0, 4);
    assert(part.last() == value[3]);
    assert(part.drop_last().last() == value[2]);
    assert(part.drop_last().drop_last().last() == value[1]);
    assert(part.drop_last().drop_last().drop_last().last() == value[0]);
    assert(part.drop_last().drop_last().drop_last().drop_last().len() == 0);
}

/// A time stamp names a moment exactly where its date is one of the Gregorian
/// calendar, not before 1970. The moment is counted in days of 86400 seconds,
/// with the leap years counted by division.
pub proof fn law_stamps_name_moments(value: Seq<char>)
    ensures
        time::seconds_of(value) == if dated(value) {
            Some(moment(value))
        } else {
            None::<int>
        },
{
    law_stamps_by_their_characters(value);
    if stamp(value) {
        lemma_year(value);
        lemma_pair(value, 5);
        lemma_pair(value, 8);
        lemma_pair(value, 11);
        lemma_pair(value, 14);
        lemma_pair(value, 17);
        let (y, m) = (year(value), pair(value, 5));
        if y >= 1970 && 1 <= m <= 12 {
            lemma_past_years(y);
            lemma_past_months(y, m);
        }
    }
}

/// Leap years come every fourth year, but for the centuries that four hundred
/// does not divide. Months have 30 or 31 days, but for February.
pub proof fn law_calendar(year: int, month: int)
    ensures
        time::leap(year) <==> long_year(year),
        1 <= month <= 12 ==> time::month_days(year, month) == month_length(year, month),
        !(1 <= month <= 12) ==> time::month_days(year, month) == 31,
{
    if 1 <= month <= 12 {
        lemma_past_months(year, month);
    }
}

} // verus!
