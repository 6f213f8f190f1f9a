//! What full object IDs and release names are, character by character.

use vstd::prelude::*;

use crate::calver;
use crate::laws::text;
use crate::model;

verus! {

/// Forty characters, each a digit or one of the letters from `a` to `f`.
pub open spec fn full_id(value: Seq<char>) -> bool {
    &&& value.len() == 40
    &&& forall|i: int|
        0 <= i < value.len() ==> '0' <= #[trigger] value[i] <= '9' || 'a' <= value[i] <= 'f'
}

/// Exactly the texts of forty lowercase hexadecimal digits are full object IDs.
pub proof fn law_full_ids_are_forty_hex_digits(value: Seq<char>)
    ensures
        model::sha40(value) <==> full_id(value),
{
    if full_id(value) {
        assert forall|i: int| 0 <= i < value.len() implies model::is_hex(#[trigger] value[i]) by {}
    }
    if model::sha40(value) {
        assert forall|i: int| 0 <= i < value.len() implies '0' <= #[trigger] value[i] <= '9' || 'a'
            <= value[i] <= 'f' by {
            assert(model::is_hex(value[i]));
        }
    }
}

/// Three texts with a dot between each two of them.
pub open spec fn with_dots(first: Seq<char>, second: Seq<char>, third: Seq<char>) -> Seq<char> {
    first + seq!['.'] + second + seq!['.'] + third
}

/// At least one ASCII digit, and nothing else.
pub open spec fn some_digits(value: Seq<char>) -> bool {
    value.len() > 0 && text::digits(value)
}

/// Three runs of ASCII digits with a dot between each two of them.
pub open spec fn release_name(value: Seq<char>) -> bool {
    exists|first: Seq<char>, second: Seq<char>, third: Seq<char>|
        value == #[trigger] with_dots(first, second, third) && some_digits(first) && some_digits(
            second,
        ) && some_digits(third)
}

/// Exactly the texts of three runs of digits, of any length and value, with a
/// dot between each two of them are release names.
pub proof fn law_release_names_are_three_numbers(value: Seq<char>)
    ensures
        calver::is_calver(value) <==> release_name(value),
{
    assert forall|part: Seq<char>| #[trigger] some_digits(part) == calver::numeric(part) by {
        if some_digits(part) {
            assert forall|i: int| 0 <= i < part.len() implies crate::text::is_digit(
                #[trigger] part[i],
            ) by {}
        }
        if calver::numeric(part) {
            assert forall|i: int| 0 <= i < part.len() implies '0' <= #[trigger] part[i] <= '9' by {
                assert(crate::text::is_digit(part[i]));
            }
        }
    }
    if release_name(value) {
        let (y, m, d) = choose|y: Seq<char>, m: Seq<char>, d: Seq<char>|
            value == #[trigger] with_dots(y, m, d) && some_digits(y) && some_digits(m)
                && some_digits(d);
        assert(value =~= calver::dotted(y, m, d));
    }
    if calver::is_calver(value) {
        let (y, m, d) = choose|y: Seq<char>, m: Seq<char>, d: Seq<char>|
            calver::numeric(y) && calver::numeric(m) && calver::numeric(d) && value
                == #[trigger] calver::dotted(y, m, d);
        assert(some_digits(y) && some_digits(m) && some_digits(d));
        assert(value =~= with_dots(y, m, d));
    }
}

/// A refused release name is told as it was given, between quotes.
pub proof fn law_other_names_are_refused(value: Seq<char>)
    ensures
        calver::calver_error(value) == if release_name(value) {
            None::<Seq<char>>
        } else {
            Some("invalid release CalVer "@ + crate::text::debug_text(value))
        },
{
    law_release_names_are_three_numbers(value);
}

/// A table is seen row by row, in its order.
pub proof fn law_rows_are_seen_in_order<T: View>(rows: Seq<T>)
    ensures
        model::views(rows).len() == rows.len(),
        forall|i: int| 0 <= i < rows.len() ==> #[trigger] model::views(rows)[i] == rows[i]@,
{
}

} // verus!
