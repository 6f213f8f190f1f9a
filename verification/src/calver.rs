//! CalVer release names: three numbers with dots between them.

use vstd::prelude::*;

use crate::text;

verus! {

/// A number as it stands in a release name: at least one digit and nothing else.
pub open spec fn numeric(part: Seq<char>) -> bool {
    part.len() > 0 && text::all_digits(part)
}

/// Three parts with dots between them.
pub open spec fn dotted(year: Seq<char>, month: Seq<char>, day: Seq<char>) -> Seq<char> {
    year + seq!['.'] + month + seq!['.'] + day
}

/// Whether a text is three numbers with dots between them.
pub open spec fn is_calver(value: Seq<char>) -> bool {
    exists|year: Seq<char>, month: Seq<char>, day: Seq<char>|
        numeric(year) && numeric(month) && numeric(day) && value == #[trigger] dotted(
            year,
            month,
            day,
        )
}

/// The parts of three numbers with dots between them are found by cutting at
/// the first dot twice.
proof fn lemma_dotted_parts(year: Seq<char>, month: Seq<char>, day: Seq<char>)
    requires
        numeric(year),
        numeric(month),
        numeric(day),
    ensures
        text::before(dotted(year, month, day), '.') == year,
        text::before(text::after(dotted(year, month, day), '.'), '.') == month,
        text::after(text::after(dotted(year, month, day), '.'), '.') == day,
{
    let value = dotted(year, month, day);
    let rest = month + seq!['.'] + day;
    assert forall|i: int| 0 <= i < year.len() implies value[i] != '.' by {
        assert(text::is_digit(year[i]));
    }
    assert(value[year.len() as int] == '.');
    text::lemma_place_of(value, '.', year.len() as int);
    assert(text::before(value, '.') =~= year);
    assert(text::after(value, '.') =~= rest);
    assert forall|i: int| 0 <= i < month.len() implies rest[i] != '.' by {
        assert(text::is_digit(month[i]));
    }
    assert(rest[month.len() as int] == '.');
    text::lemma_place_of(rest, '.', month.len() as int);
    assert(text::before(rest, '.') =~= month);
    assert(text::after(rest, '.') =~= day);
}

fn is_numeric(part: &str) -> (yes: bool)
    ensures
        yes == numeric(part@),
{
    let chars = text::chars_of(part);
    let mut i: usize = 0;
    while i < chars.len()
        invariant
            chars@ == part@,
            i <= chars@.len(),
            forall|k: int| 0 <= k < i ==> text::is_digit(#[trigger] part@[k]),
        decreases chars@.len() - i,
    {
        if !('0' <= chars[i] && chars[i] <= '9') {
            assert(!text::is_digit(part@[i as int]));
            return false;
        }
        i = i + 1;
    }
    chars.len() > 0
}

/// Decides whether a text is a CalVer release name.
pub fn valid_calver(value: &str) -> (valid: bool)
    ensures
        valid == is_calver(value@),
{
    let (year, rest) = text::cut(value, '.');
    let (month, day) = text::cut(rest, '.');
    let valid = is_numeric(year) && is_numeric(month) && is_numeric(day);
    proof {
        if is_calver(value@) {
            let (y, m, d) = choose|y: Seq<char>, m: Seq<char>, d: Seq<char>|
                numeric(y) && numeric(m) && numeric(d) && value@ == #[trigger] dotted(y, m, d);
            lemma_dotted_parts(y, m, d);
        }
        if valid {
            text::lemma_place_of_is_first(value@, '.');
            text::lemma_place_of_is_first(rest@, '.');
            assert(value@ =~= dotted(year@, month@, day@));
        }
    }
    valid
}

/// Why a text is refused as a release name: none for a CalVer release name.
pub open spec fn calver_error(value: Seq<char>) -> Option<Seq<char>> {
    if is_calver(value) {
        None
    } else {
        Some("invalid release CalVer "@ + text::debug_text(value))
    }
}

/// Refuses a text that is no CalVer release name.
pub fn validate_calver(value: &str) -> (result: Result<(), String>)
    ensures
        match result {
            Ok(_) => calver_error(value@) is None,
            Err(message) => calver_error(value@) == Some(message@),
        },
{
    if valid_calver(value) {
        Ok(())
    } else {
        Err(text::cat2("invalid release CalVer ", text::quoted(value).as_str()))
    }
}

} // verus!
