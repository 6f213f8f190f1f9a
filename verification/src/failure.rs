//! Checks that run over a list and stop at the first failure.

use vstd::prelude::*;

verus! {

/// The message of the first of the items `0..n` that fails its check, or none
/// when every item passes. `check` gives the message of a failing item.
pub open spec fn first_failure(n: int, check: spec_fn(int) -> Option<Seq<char>>) -> Option<
    Seq<char>,
>
    decreases n,
{
    if n <= 0 {
        None
    } else {
        match first_failure(n - 1, check) {
            Some(message) => Some(message),
            None => check(n - 1),
        }
    }
}

/// A failure among the first `m` items is the failure of the longer list too.
pub proof fn lemma_first_failure_stays(m: int, n: int, check: spec_fn(int) -> Option<Seq<char>>)
    requires
        m <= n,
        first_failure(m, check) is Some,
    ensures
        first_failure(n, check) == first_failure(m, check),
    decreases n - m,
{
    if m < n {
        lemma_first_failure_stays(m, n - 1, check);
    }
}

/// No item fails exactly where every item passes its check; a failure is that
/// of an item before which every item passes.
pub proof fn lemma_first_failure(n: int, check: spec_fn(int) -> Option<Seq<char>>)
    ensures
        first_failure(n, check) is None <==> forall|i: int|
            0 <= i < n ==> (#[trigger] check(i)) is None,
        first_failure(n, check) is Some ==> exists|i: int|
            0 <= i < n && #[trigger] check(i) == first_failure(n, check) && forall|j: int|
                0 <= j < i ==> (#[trigger] check(j)) is None,
    decreases n,
{
    if n > 0 {
        lemma_first_failure(n - 1, check);
        if first_failure(n - 1, check) is None {
            assert(check(n - 1) == first_failure(n, check));
        }
    }
}

} // verus!
