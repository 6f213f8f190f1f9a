//! What holds of every live release check, whatever the mirrors answer.

use vstd::prelude::*;

use crate::agreement;
use crate::failure;
use crate::laws;
use crate::mirror;
use crate::model;
use crate::package;
use crate::release;
use crate::text;
use crate::tree;

verus! {

/// Where a check stands after it was given answers, in order. An answer that
/// comes after the end changes nothing.
pub open spec fn run(
    start: mirror::ProgressView,
    answers: Seq<Result<Seq<char>, Seq<char>>>,
) -> mirror::ProgressView
    decreases answers.len(),
{
    if answers.len() == 0 {
        start
    } else {
        match run(start, answers.drop_last()) {
            mirror::ProgressView::Ask(check) => mirror::answered(check, answers.last()),
            over => over,
        }
    }
}

/// Answer `j` told that the release tag of fork `k` points to the commit of the
/// release table.
pub open spec fn tag_confirmed(
    start: mirror::ProgressView,
    answers: Seq<Result<Seq<char>, Seq<char>>>,
    forks: Seq<release::ForkView>,
    k: int,
    j: int,
) -> bool {
    &&& 0 <= j < answers.len()
    &&& run(start, answers.take(j)) matches mirror::ProgressView::Ask(check) && {
        &&& check.trees.len() == k
        &&& check.forks == forks
        &&& check.phase !is Tree
    }
    &&& answers[j] matches Ok(answer) && {
        &&& mirror::object_kind(answer) == "commit"@
        &&& mirror::object_sha(answer) == forks[k].sha
    }
}

/// Answer `j` was the listing of a tree, and the question was for the tree of
/// fork `k` at the commit of the release table.
pub open spec fn tree_fetched(
    start: mirror::ProgressView,
    answers: Seq<Result<Seq<char>, Seq<char>>>,
    forks: Seq<release::ForkView>,
    k: int,
    j: int,
    blobs: Map<Seq<char>, Seq<char>>,
) -> bool {
    &&& 0 <= j < answers.len()
    &&& run(start, answers.take(j)) matches mirror::ProgressView::Ask(check) && {
        &&& check.trees.len() == k
        &&& check.forks == forks
        &&& check.phase is Tree
    }
    &&& answers[j] matches Ok(listing) && tree::listed_tree(
        forks[k].repository,
        forks[k].sha,
        listing,
    ) == Ok::<Map<Seq<char>, Seq<char>>, Seq<char>>(blobs)
}

/// Of fork `k`, the tag was confirmed and the tree was fetched.
pub open spec fn fork_checked(
    start: mirror::ProgressView,
    answers: Seq<Result<Seq<char>, Seq<char>>>,
    forks: Seq<release::ForkView>,
    declared: Seq<Seq<char>>,
    k: int,
    blobs: Map<Seq<char>, Seq<char>>,
) -> bool {
    &&& declared.contains(forks[k].repository)
    &&& model::sha40(forks[k].sha)
    &&& exists|j: int| tag_confirmed(start, answers, forks, k, j)
    &&& exists|j: int| tree_fetched(start, answers, forks, k, j, blobs)
}

/// What is known of an open check: the fork that it asks about is declared, its
/// tag is confirmed once its tree is asked for, and all forks before it are
/// checked.
pub open spec fn open_check(
    start: mirror::ProgressView,
    answers: Seq<Result<Seq<char>, Seq<char>>>,
    check: mirror::ForkCheckView,
    forks: Seq<release::ForkView>,
    declared: Seq<Seq<char>>,
    calver: Seq<char>,
) -> bool {
    &&& check.calver == calver
    &&& check.forks == forks
    &&& check.declared == declared
    &&& check.trees.len() < forks.len()
    &&& declared.contains(check.fork().repository)
    &&& check.phase is Tree ==> {
        &&& model::sha40(check.fork().sha)
        &&& exists|j: int| tag_confirmed(start, answers, forks, check.trees.len() as int, j)
    }
    &&& forall|k: int|
        0 <= k < check.trees.len() ==> fork_checked(
            start,
            answers,
            forks,
            declared,
            k,
            #[trigger] check.trees[k],
        )
}

/// One more answer keeps what the earlier ones confirmed.
proof fn lemma_answers_stay(
    start: mirror::ProgressView,
    answers: Seq<Result<Seq<char>, Seq<char>>>,
    forks: Seq<release::ForkView>,
    declared: Seq<Seq<char>>,
    k: int,
    blobs: Map<Seq<char>, Seq<char>>,
)
    requires
        answers.len() > 0,
    ensures
        (exists|j: int| tag_confirmed(start, answers.drop_last(), forks, k, j)) ==> (exists|j: int|
            tag_confirmed(start, answers, forks, k, j)),
        fork_checked(start, answers.drop_last(), forks, declared, k, blobs) ==> fork_checked(
            start,
            answers,
            forks,
            declared,
            k,
            blobs,
        ),
{
    let earlier = answers.drop_last();
    if exists|j: int| tag_confirmed(start, earlier, forks, k, j) {
        let j = choose|j: int| tag_confirmed(start, earlier, forks, k, j);
        assert(earlier.take(j) =~= answers.take(j));
        assert(tag_confirmed(start, answers, forks, k, j));
    }
    if exists|j: int| tree_fetched(start, earlier, forks, k, j, blobs) {
        let j = choose|j: int| tree_fetched(start, earlier, forks, k, j, blobs);
        assert(earlier.take(j) =~= answers.take(j));
        assert(tree_fetched(start, answers, forks, k, j, blobs));
    }
}

/// What a check has established when it is given answers: of an open check
/// what `open_check` says, of a passed one that every fork is checked.
pub open spec fn established(
    start: mirror::ProgressView,
    answers: Seq<Result<Seq<char>, Seq<char>>>,
    forks: Seq<release::ForkView>,
    declared: Seq<Seq<char>>,
    calver: Seq<char>,
    progress: mirror::ProgressView,
) -> bool {
    match progress {
        mirror::ProgressView::Ask(check) => open_check(
            start,
            answers,
            check,
            forks,
            declared,
            calver,
        ),
        mirror::ProgressView::Done(Ok(message)) => passed(
            start,
            answers,
            forks,
            declared,
            calver,
            message,
        ),
        mirror::ProgressView::Done(Err(_)) => true,
    }
}

/// A check passed: there is at least one fork, every fork is checked, and all
/// trees are the same tree, whose size the message gives.
pub open spec fn passed(
    start: mirror::ProgressView,
    answers: Seq<Result<Seq<char>, Seq<char>>>,
    forks: Seq<release::ForkView>,
    declared: Seq<Seq<char>>,
    calver: Seq<char>,
    message: Seq<char>,
) -> bool {
    exists|blobs: Map<Seq<char>, Seq<char>>|
        {
            &&& forks.len() > 0
            &&& forall|k: int|
                0 <= k < forks.len() ==> #[trigger] fork_checked(
                    start,
                    answers,
                    forks,
                    declared,
                    k,
                    blobs,
                )
            &&& message == #[trigger] mirror::equality_message(calver, forks.len(), blobs)
        }
}

/// Going on to the next fork, with every fork before it checked, establishes
/// what a check must establish.
proof fn lemma_next_fork(
    start: mirror::ProgressView,
    answers: Seq<Result<Seq<char>, Seq<char>>>,
    check: mirror::ForkCheckView,
    forks: Seq<release::ForkView>,
    declared: Seq<Seq<char>>,
    calver: Seq<char>,
)
    requires
        check.calver == calver,
        check.forks == forks,
        check.declared == declared,
        check.trees.len() <= forks.len(),
        forall|k: int|
            0 <= k < check.trees.len() ==> fork_checked(
                start,
                answers,
                forks,
                declared,
                k,
                #[trigger] check.trees[k],
            ),
    ensures
        established(start, answers, forks, declared, calver, mirror::next_fork(check)),
{
    let trees = check.trees;
    if trees.len() == forks.len() {
        if mirror::verdict(calver, forks, trees) is Ok {
            let checks = mirror::tree_checks(calver, forks, trees);
            failure::lemma_first_failure(trees.len() as int, checks);
            let blobs = trees[0];
            assert forall|k: int| 0 <= k < forks.len() implies trees[k] == blobs by {
                assert(checks(k) is None);
            }
            assert forall|k: int| 0 <= k < forks.len() implies #[trigger] fork_checked(
                start,
                answers,
                forks,
                declared,
                k,
                blobs,
            ) by {
                assert(trees[k] == blobs);
            }
            assert(mirror::verdict(calver, forks, trees) == Ok::<Seq<char>, Seq<char>>(
                mirror::equality_message(calver, forks.len(), blobs),
            ));
        }
    } else if declared.contains(check.fork().repository) {
        let next = mirror::ForkCheckView { phase: mirror::PhaseView::Tag, ..check };
        assert(next.fork() == check.fork());
    }
}

proof fn lemma_established(
    releases: Seq<release::ReleaseView>,
    declared: Seq<Seq<char>>,
    calver: Seq<char>,
    answers: Seq<Result<Seq<char>, Seq<char>>>,
)
    requires
        release::release_row(releases, calver) is Some,
    ensures
        established(
            mirror::started(releases, declared, calver),
            answers,
            release::release_row(releases, calver)->0.forks,
            declared,
            calver,
            run(mirror::started(releases, declared, calver), answers),
        ),
    decreases answers.len(),
{
    let start = mirror::started(releases, declared, calver);
    let forks = release::release_row(releases, calver)->0.forks;
    if answers.len() == 0 {
        let check = mirror::ForkCheckView {
            calver,
            forks,
            declared,
            phase: mirror::PhaseView::Tag,
            trees: Seq::empty(),
        };
        lemma_next_fork(start, answers, check, forks, declared, calver);
    } else {
        let earlier = answers.drop_last();
        let last = answers.len() - 1;
        lemma_established(releases, declared, calver, earlier);
        assert(answers.take(last) =~= earlier);
        match run(start, earlier) {
            mirror::ProgressView::Ask(check) => {
                let place = check.trees.len() as int;
                lemma_answers_stay(start, answers, forks, declared, place, Map::empty());
                assert forall|k: int| 0 <= k < place implies fork_checked(
                    start,
                    answers,
                    forks,
                    declared,
                    k,
                    #[trigger] check.trees[k],
                ) by {
                    lemma_answers_stay(start, answers, forks, declared, k, check.trees[k]);
                }
                match answers.last() {
                    Err(_) => {},
                    Ok(answer) => {
                        match check.phase {
                            mirror::PhaseView::Tree => {
                                match tree::listed_tree(
                                    check.fork().repository,
                                    check.fork().sha,
                                    answer,
                                ) {
                                    Err(_) => {},
                                    Ok(blobs) => {
                                        assert(tree_fetched(
                                            start,
                                            answers,
                                            forks,
                                            place,
                                            last,
                                            blobs,
                                        ));
                                        assert(fork_checked(
                                            start,
                                            answers,
                                            forks,
                                            declared,
                                            place,
                                            blobs,
                                        ));
                                        let next = mirror::ForkCheckView {
                                            trees: check.trees.push(blobs),
                                            ..check
                                        };
                                        assert forall|k: int|
                                            0 <= k < next.trees.len() implies fork_checked(
                                            start,
                                            answers,
                                            forks,
                                            declared,
                                            k,
                                            #[trigger] next.trees[k],
                                        ) by {
                                            if k < place {
                                                assert(next.trees[k] == check.trees[k]);
                                            }
                                        }
                                        lemma_next_fork(
                                            start,
                                            answers,
                                            next,
                                            forks,
                                            declared,
                                            calver,
                                        );
                                    },
                                }
                            },
                            _ => {
                                let kind = mirror::object_kind(answer);
                                let sha = mirror::object_sha(answer);
                                if kind == "commit"@ && sha == check.fork().sha {
                                    assert(tag_confirmed(start, answers, forks, place, last));
                                }
                            },
                        }
                    },
                }
            },
            mirror::ProgressView::Done(Ok(message)) => {
                let blobs = choose|blobs: Map<Seq<char>, Seq<char>>|
                    {
                        &&& forks.len() > 0
                        &&& forall|k: int|
                            0 <= k < forks.len() ==> #[trigger] fork_checked(
                                start,
                                earlier,
                                forks,
                                declared,
                                k,
                                blobs,
                            )
                        &&& message == #[trigger] mirror::equality_message(calver, forks.len(), blobs)
                    };
                assert forall|k: int| 0 <= k < forks.len() implies #[trigger] fork_checked(
                    start,
                    answers,
                    forks,
                    declared,
                    k,
                    blobs,
                ) by {
                    lemma_answers_stay(start, answers, forks, declared, k, blobs);
                }
            },
            mirror::ProgressView::Done(Err(_)) => {},
        }
    }
}

/// Whatever the mirrors answer, a check that passes has confirmed the tag of
/// every fork of the release at the commit of the release table, has fetched
/// the tree of that commit from every fork, and has found all of these trees to
/// be one and the same. Every fork is declared, and there is at least one.
pub proof fn law_passed_check_proves_equality(
    releases: Seq<release::ReleaseView>,
    declared: Seq<Seq<char>>,
    calver: Seq<char>,
    answers: Seq<Result<Seq<char>, Seq<char>>>,
    message: Seq<char>,
)
    requires
        run(mirror::started(releases, declared, calver), answers) == mirror::ProgressView::Done(
            Ok(message),
        ),
    ensures
        release::release_row(releases, calver) is Some,
        passed(
            mirror::started(releases, declared, calver),
            answers,
            release::release_row(releases, calver)->0.forks,
            declared,
            calver,
            message,
        ),
{
    let start = mirror::started(releases, declared, calver);
    if release::release_row(releases, calver) is None {
        lemma_over(start, answers);
    } else {
        lemma_established(releases, declared, calver, answers);
    }
}

/// A check that is over stays as it is.
proof fn lemma_over(start: mirror::ProgressView, answers: Seq<Result<Seq<char>, Seq<char>>>)
    requires
        start is Done,
    ensures
        run(start, answers) == start,
    decreases answers.len(),
{
    if answers.len() > 0 {
        lemma_over(start, answers.drop_last());
    }
}

/// An open check asks about a fork of the release that is declared, and never
/// skips one: all forks before it have been checked.
pub proof fn law_open_check_asks_declared_forks(
    releases: Seq<release::ReleaseView>,
    declared: Seq<Seq<char>>,
    calver: Seq<char>,
    answers: Seq<Result<Seq<char>, Seq<char>>>,
    check: mirror::ForkCheckView,
)
    requires
        run(mirror::started(releases, declared, calver), answers) == mirror::ProgressView::Ask(
            check,
        ),
    ensures
        release::release_row(releases, calver) is Some,
        open_check(
            mirror::started(releases, declared, calver),
            answers,
            check,
            release::release_row(releases, calver)->0.forks,
            declared,
            calver,
        ),
{
    let start = mirror::started(releases, declared, calver);
    if release::release_row(releases, calver) is None {
        lemma_over(start, answers);
    } else {
        lemma_established(releases, declared, calver, answers);
    }
}

/// Giving answers in two parts comes to the same.
proof fn lemma_run_in_parts(
    start: mirror::ProgressView,
    first: Seq<Result<Seq<char>, Seq<char>>>,
    second: Seq<Result<Seq<char>, Seq<char>>>,
)
    ensures
        run(start, first + second) == run(run(start, first), second),
    decreases second.len(),
{
    if second.len() == 0 {
        assert(first + second =~= first);
    } else {
        let whole = first + second;
        assert(whole.drop_last() =~= first + second.drop_last());
        assert(whole.last() == second.last());
        lemma_run_in_parts(start, first, second.drop_last());
    }
}

/// The texts as answers.
pub open spec fn given(texts: Seq<Seq<char>>) -> Seq<Result<Seq<char>, Seq<char>>> {
    Seq::new(texts.len(), |i: int| Ok(texts[i]))
}

/// Answers that follow a release tag, through any number of annotated tags, to
/// a commit.
pub open spec fn leads_to_commit(chain: Seq<Seq<char>>, commit: Seq<char>) -> bool {
    &&& chain.len() > 0
    &&& mirror::object_sha(chain[0]).len() > 0
    &&& forall|i: int|
        0 <= i < chain.len() - 1 ==> mirror::object_kind(#[trigger] chain[i]) == "tag"@
    &&& mirror::object_kind(chain.last()) == "commit"@
    &&& mirror::object_sha(chain.last()) == commit
}

/// A declared fork whose tag leads to the commit of the release table and whose
/// tree there has the given blobs.
pub open spec fn good_mirror(
    fork: release::ForkView,
    declared: Seq<Seq<char>>,
    chain: Seq<Seq<char>>,
    listing: Seq<char>,
    blobs: Map<Seq<char>, Seq<char>>,
) -> bool {
    &&& declared.contains(fork.repository)
    &&& model::sha40(fork.sha)
    &&& leads_to_commit(chain, fork.sha)
    &&& tree::listed_tree(fork.repository, fork.sha, listing) == Ok::<
        Map<Seq<char>, Seq<char>>,
        Seq<char>,
    >(blobs)
}

/// Good mirrors, one for each fork, with their answers and their trees.
pub open spec fn good_mirrors(
    forks: Seq<release::ForkView>,
    declared: Seq<Seq<char>>,
    chains: Seq<Seq<Seq<char>>>,
    listings: Seq<Seq<char>>,
    trees: Seq<Map<Seq<char>, Seq<char>>>,
) -> bool {
    &&& forks.len() == chains.len() == listings.len() == trees.len()
    &&& forall|i: int|
        0 <= i < forks.len() ==> good_mirror(
            #[trigger] forks[i],
            declared,
            chains[i],
            listings[i],
            trees[i],
        )
}

/// The answers of the first `n` mirrors: of each those that follow its tag, then
/// the listing of its tree.
pub open spec fn mirror_answers(
    chains: Seq<Seq<Seq<char>>>,
    listings: Seq<Seq<char>>,
    n: int,
) -> Seq<Result<Seq<char>, Seq<char>>>
    decreases n,
{
    if n <= 0 {
        Seq::empty()
    } else {
        mirror_answers(chains, listings, n - 1) + given(chains[n - 1].push(listings[n - 1]))
    }
}

proof fn lemma_kinds_differ()
    ensures
        "commit"@ != "tag"@,
        "commit"@.len() > 0,
        "tag"@.len() > 0,
{
    reveal_strlit("commit");
    reveal_strlit("tag");
    assert("commit"@.len() != "tag"@.len());
}

/// Following a tag to the commit of the release table leads to the question for
/// the tree.
proof fn lemma_chain(check: mirror::ForkCheckView, chain: Seq<Seq<char>>, n: int)
    requires
        check.phase is Tag,
        model::sha40(check.fork().sha),
        leads_to_commit(chain, check.fork().sha),
        0 < n <= chain.len(),
    ensures
        run(mirror::ProgressView::Ask(check), given(chain.take(n))) == mirror::ProgressView::Ask(
            mirror::ForkCheckView {
                phase: if n == chain.len() {
                    mirror::PhaseView::Tree
                } else {
                    mirror::PhaseView::Peel(mirror::object_sha(chain[n - 1]))
                },
                ..check
            },
        ),
    decreases n,
{
    let start = mirror::ProgressView::Ask(check);
    let answers = given(chain.take(n));
    lemma_kinds_differ();
    assert(answers.last() == Ok::<Seq<char>, Seq<char>>(chain[n - 1]));
    assert(answers.drop_last() =~= given(chain.take(n - 1)));
    if n == chain.len() {
        assert(chain[n - 1] == chain.last());
    } else {
        assert(mirror::object_kind(chain[n - 1]) == "tag"@);
    }
    if n == 1 {
        assert(answers.drop_last().len() == 0);
        assert(run(start, answers.drop_last()) == start);
    } else {
        lemma_chain(check, chain, n - 1);
        let earlier = mirror::ForkCheckView {
            phase: mirror::PhaseView::Peel(mirror::object_sha(chain[n - 2])),
            ..check
        };
        assert(earlier.fork() == check.fork());
        assert(run(start, answers.drop_last()) == mirror::ProgressView::Ask(earlier));
    }
}

/// Once every one of the first `n` mirrors has answered, the check stands before
/// the next fork with their trees.
proof fn lemma_mirrors_run(
    releases: Seq<release::ReleaseView>,
    declared: Seq<Seq<char>>,
    calver: Seq<char>,
    chains: Seq<Seq<Seq<char>>>,
    listings: Seq<Seq<char>>,
    trees: Seq<Map<Seq<char>, Seq<char>>>,
    n: int,
)
    requires
        release::release_row(releases, calver) is Some,
        good_mirrors(
            release::release_row(releases, calver)->0.forks,
            declared,
            chains,
            listings,
            trees,
        ),
        0 <= n <= trees.len(),
    ensures
        run(
            mirror::started(releases, declared, calver),
            mirror_answers(chains, listings, n),
        ) == mirror::next_fork(
            mirror::ForkCheckView {
                calver,
                forks: release::release_row(releases, calver)->0.forks,
                declared,
                phase: mirror::PhaseView::Tag,
                trees: trees.take(n),
            },
        ),
    decreases n,
{
    let start = mirror::started(releases, declared, calver);
    let forks = release::release_row(releases, calver)->0.forks;
    if n == 0 {
        assert(trees.take(0) =~= Seq::empty());
    } else {
        lemma_mirrors_run(releases, declared, calver, chains, listings, trees, n - 1);
        let fork = forks[n - 1];
        let chain = chains[n - 1];
        let listing = listings[n - 1];
        let known = trees.take(n - 1);
        let asking = mirror::ForkCheckView {
            calver,
            forks,
            declared,
            phase: mirror::PhaseView::Tag,
            trees: known,
        };
        let fetching = mirror::ForkCheckView { phase: mirror::PhaseView::Tree, ..asking };
        assert(asking.fork() == fork && fetching.fork() == fork);
        assert(good_mirror(forks[n - 1], declared, chain, listing, trees[n - 1]));
        let earlier = mirror_answers(chains, listings, n - 1);
        let answers = given(chain.push(listing));
        assert(run(start, earlier) == mirror::ProgressView::Ask(asking));
        lemma_run_in_parts(start, earlier, answers);
        lemma_chain(asking, chain, chain.len() as int);
        assert(chain.take(chain.len() as int) =~= chain);
        assert(answers.drop_last() =~= given(chain));
        assert(answers.last() == Ok::<Seq<char>, Seq<char>>(listing));
        assert(run(mirror::ProgressView::Ask(asking), answers.drop_last())
            == mirror::ProgressView::Ask(fetching));
        assert(known.push(trees[n - 1]) =~= trees.take(n));
    }
}

/// A release whose forks are declared and whose tags lead, straight or through
/// annotated tags, to the commits of the release table passes the check when
/// the trees of these commits are one and the same.
pub proof fn law_equal_mirrors_pass(
    releases: Seq<release::ReleaseView>,
    declared: Seq<Seq<char>>,
    calver: Seq<char>,
    chains: Seq<Seq<Seq<char>>>,
    listings: Seq<Seq<char>>,
    trees: Seq<Map<Seq<char>, Seq<char>>>,
)
    requires
        release::release_row(releases, calver) is Some,
        good_mirrors(
            release::release_row(releases, calver)->0.forks,
            declared,
            chains,
            listings,
            trees,
        ),
        trees.len() > 0,
        forall|i: int| 0 <= i < trees.len() ==> #[trigger] trees[i] == trees[0],
    ensures
        run(
            mirror::started(releases, declared, calver),
            mirror_answers(chains, listings, trees.len() as int),
        ) == mirror::ProgressView::Done(
            Ok(mirror::equality_message(calver, trees.len(), trees[0])),
        ),
{
    let forks = release::release_row(releases, calver)->0.forks;
    lemma_mirrors_run(
        releases,
        declared,
        calver,
        chains,
        listings,
        trees,
        trees.len() as int,
    );
    assert(trees.take(trees.len() as int) =~= trees);
    failure::lemma_first_failure(
        trees.len() as int,
        mirror::tree_checks(calver, forks, trees),
    );
}

/// A release whose tags lead to the commits of the release table is refused
/// when the tree of one of these commits is not that of the first fork. The
/// message names the first such fork and the paths that the two trees do not
/// share.
pub proof fn law_different_mirrors_are_refused(
    releases: Seq<release::ReleaseView>,
    declared: Seq<Seq<char>>,
    calver: Seq<char>,
    chains: Seq<Seq<Seq<char>>>,
    listings: Seq<Seq<char>>,
    trees: Seq<Map<Seq<char>, Seq<char>>>,
    k: int,
)
    requires
        release::release_row(releases, calver) is Some,
        good_mirrors(
            release::release_row(releases, calver)->0.forks,
            declared,
            chains,
            listings,
            trees,
        ),
        0 <= k < trees.len(),
        trees[k] != trees[0],
        forall|i: int| 0 <= i < k ==> #[trigger] trees[i] == trees[0],
    ensures
        ({
            let forks = release::release_row(releases, calver)->0.forks;
            run(
                mirror::started(releases, declared, calver),
                mirror_answers(chains, listings, trees.len() as int),
            ) == mirror::ProgressView::Done(
                Err(
                    "release "@ + calver + " fork mismatch: "@ + forks[0].repository + " vs "@
                        + forks[k].repository + "; missing="@ + mirror::printed_missing(
                        trees[0],
                        trees[k],
                    ) + ", extra="@ + mirror::printed_missing(trees[k], trees[0]),
                ),
            )
        }),
{
    let forks = release::release_row(releases, calver)->0.forks;
    let checks = mirror::tree_checks(calver, forks, trees);
    lemma_mirrors_run(
        releases,
        declared,
        calver,
        chains,
        listings,
        trees,
        trees.len() as int,
    );
    assert(trees.take(trees.len() as int) =~= trees);
    failure::lemma_first_failure(k, checks);
    assert(failure::first_failure(k + 1, checks) == checks(k));
    failure::lemma_first_failure_stays(k + 1, trees.len() as int, checks);
}

/// In a release table that agrees with the fork table, a release that passes
/// the check proves all declared mirrors identical: each one has a row in the
/// release, its tag leads to the commit of that row, and all of these commits
/// have one tree.
pub proof fn law_passed_check_covers_every_declared_mirror(
    releases: Seq<release::ReleaseView>,
    consumers: Seq<package::ConsumerView>,
    declared: Seq<Seq<char>>,
    calver: Seq<char>,
    answers: Seq<Result<Seq<char>, Seq<char>>>,
    message: Seq<char>,
)
    requires
        agreement::table_mismatch(releases, consumers, declared) is None,
        run(mirror::started(releases, declared, calver), answers) == mirror::ProgressView::Done(
            Ok(message),
        ),
    ensures
        release::release_row(releases, calver) is Some,
        ({
            let start = mirror::started(releases, declared, calver);
            let forks = release::release_row(releases, calver)->0.forks;
            exists|blobs: Map<Seq<char>, Seq<char>>|
                {
                    &&& message == #[trigger] mirror::equality_message(
                        calver,
                        declared.len(),
                        blobs,
                    )
                    &&& forall|i: int|
                        0 <= i < declared.len() ==> exists|k: int|
                            {
                                &&& 0 <= k < forks.len()
                                &&& forks[k].repository == #[trigger] declared[i]
                                &&& #[trigger] fork_checked(
                                    start,
                                    answers,
                                    forks,
                                    declared,
                                    k,
                                    blobs,
                                )
                            }
                }
        }),
{
    law_passed_check_proves_equality(releases, declared, calver, answers, message);
    laws::release::law_agreeing_table(releases, consumers, declared);
    let start = mirror::started(releases, declared, calver);
    let release = release::release_row(releases, calver)->0;
    let forks = release.forks;
    let names = release::calvers(releases);
    names.index_of_first_ensures(calver);
    assert(laws::release::agreeing_release(
        releases[names.index_of_first(calver)->0],
        consumers,
        declared,
    ));
    let blobs = choose|blobs: Map<Seq<char>, Seq<char>>|
        {
            &&& forks.len() > 0
            &&& forall|k: int|
                0 <= k < forks.len() ==> #[trigger] fork_checked(
                    start,
                    answers,
                    forks,
                    declared,
                    k,
                    blobs,
                )
            &&& message == #[trigger] mirror::equality_message(calver, forks.len(), blobs)
        };
    assert forall|i: int| 0 <= i < declared.len() implies exists|k: int|
        {
            &&& 0 <= k < forks.len()
            &&& forks[k].repository == #[trigger] declared[i]
            &&& #[trigger] fork_checked(start, answers, forks, declared, k, blobs)
        } by {
        assert(laws::release::has_fork(
            releases[names.index_of_first(calver)->0].forks,
            declared[i],
        ));
        let k = choose|k: int|
            0 <= k < forks.len() && (#[trigger] forks[k]).repository == declared[i];
        assert(fork_checked(start, answers, forks, declared, k, blobs));
    }
}

/// The questions, by what is asked: what the release tag points to, what an
/// annotated tag points to, and the tree of the commit of the release table.
pub proof fn law_questions(check: mirror::ForkCheckView)
    ensures
        ({
            let fork = check.forks[check.trees.len() as int];
            match check.phase {
                mirror::PhaseView::Tag => check.endpoint() == "repos/"@ + fork.repository
                    + "/git/ref/tags/"@ + check.calver && check.query()
                    == "[.object.type,.object.sha]|@tsv"@,
                mirror::PhaseView::Peel(id) => check.endpoint() == "repos/"@ + fork.repository
                    + "/git/tags/"@ + id && check.query() == "[.object.type,.object.sha]|@tsv"@,
                mirror::PhaseView::Tree => check.endpoint() == "repos/"@ + fork.repository
                    + "/git/trees/"@ + fork.sha + "?recursive=1"@ && check.query()
                    == "[.tree[] | select(.type == \"blob\") | [.path,.mode,.sha] | @tsv] | sort | .[]"@,
            }
        }),
{
}

/// A word as it stands in an answer: not empty, without tabs, and with no white
/// space at its ends.
pub open spec fn word(value: Seq<char>) -> bool {
    value.len() > 0 && laws::text::lacks(value, '\t') && laws::text::tight(value)
}

/// What a tag points to.
pub struct Object {
    pub kind: Seq<char>,
    pub id: Seq<char>,
}

/// The answer that names an object: its kind, a tab, its object ID and a line
/// feed.
pub open spec fn object_answer(object: Object) -> Seq<char> {
    object.kind + seq!['\t'] + object.id + seq!['\n']
}

/// An answer is read back as the kind and the object ID that it names, whatever
/// white space stands around them and whatever follows a further tab. Of an
/// answer of one word that is the kind, and of white space there is neither.
pub proof fn law_answers_read_back(
    head: Seq<char>,
    object: Object,
    more: Seq<char>,
    tail: Seq<char>,
)
    requires
        laws::text::all_blank(head),
        laws::text::all_blank(tail),
        word(object.kind),
        word(object.id),
        word(more),
    ensures
        ({
            let answer = head + (object.kind + seq!['\t'] + object.id) + tail;
            let longer = head + (object.kind + seq!['\t'] + object.id + seq!['\t'] + more) + tail;
            let short = head + object.kind + tail;
            &&& mirror::object_kind(answer) == object.kind
            &&& mirror::object_sha(answer) == object.id
            &&& mirror::object_kind(longer) == object.kind
            &&& mirror::object_sha(longer) == object.id
            &&& mirror::object_kind(short) == object.kind
            &&& mirror::object_sha(short) == Seq::<char>::empty()
            &&& mirror::object_kind(head) == Seq::<char>::empty()
            &&& mirror::object_sha(head) == Seq::<char>::empty()
        }),
{
    let (kind, id) = (object.kind, object.id);
    let nothing = Seq::<char>::empty();
    let pair = kind + seq!['\t'] + id;
    let longer = kind + seq!['\t'] + id + seq!['\t'] + more;
    assert(pair[0] == kind[0] && pair.last() == id.last());
    assert(longer[0] == kind[0] && longer.last() == more.last());
    laws::text::law_trimming_undoes_white_space(head, pair, tail);
    laws::text::law_trimming_undoes_white_space(head, longer, tail);
    laws::text::law_trimming_undoes_white_space(head, kind, tail);
    laws::text::law_trimming_undoes_white_space(head, nothing, nothing);
    assert(head + nothing + nothing =~= head);
    laws::text::law_cutting_undoes_setting_between(kind, '\t', id);
    laws::text::law_cutting_undoes_setting_between(id, '\t', more);
    let rest = id + seq!['\t'] + more;
    assert(longer =~= kind + seq!['\t'] + rest);
    laws::text::law_cutting_undoes_setting_between(kind, '\t', rest);
    laws::text::law_cutting_undoes_setting_between(nothing, '\t', nothing);
}

proof fn lemma_object_answer(object: Object)
    requires
        word(object.kind),
        word(object.id),
    ensures
        mirror::object_kind(object_answer(object)) == object.kind,
        mirror::object_sha(object_answer(object)) == object.id,
{
    let nothing = Seq::<char>::empty();
    let tail = seq!['\n'];
    law_answers_read_back(nothing, object, object.id, tail);
    assert(object_answer(object) =~= nothing + (object.kind + seq!['\t'] + object.id) + tail);
}

/// The step that follows the object that a tag points to. An annotated tag is
/// asked about in turn; the commit of the release table leads to the question
/// for its tree; another commit, and anything else, ends the check. Nothing else
/// of the check changes.
pub proof fn law_objects_are_followed(check: mirror::ForkCheckView, object: Object)
    requires
        check.phase !is Tree,
        word(object.kind),
        word(object.id),
    ensures
        ({
            let fork = check.forks[check.trees.len() as int];
            let step = mirror::answered(check, Ok(object_answer(object)));
            if object.kind == "tag"@ {
                step == mirror::ProgressView::Ask(
                    mirror::ForkCheckView { phase: mirror::PhaseView::Peel(object.id), ..check },
                )
            } else if object.kind != "commit"@ || !laws::identity::full_id(object.id) {
                step == mirror::ProgressView::Done(
                    Err(
                        "release "@ + check.calver + " tag for "@ + fork.repository
                            + " does not resolve to a commit"@,
                    ),
                )
            } else if object.id != fork.sha {
                step == mirror::ProgressView::Done(
                    Err(
                        "release "@ + check.calver + " table SHA mismatch for "@ + fork.repository
                            + ": table "@ + fork.sha + ", tag "@ + object.id,
                    ),
                )
            } else {
                step == mirror::ProgressView::Ask(
                    mirror::ForkCheckView { phase: mirror::PhaseView::Tree, ..check },
                )
            }
        }),
{
    lemma_object_answer(object);
    laws::identity::law_full_ids_are_forty_hex_digits(object.id);
}

/// An answer that names no object, being white space or one word, means that the
/// release has no tag. Of an annotated tag it means that the tag leads to no
/// commit, unless the word is that for a tag, which is then asked about without
/// an object ID.
pub proof fn law_missing_objects_are_told(
    check: mirror::ForkCheckView,
    head: Seq<char>,
    kind: Seq<char>,
    tail: Seq<char>,
)
    requires
        check.phase !is Tree,
        laws::text::all_blank(head),
        laws::text::all_blank(tail),
        word(kind),
    ensures
        ({
            let fork = check.forks[check.trees.len() as int];
            let blank = mirror::answered(check, Ok(head));
            let short = mirror::answered(check, Ok(head + kind + tail));
            let missing = mirror::ProgressView::Done(
                Err("release "@ + check.calver + " tag missing for "@ + fork.repository),
            );
            let unresolved = mirror::ProgressView::Done(
                Err(
                    "release "@ + check.calver + " tag for "@ + fork.repository
                        + " does not resolve to a commit"@,
                ),
            );
            if check.phase is Tag {
                blank == missing && short == missing
            } else {
                blank == unresolved && short == if kind == "tag"@ {
                    mirror::ProgressView::Ask(
                        mirror::ForkCheckView {
                            phase: mirror::PhaseView::Peel(Seq::empty()),
                            ..check
                        },
                    )
                } else {
                    unresolved
                }
            }
        }),
{
    let object = Object { kind, id: kind };
    law_answers_read_back(head, object, kind, tail);
    lemma_kinds_differ();
    laws::identity::law_full_ids_are_forty_hex_digits(Seq::empty());
}

/// A question that could not be answered ends the check, with the reason as it
/// was given.
pub proof fn law_failed_questions_end_the_check(check: mirror::ForkCheckView, reason: Seq<char>)
    ensures
        mirror::answered(check, Err(reason)) == mirror::ProgressView::Done(Err(reason)),
{
}

/// The listing of a tree adds the tree to those known, and the check goes on to
/// the next fork; a listing that is refused ends the check with the reason.
pub proof fn law_listings_are_kept(check: mirror::ForkCheckView, listing: Seq<char>)
    requires
        check.phase is Tree,
    ensures
        ({
            let fork = check.forks[check.trees.len() as int];
            match tree::listed_tree(fork.repository, fork.sha, listing) {
                Ok(blobs) => mirror::answered(check, Ok(listing)) == mirror::next_fork(
                    mirror::ForkCheckView { trees: check.trees.push(blobs), ..check },
                ),
                Err(reason) => mirror::answered(check, Ok(listing)) == mirror::ProgressView::Done(
                    Err(reason),
                ),
            }
        }),
{
}

/// The check of a release starts with its first fork and knows no tree; there is
/// none of a release that the table does not have.
pub proof fn law_checks_start_with_the_first_fork(
    releases: Seq<release::ReleaseView>,
    declared: Seq<Seq<char>>,
    calver: Seq<char>,
    i: int,
)
    ensures
        (forall|j: int| 0 <= j < releases.len() ==> (#[trigger] releases[j]).calver != calver)
            ==> mirror::started(releases, declared, calver) == mirror::ProgressView::Done(
            Err("release table has no CalVer "@ + calver),
        ),
        laws::release::first_release(releases, calver, i) ==> mirror::started(
            releases,
            declared,
            calver,
        ) == mirror::next_fork(
            mirror::ForkCheckView {
                calver,
                forks: releases[i].forks,
                declared,
                phase: mirror::PhaseView::Tag,
                trees: Seq::empty(),
            },
        ),
{
    laws::release::law_first_release_of_a_name_is_found(releases, calver);
}

/// While a fork is left, the next one is asked about from its tag on, if it is
/// declared; else the check ends.
pub proof fn law_next_fork_must_be_declared(check: mirror::ForkCheckView)
    requires
        check.trees.len() < check.forks.len(),
    ensures
        ({
            let fork = check.forks[check.trees.len() as int];
            mirror::next_fork(check) == if exists|k: int|
                0 <= k < check.declared.len() && check.declared[k] == fork.repository {
                mirror::ProgressView::Ask(
                    mirror::ForkCheckView { phase: mirror::PhaseView::Tag, ..check },
                )
            } else {
                mirror::ProgressView::Done(
                    Err(
                        "release "@ + check.calver + " contains undeclared fork "@
                            + fork.repository,
                    ),
                )
            }
        }),
{
}

/// A printed list is its items with commas between them, in brackets.
pub proof fn law_lists_are_printed_in_brackets(items: Seq<Seq<char>>)
    ensures
        mirror::printed_list(items) == "["@ + laws::text::glued(items, ", "@) + "]"@,
{
    laws::text::law_joined_texts_are_glued(items, ", "@);
}

/// A list of texts as it is printed: quoted, with commas between them and in
/// brackets.
pub open spec fn printed(list: Seq<Seq<char>>) -> Seq<char> {
    "["@ + laws::text::glued(list.map_values(|item: Seq<char>| text::debug_text(item)), ", "@)
        + "]"@
}

/// The paths of one tree that another one does not have are printed in their
/// order.
pub proof fn law_missing_paths_are_printed_in_order(
    tree: Map<Seq<char>, Seq<char>>,
    other: Map<Seq<char>, Seq<char>>,
    list: Seq<Seq<char>>,
)
    requires
        tree.dom().finite(),
        laws::text::in_order(
            Set::new(|path: Seq<char>| tree.dom().contains(path) && !other.dom().contains(path)),
            list,
        ),
    ensures
        mirror::printed_missing(tree, other) == printed(list),
{
    let absent = tree.dom().difference(other.dom());
    assert(absent =~= Set::new(
        |path: Seq<char>| tree.dom().contains(path) && !other.dom().contains(path),
    ));
    laws::text::law_sorted_texts_are_in_order(absent, list);
    assert(mirror::printed_items(list) =~= list.map_values(
        |item: Seq<char>| text::debug_text(item),
    ));
    law_lists_are_printed_in_brackets(mirror::printed_items(list));
}

/// When the tree of every fork is known, the check passes exactly where all of
/// them are the first one, and says how many forks and blobs there are. Else the
/// first fork with another tree decides; a release without forks is refused.
pub proof fn law_verdict(
    calver: Seq<char>,
    forks: Seq<release::ForkView>,
    trees: Seq<Map<Seq<char>, Seq<char>>>,
    k: int,
)
    ensures
        trees.len() == 0 ==> mirror::verdict(calver, forks, trees) == Err::<Seq<char>, Seq<char>>(
            "release "@ + calver + " has no fork trees"@,
        ),
        trees.len() > 0 && (forall|i: int| 0 <= i < trees.len() ==> #[trigger] trees[i] == trees[0])
            ==> mirror::verdict(calver, forks, trees) == Ok::<Seq<char>, Seq<char>>(
            "release fork equality valid: "@ + calver + ", "@ + text::decimal(trees.len())
                + " forks, "@ + text::decimal(trees[0].dom().len()) + " blobs"@,
        ),
        0 <= k < trees.len() && trees[k] != trees[0] && (forall|i: int|
            0 <= i < k ==> #[trigger] trees[i] == trees[0]) ==> mirror::verdict(
            calver,
            forks,
            trees,
        ) == Err::<Seq<char>, Seq<char>>(
            "release "@ + calver + " fork mismatch: "@ + forks[0].repository + " vs "@
                + forks[k].repository + "; missing="@ + mirror::printed_missing(trees[0], trees[k])
                + ", extra="@ + mirror::printed_missing(trees[k], trees[0]),
        ),
{
    let checks = mirror::tree_checks(calver, forks, trees);
    failure::lemma_first_failure(trees.len() as int, checks);
    if 0 <= k < trees.len() && trees[k] != trees[0] && (forall|i: int|
        0 <= i < k ==> #[trigger] trees[i] == trees[0]) {
        failure::lemma_first_failure(k, checks);
        assert(failure::first_failure(k + 1, checks) == checks(k));
        failure::lemma_first_failure_stays(k + 1, trees.len() as int, checks);
    }
}

/// When no fork is left, the verdict is the end of the check.
pub proof fn law_verdict_ends_the_check(check: mirror::ForkCheckView)
    requires
        check.trees.len() >= check.forks.len(),
    ensures
        mirror::next_fork(check) == mirror::ProgressView::Done(
            mirror::verdict(check.calver, check.forks, check.trees),
        ),
{
}

/// Objects that lead from a release tag, through annotated tags, to a commit.
pub open spec fn way_to_commit(objects: Seq<Object>, commit: Seq<char>) -> bool {
    &&& objects.len() > 0
    &&& forall|i: int|
        0 <= i < objects.len() ==> word((#[trigger] objects[i]).id) && objects[i].kind == if i
            == objects.len() - 1 {
            "commit"@
        } else {
            "tag"@
        }
    &&& objects.last().id == commit
}

/// The answers that name objects.
pub open spec fn object_answers(objects: Seq<Object>) -> Seq<Seq<char>> {
    Seq::new(objects.len(), |i: int| object_answer(objects[i]))
}

/// The answers of mirrors: of each the objects that its tag leads through, then
/// the listing of its blobs.
pub open spec fn blob_answers(
    ways: Seq<Seq<Object>>,
    blobs: Seq<Seq<laws::tree::Entry>>,
) -> Seq<Result<Seq<char>, Seq<char>>> {
    mirror_answers(
        Seq::new(ways.len(), |i: int| object_answers(ways[i])),
        Seq::new(blobs.len(), |i: int| laws::tree::listing_of(blobs[i])),
        ways.len() as int,
    )
}

/// Declared forks, whose tags lead to the commits of the release table, with the
/// blobs that they list there.
pub open spec fn mirrors_with_blobs(
    forks: Seq<release::ForkView>,
    declared: Seq<Seq<char>>,
    ways: Seq<Seq<Object>>,
    blobs: Seq<Seq<laws::tree::Entry>>,
) -> bool {
    &&& forks.len() == ways.len() == blobs.len()
    &&& forks.len() > 0
    &&& forall|i: int|
        0 <= i < forks.len() ==> {
            &&& declared.contains((#[trigger] forks[i]).repository)
            &&& laws::identity::full_id(forks[i].sha)
            &&& way_to_commit(ways[i], forks[i].sha)
            &&& laws::tree::all_listable(blobs[i])
            &&& laws::tree::different_paths(blobs[i])
        }
}

proof fn lemma_words()
    ensures
        word("tag"@),
        word("commit"@),
{
    reveal_strlit("tag");
    reveal_strlit("commit");
}

proof fn lemma_way(objects: Seq<Object>, commit: Seq<char>)
    requires
        way_to_commit(objects, commit),
    ensures
        leads_to_commit(object_answers(objects), commit),
{
    let chain = object_answers(objects);
    lemma_words();
    assert forall|i: int| 0 <= i < objects.len() implies mirror::object_kind(#[trigger] chain[i])
        == objects[i].kind && mirror::object_sha(chain[i]) == objects[i].id by {
        assert(word(objects[i].id));
        lemma_object_answer(objects[i]);
    }
    assert(word(objects[0].id));
    assert(mirror::object_sha(chain[0]) == objects[0].id);
    let last = objects.len() - 1;
    assert(chain.last() == chain[last] && objects.last() == objects[last]);
    assert(mirror::object_kind(chain[last]) == "commit"@);
    assert(mirror::object_sha(chain[last]) == objects[last].id);
    assert forall|i: int| 0 <= i < chain.len() - 1 implies mirror::object_kind(
        #[trigger] chain[i],
    ) == "tag"@ by {
        assert(mirror::object_kind(chain[i]) == objects[i].kind);
    }
}

/// The paths of blobs that are not among those of others.
pub open spec fn paths_without(
    blobs: Seq<laws::tree::Entry>,
    others: Seq<laws::tree::Entry>,
) -> Set<Seq<char>> {
    Set::new(
        |path: Seq<char>|
            (exists|i: int| 0 <= i < blobs.len() && (#[trigger] blobs[i]).path == path) && !(exists|
                i: int,
            |
                0 <= i < others.len() && (#[trigger] others[i]).path == path),
    )
}

/// The check of a release passes exactly where all of its mirrors list the same
/// blobs as the first one: the same paths with the same modes and the same
/// object IDs. It then says how many mirrors and blobs there are. Else it names
/// the first mirror with other blobs, and in order the paths that it does not
/// have and those that it alone has: `missing` and `extra`.
pub proof fn law_mirrors_pass_with_the_same_blobs(
    releases: Seq<release::ReleaseView>,
    declared: Seq<Seq<char>>,
    calver: Seq<char>,
    i: int,
    ways: Seq<Seq<Object>>,
    blobs: Seq<Seq<laws::tree::Entry>>,
    k: int,
    missing: Seq<Seq<char>>,
    extra: Seq<Seq<char>>,
)
    requires
        laws::release::first_release(releases, calver, i),
        mirrors_with_blobs(releases[i].forks, declared, ways, blobs),
    ensures
        ({
            let forks = releases[i].forks;
            let end = run(
                mirror::started(releases, declared, calver),
                blob_answers(ways, blobs),
            );
            &&& (forall|m: int| 0 <= m < blobs.len() ==> (#[trigger] blobs[m]).to_set()
                == blobs[0].to_set()) ==> end == mirror::ProgressView::Done(
                Ok(
                    "release fork equality valid: "@ + calver + ", "@ + text::decimal(forks.len())
                        + " forks, "@ + text::decimal(blobs[0].len()) + " blobs"@,
                ),
            )
            &&& 0 <= k < blobs.len() && blobs[k].to_set() != blobs[0].to_set() && (forall|m: int|
                0 <= m < k ==> (#[trigger] blobs[m]).to_set() == blobs[0].to_set())
                && laws::text::in_order(paths_without(blobs[0], blobs[k]), missing)
                && laws::text::in_order(paths_without(blobs[k], blobs[0]), extra) ==> end
                == mirror::ProgressView::Done(
                Err(
                    "release "@ + calver + " fork mismatch: "@ + forks[0].repository + " vs "@
                        + forks[k].repository + "; missing="@ + printed(missing) + ", extra="@
                        + printed(extra),
                ),
            )
        }),
{
    let forks = releases[i].forks;
    laws::release::law_first_release_of_a_name_is_found(releases, calver);
    assert(release::release_row(releases, calver) == Some(releases[i]));
    let chains = Seq::new(ways.len(), |m: int| object_answers(ways[m]));
    let listings = Seq::new(blobs.len(), |m: int| laws::tree::listing_of(blobs[m]));
    let trees = Seq::new(
        forks.len(),
        |m: int| tree::listed_tree(forks[m].repository, forks[m].sha, listings[m])->Ok_0,
    );
    assert forall|m: int| 0 <= m < forks.len() implies good_mirror(
        #[trigger] forks[m],
        declared,
        chains[m],
        listings[m],
        trees[m],
    ) && laws::tree::holds(trees[m], blobs[m]) by {
        laws::identity::law_full_ids_are_forty_hex_digits(forks[m].sha);
        lemma_way(ways[m], forks[m].sha);
        laws::tree::law_listings_give_their_blobs(forks[m].repository, forks[m].sha, blobs[m]);
    }
    assert(declared.contains(forks[0].repository));
    assert(laws::tree::holds(trees[0], blobs[0]));
    assert forall|m: int| 0 <= m < trees.len() implies (#[trigger] trees[m] == trees[0]
        <==> blobs[m].to_set() == blobs[0].to_set()) && trees[m].dom().finite() && trees[m].dom().len()
        == blobs[m].len() by {
        assert(declared.contains(forks[m].repository));
        assert(laws::tree::holds(trees[m], blobs[m]));
        laws::tree::law_same_trees_have_the_same_blobs(trees[m], blobs[m], trees[0], blobs[0]);
    }
    assert(trees[0].dom().len() == blobs[0].len());
    if forall|m: int| 0 <= m < blobs.len() ==> (#[trigger] blobs[m]).to_set()
        == blobs[0].to_set() {
        assert forall|m: int| 0 <= m < trees.len() implies #[trigger] trees[m] == trees[0] by {
            assert(blobs[m].to_set() == blobs[0].to_set());
        }
        law_equal_mirrors_pass(releases, declared, calver, chains, listings, trees);
    }
    if 0 <= k < blobs.len() && blobs[k].to_set() != blobs[0].to_set() && (forall|m: int|
        0 <= m < k ==> (#[trigger] blobs[m]).to_set() == blobs[0].to_set())
        && laws::text::in_order(paths_without(blobs[0], blobs[k]), missing)
        && laws::text::in_order(paths_without(blobs[k], blobs[0]), extra) {
        assert(trees[k] != trees[0]);
        assert forall|m: int| 0 <= m < k implies #[trigger] trees[m] == trees[0] by {
            assert(blobs[m].to_set() == blobs[0].to_set());
        }
        law_different_mirrors_are_refused(releases, declared, calver, chains, listings, trees, k);
        assert(declared.contains(forks[k].repository));
        assert(laws::tree::holds(trees[k], blobs[k]));
        assert(paths_without(blobs[0], blobs[k]) =~= Set::new(
            |path: Seq<char>| trees[0].dom().contains(path) && !trees[k].dom().contains(path),
        ));
        assert(paths_without(blobs[k], blobs[0]) =~= Set::new(
            |path: Seq<char>| trees[k].dom().contains(path) && !trees[0].dom().contains(path),
        ));
        law_missing_paths_are_printed_in_order(trees[0], trees[k], missing);
        law_missing_paths_are_printed_in_order(trees[k], trees[0], extra);
    }
}

/// A check that is over shows its result as it is.
pub proof fn law_results_of_checks_are_seen_whole(value: String)
    ensures
        mirror::Progress::Done(Ok(value))@ == mirror::ProgressView::Done(Ok(value@)),
        mirror::Progress::Done(Err(value))@ == mirror::ProgressView::Done(Err(value@)),
{
}

} // verus!
