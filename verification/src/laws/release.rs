//! What holds of every release table that was loaded, and of every one that
//! agrees with the package and fork tables.

use vstd::prelude::*;

use crate::agreement;
use crate::failure;
use crate::laws;
use crate::package;
use crate::release;
use crate::text;
use crate::time;

verus! {

/// A fork row that names an owner's mirror and a full object ID.
pub open spec fn valid_fork(fork: release::ForkView) -> bool {
    fork.repository == fork.owner + "/velnor-actions"@ && laws::identity::full_id(fork.sha)
}

/// A signer row that says nothing of an old signer.
pub open spec fn no_old_signer(signer: release::SignerView) -> bool {
    &&& signer.old_signer_digest is None
    &&& signer.old_signer_activated_at is None
    &&& signer.old_signer_expires_at is None
}

/// A signer row that says all there is to say of an old signer.
pub open spec fn full_old_signer(signer: release::SignerView) -> bool {
    &&& signer.old_signer_digest is Some
    &&& signer.old_signer_activated_at is Some
    &&& signer.old_signer_expires_at is Some
}

/// A signer row with a full current digest and either no old signer or one that
/// differs from the current one, with time stamps that are in order and at most
/// 30 days apart.
pub open spec fn valid_signer(signer: release::SignerView) -> bool {
    &&& laws::identity::full_id(signer.current_signer_digest)
    &&& no_old_signer(signer) || {
        let activated = signer.old_signer_activated_at->0;
        let expires = signer.old_signer_expires_at->0;
        &&& full_old_signer(signer)
        &&& laws::identity::full_id(signer.old_signer_digest->0)
        &&& signer.old_signer_digest->0 != signer.current_signer_digest
        &&& laws::time::dated(activated)
        &&& laws::time::dated(expires)
        &&& laws::text::comes_first(activated, expires)
        &&& laws::time::moment(expires) - laws::time::moment(activated) <= 2_592_000
    }
}

/// Valid fork rows of different repositories. Nothing is asked of the object IDs
/// of different rows.
pub open spec fn valid_forks(forks: Seq<release::ForkView>) -> bool {
    &&& forall|i: int| 0 <= i < forks.len() ==> valid_fork(#[trigger] forks[i])
    &&& forall|i: int, j: int|
        0 <= i < j < forks.len() ==> (#[trigger] forks[i]).repository != (
        #[trigger] forks[j]).repository
}

/// Valid signer rows of different consumers.
pub open spec fn valid_signers(signers: Seq<release::SignerView>) -> bool {
    &&& forall|i: int| 0 <= i < signers.len() ==> valid_signer(#[trigger] signers[i])
    &&& forall|i: int, j: int|
        0 <= i < j < signers.len() ==> (#[trigger] signers[i]).consumer != (
        #[trigger] signers[j]).consumer
}

/// A release with a CalVer name, with valid forks of different repositories and
/// valid signers of different consumers.
pub open spec fn valid_release(release: release::ReleaseView) -> bool {
    &&& laws::identity::release_name(release.calver)
    &&& valid_forks(release.forks)
    &&& valid_signers(release.signers)
}

/// Valid releases of different names.
pub open spec fn valid_releases(releases: Seq<release::ReleaseView>) -> bool {
    &&& forall|i: int| 0 <= i < releases.len() ==> valid_release(#[trigger] releases[i])
    &&& forall|i: int, j: int|
        0 <= i < j < releases.len() ==> (#[trigger] releases[i]).calver != (
        #[trigger] releases[j]).calver
}

/// A fork row before row `i` has the repository of row `i`.
pub open spec fn fork_seen(forks: Seq<release::ForkView>, i: int) -> bool {
    exists|j: int| 0 <= j < i && (#[trigger] forks[j]).repository == forks[i].repository
}

/// A signer row before row `i` has the consumer of row `i`.
pub open spec fn signer_seen(signers: Seq<release::SignerView>, i: int) -> bool {
    exists|j: int| 0 <= j < i && (#[trigger] signers[j]).consumer == signers[i].consumer
}

/// A release before release `i` has the name of release `i`.
pub open spec fn release_seen(releases: Seq<release::ReleaseView>, i: int) -> bool {
    exists|j: int| 0 <= j < i && (#[trigger] releases[j]).calver == releases[i].calver
}

/// The first thing that is wrong with what a row says of an old signer.
pub open spec fn old_signer_complaint(signer: release::SignerView) -> Seq<char> {
    let activated = signer.old_signer_activated_at->0;
    let expires = signer.old_signer_expires_at->0;
    "signer rotation for "@ + signer.consumer + if !full_old_signer(signer) {
        " must declare all old fields"@
    } else if !laws::identity::full_id(signer.old_signer_digest->0) || signer.old_signer_digest->0
        == signer.current_signer_digest {
        " has an invalid old digest"@
    } else if !laws::time::stamp(activated) || !laws::time::stamp(expires)
        || !laws::text::comes_first(activated, expires) {
        " has invalid UTC bounds"@
    } else if !laws::time::dated(activated) {
        " has invalid activation"@
    } else if !laws::time::dated(expires) {
        " has invalid expiry"@
    } else {
        " exceeds the 30-day old-signer window"@
    }
}

proof fn lemma_fork_error(forks: Seq<release::ForkView>, i: int)
    ensures
        release::fork_error(forks, i) == if fork_seen(forks, i) || !valid_fork(forks[i]) {
            Some(
                "invalid or duplicate release fork "@ + forks[i].repository + "@"@ + forks[i].sha,
            )
        } else {
            None::<Seq<char>>
        },
{
    laws::identity::law_full_ids_are_forty_hex_digits(forks[i].sha);
}

proof fn lemma_rotation_error(signer: release::SignerView)
    requires
        laws::identity::full_id(signer.current_signer_digest),
    ensures
        release::rotation_error(signer) == if valid_signer(signer) {
            None::<Seq<char>>
        } else {
            Some(old_signer_complaint(signer))
        },
{
    if full_old_signer(signer) {
        let activated = signer.old_signer_activated_at->0;
        let expires = signer.old_signer_expires_at->0;
        laws::identity::law_full_ids_are_forty_hex_digits(signer.old_signer_digest->0);
        laws::time::law_stamps_by_their_characters(activated);
        laws::time::law_stamps_by_their_characters(expires);
        laws::time::law_stamps_name_moments(activated);
        laws::time::law_stamps_name_moments(expires);
        laws::text::law_order_is_by_first_difference(activated, expires);
    }
}

proof fn lemma_signer_error(signers: Seq<release::SignerView>, i: int)
    ensures
        release::signer_error(signers, i) == if signer_seen(signers, i)
            || !laws::identity::full_id(signers[i].current_signer_digest) {
            Some("invalid or duplicate signer row "@ + text::debug_text(signers[i].consumer))
        } else if valid_signer(signers[i]) {
            None::<Seq<char>>
        } else {
            Some(old_signer_complaint(signers[i]))
        },
{
    laws::identity::law_full_ids_are_forty_hex_digits(signers[i].current_signer_digest);
    if laws::identity::full_id(signers[i].current_signer_digest) {
        lemma_rotation_error(signers[i]);
    }
}

proof fn lemma_forks(forks: Seq<release::ForkView>, n: int)
    requires
        0 <= n <= forks.len(),
    ensures
        failure::first_failure(n, release::fork_checks(forks)) is None <==> valid_forks(
            forks.take(n),
        ),
{
    let checks = release::fork_checks(forks);
    let some = forks.take(n);
    failure::lemma_first_failure(n, checks);
    if failure::first_failure(n, checks) is None {
        assert forall|i: int| 0 <= i < some.len() implies valid_fork(#[trigger] some[i]) by {
            assert(checks(i) is None);
            lemma_fork_error(forks, i);
        }
        assert forall|i: int, j: int| 0 <= i < j < some.len() implies (
        #[trigger] some[i]).repository != (#[trigger] some[j]).repository by {
            assert(checks(j) is None);
            lemma_fork_error(forks, j);
            assert(forks[i] == some[i]);
        }
    }
    if valid_forks(some) {
        assert forall|i: int| 0 <= i < n implies (#[trigger] checks(i)) is None by {
            lemma_fork_error(forks, i);
            assert(valid_fork(some[i]));
            assert forall|j: int| 0 <= j < i implies (#[trigger] forks[j]).repository
                != forks[i].repository by {
                assert(some[j].repository != some[i].repository);
            }
        }
    }
}

proof fn lemma_signers(signers: Seq<release::SignerView>, n: int)
    requires
        0 <= n <= signers.len(),
    ensures
        failure::first_failure(n, release::signer_checks(signers)) is None <==> valid_signers(
            signers.take(n),
        ),
{
    let checks = release::signer_checks(signers);
    let some = signers.take(n);
    failure::lemma_first_failure(n, checks);
    if failure::first_failure(n, checks) is None {
        assert forall|i: int| 0 <= i < some.len() implies valid_signer(#[trigger] some[i]) by {
            assert(checks(i) is None);
            lemma_signer_error(signers, i);
        }
        assert forall|i: int, j: int| 0 <= i < j < some.len() implies (
        #[trigger] some[i]).consumer != (#[trigger] some[j]).consumer by {
            assert(checks(j) is None);
            lemma_signer_error(signers, j);
            assert(signers[i] == some[i]);
        }
    }
    if valid_signers(some) {
        assert forall|i: int| 0 <= i < n implies (#[trigger] checks(i)) is None by {
            lemma_signer_error(signers, i);
            assert(valid_signer(some[i]));
            assert forall|j: int| 0 <= j < i implies (#[trigger] signers[j]).consumer
                != signers[i].consumer by {
                assert(some[j].consumer != some[i].consumer);
            }
        }
    }
}

proof fn lemma_release_error(releases: Seq<release::ReleaseView>, i: int)
    ensures
        release::release_error(releases, i) is None <==> valid_release(releases[i])
            && !release_seen(releases, i),
        !laws::identity::release_name(releases[i].calver) ==> release::release_error(releases, i)
            == Some("invalid release CalVer "@ + text::debug_text(releases[i].calver)),
        laws::identity::release_name(releases[i].calver) && release_seen(releases, i)
            ==> release::release_error(releases, i) == Some(
            "duplicate release "@ + text::debug_text(releases[i].calver),
        ),
        laws::identity::release_name(releases[i].calver) && !release_seen(releases, i)
            ==> release::release_error(releases, i) == if release::forks_error(
            releases[i].forks,
        ) is Some {
            release::forks_error(releases[i].forks)
        } else {
            release::signers_error(releases[i].signers)
        },
{
    let release = releases[i];
    laws::identity::law_other_names_are_refused(release.calver);
    lemma_forks(release.forks, release.forks.len() as int);
    lemma_signers(release.signers, release.signers.len() as int);
    assert(release.forks.take(release.forks.len() as int) =~= release.forks);
    assert(release.signers.take(release.signers.len() as int) =~= release.signers);
}

proof fn lemma_valid_release(releases: Seq<release::ReleaseView>, i: int)
    requires
        0 <= i < releases.len(),
        release::release_error(releases, i) is None,
    ensures
        valid_release(releases[i]),
{
    lemma_release_error(releases, i);
}

proof fn lemma_releases(releases: Seq<release::ReleaseView>, n: int)
    requires
        0 <= n <= releases.len(),
    ensures
        failure::first_failure(n, release::release_checks(releases)) is None <==> valid_releases(
            releases.take(n),
        ),
{
    let checks = release::release_checks(releases);
    let some = releases.take(n);
    failure::lemma_first_failure(n, checks);
    if failure::first_failure(n, checks) is None {
        assert forall|i: int| 0 <= i < some.len() implies valid_release(#[trigger] some[i]) by {
            assert(checks(i) is None);
            lemma_valid_release(releases, i);
        }
        assert forall|i: int, j: int| 0 <= i < j < some.len() implies (
        #[trigger] some[i]).calver != (#[trigger] some[j]).calver by {
            assert(checks(j) is None);
            lemma_release_error(releases, j);
            assert(releases[i] == some[i]);
        }
    }
    if valid_releases(some) {
        assert forall|i: int| 0 <= i < n implies (#[trigger] checks(i)) is None by {
            lemma_release_error(releases, i);
            assert(valid_release(some[i]));
            assert forall|j: int| 0 <= j < i implies (#[trigger] releases[j]).calver
                != releases[i].calver by {
                assert(some[j].calver != some[i].calver);
            }
        }
    }
}

/// A release table loads exactly where it has the right schema and at least one
/// release, all releases are valid, and no two have one name.
pub proof fn law_valid_tables_load(schema: Seq<char>, releases: Seq<release::ReleaseView>)
    ensures
        release::table_error(schema, releases) is None <==> {
            &&& schema == "velnor-actions.releases.v1"@
            &&& releases.len() > 0
            &&& valid_releases(releases)
        },
{
    lemma_releases(releases, releases.len() as int);
    assert(releases.take(releases.len() as int) =~= releases);
}

/// A loaded release table has at least one release, no two of one name, and
/// every identity in it is valid.
pub proof fn law_loaded_table_is_valid(schema: Seq<char>, releases: Seq<release::ReleaseView>)
    requires
        release::table_error(schema, releases) is None,
    ensures
        schema == "velnor-actions.releases.v1"@,
        releases.len() > 0,
        release::calvers(releases).no_duplicates(),
        forall|i: int| 0 <= i < releases.len() ==> valid_release(#[trigger] releases[i]),
{
    let names = release::calvers(releases);
    law_valid_tables_load(schema, releases);
    assert forall|i: int, j: int| 0 <= i < j < names.len() implies names[i] != names[j] by {
        assert(releases[i].calver != releases[j].calver);
    }
}

/// A table with another schema is refused for it, and one without releases for
/// that. Else the first release that is not valid decides: by its name, by a
/// name that was there before, by its first fork row that is not valid or whose
/// repository was there before, and then by its first signer row that is not
/// valid or whose consumer was there before.
pub proof fn law_first_fault_of_a_table_is_told(
    schema: Seq<char>,
    releases: Seq<release::ReleaseView>,
    i: int,
    k: int,
)
    ensures
        schema != "velnor-actions.releases.v1"@ ==> release::table_error(schema, releases) == Some(
            "unknown release table schema "@ + text::debug_text(schema),
        ),
        schema == "velnor-actions.releases.v1"@ && releases.len() == 0 ==> release::table_error(
            schema,
            releases,
        ) == Some("release table must declare at least one release"@),
        schema == "velnor-actions.releases.v1"@ && 0 <= i < releases.len() && valid_releases(
            releases.take(i),
        ) ==> {
            let release = releases[i];
            let forks = release.forks;
            let signers = release.signers;
            let error = release::table_error(schema, releases);
            if !laws::identity::release_name(release.calver) {
                error == Some("invalid release CalVer "@ + text::debug_text(release.calver))
            } else if release_seen(releases, i) {
                error == Some("duplicate release "@ + text::debug_text(release.calver))
            } else if !valid_forks(forks) {
                0 <= k < forks.len() && valid_forks(forks.take(k)) && (fork_seen(forks, k)
                    || !valid_fork(forks[k])) ==> error == Some(
                    "invalid or duplicate release fork "@ + forks[k].repository + "@"@
                        + forks[k].sha,
                )
            } else {
                0 <= k < signers.len() && valid_signers(signers.take(k)) ==> if signer_seen(
                    signers,
                    k,
                ) || !laws::identity::full_id(signers[k].current_signer_digest) {
                    error == Some(
                        "invalid or duplicate signer row "@ + text::debug_text(
                            signers[k].consumer,
                        ),
                    )
                } else {
                    !valid_signer(signers[k]) ==> error == Some(old_signer_complaint(signers[k]))
                }
            }
        },
{
    if 0 <= i < releases.len() && valid_releases(releases.take(i)) {
        let release = releases[i];
        let forks = release.forks;
        let signers = release.signers;
        let checks = release::release_checks(releases);
        lemma_releases(releases, i);
        lemma_release_error(releases, i);
        lemma_forks(forks, forks.len() as int);
        assert(forks.take(forks.len() as int) =~= forks);
        if 0 <= k < forks.len() && valid_forks(forks.take(k)) {
            let fork_checks = release::fork_checks(forks);
            lemma_forks(forks, k);
            lemma_fork_error(forks, k);
            assert(failure::first_failure(k + 1, fork_checks) == fork_checks(k));
            if fork_checks(k) is Some {
                failure::lemma_first_failure_stays(k + 1, forks.len() as int, fork_checks);
            }
        }
        if 0 <= k < signers.len() && valid_signers(signers.take(k)) {
            let signer_checks = release::signer_checks(signers);
            lemma_signers(signers, k);
            lemma_signer_error(signers, k);
            assert(failure::first_failure(k + 1, signer_checks) == signer_checks(k));
            if signer_checks(k) is Some {
                failure::lemma_first_failure_stays(k + 1, signers.len() as int, signer_checks);
            }
        }
        assert(failure::first_failure(i + 1, checks) == checks(i));
        if checks(i) is Some {
            failure::lemma_first_failure_stays(i + 1, releases.len() as int, checks);
        }
    }
}

/// A release is found exactly where one has the name, and it is the first such
/// one.
pub proof fn law_first_release_of_a_name_is_found(
    releases: Seq<release::ReleaseView>,
    calver: Seq<char>,
)
    ensures
        match release::release_row(releases, calver) {
            None => forall|i: int| 0 <= i < releases.len() ==> (#[trigger] releases[i]).calver
                != calver,
            Some(found) => exists|i: int|
                0 <= i < releases.len() && #[trigger] releases[i] == found && found.calver == calver
                    && forall|j: int| 0 <= j < i ==> (#[trigger] releases[j]).calver != calver,
        },
{
    let names = release::calvers(releases);
    names.index_of_first_ensures(calver);
    match names.index_of_first(calver) {
        Some(i) => {
            assert(releases[i].calver == names[i]);
            assert forall|j: int| 0 <= j < i implies (#[trigger] releases[j]).calver != calver by {
                assert(names[j] == releases[j].calver);
            }
        },
        None => {
            assert forall|i: int| 0 <= i < releases.len() implies (#[trigger] releases[i]).calver
                != calver by {
                assert(names[i] == releases[i].calver);
                assert(names.contains(names[i]));
            }
        },
    }
}

/// Of a loaded release table, each release is found by its name, and only the
/// releases of the table are found.
pub proof fn law_releases_are_found_by_name(
    schema: Seq<char>,
    releases: Seq<release::ReleaseView>,
    calver: Seq<char>,
)
    requires
        release::table_error(schema, releases) is None,
    ensures
        forall|i: int|
            0 <= i < releases.len() ==> release::release_row(
                releases,
                (#[trigger] releases[i]).calver,
            ) == Some(releases[i]),
        release::release_row(releases, calver) matches Some(found) ==> releases.contains(found)
            && found.calver == calver,
{
    law_valid_tables_load(schema, releases);
    assert forall|i: int| 0 <= i < releases.len() implies release::release_row(
        releases,
        (#[trigger] releases[i]).calver,
    ) == Some(releases[i]) by {
        law_first_release_of_a_name_is_found(releases, releases[i].calver);
    }
    law_first_release_of_a_name_is_found(releases, calver);
}

/// A signer row is found exactly where one has the consumer, and it is the first
/// such one.
pub proof fn law_first_signer_of_a_consumer_is_found(
    signers: Seq<release::SignerView>,
    consumer: Seq<char>,
)
    ensures
        match release::signer_row(signers, consumer) {
            None => forall|i: int| 0 <= i < signers.len() ==> (#[trigger] signers[i]).consumer
                != consumer,
            Some(found) => exists|i: int|
                0 <= i < signers.len() && #[trigger] signers[i] == found && found.consumer
                    == consumer && forall|j: int|
                    0 <= j < i ==> (#[trigger] signers[j]).consumer != consumer,
        },
{
    let names = release::signer_consumers(signers);
    names.index_of_first_ensures(consumer);
    match names.index_of_first(consumer) {
        Some(i) => {
            assert(signers[i].consumer == names[i]);
            assert forall|j: int| 0 <= j < i implies (#[trigger] signers[j]).consumer
                != consumer by {
                assert(names[j] == signers[j].consumer);
            }
        },
        None => {
            assert forall|i: int| 0 <= i < signers.len() implies (#[trigger] signers[i]).consumer
                != consumer by {
                assert(names[i] == signers[i].consumer);
                assert(names.contains(names[i]));
            }
        },
    }
}

/// An old signer of an accepted rotation expires at most 30 days after its
/// activation, and, where both time stamps show a time of day on the clock,
/// after its activation.
pub proof fn law_old_signer_window(signer: release::SignerView)
    requires
        release::rotation_error(signer) is None,
        release::names_old_signer(signer),
    ensures
        ({
            let activated = signer.old_signer_activated_at->0;
            let expires = signer.old_signer_expires_at->0;
            let start = time::seconds_of(activated)->0;
            let end = time::seconds_of(expires)->0;
            &&& time::seconds_of(activated) is Some
            &&& time::seconds_of(expires) is Some
            &&& end - start <= 2_592_000
            &&& time::stamp_of(activated).has_clock_time() && time::stamp_of(
                expires,
            ).has_clock_time() ==> start < end
        }),
{
    let activated = signer.old_signer_activated_at->0;
    let expires = signer.old_signer_expires_at->0;
    if time::stamp_of(activated).has_clock_time() && time::stamp_of(expires).has_clock_time() {
        time::law_stamps_sort_by_time(activated, expires);
    }
}

/// A line of a rendered table: a key and its quoted value.
pub open spec fn line(key: Seq<char>, value: Seq<char>) -> Seq<char> {
    key + " = \""@ + value + "\"\n"@
}

/// The lines of a signer table that name the release and its current signer.
pub open spec fn current_lines(calver: Seq<char>, signer: release::SignerView) -> Seq<char> {
    "# Generated by velnor-actions-generator. DO NOT EDIT.\n"@ + line(
        "schema"@,
        "velnor-actions.signer-digests.v1"@,
    ) + line("release"@, calver) + line("consumer"@, signer.consumer) + line(
        "source"@,
        signer.source,
    ) + line("signer_fork"@, signer.signer_fork) + line(
        "current_signer_digest"@,
        signer.current_signer_digest,
    )
}

/// The lines of a signer table that name the old signer.
pub open spec fn old_lines(signer: release::SignerView) -> Seq<char> {
    line("old_signer_digest"@, signer.old_signer_digest->0) + line(
        "old_signer_activated_at"@,
        signer.old_signer_activated_at->0,
    ) + line("old_signer_expires_at"@, signer.old_signer_expires_at->0)
}

proof fn lemma_line_breaks()
    ensures
        "\"\nconsumer = \""@ == "\"\n"@ + "consumer"@ + " = \""@,
        "\"\nsource = \""@ == "\"\n"@ + "source"@ + " = \""@,
        "\"\nsigner_fork = \""@ == "\"\n"@ + "signer_fork"@ + " = \""@,
        "\"\ncurrent_signer_digest = \""@ == "\"\n"@ + "current_signer_digest"@ + " = \""@,
        "old_signer_digest = \""@ == "old_signer_digest"@ + " = \""@,
        "\"\nold_signer_activated_at = \""@ == "\"\n"@ + "old_signer_activated_at"@ + " = \""@,
        "\"\nold_signer_expires_at = \""@ == "\"\n"@ + "old_signer_expires_at"@ + " = \""@,
{
    reveal_strlit("\"\n");
    reveal_strlit(" = \"");
    reveal_strlit("consumer");
    reveal_strlit("\"\nconsumer = \"");
    assert("\"\nconsumer = \""@ =~= "\"\n"@ + "consumer"@ + " = \""@);
    reveal_strlit("source");
    reveal_strlit("\"\nsource = \"");
    assert("\"\nsource = \""@ =~= "\"\n"@ + "source"@ + " = \""@);
    reveal_strlit("signer_fork");
    reveal_strlit("\"\nsigner_fork = \"");
    assert("\"\nsigner_fork = \""@ =~= "\"\n"@ + "signer_fork"@ + " = \""@);
    reveal_strlit("current_signer_digest");
    reveal_strlit("\"\ncurrent_signer_digest = \"");
    assert("\"\ncurrent_signer_digest = \""@ =~= "\"\n"@ + "current_signer_digest"@ + " = \""@);
    reveal_strlit("old_signer_digest");
    reveal_strlit("old_signer_digest = \"");
    assert("old_signer_digest = \""@ =~= "old_signer_digest"@ + " = \""@);
    reveal_strlit("old_signer_activated_at");
    reveal_strlit("\"\nold_signer_activated_at = \"");
    assert("\"\nold_signer_activated_at = \""@ =~= "\"\n"@ + "old_signer_activated_at"@ + " = \""@);
    reveal_strlit("old_signer_expires_at");
    reveal_strlit("\"\nold_signer_expires_at = \"");
    assert("\"\nold_signer_expires_at = \""@ =~= "\"\n"@ + "old_signer_expires_at"@ + " = \""@);
}

proof fn lemma_first_lines()
    ensures
        "# Generated by velnor-actions-generator. DO NOT EDIT.\nschema = \"velnor-actions.signer-digests.v1\"\nrelease = \""@
            == "# Generated by velnor-actions-generator. DO NOT EDIT.\n"@ + "schema"@ + " = \""@
            + "velnor-actions.signer-digests.v1"@ + "\"\n"@ + "release"@ + " = \""@,
{
    reveal_strlit(
        "# Generated by velnor-actions-generator. DO NOT EDIT.\nschema = \"velnor-actions.signer-digests.v1\"\nrelease = \"",
    );
    reveal_strlit("# Generated by velnor-actions-generator. DO NOT EDIT.\n");
    reveal_strlit("schema");
    reveal_strlit(" = \"");
    reveal_strlit("velnor-actions.signer-digests.v1");
    reveal_strlit("\"\n");
    reveal_strlit("release");
    assert("# Generated by velnor-actions-generator. DO NOT EDIT.\nschema = \"velnor-actions.signer-digests.v1\"\nrelease = \""@
        =~= "# Generated by velnor-actions-generator. DO NOT EDIT.\n"@ + "schema"@ + " = \""@
        + "velnor-actions.signer-digests.v1"@ + "\"\n"@ + "release"@ + " = \""@);
}

proof fn lemma_grouped(x: Seq<char>, y: Seq<char>, z: Seq<char>)
    ensures
        x + y + z == x + (y + z),
{
    assert(x + y + z =~= x + (y + z));
}

/// What ends in a value, with the next key and value behind it, is the same by
/// lines.
proof fn lemma_next_line(
    whole: Seq<char>,
    joint: Seq<char>,
    key: Seq<char>,
    value: Seq<char>,
)
    requires
        joint == "\"\n"@ + key + " = \""@,
    ensures
        whole + joint + value + "\"\n"@ == whole + "\"\n"@ + line(key, value),
{
    assert(whole + joint + value + "\"\n"@ =~= whole + "\"\n"@ + line(key, value));
}

proof fn lemma_current_lines(calver: Seq<char>, signer: release::SignerView)
    ensures
        "# Generated by velnor-actions-generator. DO NOT EDIT.\nschema = \"velnor-actions.signer-digests.v1\"\nrelease = \""@
            + calver + "\"\nconsumer = \""@ + signer.consumer + "\"\nsource = \""@ + signer.source
            + "\"\nsigner_fork = \""@ + signer.signer_fork + "\"\ncurrent_signer_digest = \""@
            + signer.current_signer_digest + "\"\n"@ == current_lines(calver, signer),
{
    lemma_first_lines();
    lemma_line_breaks();
    let start = "# Generated by velnor-actions-generator. DO NOT EDIT.\n"@;
    let head = start + line("schema"@, "velnor-actions.signer-digests.v1"@);
    let top = start + "schema"@ + " = \""@ + "velnor-actions.signer-digests.v1"@ + "\"\n"@
        + "release"@ + " = \""@;
    assert(top + calver + "\"\n"@ =~= head + line("release"@, calver));
    let a = top + calver;
    let b = a + "\"\nconsumer = \""@ + signer.consumer;
    let c = b + "\"\nsource = \""@ + signer.source;
    let d = c + "\"\nsigner_fork = \""@ + signer.signer_fork;
    lemma_next_line(a, "\"\nconsumer = \""@, "consumer"@, signer.consumer);
    lemma_next_line(b, "\"\nsource = \""@, "source"@, signer.source);
    lemma_next_line(c, "\"\nsigner_fork = \""@, "signer_fork"@, signer.signer_fork);
    lemma_next_line(
        d,
        "\"\ncurrent_signer_digest = \""@,
        "current_signer_digest"@,
        signer.current_signer_digest,
    );
}

proof fn lemma_old_lines(current: Seq<char>, signer: release::SignerView)
    ensures
        current + "old_signer_digest = \""@ + signer.old_signer_digest->0
            + "\"\nold_signer_activated_at = \""@ + signer.old_signer_activated_at->0
            + "\"\nold_signer_expires_at = \""@ + signer.old_signer_expires_at->0 + "\"\n"@
            == current + old_lines(signer),
{
    lemma_line_breaks();
    let digest = signer.old_signer_digest->0;
    let activated = signer.old_signer_activated_at->0;
    let expires = signer.old_signer_expires_at->0;
    let first = line("old_signer_digest"@, digest);
    let second = line("old_signer_activated_at"@, activated);
    let third = line("old_signer_expires_at"@, expires);
    let a = current + "old_signer_digest = \""@ + digest;
    let b = a + "\"\nold_signer_activated_at = \""@ + activated;
    assert(a + "\"\n"@ =~= current + first);
    lemma_next_line(
        a,
        "\"\nold_signer_activated_at = \""@,
        "old_signer_activated_at"@,
        activated,
    );
    lemma_next_line(b, "\"\nold_signer_expires_at = \""@, "old_signer_expires_at"@, expires);
    lemma_grouped(current, first, second);
    lemma_grouped(current, first + second, third);
}

/// A signer table is its seven lines of the current signer, and for a row with
/// an old signer, whatever its consumer, the three lines of the old signer
/// behind them.
pub proof fn law_signer_tables_by_their_lines(calver: Seq<char>, signer: release::SignerView)
    ensures
        release::signer_text(calver, signer) == if full_old_signer(signer) {
            current_lines(calver, signer) + old_lines(signer)
        } else {
            current_lines(calver, signer)
        },
{
    lemma_current_lines(calver, signer);
    lemma_old_lines(current_lines(calver, signer), signer);
}

/// Every text of a signer row is free of quotes.
pub open spec fn quotable(signer: release::SignerView) -> bool {
    &&& laws::text::lacks(signer.consumer, '"')
    &&& laws::text::lacks(signer.source, '"')
    &&& laws::text::lacks(signer.signer_fork, '"')
    &&& laws::text::lacks(signer.current_signer_digest, '"')
    &&& full_old_signer(signer) ==> {
        &&& laws::text::lacks(signer.old_signer_digest->0, '"')
        &&& laws::text::lacks(signer.old_signer_activated_at->0, '"')
        &&& laws::text::lacks(signer.old_signer_expires_at->0, '"')
    }
}

proof fn lemma_read_line(
    key: Seq<char>,
    value: Seq<char>,
    rest: Seq<char>,
    other: Seq<char>,
    other_rest: Seq<char>,
)
    requires
        line(key, value) + rest == line(key, other) + other_rest,
        laws::text::lacks(value, '"'),
        laws::text::lacks(other, '"'),
    ensures
        value == other,
        rest == other_rest,
{
    reveal_strlit("\"\n");
    reveal_strlit(" = \"");
    let start = key + " = \""@;
    let whole = line(key, value) + rest;
    let tail = seq!['\n'] + rest;
    let other_tail = seq!['\n'] + other_rest;
    assert(whole.skip(start.len() as int) =~= value + seq!['"'] + tail);
    assert((line(key, other) + other_rest).skip(start.len() as int) =~= other + seq!['"']
        + other_tail);
    laws::text::law_cutting_undoes_setting_between(value, '"', tail);
    laws::text::law_cutting_undoes_setting_between(other, '"', other_tail);
    assert(rest =~= tail.skip(1));
    assert(other_rest =~= other_tail.skip(1));
}

proof fn lemma_lines_in_turn(calver: Seq<char>, signer: release::SignerView, rest: Seq<char>)
    ensures
        current_lines(calver, signer) + rest == (
        "# Generated by velnor-actions-generator. DO NOT EDIT.\n"@ + line(
            "schema"@,
            "velnor-actions.signer-digests.v1"@,
        )) + (line("release"@, calver) + (line("consumer"@, signer.consumer) + (line(
            "source"@,
            signer.source,
        ) + (line("signer_fork"@, signer.signer_fork) + (line(
            "current_signer_digest"@,
            signer.current_signer_digest,
        ) + rest))))),
        old_lines(signer) == line("old_signer_digest"@, signer.old_signer_digest->0) + (line(
            "old_signer_activated_at"@,
            signer.old_signer_activated_at->0,
        ) + (line("old_signer_expires_at"@, signer.old_signer_expires_at->0) + Seq::<char>::empty())),
{
    let head = "# Generated by velnor-actions-generator. DO NOT EDIT.\n"@ + line(
        "schema"@,
        "velnor-actions.signer-digests.v1"@,
    );
    let a = line("release"@, calver);
    let b = line("consumer"@, signer.consumer);
    let c = line("source"@, signer.source);
    let d = line("signer_fork"@, signer.signer_fork);
    let e = line("current_signer_digest"@, signer.current_signer_digest);
    lemma_grouped(head + a + b + c + d, e, rest);
    lemma_grouped(head + a + b + c, d, e + rest);
    lemma_grouped(head + a + b, c, d + (e + rest));
    lemma_grouped(head + a, b, c + (d + (e + rest)));
    lemma_grouped(head, a, b + (c + (d + (e + rest))));
    let f = line("old_signer_digest"@, signer.old_signer_digest->0);
    let g = line("old_signer_activated_at"@, signer.old_signer_activated_at->0);
    let h = line("old_signer_expires_at"@, signer.old_signer_expires_at->0);
    assert(h + Seq::<char>::empty() =~= h);
    lemma_grouped(f, g, h);
}

proof fn lemma_same_rest(head: Seq<char>, rest: Seq<char>, other: Seq<char>)
    requires
        head + rest == head + other,
    ensures
        rest == other,
{
    assert((head + rest).skip(head.len() as int) =~= rest);
    assert((head + other).skip(head.len() as int) =~= other);
}

proof fn lemma_lines_are_not_empty(key: Seq<char>, value: Seq<char>, rest: Seq<char>)
    ensures
        (line(key, value) + rest).len() > 0,
{
    reveal_strlit("\"\n");
}

/// A signer table can be read back: tables of different releases or of
/// different rows are different, as long as no text has a quote in it and every
/// row names its old signer in full or not at all.
pub proof fn law_signer_tables_read_back(
    calver: Seq<char>,
    signer: release::SignerView,
    other_calver: Seq<char>,
    other: release::SignerView,
)
    requires
        laws::text::lacks(calver, '"'),
        laws::text::lacks(other_calver, '"'),
        quotable(signer),
        quotable(other),
        no_old_signer(signer) || full_old_signer(signer),
        no_old_signer(other) || full_old_signer(other),
        release::signer_text(calver, signer) == release::signer_text(other_calver, other),
    ensures
        calver == other_calver,
        signer == other,
{
    let nothing = Seq::<char>::empty();
    let old = if full_old_signer(signer) {
        old_lines(signer)
    } else {
        nothing
    };
    let other_old = if full_old_signer(other) {
        old_lines(other)
    } else {
        nothing
    };
    law_signer_tables_by_their_lines(calver, signer);
    law_signer_tables_by_their_lines(other_calver, other);
    let current = current_lines(calver, signer);
    let other_current = current_lines(other_calver, other);
    assert(current + nothing =~= current);
    assert(other_current + nothing =~= other_current);
    lemma_lines_in_turn(calver, signer, old);
    lemma_lines_in_turn(other_calver, other, other_old);
    let head = "# Generated by velnor-actions-generator. DO NOT EDIT.\n"@ + line(
        "schema"@,
        "velnor-actions.signer-digests.v1"@,
    );
    let e = line("current_signer_digest"@, signer.current_signer_digest) + old;
    let d = line("signer_fork"@, signer.signer_fork) + e;
    let c = line("source"@, signer.source) + d;
    let b = line("consumer"@, signer.consumer) + c;
    let a = line("release"@, calver) + b;
    let e1 = line("current_signer_digest"@, other.current_signer_digest) + other_old;
    let d1 = line("signer_fork"@, other.signer_fork) + e1;
    let c1 = line("source"@, other.source) + d1;
    let b1 = line("consumer"@, other.consumer) + c1;
    let a1 = line("release"@, other_calver) + b1;
    lemma_same_rest(head, a, a1);
    lemma_read_line("release"@, calver, b, other_calver, b1);
    lemma_read_line("consumer"@, signer.consumer, c, other.consumer, c1);
    lemma_read_line("source"@, signer.source, d, other.source, d1);
    lemma_read_line("signer_fork"@, signer.signer_fork, e, other.signer_fork, e1);
    lemma_read_line(
        "current_signer_digest"@,
        signer.current_signer_digest,
        old,
        other.current_signer_digest,
        other_old,
    );
    if full_old_signer(signer) {
        let g = line("old_signer_expires_at"@, signer.old_signer_expires_at->0) + nothing;
        let f = line("old_signer_activated_at"@, signer.old_signer_activated_at->0) + g;
        let g1 = line("old_signer_expires_at"@, other.old_signer_expires_at->0) + nothing;
        let f1 = line("old_signer_activated_at"@, other.old_signer_activated_at->0) + g1;
        lemma_lines_are_not_empty("old_signer_digest"@, signer.old_signer_digest->0, f);
        assert(full_old_signer(other));
        lemma_read_line(
            "old_signer_digest"@,
            signer.old_signer_digest->0,
            f,
            other.old_signer_digest->0,
            f1,
        );
        lemma_read_line(
            "old_signer_activated_at"@,
            signer.old_signer_activated_at->0,
            g,
            other.old_signer_activated_at->0,
            g1,
        );
        lemma_read_line(
            "old_signer_expires_at"@,
            signer.old_signer_expires_at->0,
            nothing,
            other.old_signer_expires_at->0,
            nothing,
        );
    } else if full_old_signer(other) {
        let g1 = line("old_signer_expires_at"@, other.old_signer_expires_at->0) + nothing;
        let f1 = line("old_signer_activated_at"@, other.old_signer_activated_at->0) + g1;
        lemma_lines_are_not_empty("old_signer_digest"@, other.old_signer_digest->0, f1);
    }
}

/// The signer table of a consumer for a release is that of the first row of the
/// consumer in the first release of the name. There is none without such a
/// release, without such a row, without a package consumer of the name, or
/// where the row's source is not the package's; what is missing is told.
pub proof fn law_signer_tables_are_of_their_rows(
    releases: Seq<release::ReleaseView>,
    consumers: Seq<package::ConsumerView>,
    consumer: Seq<char>,
    calver: Seq<char>,
    i: int,
    k: int,
    m: int,
)
    ensures
        ({
            let outcome = release::signer_rendering(releases, consumers, consumer, calver);
            &&& (forall|j: int| 0 <= j < releases.len() ==> (#[trigger] releases[j]).calver
                != calver) ==> outcome == Err::<Seq<char>, Seq<char>>(
                "release table has no CalVer "@ + calver,
            )
            &&& first_release(releases, calver, i) ==> {
                let signers = releases[i].signers;
                &&& (forall|j: int| 0 <= j < signers.len() ==> (#[trigger] signers[j]).consumer
                    != consumer) ==> outcome == Err::<Seq<char>, Seq<char>>(
                    "release "@ + calver + " has no signer row for "@ + consumer,
                )
                &&& first_signer(signers, consumer, k) ==> {
                    &&& !laws::package::has_row(consumers, consumer) ==> outcome == Err::<
                        Seq<char>,
                        Seq<char>,
                    >(text::debug_text(consumer) + " is not a package consumer"@)
                    &&& first_row(consumers, consumer, m) ==> outcome == if signers[k].source
                        != consumers[m].source {
                        Err::<Seq<char>, Seq<char>>("signer source mismatch for "@ + consumer)
                    } else if full_old_signer(signers[k]) {
                        Ok(current_lines(calver, signers[k]) + old_lines(signers[k]))
                    } else {
                        Ok(current_lines(calver, signers[k]))
                    }
                }
            }
        }),
{
    law_first_release_of_a_name_is_found(releases, calver);
    if first_release(releases, calver, i) {
        let signers = releases[i].signers;
        assert(release::release_row(releases, calver) == Some(releases[i]));
        law_first_signer_of_a_consumer_is_found(signers, consumer);
        laws::package::law_first_row_of_a_slug_is_found(consumers, consumer);
        if first_signer(signers, consumer, k) {
            assert(release::signer_row(signers, consumer) == Some(signers[k]));
            law_signer_tables_by_their_lines(releases[i].calver, signers[k]);
            if first_row(consumers, consumer, m) {
                assert(package::consumer_row(consumers, consumer) == Some(consumers[m]));
            }
        }
    }
}

/// Release `i` is the first one of a name.
pub open spec fn first_release(
    releases: Seq<release::ReleaseView>,
    calver: Seq<char>,
    i: int,
) -> bool {
    &&& 0 <= i < releases.len()
    &&& releases[i].calver == calver
    &&& forall|j: int| 0 <= j < i ==> (#[trigger] releases[j]).calver != calver
}

/// Signer row `k` is the first one of a consumer.
pub open spec fn first_signer(
    signers: Seq<release::SignerView>,
    consumer: Seq<char>,
    k: int,
) -> bool {
    &&& 0 <= k < signers.len()
    &&& signers[k].consumer == consumer
    &&& forall|j: int| 0 <= j < k ==> (#[trigger] signers[j]).consumer != consumer
}

/// Package row `m` is the first one of a consumer.
pub open spec fn first_row(
    consumers: Seq<package::ConsumerView>,
    consumer: Seq<char>,
    m: int,
) -> bool {
    &&& 0 <= m < consumers.len()
    &&& consumers[m].slug == consumer
    &&& forall|j: int| 0 <= j < m ==> (#[trigger] consumers[j]).slug != consumer
}

/// The rows of a release table are seen field by field.
pub proof fn law_rows_are_seen_whole(
    fork: release::ReleaseFork,
    signer: release::SignerRelease,
    row: release::Release,
)
    ensures
        fork@.owner == fork.owner@,
        fork@.repository == fork.repository@,
        fork@.sha == fork.sha@,
        signer@.consumer == signer.consumer@,
        signer@.source == signer.source@,
        signer@.signer_fork == signer.signer_fork@,
        signer@.current_signer_digest == signer.current_signer_digest@,
        signer@.old_signer_digest is Some <==> signer.old_signer_digest is Some,
        signer.old_signer_digest matches Some(value) ==> signer@.old_signer_digest == Some(value@),
        signer@.old_signer_activated_at is Some <==> signer.old_signer_activated_at is Some,
        signer.old_signer_activated_at matches Some(value) ==> signer@.old_signer_activated_at
            == Some(value@),
        signer@.old_signer_expires_at is Some <==> signer.old_signer_expires_at is Some,
        signer.old_signer_expires_at matches Some(value) ==> signer@.old_signer_expires_at == Some(
            value@,
        ),
        row@.calver == row.calver@,
        row@.forks == row.forks@.map_values(|item: release::ReleaseFork| item@),
        row@.signers == row.signers@.map_values(|item: release::SignerRelease| item@),
{
    assert(row@.forks =~= row.forks@.map_values(|item: release::ReleaseFork| item@));
    assert(row@.signers =~= row.signers@.map_values(|item: release::SignerRelease| item@));
}

/// A fork row of a repository.
pub open spec fn has_fork(forks: Seq<release::ForkView>, repository: Seq<char>) -> bool {
    exists|i: int| 0 <= i < forks.len() && (#[trigger] forks[i]).repository == repository
}

/// A signer row of a consumer.
pub open spec fn has_signer(signers: Seq<release::SignerView>, consumer: Seq<char>) -> bool {
    exists|i: int| 0 <= i < signers.len() && (#[trigger] signers[i]).consumer == consumer
}

/// An owner's text: the owner's name alone, or with a slash and more behind it.
pub open spec fn owned_by(value: Seq<char>, owner: Seq<char>) -> bool {
    &&& laws::text::lacks(owner, '/')
    &&& value == owner || exists|rest: Seq<char>|
        value == #[trigger] laws::text::around(owner, seq!['/'], rest)
}

/// Two texts of one owner.
pub open spec fn same_owner(left: Seq<char>, right: Seq<char>) -> bool {
    exists|owner: Seq<char>| #[trigger] owned_by(left, owner) && owned_by(right, owner)
}

proof fn lemma_owner(value: Seq<char>, owner: Seq<char>)
    ensures
        owned_by(value, owner) <==> agreement::owner_of(value) == owner,
{
    if owned_by(value, owner) {
        if value != owner {
            let rest = choose|rest: Seq<char>|
                value == #[trigger] laws::text::around(owner, seq!['/'], rest);
            laws::text::law_cutting_undoes_setting_between(owner, '/', rest);
        } else {
            laws::text::law_cutting_undoes_setting_between(owner, '/', Seq::empty());
        }
    }
    if agreement::owner_of(value) == owner {
        text::lemma_place_of_is_first(value, '/');
        let place = text::place_of(value, '/') as int;
        if place == value.len() {
            assert(value =~= owner);
        } else {
            assert(value =~= laws::text::around(owner, seq!['/'], value.skip(place + 1)));
        }
    }
}

proof fn lemma_same_owner(left: Seq<char>, right: Seq<char>)
    ensures
        same_owner(left, right) <==> agreement::owner_of(left) == agreement::owner_of(right),
{
    lemma_owner(left, agreement::owner_of(left));
    lemma_owner(right, agreement::owner_of(left));
    if same_owner(left, right) {
        let owner = choose|owner: Seq<char>| #[trigger]
            owned_by(left, owner) && owned_by(right, owner);
        lemma_owner(left, owner);
        lemma_owner(right, owner);
    }
}

/// The package table has a consumer, and the source of its first row is the
/// given one.
pub open spec fn built_from(
    consumers: Seq<package::ConsumerView>,
    consumer: Seq<char>,
    source: Seq<char>,
) -> bool {
    exists|m: int| #[trigger]
        first_row(consumers, consumer, m) && consumers[m].source == source
}

/// A signer row for a consumer of the package table: built from the consumer's
/// source, and signed by a declared fork of the source's owner.
pub open spec fn agreeing_signer(
    signer: release::SignerView,
    consumers: Seq<package::ConsumerView>,
    declared: Seq<Seq<char>>,
) -> bool {
    &&& built_from(consumers, signer.consumer, signer.source)
    &&& declared.contains(signer.signer_fork)
    &&& same_owner(signer.source, signer.signer_fork)
}

/// Fork rows of declared repositories, each of another one.
pub open spec fn agreeing_forks(
    forks: Seq<release::ForkView>,
    declared: Seq<Seq<char>>,
) -> bool {
    &&& forall|i: int| 0 <= i < forks.len() ==> declared.contains((#[trigger] forks[i]).repository)
    &&& forall|i: int, j: int|
        0 <= i < j < forks.len() ==> (#[trigger] forks[i]).repository != (
        #[trigger] forks[j]).repository
}

/// Agreeing signer rows, each of another consumer.
pub open spec fn agreeing_signers(
    signers: Seq<release::SignerView>,
    consumers: Seq<package::ConsumerView>,
    declared: Seq<Seq<char>>,
) -> bool {
    &&& forall|i: int|
        0 <= i < signers.len() ==> agreeing_signer(#[trigger] signers[i], consumers, declared)
    &&& forall|i: int, j: int|
        0 <= i < j < signers.len() ==> (#[trigger] signers[i]).consumer != (
        #[trigger] signers[j]).consumer
}

/// A release whose forks are as many as the declared repositories, each of
/// another one, and whose signers are agreeing rows, each of another consumer,
/// one for every package consumer. The order of the rows does not matter.
pub open spec fn agreeing_release(
    release: release::ReleaseView,
    consumers: Seq<package::ConsumerView>,
    declared: Seq<Seq<char>>,
) -> bool {
    &&& release.forks.len() == declared.len()
    &&& agreeing_forks(release.forks, declared)
    &&& agreeing_signers(release.signers, consumers, declared)
    &&& forall|i: int|
        0 <= i < consumers.len() ==> has_signer(release.signers, (#[trigger] consumers[i]).slug)
}

proof fn lemma_fork_mismatch(
    release: release::ReleaseView,
    declared: Seq<Seq<char>>,
    i: int,
)
    ensures
        agreement::fork_mismatch(release, declared, i) == if declared.contains(
            release.forks[i].repository,
        ) && !fork_seen(release.forks, i) {
            None::<Seq<char>>
        } else {
            Some(
                "release "@ + release.calver + " fork "@ + release.forks[i].repository
                    + " is not exactly one declared fork"@,
            )
        },
{
}

proof fn lemma_agreeing_forks(
    release: release::ReleaseView,
    declared: Seq<Seq<char>>,
    n: int,
)
    requires
        0 <= n <= release.forks.len(),
    ensures
        failure::first_failure(n, agreement::fork_match_checks(release, declared)) is None
            <==> agreeing_forks(release.forks.take(n), declared),
{
    let forks = release.forks;
    let checks = agreement::fork_match_checks(release, declared);
    let some = forks.take(n);
    failure::lemma_first_failure(n, checks);
    if failure::first_failure(n, checks) is None {
        assert forall|i: int| 0 <= i < some.len() implies declared.contains(
            (#[trigger] some[i]).repository,
        ) by {
            assert(checks(i) is None);
        }
        assert forall|i: int, j: int| 0 <= i < j < some.len() implies (
        #[trigger] some[i]).repository != (#[trigger] some[j]).repository by {
            assert(checks(j) is None);
            assert(forks[i] == some[i]);
        }
    }
    if agreeing_forks(some, declared) {
        assert forall|i: int| 0 <= i < n implies (#[trigger] checks(i)) is None by {
            assert(declared.contains(some[i].repository));
            assert forall|j: int| 0 <= j < i implies (#[trigger] forks[j]).repository
                != forks[i].repository by {
                assert(some[j].repository != some[i].repository);
            }
        }
    }
}

/// What is said of a signer row that does not agree.
pub open spec fn signer_disagreement(
    release: release::ReleaseView,
    consumers: Seq<package::ConsumerView>,
    declared: Seq<Seq<char>>,
    i: int,
) -> Seq<char> {
    let signer = release.signers[i];
    "release "@ + release.calver + if !laws::package::has_row(consumers, signer.consumer) {
        " has unknown signer consumer "@ + signer.consumer
    } else if signer_seen(release.signers, i) || !built_from(
        consumers,
        signer.consumer,
        signer.source,
    ) {
        " signer row "@ + signer.consumer + " does not match package source"@
    } else if !declared.contains(signer.signer_fork) {
        " signer "@ + signer.signer_fork + " is not a declared fork"@
    } else {
        " signer "@ + signer.consumer + " crosses source owner boundary"@
    }
}

proof fn lemma_signer_mismatch(
    release: release::ReleaseView,
    consumers: Seq<package::ConsumerView>,
    declared: Seq<Seq<char>>,
    i: int,
)
    ensures
        agreement::signer_mismatch(release, consumers, declared, i) == if agreeing_signer(
            release.signers[i],
            consumers,
            declared,
        ) && !signer_seen(release.signers, i) {
            None::<Seq<char>>
        } else {
            Some(signer_disagreement(release, consumers, declared, i))
        },
{
    let signer = release.signers[i];
    let consumer = signer.consumer;
    laws::package::law_first_row_of_a_slug_is_found(consumers, consumer);
    lemma_same_owner(signer.source, signer.signer_fork);
    match package::consumer_row(consumers, consumer) {
        None => {
            if built_from(consumers, consumer, signer.source) {
                let m = choose|m: int| #[trigger]
                    first_row(consumers, consumer, m) && consumers[m].source == signer.source;
                assert(consumers[m].slug == consumer);
            }
        },
        Some(row) => {
            let k = choose|k: int|
                0 <= k < consumers.len() && #[trigger] consumers[k] == row && row.slug == consumer
                    && forall|j: int| 0 <= j < k ==> (#[trigger] consumers[j]).slug != consumer;
            assert(first_row(consumers, consumer, k));
            assert(laws::package::has_row(consumers, consumer));
            if built_from(consumers, consumer, signer.source) {
                let m = choose|m: int| #[trigger]
                    first_row(consumers, consumer, m) && consumers[m].source == signer.source;
                assert(m == k) by {
                    if m < k {
                        assert(consumers[m].slug != consumer);
                    } else if k < m {
                        assert(consumers[k].slug != consumer);
                    }
                }
            }
        },
    }
    let calver = release.calver;
    let start = "release "@ + calver;
    assert(start + (" has unknown signer consumer "@ + consumer) =~= start
        + " has unknown signer consumer "@ + consumer);
    assert(start + (" signer row "@ + consumer + " does not match package source"@) =~= start
        + " signer row "@ + consumer + " does not match package source"@);
    assert(start + (" signer "@ + signer.signer_fork + " is not a declared fork"@) =~= start
        + " signer "@ + signer.signer_fork + " is not a declared fork"@);
    assert(start + (" signer "@ + consumer + " crosses source owner boundary"@) =~= start
        + " signer "@ + consumer + " crosses source owner boundary"@);
}

proof fn lemma_agreeing_signers(
    release: release::ReleaseView,
    consumers: Seq<package::ConsumerView>,
    declared: Seq<Seq<char>>,
    n: int,
)
    requires
        0 <= n <= release.signers.len(),
    ensures
        failure::first_failure(
            n,
            agreement::signer_match_checks(release, consumers, declared),
        ) is None <==> agreeing_signers(release.signers.take(n), consumers, declared),
{
    let signers = release.signers;
    let checks = agreement::signer_match_checks(release, consumers, declared);
    let some = signers.take(n);
    failure::lemma_first_failure(n, checks);
    if failure::first_failure(n, checks) is None {
        assert forall|i: int| 0 <= i < some.len() implies agreeing_signer(
            #[trigger] some[i],
            consumers,
            declared,
        ) by {
            assert(checks(i) is None);
            lemma_signer_mismatch(release, consumers, declared, i);
        }
        assert forall|i: int, j: int| 0 <= i < j < some.len() implies (
        #[trigger] some[i]).consumer != (#[trigger] some[j]).consumer by {
            assert(checks(j) is None);
            lemma_signer_mismatch(release, consumers, declared, j);
            assert(signers[i] == some[i]);
        }
    }
    if agreeing_signers(some, consumers, declared) {
        assert forall|i: int| 0 <= i < n implies (#[trigger] checks(i)) is None by {
            lemma_signer_mismatch(release, consumers, declared, i);
            assert(agreeing_signer(some[i], consumers, declared));
            assert forall|j: int| 0 <= j < i implies (#[trigger] signers[j]).consumer
                != signers[i].consumer by {
                assert(some[j].consumer != some[i].consumer);
            }
        }
    }
}

/// As many different declared repositories as there are declared ones are all of
/// them, and none is declared twice.
proof fn lemma_as_many_forks(forks: Seq<release::ForkView>, declared: Seq<Seq<char>>)
    requires
        forks.len() == declared.len(),
        agreeing_forks(forks, declared),
    ensures
        release::repositories(forks).no_duplicates(),
        release::repositories(forks).to_set() == declared.to_set(),
        declared.no_duplicates(),
        forall|i: int| 0 <= i < declared.len() ==> has_fork(forks, #[trigger] declared[i]),
{
    let present = release::repositories(forks);
    assert forall|i: int, j: int| 0 <= i < j < present.len() implies present[i] != present[j] by {
        assert(forks[i].repository != forks[j].repository);
    }
    present.unique_seq_to_set();
    vstd::seq_lib::seq_to_set_is_finite(present);
    vstd::seq_lib::seq_to_set_is_finite(declared);
    declared.lemma_cardinality_of_set();
    assert forall|name: Seq<char>| present.to_set().contains(name) implies declared.to_set().contains(
        name,
    ) by {
        let i = choose|i: int| 0 <= i < present.len() && present[i] == name;
        assert(declared.contains(forks[i].repository));
    }
    assert(present.to_set().subset_of(declared.to_set()));
    vstd::set_lib::lemma_len_subset(present.to_set(), declared.to_set());
    vstd::set_lib::lemma_subset_equality(present.to_set(), declared.to_set());
    declared.lemma_no_dup_set_cardinality();
    assert forall|i: int| 0 <= i < declared.len() implies has_fork(
        forks,
        #[trigger] declared[i],
    ) by {
        assert(declared.to_set().contains(declared[i]));
        assert(present.to_set().contains(declared[i]));
        let k = choose|k: int| 0 <= k < present.len() && present[k] == declared[i];
        assert(forks[k].repository == declared[i]);
    }
}

proof fn lemma_signer_coverage(
    signers: Seq<release::SignerView>,
    consumers: Seq<package::ConsumerView>,
    declared: Seq<Seq<char>>,
)
    requires
        agreeing_signers(signers, consumers, declared),
    ensures
        release::signer_consumers(signers).to_set() == package::slugs(consumers).to_set()
            <==> forall|i: int|
            0 <= i < consumers.len() ==> has_signer(signers, (#[trigger] consumers[i]).slug),
        release::signer_consumers(signers).no_duplicates(),
{
    let present = release::signer_consumers(signers);
    let slugs = package::slugs(consumers);
    assert forall|i: int, j: int| 0 <= i < j < present.len() implies present[i] != present[j] by {
        assert(signers[i].consumer != signers[j].consumer);
    }
    assert forall|name: Seq<char>| present.contains(name) implies slugs.contains(name) by {
        let i = choose|i: int| 0 <= i < present.len() && present[i] == name;
        assert(agreeing_signer(signers[i], consumers, declared));
        let m = choose|m: int| #[trigger]
            first_row(consumers, name, m) && consumers[m].source == signers[i].source;
        assert(slugs[m] == name);
    }
    if present.to_set() == slugs.to_set() {
        assert forall|i: int| 0 <= i < consumers.len() implies has_signer(
            signers,
            (#[trigger] consumers[i]).slug,
        ) by {
            assert(slugs[i] == consumers[i].slug);
            assert(slugs.to_set().contains(slugs[i]));
            assert(present.to_set().contains(slugs[i]));
            let k = choose|k: int| 0 <= k < present.len() && present[k] == slugs[i];
            assert(signers[k].consumer == slugs[i]);
        }
    }
    if forall|i: int|
        0 <= i < consumers.len() ==> has_signer(signers, (#[trigger] consumers[i]).slug) {
        assert forall|name: Seq<char>| slugs.contains(name) implies present.contains(name) by {
            let i = choose|i: int| 0 <= i < slugs.len() && slugs[i] == name;
            assert(has_signer(signers, consumers[i].slug));
            let k = choose|k: int| 0 <= k < signers.len() && (#[trigger] signers[k]).consumer == name;
            assert(present[k] == name);
        }
        assert(present.to_set() =~= slugs.to_set());
    }
}

proof fn lemma_release_mismatch(
    release: release::ReleaseView,
    consumers: Seq<package::ConsumerView>,
    declared: Seq<Seq<char>>,
)
    ensures
        agreement::release_mismatch(release, consumers, declared) is None <==> agreeing_release(
            release,
            consumers,
            declared,
        ),
{
    let (forks, signers) = (release.forks, release.signers);
    lemma_agreeing_forks(release, declared, forks.len() as int);
    lemma_agreeing_signers(release, consumers, declared, signers.len() as int);
    assert(forks.take(forks.len() as int) =~= forks);
    assert(signers.take(signers.len() as int) =~= signers);
    if forks.len() == declared.len() && agreeing_forks(forks, declared) {
        lemma_as_many_forks(forks, declared);
    }
    if agreeing_signers(signers, consumers, declared) {
        lemma_signer_coverage(signers, consumers, declared);
    }
}

/// A release table agrees with the package and fork tables exactly where every
/// release has the declared forks, each once, and agreeing signers of the
/// package consumers, each once, whatever the order of the rows.
pub proof fn law_agreement_of_the_tables(
    releases: Seq<release::ReleaseView>,
    consumers: Seq<package::ConsumerView>,
    declared: Seq<Seq<char>>,
)
    ensures
        agreement::table_mismatch(releases, consumers, declared) is None <==> forall|i: int|
            0 <= i < releases.len() ==> agreeing_release(
                #[trigger] releases[i],
                consumers,
                declared,
            ),
{
    let checks = agreement::release_match_checks(releases, consumers, declared);
    failure::lemma_first_failure(releases.len() as int, checks);
    assert forall|i: int| 0 <= i < releases.len() implies ((#[trigger] checks(i)) is None
        <==> agreeing_release(releases[i], consumers, declared)) by {
        lemma_release_mismatch(releases[i], consumers, declared);
    }
    if agreement::table_mismatch(releases, consumers, declared) is None {
        assert forall|i: int| 0 <= i < releases.len() implies agreeing_release(
            #[trigger] releases[i],
            consumers,
            declared,
        ) by {
            assert(checks(i) is None);
        }
    }
}

/// In a release table that agrees with the package and fork tables, every
/// release covers exactly the declared forks and exactly the package consumers,
/// and no signer crosses an owner boundary.
pub proof fn law_agreeing_table(
    releases: Seq<release::ReleaseView>,
    consumers: Seq<package::ConsumerView>,
    declared: Seq<Seq<char>>,
)
    requires
        agreement::table_mismatch(releases, consumers, declared) is None,
    ensures
        forall|i: int|
            0 <= i < releases.len() ==> agreeing_release(
                #[trigger] releases[i],
                consumers,
                declared,
            ),
        forall|i: int|
            0 <= i < releases.len() ==> {
                let release = #[trigger] releases[i];
                &&& release::repositories(release.forks).no_duplicates()
                &&& release::repositories(release.forks).to_set() == declared.to_set()
                &&& release::signer_consumers(release.signers).no_duplicates()
                &&& release::signer_consumers(release.signers).to_set() == package::slugs(
                    consumers,
                ).to_set()
            },
        forall|i: int, j: int|
            0 <= i < releases.len() && 0 <= j < declared.len() ==> has_fork(
                (#[trigger] releases[i]).forks,
                #[trigger] declared[j],
            ),
{
    law_agreement_of_the_tables(releases, consumers, declared);
    assert forall|i: int| 0 <= i < releases.len() implies {
        let release = #[trigger] releases[i];
        &&& release::repositories(release.forks).no_duplicates()
        &&& release::repositories(release.forks).to_set() == declared.to_set()
        &&& release::signer_consumers(release.signers).no_duplicates()
        &&& release::signer_consumers(release.signers).to_set() == package::slugs(
            consumers,
        ).to_set()
    } by {
        let release = releases[i];
        assert(agreeing_release(release, consumers, declared));
        lemma_as_many_forks(release.forks, declared);
        lemma_signer_coverage(release.signers, consumers, declared);
    }
    assert forall|i: int, j: int|
        0 <= i < releases.len() && 0 <= j < declared.len() implies has_fork(
        (#[trigger] releases[i]).forks,
        #[trigger] declared[j],
    ) by {
        assert(agreeing_release(releases[i], consumers, declared));
        lemma_as_many_forks(releases[i].forks, declared);
    }
}

/// The first release that does not agree decides: by the number of its forks, by
/// its first fork row that is not declared or that repeats one, by its first
/// signer row that does not agree or that repeats one, and last by a package
/// consumer without a row.
pub proof fn law_first_disagreement_is_told(
    releases: Seq<release::ReleaseView>,
    consumers: Seq<package::ConsumerView>,
    declared: Seq<Seq<char>>,
    i: int,
    k: int,
)
    requires
        0 <= i < releases.len(),
        forall|j: int| 0 <= j < i ==> agreeing_release(#[trigger] releases[j], consumers, declared),
    ensures
        ({
            let release = releases[i];
            let forks = release.forks;
            let signers = release.signers;
            let error = agreement::table_mismatch(releases, consumers, declared);
            if forks.len() != declared.len() {
                error == Some(
                    "release "@ + release.calver + " has "@ + text::decimal(forks.len())
                        + " forks, expected "@ + text::decimal(declared.len()),
                )
            } else if !agreeing_forks(forks, declared) {
                0 <= k < forks.len() && agreeing_forks(forks.take(k), declared) && (
                !declared.contains(forks[k].repository) || fork_seen(forks, k)) ==> error == Some(
                    "release "@ + release.calver + " fork "@ + forks[k].repository
                        + " is not exactly one declared fork"@,
                )
            } else if !agreeing_signers(signers, consumers, declared) {
                0 <= k < signers.len() && agreeing_signers(signers.take(k), consumers, declared) && (
                !agreeing_signer(signers[k], consumers, declared) || signer_seen(signers, k))
                    ==> error == Some(signer_disagreement(release, consumers, declared, k))
            } else {
                !agreeing_release(release, consumers, declared) ==> error == Some(
                    "release "@ + release.calver
                        + " signer consumer set differs from package table"@,
                )
            }
        }),
{
    let release = releases[i];
    let (forks, signers) = (release.forks, release.signers);
    let checks = agreement::release_match_checks(releases, consumers, declared);
    let fork_checks = agreement::fork_match_checks(release, declared);
    let signer_checks = agreement::signer_match_checks(release, consumers, declared);
    failure::lemma_first_failure(i, checks);
    assert forall|j: int| 0 <= j < i implies (#[trigger] checks(j)) is None by {
        lemma_release_mismatch(releases[j], consumers, declared);
    }
    lemma_release_mismatch(release, consumers, declared);
    lemma_agreeing_forks(release, declared, forks.len() as int);
    lemma_agreeing_signers(release, consumers, declared, signers.len() as int);
    assert(forks.take(forks.len() as int) =~= forks);
    assert(signers.take(signers.len() as int) =~= signers);
    if forks.len() == declared.len() && agreeing_forks(forks, declared) {
        lemma_as_many_forks(forks, declared);
    }
    if 0 <= k < forks.len() && agreeing_forks(forks.take(k), declared) {
        lemma_agreeing_forks(release, declared, k);
        lemma_fork_mismatch(release, declared, k);
        assert(failure::first_failure(k + 1, fork_checks) == fork_checks(k));
        if fork_checks(k) is Some {
            failure::lemma_first_failure_stays(k + 1, forks.len() as int, fork_checks);
        }
    }
    if 0 <= k < signers.len() && agreeing_signers(signers.take(k), consumers, declared) {
        lemma_agreeing_signers(release, consumers, declared, k);
        lemma_signer_mismatch(release, consumers, declared, k);
        assert(failure::first_failure(k + 1, signer_checks) == signer_checks(k));
        if signer_checks(k) is Some {
            failure::lemma_first_failure_stays(k + 1, signers.len() as int, signer_checks);
        }
    }
    assert(failure::first_failure(i + 1, checks) == checks(i));
    if checks(i) is Some {
        failure::lemma_first_failure_stays(i + 1, releases.len() as int, checks);
    }
}

/// A fork table that a release table agrees with declares no repository twice.
pub proof fn law_agreeing_fork_table_has_no_duplicates(
    releases: Seq<release::ReleaseView>,
    consumers: Seq<package::ConsumerView>,
    declared: Seq<Seq<char>>,
)
    requires
        releases.len() > 0,
        agreement::table_mismatch(releases, consumers, declared) is None,
    ensures
        declared.no_duplicates(),
{
    law_agreeing_table(releases, consumers, declared);
    assert(agreeing_release(releases[0], consumers, declared));
    lemma_as_many_forks(releases[0].forks, declared);
}

/// Every release that agrees with a package policy has exactly six signer rows,
/// one for each package consumer.
pub proof fn law_releases_have_six_signers(
    releases: Seq<release::ReleaseView>,
    policy: package::PackagePolicyView,
    declared: Seq<Seq<char>>,
)
    requires
        package::policy_error(policy) is None,
        agreement::table_mismatch(releases, policy.consumers, declared) is None,
    ensures
        forall|i: int|
            0 <= i < releases.len() ==> (#[trigger] releases[i]).signers.len() == 6
                && release::signer_consumers(releases[i].signers).to_set()
                == package::approved_consumers(),
{
    law_agreeing_table(releases, policy.consumers, declared);
    laws::package::law_policy_is_the_six_consumers(policy);
    package::slugs(policy.consumers).unique_seq_to_set();
    assert forall|i: int| 0 <= i < releases.len() implies (#[trigger] releases[i]).signers.len()
        == 6 && release::signer_consumers(releases[i].signers).to_set()
        == package::approved_consumers() by {
        release::signer_consumers(releases[i].signers).unique_seq_to_set();
    }
}

/// Of a release table that agrees with the package and fork tables, the signer
/// table is rendered for exactly the releases of the one and the consumers of
/// the other.
pub proof fn law_agreeing_table_renders_its_signers(
    releases: Seq<release::ReleaseView>,
    consumers: Seq<package::ConsumerView>,
    declared: Seq<Seq<char>>,
    consumer: Seq<char>,
    calver: Seq<char>,
)
    requires
        agreement::table_mismatch(releases, consumers, declared) is None,
    ensures
        release::signer_rendering(releases, consumers, consumer, calver) is Ok <==> (
        release::calvers(releases).contains(calver) && package::slugs(consumers).contains(
            consumer,
        )),
{
    law_agreeing_table(releases, consumers, declared);
    let names = release::calvers(releases);
    let slugs = package::slugs(consumers);
    names.index_of_first_ensures(calver);
    slugs.index_of_first_ensures(consumer);
    if names.contains(calver) {
        let release = releases[names.index_of_first(calver)->0];
        let signed = release::signer_consumers(release.signers);
        assert(agreeing_release(release, consumers, declared));
        assert(signed.to_set().contains(consumer) == signed.contains(consumer));
        assert(slugs.to_set().contains(consumer) == slugs.contains(consumer));
        signed.index_of_first_ensures(consumer);
        if signed.contains(consumer) {
            let signer = release.signers[signed.index_of_first(consumer)->0];
            assert(signer.consumer == consumer);
            assert(agreeing_signer(signer, consumers, declared));
            let m = choose|m: int| #[trigger]
                first_row(consumers, consumer, m) && consumers[m].source == signer.source;
            assert(slugs[m] == consumer);
            let first = slugs.index_of_first(consumer)->0;
            assert(consumers[first].slug == consumer);
            assert(first == m);
        }
    }
}

} // verus!
