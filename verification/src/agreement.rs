//! Agreement of the releases with the fork table and the package table.

use vstd::prelude::*;

use crate::failure;
use crate::model;
use crate::model::ForkTable;
use crate::package;
use crate::package::PackagePolicy;
use crate::release;
use crate::release::Release;
use crate::text;

verus! {

/// Why fork row `i` of a release does not agree with the declared repositories,
/// given the rows before it.
pub open spec fn fork_mismatch(
    release: release::ReleaseView,
    declared: Seq<Seq<char>>,
    i: int,
) -> Option<Seq<char>> {
    let repository = release.forks[i].repository;
    if !declared.contains(repository) || exists|j: int|
        0 <= j < i && (#[trigger] release.forks[j]).repository == repository {
        Some(
            "release "@ + release.calver + " fork "@ + repository
                + " is not exactly one declared fork"@,
        )
    } else {
        None
    }
}

/// The check of each fork row against the fork table.
pub open spec fn fork_match_checks(
    release: release::ReleaseView,
    declared: Seq<Seq<char>>,
) -> spec_fn(int) -> Option<Seq<char>> {
    |i: int| fork_mismatch(release, declared, i)
}

/// The owner of a repository slug: what stands before its first slash.
pub open spec fn owner_of(repository: Seq<char>) -> Seq<char> {
    text::before(repository, '/')
}

/// Why signer row `i` of a release does not agree with the package table and
/// the declared repositories, given the rows before it.
pub open spec fn signer_mismatch(
    release: release::ReleaseView,
    consumers: Seq<package::ConsumerView>,
    declared: Seq<Seq<char>>,
    i: int,
) -> Option<Seq<char>> {
    let signer = release.signers[i];
    match package::consumer_row(consumers, signer.consumer) {
        None => Some(
            "release "@ + release.calver + " has unknown signer consumer "@ + signer.consumer,
        ),
        Some(row) => if signer.source != row.source || exists|j: int|
            0 <= j < i && (#[trigger] release.signers[j]).consumer == signer.consumer {
            Some(
                "release "@ + release.calver + " signer row "@ + signer.consumer
                    + " does not match package source"@,
            )
        } else if !declared.contains(signer.signer_fork) {
            Some(
                "release "@ + release.calver + " signer "@ + signer.signer_fork
                    + " is not a declared fork"@,
            )
        } else if owner_of(signer.source) != owner_of(signer.signer_fork) {
            Some(
                "release "@ + release.calver + " signer "@ + signer.consumer
                    + " crosses source owner boundary"@,
            )
        } else {
            None
        },
    }
}

/// The check of each signer row against the package and fork tables.
pub open spec fn signer_match_checks(
    release: release::ReleaseView,
    consumers: Seq<package::ConsumerView>,
    declared: Seq<Seq<char>>,
) -> spec_fn(int) -> Option<Seq<char>> {
    |i: int| signer_mismatch(release, consumers, declared, i)
}

/// Why a release does not agree with the package and fork tables. Its forks
/// must be the declared ones, each once; its signers must be those of the
/// package consumers, each once.
pub open spec fn release_mismatch(
    release: release::ReleaseView,
    consumers: Seq<package::ConsumerView>,
    declared: Seq<Seq<char>>,
) -> Option<Seq<char>> {
    let fork_failure = failure::first_failure(
        release.forks.len() as int,
        fork_match_checks(release, declared),
    );
    let signer_failure = failure::first_failure(
        release.signers.len() as int,
        signer_match_checks(release, consumers, declared),
    );
    if release.forks.len() != declared.len() {
        Some(
            "release "@ + release.calver + " has "@ + text::decimal(release.forks.len())
                + " forks, expected "@ + text::decimal(declared.len()),
        )
    } else if fork_failure is Some {
        fork_failure
    } else if release::repositories(release.forks).to_set() != declared.to_set() {
        Some("release "@ + release.calver + " fork set differs from fork table"@)
    } else if signer_failure is Some {
        signer_failure
    } else if release::signer_consumers(release.signers).to_set() != package::slugs(
        consumers,
    ).to_set() {
        Some("release "@ + release.calver + " signer consumer set differs from package table"@)
    } else {
        None
    }
}

/// The check of each release against the package and fork tables.
pub open spec fn release_match_checks(
    releases: Seq<release::ReleaseView>,
    consumers: Seq<package::ConsumerView>,
    declared: Seq<Seq<char>>,
) -> spec_fn(int) -> Option<Seq<char>> {
    |i: int| release_mismatch(releases[i], consumers, declared)
}

/// Why a release table does not agree with the package and fork tables: the
/// first release that does not.
pub open spec fn table_mismatch(
    releases: Seq<release::ReleaseView>,
    consumers: Seq<package::ConsumerView>,
    declared: Seq<Seq<char>>,
) -> Option<Seq<char>> {
    failure::first_failure(
        releases.len() as int,
        release_match_checks(releases, consumers, declared),
    )
}

/// Whether a fork row before row `end` has the repository.
fn has_fork(release: &Release, repository: &str, end: usize) -> (found: bool)
    requires
        end <= release.forks@.len(),
    ensures
        found == exists|j: int|
            0 <= j < end && (#[trigger] release@.forks[j]).repository == repository@,
{
    let mut j: usize = 0;
    while j < end
        invariant
            j <= end <= release.forks@.len(),
            forall|k: int| 0 <= k < j ==> (#[trigger] release@.forks[k]).repository != repository@,
        decreases end - j,
    {
        assert(release@.forks[j as int] == release.forks@[j as int]@);
        if text::same_text(release.forks[j].repository.as_str(), repository) {
            return true;
        }
        j = j + 1;
    }
    false
}

fn match_forks(release: &Release, forks: &ForkTable) -> (result: Result<(), String>)
    ensures
        ({
            let failed = failure::first_failure(
                release.forks@.len() as int,
                fork_match_checks(release@, forks@),
            );
            match result {
                Ok(_) => failed is None,
                Err(message) => failed == Some(message@),
            }
        }),
{
    let ghost checks = fork_match_checks(release@, forks@);
    let mut i: usize = 0;
    while i < release.forks.len()
        invariant
            i <= release.forks@.len(),
            checks == fork_match_checks(release@, forks@),
            failure::first_failure(i as int, checks) is None,
        decreases release.forks@.len() - i,
    {
        let repository = release.forks[i].repository.as_str();
        assert(release@.forks[i as int] == release.forks@[i as int]@);
        if !forks.declares(repository) || has_fork(release, repository, i) {
            let message = text::cat5(
                "release ",
                release.calver.as_str(),
                " fork ",
                repository,
                " is not exactly one declared fork",
            );
            proof {
                failure::lemma_first_failure_stays(i + 1, release.forks@.len() as int, checks);
            }
            return Err(message);
        }
        i = i + 1;
    }
    Ok(())
}

fn match_signer(
    release: &Release,
    packages: &PackagePolicy,
    forks: &ForkTable,
    i: usize,
) -> (result: Result<(), String>)
    requires
        i < release.signers@.len(),
    ensures
        match result {
            Ok(_) => signer_mismatch(release@, packages@.consumers, forks@, i as int) is None,
            Err(message) => signer_mismatch(release@, packages@.consumers, forks@, i as int)
                == Some(message@),
        },
{
    let calver = release.calver.as_str();
    let signer = &release.signers[i];
    let consumer = signer.consumer.as_str();
    assert(release@.signers[i as int] == signer@);
    let package = match packages.consumer(consumer) {
        Some(package) => package,
        None => {
            return Err(text::cat4("release ", calver, " has unknown signer consumer ", consumer));
        },
    };
    if release::has_signer(&release.signers, consumer, i) || !text::same_text(
        signer.source(),
        package.source(),
    ) {
        return Err(
            text::cat5(
                "release ",
                calver,
                " signer row ",
                consumer,
                " does not match package source",
            ),
        );
    }
    if !forks.declares(signer.signer_fork.as_str()) {
        return Err(
            text::cat5(
                "release ",
                calver,
                " signer ",
                signer.signer_fork.as_str(),
                " is not a declared fork",
            ),
        );
    }
    let (expected_owner, _) = text::cut(signer.source(), '/');
    let (actual_owner, _) = text::cut(signer.signer_fork.as_str(), '/');
    if !text::same_text(expected_owner, actual_owner) {
        return Err(
            text::cat5("release ", calver, " signer ", consumer, " crosses source owner boundary"),
        );
    }
    Ok(())
}

fn match_signers(release: &Release, packages: &PackagePolicy, forks: &ForkTable) -> (result: Result<
    (),
    String,
>)
    ensures
        ({
            let failed = failure::first_failure(
                release.signers@.len() as int,
                signer_match_checks(release@, packages@.consumers, forks@),
            );
            match result {
                Ok(_) => failed is None,
                Err(message) => failed == Some(message@),
            }
        }),
{
    let ghost checks = signer_match_checks(release@, packages@.consumers, forks@);
    let mut i: usize = 0;
    while i < release.signers.len()
        invariant
            i <= release.signers@.len(),
            checks == signer_match_checks(release@, packages@.consumers, forks@),
            failure::first_failure(i as int, checks) is None,
        decreases release.signers@.len() - i,
    {
        match match_signer(release, packages, forks, i) {
            Ok(_) => {},
            Err(message) => {
                proof {
                    failure::lemma_first_failure_stays(
                        i + 1,
                        release.signers@.len() as int,
                        checks,
                    );
                }
                return Err(message);
            },
        }
        i = i + 1;
    }
    Ok(())
}

/// Whether every declared repository has a fork row.
fn has_every_fork(release: &Release, forks: &ForkTable) -> (yes: bool)
    ensures
        yes == forall|i: int|
            0 <= i < forks@.len() ==> release::repositories(release@.forks).contains(
                #[trigger] forks@[i],
            ),
{
    let entries = forks.entries();
    let ghost present = release::repositories(release@.forks);
    let mut i: usize = 0;
    while i < entries.len()
        invariant
            i <= entries@.len() == forks@.len(),
            present == release::repositories(release@.forks),
            forall|k: int|
                0 <= k < entries@.len() ==> #[trigger] forks@[k] == entries@[k].repository@,
            forall|k: int| 0 <= k < i ==> present.contains(#[trigger] forks@[k]),
        decreases entries@.len() - i,
    {
        let repository = entries[i].repository.as_str();
        let found = has_fork(release, repository, release.forks.len());
        assert(forks@[i as int] == repository@);
        proof {
            if found {
                let j = choose|j: int|
                    0 <= j < release@.forks.len() && (#[trigger] release@.forks[j]).repository
                        == repository@;
                assert(present[j] == repository@);
            } else if present.contains(repository@) {
                let j = choose|j: int| 0 <= j < present.len() && present[j] == repository@;
                assert(release@.forks[j].repository == repository@);
            }
        }
        if !found {
            return false;
        }
        i = i + 1;
    }
    true
}

/// Whether every package consumer has a signer row.
fn has_every_signer(release: &Release, packages: &PackagePolicy) -> (yes: bool)
    ensures
        yes == forall|i: int|
            0 <= i < packages@.consumers.len() ==> release::signer_consumers(
                release@.signers,
            ).contains((#[trigger] packages@.consumers[i]).slug),
{
    let slugs = packages.consumer_slugs();
    let ghost rows = packages@.consumers;
    let ghost present = release::signer_consumers(release@.signers);
    let mut i: usize = 0;
    while i < slugs.len()
        invariant
            i <= slugs@.len() == rows.len(),
            rows == packages@.consumers,
            present == release::signer_consumers(release@.signers),
            forall|k: int| 0 <= k < slugs@.len() ==> (#[trigger] slugs@[k])@ == rows[k].slug,
            forall|k: int| 0 <= k < i ==> present.contains((#[trigger] rows[k]).slug),
        decreases slugs@.len() - i,
    {
        let slug = slugs[i];
        let found = release::has_signer(&release.signers, slug, release.signers.len());
        assert(rows[i as int].slug == slug@);
        proof {
            if found {
                let j = choose|j: int|
                    0 <= j < release@.signers.len() && (#[trigger] release@.signers[j]).consumer
                        == slug@;
                assert(present[j] == slug@);
            } else if present.contains(slug@) {
                let j = choose|j: int| 0 <= j < present.len() && present[j] == slug@;
                assert(release@.signers[j].consumer == slug@);
            }
        }
        if !found {
            return false;
        }
        i = i + 1;
    }
    true
}

/// Of fork rows that each agree with the fork table, the repositories are the
/// declared ones exactly where each declared one is among them.
proof fn lemma_fork_sets(release: release::ReleaseView, declared: Seq<Seq<char>>)
    requires
        failure::first_failure(
            release.forks.len() as int,
            fork_match_checks(release, declared),
        ) is None,
    ensures
        release::repositories(release.forks).to_set() == declared.to_set() <==> forall|i: int|
            0 <= i < declared.len() ==> release::repositories(release.forks).contains(
                #[trigger] declared[i],
            ),
{
    let checks = fork_match_checks(release, declared);
    let present = release::repositories(release.forks);
    failure::lemma_first_failure(release.forks.len() as int, checks);
    assert forall|name: Seq<char>| present.contains(name) implies declared.contains(name) by {
        let j = choose|j: int| 0 <= j < present.len() && present[j] == name;
        assert(checks(j) is None);
    }
    if present.to_set() == declared.to_set() {
        assert forall|i: int| 0 <= i < declared.len() implies present.contains(
            #[trigger] declared[i],
        ) by {
            assert(declared.to_set().contains(declared[i]));
            assert(present.to_set().contains(declared[i]));
        }
    }
    if forall|i: int| 0 <= i < declared.len() ==> present.contains(#[trigger] declared[i]) {
        assert(present.to_set() =~= declared.to_set());
    }
}

/// Of signer rows that each agree with the tables, the consumers are those of
/// the package table exactly where each of them is among them.
proof fn lemma_signer_sets(
    release: release::ReleaseView,
    consumers: Seq<package::ConsumerView>,
    declared: Seq<Seq<char>>,
)
    requires
        failure::first_failure(
            release.signers.len() as int,
            signer_match_checks(release, consumers, declared),
        ) is None,
    ensures
        release::signer_consumers(release.signers).to_set() == package::slugs(consumers).to_set()
            <==> forall|i: int|
            0 <= i < consumers.len() ==> release::signer_consumers(release.signers).contains(
                (#[trigger] consumers[i]).slug,
            ),
{
    let checks = signer_match_checks(release, consumers, declared);
    let present = release::signer_consumers(release.signers);
    let slugs = package::slugs(consumers);
    failure::lemma_first_failure(release.signers.len() as int, checks);
    assert forall|name: Seq<char>| present.contains(name) implies slugs.contains(name) by {
        let j = choose|j: int| 0 <= j < present.len() && present[j] == name;
        assert(checks(j) is None);
        slugs.index_of_first_ensures(name);
    }
    if present.to_set() == slugs.to_set() {
        assert forall|i: int| 0 <= i < consumers.len() implies present.contains(
            (#[trigger] consumers[i]).slug,
        ) by {
            assert(slugs[i] == consumers[i].slug);
            assert(slugs.to_set().contains(slugs[i]));
            assert(present.to_set().contains(slugs[i]));
        }
    }
    if forall|i: int| 0 <= i < consumers.len() ==> present.contains((#[trigger] consumers[i]).slug) {
        assert forall|name: Seq<char>| slugs.contains(name) implies present.contains(name) by {
            let j = choose|j: int| 0 <= j < slugs.len() && slugs[j] == name;
            assert(consumers[j].slug == name);
        }
        assert(present.to_set() =~= slugs.to_set());
    }
}

/// Checks one release against the package and fork tables.
pub(crate) fn match_release(release: &Release, packages: &PackagePolicy, forks: &ForkTable) -> (result:
    Result<(), String>)
    ensures
        match result {
            Ok(_) => release_mismatch(release@, packages@.consumers, forks@) is None,
            Err(message) => release_mismatch(release@, packages@.consumers, forks@) == Some(
                message@,
            ),
        },
{
    let calver = release.calver.as_str();
    let declared = forks.entries().len();
    if release.forks.len() != declared {
        let found = text::cat5(
            "release ",
            calver,
            " has ",
            text::decimal_text(release.forks.len()).as_str(),
            " forks, expected ",
        );
        return Err(text::cat2(found.as_str(), text::decimal_text(declared).as_str()));
    }
    match match_forks(release, forks) {
        Ok(_) => {},
        Err(message) => {
            return Err(message);
        },
    }
    proof {
        lemma_fork_sets(release@, forks@);
    }
    if !has_every_fork(release, forks) {
        return Err(text::cat3("release ", calver, " fork set differs from fork table"));
    }
    match match_signers(release, packages, forks) {
        Ok(_) => {},
        Err(message) => {
            return Err(message);
        },
    }
    proof {
        lemma_signer_sets(release@, packages@.consumers, forks@);
    }
    if !has_every_signer(release, packages) {
        return Err(
            text::cat3("release ", calver, " signer consumer set differs from package table"),
        );
    }
    Ok(())
}

} // verus!
