//! Release-table validation and signer rendering.

use vstd::prelude::*;
use vstd::string::*;

use crate::agreement;
use crate::calver;
use crate::failure;
use crate::model;
use crate::model::ForkTable;
use crate::mirror;
use crate::mirror::{ForkCheck, Progress};
use crate::package;
use crate::package::PackagePolicy;
use crate::text;
use crate::time;

verus! {

/// The name and version of the release table's format.
pub const RELEASE_SCHEMA: &'static str = "velnor-actions.releases.v1";

/// The longest time, in seconds, that an old signer stays accepted: 30 days.
pub const OLD_SIGNER_WINDOW: i64 = 30 * 24 * 60 * 60;

/// One owner-local fork commit for a release.
#[derive(Debug, Clone, PartialEq, Eq)]
pub struct ReleaseFork {
    pub owner: String,
    pub repository: String,
    pub sha: String,
}

/// One package consumer's signer rotation for a release.
#[derive(Debug, Clone, PartialEq, Eq)]
pub struct SignerRelease {
    pub consumer: String,
    pub source: String,
    pub signer_fork: String,
    pub current_signer_digest: String,
    pub old_signer_digest: Option<String>,
    pub old_signer_activated_at: Option<String>,
    pub old_signer_expires_at: Option<String>,
}

/// One CalVer release and the mirror commits that comprise it.
#[derive(Debug, Clone, PartialEq, Eq)]
pub struct Release {
    pub calver: String,
    pub forks: Vec<ReleaseFork>,
    pub signers: Vec<SignerRelease>,
}

/// The release table and its immutable fork and signer rows.
#[derive(Debug, Clone, PartialEq, Eq)]
pub struct ReleasePolicy {
    releases: Vec<Release>,
}

/// A fork commit as texts.
pub struct ForkView {
    pub owner: Seq<char>,
    pub repository: Seq<char>,
    pub sha: Seq<char>,
}

/// A signer rotation as texts.
pub struct SignerView {
    pub consumer: Seq<char>,
    pub source: Seq<char>,
    pub signer_fork: Seq<char>,
    pub current_signer_digest: Seq<char>,
    pub old_signer_digest: Option<Seq<char>>,
    pub old_signer_activated_at: Option<Seq<char>>,
    pub old_signer_expires_at: Option<Seq<char>>,
}

/// A release as texts.
pub struct ReleaseView {
    pub calver: Seq<char>,
    pub forks: Seq<ForkView>,
    pub signers: Seq<SignerView>,
}

/// The characters of a text that may be missing.
pub open spec fn optional_text(value: Option<String>) -> Option<Seq<char>> {
    match value {
        Some(value) => Some(value@),
        None => None,
    }
}

impl View for ReleaseFork {
    type V = ForkView;

    open spec fn view(&self) -> ForkView {
        ForkView { owner: self.owner@, repository: self.repository@, sha: self.sha@ }
    }
}

impl View for SignerRelease {
    type V = SignerView;

    open spec fn view(&self) -> SignerView {
        SignerView {
            consumer: self.consumer@,
            source: self.source@,
            signer_fork: self.signer_fork@,
            current_signer_digest: self.current_signer_digest@,
            old_signer_digest: optional_text(self.old_signer_digest),
            old_signer_activated_at: optional_text(self.old_signer_activated_at),
            old_signer_expires_at: optional_text(self.old_signer_expires_at),
        }
    }
}

impl View for Release {
    type V = ReleaseView;

    open spec fn view(&self) -> ReleaseView {
        ReleaseView {
            calver: self.calver@,
            forks: model::views(self.forks@),
            signers: model::views(self.signers@),
        }
    }
}

impl View for ReleasePolicy {
    type V = Seq<ReleaseView>;

    closed spec fn view(&self) -> Seq<ReleaseView> {
        model::views(self.releases@)
    }
}

/// The repositories of fork rows, in order.
pub open spec fn repositories(forks: Seq<ForkView>) -> Seq<Seq<char>> {
    Seq::new(forks.len(), |i: int| forks[i].repository)
}

/// The consumers of signer rows, in order.
pub open spec fn signer_consumers(signers: Seq<SignerView>) -> Seq<Seq<char>> {
    Seq::new(signers.len(), |i: int| signers[i].consumer)
}

/// The names of releases, in order.
pub open spec fn calvers(releases: Seq<ReleaseView>) -> Seq<Seq<char>> {
    Seq::new(releases.len(), |i: int| releases[i].calver)
}

/// The repository of an owner's mirror.
pub open spec fn mirror_of(owner: Seq<char>) -> Seq<char> {
    owner + "/velnor-actions"@
}

/// Why fork row `i` is refused, given the rows before it.
pub open spec fn fork_error(forks: Seq<ForkView>, i: int) -> Option<Seq<char>> {
    let fork = forks[i];
    if (exists|j: int| 0 <= j < i && (#[trigger] forks[j]).repository == fork.repository)
        || fork.repository != mirror_of(fork.owner) || !model::sha40(fork.sha) {
        Some("invalid or duplicate release fork "@ + fork.repository + "@"@ + fork.sha)
    } else {
        None
    }
}

/// The check of each fork row.
pub open spec fn fork_checks(forks: Seq<ForkView>) -> spec_fn(int) -> Option<Seq<char>> {
    |i: int| fork_error(forks, i)
}

/// Whether a rotation names no old signer at all.
pub open spec fn names_no_old_signer(signer: SignerView) -> bool {
    signer.old_signer_digest is None && signer.old_signer_activated_at is None
        && signer.old_signer_expires_at is None
}

/// Whether a rotation names an old signer in full.
pub open spec fn names_old_signer(signer: SignerView) -> bool {
    signer.old_signer_digest is Some && signer.old_signer_activated_at is Some
        && signer.old_signer_expires_at is Some
}

/// Why a rotation's old signer is refused. An old signer is named in full or
/// not at all, differs from the current one, and is accepted for a stretch of
/// time that is not empty and at most 30 days long.
pub open spec fn rotation_error(signer: SignerView) -> Option<Seq<char>> {
    let rotation = "signer rotation for "@ + signer.consumer;
    if !names_no_old_signer(signer) && !names_old_signer(signer) {
        Some(rotation + " must declare all old fields"@)
    } else if names_no_old_signer(signer) {
        None
    } else {
        let digest = signer.old_signer_digest->0;
        let activated = signer.old_signer_activated_at->0;
        let expires = signer.old_signer_expires_at->0;
        if !model::sha40(digest) || digest == signer.current_signer_digest {
            Some(rotation + " has an invalid old digest"@)
        } else if !time::is_stamp(activated) || !time::is_stamp(expires) || !text::sorts_before(
            activated,
            expires,
        ) {
            Some(rotation + " has invalid UTC bounds"@)
        } else if time::seconds_of(activated) is None {
            Some(rotation + " has invalid activation"@)
        } else if time::seconds_of(expires) is None {
            Some(rotation + " has invalid expiry"@)
        } else if time::seconds_of(expires)->0 > time::seconds_of(activated)->0
            + OLD_SIGNER_WINDOW {
            Some(rotation + " exceeds the 30-day old-signer window"@)
        } else {
            None
        }
    }
}

/// Why signer row `i` is refused, given the rows before it.
pub open spec fn signer_error(signers: Seq<SignerView>, i: int) -> Option<Seq<char>> {
    let signer = signers[i];
    if (exists|j: int| 0 <= j < i && (#[trigger] signers[j]).consumer == signer.consumer)
        || !model::sha40(signer.current_signer_digest) {
        Some("invalid or duplicate signer row "@ + text::debug_text(signer.consumer))
    } else {
        rotation_error(signer)
    }
}

/// The check of each signer row.
pub open spec fn signer_checks(signers: Seq<SignerView>) -> spec_fn(int) -> Option<Seq<char>> {
    |i: int| signer_error(signers, i)
}

/// The first failure of the fork rows of a release.
pub open spec fn forks_error(forks: Seq<ForkView>) -> Option<Seq<char>> {
    failure::first_failure(forks.len() as int, fork_checks(forks))
}

/// The first failure of the signer rows of a release.
pub open spec fn signers_error(signers: Seq<SignerView>) -> Option<Seq<char>> {
    failure::first_failure(signers.len() as int, signer_checks(signers))
}

/// Why release `i` is refused, given the releases before it: its name, then its
/// forks, then its signers.
pub open spec fn release_error(releases: Seq<ReleaseView>, i: int) -> Option<Seq<char>> {
    let release = releases[i];
    if calver::calver_error(release.calver) is Some {
        calver::calver_error(release.calver)
    } else if exists|j: int| 0 <= j < i && (#[trigger] releases[j]).calver == release.calver {
        Some("duplicate release "@ + text::debug_text(release.calver))
    } else if forks_error(release.forks) is Some {
        forks_error(release.forks)
    } else {
        signers_error(release.signers)
    }
}

/// The check of each release.
pub open spec fn release_checks(releases: Seq<ReleaseView>) -> spec_fn(int) -> Option<Seq<char>> {
    |i: int| release_error(releases, i)
}

/// Why a release table is refused: none when its syntax and its immutable
/// identities are valid.
pub open spec fn table_error(schema: Seq<char>, releases: Seq<ReleaseView>) -> Option<Seq<char>> {
    if schema != RELEASE_SCHEMA@ {
        Some("unknown release table schema "@ + text::debug_text(schema))
    } else if releases.len() == 0 {
        Some("release table must declare at least one release"@)
    } else {
        failure::first_failure(releases.len() as int, release_checks(releases))
    }
}

fn check_fork(forks: &Vec<ReleaseFork>, i: usize) -> (result: Result<(), String>)
    requires
        i < forks@.len(),
    ensures
        match result {
            Ok(_) => fork_error(model::views(forks@), i as int) is None,
            Err(message) => fork_error(model::views(forks@), i as int) == Some(message@),
        },
{
    let fork = &forks[i];
    let ghost rows = model::views(forks@);
    assert(rows[i as int] == fork@);
    let mut seen = false;
    let mut j: usize = 0;
    while j < i && !seen
        invariant
            j <= i < forks@.len(),
            rows == model::views(forks@),
            fork@ == rows[i as int],
            seen == exists|k: int|
                0 <= k < j && (#[trigger] rows[k]).repository == fork.repository@,
        ensures
            seen == exists|k: int|
                0 <= k < i && (#[trigger] rows[k]).repository == fork.repository@,
        decreases i - j,
    {
        assert(rows[j as int] == forks@[j as int]@);
        seen = text::same_text(forks[j].repository.as_str(), fork.repository.as_str());
        j = j + 1;
    }
    let mirror = text::cat2(fork.owner.as_str(), "/velnor-actions");
    if seen || !text::same_text(fork.repository.as_str(), mirror.as_str()) || !model::is_sha40(
        fork.sha.as_str(),
    ) {
        return Err(
            text::cat4(
                "invalid or duplicate release fork ",
                fork.repository.as_str(),
                "@",
                fork.sha.as_str(),
            ),
        );
    }
    Ok(())
}

fn check_forks(forks: &Vec<ReleaseFork>) -> (result: Result<(), String>)
    ensures
        match result {
            Ok(_) => forks_error(model::views(forks@)) is None,
            Err(message) => forks_error(model::views(forks@)) == Some(message@),
        },
{
    let ghost checks = fork_checks(model::views(forks@));
    let mut i: usize = 0;
    while i < forks.len()
        invariant
            i <= forks@.len(),
            checks == fork_checks(model::views(forks@)),
            failure::first_failure(i as int, checks) is None,
        decreases forks@.len() - i,
    {
        match check_fork(forks, i) {
            Ok(_) => {},
            Err(message) => {
                proof {
                    failure::lemma_first_failure_stays(i + 1, forks@.len() as int, checks);
                }
                return Err(message);
            },
        }
        i = i + 1;
    }
    Ok(())
}

fn check_rotation(signer: &SignerRelease) -> (result: Result<(), String>)
    ensures
        match result {
            Ok(_) => rotation_error(signer@) is None,
            Err(message) => rotation_error(signer@) == Some(message@),
        },
{
    let rotation = text::cat2("signer rotation for ", signer.consumer.as_str());
    match (
        &signer.old_signer_digest,
        &signer.old_signer_activated_at,
        &signer.old_signer_expires_at,
    ) {
        (None, None, None) => Ok(()),
        (Some(digest), Some(activated), Some(expires)) => {
            let digest = digest.as_str();
            let activated = activated.as_str();
            let expires = expires.as_str();
            if !model::is_sha40(digest) || text::same_text(
                digest,
                signer.current_signer_digest.as_str(),
            ) {
                return Err(text::cat2(rotation.as_str(), " has an invalid old digest"));
            }
            if !time::looks_rfc3339_utc(activated) || !time::looks_rfc3339_utc(expires)
                || !text::comes_before(activated, expires) {
                return Err(text::cat2(rotation.as_str(), " has invalid UTC bounds"));
            }
            let activated_seconds = match time::utc_seconds(activated) {
                Some(seconds) => seconds,
                None => {
                    return Err(text::cat2(rotation.as_str(), " has invalid activation"));
                },
            };
            let expires_seconds = match time::utc_seconds(expires) {
                Some(seconds) => seconds,
                None => {
                    return Err(text::cat2(rotation.as_str(), " has invalid expiry"));
                },
            };
            if expires_seconds > activated_seconds + OLD_SIGNER_WINDOW {
                return Err(text::cat2(rotation.as_str(), " exceeds the 30-day old-signer window"));
            }
            Ok(())
        },
        _ => Err(text::cat2(rotation.as_str(), " must declare all old fields")),
    }
}

/// Whether a signer row before row `end` has the consumer.
pub(crate) fn has_signer(signers: &Vec<SignerRelease>, consumer: &str, end: usize) -> (found: bool)
    requires
        end <= signers@.len(),
    ensures
        found == exists|j: int|
            0 <= j < end && (#[trigger] model::views(signers@)[j]).consumer == consumer@,
{
    let ghost rows = model::views(signers@);
    let mut j: usize = 0;
    while j < end
        invariant
            j <= end <= signers@.len(),
            rows == model::views(signers@),
            forall|k: int| 0 <= k < j ==> (#[trigger] rows[k]).consumer != consumer@,
        decreases end - j,
    {
        assert(rows[j as int] == signers@[j as int]@);
        if text::same_text(signers[j].consumer.as_str(), consumer) {
            return true;
        }
        j = j + 1;
    }
    false
}

fn check_signer(signers: &Vec<SignerRelease>, i: usize) -> (result: Result<(), String>)
    requires
        i < signers@.len(),
    ensures
        match result {
            Ok(_) => signer_error(model::views(signers@), i as int) is None,
            Err(message) => signer_error(model::views(signers@), i as int) == Some(message@),
        },
{
    let signer = &signers[i];
    assert(model::views(signers@)[i as int] == signer@);
    let consumer = signer.consumer.as_str();
    if has_signer(signers, consumer, i) || !model::is_sha40(
        signer.current_signer_digest.as_str(),
    ) {
        return Err(
            text::cat2("invalid or duplicate signer row ", text::quoted(consumer).as_str()),
        );
    }
    check_rotation(signer)
}

fn check_signers(signers: &Vec<SignerRelease>) -> (result: Result<(), String>)
    ensures
        match result {
            Ok(_) => signers_error(model::views(signers@)) is None,
            Err(message) => signers_error(model::views(signers@)) == Some(message@),
        },
{
    let ghost checks = signer_checks(model::views(signers@));
    let mut i: usize = 0;
    while i < signers.len()
        invariant
            i <= signers@.len(),
            checks == signer_checks(model::views(signers@)),
            failure::first_failure(i as int, checks) is None,
        decreases signers@.len() - i,
    {
        match check_signer(signers, i) {
            Ok(_) => {},
            Err(message) => {
                proof {
                    failure::lemma_first_failure_stays(i + 1, signers@.len() as int, checks);
                }
                return Err(message);
            },
        }
        i = i + 1;
    }
    Ok(())
}

fn check_release(releases: &Vec<Release>, i: usize) -> (result: Result<(), String>)
    requires
        i < releases@.len(),
    ensures
        match result {
            Ok(_) => release_error(model::views(releases@), i as int) is None,
            Err(message) => release_error(model::views(releases@), i as int) == Some(message@),
        },
{
    let release = &releases[i];
    let calver = release.calver.as_str();
    let ghost rows = model::views(releases@);
    assert(rows[i as int] == release@);
    match calver::validate_calver(calver) {
        Ok(_) => {},
        Err(message) => {
            return Err(message);
        },
    }
    let mut j: usize = 0;
    while j < i
        invariant
            j <= i < releases@.len(),
            rows == model::views(releases@),
            calver@ == rows[i as int].calver,
            calver::calver_error(calver@) is None,
            forall|k: int| 0 <= k < j ==> (#[trigger] rows[k]).calver != calver@,
        decreases i - j,
    {
        assert(rows[j as int] == releases@[j as int]@);
        if text::same_text(releases[j].calver.as_str(), calver) {
            return Err(text::cat2("duplicate release ", text::quoted(calver).as_str()));
        }
        j = j + 1;
    }
    match check_forks(&release.forks) {
        Ok(_) => {},
        Err(message) => {
            return Err(message);
        },
    }
    check_signers(&release.signers)
}

/// The first release with a name.
pub open spec fn release_row(releases: Seq<ReleaseView>, calver: Seq<char>) -> Option<ReleaseView> {
    match calvers(releases).index_of_first(calver) {
        Some(i) => Some(releases[i]),
        None => None,
    }
}

/// The first signer row of a consumer.
pub open spec fn signer_row(signers: Seq<SignerView>, consumer: Seq<char>) -> Option<SignerView> {
    match signer_consumers(signers).index_of_first(consumer) {
        Some(i) => Some(signers[i]),
        None => None,
    }
}

/// The fixed-name signer table of a consumer for a release.
pub open spec fn signer_text(calver: Seq<char>, signer: SignerView) -> Seq<char> {
    let current = "# Generated by velnor-actions-generator. DO NOT EDIT.\nschema = \"velnor-actions.signer-digests.v1\"\nrelease = \""@
        + calver + "\"\nconsumer = \""@ + signer.consumer + "\"\nsource = \""@ + signer.source
        + "\"\nsigner_fork = \""@ + signer.signer_fork + "\"\ncurrent_signer_digest = \""@
        + signer.current_signer_digest + "\"\n"@;
    if names_old_signer(signer) {
        current + "old_signer_digest = \""@ + signer.old_signer_digest->0
            + "\"\nold_signer_activated_at = \""@ + signer.old_signer_activated_at->0
            + "\"\nold_signer_expires_at = \""@ + signer.old_signer_expires_at->0 + "\"\n"@
    } else {
        current
    }
}

/// A consumer's signer table, or the reason that there is none.
pub open spec fn signer_rendering(
    releases: Seq<ReleaseView>,
    consumers: Seq<package::ConsumerView>,
    consumer: Seq<char>,
    calver: Seq<char>,
) -> Result<Seq<char>, Seq<char>> {
    match release_row(releases, calver) {
        None => Err("release table has no CalVer "@ + calver),
        Some(release) => match signer_row(release.signers, consumer) {
            None => Err("release "@ + calver + " has no signer row for "@ + consumer),
            Some(signer) => match package::consumer_row(consumers, consumer) {
                None => Err(text::debug_text(consumer) + " is not a package consumer"@),
                Some(row) => if signer.source != row.source {
                    Err("signer source mismatch for "@ + consumer)
                } else {
                    Ok(signer_text(release.calver, signer))
                },
            },
        },
    }
}

fn find_signer<'a>(signers: &'a Vec<SignerRelease>, consumer: &str) -> (result: Option<
    &'a SignerRelease,
>)
    ensures
        match result {
            Some(signer) => signer_row(model::views(signers@), consumer@) == Some(signer@),
            None => signer_row(model::views(signers@), consumer@) is None,
        },
{
    let ghost rows = model::views(signers@);
    let ghost all = signer_consumers(rows);
    let mut i: usize = 0;
    while i < signers.len()
        invariant
            i <= signers@.len(),
            rows == model::views(signers@),
            all == signer_consumers(rows),
            forall|k: int| 0 <= k < i ==> #[trigger] all[k] != consumer@,
        decreases signers@.len() - i,
    {
        assert(rows[i as int] == signers@[i as int]@);
        if text::same_text(signers[i].consumer.as_str(), consumer) {
            proof {
                text::lemma_first_place(all, consumer@, i as int);
            }
            return Some(&signers[i]);
        }
        i = i + 1;
    }
    proof {
        all.index_of_first_ensures(consumer@);
    }
    None
}

fn signer_table(calver: &str, signer: &SignerRelease) -> (table: String)
    ensures
        table@ == signer_text(calver@, signer@),
{
    let mut table = text::cat5(
        "# Generated by velnor-actions-generator. DO NOT EDIT.\nschema = \"velnor-actions.signer-digests.v1\"\nrelease = \"",
        calver,
        "\"\nconsumer = \"",
        signer.consumer.as_str(),
        "\"\nsource = \"",
    );
    table.append(signer.source.as_str());
    table.append("\"\nsigner_fork = \"");
    table.append(signer.signer_fork.as_str());
    table.append("\"\ncurrent_signer_digest = \"");
    table.append(signer.current_signer_digest.as_str());
    table.append("\"\n");
    match (
        &signer.old_signer_digest,
        &signer.old_signer_activated_at,
        &signer.old_signer_expires_at,
    ) {
        (Some(digest), Some(activated), Some(expires)) => {
            table.append("old_signer_digest = \"");
            table.append(digest.as_str());
            table.append("\"\nold_signer_activated_at = \"");
            table.append(activated.as_str());
            table.append("\"\nold_signer_expires_at = \"");
            table.append(expires.as_str());
            table.append("\"\n");
        },
        _ => {},
    }
    table
}

impl SignerRelease {
    /// The repository that the signed packages are built from.
    pub fn source(&self) -> (source: &str)
        ensures
            source@ == self@.source,
            source@ == self.source@,
    {
        self.source.as_str()
    }
}

impl ReleasePolicy {
    /// Takes the rows of a release table, refusing a table whose syntax or
    /// immutable identities are not valid.
    pub fn load(schema: String, releases: Vec<Release>) -> (result: Result<ReleasePolicy, String>)
        ensures
            match result {
                Ok(policy) => policy@ == model::views(releases@) && table_error(
                    schema@,
                    model::views(releases@),
                ) is None,
                Err(message) => table_error(schema@, model::views(releases@)) == Some(message@),
            },
    {
        if !text::same_text(schema.as_str(), RELEASE_SCHEMA) {
            return Err(
                text::cat2(
                    "unknown release table schema ",
                    text::quoted(schema.as_str()).as_str(),
                ),
            );
        }
        if releases.len() == 0 {
            return Err("release table must declare at least one release".to_owned());
        }
        let ghost checks = release_checks(model::views(releases@));
        let mut i: usize = 0;
        while i < releases.len()
            invariant
                i <= releases@.len(),
                releases@.len() > 0,
                schema@ == RELEASE_SCHEMA@,
                checks == release_checks(model::views(releases@)),
                failure::first_failure(i as int, checks) is None,
            decreases releases@.len() - i,
        {
            match check_release(&releases, i) {
                Ok(_) => {},
                Err(message) => {
                    proof {
                        failure::lemma_first_failure_stays(i + 1, releases@.len() as int, checks);
                    }
                    return Err(message);
                },
            }
            i = i + 1;
        }
        Ok(ReleasePolicy { releases })
    }

    /// Returns one release by CalVer.
    pub fn release(&self, calver: &str) -> (result: Result<&Release, String>)
        ensures
            match result {
                Ok(release) => release_row(self@, calver@) == Some(release@),
                Err(message) => release_row(self@, calver@) is None && message@
                    == "release table has no CalVer "@ + calver@,
            },
    {
        let ghost all = calvers(self@);
        let mut i: usize = 0;
        while i < self.releases.len()
            invariant
                i <= self.releases@.len(),
                all == calvers(self@),
                forall|k: int| 0 <= k < i ==> #[trigger] all[k] != calver@,
            decreases self.releases@.len() - i,
        {
            assert(self@[i as int] == self.releases@[i as int]@);
            if text::same_text(self.releases[i].calver.as_str(), calver) {
                proof {
                    text::lemma_first_place(all, calver@, i as int);
                }
                return Ok(&self.releases[i]);
            }
            i = i + 1;
        }
        proof {
            all.index_of_first_ensures(calver@);
        }
        Err(text::cat2("release table has no CalVer ", calver))
    }

    /// Validates the releases against the fork and package tables.
    pub fn validate_against(&self, packages: &PackagePolicy, forks: &ForkTable) -> (result: Result<
        (),
        String,
    >)
        ensures
            match result {
                Ok(_) => agreement::table_mismatch(self@, packages@.consumers, forks@) is None,
                Err(message) => agreement::table_mismatch(self@, packages@.consumers, forks@)
                    == Some(message@),
            },
    {
        let ghost checks = agreement::release_match_checks(self@, packages@.consumers, forks@);
        let mut i: usize = 0;
        while i < self.releases.len()
            invariant
                i <= self.releases@.len(),
                checks == agreement::release_match_checks(self@, packages@.consumers, forks@),
                failure::first_failure(i as int, checks) is None,
            decreases self.releases@.len() - i,
        {
            assert(self@[i as int] == self.releases@[i as int]@);
            match agreement::match_release(&self.releases[i], packages, forks) {
                Ok(_) => {},
                Err(message) => {
                    proof {
                        failure::lemma_first_failure_stays(i + 1, self@.len() as int, checks);
                    }
                    return Err(message);
                },
            }
            i = i + 1;
        }
        Ok(())
    }

    /// Renders the fixed-name signer table that package updater workflows
    /// consume.
    pub fn render_signer_digests(
        &self,
        packages: &PackagePolicy,
        consumer: &str,
        calver: &str,
    ) -> (result: Result<String, String>)
        ensures
            text::result_text(result) == signer_rendering(
                self@,
                packages@.consumers,
                consumer@,
                calver@,
            ),
    {
        let release = match self.release(calver) {
            Ok(release) => release,
            Err(message) => {
                return Err(message);
            },
        };
        let signer = match find_signer(&release.signers, consumer) {
            Some(signer) => signer,
            None => {
                return Err(text::cat4("release ", calver, " has no signer row for ", consumer));
            },
        };
        let package = match packages.consumer(consumer) {
            Some(package) => package,
            None => {
                return Err(
                    text::cat2(text::quoted(consumer).as_str(), " is not a package consumer"),
                );
            },
        };
        if !text::same_text(signer.source(), package.source()) {
            return Err(text::cat2("signer source mismatch for ", consumer));
        }
        Ok(signer_table(release.calver.as_str(), signer))
    }

    /// Starts the check that every declared mirror of a release has its tag at
    /// the commit of the release table, and that all mirrors have identical blob
    /// paths, modes and object IDs. This is deliberately an explicit live check;
    /// ordinary generation stays offline and deterministic.
    pub fn check_fork_equality<'a>(
        &'a self,
        forks: &'a ForkTable,
        calver: &'a str,
    ) -> (progress: Progress<'a>)
        ensures
            progress@ == mirror::started(self@, forks@, calver@),
    {
        match self.release(calver) {
            Ok(release) => ForkCheck::start(calver, &release.forks, forks),
            Err(message) => Progress::Done(Err(message)),
        }
    }
}

} // verus!
