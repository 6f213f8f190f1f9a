//! Closed package-consumer policy and generated workflow contracts.

use vstd::prelude::*;
use vstd::string::*;

use crate::calver;
use crate::failure;
use crate::model;
use crate::text;

verus! {

/// One package repository that consumes releases.
#[derive(Debug)]
pub struct Consumer {
    pub slug: String,
    pub kind: String,
    pub source: String,
    pub source_ref: String,
    pub channels: Vec<String>,
    pub assets: Vec<String>,
    pub preview_assets: Vec<String>,
}

/// A package repository as texts.
pub struct ConsumerView {
    pub slug: Seq<char>,
    pub kind: Seq<char>,
    pub source: Seq<char>,
    pub source_ref: Seq<char>,
    pub channels: Seq<Seq<char>>,
    pub assets: Seq<Seq<char>>,
    pub preview_assets: Seq<Seq<char>>,
}

impl View for Consumer {
    type V = ConsumerView;

    open spec fn view(&self) -> ConsumerView {
        ConsumerView {
            slug: self.slug@,
            kind: self.kind@,
            source: self.source@,
            source_ref: self.source_ref@,
            channels: text::texts(self.channels@),
            assets: text::texts(self.assets@),
            preview_assets: text::texts(self.preview_assets@),
        }
    }
}

impl Consumer {
    /// The repository that the packages are built from.
    pub fn source(&self) -> (source: &str)
        ensures
            source@ == self@.source,
            source@ == self.source@,
    {
        self.source.as_str()
    }
}

/// The slugs of the rows, in table order.
pub open spec fn slugs(rows: Seq<ConsumerView>) -> Seq<Seq<char>> {
    Seq::new(rows.len(), |i: int| rows[i].slug)
}

/// The first row with a slug.
pub open spec fn consumer_row(rows: Seq<ConsumerView>, slug: Seq<char>) -> Option<ConsumerView> {
    match slugs(rows).index_of_first(slug) {
        Some(i) => Some(rows[i]),
        None => None,
    }
}

/// The name and version of the table's format.
pub const POLICY_SCHEMA: &'static str = "velnor-actions.package-policy.v1";

/// The Homebrew taps that may consume packages.
pub open spec fn tap_consumer(slug: Seq<char>) -> bool {
    ||| slug == "jackin-project/homebrew-tap"@
    ||| slug == "tailrocks/homebrew-holla"@
    ||| slug == "tailrocks/homebrew-parallax"@
    ||| slug == "tailrocks/homebrew-tablerock"@
}

/// The APT repositories that may consume packages.
pub open spec fn apt_consumer(slug: Seq<char>) -> bool {
    slug == "tailrocks/holla-apt"@ || slug == "tailrocks/velnor-apt"@
}

/// The six consumers that a package policy names.
pub open spec fn approved_consumers() -> Set<Seq<char>> {
    Set::new(|slug: Seq<char>| tap_consumer(slug) || apt_consumer(slug))
}

/// The kind that an approved consumer must have.
pub open spec fn kind_of(slug: Seq<char>) -> Option<Seq<char>> {
    if tap_consumer(slug) {
        Some("tap"@)
    } else if apt_consumer(slug) {
        Some("apt"@)
    } else {
        None
    }
}

/// The repositories that packages may be built from.
pub open spec fn approved_source(source: Seq<char>) -> bool {
    ||| source == "tailrocks/tablerock"@
    ||| source == "tailrocks/parallax"@
    ||| source == "tailrocks/holla"@
    ||| source == "tailrocks/velnor"@
    ||| source == "jackin-project/jackin"@
}

/// The channels that a consumer may follow.
pub open spec fn known_channel(channel: Seq<char>) -> bool {
    channel == "stable"@ || channel == "preview"@ || channel == "dev"@
}

/// A file name pattern that is not empty and cannot leave its directory.
pub open spec fn safe_name(asset: Seq<char>) -> bool {
    asset.len() > 0 && !asset.contains('/') && !text::occurs(asset, ".."@)
}

/// Whether the ending of an asset is one of the formats of its package kind.
pub open spec fn package_format(kind: Seq<char>, asset: Seq<char>) -> bool {
    if kind == "tap"@ {
        ".tar.gz"@.is_suffix_of(asset) || ".zip"@.is_suffix_of(asset)
    } else {
        kind == "apt"@ && ".deb"@.is_suffix_of(asset)
    }
}

/// Whether every channel of a list is a known one.
pub open spec fn known_channels(channels: Seq<Seq<char>>) -> bool {
    forall|i: int| 0 <= i < channels.len() ==> known_channel(#[trigger] channels[i])
}

/// Whether every asset of a list is safe.
pub open spec fn safe_names(assets: Seq<Seq<char>>) -> bool {
    forall|i: int| 0 <= i < assets.len() ==> safe_name(#[trigger] assets[i])
}

/// Whether every asset of a list has a format of the package kind.
pub open spec fn package_formats(kind: Seq<char>, assets: Seq<Seq<char>>) -> bool {
    forall|i: int| 0 <= i < assets.len() ==> package_format(kind, #[trigger] assets[i])
}

/// Why row `i` is refused, given the rows before it: none when it passes.
pub open spec fn row_error(rows: Seq<ConsumerView>, i: int) -> Option<Seq<char>> {
    let row = rows[i];
    if exists|j: int| 0 <= j < i && (#[trigger] rows[j]).slug == row.slug {
        Some("duplicate package consumer "@ + text::debug_text(row.slug))
    } else if kind_of(row.slug) is None {
        Some("unapproved package consumer "@ + text::debug_text(row.slug))
    } else if row.kind != kind_of(row.slug)->0 {
        Some(row.slug + " must have kind "@ + kind_of(row.slug)->0)
    } else if !approved_source(row.source) {
        Some("unapproved package source "@ + text::debug_text(row.source))
    } else if row.source_ref != "refs/tags/v*"@ {
        Some(row.slug + " has mutable or unknown source_ref"@)
    } else if row.channels.len() == 0 || row.assets.len() == 0 {
        Some(row.slug + " has an empty channel or asset allowlist"@)
    } else if !known_channels(row.channels) {
        Some(row.slug + " has an unknown channel"@)
    } else if !safe_names(row.assets) {
        Some(row.slug + " has an unsafe asset pattern"@)
    } else if !package_formats(row.kind, row.assets) {
        Some(row.slug + " has an asset outside its package formats"@)
    } else if row.slug == "jackin-project/homebrew-tap"@ && (row.preview_assets.len() != 6
        || !row.channels.contains("preview"@)) {
        Some("jackin preview policy must bind exactly six rolling assets"@)
    } else if row.slug != "jackin-project/homebrew-tap"@ && row.preview_assets.len() != 0 {
        Some(row.slug + " has unsupported preview assets"@)
    } else if !safe_names(row.preview_assets) || !package_formats(row.kind, row.preview_assets) {
        Some(row.slug + " has an unsafe preview asset"@)
    } else {
        None
    }
}

/// The check of each row of a table.
pub open spec fn row_checks(rows: Seq<ConsumerView>) -> spec_fn(int) -> Option<Seq<char>> {
    |i: int| row_error(rows, i)
}

/// A package policy as texts.
pub struct PackagePolicyView {
    pub schema: Seq<char>,
    pub consumers: Seq<ConsumerView>,
}

/// Why a package table is refused: none when it is a package policy.
pub open spec fn policy_error(policy: PackagePolicyView) -> Option<Seq<char>> {
    let rows = policy.consumers;
    if policy.schema != POLICY_SCHEMA@ {
        Some("unknown package policy schema "@ + text::debug_text(policy.schema))
    } else if failure::first_failure(rows.len() as int, row_checks(rows)) is Some {
        failure::first_failure(rows.len() as int, row_checks(rows))
    } else if slugs(rows).to_set() != approved_consumers() {
        Some("package consumer set is not exactly four taps and two APT repositories"@)
    } else {
        None
    }
}

/// The workflow texts that consumers are rendered from.
#[derive(Debug)]
pub struct Templates {
    pub updater: String,
    pub tap: String,
    pub apt: String,
}

/// The package consumers that the fleet releases to.
#[derive(Debug)]
pub struct PackagePolicy {
    schema: String,
    consumer: Vec<Consumer>,
}

impl View for PackagePolicy {
    type V = PackagePolicyView;

    closed spec fn view(&self) -> PackagePolicyView {
        PackagePolicyView { schema: self.schema@, consumers: model::views(self.consumer@) }
    }
}

fn is_tap_consumer(slug: &str) -> (yes: bool)
    ensures
        yes == tap_consumer(slug@),
{
    text::same_text(slug, "jackin-project/homebrew-tap") || text::same_text(
        slug,
        "tailrocks/homebrew-holla",
    ) || text::same_text(slug, "tailrocks/homebrew-parallax") || text::same_text(
        slug,
        "tailrocks/homebrew-tablerock",
    )
}

fn is_apt_consumer(slug: &str) -> (yes: bool)
    ensures
        yes == apt_consumer(slug@),
{
    text::same_text(slug, "tailrocks/holla-apt") || text::same_text(slug, "tailrocks/velnor-apt")
}

fn is_approved_source(source: &str) -> (yes: bool)
    ensures
        yes == approved_source(source@),
{
    text::same_text(source, "tailrocks/tablerock") || text::same_text(source, "tailrocks/parallax")
        || text::same_text(source, "tailrocks/holla") || text::same_text(source, "tailrocks/velnor")
        || text::same_text(source, "jackin-project/jackin")
}

fn are_known_channels(channels: &Vec<String>) -> (yes: bool)
    ensures
        yes == known_channels(text::texts(channels@)),
{
    let ghost all = text::texts(channels@);
    let mut i: usize = 0;
    while i < channels.len()
        invariant
            all == text::texts(channels@),
            i <= channels@.len(),
            forall|k: int| 0 <= k < i ==> known_channel(#[trigger] all[k]),
        decreases channels@.len() - i,
    {
        let channel = channels[i].as_str();
        if !(text::same_text(channel, "stable") || text::same_text(channel, "preview")
            || text::same_text(channel, "dev")) {
            assert(!known_channel(all[i as int]));
            return false;
        }
        i = i + 1;
    }
    true
}

fn are_safe_names(assets: &Vec<String>) -> (yes: bool)
    ensures
        yes == safe_names(text::texts(assets@)),
{
    let ghost all = text::texts(assets@);
    let mut i: usize = 0;
    while i < assets.len()
        invariant
            all == text::texts(assets@),
            i <= assets@.len(),
            forall|k: int| 0 <= k < i ==> safe_name(#[trigger] all[k]),
        decreases assets@.len() - i,
    {
        let asset = assets[i].as_str();
        if asset.is_empty() || text::has_char(asset, '/') || text::has_text(asset, "..") {
            assert(!safe_name(all[i as int]));
            return false;
        }
        i = i + 1;
    }
    true
}

fn are_package_formats(kind: &str, assets: &Vec<String>) -> (yes: bool)
    ensures
        yes == package_formats(kind@, text::texts(assets@)),
{
    let ghost all = text::texts(assets@);
    let is_tap = text::same_text(kind, "tap");
    let is_apt = text::same_text(kind, "apt");
    let mut i: usize = 0;
    while i < assets.len()
        invariant
            all == text::texts(assets@),
            is_tap == (kind@ == "tap"@),
            is_apt == (kind@ == "apt"@),
            i <= assets@.len(),
            forall|k: int| 0 <= k < i ==> package_format(kind@, #[trigger] all[k]),
        decreases assets@.len() - i,
    {
        let asset = assets[i].as_str();
        let fits = if is_tap {
            text::has_suffix(asset, ".tar.gz") || text::has_suffix(asset, ".zip")
        } else {
            is_apt && text::has_suffix(asset, ".deb")
        };
        if !fits {
            assert(!package_format(kind@, all[i as int]));
            return false;
        }
        i = i + 1;
    }
    true
}

impl PackagePolicy {
    /// Takes the rows of a package table, refusing a table that is not exactly
    /// the approved policy.
    pub fn load(schema: String, consumer: Vec<Consumer>) -> (result: Result<PackagePolicy, String>)
        ensures
            ({
                let table = PackagePolicyView {
                    schema: schema@,
                    consumers: model::views(consumer@),
                };
                match result {
                    Ok(policy) => policy@ == table && policy_error(table) is None,
                    Err(message) => policy_error(table) == Some(message@),
                }
            }),
    {
        let policy = PackagePolicy { schema, consumer };
        match policy.validate() {
            Ok(_) => Ok(policy),
            Err(message) => Err(message),
        }
    }

    /// Whether a row before row `end` has the slug.
    fn has_slug(&self, slug: &str, end: usize) -> (found: bool)
        requires
            end <= self.consumer@.len(),
        ensures
            found == exists|j: int|
                0 <= j < end && (#[trigger] self@.consumers[j]).slug == slug@,
    {
        let mut j: usize = 0;
        while j < end
            invariant
                j <= end <= self.consumer@.len(),
                forall|k: int| 0 <= k < j ==> (#[trigger] self@.consumers[k]).slug != slug@,
            decreases end - j,
        {
            if text::same_text(self.consumer[j].slug.as_str(), slug) {
                assert(self@.consumers[j as int].slug == slug@);
                return true;
            }
            j = j + 1;
        }
        false
    }

    fn check_row(&self, i: usize) -> (result: Result<(), String>)
        requires
            i < self.consumer@.len(),
        ensures
            match result {
                Ok(_) => row_error(self@.consumers, i as int) is None,
                Err(message) => row_error(self@.consumers, i as int) == Some(message@),
            },
    {
        let row = &self.consumer[i];
        let slug = row.slug.as_str();
        assert(self@.consumers[i as int] == row@);
        if self.has_slug(slug, i) {
            return Err(text::cat2("duplicate package consumer ", text::quoted(slug).as_str()));
        }
        let expected_kind = if is_tap_consumer(slug) {
            "tap"
        } else if is_apt_consumer(slug) {
            "apt"
        } else {
            return Err(text::cat2("unapproved package consumer ", text::quoted(slug).as_str()));
        };
        if !text::same_text(row.kind.as_str(), expected_kind) {
            return Err(text::cat3(slug, " must have kind ", expected_kind));
        }
        if !is_approved_source(row.source.as_str()) {
            return Err(
                text::cat2(
                    "unapproved package source ",
                    text::quoted(row.source.as_str()).as_str(),
                ),
            );
        }
        if !text::same_text(row.source_ref.as_str(), "refs/tags/v*") {
            return Err(text::cat2(slug, " has mutable or unknown source_ref"));
        }
        if row.channels.len() == 0 || row.assets.len() == 0 {
            return Err(text::cat2(slug, " has an empty channel or asset allowlist"));
        }
        if !are_known_channels(&row.channels) {
            return Err(text::cat2(slug, " has an unknown channel"));
        }
        if !are_safe_names(&row.assets) {
            return Err(text::cat2(slug, " has an unsafe asset pattern"));
        }
        if !are_package_formats(row.kind.as_str(), &row.assets) {
            return Err(text::cat2(slug, " has an asset outside its package formats"));
        }
        if text::same_text(slug, "jackin-project/homebrew-tap") {
            if row.preview_assets.len() != 6 || !text::lists(&row.channels, "preview") {
                return Err(
                    "jackin preview policy must bind exactly six rolling assets".to_owned(),
                );
            }
        } else if row.preview_assets.len() != 0 {
            return Err(text::cat2(slug, " has unsupported preview assets"));
        }
        if !are_safe_names(&row.preview_assets) || !are_package_formats(
            row.kind.as_str(),
            &row.preview_assets,
        ) {
            return Err(text::cat2(slug, " has an unsafe preview asset"));
        }
        Ok(())
    }

    /// Refuses a table that is not exactly the approved policy.
    pub fn validate(&self) -> (result: Result<(), String>)
        ensures
            match result {
                Ok(_) => policy_error(self@) is None,
                Err(message) => policy_error(self@) == Some(message@),
            },
    {
        if !text::same_text(self.schema.as_str(), POLICY_SCHEMA) {
            return Err(
                text::cat2(
                    "unknown package policy schema ",
                    text::quoted(self.schema.as_str()).as_str(),
                ),
            );
        }
        let ghost rows = self@.consumers;
        let ghost checks = row_checks(rows);
        let len = self.consumer.len();
        let mut i: usize = 0;
        while i < len
            invariant
                i <= len == self.consumer@.len(),
                rows == self@.consumers,
                checks == row_checks(rows),
                self@.schema == POLICY_SCHEMA@,
                failure::first_failure(i as int, checks) is None,
            decreases len - i,
        {
            match self.check_row(i) {
                Ok(_) => {},
                Err(message) => {
                    proof {
                        failure::lemma_first_failure_stays(i + 1, len as int, checks);
                    }
                    return Err(message);
                },
            }
            i = i + 1;
        }
        let complete = self.has_slug("jackin-project/homebrew-tap", len) && self.has_slug(
            "tailrocks/homebrew-holla",
            len,
        ) && self.has_slug("tailrocks/homebrew-parallax", len) && self.has_slug(
            "tailrocks/homebrew-tablerock",
            len,
        ) && self.has_slug("tailrocks/holla-apt", len) && self.has_slug("tailrocks/velnor-apt", len);
        proof {
            lemma_complete(rows);
            let approved = approved_consumers();
            assert(approved.contains("jackin-project/homebrew-tap"@));
            assert(approved.contains("tailrocks/homebrew-holla"@));
            assert(approved.contains("tailrocks/homebrew-parallax"@));
            assert(approved.contains("tailrocks/homebrew-tablerock"@));
            assert(approved.contains("tailrocks/holla-apt"@));
            assert(approved.contains("tailrocks/velnor-apt"@));
        }
        if !complete {
            return Err(
                "package consumer set is not exactly four taps and two APT repositories".to_owned(),
            );
        }
        Ok(())
    }

    /// The package consumers: the rows that must have release signer entries.
    pub fn consumer_slugs(&self) -> (result: Vec<&str>)
        ensures
            result@.len() == self@.consumers.len(),
            forall|i: int|
                0 <= i < result@.len() ==> (#[trigger] result@[i])@ == self@.consumers[i].slug,
    {
        let mut result: Vec<&str> = Vec::new();
        let mut i: usize = 0;
        while i < self.consumer.len()
            invariant
                i <= self.consumer@.len(),
                result@.len() == i,
                forall|k: int|
                    0 <= k < i ==> (#[trigger] result@[k])@ == self@.consumers[k].slug,
            decreases self.consumer@.len() - i,
        {
            result.push(self.consumer[i].slug.as_str());
            i = i + 1;
        }
        result
    }

    /// The package consumer with a repository slug.
    pub fn consumer(&self, repository: &str) -> (result: Option<&Consumer>)
        ensures
            match result {
                Some(row) => consumer_row(self@.consumers, repository@) == Some(row@),
                None => consumer_row(self@.consumers, repository@) is None,
            },
    {
        let ghost all = slugs(self@.consumers);
        let mut i: usize = 0;
        while i < self.consumer.len()
            invariant
                i <= self.consumer@.len(),
                all == slugs(self@.consumers),
                forall|k: int| 0 <= k < i ==> #[trigger] all[k] != repository@,
            decreases self.consumer@.len() - i,
        {
            if text::same_text(self.consumer[i].slug.as_str(), repository) {
                proof {
                    assert(self@.consumers[i as int] == self.consumer@[i as int]@);
                    text::lemma_first_place(all, repository@, i as int);
                }
                return Some(&self.consumer[i]);
            }
            i = i + 1;
        }
        proof {
            all.index_of_first_ensures(repository@);
        }
        None
    }
}

/// The case of a consumer in the updater's table of policies.
pub open spec fn policy_case(row: ConsumerView) -> Seq<char> {
    "            "@ + row.slug + ") SOURCE_REPOSITORY="@ + row.source + "; ASSET_PATTERNS=$'"@
        + text::joined(row.assets, "\\n"@) + "'; PREVIEW_ASSET_PATTERNS=$'"@ + text::joined(
        row.preview_assets,
        "\\n"@,
    ) + "'; ALLOWED_CHANNELS=$'"@ + text::joined(row.channels, "\\n"@) + "' ;;\n"@
}

/// The case of a consumer in the updater's table of sources.
pub open spec fn source_case(row: ConsumerView) -> Seq<char> {
    "            "@ + row.slug + ") SOURCE_REPOSITORY="@ + row.source + " ;;\n"@
}

/// The policy cases of the rows, in table order.
pub open spec fn policy_cases(rows: Seq<ConsumerView>) -> Seq<char>
    decreases rows.len(),
{
    if rows.len() == 0 {
        Seq::empty()
    } else {
        policy_cases(rows.drop_last()) + policy_case(rows.last())
    }
}

/// The source cases of the rows, in table order.
pub open spec fn source_cases(rows: Seq<ConsumerView>) -> Seq<char>
    decreases rows.len(),
{
    if rows.len() == 0 {
        Seq::empty()
    } else {
        source_cases(rows.drop_last()) + source_case(rows.last())
    }
}

/// A shell `case` over the consumer with the given cases, and the refusal of
/// any other consumer.
pub open spec fn consumer_case(cases: Seq<char>) -> Seq<char> {
    "          case \"$CONSUMER_REPOSITORY\" in\n"@ + cases
        + "            *) echo \"unknown consumer\" >&2; exit 1 ;;\n"@ + "          esac"@
}

/// The updater workflow: its template with the policy cases, then the source
/// cases, in their places.
pub open spec fn updater_text(rows: Seq<ConsumerView>, template: Seq<char>) -> Seq<char> {
    text::replaced(
        text::replaced(
            template,
            "@CONSUMER_POLICY_CASES@"@,
            consumer_case(policy_cases(rows)),
        ),
        "@CONSUMER_SOURCE_CASES@"@,
        consumer_case(source_cases(rows)),
    )
}

impl PackagePolicy {
    /// Renders the updater workflow from its template.
    pub fn render_updater(&self, templates: &Templates) -> (rendered: String)
        ensures
            rendered@ == updater_text(self@.consumers, templates.updater@),
    {
        let ghost rows = self@.consumers;
        let mut policies = String::new();
        let mut sources = String::new();
        let mut i: usize = 0;
        while i < self.consumer.len()
            invariant
                i <= self.consumer@.len(),
                rows == self@.consumers,
                policies@ == policy_cases(rows.take(i as int)),
                sources@ == source_cases(rows.take(i as int)),
            decreases self.consumer@.len() - i,
        {
            let row = &self.consumer[i];
            let patterns = text::join_texts(&row.assets, "\\n");
            let preview_patterns = text::join_texts(&row.preview_assets, "\\n");
            let channels = text::join_texts(&row.channels, "\\n");
            let mut case = text::cat5(
                "            ",
                row.slug.as_str(),
                ") SOURCE_REPOSITORY=",
                row.source.as_str(),
                "; ASSET_PATTERNS=$'",
            );
            case.append(patterns.as_str());
            case.append("'; PREVIEW_ASSET_PATTERNS=$'");
            case.append(preview_patterns.as_str());
            case.append("'; ALLOWED_CHANNELS=$'");
            case.append(channels.as_str());
            case.append("' ;;\n");
            policies.append(case.as_str());
            let source = text::cat5(
                "            ",
                row.slug.as_str(),
                ") SOURCE_REPOSITORY=",
                row.source.as_str(),
                " ;;\n",
            );
            sources.append(source.as_str());
            i = i + 1;
            proof {
                let done = rows.take(i as int);
                assert(rows[i - 1] == row@);
                assert(done.drop_last() =~= rows.take(i - 1));
                assert(done.last() == row@);
                assert(case@ == policy_case(row@));
            }
        }
        assert(rows.take(i as int) =~= rows);
        let policy_table = text::cat4(
            "          case \"$CONSUMER_REPOSITORY\" in\n",
            policies.as_str(),
            "            *) echo \"unknown consumer\" >&2; exit 1 ;;\n",
            "          esac",
        );
        let source_table = text::cat4(
            "          case \"$CONSUMER_REPOSITORY\" in\n",
            sources.as_str(),
            "            *) echo \"unknown consumer\" >&2; exit 1 ;;\n",
            "          esac",
        );
        proof {
            reveal_strlit("@CONSUMER_POLICY_CASES@");
            reveal_strlit("@CONSUMER_SOURCE_CASES@");
        }
        let with_policies = text::replace_text(
            templates.updater.as_str(),
            "@CONSUMER_POLICY_CASES@",
            policy_table.as_str(),
        );
        text::replace_text(
            with_policies.as_str(),
            "@CONSUMER_SOURCE_CASES@",
            source_table.as_str(),
        )
    }
}

/// The channels that a consumer's workflow offers.
pub open spec fn offered_channels(slug: Seq<char>) -> Seq<char> {
    if slug == "jackin-project/homebrew-tap"@ {
        "[stable, preview]"@
    } else {
        "[stable]"@
    }
}

/// A consumer's template with its placeholders replaced, one after the other.
pub open spec fn filled_template(
    template: Seq<char>,
    shas: Seq<Seq<char>>,
    calver: Seq<char>,
    slug: Seq<char>,
) -> Seq<char> {
    let with_jackin = text::replaced(template, "@JACKIN_FLEET_SHA@"@, shas[0]);
    let with_tailrocks = text::replaced(with_jackin, "@TAILROCKS_FLEET_SHA@"@, shas[1]);
    let with_chainargos = text::replaced(with_tailrocks, "@CHAINARGOS_FLEET_SHA@"@, shas[2]);
    let with_calver = text::replaced(with_chainargos, "@CALVER@"@, calver);
    text::replaced(with_calver, "@PACKAGE_CHANNELS@"@, offered_channels(slug))
}

/// The first placeholder that a text still holds.
pub open spec fn left_placeholder(rendered: Seq<char>) -> Option<Seq<char>> {
    if text::occurs(rendered, "@JACKIN_FLEET_SHA@"@) {
        Some("@JACKIN_FLEET_SHA@"@)
    } else if text::occurs(rendered, "@TAILROCKS_FLEET_SHA@"@) {
        Some("@TAILROCKS_FLEET_SHA@"@)
    } else if text::occurs(rendered, "@CHAINARGOS_FLEET_SHA@"@) {
        Some("@CHAINARGOS_FLEET_SHA@"@)
    } else if text::occurs(rendered, "@CALVER@"@) {
        Some("@CALVER@"@)
    } else if text::occurs(rendered, "@PACKAGE_CHANNELS@"@) {
        Some("@PACKAGE_CHANNELS@"@)
    } else {
        None
    }
}

/// The template of a package kind.
pub open spec fn template_of(templates: Templates, kind: Seq<char>) -> Option<Seq<char>> {
    if kind == "tap"@ {
        Some(templates.tap@)
    } else if kind == "apt"@ {
        Some(templates.apt@)
    } else {
        None
    }
}

/// Whether every text of a list is a full object ID.
pub open spec fn all_sha40(shas: Seq<Seq<char>>) -> bool {
    forall|i: int| 0 <= i < shas.len() ==> model::sha40(#[trigger] shas[i])
}

/// A consumer's workflow, or the reason that there is none.
pub open spec fn consumer_rendering(
    rows: Seq<ConsumerView>,
    templates: Templates,
    repository: Seq<char>,
    shas: Seq<Seq<char>>,
    calver: Seq<char>,
) -> Result<Seq<char>, Seq<char>> {
    if !all_sha40(shas) {
        Err("every owner release SHA must be 40 lowercase hexadecimal characters"@)
    } else if !calver::is_calver(calver) {
        Err("CalVer must be YYYY.M.D with numeric components"@)
    } else {
        match consumer_row(rows, repository) {
            None => Err(text::debug_text(repository) + " is not a package consumer"@),
            Some(row) => match template_of(templates, row.kind) {
                None => Err("package policy contains an unknown kind"@),
                Some(template) => {
                    let rendered = filled_template(template, shas, calver, row.slug);
                    match left_placeholder(rendered) {
                        Some(placeholder) => Err("package consumer rendering left "@ + placeholder),
                        None => Ok(rendered),
                    }
                },
            },
        }
    }
}

/// The characters of each text of an array.
pub open spec fn slice_texts(list: Seq<&str>) -> Seq<Seq<char>> {
    Seq::new(list.len(), |i: int| list[i]@)
}

fn find_placeholder(rendered: &str) -> (found: Option<&'static str>)
    ensures
        match found {
            Some(placeholder) => left_placeholder(rendered@) == Some(placeholder@),
            None => left_placeholder(rendered@) is None,
        },
{
    if text::has_text(rendered, "@JACKIN_FLEET_SHA@") {
        Some("@JACKIN_FLEET_SHA@")
    } else if text::has_text(rendered, "@TAILROCKS_FLEET_SHA@") {
        Some("@TAILROCKS_FLEET_SHA@")
    } else if text::has_text(rendered, "@CHAINARGOS_FLEET_SHA@") {
        Some("@CHAINARGOS_FLEET_SHA@")
    } else if text::has_text(rendered, "@CALVER@") {
        Some("@CALVER@")
    } else if text::has_text(rendered, "@PACKAGE_CHANNELS@") {
        Some("@PACKAGE_CHANNELS@")
    } else {
        None
    }
}

fn fill_template(template: &str, shas: [&str; 3], calver: &str, slug: &str) -> (rendered: String)
    ensures
        rendered@ == filled_template(template@, slice_texts(shas@), calver@, slug@),
{
    proof {
        reveal_strlit("@JACKIN_FLEET_SHA@");
        reveal_strlit("@TAILROCKS_FLEET_SHA@");
        reveal_strlit("@CHAINARGOS_FLEET_SHA@");
        reveal_strlit("@CALVER@");
        reveal_strlit("@PACKAGE_CHANNELS@");
    }
    let with_jackin = text::replace_text(template, "@JACKIN_FLEET_SHA@", shas[0]);
    let with_tailrocks = text::replace_text(
        with_jackin.as_str(),
        "@TAILROCKS_FLEET_SHA@",
        shas[1],
    );
    let with_chainargos = text::replace_text(
        with_tailrocks.as_str(),
        "@CHAINARGOS_FLEET_SHA@",
        shas[2],
    );
    let with_calver = text::replace_text(with_chainargos.as_str(), "@CALVER@", calver);
    let channels = if text::same_text(slug, "jackin-project/homebrew-tap") {
        "[stable, preview]"
    } else {
        "[stable]"
    };
    text::replace_text(with_calver.as_str(), "@PACKAGE_CHANNELS@", channels)
}

impl PackagePolicy {
    /// Renders the workflow of one package consumer for a release.
    pub fn render_consumer(
        &self,
        templates: &Templates,
        repository: &str,
        release_shas: [&str; 3],
        calver: &str,
    ) -> (result: Result<String, String>)
        ensures
            text::result_text(result) == consumer_rendering(
                self@.consumers,
                *templates,
                repository@,
                slice_texts(release_shas@),
                calver@,
            ),
    {
        let ghost shas = slice_texts(release_shas@);
        assert(shas[0] == release_shas[0]@ && shas[1] == release_shas[1]@ && shas[2]
            == release_shas[2]@);
        if !model::is_sha40(release_shas[0]) || !model::is_sha40(release_shas[1])
            || !model::is_sha40(release_shas[2]) {
            return Err(
                "every owner release SHA must be 40 lowercase hexadecimal characters".to_owned(),
            );
        }
        if !calver::valid_calver(calver) {
            return Err("CalVer must be YYYY.M.D with numeric components".to_owned());
        }
        let row = match self.consumer(repository) {
            Some(row) => row,
            None => {
                return Err(
                    text::cat2(text::quoted(repository).as_str(), " is not a package consumer"),
                );
            },
        };
        let template = if text::same_text(row.kind.as_str(), "tap") {
            templates.tap.as_str()
        } else if text::same_text(row.kind.as_str(), "apt") {
            templates.apt.as_str()
        } else {
            return Err("package policy contains an unknown kind".to_owned());
        };
        let rendered = fill_template(template, release_shas, calver, row.slug.as_str());
        match find_placeholder(rendered.as_str()) {
            Some(placeholder) => Err(text::cat2("package consumer rendering left ", placeholder)),
            None => Ok(rendered),
        }
    }
}

/// Of rows that pass their checks, the slugs are the approved consumers exactly
/// where each approved consumer has a row.
proof fn lemma_complete(rows: Seq<ConsumerView>)
    requires
        failure::first_failure(rows.len() as int, row_checks(rows)) is None,
    ensures
        slugs(rows).to_set() == approved_consumers() <==> forall|slug: Seq<char>|
            approved_consumers().contains(slug) ==> exists|j: int|
                0 <= j < rows.len() && (#[trigger] rows[j]).slug == slug,
{
    let checks = row_checks(rows);
    let set = slugs(rows).to_set();
    failure::lemma_first_failure(rows.len() as int, checks);
    assert forall|slug: Seq<char>| set.contains(slug) <==> exists|j: int|
        0 <= j < rows.len() && (#[trigger] rows[j]).slug == slug by {
        if set.contains(slug) {
            let j = choose|j: int| 0 <= j < slugs(rows).len() && slugs(rows)[j] == slug;
            assert(rows[j].slug == slug);
        }
        if exists|j: int| 0 <= j < rows.len() && (#[trigger] rows[j]).slug == slug {
            let j = choose|j: int| 0 <= j < rows.len() && (#[trigger] rows[j]).slug == slug;
            assert(slugs(rows)[j] == slug);
        }
    }
    assert forall|slug: Seq<char>| set.contains(slug) implies approved_consumers().contains(slug) by {
        let j = choose|j: int| 0 <= j < rows.len() && (#[trigger] rows[j]).slug == slug;
        assert(checks(j) is None);
    }
    if forall|slug: Seq<char>|
        approved_consumers().contains(slug) ==> exists|j: int|
            0 <= j < rows.len() && (#[trigger] rows[j]).slug == slug {
        assert(set =~= approved_consumers());
    }
}

} // verus!
