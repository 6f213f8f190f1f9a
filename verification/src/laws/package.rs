//! What holds of every package policy and of every workflow rendered from one.

use vstd::prelude::*;

use crate::calver;
use crate::failure;
use crate::laws;
use crate::model;
use crate::package;
use crate::text;

verus! {

/// The six approved consumers are different from each other.
proof fn lemma_six_consumers()
    ensures
        package::approved_consumers() =~= set![
            "jackin-project/homebrew-tap"@,
            "tailrocks/homebrew-holla"@,
            "tailrocks/homebrew-parallax"@,
            "tailrocks/homebrew-tablerock"@,
            "tailrocks/holla-apt"@,
            "tailrocks/velnor-apt"@,
        ],
        package::approved_consumers().finite(),
        package::approved_consumers().len() == 6,
        forall|slug: Seq<char>| !(#[trigger] package::tap_consumer(slug) && package::apt_consumer(slug)),
{
    reveal_strlit("jackin-project/homebrew-tap");
    reveal_strlit("tailrocks/homebrew-holla");
    reveal_strlit("tailrocks/homebrew-parallax");
    reveal_strlit("tailrocks/homebrew-tablerock");
    reveal_strlit("tailrocks/holla-apt");
    reveal_strlit("tailrocks/velnor-apt");
    let a = "jackin-project/homebrew-tap"@;
    let b = "tailrocks/homebrew-holla"@;
    let c = "tailrocks/homebrew-parallax"@;
    let d = "tailrocks/homebrew-tablerock"@;
    let e = "tailrocks/holla-apt"@;
    let f = "tailrocks/velnor-apt"@;
    assert(a.len() == 27 && b.len() == 24 && c.len() == 27 && d.len() == 28 && e.len() == 19
        && f.len() == 20);
    assert(a[0] == 'j' && c[0] == 't');
    assert(package::approved_consumers() =~= set![a, b, c, d, e, f]);
}

/// The four Homebrew taps.
pub open spec fn is_tap(slug: Seq<char>) -> bool {
    seq![
        "jackin-project/homebrew-tap"@,
        "tailrocks/homebrew-holla"@,
        "tailrocks/homebrew-parallax"@,
        "tailrocks/homebrew-tablerock"@,
    ].contains(slug)
}

/// The two APT repositories.
pub open spec fn is_apt(slug: Seq<char>) -> bool {
    seq!["tailrocks/holla-apt"@, "tailrocks/velnor-apt"@].contains(slug)
}

/// The five repositories that packages are built from.
pub open spec fn is_source(source: Seq<char>) -> bool {
    seq![
        "tailrocks/tablerock"@,
        "tailrocks/parallax"@,
        "tailrocks/holla"@,
        "tailrocks/velnor"@,
        "jackin-project/jackin"@,
    ].contains(source)
}

/// A channel by one of the three names.
pub open spec fn is_channel(channel: Seq<char>) -> bool {
    seq!["stable"@, "preview"@, "dev"@].contains(channel)
}

/// A name with at least one character, no slash, and no two dots in a row.
pub open spec fn fine_name(name: Seq<char>) -> bool {
    &&& name.len() > 0
    &&& forall|i: int| 0 <= i < name.len() ==> #[trigger] name[i] != '/'
    &&& forall|i: int|
        0 <= i < name.len() - 1 && #[trigger] name[i] == '.' ==> name[i + 1] != '.'
}

/// A text and its ending.
pub open spec fn ended(stem: Seq<char>, ending: Seq<char>) -> Seq<char> {
    stem + ending
}

/// A text with an ending.
pub open spec fn ends_in(name: Seq<char>, ending: Seq<char>) -> bool {
    exists|stem: Seq<char>| name == #[trigger] ended(stem, ending)
}

/// A name with an ending that its kind of package may have: a tap carries
/// archives, an APT repository carries Debian packages.
pub open spec fn fits(kind: Seq<char>, name: Seq<char>) -> bool {
    ||| kind == "tap"@ && (ends_in(name, ".tar.gz"@) || ends_in(name, ".zip"@))
    ||| kind == "apt"@ && ends_in(name, ".deb"@)
}

/// The ten things that are asked of a row, in the order in which they are.
pub open spec fn aspect(row: package::ConsumerView, n: int) -> bool {
    if n == 0 {
        is_tap(row.slug) || is_apt(row.slug)
    } else if n == 1 {
        if is_tap(row.slug) {
            row.kind == "tap"@
        } else {
            row.kind == "apt"@
        }
    } else if n == 2 {
        is_source(row.source)
    } else if n == 3 {
        row.source_ref == "refs/tags/v*"@
    } else if n == 4 {
        row.channels.len() > 0 && row.assets.len() > 0
    } else if n == 5 {
        forall|i: int| 0 <= i < row.channels.len() ==> is_channel(#[trigger] row.channels[i])
    } else if n == 6 {
        forall|i: int| 0 <= i < row.assets.len() ==> fine_name(#[trigger] row.assets[i])
    } else if n == 7 {
        forall|i: int| 0 <= i < row.assets.len() ==> fits(row.kind, #[trigger] row.assets[i])
    } else if n == 8 {
        if row.slug == "jackin-project/homebrew-tap"@ {
            row.preview_assets.len() == 6 && exists|i: int|
                0 <= i < row.channels.len() && #[trigger] row.channels[i] == "preview"@
        } else {
            row.preview_assets.len() == 0
        }
    } else {
        forall|i: int|
            0 <= i < row.preview_assets.len() ==> fine_name(#[trigger] row.preview_assets[i])
                && fits(row.kind, row.preview_assets[i])
    }
}

/// What is said of a row that is not as asked.
pub open spec fn complaint(row: package::ConsumerView, n: int) -> Seq<char> {
    if n == 0 {
        "unapproved package consumer "@ + text::debug_text(row.slug)
    } else if n == 1 {
        row.slug + " must have kind "@ + if is_tap(row.slug) {
            "tap"@
        } else {
            "apt"@
        }
    } else if n == 2 {
        "unapproved package source "@ + text::debug_text(row.source)
    } else if n == 3 {
        row.slug + " has mutable or unknown source_ref"@
    } else if n == 4 {
        row.slug + " has an empty channel or asset allowlist"@
    } else if n == 5 {
        row.slug + " has an unknown channel"@
    } else if n == 6 {
        row.slug + " has an unsafe asset pattern"@
    } else if n == 7 {
        row.slug + " has an asset outside its package formats"@
    } else if n == 8 {
        if row.slug == "jackin-project/homebrew-tap"@ {
            "jackin preview policy must bind exactly six rolling assets"@
        } else {
            row.slug + " has unsupported preview assets"@
        }
    } else {
        row.slug + " has an unsafe preview asset"@
    }
}

/// A row that is in every aspect as asked.
pub open spec fn approved_row(row: package::ConsumerView) -> bool {
    forall|n: int| 0 <= n < 10 ==> #[trigger] aspect(row, n)
}

/// Rows of different consumers.
pub open spec fn different_slugs(rows: Seq<package::ConsumerView>) -> bool {
    forall|i: int, j: int|
        0 <= i < j < rows.len() ==> (#[trigger] rows[i]).slug != (#[trigger] rows[j]).slug
}

/// A table with a row of a consumer.
pub open spec fn has_row(rows: Seq<package::ConsumerView>, slug: Seq<char>) -> bool {
    exists|i: int| 0 <= i < rows.len() && (#[trigger] rows[i]).slug == slug
}

/// Rows that are all as asked, of different consumers.
pub open spec fn approved_rows(rows: Seq<package::ConsumerView>) -> bool {
    &&& different_slugs(rows)
    &&& forall|i: int| 0 <= i < rows.len() ==> approved_row(#[trigger] rows[i])
}

proof fn lemma_lists_of_names(value: Seq<char>)
    ensures
        package::tap_consumer(value) == is_tap(value),
        package::apt_consumer(value) == is_apt(value),
        package::approved_source(value) == is_source(value),
        package::known_channel(value) == is_channel(value),
        !(is_tap(value) && is_apt(value)),
{
    lemma_six_consumers();
    let taps = seq![
        "jackin-project/homebrew-tap"@,
        "tailrocks/homebrew-holla"@,
        "tailrocks/homebrew-parallax"@,
        "tailrocks/homebrew-tablerock"@,
    ];
    let apts = seq!["tailrocks/holla-apt"@, "tailrocks/velnor-apt"@];
    let sources = seq![
        "tailrocks/tablerock"@,
        "tailrocks/parallax"@,
        "tailrocks/holla"@,
        "tailrocks/velnor"@,
        "jackin-project/jackin"@,
    ];
    let channels = seq!["stable"@, "preview"@, "dev"@];
    assert(taps[0] == "jackin-project/homebrew-tap"@ && taps[1] == "tailrocks/homebrew-holla"@
        && taps[2] == "tailrocks/homebrew-parallax"@ && taps[3]
        == "tailrocks/homebrew-tablerock"@);
    assert(apts[0] == "tailrocks/holla-apt"@ && apts[1] == "tailrocks/velnor-apt"@);
    assert(sources[0] == "tailrocks/tablerock"@ && sources[1] == "tailrocks/parallax"@ && sources[2]
        == "tailrocks/holla"@ && sources[3] == "tailrocks/velnor"@ && sources[4]
        == "jackin-project/jackin"@);
    assert(channels[0] == "stable"@ && channels[1] == "preview"@ && channels[2] == "dev"@);
}

proof fn lemma_fine_name(name: Seq<char>)
    ensures
        package::safe_name(name) == fine_name(name),
{
    reveal_strlit("..");
    assert(".."@.len() == 2);
    if fine_name(name) && text::occurs(name, ".."@) {
        let i = choose|i: int| #[trigger] text::occurs_at(name, ".."@, i);
        assert(name.subrange(i, i + 2)[0] == '.' && name.subrange(i, i + 2)[1] == '.');
        assert(name[i] == '.');
    }
    if package::safe_name(name) {
        assert forall|i: int|
            0 <= i < name.len() - 1 && #[trigger] name[i] == '.' implies name[i + 1] != '.' by {
            if name[i + 1] == '.' {
                assert(name.subrange(i, i + 2) =~= ".."@);
                assert(text::occurs_at(name, ".."@, i));
            }
        }
        assert forall|i: int| 0 <= i < name.len() implies #[trigger] name[i] != '/' by {
            assert(name.contains(name[i]));
        }
    }
}

proof fn lemma_ends_in(name: Seq<char>, ending: Seq<char>)
    ensures
        ending.is_suffix_of(name) == ends_in(name, ending),
{
    if ending.is_suffix_of(name) {
        let stem = name.take(name.len() - ending.len());
        assert(name =~= ended(stem, ending));
    }
    if ends_in(name, ending) {
        let stem = choose|stem: Seq<char>| name == #[trigger] ended(stem, ending);
        assert(name.subrange(name.len() - ending.len(), name.len() as int) =~= ending);
    }
}

proof fn lemma_kinds()
    ensures
        "tap"@ != "apt"@,
{
    reveal_strlit("tap");
    reveal_strlit("apt");
    assert("tap"@[0] != "apt"@[0]);
}

proof fn lemma_fits(kind: Seq<char>, name: Seq<char>)
    ensures
        package::package_format(kind, name) == fits(kind, name),
{
    lemma_kinds();
    lemma_ends_in(name, ".tar.gz"@);
    lemma_ends_in(name, ".zip"@);
    lemma_ends_in(name, ".deb"@);
}

proof fn lemma_aspects(row: package::ConsumerView)
    ensures
        aspect(row, 0) <==> package::kind_of(row.slug) is Some,
        aspect(row, 0) ==> (aspect(row, 1) <==> package::kind_of(row.slug) == Some(row.kind)),
        aspect(row, 0) ==> package::kind_of(row.slug) == Some(
            if is_tap(row.slug) {
                "tap"@
            } else {
                "apt"@
            },
        ),
        aspect(row, 2) <==> package::approved_source(row.source),
        aspect(row, 5) <==> package::known_channels(row.channels),
        aspect(row, 6) <==> package::safe_names(row.assets),
        aspect(row, 7) <==> package::package_formats(row.kind, row.assets),
        aspect(row, 8) <==> if row.slug == "jackin-project/homebrew-tap"@ {
            row.preview_assets.len() == 6 && row.channels.contains("preview"@)
        } else {
            row.preview_assets.len() == 0
        },
        aspect(row, 9) <==> package::safe_names(row.preview_assets) && package::package_formats(
            row.kind,
            row.preview_assets,
        ),
{
    lemma_lists_of_names(row.slug);
    lemma_lists_of_names(row.source);
    lemma_kinds();
    assert forall|name: Seq<char>| #[trigger] package::safe_name(name) == fine_name(name) by {
        lemma_fine_name(name);
    }
    assert forall|name: Seq<char>|
        #[trigger] package::package_format(row.kind, name) == fits(row.kind, name) by {
        lemma_fits(row.kind, name);
    }
    assert forall|name: Seq<char>| #[trigger] package::known_channel(name) == is_channel(name) by {
        lemma_lists_of_names(name);
    }
    if aspect(row, 5) {
        assert forall|i: int| 0 <= i < row.channels.len() implies package::known_channel(
            #[trigger] row.channels[i],
        ) by {}
    }
    if package::known_channels(row.channels) {
        assert forall|i: int| 0 <= i < row.channels.len() implies is_channel(
            #[trigger] row.channels[i],
        ) by {
            assert(package::known_channel(row.channels[i]));
        }
    }
    if package::safe_names(row.assets) {
        assert forall|i: int| 0 <= i < row.assets.len() implies fine_name(
            #[trigger] row.assets[i],
        ) by {
            assert(package::safe_name(row.assets[i]));
        }
    }
    if package::package_formats(row.kind, row.assets) {
        assert forall|i: int| 0 <= i < row.assets.len() implies fits(
            row.kind,
            #[trigger] row.assets[i],
        ) by {
            assert(package::package_format(row.kind, row.assets[i]));
        }
    }
    let preview = row.preview_assets;
    if package::safe_names(preview) && package::package_formats(row.kind, preview) {
        assert forall|i: int| 0 <= i < preview.len() implies fine_name(#[trigger] preview[i])
            && fits(row.kind, preview[i]) by {
            assert(package::safe_name(preview[i]));
            assert(package::package_format(row.kind, preview[i]));
        }
    }
}

proof fn lemma_row_error(rows: Seq<package::ConsumerView>, i: int)
    ensures
        package::row_error(rows, i) is None <==> approved_row(rows[i]) && forall|j: int|
            0 <= j < i ==> (#[trigger] rows[j]).slug != rows[i].slug,
        (exists|j: int| 0 <= j < i && (#[trigger] rows[j]).slug == rows[i].slug)
            ==> package::row_error(rows, i) == Some(
            "duplicate package consumer "@ + text::debug_text(rows[i].slug),
        ),
        forall|n: int|
            0 <= n < 10 && !aspect(rows[i], n) && (forall|m: int| 0 <= m < n ==> aspect(rows[i], m))
                && (forall|j: int| 0 <= j < i ==> (#[trigger] rows[j]).slug != rows[i].slug)
                ==> package::row_error(rows, i) == Some(#[trigger] complaint(rows[i], n)),
{
    let row = rows[i];
    lemma_aspects(row);
    assert(aspect(row, 3) <==> row.source_ref == "refs/tags/v*"@);
    assert(aspect(row, 4) <==> row.channels.len() > 0 && row.assets.len() > 0);
    if package::row_error(rows, i) is None {
        assert forall|n: int| 0 <= n < 10 implies #[trigger] aspect(row, n) by {
            assert(n == 0 || n == 1 || n == 2 || n == 3 || n == 4 || n == 5 || n == 6 || n == 7 || n
                == 8 || n == 9);
        }
    }
    if approved_row(row) {
        assert(aspect(row, 0) && aspect(row, 1) && aspect(row, 2) && aspect(row, 6) && aspect(
            row,
            8,
        ));
    }
    assert forall|n: int|
        0 <= n < 10 && !aspect(row, n) && (forall|m: int| 0 <= m < n ==> aspect(row, m)) && (forall|
            j: int,
        |
            0 <= j < i ==> (#[trigger] rows[j]).slug != row.slug) implies package::row_error(rows, i)
        == Some(#[trigger] complaint(row, n)) by {
        assert(n == 0 || n == 1 || n == 2 || n == 3 || n == 4 || n == 5 || n == 6 || n == 7 || n
            == 8 || n == 9);
        assert(n > 0 ==> aspect(row, 0));
        assert(n > 1 ==> aspect(row, 1));
        assert(n > 2 ==> aspect(row, 2));
        assert(n > 3 ==> aspect(row, 3));
        assert(n > 4 ==> aspect(row, 4));
        assert(n > 5 ==> aspect(row, 5));
        assert(n > 6 ==> aspect(row, 6));
        assert(n > 7 ==> aspect(row, 7));
        assert(n > 8 ==> aspect(row, 8));
    }
}

proof fn lemma_rows(rows: Seq<package::ConsumerView>, n: int)
    requires
        0 <= n <= rows.len(),
    ensures
        failure::first_failure(n, package::row_checks(rows)) is None <==> approved_rows(
            rows.take(n),
        ),
{
    let checks = package::row_checks(rows);
    let some = rows.take(n);
    failure::lemma_first_failure(n, checks);
    assert forall|i: int| 0 <= i < n implies #[trigger] checks(i) == package::row_error(
        rows,
        i,
    ) && some[i] == rows[i] by {}
    if failure::first_failure(n, checks) is None {
        assert forall|i: int| 0 <= i < some.len() implies approved_row(#[trigger] some[i]) by {
            assert(checks(i) is None);
            lemma_row_error(rows, i);
        }
        assert forall|i: int, j: int| 0 <= i < j < some.len() implies (#[trigger] some[i]).slug != (
        #[trigger] some[j]).slug by {
            assert(checks(j) is None);
            lemma_row_error(rows, j);
            assert(rows[i].slug == some[i].slug);
        }
    }
    if approved_rows(some) {
        assert forall|i: int| 0 <= i < n implies (#[trigger] checks(i)) is None by {
            assert(approved_row(some[i]));
            assert forall|j: int| 0 <= j < i implies (#[trigger] rows[j]).slug != rows[i].slug by {
                assert(some[j].slug != some[i].slug);
            }
            lemma_row_error(rows, i);
        }
    }
}

/// A table is a package policy exactly where it has the right schema and six
/// rows of different consumers that are in every aspect as asked, in any order.
/// The six are then the four taps and the two APT repositories.
pub proof fn law_policies_are_six_approved_rows(policy: package::PackagePolicyView)
    ensures
        package::policy_error(policy) is None <==> {
            &&& policy.schema == "velnor-actions.package-policy.v1"@
            &&& policy.consumers.len() == 6
            &&& approved_rows(policy.consumers)
        },
        package::policy_error(policy) is None ==> forall|slug: Seq<char>|
            #[trigger] has_row(policy.consumers, slug) <==> is_tap(slug) || is_apt(slug),
{
    let rows = policy.consumers;
    let all = package::slugs(rows);
    lemma_rows(rows, rows.len() as int);
    assert(rows.take(rows.len() as int) =~= rows);
    lemma_six_consumers();
    assert forall|slug: Seq<char>| #[trigger]
        package::approved_consumers().contains(slug) == (is_tap(slug) || is_apt(slug)) by {
        lemma_lists_of_names(slug);
    }
    if approved_rows(rows) {
        assert forall|i: int, j: int| 0 <= i < j < all.len() implies #[trigger] all[i]
            != #[trigger] all[j] by {
            assert(rows[i].slug != rows[j].slug);
        }
        all.unique_seq_to_set();
        vstd::seq_lib::seq_to_set_is_finite(all);
        assert forall|slug: Seq<char>| all.to_set().contains(slug) implies
            package::approved_consumers().contains(slug) by {
            let i = choose|i: int| 0 <= i < all.len() && all[i] == slug;
            assert(approved_row(rows[i]));
            assert(aspect(rows[i], 0));
        }
        assert(all.to_set().subset_of(package::approved_consumers()));
        if rows.len() == 6 {
            vstd::set_lib::lemma_subset_equality(all.to_set(), package::approved_consumers());
        }
    }
    if package::policy_error(policy) is None {
        assert forall|slug: Seq<char>| #[trigger] has_row(rows, slug) <==> is_tap(slug) || is_apt(
            slug,
        ) by {
            assert(all.to_set().contains(slug) == package::approved_consumers().contains(slug));
            if all.contains(slug) {
                let i = choose|i: int| 0 <= i < all.len() && all[i] == slug;
                assert(rows[i].slug == slug);
            }
            if has_row(rows, slug) {
                let i = choose|i: int| 0 <= i < rows.len() && (#[trigger] rows[i]).slug == slug;
                assert(all[i] == slug);
            }
        }
    }
}

/// A table with another schema is refused for it. Else the first row that is
/// not as asked decides, by the first aspect in which it is not; a consumer that
/// has a row already comes before all of them. A table of approved rows that
/// does not have all six is refused last.
pub proof fn law_first_fault_of_a_policy_is_told(
    policy: package::PackagePolicyView,
    i: int,
    n: int,
)
    ensures
        policy.schema != "velnor-actions.package-policy.v1"@ ==> package::policy_error(policy)
            == Some("unknown package policy schema "@ + text::debug_text(policy.schema)),
        policy.schema == "velnor-actions.package-policy.v1"@ && 0 <= i < policy.consumers.len()
            && approved_rows(policy.consumers.take(i)) ==> {
            let rows = policy.consumers;
            let seen = exists|j: int| 0 <= j < i && (#[trigger] rows[j]).slug == rows[i].slug;
            &&& seen ==> package::policy_error(policy) == Some(
                "duplicate package consumer "@ + text::debug_text(rows[i].slug),
            )
            &&& !seen && 0 <= n < 10 && !aspect(rows[i], n) && (forall|m: int|
                0 <= m < n ==> #[trigger] aspect(rows[i], m)) ==> package::policy_error(policy)
                == Some(complaint(rows[i], n))
        },
        policy.schema == "velnor-actions.package-policy.v1"@ && approved_rows(policy.consumers)
            && policy.consumers.len() != 6 ==> package::policy_error(policy) == Some(
            "package consumer set is not exactly four taps and two APT repositories"@,
        ),
{
    let rows = policy.consumers;
    let checks = package::row_checks(rows);
    law_policies_are_six_approved_rows(policy);
    lemma_rows(rows, rows.len() as int);
    assert(rows.take(rows.len() as int) =~= rows);
    if 0 <= i < rows.len() && approved_rows(rows.take(i)) {
        lemma_rows(rows, i);
        lemma_row_error(rows, i);
        assert(failure::first_failure(i + 1, checks) == checks(i));
        if checks(i) is Some {
            failure::lemma_first_failure_stays(i + 1, rows.len() as int, checks);
        }
    }
}

/// A package policy has exactly six rows, one for each of the four taps and the
/// two APT repositories, and every row is in every aspect as asked.
pub proof fn law_policy_is_the_six_consumers(policy: package::PackagePolicyView)
    requires
        package::policy_error(policy) is None,
    ensures
        policy.consumers.len() == 6,
        package::slugs(policy.consumers).no_duplicates(),
        package::slugs(policy.consumers).to_set() == package::approved_consumers(),
        forall|i: int|
            0 <= i < policy.consumers.len() ==> approved_row(#[trigger] policy.consumers[i]),
{
    let rows = policy.consumers;
    let all = package::slugs(rows);
    law_policies_are_six_approved_rows(policy);
    assert forall|i: int, j: int| 0 <= i < j < all.len() implies #[trigger] all[i]
        != #[trigger] all[j] by {
        assert(rows[i].slug != rows[j].slug);
    }
}

/// A consumer is found exactly where a row has its slug, and it is the first
/// such row.
pub proof fn law_first_row_of_a_slug_is_found(rows: Seq<package::ConsumerView>, slug: Seq<char>)
    ensures
        match package::consumer_row(rows, slug) {
            None => forall|i: int| 0 <= i < rows.len() ==> (#[trigger] rows[i]).slug != slug,
            Some(row) => exists|i: int|
                0 <= i < rows.len() && #[trigger] rows[i] == row && row.slug == slug && forall|
                    j: int,
                |
                    0 <= j < i ==> (#[trigger] rows[j]).slug != slug,
        },
{
    let all = package::slugs(rows);
    all.index_of_first_ensures(slug);
    match all.index_of_first(slug) {
        Some(i) => {
            assert(rows[i].slug == all[i]);
            assert forall|j: int| 0 <= j < i implies (#[trigger] rows[j]).slug != slug by {
                assert(all[j] == rows[j].slug);
            }
        },
        None => {
            assert forall|i: int| 0 <= i < rows.len() implies (#[trigger] rows[i]).slug != slug by {
                assert(all[i] == rows[i].slug);
                assert(all.contains(all[i]));
            }
        },
    }
}

/// A package policy has a row for a repository exactly where the repository is
/// one of the four taps or of the two APT repositories, and the row is that
/// repository's.
pub proof fn law_consumers_are_found_by_slug(
    policy: package::PackagePolicyView,
    repository: Seq<char>,
)
    requires
        package::policy_error(policy) is None,
    ensures
        package::consumer_row(policy.consumers, repository) is Some <==> is_tap(repository)
            || is_apt(repository),
        package::consumer_row(policy.consumers, repository) is Some
            <==> package::approved_consumers().contains(repository),
        package::consumer_row(policy.consumers, repository) matches Some(row) ==> row.slug
            == repository && policy.consumers.contains(row),
        forall|i: int|
            0 <= i < policy.consumers.len() && (#[trigger] policy.consumers[i]).slug == repository
                ==> package::consumer_row(policy.consumers, repository) == Some(
                policy.consumers[i],
            ),
{
    law_policies_are_six_approved_rows(policy);
    law_first_row_of_a_slug_is_found(policy.consumers, repository);
    lemma_lists_of_names(repository);
    assert(has_row(policy.consumers, repository) <==> is_tap(repository) || is_apt(repository));
}

/// A character of a placeholder.
pub open spec fn is_marker(c: char) -> bool {
    c == '@' || c == '_' || 'A' <= c <= 'Z'
}

/// A text of placeholder characters, and none else.
pub open spec fn marked(placeholder: Seq<char>) -> bool {
    placeholder.len() > 0 && forall|i: int|
        0 <= i < placeholder.len() ==> is_marker(#[trigger] placeholder[i])
}

/// A text without placeholder characters.
pub open spec fn unmarked(value: Seq<char>) -> bool {
    value.len() > 0 && forall|i: int| 0 <= i < value.len() ==> !is_marker(#[trigger] value[i])
}

proof fn lemma_placeholders_are_marked()
    ensures
        marked("@JACKIN_FLEET_SHA@"@),
        marked("@TAILROCKS_FLEET_SHA@"@),
        marked("@CHAINARGOS_FLEET_SHA@"@),
        marked("@CALVER@"@),
        marked("@PACKAGE_CHANNELS@"@),
{
    reveal_strlit("@JACKIN_FLEET_SHA@");
    reveal_strlit("@TAILROCKS_FLEET_SHA@");
    reveal_strlit("@CHAINARGOS_FLEET_SHA@");
    reveal_strlit("@CALVER@");
    reveal_strlit("@PACKAGE_CHANNELS@");
}

proof fn lemma_values_are_unmarked(sha: Seq<char>, calver: Seq<char>, slug: Seq<char>)
    ensures
        model::sha40(sha) ==> unmarked(sha),
        calver::is_calver(calver) ==> unmarked(calver),
        unmarked(package::offered_channels(slug)),
{
    reveal_strlit("[stable, preview]");
    reveal_strlit("[stable]");
    if model::sha40(sha) {
        assert forall|i: int| 0 <= i < sha.len() implies !is_marker(#[trigger] sha[i]) by {
            assert(model::is_hex(sha[i]));
        }
    }
    if calver::is_calver(calver) {
        let (y, m, d) = choose|y: Seq<char>, m: Seq<char>, d: Seq<char>|
            calver::numeric(y) && calver::numeric(m) && calver::numeric(d) && calver
                == #[trigger] calver::dotted(y, m, d);
        assert forall|i: int| 0 <= i < calver.len() implies !is_marker(#[trigger] calver[i]) by {
            let (from_m, from_d) = (y.len() + 1, y.len() + m.len() + 2);
            if i < y.len() {
                assert(text::is_digit(y[i]));
            } else if from_m <= i < from_m + m.len() {
                assert(text::is_digit(m[i - from_m]));
            } else if from_d <= i {
                assert(text::is_digit(d[i - from_d]));
            }
        }
    }
}

/// Filling in one placeholder removes it and brings back no other one.
proof fn lemma_fill_one(
    template: Seq<char>,
    placeholder: Seq<char>,
    value: Seq<char>,
    other: Seq<char>,
)
    requires
        marked(placeholder),
        marked(other),
        unmarked(value),
    ensures
        !text::occurs(text::replaced(template, placeholder, value), placeholder),
        !text::occurs(template, other) ==> !text::occurs(
            text::replaced(template, placeholder, value),
            other,
        ),
{
    assert(text::disjoint_chars(value, placeholder));
    assert(text::disjoint_chars(value, other));
    text::lemma_replaced_removes(template, placeholder, value);
    if text::occurs(text::replaced(template, placeholder, value), other) {
        text::lemma_replaced_adds_nothing(template, placeholder, value, other);
    }
}

/// Whatever the template, filling it in with full object IDs and a CalVer leaves
/// no placeholder behind.
pub proof fn law_filled_template_has_no_placeholder(
    template: Seq<char>,
    shas: Seq<Seq<char>>,
    calver: Seq<char>,
    slug: Seq<char>,
)
    requires
        shas.len() == 3,
        package::all_sha40(shas),
        calver::is_calver(calver),
    ensures
        package::left_placeholder(package::filled_template(template, shas, calver, slug)) is None,
{
    lemma_placeholders_are_marked();
    lemma_values_are_unmarked(shas[0], calver, slug);
    lemma_values_are_unmarked(shas[1], calver, slug);
    lemma_values_are_unmarked(shas[2], calver, slug);
    let jackin = "@JACKIN_FLEET_SHA@"@;
    let tailrocks = "@TAILROCKS_FLEET_SHA@"@;
    let chainargos = "@CHAINARGOS_FLEET_SHA@"@;
    let release = "@CALVER@"@;
    let channels = "@PACKAGE_CHANNELS@"@;
    let a = text::replaced(template, jackin, shas[0]);
    let b = text::replaced(a, tailrocks, shas[1]);
    let c = text::replaced(b, chainargos, shas[2]);
    let d = text::replaced(c, release, calver);
    let offered = package::offered_channels(slug);
    lemma_fill_one(template, jackin, shas[0], jackin);
    lemma_fill_one(a, tailrocks, shas[1], jackin);
    lemma_fill_one(b, chainargos, shas[2], jackin);
    lemma_fill_one(b, chainargos, shas[2], tailrocks);
    lemma_fill_one(c, release, calver, jackin);
    lemma_fill_one(c, release, calver, tailrocks);
    lemma_fill_one(c, release, calver, chainargos);
    lemma_fill_one(d, channels, offered, jackin);
    lemma_fill_one(d, channels, offered, tailrocks);
    lemma_fill_one(d, channels, offered, chainargos);
    lemma_fill_one(d, channels, offered, release);
}

/// A template and what comes of it when its five placeholders are filled in, one
/// after the other: `a` to `d` are what it is in between.
pub open spec fn filled_in_steps(
    template: Seq<char>,
    values: Seq<Seq<char>>,
    a: Seq<char>,
    b: Seq<char>,
    c: Seq<char>,
    d: Seq<char>,
    rendered: Seq<char>,
) -> bool {
    &&& laws::text::substituted(template, "@JACKIN_FLEET_SHA@"@, values[0], a)
    &&& laws::text::substituted(a, "@TAILROCKS_FLEET_SHA@"@, values[1], b)
    &&& laws::text::substituted(b, "@CHAINARGOS_FLEET_SHA@"@, values[2], c)
    &&& laws::text::substituted(c, "@CALVER@"@, values[3], d)
    &&& laws::text::substituted(d, "@PACKAGE_CHANNELS@"@, values[4], rendered)
}

/// A text is a template with its five placeholders filled in.
pub open spec fn filled_in(
    template: Seq<char>,
    values: Seq<Seq<char>>,
    rendered: Seq<char>,
) -> bool {
    exists|a: Seq<char>, b: Seq<char>, c: Seq<char>, d: Seq<char>| #[trigger]
        filled_in_steps(template, values, a, b, c, d, rendered)
}

/// A text without any of the five placeholders.
pub open spec fn nothing_to_fill(rendered: Seq<char>) -> bool {
    &&& !laws::text::stands_in(rendered, "@JACKIN_FLEET_SHA@"@)
    &&& !laws::text::stands_in(rendered, "@TAILROCKS_FLEET_SHA@"@)
    &&& !laws::text::stands_in(rendered, "@CHAINARGOS_FLEET_SHA@"@)
    &&& !laws::text::stands_in(rendered, "@CALVER@"@)
    &&& !laws::text::stands_in(rendered, "@PACKAGE_CHANNELS@"@)
}

proof fn lemma_filled_in(
    template: Seq<char>,
    shas: Seq<Seq<char>>,
    calver: Seq<char>,
    slug: Seq<char>,
)
    requires
        shas.len() == 3,
    ensures
        filled_in(
            template,
            seq![
                shas[0],
                shas[1],
                shas[2],
                calver,
                if slug == "jackin-project/homebrew-tap"@ {
                    "[stable, preview]"@
                } else {
                    "[stable]"@
                },
            ],
            package::filled_template(template, shas, calver, slug),
        ),
{
    lemma_placeholders_are_marked();
    let channels = if slug == "jackin-project/homebrew-tap"@ {
        "[stable, preview]"@
    } else {
        "[stable]"@
    };
    let values = seq![shas[0], shas[1], shas[2], calver, channels];
    let a = text::replaced(template, "@JACKIN_FLEET_SHA@"@, shas[0]);
    let b = text::replaced(a, "@TAILROCKS_FLEET_SHA@"@, shas[1]);
    let c = text::replaced(b, "@CHAINARGOS_FLEET_SHA@"@, shas[2]);
    let d = text::replaced(c, "@CALVER@"@, calver);
    laws::text::law_replacing_substitutes(template, "@JACKIN_FLEET_SHA@"@, shas[0]);
    laws::text::law_replacing_substitutes(a, "@TAILROCKS_FLEET_SHA@"@, shas[1]);
    laws::text::law_replacing_substitutes(b, "@CHAINARGOS_FLEET_SHA@"@, shas[2]);
    laws::text::law_replacing_substitutes(c, "@CALVER@"@, calver);
    laws::text::law_replacing_substitutes(d, "@PACKAGE_CHANNELS@"@, channels);
    assert(filled_in_steps(
        template,
        values,
        a,
        b,
        c,
        d,
        package::filled_template(template, shas, calver, slug),
    ));
}

/// Of a package policy, a workflow is rendered exactly for the four taps and the
/// two APT repositories, three full object IDs and a release name. It is the
/// template of the consumer's kind with the object IDs, the release name and the
/// channels filled in, and nothing is left to fill in. The channels are stable
/// and preview for the tap of jackin-project, and stable alone for every other
/// consumer. What is not as asked is told: an object ID first, then the name,
/// then the consumer.
pub proof fn law_policy_renders_its_consumers(
    policy: package::PackagePolicyView,
    templates: package::Templates,
    repository: Seq<char>,
    shas: Seq<Seq<char>>,
    calver: Seq<char>,
)
    requires
        package::policy_error(policy) is None,
        shas.len() == 3,
    ensures
        package::consumer_rendering(policy.consumers, templates, repository, shas, calver) is Ok
            <==> (package::all_sha40(shas) && calver::is_calver(calver)
            && package::approved_consumers().contains(repository)),
        package::consumer_rendering(policy.consumers, templates, repository, shas, calver) matches Ok(
            rendered,
        ) ==> rendered == package::filled_template(
            if package::tap_consumer(repository) {
                templates.tap@
            } else {
                templates.apt@
            },
            shas,
            calver,
            repository,
        ),
        ({
            let outcome = package::consumer_rendering(
                policy.consumers,
                templates,
                repository,
                shas,
                calver,
            );
            let ids = laws::identity::full_id(shas[0]) && laws::identity::full_id(shas[1])
                && laws::identity::full_id(shas[2]);
            let channels = if repository == "jackin-project/homebrew-tap"@ {
                "[stable, preview]"@
            } else {
                "[stable]"@
            };
            if !ids {
                outcome == Err::<Seq<char>, Seq<char>>(
                    "every owner release SHA must be 40 lowercase hexadecimal characters"@,
                )
            } else if !laws::identity::release_name(calver) {
                outcome == Err::<Seq<char>, Seq<char>>(
                    "CalVer must be YYYY.M.D with numeric components"@,
                )
            } else if is_tap(repository) {
                outcome matches Ok(rendered) && filled_in(
                    templates.tap@,
                    seq![shas[0], shas[1], shas[2], calver, channels],
                    rendered,
                ) && nothing_to_fill(rendered)
            } else if is_apt(repository) {
                outcome matches Ok(rendered) && filled_in(
                    templates.apt@,
                    seq![shas[0], shas[1], shas[2], calver, channels],
                    rendered,
                ) && nothing_to_fill(rendered)
            } else {
                outcome == Err::<Seq<char>, Seq<char>>(
                    text::debug_text(repository) + " is not a package consumer"@,
                )
            }
        }),
{
    law_policies_are_six_approved_rows(policy);
    law_consumers_are_found_by_slug(policy, repository);
    laws::identity::law_full_ids_are_forty_hex_digits(shas[0]);
    laws::identity::law_full_ids_are_forty_hex_digits(shas[1]);
    laws::identity::law_full_ids_are_forty_hex_digits(shas[2]);
    laws::identity::law_release_names_are_three_numbers(calver);
    lemma_lists_of_names(repository);
    lemma_kinds();
    assert(package::all_sha40(shas) <==> model::sha40(shas[0]) && model::sha40(shas[1])
        && model::sha40(shas[2]));
    if package::all_sha40(shas) && calver::is_calver(calver) && (is_tap(repository) || is_apt(
        repository,
    )) {
        let row = package::consumer_row(policy.consumers, repository)->0;
        assert(approved_row(row));
        assert(aspect(row, 1));
        let template = package::template_of(templates, row.kind)->0;
        let rendered = package::filled_template(template, shas, calver, row.slug);
        law_filled_template_has_no_placeholder(template, shas, calver, row.slug);
        lemma_filled_in(template, shas, calver, row.slug);
        laws::text::law_found_where_it_stands(rendered, "@JACKIN_FLEET_SHA@"@);
        laws::text::law_found_where_it_stands(rendered, "@TAILROCKS_FLEET_SHA@"@);
        laws::text::law_found_where_it_stands(rendered, "@CHAINARGOS_FLEET_SHA@"@);
        laws::text::law_found_where_it_stands(rendered, "@CALVER@"@);
        laws::text::law_found_where_it_stands(rendered, "@PACKAGE_CHANNELS@"@);
    }
}

/// A line of the updater's table of policies.
pub open spec fn policy_line(row: package::ConsumerView) -> Seq<char> {
    "            "@ + row.slug + ") SOURCE_REPOSITORY="@ + row.source + "; ASSET_PATTERNS=$'"@
        + laws::text::glued(row.assets, "\\n"@) + "'; PREVIEW_ASSET_PATTERNS=$'"@
        + laws::text::glued(row.preview_assets, "\\n"@) + "'; ALLOWED_CHANNELS=$'"@
        + laws::text::glued(row.channels, "\\n"@) + "' ;;\n"@
}

/// A line of the updater's table of sources.
pub open spec fn source_line(row: package::ConsumerView) -> Seq<char> {
    "            "@ + row.slug + ") SOURCE_REPOSITORY="@ + row.source + " ;;\n"@
}

/// A shell `case` of lines that ends in a refusal.
pub open spec fn shell_case(lines: Seq<Seq<char>>) -> Seq<char> {
    "          case \"$CONSUMER_REPOSITORY\" in\n"@ + laws::text::glued(lines, Seq::empty())
        + "            *) echo \"unknown consumer\" >&2; exit 1 ;;\n"@ + "          esac"@
}

proof fn lemma_glued_lines(
    rows: Seq<package::ConsumerView>,
    policies: Seq<Seq<char>>,
    sources: Seq<Seq<char>>,
)
    requires
        policies == rows.map_values(|row: package::ConsumerView| policy_line(row)),
        sources == rows.map_values(|row: package::ConsumerView| source_line(row)),
    ensures
        package::policy_cases(rows) == laws::text::glued(policies, Seq::empty()),
        package::source_cases(rows) == laws::text::glued(sources, Seq::empty()),
    decreases rows.len(),
{
    if rows.len() > 0 {
        let row = rows.last();
        let nothing = Seq::<char>::empty();
        laws::text::law_joined_texts_are_glued(row.assets, "\\n"@);
        laws::text::law_joined_texts_are_glued(row.preview_assets, "\\n"@);
        laws::text::law_joined_texts_are_glued(row.channels, "\\n"@);
        assert(package::policy_case(row) == policy_line(row));
        assert(package::source_case(row) == source_line(row));
        assert(policies.last() == policy_line(row) && sources.last() == source_line(row));
        assert(policies.drop_last() =~= rows.drop_last().map_values(
            |row: package::ConsumerView| policy_line(row),
        ));
        assert(sources.drop_last() =~= rows.drop_last().map_values(
            |row: package::ConsumerView| source_line(row),
        ));
        lemma_glued_lines(rows.drop_last(), policies.drop_last(), sources.drop_last());
        if rows.len() == 1 {
            assert(policies.drop_last().len() == 0 && sources.drop_last().len() == 0);
            assert(policies[0] == policy_line(row) && sources[0] == source_line(row));
        } else {
            laws::text::lemma_glued_last(policies, nothing);
            laws::text::lemma_glued_last(sources, nothing);
        }
        assert(package::policy_cases(rows) =~= laws::text::glued(policies, nothing));
        assert(package::source_cases(rows) =~= laws::text::glued(sources, nothing));
    }
}

/// The updater workflow is its template with a `case` of every row, in table
/// order, in every place of the one placeholder, and then a `case` of every
/// row's source in every place of the other; `between` is what it is after the
/// first.
pub proof fn law_updater_has_every_row(
    rows: Seq<package::ConsumerView>,
    template: Seq<char>,
) -> (between: Seq<char>)
    ensures
        laws::text::substituted(
            template,
            "@CONSUMER_POLICY_CASES@"@,
            shell_case(rows.map_values(|row: package::ConsumerView| policy_line(row))),
            between,
        ),
        laws::text::substituted(
            between,
            "@CONSUMER_SOURCE_CASES@"@,
            shell_case(rows.map_values(|row: package::ConsumerView| source_line(row))),
            package::updater_text(rows, template),
        ),
{
    let policies = rows.map_values(|row: package::ConsumerView| policy_line(row));
    let sources = rows.map_values(|row: package::ConsumerView| source_line(row));
    lemma_glued_lines(rows, policies, sources);
    reveal_strlit("@CONSUMER_POLICY_CASES@");
    reveal_strlit("@CONSUMER_SOURCE_CASES@");
    let between = text::replaced(template, "@CONSUMER_POLICY_CASES@"@, shell_case(policies));
    laws::text::law_replacing_substitutes(
        template,
        "@CONSUMER_POLICY_CASES@"@,
        shell_case(policies),
    );
    laws::text::law_replacing_substitutes(
        between,
        "@CONSUMER_SOURCE_CASES@"@,
        shell_case(sources),
    );
    between
}

/// A consumer is seen field by field.
pub proof fn law_consumers_are_seen_whole(row: package::Consumer)
    ensures
        row@.slug == row.slug@,
        row@.kind == row.kind@,
        row@.source == row.source@,
        row@.source_ref == row.source_ref@,
        row@.channels == row.channels@.map_values(|item: String| item@),
        row@.assets == row.assets@.map_values(|item: String| item@),
        row@.preview_assets == row.preview_assets@.map_values(|item: String| item@),
{
    laws::text::law_lists_are_seen_whole(row.channels@, Seq::empty());
    laws::text::law_lists_are_seen_whole(row.assets@, Seq::empty());
    laws::text::law_lists_are_seen_whole(row.preview_assets@, Seq::empty());
}

} // verus!
