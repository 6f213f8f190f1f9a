use velnor_actions_generator::calver::{valid_calver, validate_calver};
use velnor_actions_generator::model::is_sha40;
use velnor_actions_generator::package::{Consumer, PackagePolicy, Templates, POLICY_SCHEMA};

const JACKIN: &str = "jackin-project/homebrew-tap";
const SHA_A: &str = "aaaaaaaaaaaaaaaaaaaaaaaaaaaaaaaaaaaaaaaa";
const SHA_B: &str = "0123456789abcdef0123456789abcdef01234567";
const SHA_C: &str = "ffffffffffffffffffffffffffffffffffffffff";

fn strings(items: &[&str]) -> Vec<String> {
    items.iter().map(|item| item.to_string()).collect()
}

fn row(slug: &str, kind: &str, source: &str, asset: &str) -> Consumer {
    Consumer {
        slug: slug.to_string(),
        kind: kind.to_string(),
        source: source.to_string(),
        source_ref: "refs/tags/v*".to_string(),
        channels: strings(&["stable"]),
        assets: strings(&[asset]),
        preview_assets: Vec::new(),
    }
}

fn rows() -> Vec<Consumer> {
    let mut jackin = row(JACKIN, "tap", "jackin-project/jackin", "jackin-*.tar.gz");
    jackin.channels = strings(&["stable", "preview"]);
    jackin.assets = strings(&["jackin-*.tar.gz", "jackin-*.zip"]);
    jackin.preview_assets =
        strings(&["a.zip", "b.zip", "c.zip", "d.tar.gz", "e.tar.gz", "f.tar.gz"]);
    vec![
        jackin,
        row("tailrocks/homebrew-holla", "tap", "tailrocks/holla", "holla.tar.gz"),
        row("tailrocks/homebrew-parallax", "tap", "tailrocks/parallax", "parallax.zip"),
        row("tailrocks/homebrew-tablerock", "tap", "tailrocks/tablerock", "tablerock.zip"),
        row("tailrocks/holla-apt", "apt", "tailrocks/holla", "holla.deb"),
        row("tailrocks/velnor-apt", "apt", "tailrocks/velnor", "velnor.deb"),
    ]
}

fn load(rows: Vec<Consumer>) -> Result<PackagePolicy, String> {
    PackagePolicy::load(POLICY_SCHEMA.to_string(), rows)
}

fn refusal(change: fn(&mut Vec<Consumer>)) -> String {
    let mut rows = rows();
    change(&mut rows);
    load(rows).unwrap_err()
}

fn templates() -> Templates {
    Templates {
        updater: "on: push\n@CONSUMER_POLICY_CASES@\n---\n@CONSUMER_SOURCE_CASES@\n".to_string(),
        tap: "tap @JACKIN_FLEET_SHA@ @TAILROCKS_FLEET_SHA@ @CHAINARGOS_FLEET_SHA@ @CALVER@ @PACKAGE_CHANNELS@ @CALVER@".to_string(),
        apt: "apt @CALVER@ @PACKAGE_CHANNELS@".to_string(),
    }
}

#[test]
fn loads_the_six_consumers() {
    let policy = load(rows()).unwrap();
    assert!(policy.validate().is_ok());
    assert_eq!(
        policy.consumer_slugs(),
        vec![
            JACKIN,
            "tailrocks/homebrew-holla",
            "tailrocks/homebrew-parallax",
            "tailrocks/homebrew-tablerock",
            "tailrocks/holla-apt",
            "tailrocks/velnor-apt",
        ]
    );
    assert_eq!(policy.consumer("tailrocks/velnor-apt").unwrap().source(), "tailrocks/velnor");
    assert!(policy.consumer("tailrocks/velnor").is_none());
}

#[test]
fn loads_the_rows_in_any_order() {
    let mut rows = rows();
    rows.reverse();
    let policy = load(rows).unwrap();
    assert_eq!(policy.consumer_slugs()[5], JACKIN);
}

#[test]
fn refuses_another_schema() {
    assert_eq!(
        PackagePolicy::load("v2 \"x\"\n".to_string(), rows()).unwrap_err(),
        "unknown package policy schema \"v2 \\\"x\\\"\\n\""
    );
}

#[test]
fn refuses_duplicate_and_unapproved_consumers() {
    assert_eq!(
        refusal(|rows| rows[1].slug = JACKIN.to_string()),
        "duplicate package consumer \"jackin-project/homebrew-tap\""
    );
    assert_eq!(
        refusal(|rows| rows[1].slug = "someone/tap".to_string()),
        "unapproved package consumer \"someone/tap\""
    );
}

#[test]
fn refuses_a_wrong_kind_source_or_ref() {
    assert_eq!(
        refusal(|rows| rows[4].kind = "tap".to_string()),
        "tailrocks/holla-apt must have kind apt"
    );
    assert_eq!(
        refusal(|rows| rows[3].kind = "brew".to_string()),
        "tailrocks/homebrew-tablerock must have kind tap"
    );
    assert_eq!(
        refusal(|rows| rows[0].source = "jackin-project/other".to_string()),
        "unapproved package source \"jackin-project/other\""
    );
    assert_eq!(
        refusal(|rows| rows[0].source_ref = "refs/heads/main".to_string()),
        "jackin-project/homebrew-tap has mutable or unknown source_ref"
    );
}

#[test]
fn refuses_bad_allowlists() {
    let empty = "tailrocks/homebrew-holla has an empty channel or asset allowlist";
    assert_eq!(refusal(|rows| rows[1].channels.clear()), empty);
    assert_eq!(refusal(|rows| rows[1].assets.clear()), empty);
    assert_eq!(
        refusal(|rows| rows[1].channels.push("nightly".to_string())),
        "tailrocks/homebrew-holla has an unknown channel"
    );
    let unsafe_asset = "tailrocks/homebrew-holla has an unsafe asset pattern";
    assert_eq!(refusal(|rows| rows[1].assets.push(String::new())), unsafe_asset);
    assert_eq!(refusal(|rows| rows[1].assets.push("a/b.zip".to_string())), unsafe_asset);
    assert_eq!(refusal(|rows| rows[1].assets.push("a..zip".to_string())), unsafe_asset);
    assert_eq!(
        refusal(|rows| rows[1].assets.push("a.deb".to_string())),
        "tailrocks/homebrew-holla has an asset outside its package formats"
    );
    assert_eq!(
        refusal(|rows| rows[5].assets.push("a.zip".to_string())),
        "tailrocks/velnor-apt has an asset outside its package formats"
    );
}

#[test]
fn refuses_bad_preview_assets() {
    let six = "jackin preview policy must bind exactly six rolling assets";
    assert_eq!(refusal(|rows| drop(rows[0].preview_assets.pop())), six);
    assert_eq!(refusal(|rows| drop(rows[0].channels.pop())), six);
    assert_eq!(
        refusal(|rows| rows[2].preview_assets.push("a.zip".to_string())),
        "tailrocks/homebrew-parallax has unsupported preview assets"
    );
    let unsafe_preview = "jackin-project/homebrew-tap has an unsafe preview asset";
    assert_eq!(refusal(|rows| rows[0].preview_assets[2] = "x/y.zip".to_string()), unsafe_preview);
    assert_eq!(refusal(|rows| rows[0].preview_assets[2] = "y.deb".to_string()), unsafe_preview);
}

#[test]
fn refuses_an_incomplete_table() {
    let message = "package consumer set is not exactly four taps and two APT repositories";
    assert_eq!(refusal(|rows| drop(rows.pop())), message);
    assert_eq!(refusal(|rows| rows.clear()), message);
}

#[test]
fn reports_the_first_refused_row() {
    assert_eq!(
        refusal(|rows| {
            rows[4].assets.clear();
            rows[2].source_ref.clear();
        }),
        "tailrocks/homebrew-parallax has mutable or unknown source_ref"
    );
}

#[test]
fn renders_the_updater() {
    let policy = load(rows()).unwrap();
    let rendered = policy.render_updater(&templates());
    let policy_case = "            jackin-project/homebrew-tap) SOURCE_REPOSITORY=jackin-project/jackin; ASSET_PATTERNS=$'jackin-*.tar.gz\\njackin-*.zip'; PREVIEW_ASSET_PATTERNS=$'a.zip\\nb.zip\\nc.zip\\nd.tar.gz\\ne.tar.gz\\nf.tar.gz'; ALLOWED_CHANNELS=$'stable\\npreview' ;;\n";
    assert!(rendered.starts_with(&format!(
        "on: push\n          case \"$CONSUMER_REPOSITORY\" in\n{policy_case}            tailrocks/homebrew-holla) SOURCE_REPOSITORY=tailrocks/holla; ASSET_PATTERNS=$'holla.tar.gz'; PREVIEW_ASSET_PATTERNS=$''; ALLOWED_CHANNELS=$'stable' ;;\n"
    )));
    let tail = "            *) echo \"unknown consumer\" >&2; exit 1 ;;\n          esac\n";
    let sources = "---\n          case \"$CONSUMER_REPOSITORY\" in\n            jackin-project/homebrew-tap) SOURCE_REPOSITORY=jackin-project/jackin ;;\n            tailrocks/homebrew-holla) SOURCE_REPOSITORY=tailrocks/holla ;;\n            tailrocks/homebrew-parallax) SOURCE_REPOSITORY=tailrocks/parallax ;;\n            tailrocks/homebrew-tablerock) SOURCE_REPOSITORY=tailrocks/tablerock ;;\n            tailrocks/holla-apt) SOURCE_REPOSITORY=tailrocks/holla ;;\n            tailrocks/velnor-apt) SOURCE_REPOSITORY=tailrocks/velnor ;;\n";
    assert!(rendered.ends_with(&format!("{sources}{tail}")));
    assert!(rendered.contains(&format!("{tail}---\n")));
    assert_eq!(rendered.matches(" ;;\n").count(), 14);
}

#[test]
fn renders_consumers() {
    let policy = load(rows()).unwrap();
    let shas = [SHA_A, SHA_B, SHA_C];
    assert_eq!(
        policy.render_consumer(&templates(), JACKIN, shas, "2026.1.15").unwrap(),
        format!("tap {SHA_A} {SHA_B} {SHA_C} 2026.1.15 [stable, preview] 2026.1.15")
    );
    assert_eq!(
        policy.render_consumer(&templates(), "tailrocks/holla-apt", shas, "2026.1.15").unwrap(),
        "apt 2026.1.15 [stable]"
    );
}

#[test]
fn refuses_to_render_from_bad_arguments() {
    let policy = load(rows()).unwrap();
    let render = |repository: &str, shas: [&str; 3], calver: &str| {
        policy.render_consumer(&templates(), repository, shas, calver).unwrap_err()
    };
    let sha_message = "every owner release SHA must be 40 lowercase hexadecimal characters";
    assert_eq!(render(JACKIN, [SHA_A, SHA_B, "abc"], "2026.1.15"), sha_message);
    assert_eq!(render(JACKIN, [&SHA_A.to_uppercase(), SHA_B, SHA_C], "2026.1.15"), sha_message);
    assert_eq!(render(JACKIN, [SHA_A, "", SHA_C], "nonsense"), sha_message);
    assert_eq!(
        render(JACKIN, [SHA_A, SHA_B, SHA_C], "2026.1"),
        "CalVer must be YYYY.M.D with numeric components"
    );
    assert_eq!(
        render("some\tone", [SHA_A, SHA_B, SHA_C], "2026.1.15"),
        "\"some\\tone\" is not a package consumer"
    );
}

#[test]
fn filled_templates_hold_no_placeholder() {
    let policy = load(rows()).unwrap();
    let mut odd = templates();
    odd.tap = "@CAL@CALVER@VER@ @@CALVER@@ @JACKIN_FLEET@PACKAGE_CHANNELS@_SHA@ @CALVER@CALVER@"
        .to_string();
    assert_eq!(
        policy.render_consumer(&odd, JACKIN, [SHA_A, SHA_B, SHA_C], "1.2.3").unwrap(),
        "@CAL1.2.3VER@ @1.2.3@ @JACKIN_FLEET[stable, preview]_SHA@ 1.2.3CALVER@"
    );
}

#[test]
fn knows_calver_names() {
    for name in ["2026.1.15", "0.0.0", "00.01.999999999999999999999"] {
        assert!(valid_calver(name));
        assert!(validate_calver(name).is_ok());
    }
    for name in ["", "1", "1.2", "1.2.3.4", ".1.2", "1..2", "1.2.", "1.2.x", "1.2.3 ", "1.2.٣", "-1.2.3"] {
        assert!(!valid_calver(name));
        assert_eq!(validate_calver(name), Err(format!("invalid release CalVer {name:?}")));
    }
}

#[test]
fn knows_full_object_ids() {
    assert!(is_sha40(SHA_B));
    assert!(!is_sha40(&SHA_B[1..]));
    assert!(!is_sha40(&format!("{SHA_B}0")));
    assert!(!is_sha40(&SHA_B.to_uppercase()));
    assert!(!is_sha40(&SHA_B.replace('a', "g")));
    assert!(!is_sha40(&"é".repeat(20)));
    assert!(!is_sha40(""));
}
