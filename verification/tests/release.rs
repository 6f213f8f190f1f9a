use velnor_actions_generator::model::{Fork, ForkTable};
use velnor_actions_generator::package::{Consumer, PackagePolicy, POLICY_SCHEMA};
use velnor_actions_generator::release::{
    Release, ReleaseFork, ReleasePolicy, SignerRelease, RELEASE_SCHEMA,
};

const CONSUMERS: [(&str, &str, &str, &str); 6] = [
    ("jackin-project/homebrew-tap", "tap", "jackin-project/jackin", "a.zip"),
    ("tailrocks/homebrew-holla", "tap", "tailrocks/holla", "a.zip"),
    ("tailrocks/homebrew-parallax", "tap", "tailrocks/parallax", "a.zip"),
    ("tailrocks/homebrew-tablerock", "tap", "tailrocks/tablerock", "a.zip"),
    ("tailrocks/holla-apt", "apt", "tailrocks/holla", "a.deb"),
    ("tailrocks/velnor-apt", "apt", "tailrocks/velnor", "a.deb"),
];

fn sha(digit: char) -> String {
    digit.to_string().repeat(40)
}

fn packages() -> PackagePolicy {
    let rows = CONSUMERS
        .iter()
        .map(|(slug, kind, source, asset)| {
            let jackin = *slug == "jackin-project/homebrew-tap";
            Consumer {
                slug: slug.to_string(),
                kind: kind.to_string(),
                source: source.to_string(),
                source_ref: "refs/tags/v*".to_string(),
                channels: vec!["preview".to_string()],
                assets: vec![asset.to_string()],
                preview_assets: if jackin { vec![asset.to_string(); 6] } else { Vec::new() },
            }
        })
        .collect();
    PackagePolicy::load(POLICY_SCHEMA.to_string(), rows).unwrap()
}

fn forks() -> ForkTable {
    ForkTable::new(vec![
        Fork { repository: "jackin-project/velnor-actions".to_string() },
        Fork { repository: "tailrocks/velnor-actions".to_string() },
    ])
}

fn fork(owner: &str, digit: char) -> ReleaseFork {
    ReleaseFork {
        owner: owner.to_string(),
        repository: format!("{owner}/velnor-actions"),
        sha: sha(digit),
    }
}

fn signer(consumer: &str, source: &str) -> SignerRelease {
    SignerRelease {
        consumer: consumer.to_string(),
        source: source.to_string(),
        signer_fork: format!("{}/velnor-actions", source.split('/').next().unwrap()),
        current_signer_digest: sha('c'),
        old_signer_digest: None,
        old_signer_activated_at: None,
        old_signer_expires_at: None,
    }
}

fn release(calver: &str) -> Release {
    Release {
        calver: calver.to_string(),
        forks: vec![fork("tailrocks", 'a'), fork("jackin-project", 'b')],
        signers: CONSUMERS.iter().map(|(slug, _, source, _)| signer(slug, source)).collect(),
    }
}

fn load(releases: Vec<Release>) -> Result<ReleasePolicy, String> {
    ReleasePolicy::load(RELEASE_SCHEMA.to_string(), releases)
}

fn refusal(change: fn(&mut Release)) -> String {
    let mut changed = release("2026.1.2");
    change(&mut changed);
    load(vec![release("2026.1.1"), changed]).unwrap_err()
}

fn rotate(signer: &mut SignerRelease, digest: String, activated: &str, expires: &str) {
    signer.old_signer_digest = Some(digest);
    signer.old_signer_activated_at = Some(activated.to_string());
    signer.old_signer_expires_at = Some(expires.to_string());
}

fn mismatch(change: fn(&mut Release)) -> String {
    let mut changed = release("2026.1.2");
    change(&mut changed);
    let policy = load(vec![release("2026.1.1"), changed]).unwrap();
    policy.validate_against(&packages(), &forks()).unwrap_err()
}

#[test]
fn loads_and_finds_releases() {
    let policy = load(vec![release("2026.1.1"), release("2026.1.2")]).unwrap();
    assert_eq!(policy.release("2026.1.2"), Ok(&release("2026.1.2")));
    assert_eq!(
        policy.release("2026.1.3"),
        Err("release table has no CalVer 2026.1.3".to_string())
    );
}

#[test]
fn refuses_a_bad_table() {
    assert_eq!(
        ReleasePolicy::load("other".to_string(), Vec::new()),
        Err("unknown release table schema \"other\"".to_string())
    );
    assert_eq!(
        load(Vec::new()),
        Err("release table must declare at least one release".to_string())
    );
    assert_eq!(
        load(vec![release("2026.1")]),
        Err("invalid release CalVer \"2026.1\"".to_string())
    );
    assert_eq!(
        load(vec![release("2026.1.1"), release("2026.1.1")]),
        Err("duplicate release \"2026.1.1\"".to_string())
    );
}

#[test]
fn refuses_bad_fork_rows() {
    let tail = "invalid or duplicate release fork tailrocks/velnor-actions@";
    assert_eq!(refusal(|r| r.forks[0].sha = "abc".to_string()), format!("{tail}abc"));
    assert_eq!(
        refusal(|r| r.forks[1] = fork("tailrocks", 'd')),
        format!("{tail}{}", sha('d'))
    );
    assert_eq!(
        refusal(|r| r.forks[0].owner = "other".to_string()),
        format!("{tail}{}", sha('a'))
    );
}

#[test]
fn refuses_bad_signer_rows() {
    let row = "invalid or duplicate signer row \"tailrocks/homebrew-holla\"";
    assert_eq!(refusal(|r| r.signers[1].current_signer_digest = "C".repeat(40)), row);
    assert_eq!(refusal(|r| r.signers[2].consumer = r.signers[1].consumer.clone()), row);
}

#[test]
fn refuses_bad_rotations() {
    let rotation = "signer rotation for jackin-project/homebrew-tap";
    let start = "2026-01-01T00:00:00Z";
    let end = "2026-01-31T00:00:00Z";
    let with = |digest: String, activated: &str, expires: &str| {
        let mut changed = release("2026.1.2");
        rotate(&mut changed.signers[0], digest, activated, expires);
        load(vec![changed]).err()
    };
    assert_eq!(with(sha('d'), start, end), None);
    let partial = Some(format!("{rotation} must declare all old fields"));
    let mut changed = release("2026.1.2");
    changed.signers[0].old_signer_expires_at = Some(end.to_string());
    assert_eq!(load(vec![changed]).err(), partial);
    let mut changed = release("2026.1.2");
    rotate(&mut changed.signers[0], sha('d'), start, end);
    changed.signers[0].old_signer_activated_at = None;
    assert_eq!(load(vec![changed]).err(), partial);
    let digest = Some(format!("{rotation} has an invalid old digest"));
    assert_eq!(with("d".to_string(), start, end), digest);
    assert_eq!(with(sha('c'), start, end), digest);
    let bounds = Some(format!("{rotation} has invalid UTC bounds"));
    assert_eq!(with(sha('d'), "2026-01-01", end), bounds);
    assert_eq!(with(sha('d'), start, "tomorrow"), bounds);
    assert_eq!(with(sha('d'), start, start), bounds);
    assert_eq!(with(sha('d'), end, start), bounds);
    assert_eq!(
        with(sha('d'), "2026-00-01T00:00:00Z", end),
        Some(format!("{rotation} has invalid activation"))
    );
    assert_eq!(
        with(sha('d'), start, "2026-02-30T00:00:00Z"),
        Some(format!("{rotation} has invalid expiry"))
    );
    assert_eq!(
        with(sha('d'), start, "2026-01-31T00:00:01Z"),
        Some(format!("{rotation} exceeds the 30-day old-signer window"))
    );
}

#[test]
fn agrees_with_the_tables() {
    let policy = load(vec![release("2026.1.1"), release("2026.1.2")]).unwrap();
    assert_eq!(policy.validate_against(&packages(), &forks()), Ok(()));
}

#[test]
fn refuses_forks_that_do_not_match() {
    assert_eq!(
        mismatch(|r| drop(r.forks.pop())),
        "release 2026.1.2 has 1 forks, expected 2"
    );
    assert_eq!(
        mismatch(|r| r.forks[1] = fork("other", 'b')),
        "release 2026.1.2 fork other/velnor-actions is not exactly one declared fork"
    );
    let doubled = ForkTable::new(vec![
        Fork { repository: "tailrocks/velnor-actions".to_string() },
        Fork { repository: "tailrocks/velnor-actions".to_string() },
    ]);
    let policy = load(vec![release("2026.1.1")]).unwrap();
    assert_eq!(
        policy.validate_against(&packages(), &doubled),
        Err("release 2026.1.1 fork jackin-project/velnor-actions is not exactly one declared fork"
            .to_string())
    );
}

#[test]
fn refuses_a_fork_set_that_differs() {
    let table = ForkTable::new(vec![Fork { repository: "x/velnor-actions".to_string() }]);
    let policy = load(vec![release("2026.1.1")]).unwrap();
    assert_eq!(
        policy.validate_against(&packages(), &table),
        Err("release 2026.1.1 has 2 forks, expected 1".to_string())
    );
    let repeated = ForkTable::new(vec![
        Fork { repository: "tailrocks/velnor-actions".to_string() },
        Fork { repository: "jackin-project/velnor-actions".to_string() },
        Fork { repository: "jackin-project/velnor-actions".to_string() },
    ]);
    let mut three = release("2026.1.1");
    three.forks.push(fork("chainargos", 'e'));
    assert_eq!(
        load(vec![three]).unwrap().validate_against(&packages(), &repeated),
        Err("release 2026.1.1 fork chainargos/velnor-actions is not exactly one declared fork"
            .to_string())
    );
}

#[test]
fn refuses_signers_that_do_not_match() {
    assert_eq!(
        mismatch(|r| r.signers[3].consumer = "tailrocks/unknown".to_string()),
        "release 2026.1.2 has unknown signer consumer tailrocks/unknown"
    );
    assert_eq!(
        mismatch(|r| r.signers[3].source = "tailrocks/holla".to_string()),
        "release 2026.1.2 signer row tailrocks/homebrew-tablerock does not match package source"
    );
    assert_eq!(
        mismatch(|r| r.signers[3].signer_fork = "tailrocks/fork".to_string()),
        "release 2026.1.2 signer tailrocks/fork is not a declared fork"
    );
    assert_eq!(
        mismatch(|r| r.signers[3].signer_fork = "jackin-project/velnor-actions".to_string()),
        "release 2026.1.2 signer tailrocks/homebrew-tablerock crosses source owner boundary"
    );
    assert_eq!(
        mismatch(|r| drop(r.signers.pop())),
        "release 2026.1.2 signer consumer set differs from package table"
    );
}

#[test]
fn renders_signer_tables() {
    let mut second = release("2026.1.2");
    rotate(&mut second.signers[0], sha('d'), "2026-01-01T00:00:00Z", "2026-01-31T00:00:00Z");
    let policy = load(vec![release("2026.1.1"), second]).unwrap();
    let current = |calver: &str| {
        format!(
            "# Generated by velnor-actions-generator. DO NOT EDIT.\nschema = \"velnor-actions.signer-digests.v1\"\nrelease = \"{calver}\"\nconsumer = \"jackin-project/homebrew-tap\"\nsource = \"jackin-project/jackin\"\nsigner_fork = \"jackin-project/velnor-actions\"\ncurrent_signer_digest = \"{}\"\n",
            sha('c')
        )
    };
    let jackin = "jackin-project/homebrew-tap";
    assert_eq!(
        policy.render_signer_digests(&packages(), jackin, "2026.1.1"),
        Ok(current("2026.1.1"))
    );
    assert_eq!(
        policy.render_signer_digests(&packages(), jackin, "2026.1.2"),
        Ok(format!(
            "{}old_signer_digest = \"{}\"\nold_signer_activated_at = \"2026-01-01T00:00:00Z\"\nold_signer_expires_at = \"2026-01-31T00:00:00Z\"\n",
            current("2026.1.2"),
            sha('d')
        ))
    );
    for (slug, _, _, _) in CONSUMERS {
        assert!(policy.render_signer_digests(&packages(), slug, "2026.1.2").is_ok());
    }
}

#[test]
fn refuses_to_render_signer_tables() {
    let mut changed = release("2026.1.1");
    changed.signers.pop();
    changed.signers[1].source = "tailrocks/other".to_string();
    changed.signers.push(signer("some\"one", "x/y"));
    let policy = load(vec![changed]).unwrap();
    let render = |consumer: &str, calver: &str| {
        policy.render_signer_digests(&packages(), consumer, calver).unwrap_err()
    };
    assert_eq!(render("tailrocks/holla-apt", "1.1.1"), "release table has no CalVer 1.1.1");
    assert_eq!(
        render("tailrocks/velnor-apt", "2026.1.1"),
        "release 2026.1.1 has no signer row for tailrocks/velnor-apt"
    );
    assert_eq!(render("some\"one", "2026.1.1"), "\"some\\\"one\" is not a package consumer");
    assert_eq!(
        render("tailrocks/homebrew-holla", "2026.1.1"),
        "signer source mismatch for tailrocks/homebrew-holla"
    );
}
