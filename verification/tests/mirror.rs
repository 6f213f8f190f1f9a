use velnor_actions_generator::mirror::{
    compare_trees, print_list, Progress, OBJECT_QUERY, TREE_QUERY,
};
use velnor_actions_generator::model::{Fork, ForkTable};
use velnor_actions_generator::release::{Release, ReleaseFork, ReleasePolicy, RELEASE_SCHEMA};
use velnor_actions_generator::tree::{fetch_tree, BlobTree};

fn sha(digit: char) -> String {
    digit.to_string().repeat(40)
}

fn fork(owner: &str, digit: char) -> ReleaseFork {
    ReleaseFork {
        owner: owner.to_string(),
        repository: format!("{owner}/velnor-actions"),
        sha: sha(digit),
    }
}

fn policy(forks: Vec<ReleaseFork>) -> ReleasePolicy {
    let release = Release { calver: "2026.1.1".to_string(), forks, signers: Vec::new() };
    ReleasePolicy::load(RELEASE_SCHEMA.to_string(), vec![release]).unwrap()
}

fn declared(owners: &[&str]) -> ForkTable {
    ForkTable::new(
        owners
            .iter()
            .map(|owner| Fork { repository: format!("{owner}/velnor-actions") })
            .collect(),
    )
}

/// Runs a check of two forks, `one` and `two`, on the given questions and
/// answers.
fn dialogue(steps: &[(&str, &str, Result<&str, &str>)]) -> Option<Result<String, String>> {
    let policy = policy(vec![fork("one", 'a'), fork("two", 'b')]);
    let table = declared(&["one", "two"]);
    let mut progress = policy.check_fork_equality(&table, "2026.1.1");
    for (endpoint, query, answer) in steps {
        progress = match progress {
            Progress::Ask(check) => {
                assert_eq!(check.endpoint(), *endpoint);
                assert_eq!(check.query(), *query);
                check.answer(match answer {
                    Ok(text) => Ok(text.to_string()),
                    Err(message) => Err(message.to_string()),
                })
            }
            Progress::Done(result) => panic!("over too early: {result:?}"),
        };
    }
    match progress {
        Progress::Ask(_) => None,
        Progress::Done(result) => Some(result),
    }
}

const TAG_ONE: &str = "repos/one/velnor-actions/git/ref/tags/2026.1.1";
const TAG_TWO: &str = "repos/two/velnor-actions/git/ref/tags/2026.1.1";

fn tree_endpoint(owner: &str, digit: char) -> String {
    format!("repos/{owner}/velnor-actions/git/trees/{}?recursive=1", sha(digit))
}

#[test]
fn equal_mirrors_pass() {
    let (one, two) = (tree_endpoint("one", 'a'), tree_endpoint("two", 'b'));
    let listing = format!("README.md\t100644\t{0}\nsrc/a b.rs\t100755\t{0}\n", sha('1'));
    let (commit_one, commit_two) = (format!("commit\t{}\n", sha('a')), format!("commit\t{}", sha('b')));
    let tag = format!("tag\t{}\n", sha('e'));
    let peel = format!("repos/two/velnor-actions/git/tags/{}", sha('e'));
    let result = dialogue(&[
        (TAG_ONE, OBJECT_QUERY, Ok(&commit_one)),
        (&one, TREE_QUERY, Ok(&listing)),
        (TAG_TWO, OBJECT_QUERY, Ok(&tag)),
        (&peel, OBJECT_QUERY, Ok(&tag)),
        (&peel, OBJECT_QUERY, Ok(&commit_two)),
        (&two, TREE_QUERY, Ok(&listing)),
    ]);
    assert_eq!(
        result,
        Some(Ok("release fork equality valid: 2026.1.1, 2 forks, 2 blobs".to_string()))
    );
}

#[test]
fn different_mirrors_fail() {
    let (one, two) = (tree_endpoint("one", 'a'), tree_endpoint("two", 'b'));
    let first = format!("same\t1\t{0}\nz\t1\t{0}\nb \"q\"\t1\t{0}\n", sha('1'));
    let second = format!("same\t1\t{0}\nnew\t1\t{0}\n", sha('1'));
    let (commit_one, commit_two) = (format!("commit\t{}", sha('a')), format!("commit\t{}", sha('b')));
    let result = dialogue(&[
        (TAG_ONE, OBJECT_QUERY, Ok(&commit_one)),
        (&one, TREE_QUERY, Ok(&first)),
        (TAG_TWO, OBJECT_QUERY, Ok(&commit_two)),
        (&two, TREE_QUERY, Ok(&second)),
    ]);
    assert_eq!(
        result,
        Some(Err("release 2026.1.1 fork mismatch: one/velnor-actions vs two/velnor-actions; missing=[\"b \\\"q\\\"\", \"z\"], extra=[\"new\"]".to_string()))
    );
}

#[test]
fn tags_must_lead_to_the_commit_of_the_table() {
    let missing = Some(Err("release 2026.1.1 tag missing for one/velnor-actions".to_string()));
    assert_eq!(dialogue(&[(TAG_ONE, OBJECT_QUERY, Ok(" \n"))]), missing);
    assert_eq!(dialogue(&[(TAG_ONE, OBJECT_QUERY, Ok("commit\t\n"))]), missing);
    let unresolved = Some(Err(
        "release 2026.1.1 tag for one/velnor-actions does not resolve to a commit".to_string()
    ));
    let (blob, short) = (format!("blob\t{}", sha('a')), "commit\tabc".to_string());
    assert_eq!(dialogue(&[(TAG_ONE, OBJECT_QUERY, Ok(&blob))]), unresolved);
    assert_eq!(dialogue(&[(TAG_ONE, OBJECT_QUERY, Ok(&short))]), unresolved);
    let tag = format!("tag\t{}", sha('e'));
    let peel = format!("repos/one/velnor-actions/git/tags/{}", sha('e'));
    assert_eq!(
        dialogue(&[(TAG_ONE, OBJECT_QUERY, Ok(&tag)), (&peel, OBJECT_QUERY, Ok(""))]),
        unresolved
    );
    let other = format!("commit\t{}\textra", sha('c'));
    assert_eq!(
        dialogue(&[(TAG_ONE, OBJECT_QUERY, Ok(&other))]),
        Some(Err(format!(
            "release 2026.1.1 table SHA mismatch for one/velnor-actions: table {}, tag {}",
            sha('a'),
            sha('c')
        )))
    );
}

#[test]
fn a_failed_question_ends_the_check() {
    assert_eq!(
        dialogue(&[(TAG_ONE, OBJECT_QUERY, Err("gh api failed"))]),
        Some(Err("gh api failed".to_string()))
    );
    let commit = format!("commit\t{}", sha('a'));
    let one = tree_endpoint("one", 'a');
    assert_eq!(
        dialogue(&[(TAG_ONE, OBJECT_QUERY, Ok(&commit)), (&one, TREE_QUERY, Err("offline"))]),
        Some(Err("offline".to_string()))
    );
    assert_eq!(
        dialogue(&[(TAG_ONE, OBJECT_QUERY, Ok(&commit)), (&one, TREE_QUERY, Ok("path\tmode"))]),
        Some(Err(format!(
            "invalid tree entry for one/velnor-actions@{}: \"path\\tmode\"",
            sha('a')
        )))
    );
    assert_eq!(dialogue(&[(TAG_ONE, OBJECT_QUERY, Ok(&commit))]), None);
}

#[test]
fn checks_without_questions() {
    let table = declared(&["one"]);
    let empty = policy(Vec::new());
    match empty.check_fork_equality(&table, "2026.1.1") {
        Progress::Done(result) => {
            assert_eq!(result, Err("release 2026.1.1 has no fork trees".to_string()))
        }
        Progress::Ask(_) => panic!("nothing to ask"),
    }
    match empty.check_fork_equality(&table, "2026.1.2") {
        Progress::Done(result) => {
            assert_eq!(result, Err("release table has no CalVer 2026.1.2".to_string()))
        }
        Progress::Ask(_) => panic!("nothing to ask"),
    }
    match policy(vec![fork("two", 'b')]).check_fork_equality(&table, "2026.1.1") {
        Progress::Done(result) => assert_eq!(
            result,
            Err("release 2026.1.1 contains undeclared fork two/velnor-actions".to_string())
        ),
        Progress::Ask(_) => panic!("nothing to ask"),
    };
}

#[test]
fn reads_listings() {
    let listing = format!(
        "\nb\t100644\t{0}\r\n\na\t100755\t{0}\nb\t100600\t{1}\n",
        sha('1'),
        sha('2')
    );
    let tree = fetch_tree("one/velnor-actions", "c", &listing).unwrap();
    assert_eq!(tree.len(), 2);
    assert!(tree.has_path("a"));
    assert!(!tree.has_path("c"));
    let same = BlobTree::new()
        .insert("b".to_string(), format!("100600\t{}", sha('2')))
        .insert("a".to_string(), format!("100755\t{}", sha('1')));
    assert!(tree.same_tree(&same));
    assert!(!tree.same_tree(&BlobTree::new()));
    let error = |row: &str| fetch_tree("r", "c", row).unwrap_err();
    for row in ["x", "\tmode\tsha", "path\t\tsha", "path\tmode\tabc"] {
        assert_eq!(error(row), format!("invalid tree entry for r@c: {row:?}"));
    }
    let tabbed = format!("path\tmode\t{}\t", sha('1'));
    assert_eq!(error(&tabbed), format!("invalid tree entry for r@c: {tabbed:?}"));
    assert_eq!(fetch_tree("r", "c", "").unwrap().len(), 0);
}

#[test]
fn trees_are_maps() {
    let tree = BlobTree::new()
        .insert("m".to_string(), "1".to_string())
        .insert("é".to_string(), "2".to_string())
        .insert("a".to_string(), "3".to_string());
    let other = BlobTree::new().insert("m".to_string(), "9".to_string());
    assert_eq!(tree.len(), 3);
    assert_eq!(tree.paths_missing_from(&other), vec!["a".to_string(), "é".to_string()]);
    assert!(other.paths_missing_from(&tree).is_empty());
    let replaced = tree.insert("m".to_string(), "9".to_string());
    assert_eq!(replaced.len(), 3);
    assert!(replaced.paths_missing_from(&BlobTree::new()).len() == 3);
}

#[test]
fn judges_trees() {
    let forks = vec![fork("one", 'a'), fork("two", 'b'), fork("three", 'c')];
    let make = |mark: &str| BlobTree::new().insert("p".to_string(), mark.to_string());
    assert_eq!(
        compare_trees("1.2.3", &forks, &vec![make("x"), make("x"), make("x")]),
        Ok("release fork equality valid: 1.2.3, 3 forks, 1 blobs".to_string())
    );
    assert_eq!(
        compare_trees("1.2.3", &forks, &vec![make("x"), make("x"), make("y")]),
        Err("release 1.2.3 fork mismatch: one/velnor-actions vs three/velnor-actions; missing=[], extra=[]".to_string())
    );
}

#[test]
fn prints_lists() {
    assert_eq!(print_list(&Vec::new()), "[]");
    assert_eq!(print_list(&vec!["\"a\"".to_string(), "\"b\"".to_string()]), "[\"a\", \"b\"]");
}
