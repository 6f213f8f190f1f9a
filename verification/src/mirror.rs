//! The live release check: that the mirrors of a release carry its tag at the
//! commits of the release table, with identical trees.
//!
//! The check is a dialogue. [`ReleasePolicy::check_fork_equality`] starts it;
//! while it is open it asks one question at a time, and each answer takes it
//! one step further.
//!
//! [`ReleasePolicy::check_fork_equality`]: crate::release::ReleasePolicy::check_fork_equality

use vstd::prelude::*;
use vstd::string::*;

use crate::failure;
use crate::model;
use crate::model::ForkTable;
use crate::release;
use crate::release::ReleaseFork;
use crate::text;
use crate::tree;
use crate::tree::BlobTree;

verus! {

/// The fields of a reference or of an annotated tag: the kind and the object
/// ID of what it points to, with a tab between them.
pub const OBJECT_QUERY: &'static str = "[.object.type,.object.sha]|@tsv";

/// The blobs of a tree, one to a line: path, mode and object ID with tabs
/// between them.
pub const TREE_QUERY: &'static str = "[.tree[] | select(.type == \"blob\") | [.path,.mode,.sha] | @tsv] | sort | .[]";

/// What is being asked of a mirror.
#[derive(Debug)]
enum Phase {
    /// What the release tag points to.
    Tag,
    /// What an annotated tag, given by its object ID, points to.
    Peel(String),
    /// The tree of the release commit.
    Tree,
}

/// A phase as texts.
pub enum PhaseView {
    Tag,
    Peel(Seq<char>),
    Tree,
}

impl View for Phase {
    type V = PhaseView;

    closed spec fn view(&self) -> PhaseView {
        match self {
            Phase::Tag => PhaseView::Tag,
            Phase::Peel(sha) => PhaseView::Peel(sha@),
            Phase::Tree => PhaseView::Tree,
        }
    }
}

/// An open check: the question to ask next and what is known so far. The forks
/// whose trees are known come first; the next one is being asked about.
#[derive(Debug)]
pub struct ForkCheck<'a> {
    calver: &'a str,
    forks: &'a Vec<ReleaseFork>,
    declared: &'a ForkTable,
    phase: Phase,
    trees: Vec<BlobTree>,
}

/// An open check as texts.
pub struct ForkCheckView {
    pub calver: Seq<char>,
    pub forks: Seq<release::ForkView>,
    pub declared: Seq<Seq<char>>,
    pub phase: PhaseView,
    pub trees: Seq<Map<Seq<char>, Seq<char>>>,
}

impl<'a> View for ForkCheck<'a> {
    type V = ForkCheckView;

    closed spec fn view(&self) -> ForkCheckView {
        ForkCheckView {
            calver: self.calver@,
            forks: model::views(self.forks@),
            declared: self.declared@,
            phase: self.phase@,
            trees: model::views(self.trees@),
        }
    }
}

/// How far a check has come.
#[derive(Debug)]
pub enum Progress<'a> {
    /// A question is open.
    Ask(ForkCheck<'a>),
    /// The check is over.
    Done(Result<String, String>),
}

/// How far a check has come, as texts.
pub enum ProgressView {
    Ask(ForkCheckView),
    Done(Result<Seq<char>, Seq<char>>),
}

impl<'a> View for Progress<'a> {
    type V = ProgressView;

    open spec fn view(&self) -> ProgressView {
        match self {
            Progress::Ask(check) => ProgressView::Ask(check@),
            Progress::Done(result) => ProgressView::Done(text::result_text(*result)),
        }
    }
}

impl ForkCheckView {
    /// The fork that is being asked about.
    pub open spec fn fork(self) -> release::ForkView {
        self.forks[self.trees.len() as int]
    }

    /// The endpoint of the open question.
    pub open spec fn endpoint(self) -> Seq<char> {
        let repository = self.fork().repository;
        match self.phase {
            PhaseView::Tag => "repos/"@ + repository + "/git/ref/tags/"@ + self.calver,
            PhaseView::Peel(sha) => "repos/"@ + repository + "/git/tags/"@ + sha,
            PhaseView::Tree => "repos/"@ + repository + "/git/trees/"@ + self.fork().sha
                + "?recursive=1"@,
        }
    }

    /// The query that is put to the answer of the endpoint.
    pub open spec fn query(self) -> Seq<char> {
        match self.phase {
            PhaseView::Tree => TREE_QUERY@,
            _ => OBJECT_QUERY@,
        }
    }
}

/// The kind of the object that an answer names.
pub open spec fn object_kind(answer: Seq<char>) -> Seq<char> {
    text::before(text::trimmed(answer), '\t')
}

/// The object ID of the object that an answer names.
pub open spec fn object_sha(answer: Seq<char>) -> Seq<char> {
    text::before(text::after(text::trimmed(answer), '\t'), '\t')
}

/// A list as `{:?}` prints it, given the printed items.
pub open spec fn printed_list(items: Seq<Seq<char>>) -> Seq<char> {
    "["@ + text::joined(items, ", "@) + "]"@
}

/// The items of a list, each as `{:?}` prints it.
pub open spec fn printed_items(list: Seq<Seq<char>>) -> Seq<Seq<char>> {
    Seq::new(list.len(), |i: int| text::debug_text(list[i]))
}

/// The paths of one tree that another one does not have, as `{:?}` prints them.
pub open spec fn printed_missing(
    tree: Map<Seq<char>, Seq<char>>,
    other: Map<Seq<char>, Seq<char>>,
) -> Seq<char> {
    printed_list(printed_items(tree::sorted(tree.dom().difference(other.dom()))))
}

/// Why the tree of fork `i` is refused: it differs from that of the first fork.
pub open spec fn tree_mismatch(
    calver: Seq<char>,
    forks: Seq<release::ForkView>,
    trees: Seq<Map<Seq<char>, Seq<char>>>,
    i: int,
) -> Option<Seq<char>> {
    if trees[i] == trees[0] {
        None
    } else {
        Some(
            "release "@ + calver + " fork mismatch: "@ + forks[0].repository + " vs "@
                + forks[i].repository + "; missing="@ + printed_missing(trees[0], trees[i])
                + ", extra="@ + printed_missing(trees[i], trees[0]),
        )
    }
}

/// The check of each tree against the first one.
pub open spec fn tree_checks(
    calver: Seq<char>,
    forks: Seq<release::ForkView>,
    trees: Seq<Map<Seq<char>, Seq<char>>>,
) -> spec_fn(int) -> Option<Seq<char>> {
    |i: int| tree_mismatch(calver, forks, trees, i)
}

/// The message of a check that a number of forks with one tree have passed.
pub open spec fn equality_message(
    calver: Seq<char>,
    forks: nat,
    blobs: Map<Seq<char>, Seq<char>>,
) -> Seq<char> {
    "release fork equality valid: "@ + calver + ", "@ + text::decimal(forks) + " forks, "@
        + text::decimal(blobs.dom().len()) + " blobs"@
}

/// The outcome of a check once the tree of every fork is known.
pub open spec fn verdict(
    calver: Seq<char>,
    forks: Seq<release::ForkView>,
    trees: Seq<Map<Seq<char>, Seq<char>>>,
) -> Result<Seq<char>, Seq<char>> {
    if trees.len() == 0 {
        Err("release "@ + calver + " has no fork trees"@)
    } else {
        match failure::first_failure(trees.len() as int, tree_checks(calver, forks, trees)) {
            Some(message) => Err(message),
            None => Ok(equality_message(calver, trees.len(), trees[0])),
        }
    }
}

/// The step to the next fork: the verdict when none is left, a refusal when the
/// fork is not declared, else the question for its tag.
pub open spec fn next_fork(check: ForkCheckView) -> ProgressView {
    if check.trees.len() >= check.forks.len() {
        ProgressView::Done(verdict(check.calver, check.forks, check.trees))
    } else if !check.declared.contains(check.fork().repository) {
        ProgressView::Done(
            Err(
                "release "@ + check.calver + " contains undeclared fork "@
                    + check.fork().repository,
            ),
        )
    } else {
        ProgressView::Ask(ForkCheckView { phase: PhaseView::Tag, ..check })
    }
}

/// The step that follows the object that a tag points to: another tag is asked
/// about in turn; a commit must be that of the release table.
pub open spec fn resolved(check: ForkCheckView, kind: Seq<char>, sha: Seq<char>) -> ProgressView {
    let fork = check.fork();
    if kind == "tag"@ {
        ProgressView::Ask(ForkCheckView { phase: PhaseView::Peel(sha), ..check })
    } else if kind != "commit"@ || !model::sha40(sha) {
        ProgressView::Done(
            Err(
                "release "@ + check.calver + " tag for "@ + fork.repository
                    + " does not resolve to a commit"@,
            ),
        )
    } else if sha != fork.sha {
        ProgressView::Done(
            Err(
                "release "@ + check.calver + " table SHA mismatch for "@ + fork.repository
                    + ": table "@ + fork.sha + ", tag "@ + sha,
            ),
        )
    } else {
        ProgressView::Ask(ForkCheckView { phase: PhaseView::Tree, ..check })
    }
}

/// The step that an answer leads to. A question that could not be answered ends
/// the check with the reason.
pub open spec fn answered(
    check: ForkCheckView,
    answer: Result<Seq<char>, Seq<char>>,
) -> ProgressView {
    match answer {
        Err(message) => ProgressView::Done(Err(message)),
        Ok(answer) => match check.phase {
            PhaseView::Tag => if object_kind(answer).len() == 0 || object_sha(answer).len() == 0 {
                ProgressView::Done(
                    Err(
                        "release "@ + check.calver + " tag missing for "@
                            + check.fork().repository,
                    ),
                )
            } else {
                resolved(check, object_kind(answer), object_sha(answer))
            },
            PhaseView::Peel(_) => resolved(check, object_kind(answer), object_sha(answer)),
            PhaseView::Tree => match tree::listed_tree(
                check.fork().repository,
                check.fork().sha,
                answer,
            ) {
                Err(message) => ProgressView::Done(Err(message)),
                Ok(tree) => next_fork(ForkCheckView { trees: check.trees.push(tree), ..check }),
            },
        },
    }
}

/// The start of a check of the release with a name.
pub open spec fn started(
    releases: Seq<release::ReleaseView>,
    declared: Seq<Seq<char>>,
    calver: Seq<char>,
) -> ProgressView {
    match release::release_row(releases, calver) {
        None => ProgressView::Done(Err("release table has no CalVer "@ + calver)),
        Some(release) => next_fork(
            ForkCheckView {
                calver,
                forks: release.forks,
                declared,
                phase: PhaseView::Tag,
                trees: Seq::empty(),
            },
        ),
    }
}

/// Prints a list, given the printed items.
pub fn print_list(items: &Vec<String>) -> (printed: String)
    ensures
        printed@ == printed_list(text::texts(items@)),
{
    text::cat3("[", text::join_texts(items, ", ").as_str(), "]")
}

fn print_missing(tree: &BlobTree, other: &BlobTree) -> (printed: String)
    ensures
        printed@ == printed_missing(tree@, other@),
{
    let missing = tree.paths_missing_from(other);
    let ghost list = text::texts(missing@);
    let mut items: Vec<String> = Vec::new();
    let mut i: usize = 0;
    while i < missing.len()
        invariant
            i <= missing@.len(),
            list == text::texts(missing@),
            text::texts(items@) == printed_items(list).take(i as int),
        decreases missing@.len() - i,
    {
        let ghost done = text::texts(items@);
        items.push(text::quoted(missing[i].as_str()));
        assert(text::texts(items@) =~= done.push(printed_items(list)[i as int]));
        i = i + 1;
        assert(text::texts(items@) =~= printed_items(list).take(i as int));
    }
    assert(text::texts(items@) =~= printed_items(list));
    print_list(&items)
}

/// Judges the trees of all forks: each must be that of the first fork.
pub fn compare_trees(calver: &str, forks: &Vec<ReleaseFork>, trees: &Vec<BlobTree>) -> (result:
    Result<String, String>)
    requires
        forks@.len() == trees@.len(),
    ensures
        text::result_text(result) == verdict(
            calver@,
            model::views(forks@),
            model::views(trees@),
        ),
{
    if trees.len() == 0 {
        return Err(text::cat3("release ", calver, " has no fork trees"));
    }
    let ghost fork_rows = model::views(forks@);
    let ghost maps = model::views(trees@);
    let ghost checks = tree_checks(calver@, fork_rows, maps);
    let first = &trees[0];
    assert(maps[0] == first@);
    assert(fork_rows[0] == forks@[0]@);
    assert(checks(0) is None);
    assert(failure::first_failure(1, checks) is None) by {
        reveal_with_fuel(failure::first_failure, 2);
    }
    let mut i: usize = 1;
    while i < trees.len()
        invariant
            1 <= i <= trees@.len() == forks@.len(),
            fork_rows == model::views(forks@),
            maps == model::views(trees@),
            checks == tree_checks(calver@, fork_rows, maps),
            maps[0] == first@,
            fork_rows[0] == forks@[0]@,
            failure::first_failure(i as int, checks) is None,
        decreases trees@.len() - i,
    {
        let tree = &trees[i];
        assert(maps[i as int] == tree@);
        assert(fork_rows[i as int] == forks@[i as int]@);
        if !tree.same_tree(first) {
            let mut message = text::cat5(
                "release ",
                calver,
                " fork mismatch: ",
                forks[0].repository.as_str(),
                " vs ",
            );
            message.append(forks[i].repository.as_str());
            message.append("; missing=");
            message.append(print_missing(first, tree).as_str());
            message.append(", extra=");
            message.append(print_missing(tree, first).as_str());
            proof {
                failure::lemma_first_failure_stays(i + 1, trees@.len() as int, checks);
            }
            return Err(message);
        }
        i = i + 1;
    }
    let mut message = text::cat4(
        "release fork equality valid: ",
        calver,
        ", ",
        text::decimal_text(trees.len()).as_str(),
    );
    message.append(" forks, ");
    message.append(text::decimal_text(first.len()).as_str());
    message.append(" blobs");
    Ok(message)
}

impl<'a> ForkCheck<'a> {
    #[verifier::type_invariant]
    spec fn has_next_fork(self) -> bool {
        self.trees@.len() < self.forks@.len()
    }

    /// The endpoint of the open question.
    pub fn endpoint(&self) -> (endpoint: String)
        ensures
            endpoint@ == self@.endpoint(),
    {
        proof {
            use_type_invariant(self);
        }
        let fork = &self.forks[self.trees.len()];
        let repository = fork.repository.as_str();
        assert(self@.fork() == fork@);
        match &self.phase {
            Phase::Tag => text::cat4("repos/", repository, "/git/ref/tags/", self.calver),
            Phase::Peel(sha) => text::cat4("repos/", repository, "/git/tags/", sha.as_str()),
            Phase::Tree => text::cat5(
                "repos/",
                repository,
                "/git/trees/",
                fork.sha.as_str(),
                "?recursive=1",
            ),
        }
    }

    /// The query that is put to the answer of the endpoint.
    pub fn query(&self) -> (query: &'static str)
        ensures
            query@ == self@.query(),
    {
        match &self.phase {
            Phase::Tree => TREE_QUERY,
            _ => OBJECT_QUERY,
        }
    }

    /// Goes on to the next fork, or to the verdict when none is left.
    fn next_fork(
        calver: &'a str,
        forks: &'a Vec<ReleaseFork>,
        declared: &'a ForkTable,
        trees: Vec<BlobTree>,
    ) -> (progress: Progress<'a>)
        requires
            trees@.len() <= forks@.len(),
        ensures
            progress@ == next_fork(
                ForkCheckView {
                    calver: calver@,
                    forks: model::views(forks@),
                    declared: declared@,
                    phase: PhaseView::Tag,
                    trees: model::views(trees@),
                },
            ),
    {
        if trees.len() == forks.len() {
            return Progress::Done(compare_trees(calver, forks, &trees));
        }
        let repository = forks[trees.len()].repository.as_str();
        assert(model::views(forks@)[trees@.len() as int] == forks@[trees@.len() as int]@);
        if !declared.declares(repository) {
            return Progress::Done(
                Err(text::cat4("release ", calver, " contains undeclared fork ", repository)),
            );
        }
        Progress::Ask(ForkCheck { calver, forks, declared, phase: Phase::Tag, trees })
    }

    /// Starts the check of a release's forks.
    pub(crate) fn start(
        calver: &'a str,
        forks: &'a Vec<ReleaseFork>,
        declared: &'a ForkTable,
    ) -> (progress: Progress<'a>)
        ensures
            progress@ == next_fork(
                ForkCheckView {
                    calver: calver@,
                    forks: model::views(forks@),
                    declared: declared@,
                    phase: PhaseView::Tag,
                    trees: Seq::empty(),
                },
            ),
    {
        let trees: Vec<BlobTree> = Vec::new();
        assert(model::views(trees@) =~= Seq::<Map<Seq<char>, Seq<char>>>::empty());
        ForkCheck::next_fork(calver, forks, declared, trees)
    }

    /// Follows the object that the release tag points to.
    fn resolve_release_ref(self, kind: &str, sha: &str) -> (progress: Progress<'a>)
        ensures
            progress@ == resolved(self@, kind@, sha@),
    {
        proof {
            use_type_invariant(&self);
        }
        let ForkCheck { calver, forks, declared, phase, trees } = self;
        let fork = &forks[trees.len()];
        let repository = fork.repository.as_str();
        assert(model::views(forks@)[trees@.len() as int] == fork@);
        if text::same_text(kind, "tag") {
            let phase = Phase::Peel(sha.to_owned());
            return Progress::Ask(ForkCheck { calver, forks, declared, phase, trees });
        }
        if !text::same_text(kind, "commit") || !model::is_sha40(sha) {
            return Progress::Done(
                Err(
                    text::cat5(
                        "release ",
                        calver,
                        " tag for ",
                        repository,
                        " does not resolve to a commit",
                    ),
                ),
            );
        }
        if !text::same_text(sha, fork.sha.as_str()) {
            let mut message = text::cat5(
                "release ",
                calver,
                " table SHA mismatch for ",
                repository,
                ": table ",
            );
            message.append(fork.sha.as_str());
            message.append(", tag ");
            message.append(sha);
            return Progress::Done(Err(message));
        }
        Progress::Ask(ForkCheck { calver, forks, declared, phase: Phase::Tree, trees })
    }

    /// Takes the answer to the open question, or why there is none.
    pub fn answer(self, answer: Result<String, String>) -> (progress: Progress<'a>)
        ensures
            progress@ == answered(self@, text::result_text(answer)),
    {
        proof {
            use_type_invariant(&self);
        }
        let answer = match answer {
            Ok(answer) => answer,
            Err(message) => {
                return Progress::Done(Err(message));
            },
        };
        let fork = &self.forks[self.trees.len()];
        assert(self@.fork() == fork@);
        let is_tree = match &self.phase {
            Phase::Tree => true,
            _ => false,
        };
        if is_tree {
            match tree::fetch_tree(fork.repository.as_str(), fork.sha.as_str(), answer.as_str()) {
                Err(message) => Progress::Done(Err(message)),
                Ok(tree) => {
                    let ForkCheck { calver, forks, declared, phase, mut trees } = self;
                    let ghost known = model::views(trees@);
                    let ghost map = tree@;
                    trees.push(tree);
                    assert(model::views(trees@) =~= known.push(map));
                    ForkCheck::next_fork(calver, forks, declared, trees)
                },
            }
        } else {
            let (kind, rest) = text::cut(text::trim_text(answer.as_str()), '\t');
            let (sha, _) = text::cut(rest, '\t');
            let is_tag = match &self.phase {
                Phase::Tag => true,
                _ => false,
            };
            if is_tag && (kind.is_empty() || sha.is_empty()) {
                return Progress::Done(
                    Err(
                        text::cat4(
                            "release ",
                            self.calver,
                            " tag missing for ",
                            fork.repository.as_str(),
                        ),
                    ),
                );
            }
            self.resolve_release_ref(kind, sha)
        }
    }
}

} // verus!
