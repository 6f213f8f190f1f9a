//! The blobs of a commit's tree, by path.

use vstd::prelude::*;
use vstd::string::*;

use crate::failure;
use crate::model;
use crate::text;

verus! {

/// Whether each text of a list comes before those behind it.
pub open spec fn ascending(list: Seq<Seq<char>>) -> bool {
    forall|i: int, j: int|
        0 <= i < j < list.len() ==> text::sorts_before(#[trigger] list[i], #[trigger] list[j])
}

/// The texts of a set in ascending order.
pub open spec fn sorted(set: Set<Seq<char>>) -> Seq<Seq<char>> {
    choose|list: Seq<Seq<char>>| #[trigger] ascending(list) && list.to_set() == set
}

/// In an ascending list no text stands twice.
proof fn lemma_ascending_is_unique(list: Seq<Seq<char>>)
    requires
        ascending(list),
    ensures
        list.no_duplicates(),
{
    assert forall|i: int, j: int| 0 <= i < j < list.len() implies list[i] != list[j] by {
        text::lemma_sorts_before_irreflexive(list[i]);
        assert(text::sorts_before(list[i], list[j]));
    }
}

/// Two ascending lists of the same texts are equal.
proof fn lemma_ascending_same_set(a: Seq<Seq<char>>, b: Seq<Seq<char>>)
    requires
        ascending(a),
        ascending(b),
        a.to_set() == b.to_set(),
    ensures
        a == b,
    decreases a.len(),
{
    assert forall|t: Seq<char>| #[trigger] a.contains(t) == b.contains(t) by {
        assert(a.to_set().contains(t) == a.contains(t));
        assert(b.to_set().contains(t) == b.contains(t));
    }
    if a.len() == 0 {
        if b.len() > 0 {
            assert(b.contains(b[0]));
            assert(a.contains(b[0]));
        }
        assert(a =~= b);
    } else {
        assert(a.contains(a[0]));
        assert(b.contains(a[0]));
        assert(b.len() > 0);
        let (x, y) = (a.last(), b.last());
        assert(a[a.len() - 1] == x && b[b.len() - 1] == y);
        assert(a.contains(x));
        assert(b.contains(x));
        assert(b.contains(y));
        assert(a.contains(y));
        let i = choose|i: int| 0 <= i < b.len() && b[i] == x;
        let j = choose|j: int| 0 <= j < a.len() && a[j] == y;
        if x != y {
            assert(text::sorts_before(b[i], b[b.len() - 1]));
            assert(text::sorts_before(a[j], a[a.len() - 1]));
            text::lemma_sorts_before_transitive(x, y, x);
            text::lemma_sorts_before_irreflexive(x);
        }
        let (p, q) = (a.drop_last(), b.drop_last());
        lemma_ascending_is_unique(a);
        lemma_ascending_is_unique(b);
        assert forall|t: Seq<char>| p.contains(t) implies q.contains(t) by {
            let k = choose|k: int| 0 <= k < p.len() && p[k] == t;
            assert(a[k] == t && t != x);
            assert(a.contains(t));
            let m = choose|m: int| 0 <= m < b.len() && b[m] == t;
            assert(q[m] == t);
        }
        assert forall|t: Seq<char>| q.contains(t) implies p.contains(t) by {
            let k = choose|k: int| 0 <= k < q.len() && q[k] == t;
            assert(b[k] == t && t != x);
            assert(b.contains(t) && a.contains(t));
            let m = choose|m: int| 0 <= m < a.len() && a[m] == t;
            assert(p[m] == t);
        }
        assert(p.to_set() =~= q.to_set());
        lemma_ascending_same_set(p, q);
        assert(a =~= p.push(x));
        assert(b =~= q.push(y));
    }
}

/// An ascending list is the texts of its set in ascending order.
pub proof fn lemma_sorted(list: Seq<Seq<char>>)
    requires
        ascending(list),
    ensures
        sorted(list.to_set()) == list,
{
    let chosen = sorted(list.to_set());
    assert(ascending(list) && list.to_set() == list.to_set());
    lemma_ascending_same_set(chosen, list);
}

/// One blob: its path, and its mode and object ID with a tab between them.
#[derive(Debug)]
struct Blob {
    path: String,
    mark: String,
}

/// The blobs of a tree: each path once, with its mode and object ID.
#[derive(Debug)]
pub struct BlobTree {
    entries: Vec<Blob>,
}

spec fn paths(entries: Seq<Blob>) -> Seq<Seq<char>> {
    Seq::new(entries.len(), |i: int| entries[i].path@)
}

spec fn map_of(entries: Seq<Blob>) -> Map<Seq<char>, Seq<char>> {
    Map::new(
        |path: Seq<char>| paths(entries).contains(path),
        |path: Seq<char>| entries[paths(entries).index_of(path)].mark@,
    )
}

impl View for BlobTree {
    type V = Map<Seq<char>, Seq<char>>;

    /// From each path to its mode and object ID, with a tab between them.
    closed spec fn view(&self) -> Map<Seq<char>, Seq<char>> {
        map_of(self.entries@)
    }
}

/// Of ascending entries, the path of entry `i` has the mark of entry `i`.
proof fn lemma_map_of(entries: Seq<Blob>, i: int)
    requires
        ascending(paths(entries)),
        0 <= i < entries.len(),
    ensures
        map_of(entries).dom().contains(entries[i].path@),
        map_of(entries)[entries[i].path@] == entries[i].mark@,
{
    let all = paths(entries);
    assert(all[i] == entries[i].path@);
    assert(all.contains(all[i]));
    lemma_ascending_is_unique(all);
    let k = all.index_of(all[i]);
    assert(all[k] == all[i]);
    assert(k == i);
}

/// Whether place `at` is where a path belongs among ascending entries.
spec fn belongs_at(entries: Seq<Blob>, at: int, path: Seq<char>) -> bool {
    &&& 0 <= at <= entries.len()
    &&& forall|k: int| 0 <= k < at ==> text::sorts_before(#[trigger] paths(entries)[k], path)
    &&& at < entries.len() ==> !text::sorts_before(paths(entries)[at], path)
}

/// The entries without the one at the path, if there is one.
spec fn without(entries: Seq<Blob>, at: int, path: Seq<char>) -> Seq<Blob> {
    if at < entries.len() && entries[at].path@ == path {
        entries.remove(at)
    } else {
        entries
    }
}

/// Without the entry at the path, the entries before its place come before the
/// path, and those from its place on behind it.
proof fn lemma_kept(entries: Seq<Blob>, kept: Seq<Blob>, at: int, path: Seq<char>)
    requires
        ascending(paths(entries)),
        belongs_at(entries, at, path),
        kept == without(entries, at, path),
    ensures
        at <= kept.len(),
        ascending(paths(kept)),
        forall|k: int| 0 <= k < at ==> text::sorts_before(#[trigger] paths(kept)[k], path),
        forall|k: int| at <= k < kept.len() ==> text::sorts_before(path, #[trigger] paths(kept)[k]),
{
    let all = paths(entries);
    let rest = paths(kept);
    let gap = entries.len() - kept.len();
    assert forall|k: int| 0 <= k < rest.len() implies #[trigger] rest[k] == all[if k < at {
        k
    } else {
        k + gap
    }] by {}
    assert forall|k: int| at <= k < rest.len() implies text::sorts_before(
        path,
        #[trigger] rest[k],
    ) by {
        let m = k + gap;
        if all[at] != path {
            text::lemma_sorts_before_total(all[at], path);
            if m > at {
                assert(text::sorts_before(all[at], all[m]));
                text::lemma_sorts_before_transitive(path, all[at], all[m]);
            }
        } else {
            assert(text::sorts_before(all[at], all[m]));
        }
    }
}

/// A blob added where its path belongs keeps the entries ascending.
proof fn lemma_added(kept: Seq<Blob>, at: int, blob: Blob)
    requires
        ascending(paths(kept)),
        0 <= at <= kept.len(),
        forall|k: int| 0 <= k < at ==> text::sorts_before(#[trigger] paths(kept)[k], blob.path@),
        forall|k: int|
            at <= k < kept.len() ==> text::sorts_before(blob.path@, #[trigger] paths(kept)[k]),
    ensures
        ascending(paths(kept.insert(at, blob))),
{
    assert(paths(kept.insert(at, blob)) =~= paths(kept).insert(at, blob.path@));
}

/// A blob added to the entries without its path gives its path its mark, and
/// changes nothing else.
proof fn lemma_added_map(entries: Seq<Blob>, kept: Seq<Blob>, at: int, blob: Blob)
    requires
        ascending(paths(entries)),
        belongs_at(entries, at, blob.path@),
        kept == without(entries, at, blob.path@),
        at <= kept.len(),
        ascending(paths(kept.insert(at, blob))),
    ensures
        map_of(kept.insert(at, blob)) == map_of(entries).insert(blob.path@, blob.mark@),
{
    let after = kept.insert(at, blob);
    let gap = entries.len() - kept.len();
    let old_map = map_of(entries);
    let new_map = map_of(after);
    let expected = old_map.insert(blob.path@, blob.mark@);
    assert(after[at] == blob);
    lemma_map_of(after, at);
    assert forall|p: Seq<char>| #[trigger] new_map.dom().contains(p) implies expected.dom().contains(
        p,
    ) && new_map[p] == expected[p] by {
        let k = choose|k: int| 0 <= k < paths(after).len() && paths(after)[k] == p;
        lemma_map_of(after, k);
        if p != blob.path@ {
            let m = if k < at {
                k
            } else {
                k - 1 + gap
            };
            assert(entries[m] == after[k]);
            lemma_map_of(entries, m);
        }
    }
    assert forall|p: Seq<char>| #[trigger] expected.dom().contains(p) implies new_map.dom().contains(p) by {
        if p != blob.path@ {
            assert(old_map.dom().contains(p));
            let m = choose|m: int| 0 <= m < paths(entries).len() && paths(entries)[m] == p;
            let k = if m < at {
                m
            } else {
                m + 1 - gap
            };
            assert(after[k] == entries[m]);
            lemma_map_of(after, k);
        }
    }
    assert(new_map =~= expected);
}

impl BlobTree {
    #[verifier::type_invariant]
    spec fn is_sorted(self) -> bool {
        ascending(paths(self.entries@))
    }

    /// A tree without blobs.
    pub fn new() -> (tree: BlobTree)
        ensures
            tree@ == Map::<Seq<char>, Seq<char>>::empty(),
    {
        let tree = BlobTree { entries: Vec::new() };
        assert(tree@ =~= Map::<Seq<char>, Seq<char>>::empty());
        tree
    }

    /// The number of blobs.
    pub fn len(&self) -> (count: usize)
        ensures
            self@.dom().finite(),
            count == self@.dom().len(),
    {
        proof {
            use_type_invariant(self);
            let all = paths(self.entries@);
            lemma_ascending_is_unique(all);
            all.unique_seq_to_set();
            vstd::seq_lib::seq_to_set_is_finite(all);
            assert(self@.dom() =~= all.to_set());
        }
        self.entries.len()
    }

    /// The place of the first entry that does not come before `path`.
    fn place(&self, path: &str) -> (place: usize)
        ensures
            place <= self.entries@.len(),
            forall|k: int|
                0 <= k < place ==> text::sorts_before(#[trigger] paths(self.entries@)[k], path@),
            place < self.entries@.len() ==> !text::sorts_before(
                paths(self.entries@)[place as int],
                path@,
            ),
    {
        let ghost all = paths(self.entries@);
        let mut i: usize = 0;
        while i < self.entries.len() && text::comes_before(self.entries[i].path.as_str(), path)
            invariant
                i <= self.entries@.len(),
                all == paths(self.entries@),
                forall|k: int| 0 <= k < i ==> text::sorts_before(#[trigger] all[k], path@),
            decreases self.entries@.len() - i,
        {
            assert(all[i as int] == self.entries@[i as int].path@);
            i = i + 1;
        }
        i
    }

    /// The tree with a blob added, in place of one at the same path.
    pub fn insert(self, path: String, mark: String) -> (tree: BlobTree)
        ensures
            tree@ == self@.insert(path@, mark@),
    {
        let at = self.place(path.as_str());
        proof {
            use_type_invariant(&self);
        }
        let ghost before = self.entries@;
        let mut entries = self.entries;
        if at < entries.len() && text::same_text(entries[at].path.as_str(), path.as_str()) {
            entries.remove(at);
        }
        let ghost kept = entries@;
        let blob = Blob { path, mark };
        proof {
            assert(paths(before).len() == before.len());
            lemma_kept(before, kept, at as int, blob.path@);
            lemma_added(kept, at as int, blob);
            lemma_added_map(before, kept, at as int, blob);
        }
        entries.insert(at, blob);
        BlobTree { entries }
    }

    /// Whether two trees have the same paths with the same modes and object IDs.
    pub fn same_tree(&self, other: &BlobTree) -> (same: bool)
        ensures
            same == (self@ == other@),
    {
        proof {
            use_type_invariant(self);
            use_type_invariant(other);
        }
        let ghost left = self.entries@;
        let ghost right = other.entries@;
        proof {
            if self@ == other@ {
                assert(paths(left).to_set() =~= self@.dom());
                assert(paths(right).to_set() =~= other@.dom());
                lemma_ascending_same_set(paths(left), paths(right));
                assert(paths(left).len() == paths(right).len());
                assert forall|k: int| 0 <= k < left.len() implies (#[trigger] left[k]).path@
                    == right[k].path@ && left[k].mark@ == right[k].mark@ by {
                    assert(paths(left)[k] == paths(right)[k]);
                    lemma_map_of(left, k);
                    lemma_map_of(right, k);
                }
            }
        }
        if self.entries.len() != other.entries.len() {
            return false;
        }
        let mut i: usize = 0;
        while i < self.entries.len()
            invariant
                i <= left.len() == right.len(),
                left == self.entries@,
                right == other.entries@,
                self@ == other@ ==> forall|k: int|
                    0 <= k < left.len() ==> (#[trigger] left[k]).path@ == right[k].path@
                        && left[k].mark@ == right[k].mark@,
                forall|k: int|
                    0 <= k < i ==> (#[trigger] left[k]).path@ == right[k].path@ && left[k].mark@
                        == right[k].mark@,
            decreases left.len() - i,
        {
            if !text::same_text(self.entries[i].path.as_str(), other.entries[i].path.as_str())
                || !text::same_text(self.entries[i].mark.as_str(), other.entries[i].mark.as_str()) {
                return false;
            }
            i = i + 1;
        }
        proof {
            use_type_invariant(self);
            use_type_invariant(other);
            assert forall|k: int| 0 <= k < left.len() implies paths(left)[k] == paths(right)[k] by {
                assert(left[k].path@ == right[k].path@);
            }
            assert(paths(left) =~= paths(right));
            assert(self@.dom() =~= other@.dom());
            assert forall|p: Seq<char>| self@.dom().contains(p) implies #[trigger] self@[p]
                == other@[p] by {
                let k = choose|k: int| 0 <= k < paths(left).len() && paths(left)[k] == p;
                assert(left[k].mark@ == right[k].mark@);
                lemma_map_of(left, k);
                lemma_map_of(right, k);
            }
            assert(self@ =~= other@);
        }
        true
    }

    /// Whether the tree has a blob at a path.
    pub fn has_path(&self, path: &str) -> (found: bool)
        ensures
            found == self@.dom().contains(path@),
    {
        let ghost all = paths(self.entries@);
        let mut i: usize = 0;
        while i < self.entries.len()
            invariant
                i <= self.entries@.len(),
                all == paths(self.entries@),
                forall|k: int| 0 <= k < i ==> #[trigger] all[k] != path@,
            decreases self.entries@.len() - i,
        {
            if text::same_text(self.entries[i].path.as_str(), path) {
                assert(all[i as int] == path@);
                return true;
            }
            i = i + 1;
        }
        false
    }

    /// The paths that another tree does not have, in ascending order.
    pub fn paths_missing_from(&self, other: &BlobTree) -> (missing: Vec<String>)
        ensures
            text::texts(missing@) == sorted(self@.dom().difference(other@.dom())),
    {
        proof {
            use_type_invariant(self);
        }
        let ghost all = paths(self.entries@);
        let ghost absent = self@.dom().difference(other@.dom());
        let mut missing: Vec<String> = Vec::new();
        let mut i: usize = 0;
        while i < self.entries.len()
            invariant
                i <= self.entries@.len(),
                all == paths(self.entries@),
                ascending(all),
                absent == self@.dom().difference(other@.dom()),
                ascending(text::texts(missing@)),
                forall|t: Seq<char>|
                    #[trigger] text::texts(missing@).contains(t) <==> absent.contains(t) && all.take(
                        i as int,
                    ).contains(t),
            decreases self.entries@.len() - i,
        {
            let path = &self.entries[i].path;
            let ghost before = text::texts(missing@);
            let ghost done = all.take(i as int);
            let ghost more = all.take(i + 1);
            assert(all[i as int] == path@);
            assert(all.contains(path@));
            assert(more =~= done.push(path@));
            let known = other.has_path(path.as_str());
            if !known {
                missing.push(path.clone());
            }
            proof {
                let now = text::texts(missing@);
                if !known {
                    assert(now =~= before.push(path@));
                    assert forall|j: int| 0 <= j < before.len() implies text::sorts_before(
                        #[trigger] before[j],
                        path@,
                    ) by {
                        assert(before.contains(before[j]));
                        let k = choose|k: int| 0 <= k < done.len() && done[k] == before[j];
                        assert(text::sorts_before(all[k], all[i as int]));
                    }
                    assert(now[before.len() as int] == path@);
                }
                assert forall|t: Seq<char>| #[trigger] now.contains(t) <==> absent.contains(t)
                    && more.contains(t) by {
                    assert(more[i as int] == path@);
                    if more.contains(t) && t != path@ {
                        let k = choose|k: int| 0 <= k < more.len() && more[k] == t;
                        assert(done[k] == t);
                    }
                    if done.contains(t) {
                        let k = choose|k: int| 0 <= k < done.len() && done[k] == t;
                        assert(more[k] == t);
                    }
                    if now.contains(t) && t != path@ {
                        let k = choose|k: int| 0 <= k < now.len() && now[k] == t;
                        assert(before[k] == t);
                    }
                    if before.contains(t) {
                        let k = choose|k: int| 0 <= k < before.len() && before[k] == t;
                        assert(now[k] == t);
                    }
                }
            }
            i = i + 1;
        }
        proof {
            let list = text::texts(missing@);
            assert(all.take(i as int) =~= all);
            assert(list.to_set() =~= absent);
            lemma_sorted(list);
        }
        missing
    }
}

/// The path of a row: what stands before its first tab.
pub open spec fn row_path(row: Seq<char>) -> Seq<char> {
    text::before(row, '\t')
}

/// The mode of a row: what stands between its first two tabs.
pub open spec fn row_mode(row: Seq<char>) -> Seq<char> {
    text::before(text::after(row, '\t'), '\t')
}

/// The object ID of a row: what stands behind its second tab.
pub open spec fn row_sha(row: Seq<char>) -> Seq<char> {
    text::after(text::after(row, '\t'), '\t')
}

/// Whether a row is a path, a mode and a full object ID.
pub open spec fn is_blob_row(row: Seq<char>) -> bool {
    row_path(row).len() > 0 && row_mode(row).len() > 0 && model::sha40(row_sha(row))
}

/// Why row `i` of a commit's tree is refused.
pub open spec fn blob_error(
    repository: Seq<char>,
    commit: Seq<char>,
    rows: Seq<Seq<char>>,
    i: int,
) -> Option<Seq<char>> {
    if is_blob_row(rows[i]) {
        None
    } else {
        Some(
            "invalid tree entry for "@ + repository + "@"@ + commit + ": "@ + text::debug_text(
                rows[i],
            ),
        )
    }
}

/// The check of each row of a commit's tree.
pub open spec fn blob_checks(
    repository: Seq<char>,
    commit: Seq<char>,
    rows: Seq<Seq<char>>,
) -> spec_fn(int) -> Option<Seq<char>> {
    |i: int| blob_error(repository, commit, rows, i)
}

/// The blobs of rows; of rows with one path the last one counts.
pub open spec fn blobs(rows: Seq<Seq<char>>) -> Map<Seq<char>, Seq<char>>
    decreases rows.len(),
{
    if rows.len() == 0 {
        Map::empty()
    } else {
        let row = rows.last();
        blobs(rows.drop_last()).insert(row_path(row), row_mode(row) + "\t"@ + row_sha(row))
    }
}

/// The tree that a listing gives, or why the listing is refused: its lines
/// that are not empty are the rows of the blobs.
pub open spec fn listed_tree(
    repository: Seq<char>,
    commit: Seq<char>,
    listing: Seq<char>,
) -> Result<Map<Seq<char>, Seq<char>>, Seq<char>> {
    let rows = text::content_lines(listing);
    match failure::first_failure(rows.len() as int, blob_checks(repository, commit, rows)) {
        Some(message) => Err(message),
        None => Ok(blobs(rows)),
    }
}

/// Reads the tree of a commit from its listing.
pub fn fetch_tree(repository: &str, commit: &str, listing: &str) -> (result: Result<
    BlobTree,
    String,
>)
    ensures
        match result {
            Ok(tree) => listed_tree(repository@, commit@, listing@) == Ok::<
                Map<Seq<char>, Seq<char>>,
                Seq<char>,
            >(tree@),
            Err(message) => listed_tree(repository@, commit@, listing@) == Err::<
                Map<Seq<char>, Seq<char>>,
                Seq<char>,
            >(message@),
        },
{
    let lines = text::split_lines(listing);
    let ghost rows = text::texts(lines@);
    let ghost checks = blob_checks(repository@, commit@, rows);
    let mut tree = BlobTree::new();
    let mut i: usize = 0;
    while i < lines.len()
        invariant
            i <= lines@.len(),
            rows == text::texts(lines@),
            rows == text::content_lines(listing@),
            checks == blob_checks(repository@, commit@, rows),
            failure::first_failure(i as int, checks) is None,
            tree@ == blobs(rows.take(i as int)),
        decreases lines@.len() - i,
    {
        let row = lines[i].as_str();
        assert(rows[i as int] == row@);
        let (path, rest) = text::cut(row, '\t');
        let (mode, sha) = text::cut(rest, '\t');
        if path.is_empty() || mode.is_empty() || !model::is_sha40(sha) {
            let place = text::cat5("invalid tree entry for ", repository, "@", commit, ": ");
            proof {
                failure::lemma_first_failure_stays(i + 1, rows.len() as int, checks);
            }
            return Err(text::cat2(place.as_str(), text::quoted(row).as_str()));
        }
        tree = tree.insert(path.to_owned(), text::cat3(mode, "\t", sha));
        i = i + 1;
        proof {
            let done = rows.take(i as int);
            assert(done.drop_last() =~= rows.take(i - 1));
            assert(done.last() == row@);
        }
    }
    assert(rows.take(i as int) =~= rows);
    Ok(tree)
}

} // verus!
