//! What holds of every tree that was read from a listing.

use vstd::prelude::*;

use crate::failure;
use crate::laws;
use crate::text;
use crate::tree;

verus! {

/// The paths of a tree are those of its rows, and of the rows with one path the
/// last one gives the mode and the object ID.
pub proof fn law_tree_holds_its_rows(rows: Seq<Seq<char>>)
    ensures
        forall|path: Seq<char>|
            #[trigger] tree::blobs(rows).dom().contains(path) <==> exists|i: int|
                0 <= i < rows.len() && tree::row_path(#[trigger] rows[i]) == path,
        forall|i: int|
            0 <= i < rows.len() && (forall|j: int|
                i < j < rows.len() ==> tree::row_path(#[trigger] rows[j]) != tree::row_path(
                    rows[i],
                )) ==> tree::blobs(rows)[tree::row_path(#[trigger] rows[i])] == tree::row_mode(
                rows[i],
            ) + "\t"@ + tree::row_sha(rows[i]),
    decreases rows.len(),
{
    if rows.len() > 0 {
        let earlier = rows.drop_last();
        let last = rows.len() - 1;
        law_tree_holds_its_rows(earlier);
        assert forall|path: Seq<char>|
            #[trigger] tree::blobs(rows).dom().contains(path) <==> exists|i: int|
                0 <= i < rows.len() && tree::row_path(#[trigger] rows[i]) == path by {
            if tree::blobs(earlier).dom().contains(path) {
                let i = choose|i: int|
                    0 <= i < earlier.len() && tree::row_path(#[trigger] earlier[i]) == path;
                assert(tree::row_path(rows[i]) == path);
            }
            if exists|i: int| 0 <= i < rows.len() && tree::row_path(#[trigger] rows[i]) == path {
                let i = choose|i: int|
                    0 <= i < rows.len() && tree::row_path(#[trigger] rows[i]) == path;
                if i < last {
                    assert(tree::row_path(earlier[i]) == path);
                }
            }
            assert(rows[last] == rows.last());
        }
        assert forall|i: int|
            0 <= i < rows.len() && (forall|j: int|
                i < j < rows.len() ==> tree::row_path(#[trigger] rows[j]) != tree::row_path(
                    rows[i],
                )) implies tree::blobs(rows)[tree::row_path(#[trigger] rows[i])]
            == tree::row_mode(rows[i]) + "\t"@ + tree::row_sha(rows[i]) by {
            if i < last {
                assert(tree::row_path(rows[last]) != tree::row_path(rows[i]));
                assert forall|j: int| i < j < earlier.len() implies tree::row_path(
                    #[trigger] earlier[j],
                ) != tree::row_path(earlier[i]) by {
                    assert(earlier[j] == rows[j]);
                }
                assert(earlier[i] == rows[i]);
            }
        }
    }
}

/// A blob: its path, its mode and its object ID.
pub struct Entry {
    pub path: Seq<char>,
    pub mode: Seq<char>,
    pub id: Seq<char>,
}

/// A blob that a row of a listing can hold: a path and a mode that are not
/// empty and have neither a tab nor a line feed, and a full object ID.
pub open spec fn listable(entry: Entry) -> bool {
    &&& entry.path.len() > 0
    &&& laws::text::lacks(entry.path, '\t')
    &&& laws::text::lacks(entry.path, '\n')
    &&& entry.mode.len() > 0
    &&& laws::text::lacks(entry.mode, '\t')
    &&& laws::text::lacks(entry.mode, '\n')
    &&& laws::identity::full_id(entry.id)
}

/// The row of a blob.
pub open spec fn row_of(entry: Entry) -> Seq<char> {
    entry.path + seq!['\t'] + entry.mode + seq!['\t'] + entry.id
}

/// The rows of blobs.
pub open spec fn rows_of(entries: Seq<Entry>) -> Seq<Seq<char>> {
    Seq::new(entries.len(), |i: int| row_of(entries[i]))
}

/// Blobs that rows of a listing can hold.
pub open spec fn all_listable(entries: Seq<Entry>) -> bool {
    forall|i: int| 0 <= i < entries.len() ==> listable(#[trigger] entries[i])
}

/// A listing of blobs: their rows, each with a line feed behind it.
pub open spec fn listing_of(entries: Seq<Entry>) -> Seq<char>
    decreases entries.len(),
{
    if entries.len() == 0 {
        Seq::empty()
    } else {
        row_of(entries[0]) + seq!['\n'] + listing_of(entries.skip(1))
    }
}

/// A map that has the paths of blobs and no other, each with the mode and the
/// object ID of the last blob of that path, and a tab between them.
pub open spec fn holds(blobs: Map<Seq<char>, Seq<char>>, entries: Seq<Entry>) -> bool {
    &&& forall|path: Seq<char>|
        #[trigger] blobs.dom().contains(path) <==> exists|i: int|
            0 <= i < entries.len() && (#[trigger] entries[i]).path == path
    &&& forall|i: int|
        0 <= i < entries.len() && (forall|j: int|
            i < j < entries.len() ==> (#[trigger] entries[j]).path != entries[i].path)
            ==> blobs[(#[trigger] entries[i]).path] == entries[i].mode + seq!['\t'] + entries[i].id
}

proof fn lemma_row(entry: Entry)
    requires
        laws::text::lacks(entry.path, '\t'),
        laws::text::lacks(entry.mode, '\t'),
    ensures
        tree::row_path(row_of(entry)) == entry.path,
        tree::row_mode(row_of(entry)) == entry.mode,
        tree::row_sha(row_of(entry)) == entry.id,
{
    let rest = entry.mode + seq!['\t'] + entry.id;
    assert(row_of(entry) =~= entry.path + seq!['\t'] + rest);
    laws::text::law_cutting_undoes_setting_between(entry.path, '\t', rest);
    laws::text::law_cutting_undoes_setting_between(entry.mode, '\t', entry.id);
}

/// A row is read back as the blob that it was made of, whatever its mode; a line
/// is refused exactly where it is the row of no blob.
pub proof fn law_rows_read_back(row: Seq<char>, entry: Entry)
    ensures
        laws::text::lacks(row, '\n') ==> (tree::is_blob_row(row) <==> exists|some: Entry|
            listable(some) && row == #[trigger] row_of(some)),
        listable(entry) && row == row_of(entry) ==> {
            &&& tree::is_blob_row(row)
            &&& tree::row_path(row) == entry.path
            &&& tree::row_mode(row) == entry.mode
            &&& tree::row_sha(row) == entry.id
        },
{
    if listable(entry) && row == row_of(entry) {
        lemma_row(entry);
        laws::identity::law_full_ids_are_forty_hex_digits(entry.id);
    }
    if laws::text::lacks(row, '\n') {
        if tree::is_blob_row(row) {
            let some = Entry {
                path: tree::row_path(row),
                mode: tree::row_mode(row),
                id: tree::row_sha(row),
            };
            let rest = text::after(row, '\t');
            text::lemma_place_of_is_first(row, '\t');
            text::lemma_place_of_is_first(rest, '\t');
            laws::identity::law_full_ids_are_forty_hex_digits(some.id);
            assert(row =~= row_of(some));
            assert forall|i: int| 0 <= i < some.path.len() implies #[trigger] some.path[i]
                != '\n' by {
                assert(some.path[i] == row[i]);
            }
            assert forall|i: int| 0 <= i < some.mode.len() implies #[trigger] some.mode[i]
                != '\n' by {
                assert(some.mode[i] == row[some.path.len() + 1 + i]);
            }
            assert(listable(some));
        }
        if exists|some: Entry| listable(some) && row == #[trigger] row_of(some) {
            let some = choose|some: Entry| listable(some) && row == #[trigger] row_of(some);
            lemma_row(some);
            laws::identity::law_full_ids_are_forty_hex_digits(some.id);
        }
    }
}

proof fn lemma_rows_of(
    repository: Seq<char>,
    commit: Seq<char>,
    listing: Seq<char>,
    entries: Seq<Entry>,
)
    requires
        all_listable(entries),
        text::content_lines(listing) == rows_of(entries),
    ensures
        tree::listed_tree(repository, commit, listing) matches Ok(blobs) && holds(blobs, entries),
{
    let rows = rows_of(entries);
    let checks = tree::blob_checks(repository, commit, rows);
    failure::lemma_first_failure(rows.len() as int, checks);
    assert forall|i: int| 0 <= i < rows.len() implies (#[trigger] checks(i)) is None by {
        assert(listable(entries[i]));
        law_rows_read_back(rows[i], entries[i]);
    }
    law_tree_holds_its_rows(rows);
    let blobs = tree::blobs(rows);
    reveal_strlit("\t");
    assert("\t"@ =~= seq!['\t']);
    assert forall|i: int| 0 <= i < rows.len() implies tree::row_path(#[trigger] rows[i])
        == entries[i].path && tree::row_mode(rows[i]) == entries[i].mode && tree::row_sha(rows[i])
        == entries[i].id by {
        assert(listable(entries[i]));
        lemma_row(entries[i]);
    }
    assert forall|path: Seq<char>|
        #[trigger] blobs.dom().contains(path) <==> exists|i: int|
            0 <= i < entries.len() && (#[trigger] entries[i]).path == path by {
        if exists|i: int| 0 <= i < entries.len() && (#[trigger] entries[i]).path == path {
            let i = choose|i: int| 0 <= i < entries.len() && (#[trigger] entries[i]).path == path;
            assert(tree::row_path(rows[i]) == path);
        }
        if blobs.dom().contains(path) {
            let i = choose|i: int| 0 <= i < rows.len() && tree::row_path(#[trigger] rows[i]) == path;
            assert(entries[i].path == path);
        }
    }
    assert forall|i: int|
        0 <= i < entries.len() && (forall|j: int|
            i < j < entries.len() ==> (#[trigger] entries[j]).path != entries[i].path)
            implies blobs[(#[trigger] entries[i]).path] == entries[i].mode + seq!['\t']
        + entries[i].id by {
        assert forall|j: int| i < j < rows.len() implies tree::row_path(#[trigger] rows[j])
            != tree::row_path(rows[i]) by {
            assert(entries[j].path != entries[i].path);
        }
        assert(tree::row_path(rows[i]) == entries[i].path);
    }
}

proof fn lemma_lines_of_listing(entries: Seq<Entry>)
    requires
        all_listable(entries),
    ensures
        text::content_lines(listing_of(entries)) == rows_of(entries),
    decreases entries.len(),
{
    if entries.len() == 0 {
        assert(rows_of(entries) =~= Seq::<Seq<char>>::empty());
    } else {
        let rest = entries.skip(1);
        let row = row_of(entries[0]);
        assert(listable(entries[0]));
        assert(row.last() == entries[0].id[39]);
        assert('0' <= entries[0].id[39] <= '9' || 'a' <= entries[0].id[39] <= 'f');
        assert(laws::text::lacks(row, '\n')) by {
            let (p, m, d) = (entries[0].path, entries[0].mode, entries[0].id);
            assert forall|i: int| 0 <= i < row.len() implies #[trigger] row[i] != '\n' by {
                let (from_m, from_d) = (p.len() + 1, p.len() + m.len() + 2);
                if i < p.len() {
                    assert(row[i] == p[i]);
                } else if from_m <= i < from_m + m.len() {
                    assert(row[i] == m[i - from_m]);
                } else if from_d <= i {
                    assert(row[i] == d[i - from_d]);
                }
            }
        }
        assert forall|i: int| 0 <= i < rest.len() implies listable(#[trigger] rest[i]) by {
            assert(rest[i] == entries[i + 1]);
        }
        lemma_lines_of_listing(rest);
        laws::text::law_lines_end_at_line_feeds(row, listing_of(rest));
        assert(rows_of(entries) =~= seq![row] + rows_of(rest));
    }
}

/// A listing of blobs gives the tree of these blobs: every path, with its mode
/// and its object ID as they were listed.
pub proof fn law_listings_give_their_blobs(
    repository: Seq<char>,
    commit: Seq<char>,
    entries: Seq<Entry>,
)
    requires
        all_listable(entries),
    ensures
        tree::listed_tree(repository, commit, listing_of(entries)) matches Ok(blobs) && holds(
            blobs,
            entries,
        ),
{
    lemma_lines_of_listing(entries);
    lemma_rows_of(repository, commit, listing_of(entries), entries);
}

/// However its lines end, a listing whose lines are rows of blobs gives the tree
/// of these blobs.
pub proof fn law_lines_give_their_blobs(
    repository: Seq<char>,
    commit: Seq<char>,
    listing: Seq<char>,
    entries: Seq<Entry>,
)
    requires
        all_listable(entries),
        text::content_lines(listing) == rows_of(entries),
    ensures
        tree::listed_tree(repository, commit, listing) matches Ok(blobs) && holds(blobs, entries),
{
    lemma_rows_of(repository, commit, listing, entries);
}

/// A listing with a line that is the row of no blob is refused, and the first
/// such line is told.
pub proof fn law_other_lines_are_refused(
    repository: Seq<char>,
    commit: Seq<char>,
    listing: Seq<char>,
    i: int,
)
    requires
        0 <= i < text::content_lines(listing).len(),
        forall|some: Entry| listable(some) ==> text::content_lines(listing)[i] != #[trigger] row_of(
            some,
        ),
        forall|j: int|
            0 <= j < i ==> exists|some: Entry|
                listable(some) && #[trigger] text::content_lines(listing)[j] == #[trigger] row_of(
                    some,
                ),
    ensures
        tree::listed_tree(repository, commit, listing) == Err::<
            Map<Seq<char>, Seq<char>>,
            Seq<char>,
        >(
            "invalid tree entry for "@ + repository + "@"@ + commit + ": "@ + text::debug_text(
                text::content_lines(listing)[i],
            ),
        ),
{
    let rows = text::content_lines(listing);
    let checks = tree::blob_checks(repository, commit, rows);
    lemma_lines_lack_line_feeds(listing);
    failure::lemma_first_failure(i, checks);
    let any = Entry { path: Seq::empty(), mode: Seq::empty(), id: Seq::empty() };
    assert forall|j: int| 0 <= j < i implies (#[trigger] checks(j)) is None by {
        let some = choose|some: Entry| listable(some) && rows[j] == #[trigger] row_of(some);
        law_rows_read_back(rows[j], some);
    }
    law_rows_read_back(rows[i], any);
    assert(failure::first_failure(i + 1, checks) == checks(i));
    failure::lemma_first_failure_stays(i + 1, rows.len() as int, checks);
}

proof fn lemma_lines_lack_line_feeds(listing: Seq<char>)
    ensures
        forall|i: int|
            0 <= i < text::content_lines(listing).len() ==> laws::text::lacks(
                #[trigger] text::content_lines(listing)[i],
                '\n',
            ),
    decreases listing.len(),
{
    if listing.len() > 0 {
        let line = text::first_line(listing);
        let tail = text::after(listing, '\n');
        text::lemma_place_of_is_first(listing, '\n');
        lemma_lines_lack_line_feeds(tail);
        assert forall|k: int| 0 <= k < line.len() implies #[trigger] line[k] != '\n' by {
            assert(line[k] == listing[k]);
        }
        assert forall|i: int| 0 <= i < text::content_lines(listing).len() implies laws::text::lacks(
            #[trigger] text::content_lines(listing)[i],
            '\n',
        ) by {
            let place = if line.len() > 0 {
                i - 1
            } else {
                i
            };
            if place >= 0 {
                assert(text::content_lines(listing)[i] == text::content_lines(tail)[place]);
            }
        }
    }
}

/// Blobs of different paths.
pub open spec fn different_paths(entries: Seq<Entry>) -> bool {
    forall|i: int, j: int|
        0 <= i < j < entries.len() ==> (#[trigger] entries[i]).path != (#[trigger] entries[j]).path
}

proof fn lemma_mark(mode: Seq<char>, id: Seq<char>, other_mode: Seq<char>, other_id: Seq<char>)
    requires
        laws::text::lacks(mode, '\t'),
        laws::text::lacks(other_mode, '\t'),
        mode + seq!['\t'] + id == other_mode + seq!['\t'] + other_id,
    ensures
        mode == other_mode,
        id == other_id,
{
    laws::text::law_cutting_undoes_setting_between(mode, '\t', id);
    laws::text::law_cutting_undoes_setting_between(other_mode, '\t', other_id);
}

proof fn lemma_entry_found(
    blobs: Map<Seq<char>, Seq<char>>,
    entries: Seq<Entry>,
    other: Seq<Entry>,
    i: int,
)
    requires
        all_listable(entries),
        all_listable(other),
        different_paths(entries),
        different_paths(other),
        holds(blobs, entries),
        holds(blobs, other),
        0 <= i < entries.len(),
    ensures
        other.contains(entries[i]),
{
    let entry = entries[i];
    assert(blobs.dom().contains(entry.path));
    let k = choose|k: int| 0 <= k < other.len() && (#[trigger] other[k]).path == entry.path;
    assert(blobs[entry.path] == entry.mode + seq!['\t'] + entry.id);
    assert(blobs[other[k].path] == other[k].mode + seq!['\t'] + other[k].id);
    assert(listable(entry) && listable(other[k]));
    lemma_mark(entry.mode, entry.id, other[k].mode, other[k].id);
    assert(other[k] == entry);
}

/// Two trees are the same exactly where they are of the same blobs: the same
/// paths, the same modes and the same object IDs, in any order.
pub proof fn law_same_trees_have_the_same_blobs(
    blobs: Map<Seq<char>, Seq<char>>,
    entries: Seq<Entry>,
    other_blobs: Map<Seq<char>, Seq<char>>,
    other: Seq<Entry>,
)
    requires
        all_listable(entries),
        all_listable(other),
        different_paths(entries),
        different_paths(other),
        holds(blobs, entries),
        holds(other_blobs, other),
    ensures
        blobs == other_blobs <==> entries.to_set() == other.to_set(),
        blobs.dom().finite(),
        blobs.dom().len() == entries.len(),
{
    if blobs == other_blobs {
        assert forall|entry: Entry| entries.to_set().contains(entry) implies other.to_set().contains(
            entry,
        ) by {
            let i = choose|i: int| 0 <= i < entries.len() && entries[i] == entry;
            lemma_entry_found(blobs, entries, other, i);
        }
        assert forall|entry: Entry| other.to_set().contains(entry) implies entries.to_set().contains(
            entry,
        ) by {
            let i = choose|i: int| 0 <= i < other.len() && other[i] == entry;
            lemma_entry_found(blobs, other, entries, i);
        }
        assert(entries.to_set() =~= other.to_set());
    }
    if entries.to_set() == other.to_set() {
        assert forall|path: Seq<char>| #[trigger] blobs.dom().contains(path) <==>
            other_blobs.dom().contains(path) by {
            if blobs.dom().contains(path) {
                let i = choose|i: int| 0 <= i < entries.len() && (#[trigger] entries[i]).path == path;
                assert(entries.to_set().contains(entries[i]));
                assert(other.to_set().contains(entries[i]));
                let k = choose|k: int| 0 <= k < other.len() && other[k] == entries[i];
                assert(other[k].path == path);
            }
            if other_blobs.dom().contains(path) {
                let i = choose|i: int| 0 <= i < other.len() && (#[trigger] other[i]).path == path;
                assert(other.to_set().contains(other[i]));
                assert(entries.to_set().contains(other[i]));
                let k = choose|k: int| 0 <= k < entries.len() && entries[k] == other[i];
                assert(entries[k].path == path);
            }
        }
        assert forall|path: Seq<char>| blobs.dom().contains(path) implies #[trigger] blobs[path]
            == other_blobs[path] by {
            let i = choose|i: int| 0 <= i < entries.len() && (#[trigger] entries[i]).path == path;
            assert(entries.to_set().contains(entries[i]));
            assert(other.to_set().contains(entries[i]));
            let k = choose|k: int| 0 <= k < other.len() && other[k] == entries[i];
            assert(other[k].path == path);
        }
        assert(blobs =~= other_blobs);
    }
    lemma_size(blobs, entries);
}

proof fn lemma_size(blobs: Map<Seq<char>, Seq<char>>, entries: Seq<Entry>)
    requires
        different_paths(entries),
        holds(blobs, entries),
    ensures
        blobs.dom().finite(),
        blobs.dom().len() == entries.len(),
{
    let paths = Seq::new(entries.len(), |i: int| entries[i].path);
    assert forall|i: int, j: int| 0 <= i < j < paths.len() implies paths[i] != paths[j] by {
        assert(entries[i].path != entries[j].path);
    }
    paths.unique_seq_to_set();
    vstd::seq_lib::seq_to_set_is_finite(paths);
    assert forall|path: Seq<char>| blobs.dom().contains(path) <==> paths.to_set().contains(path) by {
        if blobs.dom().contains(path) {
            let i = choose|i: int| 0 <= i < entries.len() && (#[trigger] entries[i]).path == path;
            assert(paths[i] == path);
        }
        if paths.contains(path) {
            let i = choose|i: int| 0 <= i < paths.len() && paths[i] == path;
            assert(entries[i].path == path);
        }
    }
    assert(blobs.dom() =~= paths.to_set());
}

/// A blob that is listed with another mode, or with another object ID, makes
/// another tree.
pub proof fn law_other_modes_make_other_trees(
    repository: Seq<char>,
    commit: Seq<char>,
    other_repository: Seq<char>,
    other_commit: Seq<char>,
    entries: Seq<Entry>,
    i: int,
    changed: Entry,
)
    requires
        all_listable(entries),
        different_paths(entries),
        0 <= i < entries.len(),
        listable(changed),
        changed.path == entries[i].path,
        changed.mode != entries[i].mode || changed.id != entries[i].id,
    ensures
        ({
            let left = tree::listed_tree(repository, commit, listing_of(entries));
            let right = tree::listed_tree(
                other_repository,
                other_commit,
                listing_of(entries.update(i, changed)),
            );
            left is Ok && right is Ok && left->Ok_0 != right->Ok_0
        }),
{
    let other = entries.update(i, changed);
    assert(all_listable(other));
    assert forall|j: int, k: int| 0 <= j < k < other.len() implies (#[trigger] other[j]).path != (
    #[trigger] other[k]).path by {
        assert(entries[j].path != entries[k].path);
    }
    law_listings_give_their_blobs(repository, commit, entries);
    law_listings_give_their_blobs(other_repository, other_commit, other);
    let left = tree::listed_tree(repository, commit, listing_of(entries))->Ok_0;
    let right = tree::listed_tree(other_repository, other_commit, listing_of(other))->Ok_0;
    law_same_trees_have_the_same_blobs(left, entries, right, other);
    if entries.to_set() == other.to_set() {
        assert(other[i] == changed);
        assert(other.to_set().contains(changed));
        assert(entries.to_set().contains(changed));
        let k = choose|k: int| 0 <= k < entries.len() && entries[k] == changed;
        assert(entries[k].path == entries[i].path);
        assert(k == i);
    }
}

} // verus!
