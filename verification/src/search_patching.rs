//! Redirecting the paths below a folder to an alternate and back, in the
//! search index, folder by folder.

use vstd::prelude::*;
use crate::archive::{
    first_index, hashes_of, is_first, lemma_first_index_found, FolderEntry, HashToIndex, PathEntry,
    SearchIndex, SearchIndexView, NO_INDEX,
};
use crate::backup::BackupTable;
use crate::hash::Hash40;
use crate::patching::{alt_hash_spec, patch_file_path};

verus! {

/// All of a search index that redirection leaves alone: everything but the
/// index values of the path lookup table.
pub struct SearchShape {
    pub folder_index: Seq<HashToIndex>,
    pub folders: Seq<FolderEntry>,
    pub path_hashes: Seq<u64>,
    pub path_list_indices: Seq<u32>,
    pub paths: Seq<PathEntry>,
}

impl SearchIndexView {
    /// The part of the index that redirection leaves alone.
    pub open spec fn shape(self) -> SearchShape {
        SearchShape {
            folder_index: self.folder_index,
            folders: self.folders,
            path_hashes: hashes_of(self.path_index),
            path_list_indices: self.path_list_indices,
            paths: self.paths,
        }
    }
}

impl SearchShape {
    /// The shape, read as an index whose lookup rows hold no index.
    pub open spec fn bare(self) -> SearchIndexView {
        SearchIndexView {
            folder_index: self.folder_index,
            folders: self.folders,
            path_index: Seq::new(
                self.path_hashes.len(),
                |r: int| HashToIndex { hash: Hash40(self.path_hashes[r]), index: NO_INDEX },
            ),
            path_list_indices: self.path_list_indices,
            paths: self.paths,
        }
    }
}

/// The path hashes that restoring writes, starting at the link `cur` and
/// following sibling links for `fuel` entries at most: each entry that has a
/// lookup row and a backup value, and, where such an entry is a directory,
/// what restoring writes below it, `depth` folders deep at most.
pub open spec fn restore_set(
    shape: SearchShape,
    keys: Set<u64>,
    cur: Option<usize>,
    fuel: nat,
    depth: nat,
) -> Set<u64>
    decreases depth, fuel,
{
    if fuel == 0 {
        Set::empty()
    } else {
        match shape.bare().child_at(cur) {
            None => Set::empty(),
            Some(child) => {
                let rest = restore_set(shape, keys, child.next, (fuel - 1) as nat, depth);
                if first_index(shape.path_hashes, child.path.0) is Some && keys.contains(
                    child.path.0,
                ) {
                    let below = if child.is_directory && depth > 0 {
                        match shape.bare().folder_spec(child.path.0) {
                            Some(folder) => restore_set(
                                shape,
                                keys,
                                folder.first_child,
                                shape.paths.len(),
                                (depth - 1) as nat,
                            ),
                            None => Set::empty(),
                        }
                    } else {
                        Set::empty()
                    };
                    rest.union(below).insert(child.path.0)
                } else {
                    rest
                }
            },
        }
    }
}

/// The lookup rows with the backup's value written to the first row of each
/// hash in `written`.
pub open spec fn restore_rows(rows: Seq<HashToIndex>, written: Set<u64>, backup: Map<u64, u32>) -> Seq<
    HashToIndex,
> {
    Seq::new(
        rows.len(),
        |r: int|
            if written.contains(rows[r].hash.0) && is_first(hashes_of(rows), rows[r].hash.0, r) {
                HashToIndex { hash: rows[r].hash, index: backup[rows[r].hash.0] }
            } else {
                rows[r]
            },
    )
}

/// The index after restoring what the link `first` leads to.
pub open spec fn restore_children_spec(
    search: SearchIndexView,
    backup: Map<u64, u32>,
    first: Option<usize>,
    depth: nat,
) -> SearchIndexView {
    SearchIndexView {
        path_index: restore_rows(
            search.path_index,
            restore_set(search.shape(), backup.dom(), first, search.paths.len(), depth),
            backup,
        ),
        ..search
    }
}

/// The index after the folder `path` was restored from the backup: the
/// first lookup row of every path below it that the backup knows holds the
/// backup's value, and nothing else has changed. Folders are entered as deep
/// as there are folders, which no tree of distinct folders exceeds.
pub open spec fn restore_search_spec(search: SearchIndexView, backup: Map<u64, u32>, path: u64) -> SearchIndexView {
    match search.folder_spec(path) {
        None => search,
        Some(folder) => restore_children_spec(
            search,
            backup,
            folder.first_child,
            search.folders.len(),
        ),
    }
}

/// Restoring keeps the hashes of the lookup rows.
pub proof fn lemma_restore_rows_hashes(
    rows: Seq<HashToIndex>,
    written: Set<u64>,
    backup: Map<u64, u32>,
)
    ensures
        hashes_of(restore_rows(rows, written, backup)) == hashes_of(rows),
{
    assert(hashes_of(restore_rows(rows, written, backup)) =~= hashes_of(rows));
}

/// Restoring one set of hashes and then another restores their union.
pub proof fn lemma_restore_rows_twice(
    rows: Seq<HashToIndex>,
    a: Set<u64>,
    b: Set<u64>,
    backup: Map<u64, u32>,
)
    ensures
        restore_rows(restore_rows(rows, a, backup), b, backup) == restore_rows(
            rows,
            a.union(b),
            backup,
        ),
{
    lemma_restore_rows_hashes(rows, a, backup);
    assert(restore_rows(restore_rows(rows, a, backup), b, backup) =~= restore_rows(
        rows,
        a.union(b),
        backup,
    ));
}

/// Writing the backup's value to the first row of one hash restores that
/// hash alone.
proof fn lemma_restore_rows_one(rows: Seq<HashToIndex>, row: int, backup: Map<u64, u32>)
    requires
        is_first(hashes_of(rows), rows[row].hash.0, row),
    ensures
        rows.update(
            row,
            HashToIndex { hash: rows[row].hash, index: backup[rows[row].hash.0] },
        ) == restore_rows(rows, set![rows[row].hash.0], backup),
{
    let hash = rows[row].hash.0;
    let hashes = hashes_of(rows);
    assert forall|r: int| 0 <= r < rows.len() && r != row implies !(rows[r].hash.0 == hash
        && is_first(hashes, hash, r)) by {
        if rows[r].hash.0 == hash && is_first(hashes, hash, r) {
            if r < row {
                assert(hashes[r] != hash);
            } else {
                assert(hashes[row] != hash);
            }
        }
    }
    assert(rows.update(
        row,
        HashToIndex { hash: rows[row].hash, index: backup[rows[row].hash.0] },
    ) =~= restore_rows(rows, set![hash], backup));
}

/// Restoring nothing changes nothing.
proof fn lemma_restore_rows_none(rows: Seq<HashToIndex>, backup: Map<u64, u32>)
    ensures
        restore_rows(rows, Set::empty(), backup) == rows,
{
    assert(restore_rows(rows, Set::empty(), backup) =~= rows);
}

/// Restores the entries that the link `first` leads to, and what lies below
/// those that are directories.
fn restore_children(
    search: &mut SearchIndex,
    backup: &BackupTable,
    first: Option<usize>,
    depth: usize,
)
    ensures
        final(search)@ == restore_children_spec(old(search)@, backup@, first, depth as nat),
    decreases depth,
{
    let ghost start = search@;
    let ghost shape = search@.shape();
    let ghost keys = backup@.dom();
    let ghost total = restore_set(shape, keys, first, start.paths.len(), depth as nat);
    let ghost mut done: Set<u64> = Set::empty();
    let mut cur = first;
    let mut fuel: usize = search.paths.len();
    let mut child = search.child(cur);
    proof {
        lemma_restore_rows_none(start.path_index, backup@);
        assert(done.union(total) =~= total);
    }
    while fuel > 0 && child.is_some()
        invariant
            search@.shape() == shape,
            shape == start.shape(),
            keys == backup@.dom(),
            search@ == (SearchIndexView {
                path_index: restore_rows(start.path_index, done, backup@),
                ..start
            }),
            child == shape.bare().child_at(cur),
            done.union(restore_set(shape, keys, cur, fuel as nat, depth as nat)) == total,
        decreases fuel,
    {
        let entry = child.unwrap();
        let ghost rest = restore_set(shape, keys, entry.next, (fuel - 1) as nat, depth as nat);
        let ghost before = done;
        let found = backup.get(entry.path);
        let slot = search.path_slot(entry.path);
        match (slot, found) {
            (Some(row), Some(index)) => {
                let ghost rows = search@.path_index;
                proof {
                    lemma_first_index_found(hashes_of(rows), entry.path.0);
                    lemma_restore_rows_one(rows, row as int, backup@);
                    lemma_restore_rows_twice(start.path_index, done, set![entry.path.0], backup@);
                    lemma_restore_rows_hashes(
                        start.path_index,
                        done.union(set![entry.path.0]),
                        backup@,
                    );
                    done = done.union(set![entry.path.0]);
                }
                search.set_path_redirect(row, index);
                assert(search@.path_index == restore_rows(start.path_index, done, backup@));
                assert(search@.shape() == shape);
                let mut below: Ghost<Set<u64>> = Ghost(Set::empty());
                if entry.is_directory && depth > 0 {
                    match search.folder(entry.path) {
                        Some(folder) => {
                            proof {
                                below@ = restore_set(
                                    shape,
                                    keys,
                                    folder.first_child,
                                    shape.paths.len(),
                                    (depth - 1) as nat,
                                );
                                lemma_restore_rows_twice(start.path_index, done, below@, backup@);
                                lemma_restore_rows_hashes(
                                    start.path_index,
                                    done.union(below@),
                                    backup@,
                                );
                            }
                            restore_children(search, backup, folder.first_child, depth - 1);
                            assert(search@.path_index == restore_rows(
                                start.path_index,
                                done.union(below@),
                                backup@,
                            ));
                        },
                        None => {},
                    }
                }
                proof {
                    assert(done.union(Set::<u64>::empty()) =~= done);
                    done = done.union(below@);
                    assert(search@.path_index == restore_rows(start.path_index, done, backup@));
                    assert(done.union(rest) =~= before.union(
                        rest.union(below@).insert(entry.path.0),
                    ));
                }
            },
            _ => {
                proof {
                    lemma_first_index_found(shape.path_hashes, entry.path.0);
                }
            },
        }
        cur = entry.next;
        fuel -= 1;
        child = search.child(cur);
    }
    proof {
        assert(restore_set(shape, keys, cur, fuel as nat, depth as nat) =~= Set::<u64>::empty());
        assert(done.union(Set::empty()) =~= done);
    }
}

/// The paths that restoring passes over, in the order of the walk: each
/// entry met that has no lookup row or no backup value. What lies below
/// such an entry is not entered and not listed.
pub open spec fn unrestored_spec(
    search: SearchIndexView,
    keys: Set<u64>,
    cur: Option<usize>,
    fuel: nat,
    depth: nat,
) -> Seq<Hash40>
    decreases depth, fuel,
{
    if fuel == 0 {
        Seq::empty()
    } else {
        match search.child_at(cur) {
            None => Seq::empty(),
            Some(child) => {
                let here = if search.path_slot_spec(child.path.0) is Some && keys.contains(
                    child.path.0,
                ) {
                    if child.is_directory && depth > 0 {
                        match search.folder_spec(child.path.0) {
                            Some(folder) => unrestored_spec(
                                search,
                                keys,
                                folder.first_child,
                                search.paths.len(),
                                (depth - 1) as nat,
                            ),
                            None => Seq::empty(),
                        }
                    } else {
                        Seq::empty()
                    }
                } else {
                    seq![child.path]
                };
                here + unrestored_spec(search, keys, child.next, (fuel - 1) as nat, depth)
            },
        }
    }
}

/// The paths that restoring the folder `path` passes over.
pub open spec fn folder_unrestored(search: SearchIndexView, backup: Map<u64, u32>, path: u64) -> Seq<
    Hash40,
> {
    match search.folder_spec(path) {
        None => Seq::empty(),
        Some(folder) => unrestored_spec(
            search,
            backup.dom(),
            folder.first_child,
            search.paths.len(),
            search.folders.len(),
        ),
    }
}

/// Gathers the paths that restoring passes over among the entries that the
/// link `first` leads to and below them.
fn collect_unrestored(
    search: &SearchIndex,
    backup: &BackupTable,
    first: Option<usize>,
    depth: usize,
    skipped: &mut Vec<Hash40>,
)
    ensures
        final(skipped)@ == old(skipped)@ + unrestored_spec(
            search@,
            backup@.dom(),
            first,
            search@.paths.len(),
            depth as nat,
        ),
    decreases depth,
{
    let mut cur = first;
    let mut fuel: usize = search.paths.len();
    let mut child = search.child(cur);
    let ghost total = unrestored_spec(
        search@,
        backup@.dom(),
        first,
        search@.paths.len(),
        depth as nat,
    );
    while fuel > 0 && child.is_some()
        invariant
            child == search@.child_at(cur),
            old(skipped)@ + total == skipped@ + unrestored_spec(
                search@,
                backup@.dom(),
                cur,
                fuel as nat,
                depth as nat,
            ),
        decreases fuel,
    {
        let entry = child.unwrap();
        let ghost before = skipped@;
        let ghost rest = unrestored_spec(
            search@,
            backup@.dom(),
            entry.next,
            (fuel - 1) as nat,
            depth as nat,
        );
        let found = backup.get(entry.path);
        let slot = search.path_slot(entry.path);
        if slot.is_some() && found.is_some() {
            if entry.is_directory && depth > 0 {
                match search.folder(entry.path) {
                    Some(folder) => {
                        collect_unrestored(search, backup, folder.first_child, depth - 1, skipped);
                    },
                    None => {},
                }
            }
        } else {
            skipped.push(entry.path);
        }
        proof {
            let here = skipped@.subrange(before.len() as int, skipped@.len() as int);
            assert(skipped@ =~= before + here);
            assert(unrestored_spec(search@, backup@.dom(), cur, fuel as nat, depth as nat)
                =~= here + rest);
            assert(before + (here + rest) =~= (before + here) + rest);
        }
        cur = entry.next;
        fuel -= 1;
        child = search.child(cur);
    }
    proof {
        assert(skipped@ + Seq::<Hash40>::empty() =~= skipped@);
    }
}

/// Writes the backup's value to the lookup row of every path below the
/// folder `path` for which the backup holds one, entering the directories
/// among them, and gives the paths that it passed over. A path without a
/// lookup row or a backup value is passed over, and what lies below it is
/// not entered.
pub fn restore_search_section(search: &mut SearchIndex, backup: &BackupTable, path: Hash40) -> (skipped:
    Vec<Hash40>)
    ensures
        final(search)@ == restore_search_spec(old(search)@, backup@, path.0),
        skipped@ == folder_unrestored(old(search)@, backup@, path.0),
{
    let mut skipped: Vec<Hash40> = Vec::new();
    match search.folder(path) {
        None => {},
        Some(folder) => {
            let depth = search.folders.len();
            collect_unrestored(search, backup, folder.first_child, depth, &mut skipped);
            restore_children(search, backup, folder.first_child, depth);
        },
    }
    proof {
        assert(Seq::<Hash40>::empty() + skipped@ =~= skipped@);
    }
    skipped
}

/// The row and the index of one write of patching.
#[derive(Clone, Copy, Debug, PartialEq, Eq)]
pub struct Redirect {
    pub row: usize,
    pub index: u32,
}

/// The lookup row of a path and the index that patching writes to it: the
/// index that the row of the path's alternate holds. There is none where
/// the path names no form, where the alternate has no lookup row, or where
/// the path itself has none.
pub open spec fn redirect_of(search: SearchIndexView, hash: u64, alt: nat) -> Option<(int, u32)> {
    match alt_hash_spec(search, hash, alt) {
        None => None,
        Some(alt_hash) => match search.path_slot_spec(alt_hash) {
            None => None,
            Some(alt_row) => match search.path_slot_spec(hash) {
                None => None,
                Some(row) => Some((row, search.path_index[alt_row].index)),
            },
        },
    }
}

/// The writes of patching for the entries that the link `cur` leads to, in
/// the order of the walk, `fuel` siblings at most: one for each entry that
/// has a redirect, followed, where such an entry is a directory, by the
/// writes for what lies below it, `depth` folders deep at most. All of them
/// are read from the index as it is, before any is written.
pub open spec fn redirects_spec(
    search: SearchIndexView,
    cur: Option<usize>,
    fuel: nat,
    depth: nat,
    alt: nat,
) -> Seq<(int, u32)>
    decreases depth, fuel,
{
    if fuel == 0 {
        Seq::empty()
    } else {
        match search.child_at(cur) {
            None => Seq::empty(),
            Some(child) => {
                let here = match redirect_of(search, child.path.0, alt) {
                    None => Seq::empty(),
                    Some(target) => {
                        let below = if child.is_directory && depth > 0 {
                            match search.folder_spec(child.path.0) {
                                None => Seq::empty(),
                                Some(folder) => redirects_spec(
                                    search,
                                    folder.first_child,
                                    search.paths.len(),
                                    (depth - 1) as nat,
                                    alt,
                                ),
                            }
                        } else {
                            Seq::empty()
                        };
                        seq![target] + below
                    },
                };
                here + redirects_spec(search, child.next, (fuel - 1) as nat, depth, alt)
            },
        }
    }
}

/// The paths that patching leaves as they are, in the order of the walk:
/// each entry met that has no redirect, be it that its path names no form
/// or that a lookup row is missing. What lies below such an entry is not
/// entered and not listed.
pub open spec fn unpatched_spec(
    search: SearchIndexView,
    cur: Option<usize>,
    fuel: nat,
    depth: nat,
    alt: nat,
) -> Seq<Hash40>
    decreases depth, fuel,
{
    if fuel == 0 {
        Seq::empty()
    } else {
        match search.child_at(cur) {
            None => Seq::empty(),
            Some(child) => {
                let here = match redirect_of(search, child.path.0, alt) {
                    None => seq![child.path],
                    Some(target) => if child.is_directory && depth > 0 {
                        match search.folder_spec(child.path.0) {
                            None => Seq::empty(),
                            Some(folder) => unpatched_spec(
                                search,
                                folder.first_child,
                                search.paths.len(),
                                (depth - 1) as nat,
                                alt,
                            ),
                        }
                    } else {
                        Seq::empty()
                    },
                };
                here + unpatched_spec(search, child.next, (fuel - 1) as nat, depth, alt)
            },
        }
    }
}

/// The lookup rows after the writes of a list, one after the other.
pub open spec fn apply_redirects(rows: Seq<HashToIndex>, list: Seq<(int, u32)>) -> Seq<HashToIndex>
    decreases list.len(),
{
    if list.len() == 0 {
        rows
    } else {
        let before = apply_redirects(rows, list.drop_last());
        before.update(
            list.last().0,
            HashToIndex { hash: before[list.last().0].hash, index: list.last().1 },
        )
    }
}

/// The writes of patching the folder `path`; none where there is no such
/// folder.
pub open spec fn folder_redirects(search: SearchIndexView, path: u64, alt: nat) -> Seq<(int, u32)> {
    match search.folder_spec(path) {
        None => Seq::empty(),
        Some(folder) => redirects_spec(
            search,
            folder.first_child,
            search.paths.len(),
            search.folders.len(),
            alt,
        ),
    }
}

/// The paths that patching the folder `path` leaves as they are.
pub open spec fn folder_unpatched(search: SearchIndexView, path: u64, alt: nat) -> Seq<Hash40> {
    match search.folder_spec(path) {
        None => Seq::empty(),
        Some(folder) => unpatched_spec(
            search,
            folder.first_child,
            search.paths.len(),
            search.folders.len(),
            alt,
        ),
    }
}

/// The index after the folder `path` was patched to the alternate `alt`:
/// the lookup row of every path below the folder that has a redirect holds
/// the index that the row of its alternate held before, at every level, and
/// nothing else has changed.
pub open spec fn patch_search_spec(search: SearchIndexView, path: u64, alt: nat) -> SearchIndexView {
    SearchIndexView {
        path_index: apply_redirects(search.path_index, folder_redirects(search, path, alt)),
        ..search
    }
}

/// The writes of a list, as rows and indices.
pub open spec fn redirect_views(list: Seq<Redirect>) -> Seq<(int, u32)> {
    Seq::new(list.len(), |i: int| (list[i].row as int, list[i].index))
}

/// Reads the redirect of one path.
fn redirect_for(search: &SearchIndex, hash: Hash40, alt: usize) -> (target: Option<Redirect>)
    ensures
        match target {
            Some(found) => redirect_of(search@, hash.0, alt as nat) == Some(
                (found.row as int, found.index),
            ) && found.row < search@.path_index.len(),
            None => redirect_of(search@, hash.0, alt as nat) is None,
        },
{
    match patch_file_path(search, hash, alt) {
        None => None,
        Some(alt_path) => match search.path_slot(alt_path.to_whole()) {
            None => None,
            Some(alt_row) => match search.path_slot(hash) {
                None => None,
                Some(row) => Some(Redirect { row, index: search.path_index[alt_row].index }),
            },
        },
    }
}

/// Gathers the writes of patching for the entries that the link `first`
/// leads to and for what lies below them, and the paths left as they are.
fn collect_redirects(
    search: &SearchIndex,
    first: Option<usize>,
    depth: usize,
    alt: usize,
    writes: &mut Vec<Redirect>,
    skipped: &mut Vec<Hash40>,
)
    requires
        forall|k: int|
            0 <= k < old(writes)@.len() ==> (#[trigger] old(writes)@[k]).row
                < search@.path_index.len(),
    ensures
        redirect_views(final(writes)@) == redirect_views(old(writes)@) + redirects_spec(
            search@,
            first,
            search@.paths.len(),
            depth as nat,
            alt as nat,
        ),
        final(skipped)@ == old(skipped)@ + unpatched_spec(
            search@,
            first,
            search@.paths.len(),
            depth as nat,
            alt as nat,
        ),
        forall|k: int|
            0 <= k < final(writes)@.len() ==> (#[trigger] final(writes)@[k]).row
                < search@.path_index.len(),
    decreases depth,
{
    let mut cur = first;
    let mut fuel: usize = search.paths.len();
    let mut child = search.child(cur);
    let ghost all_writes = redirects_spec(
        search@,
        first,
        search@.paths.len(),
        depth as nat,
        alt as nat,
    );
    let ghost all_skipped = unpatched_spec(
        search@,
        first,
        search@.paths.len(),
        depth as nat,
        alt as nat,
    );
    while fuel > 0 && child.is_some()
        invariant
            child == search@.child_at(cur),
            redirect_views(old(writes)@) + all_writes == redirect_views(writes@) + redirects_spec(
                search@,
                cur,
                fuel as nat,
                depth as nat,
                alt as nat,
            ),
            old(skipped)@ + all_skipped == skipped@ + unpatched_spec(
                search@,
                cur,
                fuel as nat,
                depth as nat,
                alt as nat,
            ),
            forall|k: int|
                0 <= k < writes@.len() ==> (#[trigger] writes@[k]).row < search@.path_index.len(),
        decreases fuel,
    {
        let entry = child.unwrap();
        let ghost writes_before = redirect_views(writes@);
        let ghost skipped_before = skipped@;
        let ghost writes_rest = redirects_spec(
            search@,
            entry.next,
            (fuel - 1) as nat,
            depth as nat,
            alt as nat,
        );
        let ghost skipped_rest = unpatched_spec(
            search@,
            entry.next,
            (fuel - 1) as nat,
            depth as nat,
            alt as nat,
        );
        match redirect_for(search, entry.path, alt) {
            None => {
                skipped.push(entry.path);
            },
            Some(target) => {
                writes.push(target);
                proof {
                    assert(redirect_views(writes@) =~= writes_before + seq![
                        (target.row as int, target.index),
                    ]);
                }
                if entry.is_directory && depth > 0 {
                    match search.folder(entry.path) {
                        None => {},
                        Some(folder) => {
                            collect_redirects(
                                search,
                                folder.first_child,
                                depth - 1,
                                alt,
                                writes,
                                skipped,
                            );
                        },
                    }
                }
            },
        }
        proof {
            let writes_here = redirect_views(writes@).subrange(
                writes_before.len() as int,
                writes@.len() as int,
            );
            assert(redirect_views(writes@) =~= writes_before + writes_here);
            assert(redirects_spec(search@, cur, fuel as nat, depth as nat, alt as nat)
                =~= writes_here + writes_rest);
            assert(writes_before + (writes_here + writes_rest) =~= (writes_before + writes_here)
                + writes_rest);
            let skipped_here = skipped@.subrange(skipped_before.len() as int, skipped@.len() as int);
            assert(skipped@ =~= skipped_before + skipped_here);
            assert(unpatched_spec(search@, cur, fuel as nat, depth as nat, alt as nat)
                =~= skipped_here + skipped_rest);
            assert(skipped_before + (skipped_here + skipped_rest) =~= (skipped_before
                + skipped_here) + skipped_rest);
        }
        cur = entry.next;
        fuel -= 1;
        child = search.child(cur);
    }
    proof {
        assert(redirect_views(writes@) + Seq::<(int, u32)>::empty() =~= redirect_views(writes@));
        assert(skipped@ + Seq::<Hash40>::empty() =~= skipped@);
    }
}

/// Points the lookup row of every path below the folder `path` at the entry
/// of its alternate `alt`, entering the directories among them, and gives
/// the paths that it left as they are. The alternate of every path is read
/// from the index as it is when the call begins, so that a path below a
/// directory is patched as the directory is. A path that names no form, or
/// whose alternate has no lookup row, is left as it is and not entered; the
/// others are not undone on that account.
pub fn patch_search_section(search: &mut SearchIndex, path: Hash40, alt: usize) -> (skipped: Vec<
    Hash40,
>)
    ensures
        final(search)@ == patch_search_spec(old(search)@, path.0, alt as nat),
        skipped@ == folder_unpatched(old(search)@, path.0, alt as nat),
{
    let mut writes: Vec<Redirect> = Vec::new();
    let mut skipped: Vec<Hash40> = Vec::new();
    proof {
        assert(redirect_views(writes@) =~= Seq::<(int, u32)>::empty());
    }
    match search.folder(path) {
        None => {},
        Some(folder) => {
            let depth = search.folders.len();
            collect_redirects(search, folder.first_child, depth, alt, &mut writes, &mut skipped);
        },
    }
    proof {
        let list = folder_redirects(search@, path.0, alt as nat);
        assert(redirect_views(writes@) =~= list);
        assert(skipped@ =~= folder_unpatched(search@, path.0, alt as nat));
        assert(redirect_views(writes@).take(0) =~= Seq::<(int, u32)>::empty());
    }
    let mut i: usize = 0;
    while i < writes.len()
        invariant
            i <= writes.len(),
            forall|k: int|
                0 <= k < writes@.len() ==> (#[trigger] writes@[k]).row < old(
                    search,
                )@.path_index.len(),
            redirect_views(writes@) == folder_redirects(old(search)@, path.0, alt as nat),
            search@ == (SearchIndexView {
                path_index: apply_redirects(
                    old(search)@.path_index,
                    redirect_views(writes@).take(i as int),
                ),
                ..old(search)@
            }),
        decreases writes.len() - i,
    {
        proof {
            let views = redirect_views(writes@);
            assert(views.take(i + 1).drop_last() =~= views.take(i as int));
            assert(views.take(i + 1).last() == (writes@[i as int].row as int, writes@[i as int].index));
            lemma_apply_redirects_len(old(search)@.path_index, views.take(i as int));
        }
        search.set_path_redirect(writes[i].row, writes[i].index);
        i += 1;
    }
    proof {
        let views = redirect_views(writes@);
        assert(views.take(i as int) =~= views);
    }
    skipped
}

/// The writes of a list keep the number of rows.
pub proof fn lemma_apply_redirects_len(rows: Seq<HashToIndex>, list: Seq<(int, u32)>)
    requires
        forall|k: int| 0 <= k < list.len() ==> 0 <= (#[trigger] list[k]).0 < rows.len(),
    ensures
        apply_redirects(rows, list).len() == rows.len(),
        hashes_of(apply_redirects(rows, list)) == hashes_of(rows),
    decreases list.len(),
{
    if list.len() > 0 {
        assert forall|k: int| 0 <= k < list.drop_last().len() implies 0 <= (
        #[trigger] list.drop_last()[k]).0 < rows.len() by {
            assert(list.drop_last()[k] == list[k]);
        }
        lemma_apply_redirects_len(rows, list.drop_last());
        assert(0 <= list[list.len() - 1].0 < rows.len());
        assert(hashes_of(apply_redirects(rows, list)) =~= hashes_of(rows));
    } else {
        assert(hashes_of(apply_redirects(rows, list)) =~= hashes_of(rows));
    }
}

/// A write is the redirect of the path of its row.
pub open spec fn is_redirect(search: SearchIndexView, alt: nat, item: (int, u32)) -> bool {
    &&& 0 <= item.0 < search.path_index.len()
    &&& is_first(hashes_of(search.path_index), search.path_index[item.0].hash.0, item.0)
    &&& redirect_of(search, search.path_index[item.0].hash.0, alt) == Some(item)
}

/// The redirect of a path is a write to the first row of the path.
proof fn lemma_redirect_of(search: SearchIndexView, hash: u64, alt: nat)
    ensures
        redirect_of(search, hash, alt) matches Some(item) ==> is_redirect(search, alt, item)
            && search.path_index[item.0].hash.0 == hash,
{
    lemma_first_index_found(hashes_of(search.path_index), hash);
    if redirect_of(search, hash, alt) is Some {
        let row = search.path_slot_spec(hash).unwrap();
        assert(hashes_of(search.path_index)[row] == hash);
    }
}

/// Every write of patching is the redirect of the path of its row, and
/// where the keys hold every hash of the lookup table, restoring writes
/// that path too.
proof fn lemma_redirects(
    search: SearchIndexView,
    keys: Set<u64>,
    cur: Option<usize>,
    fuel: nat,
    depth: nat,
    alt: nat,
)
    requires
        forall|r: int|
            0 <= r < search.path_index.len() ==> keys.contains(
                #[trigger] search.path_index[r].hash.0,
            ),
    ensures
        forall|k: int|
            0 <= k < redirects_spec(search, cur, fuel, depth, alt).len() ==> is_redirect(
                search,
                alt,
                #[trigger] redirects_spec(search, cur, fuel, depth, alt)[k],
            ) && restore_set(search.shape(), keys, cur, fuel, depth).contains(
                search.path_index[redirects_spec(search, cur, fuel, depth, alt)[k].0].hash.0,
            ),
    decreases depth, fuel,
{
    if fuel > 0 {
        match search.child_at(cur) {
            None => {},
            Some(child) => {
                let list = redirects_spec(search, cur, fuel, depth, alt);
                let total = restore_set(search.shape(), keys, cur, fuel, depth);
                let rest = redirects_spec(search, child.next, (fuel - 1) as nat, depth, alt);
                lemma_redirects(search, keys, child.next, (fuel - 1) as nat, depth, alt);
                lemma_redirect_of(search, child.path.0, alt);
                lemma_first_index_found(hashes_of(search.path_index), child.path.0);
                let below = match redirect_of(search, child.path.0, alt) {
                    None => Seq::empty(),
                    Some(target) => if child.is_directory && depth > 0 {
                        match search.folder_spec(child.path.0) {
                            None => Seq::empty(),
                            Some(folder) => redirects_spec(
                                search,
                                folder.first_child,
                                search.paths.len(),
                                (depth - 1) as nat,
                                alt,
                            ),
                        }
                    } else {
                        Seq::empty()
                    },
                };
                if redirect_of(search, child.path.0, alt) is Some && child.is_directory && depth > 0 {
                    match search.folder_spec(child.path.0) {
                        None => {},
                        Some(folder) => {
                            lemma_redirects(
                                search,
                                keys,
                                folder.first_child,
                                search.paths.len(),
                                (depth - 1) as nat,
                                alt,
                            );
                        },
                    }
                }
                assert forall|k: int| 0 <= k < list.len() implies is_redirect(
                    search,
                    alt,
                    #[trigger] list[k],
                ) && total.contains(search.path_index[list[k].0].hash.0) by {
                    match redirect_of(search, child.path.0, alt) {
                        None => {
                            assert(list =~= rest);
                        },
                        Some(target) => {
                            assert(list =~= (seq![target] + below) + rest);
                            let row = search.path_slot_spec(child.path.0).unwrap();
                            assert(keys.contains(search.path_index[row].hash.0));
                            if k == 0 {
                            } else if k < 1 + below.len() {
                                assert(list[k] == below[k - 1]);
                            } else {
                                assert(list[k] == rest[k - 1 - below.len()]);
                            }
                        },
                    }
                }
            },
        }
    }
}

/// The writes of a list are to rows of the table, and writes to one row
/// agree on the index.
pub open spec fn agreeing(rows: Seq<HashToIndex>, list: Seq<(int, u32)>) -> bool {
    &&& forall|k: int| 0 <= k < list.len() ==> 0 <= (#[trigger] list[k]).0 < rows.len()
    &&& forall|i: int, j: int|
        0 <= i < list.len() && 0 <= j < list.len() && (#[trigger] list[i]).0 == (
        #[trigger] list[j]).0 ==> list[i].1 == list[j].1
}

/// After writes that agree, every written row holds the index of its
/// write, and every other row is as before.
proof fn lemma_apply_redirects(rows: Seq<HashToIndex>, list: Seq<(int, u32)>)
    requires
        agreeing(rows, list),
    ensures
        apply_redirects(rows, list).len() == rows.len(),
        hashes_of(apply_redirects(rows, list)) == hashes_of(rows),
        forall|k: int|
            0 <= k < list.len() ==> apply_redirects(rows, list)[(#[trigger] list[k]).0]
                == (HashToIndex { hash: rows[list[k].0].hash, index: list[k].1 }),
        forall|r: int|
            0 <= r < rows.len() && (forall|k: int|
                0 <= k < list.len() ==> (#[trigger] list[k]).0 != r) ==> apply_redirects(
                rows,
                list,
            )[r] == rows[r],
    decreases list.len(),
{
    if list.len() > 0 {
        let shorter = list.drop_last();
        let end = list.len() - 1;
        assert(agreeing(rows, shorter)) by {
            assert forall|k: int| 0 <= k < shorter.len() implies 0 <= (#[trigger] shorter[k]).0
                < rows.len() by {
                assert(shorter[k] == list[k]);
            }
            assert forall|i: int, j: int|
                0 <= i < shorter.len() && 0 <= j < shorter.len() && (#[trigger] shorter[i]).0 == (
                #[trigger] shorter[j]).0 implies shorter[i].1 == shorter[j].1 by {
                assert(shorter[i] == list[i] && shorter[j] == list[j]);
            }
        }
        lemma_apply_redirects(rows, shorter);
        lemma_apply_redirects_len(rows, list);
        let before = apply_redirects(rows, shorter);
        let after = apply_redirects(rows, list);
        let last = list[end];
        assert(after == before.update(
            last.0,
            HashToIndex { hash: before[last.0].hash, index: last.1 },
        ));
        assert(hashes_of(before)[last.0] == hashes_of(rows)[last.0]);
        assert(before[last.0].hash == rows[last.0].hash);
        assert forall|k: int| 0 <= k < list.len() implies after[(#[trigger] list[k]).0]
            == (HashToIndex { hash: rows[list[k].0].hash, index: list[k].1 }) by {
            if list[k].0 == last.0 {
                assert(list[k].1 == list[end].1);
            } else {
                assert(shorter[k] == list[k]);
                assert(after[list[k].0] == before[shorter[k].0]);
            }
        }
        assert forall|r: int|
            0 <= r < rows.len() && (forall|k: int|
                0 <= k < list.len() ==> (#[trigger] list[k]).0 != r) implies after[r]
            == rows[r] by {
            assert(list[end].0 != r);
            assert forall|k: int| 0 <= k < shorter.len() implies (#[trigger] shorter[k]).0
                != r by {
                assert(shorter[k] == list[k]);
            }
            assert(after[r] == before[r]);
        }
    } else {
        assert(hashes_of(apply_redirects(rows, list)) =~= hashes_of(rows));
    }
}

/// Writes that are each the redirect of the path of its row agree.
proof fn lemma_redirects_agree(search: SearchIndexView, alt: nat, list: Seq<(int, u32)>)
    requires
        forall|k: int| 0 <= k < list.len() ==> is_redirect(search, alt, #[trigger] list[k]),
    ensures
        agreeing(search.path_index, list),
{
    assert forall|k: int| 0 <= k < list.len() implies 0 <= (#[trigger] list[k]).0
        < search.path_index.len() by {
        assert(is_redirect(search, alt, list[k]));
    }
    assert forall|i: int, j: int|
        0 <= i < list.len() && 0 <= j < list.len() && (#[trigger] list[i]).0 == (
        #[trigger] list[j]).0 implies list[i].1 == list[j].1 by {
        assert(is_redirect(search, alt, list[i]));
        assert(is_redirect(search, alt, list[j]));
    }
}

/// After a folder was patched, the lookup row of every path below it that
/// has a redirect holds the index that the row of the path's alternate
/// held before, at every level of the folder; the rows keep their hashes,
/// and a row that no write names is as before.
pub proof fn lemma_patch_search_rows(search: SearchIndexView, path: u64, alt: nat)
    ensures
        hashes_of(patch_search_spec(search, path, alt).path_index) == hashes_of(search.path_index),
        forall|k: int|
            0 <= k < folder_redirects(search, path, alt).len() ==> is_redirect(
                search,
                alt,
                #[trigger] folder_redirects(search, path, alt)[k],
            ) && patch_search_spec(search, path, alt).path_index[folder_redirects(
                search,
                path,
                alt,
            )[k].0].index == folder_redirects(search, path, alt)[k].1,
        forall|r: int|
            0 <= r < search.path_index.len() && (forall|k: int|
                0 <= k < folder_redirects(search, path, alt).len() ==> (
                #[trigger] folder_redirects(search, path, alt)[k]).0 != r) ==> patch_search_spec(
                search,
                path,
                alt,
            ).path_index[r] == search.path_index[r],
{
    let keys = Set::new(|h: u64| true);
    match search.folder_spec(path) {
        None => {},
        Some(folder) => {
            lemma_redirects(
                search,
                keys,
                folder.first_child,
                search.paths.len(),
                search.folders.len(),
                alt,
            );
        },
    }
    lemma_redirects_agree(search, alt, folder_redirects(search, path, alt));
    lemma_apply_redirects(search.path_index, folder_redirects(search, path, alt));
}

/// The backup holds, for every hash of the path lookup table, the index of
/// the first row of that hash.
pub open spec fn is_search_snapshot(backup: Map<u64, u32>, search: SearchIndexView) -> bool {
    forall|r: int|
        0 <= r < search.path_index.len() && #[trigger] is_first(
            hashes_of(search.path_index),
            search.path_index[r].hash.0,
            r,
        ) ==> backup.contains_key(search.path_index[r].hash.0) && backup[search.path_index[r].hash.0]
            == search.path_index[r].index
}

/// Restoring a folder twice leaves the index as restoring it once does.
pub proof fn lemma_restore_search_idempotent(
    search: SearchIndexView,
    backup: Map<u64, u32>,
    path: u64,
)
    ensures
        restore_search_spec(restore_search_spec(search, backup, path), backup, path)
            == restore_search_spec(search, backup, path),
{
    match search.folder_spec(path) {
        None => {},
        Some(folder) => {
            let written = restore_set(
                search.shape(),
                backup.dom(),
                folder.first_child,
                search.paths.len(),
                search.folders.len(),
            );
            lemma_restore_rows_hashes(search.path_index, written, backup);
            lemma_restore_rows_twice(search.path_index, written, written, backup);
            assert(written.union(written) =~= written);
        },
    }
}

/// Patching a folder and then restoring it gives back the index as it was
/// when the backup was taken of it.
pub proof fn lemma_search_round_trip(
    search: SearchIndexView,
    backup: Map<u64, u32>,
    path: u64,
    alt: nat,
)
    requires
        is_search_snapshot(backup, search),
    ensures
        restore_search_spec(patch_search_spec(search, path, alt), backup, path) == search,
{
    let hashes = hashes_of(search.path_index);
    assert forall|r: int| 0 <= r < search.path_index.len() implies backup.dom().contains(
        #[trigger] search.path_index[r].hash.0,
    ) by {
        let hash = search.path_index[r].hash.0;
        assert(hashes[r] == hash);
        lemma_first_index_found(hashes, hash);
        let first = first_index(hashes, hash).unwrap();
        assert(is_first(hashes, search.path_index[first].hash.0, first));
    }
    let list = folder_redirects(search, path, alt);
    let patched = patch_search_spec(search, path, alt);
    match search.folder_spec(path) {
        None => {
            assert(patched.path_index =~= search.path_index);
        },
        Some(folder) => {
            lemma_redirects(
                search,
                backup.dom(),
                folder.first_child,
                search.paths.len(),
                search.folders.len(),
                alt,
            );
            lemma_redirects_agree(search, alt, list);
            lemma_apply_redirects(search.path_index, list);
            let written = restore_set(
                search.shape(),
                backup.dom(),
                folder.first_child,
                search.paths.len(),
                search.folders.len(),
            );
            assert(patched.shape() == search.shape());
            let restored = restore_search_spec(patched, backup, path);
            assert forall|r: int| 0 <= r < search.path_index.len() implies restored.path_index[r]
                == search.path_index[r] by {
                assert(hashes_of(patched.path_index)[r] == hashes[r]);
                if exists|k: int| 0 <= k < list.len() && (#[trigger] list[k]).0 == r {
                    let k = choose|k: int| 0 <= k < list.len() && (#[trigger] list[k]).0 == r;
                    assert(is_redirect(search, alt, list[k]));
                    assert(written.contains(search.path_index[r].hash.0));
                } else {
                    assert(patched.path_index[r] == search.path_index[r]);
                    if is_first(hashes, search.path_index[r].hash.0, r) {
                    }
                }
            }
            assert(restored.path_index =~= search.path_index);
        },
    }
}

/// Where no entry of the path list has a path that names a form, patching
/// writes nothing for the entries that a link leads to.
proof fn lemma_redirects_unmarked(
    search: SearchIndexView,
    cur: Option<usize>,
    fuel: nat,
    depth: nat,
    alt: nat,
)
    requires
        forall|p: int|
            0 <= p < search.paths.len() ==> alt_hash_spec(
                search,
                (#[trigger] search.paths[p]).path.0,
                alt,
            ) is None,
    ensures
        redirects_spec(search, cur, fuel, depth, alt) == Seq::<(int, u32)>::empty(),
    decreases fuel,
{
    if fuel > 0 {
        match search.child_at(cur) {
            None => {},
            Some(child) => {
                assert(child == search.paths[cur.unwrap() as int]);
                assert(redirect_of(search, child.path.0, alt) is None);
                lemma_redirects_unmarked(search, child.next, (fuel - 1) as nat, depth, alt);
                assert(redirects_spec(search, cur, fuel, depth, alt) =~= Seq::<(int, u32)>::empty());
            },
        }
    }
}

/// Patching a folder of an index in which no path names a form leaves the
/// index as it is, whatever the alternate.
pub proof fn lemma_patch_search_unmarked(search: SearchIndexView, path: u64, alt: nat)
    requires
        forall|p: int|
            0 <= p < search.paths.len() ==> alt_hash_spec(
                search,
                (#[trigger] search.paths[p]).path.0,
                alt,
            ) is None,
    ensures
        patch_search_spec(search, path, alt) == search,
{
    match search.folder_spec(path) {
        None => {},
        Some(folder) => {
            lemma_redirects_unmarked(
                search,
                folder.first_child,
                search.paths.len(),
                search.folders.len(),
                alt,
            );
        },
    }
}

/// The entry at `position` is among the siblings that the link `cur` leads
/// to, `fuel` entries on at most.
pub open spec fn on_chain(search: SearchIndexView, cur: Option<usize>, fuel: nat, position: usize) -> bool
    decreases fuel,
{
    fuel > 0 && search.child_at(cur) is Some && (cur == Some(position) || on_chain(
        search,
        search.child_at(cur).unwrap().next,
        (fuel - 1) as nat,
        position,
    ))
}

/// The writes for the siblings that a link leads to hold the redirect of
/// each sibling that has one, and, where such a sibling is a directory with
/// a folder, all writes for the children of that folder.
proof fn lemma_redirects_hold(
    search: SearchIndexView,
    cur: Option<usize>,
    fuel: nat,
    depth: nat,
    alt: nat,
    position: usize,
)
    requires
        on_chain(search, cur, fuel, position),
        redirect_of(search, search.paths[position as int].path.0, alt) is Some,
    ensures
        redirects_spec(search, cur, fuel, depth, alt).contains(
            redirect_of(search, search.paths[position as int].path.0, alt).unwrap(),
        ),
        search.paths[position as int].is_directory && depth > 0 && search.folder_spec(
            search.paths[position as int].path.0,
        ) is Some ==> forall|item: (int, u32)|
            redirects_spec(
                search,
                search.folder_spec(search.paths[position as int].path.0).unwrap().first_child,
                search.paths.len(),
                (depth - 1) as nat,
                alt,
            ).contains(item) ==> #[trigger] redirects_spec(search, cur, fuel, depth, alt).contains(
                item,
            ),
    decreases fuel,
{
    let child = search.child_at(cur).unwrap();
    let list = redirects_spec(search, cur, fuel, depth, alt);
    let rest = redirects_spec(search, child.next, (fuel - 1) as nat, depth, alt);
    let entry = search.paths[position as int];
    let target = redirect_of(search, entry.path.0, alt).unwrap();
    let inner = if entry.is_directory && depth > 0 && search.folder_spec(entry.path.0) is Some {
        redirects_spec(
            search,
            search.folder_spec(entry.path.0).unwrap().first_child,
            search.paths.len(),
            (depth - 1) as nat,
            alt,
        )
    } else {
        Seq::empty()
    };
    if cur == Some(position) {
        assert(child == entry);
        assert(list =~= (seq![target] + inner) + rest);
        assert(list[0] == target);
        assert forall|item: (int, u32)| inner.contains(item) implies #[trigger] list.contains(
            item,
        ) by {
            let k = choose|k: int| 0 <= k < inner.len() && inner[k] == item;
            assert(list[1 + k] == item);
        }
    } else {
        lemma_redirects_hold(search, child.next, (fuel - 1) as nat, depth, alt, position);
        let here_len = list.len() - rest.len();
        assert(list.subrange(here_len, list.len() as int) =~= rest);
        assert forall|item: (int, u32)| rest.contains(item) implies #[trigger] list.contains(
            item,
        ) by {
            let k = choose|k: int| 0 <= k < rest.len() && rest[k] == item;
            assert(list.subrange(here_len, list.len() as int)[k] == item);
            assert(list[here_len + k] == item);
        }
        assert(rest.contains(target));
    }
}

/// Patching reaches the level below a redirected directory: where a child
/// of the folder `path` is a directory that has a redirect and a folder,
/// every child of that folder that has a redirect holds, after the patch,
/// the index that the row of its alternate held before, as the directory
/// itself does.
pub proof fn lemma_patch_search_levels(
    search: SearchIndexView,
    path: u64,
    alt: nat,
    directory: usize,
    child: usize,
)
    requires
        search.folder_spec(path) is Some,
        on_chain(
            search,
            search.folder_spec(path).unwrap().first_child,
            search.paths.len(),
            directory,
        ),
        search.paths[directory as int].is_directory,
        redirect_of(search, search.paths[directory as int].path.0, alt) is Some,
        search.folder_spec(search.paths[directory as int].path.0) is Some,
        on_chain(
            search,
            search.folder_spec(search.paths[directory as int].path.0).unwrap().first_child,
            search.paths.len(),
            child,
        ),
        redirect_of(search, search.paths[child as int].path.0, alt) is Some,
    ensures
        patch_search_spec(search, path, alt).path_index[redirect_of(
            search,
            search.paths[directory as int].path.0,
            alt,
        ).unwrap().0].index == redirect_of(
            search,
            search.paths[directory as int].path.0,
            alt,
        ).unwrap().1,
        patch_search_spec(search, path, alt).path_index[redirect_of(
            search,
            search.paths[child as int].path.0,
            alt,
        ).unwrap().0].index == redirect_of(search, search.paths[child as int].path.0, alt).unwrap().1,
{
    let folder = search.folder_spec(path).unwrap();
    let depth = search.folders.len();
    assert(depth > 0);
    let list = folder_redirects(search, path, alt);
    let inner_folder = search.folder_spec(search.paths[directory as int].path.0).unwrap();
    lemma_redirects_hold(search, folder.first_child, search.paths.len(), depth, alt, directory);
    lemma_redirects_hold(
        search,
        inner_folder.first_child,
        search.paths.len(),
        (depth - 1) as nat,
        alt,
        child,
    );
    lemma_patch_search_rows(search, path, alt);
    let upper = redirect_of(search, search.paths[directory as int].path.0, alt).unwrap();
    let lower = redirect_of(search, search.paths[child as int].path.0, alt).unwrap();
    assert(list.contains(upper));
    assert(list.contains(lower));
    let i = choose|i: int| 0 <= i < list.len() && list[i] == upper;
    let j = choose|j: int| 0 <= j < list.len() && list[j] == lower;
    assert(list[i].0 == upper.0 && list[j].0 == lower.0);
}

} // verus!
