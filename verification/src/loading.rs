//! What redirection does at the events of loading: the backups taken once
//! the archive is set up, restoring and patching when a directory is
//! loaded, and the turn of the selection when a stage is prepared.

use vstd::prelude::*;
use crate::archive::{
    DirectoryTable, DirectoryTableView, HashToIndex, SearchIndex, SearchIndexView,
};
use crate::backup::BackupTable;
use crate::hash::{str_hash, Hash40};
use crate::manager::AltManager;
use crate::patching::{
    dir_unpatched, dir_unrestored, is_dir_snapshot, patch_dir_info, patch_dir_spec,
    restore_dir_info, restore_dir_spec,
};
use crate::path::{ConcatHash, joined, pretty_spec};
use crate::search::{
    build_alt_lookups, collect_files_from_path, collected_files, descends_from, discovered,
    is_descendant_of, sorted_by_slot,
};
use crate::search_patching::{
    folder_unpatched, folder_unrestored, is_search_snapshot, patch_search_section,
    patch_search_spec, restore_search_section, restore_search_spec,
};
use crate::sorting::{sort_folder_contents, sort_spec, NameTable};

verus! {

/// The backup of a lookup table: for each hash the index of its row, of the
/// last row where a hash has several.
pub open spec fn snapshot_spec(table: Seq<HashToIndex>) -> Map<u64, u32>
    decreases table.len(),
{
    if table.len() == 0 {
        Map::empty()
    } else {
        snapshot_spec(table.drop_last()).insert(table.last().hash.0, table.last().index)
    }
}

/// Takes the backup of a lookup table.
pub fn snapshot(table: &Vec<HashToIndex>) -> (backup: BackupTable)
    ensures
        backup@ == snapshot_spec(table@),
{
    let mut backup = BackupTable::new();
    let mut i: usize = 0;
    while i < table.len()
        invariant
            i <= table.len(),
            backup@ == snapshot_spec(table@.take(i as int)),
        decreases table.len() - i,
    {
        proof {
            assert(table@.take(i + 1).drop_last() =~= table@.take(i as int));
        }
        backup.insert(table[i].hash, table[i].index);
        i += 1;
    }
    proof {
        assert(table@.take(i as int) =~= table@);
    }
    backup
}

/// No hash has two rows in the table.
pub open spec fn distinct_hashes(table: Seq<HashToIndex>) -> bool {
    forall|i: int, j: int|
        0 <= i < j < table.len() ==> (#[trigger] table[i]).hash != (#[trigger] table[j]).hash
}

/// The backup of a table without repeated hashes holds the index of every
/// row under the row's hash.
pub proof fn lemma_snapshot_holds_rows(table: Seq<HashToIndex>)
    requires
        distinct_hashes(table),
    ensures
        forall|r: int|
            0 <= r < table.len() ==> snapshot_spec(table).contains_key(
                (#[trigger] table[r]).hash.0,
            ) && snapshot_spec(table)[table[r].hash.0] == table[r].index,
    decreases table.len(),
{
    if table.len() > 0 {
        let shorter = table.drop_last();
        assert(distinct_hashes(shorter)) by {
            assert forall|i: int, j: int| 0 <= i < j < shorter.len() implies (
            #[trigger] shorter[i]).hash != (#[trigger] shorter[j]).hash by {
                assert(table[i].hash != table[j].hash);
            }
        }
        lemma_snapshot_holds_rows(shorter);
        assert forall|r: int| 0 <= r < table.len() implies snapshot_spec(table).contains_key(
            (#[trigger] table[r]).hash.0,
        ) && snapshot_spec(table)[table[r].hash.0] == table[r].index by {
            if r < table.len() - 1 {
                assert(shorter[r] == table[r]);
                assert(table[r].hash != table[table.len() - 1].hash);
            }
        }
    }
}

/// The backups that the first load takes of tables without repeated hashes
/// are such that patching and then restoring gives the tables back.
pub proof fn lemma_snapshots_restore(arc: DirectoryTableView, search: SearchIndexView)
    requires
        distinct_hashes(arc.file_paths),
        distinct_hashes(search.path_index),
    ensures
        is_dir_snapshot(snapshot_spec(arc.file_paths), arc),
        is_search_snapshot(snapshot_spec(search.path_index), search),
{
    lemma_snapshot_holds_rows(arc.file_paths);
    lemma_snapshot_holds_rows(search.path_index);
}

/// Sets the manager up once the archive is loaded: the children of every
/// folder from the root down are put in order, the catalog is built from
/// the ordered index, and both backups are taken.
pub fn initial_load(
    manager: &mut AltManager,
    arc: &DirectoryTable,
    search: &mut SearchIndex,
    lookup: &NameTable,
)
    ensures
        final(search)@ == sort_spec(
            old(search)@,
            lookup@,
            str_hash("/"@),
            old(search)@.folders.len() as nat,
        ),
        final(manager).alts.entries@ == sorted_by_slot(discovered(final(search)@)),
        final(manager).backup_filepaths@ == snapshot_spec(arc@.file_paths),
        final(manager).backup_searchpaths@ == snapshot_spec(final(search)@.path_index),
        final(manager).selected_alts == old(manager).selected_alts,
        final(manager).index_to_hash == old(manager).index_to_hash,
        final(manager).ui_to_place == old(manager).ui_to_place,
{
    sort_folder_contents(Hash40::new("/"), search, lookup);
    manager.alts = build_alt_lookups(search);
    manager.backup_filepaths = snapshot(&arc.file_paths);
    manager.backup_searchpaths = snapshot(&search.path_index);
}

/// Some folder of `excluded` is above the path.
pub open spec fn under_excluded(search: SearchIndexView, path: u64, excluded: Seq<Hash40>) -> bool {
    exists|i: int|
        0 <= i < excluded.len() && descends_from(
            search,
            path,
            (#[trigger] excluded[i]).0,
            search.path_index.len(),
        )
}

/// The path lies below the folder `stage` and below none of the excluded
/// folders.
pub open spec fn is_stage_path(search: SearchIndexView, path: u64, excluded: Seq<Hash40>) -> bool {
    descends_from(search, path, str_hash("stage"@), search.path_index.len()) && !under_excluded(
        search,
        path,
        excluded,
    )
}

/// Tells whether a path lies below the folder `stage` and below none of the
/// excluded folders.
pub fn is_stage_directory(search: &SearchIndex, path: Hash40, excluded: &Vec<Hash40>) -> (stage:
    bool)
    ensures
        stage == is_stage_path(search@, path.0, excluded@),
{
    if !is_descendant_of(search, path, Hash40::new("stage")) {
        return false;
    }
    let mut i: usize = 0;
    while i < excluded.len()
        invariant
            i <= excluded.len(),
            forall|k: int|
                0 <= k < i ==> !descends_from(
                    search@,
                    path.0,
                    (#[trigger] excluded@[k]).0,
                    search@.path_index.len(),
                ),
        decreases excluded.len() - i,
    {
        if is_descendant_of(search, path, excluded[i]) {
            return false;
        }
        i += 1;
    }
    true
}

/// The folders below `stage` that hold no stage: what all stages share, and
/// the stages of the results screen.
pub fn default_excluded() -> (excluded: Vec<Hash40>)
    ensures
        excluded@.len() == 4,
        excluded@[0].0 == str_hash("stage/common"@),
        excluded@[1].0 == str_hash("stage/resultstage"@),
        excluded@[2].0 == str_hash("stage/resultstage_jack"@),
        excluded@[3].0 == str_hash("stage/resultstage_edge"@),
{
    let mut excluded: Vec<Hash40> = Vec::new();
    excluded.push(Hash40::new("stage/common"));
    excluded.push(Hash40::new("stage/resultstage"));
    excluded.push(Hash40::new("stage/resultstage_jack"));
    excluded.push(Hash40::new("stage/resultstage_edge"));
    excluded
}

/// The path is the folder of a stage's form: a stage path of three
/// components.
pub open spec fn is_form_folder(search: SearchIndexView, path: u64, excluded: Seq<Hash40>) -> bool {
    is_stage_path(search, path, excluded) && pretty_spec(search, path).len() == 3
}

/// The stage's folder of a form's folder: its first two components joined.
pub open spec fn stage_folder(search: SearchIndexView, path: u64) -> u64 {
    joined(pretty_spec(search, path).take(2))
}

/// What a restore or a patch left as it was: the files of the directory
/// table and the paths of the search index that it passed over.
#[derive(Debug, PartialEq, Eq)]
pub struct Skipped {
    pub files: Vec<Hash40>,
    pub paths: Vec<Hash40>,
}

/// Before a directory is loaded: where it is the folder of a stage's form,
/// the stage's folder is restored from the backups in both tables, and what
/// the backups did not hold is given; else nothing is done and nothing
/// given.
pub fn restore_on_load(
    manager: &AltManager,
    arc: &mut DirectoryTable,
    search: &mut SearchIndex,
    path: Hash40,
    excluded: &Vec<Hash40>,
) -> (restored: Option<Skipped>)
    ensures
        restored is Some == is_form_folder(old(search)@, path.0, excluded@),
        final(arc)@ == (if restored is Some {
            restore_dir_spec(
                old(arc)@,
                manager.backup_filepaths@,
                stage_folder(old(search)@, path.0),
            )
        } else {
            old(arc)@
        }),
        final(search)@ == (if restored is Some {
            restore_search_spec(
                old(search)@,
                manager.backup_searchpaths@,
                stage_folder(old(search)@, path.0),
            )
        } else {
            old(search)@
        }),
        restored matches Some(skipped) ==> skipped.files@ == dir_unrestored(
            old(arc)@,
            manager.backup_filepaths@,
            stage_folder(old(search)@, path.0),
        ) && skipped.paths@ == folder_unrestored(
            old(search)@,
            manager.backup_searchpaths@,
            stage_folder(old(search)@, path.0),
        ),
{
    if !is_stage_directory(search, path, excluded) {
        return None;
    }
    let pretty = path.pretty(search);
    if pretty.components().len() != 3 {
        return None;
    }
    let folder = pretty.sub_range(2);
    let files = restore_dir_info(arc, &manager.backup_filepaths, folder);
    let paths = restore_search_section(search, &manager.backup_searchpaths, folder);
    Some(Skipped { files, paths })
}

/// The tables after a directory was loaded under the alternate `alt`: the
/// stage's folder of a form's folder is patched in both tables where the
/// alternate is not zero.
pub open spec fn patched_on_load(
    arc: DirectoryTableView,
    search: SearchIndexView,
    path: u64,
    alt: Option<usize>,
    excluded: Seq<Hash40>,
) -> (DirectoryTableView, SearchIndexView) {
    if is_form_folder(search, path, excluded) && alt is Some && alt.unwrap() != 0 {
        (
            patch_dir_spec(arc, search, stage_folder(search, path), alt.unwrap() as nat),
            patch_search_spec(search, stage_folder(search, path), alt.unwrap() as nat),
        )
    } else {
        (arc, search)
    }
}

/// What a load under an alternate gives: the files that the loaded
/// directory is to hold, and what the patch left as it was.
#[derive(Debug, PartialEq, Eq)]
pub struct Patched {
    pub files: Vec<u32>,
    pub skipped: Skipped,
}

/// After a directory was loaded: where it lies below a stage and an
/// alternate other than zero applies, the stage's folder is patched in both
/// tables if the directory is the folder of a form, and the files of the
/// alternate's folder are gathered for the loaded directory to hold,
/// together with what the patch left as it was. Gives nothing where no
/// files are to be replaced.
pub fn patch_on_load(
    arc: &mut DirectoryTable,
    search: &mut SearchIndex,
    path: Hash40,
    alt: Option<usize>,
    excluded: &Vec<Hash40>,
) -> (patched: Option<Patched>)
    ensures
        final(arc)@ == patched_on_load(old(arc)@, old(search)@, path.0, alt, excluded@).0,
        final(search)@ == patched_on_load(old(arc)@, old(search)@, path.0, alt, excluded@).1,
        patched is Some == (is_stage_path(old(search)@, path.0, excluded@) && alt is Some
            && alt.unwrap() != 0),
        patched matches Some(given) ==> given.files@ == collected_files(
            final(arc)@,
            final(search)@,
            path.0,
            alt.unwrap() as nat,
            true,
        ),
        patched matches Some(given) ==> given.skipped.files@ == (if is_form_folder(
            old(search)@,
            path.0,
            excluded@,
        ) {
            dir_unpatched(
                old(arc)@,
                old(search)@,
                stage_folder(old(search)@, path.0),
                alt.unwrap() as nat,
            )
        } else {
            Seq::<Hash40>::empty()
        }),
        patched matches Some(given) ==> given.skipped.paths@ == (if is_form_folder(
            old(search)@,
            path.0,
            excluded@,
        ) {
            folder_unpatched(old(search)@, stage_folder(old(search)@, path.0), alt.unwrap() as nat)
        } else {
            Seq::<Hash40>::empty()
        }),
{
    if !is_stage_directory(search, path, excluded) {
        return None;
    }
    let alt = match alt {
        Some(alt) => alt,
        None => {
            return None;
        },
    };
    if alt == 0 {
        return None;
    }
    let pretty = path.pretty(search);
    let mut skipped = Skipped { files: Vec::new(), paths: Vec::new() };
    if pretty.components().len() == 3 {
        let folder = pretty.sub_range(2);
        let files = patch_dir_info(arc, search, folder, alt);
        let paths = patch_search_section(search, folder, alt);
        skipped = Skipped { files, paths };
    }
    Some(Patched { files: collect_files_from_path(arc, search, path, alt, true), skipped })
}

/// When a stage is about to be loaded: offline, and where the path and its
/// parent are in the search index, the selection takes its turn and the
/// slot to apply is given, in `Some`; else nothing changes and `None` says
/// that the slot of the last turn stays.
pub fn on_asset_prepare(manager: &mut AltManager, search: &SearchIndex, online: bool, path: Hash40) -> (turn:
    Option<Option<usize>>)
    requires
        old(manager).selected_alts matches Some(selected) ==> selected.current_index < usize::MAX,
    ensures
        match turn {
            Some(slot) => {
                &&& !online
                &&& search@.path_entry_spec(path.0) matches Some(entry)
                    && search@.path_entry_spec(entry.parent.0) is Some
                &&& slot == old(manager).current_slot_spec()
                &&& final(manager).alts == old(manager).alts
                &&& final(manager).backup_filepaths == old(manager).backup_filepaths
                &&& final(manager).backup_searchpaths == old(manager).backup_searchpaths
                &&& final(manager).index_to_hash == old(manager).index_to_hash
                &&& final(manager).ui_to_place == old(manager).ui_to_place
                &&& final(manager).selected_alts is Some == old(manager).selected_alts is Some
                &&& final(manager).selected_alts matches Some(after) ==> after.playable == old(
                    manager,
                ).selected_alts.unwrap().playable && after.current_index == old(
                    manager,
                ).selected_alts.unwrap().current_index + 1
            },
            None => {
                &&& *final(manager) == *old(manager)
                &&& online || !(search@.path_entry_spec(path.0) matches Some(entry)
                    && search@.path_entry_spec(entry.parent.0) is Some)
            },
        },
{
    if online {
        return None;
    }
    let entry = match search.path_entry(path) {
        Some(entry) => entry,
        None => {
            return None;
        },
    };
    if search.path_entry(entry.parent).is_none() {
        return None;
    }
    Some(manager.fetch_advance())
}

} // verus!
