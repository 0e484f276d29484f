//! Walks of the search index: telling an alternate by its name, finding the
//! folder of an alternate, and gathering the files below a folder.

use vstd::prelude::*;
use crate::archive::{DirectoryTable, DirectoryTableView, PathEntry, SearchIndex, SearchIndexView};
use crate::hash::{
    concat_hash, numbered_hash, numbered_text, separator, str_hash, Hash40,
};
use crate::manager::{
    alt_info_spec, alts_of, lemma_alts_of_concat, lemma_alts_of_one, strictly_ascending_alts,
    AltInfo, Catalog, CatalogEntry, StageInfo, StageKind, UiPaths,
};
use crate::patching::alt_marker;
use crate::path::ConcatHash;

verus! {

/// The first number from `from` up to `end` whose alternate name hashes to
/// `hash`, with the form of that name, the normal form first.
pub open spec fn guess_from(hash: u64, from: nat, end: nat) -> Option<(usize, bool)>
    decreases end - from,
{
    if from >= end {
        None
    } else if alt_marker(true, from).0 == hash {
        Some((from as usize, true))
    } else if alt_marker(false, from).0 == hash {
        Some((from as usize, false))
    } else {
        guess_from(hash, from + 1, end)
    }
}

/// The number and form of the alternate that a file name stands for: a name
/// of ten bytes is tried as the alternates 1 to 99, one of eleven bytes as
/// the alternates 100 to 999, and no other name is one.
pub open spec fn guess_spec(hash: Hash40) -> Option<(usize, bool)> {
    if hash.len_spec() == 10 {
        guess_from(hash.0, 1, 100)
    } else if hash.len_spec() == 11 {
        guess_from(hash.0, 100, 1000)
    } else {
        None
    }
}

/// Tries the alternates from `from` up to `end` against a file name.
fn guess_in(hash: Hash40, from: usize, end: usize) -> (guess: Option<(usize, bool)>)
    requires
        from <= end,
    ensures
        guess == guess_from(hash.0, from as nat, end as nat),
{
    let mut x: usize = from;
    while x < end
        invariant
            from <= x <= end,
            guess_from(hash.0, from as nat, end as nat) == guess_from(hash.0, x as nat, end as nat),
        decreases end - x,
    {
        if numbered_hash("normal_s", x, "").0 == hash.0 {
            return Some((x, true));
        }
        if numbered_hash("battle_s", x, "").0 == hash.0 {
            return Some((x, false));
        }
        x += 1;
    }
    None
}

/// Tells the number and form of the alternate that a file name stands for,
/// if it stands for one.
pub fn guess_hash(hash: Hash40) -> (guess: Option<(usize, bool)>)
    ensures
        guess == guess_spec(hash),
{
    let len = hash.len();
    if len == 10 {
        guess_in(hash, 1, 100)
    } else if len == 11 {
        guess_in(hash, 100, 1000)
    } else {
        None
    }
}

/// The name is that of a form: `normal` or `battle`.
pub open spec fn is_form_name(name: Hash40) -> bool {
    name.0 == str_hash("normal"@) || name.0 == str_hash("battle"@)
}

/// The name of a form's alternate: the form's own name for alternate zero,
/// else the name followed by `_s` and the number.
pub open spec fn alt_form_name(name: Hash40, alt: nat) -> u64 {
    if alt == 0 {
        name.0
    } else {
        concat_hash(name.0, str_hash(numbered_text("_s"@, alt, ""@)))
    }
}

/// The hash of the path that the entry has under the alternate `alt` of its
/// form: the path of the form's parent, the alternate's name, and the names
/// from the form down to the entry, joined by separators. There is none
/// where the walk up from the entry meets no form within `fuel` parents.
pub open spec fn alt_search_path(search: SearchIndexView, entry: PathEntry, alt: nat, fuel: nat) -> Option<
    u64,
>
    decreases fuel,
{
    if is_form_name(entry.file_name) {
        Some(
            concat_hash(
                concat_hash(entry.parent.0, separator()),
                alt_form_name(entry.file_name, alt),
            ),
        )
    } else if fuel == 0 {
        None
    } else {
        match search.path_entry_spec(entry.parent.0) {
            None => None,
            Some(parent) => match alt_search_path(search, parent, alt, (fuel - 1) as nat) {
                None => None,
                Some(above) => Some(
                    concat_hash(concat_hash(above, separator()), entry.file_name.0),
                ),
            },
        }
    }
}

/// Walks up from the entry to its form and builds the alternate's path on
/// the way back.
fn recreate_within(search: &SearchIndex, path: &PathEntry, alt: usize, fuel: usize) -> (hash: Option<
    Hash40,
>)
    ensures
        match hash {
            Some(hash) => alt_search_path(search@, *path, alt as nat, fuel as nat) == Some(hash.0),
            None => alt_search_path(search@, *path, alt as nat, fuel as nat) is None,
        },
    decreases fuel,
{
    if path.file_name.0 == Hash40::new("normal").0 || path.file_name.0 == Hash40::new("battle").0 {
        let new_name = if alt == 0 {
            path.file_name
        } else {
            path.file_name.append(numbered_hash("_s", alt, ""))
        };
        return Some(path.parent.concat(new_name));
    }
    if fuel == 0 {
        return None;
    }
    match search.path_entry(path.parent) {
        None => None,
        Some(parent) => match recreate_within(search, &parent, alt, fuel - 1) {
            None => None,
            Some(above) => Some(above.concat(path.file_name)),
        },
    }
}

/// The hash of the path that the entry has under the alternate `alt` of its
/// form. The walk up to the form is as long as the path lookup table at
/// most, which no chain of distinct entries exceeds.
pub fn recreate_search_path_hash(search: &SearchIndex, path: &PathEntry, alt: usize) -> (hash: Option<
    Hash40,
>)
    ensures
        match hash {
            Some(hash) => alt_search_path(
                search@,
                *path,
                alt as nat,
                search@.path_index.len() as nat,
            ) == Some(hash.0),
            None => alt_search_path(search@, *path, alt as nat, search@.path_index.len() as nat)
                is None,
        },
{
    recreate_within(search, path, alt, search.path_index.len())
}

/// Some parent of the path `hash`, `fuel` steps up at most, is `ancestor`.
pub open spec fn descends_from(search: SearchIndexView, hash: u64, ancestor: u64, fuel: nat) -> bool
    decreases fuel,
{
    if fuel == 0 {
        false
    } else {
        match search.path_entry_spec(hash) {
            None => false,
            Some(entry) => entry.parent.0 == ancestor || descends_from(
                search,
                entry.parent.0,
                ancestor,
                (fuel - 1) as nat,
            ),
        }
    }
}

/// Tells whether the walk from `path` up through its parents meets
/// `ancestor`. The walk is as long as the path lookup table at most.
pub fn is_descendant_of(search: &SearchIndex, path: Hash40, ancestor: Hash40) -> (descends: bool)
    ensures
        descends == descends_from(search@, path.0, ancestor.0, search@.path_index.len() as nat),
{
    let mut current = path;
    let mut fuel: usize = search.path_index.len();
    while fuel > 0
        invariant
            descends_from(search@, path.0, ancestor.0, search@.path_index.len() as nat)
                == descends_from(search@, current.0, ancestor.0, fuel as nat),
        decreases fuel,
    {
        match search.path_entry(current) {
            None => {
                return false;
            },
            Some(entry) => {
                if entry.parent.0 == ancestor.0 {
                    return true;
                }
                current = entry.parent;
                fuel -= 1;
            },
        }
    }
    false
}

/// The positions of the file paths of the files that the link `cur` leads
/// to and of those below the directories among them, in the order of the
/// walk: `fuel` siblings at most and `depth` folders deep at most. A file
/// that the directory table does not know is left out.
pub open spec fn files_below(
    arc: DirectoryTableView,
    search: SearchIndexView,
    cur: Option<usize>,
    fuel: nat,
    depth: nat,
) -> Seq<u32>
    decreases depth, fuel,
{
    if fuel == 0 {
        Seq::empty()
    } else {
        match search.child_at(cur) {
            None => Seq::empty(),
            Some(child) => {
                let here = if child.is_directory {
                    if depth > 0 {
                        match search.folder_spec(child.path.0) {
                            Some(folder) => files_below(
                                arc,
                                search,
                                folder.first_child,
                                search.paths.len(),
                                (depth - 1) as nat,
                            ),
                            None => Seq::empty(),
                        }
                    } else {
                        Seq::empty()
                    }
                } else {
                    match arc.file_path_position_spec(child.path.0) {
                        Some(position) => seq![position],
                        None => Seq::empty(),
                    }
                };
                here + files_below(arc, search, child.next, (fuel - 1) as nat, depth)
            },
        }
    }
}

/// The folder whose files are gathered for `path`: the folder of `path`
/// itself, or, where the alternate is asked for, the folder of the path
/// that `path` has under the alternate.
pub open spec fn gathered_folder(search: SearchIndexView, path: u64, alt: nat, needs_alt_fix: bool) -> Option<
    u64,
> {
    if needs_alt_fix {
        match search.path_entry_spec(path) {
            None => None,
            Some(entry) => alt_search_path(search, entry, alt, search.path_index.len()),
        }
    } else {
        Some(path)
    }
}

/// The files gathered for `path`.
pub open spec fn collected_files(
    arc: DirectoryTableView,
    search: SearchIndexView,
    path: u64,
    alt: nat,
    needs_alt_fix: bool,
) -> Seq<u32> {
    match gathered_folder(search, path, alt, needs_alt_fix) {
        None => Seq::empty(),
        Some(folder_hash) => match search.folder_spec(folder_hash) {
            None => Seq::empty(),
            Some(folder) => files_below(
                arc,
                search,
                folder.first_child,
                search.paths.len(),
                search.folders.len(),
            ),
        },
    }
}

/// Gathers the files that the link `first` leads to and those below the
/// directories among them.
fn collect_children(arc: &DirectoryTable, search: &SearchIndex, first: Option<usize>, depth: usize) -> (files:
    Vec<u32>)
    ensures
        files@ == files_below(arc@, search@, first, search@.paths.len(), depth as nat),
    decreases depth,
{
    let mut files: Vec<u32> = Vec::new();
    let mut cur = first;
    let mut fuel: usize = search.paths.len();
    let mut child = search.child(cur);
    while fuel > 0 && child.is_some()
        invariant
            child == search@.child_at(cur),
            files_below(arc@, search@, first, search@.paths.len(), depth as nat) == files@
                + files_below(arc@, search@, cur, fuel as nat, depth as nat),
        decreases fuel,
    {
        let entry = child.unwrap();
        let ghost before = files@;
        let ghost rest = files_below(arc@, search@, entry.next, (fuel - 1) as nat, depth as nat);
        if entry.is_directory {
            if depth > 0 {
                match search.folder(entry.path) {
                    Some(folder) => {
                        let mut below = collect_children(arc, search, folder.first_child, depth - 1);
                        files.append(&mut below);
                    },
                    None => {},
                }
            }
        } else {
            match arc.file_path_position(entry.path) {
                Some(position) => {
                    files.push(position);
                },
                None => {},
            }
        }
        proof {
            let all = files_below(arc@, search@, cur, fuel as nat, depth as nat);
            let here = files@.subrange(before.len() as int, files@.len() as int);
            assert(files@ =~= before + here);
            assert(all =~= here + rest);
            assert(before + (here + rest) =~= (before + here) + rest);
        }
        cur = entry.next;
        fuel -= 1;
        child = search.child(cur);
    }
    proof {
        assert(files@ + Seq::<u32>::empty() =~= files@);
    }
    files
}

/// Gathers the positions of the file paths of all files below the folder of
/// `path`, or, with `needs_alt_fix`, below the folder that `path` has under
/// the alternate `alt`. Gives no file where that folder is not found.
pub fn collect_files_from_path(
    arc: &DirectoryTable,
    search: &SearchIndex,
    path: Hash40,
    alt: usize,
    needs_alt_fix: bool,
) -> (files: Vec<u32>)
    ensures
        files@ == collected_files(arc@, search@, path.0, alt as nat, needs_alt_fix),
{
    let folder_hash = if needs_alt_fix {
        let entry = match search.path_entry(path) {
            Some(entry) => entry,
            None => {
                return Vec::new();
            },
        };
        match recreate_search_path_hash(search, &entry, alt) {
            Some(hash) => hash,
            None => {
                return Vec::new();
            },
        }
    } else {
        path
    };
    match search.folder(folder_hash) {
        None => Vec::new(),
        Some(folder) => collect_children(arc, search, folder.first_child, search.folders.len()),
    }
}

/// The catalog entry of a file that stands for the alternate `id`.
pub open spec fn found_entry(kind: StageKind, stage: Hash40, id: usize, normal: bool) -> CatalogEntry {
    CatalogEntry {
        stage: StageInfo { name: stage, normal_form: normal },
        alt: alt_info_spec(kind, id),
    }
}

/// The alternates among the entries that the link `cur` leads to, in the
/// order of the siblings: one for each entry whose file name stands for an
/// alternate.
pub open spec fn stage_alts(
    search: SearchIndexView,
    kind: StageKind,
    stage: Hash40,
    cur: Option<usize>,
    fuel: nat,
) -> Seq<CatalogEntry>
    decreases fuel,
{
    if fuel == 0 {
        Seq::empty()
    } else {
        match search.child_at(cur) {
            None => Seq::empty(),
            Some(path) => {
                let here = match guess_spec(path.file_name) {
                    Some(guess) => seq![found_entry(kind, stage, guess.0, guess.1)],
                    None => Seq::empty(),
                };
                here + stage_alts(search, kind, stage, path.next, (fuel - 1) as nat)
            },
        }
    }
}

/// The alternates of the stages that the link `cur` leads to, stage after
/// stage: each directory among the siblings that has a folder is a stage,
/// named as the folder is and of the kind that the directory's name tells.
pub open spec fn found_alts(search: SearchIndexView, cur: Option<usize>, fuel: nat) -> Seq<
    CatalogEntry,
>
    decreases fuel,
{
    if fuel == 0 {
        Seq::empty()
    } else {
        match search.child_at(cur) {
            None => Seq::empty(),
            Some(parent) => {
                let here = if parent.is_directory {
                    match search.folder_spec(parent.path.0) {
                        Some(folder) => stage_alts(
                            search,
                            StageKind::from_hash_spec(parent.file_name),
                            folder.file_name,
                            folder.first_child,
                            search.paths.len(),
                        ),
                        None => Seq::empty(),
                    }
                } else {
                    Seq::empty()
                };
                here + found_alts(search, parent.next, (fuel - 1) as nat)
            },
        }
    }
}

/// All alternates below the folder `stage`, in the order of the walk; none
/// where there is no such folder.
pub open spec fn discovered(search: SearchIndexView) -> Seq<CatalogEntry> {
    match search.folder_spec(str_hash("stage"@)) {
        None => Seq::empty(),
        Some(folder) => found_alts(search, folder.first_child, search.paths.len()),
    }
}

/// The place of a new entry of slot `slot` in a list: behind the last entry
/// whose slot is not greater.
pub open spec fn slot_place(list: Seq<CatalogEntry>, slot: usize) -> int
    decreases list.len(),
{
    if list.len() == 0 {
        0
    } else if list.last().alt.slot_value <= slot {
        list.len() as int
    } else {
        slot_place(list.drop_last(), slot)
    }
}

/// The entries ordered by slot, those of equal slots in the order in which
/// they came.
pub open spec fn sorted_by_slot(found: Seq<CatalogEntry>) -> Seq<CatalogEntry>
    decreases found.len(),
{
    if found.len() == 0 {
        Seq::empty()
    } else {
        let before = sorted_by_slot(found.drop_last());
        before.insert(slot_place(before, found.last().alt.slot_value), found.last())
    }
}

/// No entry has a greater slot than one behind it.
pub open spec fn ascending(list: Seq<CatalogEntry>) -> bool {
    forall|i: int, j: int|
        0 <= i < j < list.len() ==> list[i].alt.slot_value <= list[j].alt.slot_value
}

/// No alternate has a greater slot than one behind it.
pub open spec fn ascending_alts(list: Seq<AltInfo>) -> bool {
    forall|i: int, j: int| 0 <= i < j < list.len() ==> list[i].slot_value <= list[j].slot_value
}

/// What the place of a new entry is: within the list, with a slot that is
/// not greater just before it and greater slots from it on.
proof fn lemma_slot_place(list: Seq<CatalogEntry>, slot: usize)
    ensures
        0 <= slot_place(list, slot) <= list.len(),
        slot_place(list, slot) > 0 ==> list[slot_place(list, slot) - 1].alt.slot_value <= slot,
        forall|k: int|
            slot_place(list, slot) <= k < list.len() ==> (#[trigger] list[k]).alt.slot_value
                > slot,
    decreases list.len(),
{
    if list.len() == 0 {
    } else if list.last().alt.slot_value <= slot {
    } else {
        lemma_slot_place(list.drop_last(), slot);
        assert forall|k: int| slot_place(list, slot) <= k < list.len() implies (
        #[trigger] list[k]).alt.slot_value > slot by {
            if k < list.len() - 1 {
                assert(list.drop_last()[k] == list[k]);
            }
        }
    }
}

/// Ordering by slot gives an ascending list of as many entries.
pub proof fn lemma_sorted_ascending(found: Seq<CatalogEntry>)
    ensures
        ascending(sorted_by_slot(found)),
        sorted_by_slot(found).len() == found.len(),
    decreases found.len(),
{
    if found.len() == 0 {
    } else {
        let before = sorted_by_slot(found.drop_last());
        lemma_sorted_ascending(found.drop_last());
        lemma_slot_place(before, found.last().alt.slot_value);
        let place = slot_place(before, found.last().alt.slot_value);
        let after = before.insert(place, found.last());
        assert forall|i: int, j: int| 0 <= i < j < after.len() implies after[i].alt.slot_value
            <= after[j].alt.slot_value by {
            if j < place {
                assert(after[i] == before[i] && after[j] == before[j]);
            } else if j == place {
                assert(after[i] == before[i]);
                if i < place - 1 {
                    assert(before[i].alt.slot_value <= before[place - 1].alt.slot_value);
                }
            } else if i < place {
                assert(after[i] == before[i] && after[j] == before[j - 1]);
            } else if i == place {
                assert(after[j] == before[j - 1]);
            } else {
                assert(after[i] == before[i - 1] && after[j] == before[j - 1]);
            }
        }
    }
}

/// Every alternate of a stage in a list of entries is that of an entry of
/// the list, and the alternates keep the order of their entries.
proof fn lemma_alts_of_ascending(entries: Seq<CatalogEntry>, stage: StageInfo)
    requires
        ascending(entries),
    ensures
        ascending_alts(alts_of(entries, stage)),
        forall|k: int|
            0 <= k < alts_of(entries, stage).len() ==> exists|i: int|
                0 <= i < entries.len() && entries[i].alt == #[trigger] alts_of(entries, stage)[k],
    decreases entries.len(),
{
    if entries.len() == 0 {
    } else {
        let shorter = entries.drop_last();
        assert(ascending(shorter));
        lemma_alts_of_ascending(shorter, stage);
        let before = alts_of(shorter, stage);
        let all = alts_of(entries, stage);
        assert forall|k: int| 0 <= k < all.len() implies exists|i: int|
            0 <= i < entries.len() && entries[i].alt == #[trigger] all[k] by {
            if k < before.len() {
                let i = choose|i: int| 0 <= i < shorter.len() && shorter[i].alt == before[k];
                assert(entries[i].alt == all[k]);
            } else {
                assert(entries[entries.len() - 1].alt == all[k]);
            }
        }
        assert forall|i: int, j: int| 0 <= i < j < all.len() implies all[i].slot_value
            <= all[j].slot_value by {
            if j < before.len() {
            } else {
                let w = choose|w: int| 0 <= w < shorter.len() && shorter[w].alt == before[i];
                assert(entries[w].alt.slot_value <= entries[entries.len() - 1].alt.slot_value);
            }
        }
    }
}

/// In a catalog ordered by slot, the alternates of every stage's form are
/// in ascending order of their slots.
pub proof fn lemma_catalog_ascending(found: Seq<CatalogEntry>, stage: StageInfo)
    ensures
        ascending_alts(alts_of(sorted_by_slot(found), stage)),
{
    lemma_sorted_ascending(found);
    lemma_alts_of_ascending(sorted_by_slot(found), stage);
}

/// Gathers the alternates below one stage's folder.
fn collect_stage_alts(
    search: &SearchIndex,
    kind: StageKind,
    stage: Hash40,
    first: Option<usize>,
    found: &mut Vec<CatalogEntry>,
)
    ensures
        final(found)@ == old(found)@ + stage_alts(
            search@,
            kind,
            stage,
            first,
            search@.paths.len() as nat,
        ),
{
    let mut cur = first;
    let mut fuel: usize = search.paths.len();
    let mut child = search.child(cur);
    let ghost total = stage_alts(search@, kind, stage, first, search@.paths.len() as nat);
    proof {
        assert(old(found)@ + total =~= found@ + total);
    }
    while fuel > 0 && child.is_some()
        invariant
            child == search@.child_at(cur),
            old(found)@ + total == found@ + stage_alts(search@, kind, stage, cur, fuel as nat),
        decreases fuel,
    {
        let entry = child.unwrap();
        let ghost before = found@;
        let ghost rest = stage_alts(search@, kind, stage, entry.next, (fuel - 1) as nat);
        match guess_hash(entry.file_name) {
            Some((id, normal)) => {
                found.push(
                    CatalogEntry {
                        stage: StageInfo { name: stage, normal_form: normal },
                        alt: AltInfo {
                            slot_value: id,
                            wifi_safe: true,
                            ui_paths: UiPaths::new(kind, id),
                        },
                    },
                );
            },
            None => {},
        }
        proof {
            let here = found@.subrange(before.len() as int, found@.len() as int);
            assert(found@ =~= before + here);
            assert(stage_alts(search@, kind, stage, cur, fuel as nat) =~= here + rest);
            assert(before + (here + rest) =~= (before + here) + rest);
        }
        cur = entry.next;
        fuel -= 1;
        child = search.child(cur);
    }
    proof {
        assert(found@ + Seq::<CatalogEntry>::empty() =~= found@);
    }
}

/// Builds the catalog of alternates: every file below a stage's folder
/// whose name stands for an alternate gives one entry, and the entries are
/// ordered by slot, so that the alternates of each stage's form are in
/// ascending order. The catalog is empty where there is no folder `stage`.
pub fn build_alt_lookups(search: &SearchIndex) -> (catalog: Catalog)
    ensures
        catalog.entries@ == sorted_by_slot(discovered(search@)),
        ascending(catalog.entries@),
        forall|stage: StageInfo| ascending_alts(#[trigger] catalog.alts_spec(stage)),
{
    let mut found: Vec<CatalogEntry> = Vec::new();
    match search.folder(Hash40::new("stage")) {
        None => {},
        Some(folder) => {
            let mut cur = folder.first_child;
            let mut fuel: usize = search.paths.len();
            let mut child = search.child(cur);
            proof {
                assert(found@ + discovered(search@) =~= discovered(search@));
            }
            while fuel > 0 && child.is_some()
                invariant
                    child == search@.child_at(cur),
                    discovered(search@) == found@ + found_alts(search@, cur, fuel as nat),
                decreases fuel,
            {
                let parent = child.unwrap();
                let ghost before = found@;
                let ghost rest = found_alts(search@, parent.next, (fuel - 1) as nat);
                if parent.is_directory {
                    match search.folder(parent.path) {
                        Some(stage_folder) => {
                            collect_stage_alts(
                                search,
                                StageKind::from_hash(parent.file_name),
                                stage_folder.file_name,
                                stage_folder.first_child,
                                &mut found,
                            );
                        },
                        None => {},
                    }
                }
                proof {
                    let here = found@.subrange(before.len() as int, found@.len() as int);
                    assert(found@ =~= before + here);
                    assert(found_alts(search@, cur, fuel as nat) =~= here + rest);
                    assert(before + (here + rest) =~= (before + here) + rest);
                }
                cur = parent.next;
                fuel -= 1;
                child = search.child(cur);
            }
            proof {
                assert(found@ + Seq::<CatalogEntry>::empty() =~= found@);
            }
        },
    }
    let mut catalog = Catalog::new();
    let mut i: usize = 0;
    while i < found.len()
        invariant
            i <= found.len(),
            catalog.entries@ == sorted_by_slot(found@.take(i as int)),
        decreases found.len() - i,
    {
        proof {
            assert(found@.take(i + 1).drop_last() =~= found@.take(i as int));
        }
        let entry = found[i];
        let mut place: usize = catalog.entries.len();
        proof {
            assert(catalog.entries@.take(place as int) =~= catalog.entries@);
        }
        while place > 0 && catalog.entries[place - 1].alt.slot_value > entry.alt.slot_value
            invariant
                place <= catalog.entries.len(),
                slot_place(catalog.entries@, entry.alt.slot_value) == slot_place(
                    catalog.entries@.take(place as int),
                    entry.alt.slot_value,
                ),
            decreases place,
        {
            proof {
                assert(catalog.entries@.take(place as int).drop_last()
                    =~= catalog.entries@.take(place - 1));
            }
            place -= 1;
        }
        proof {
            let head = catalog.entries@.take(place as int);
            if place > 0 {
                assert(head.last() == catalog.entries@[place - 1]);
            }
            assert(slot_place(head, entry.alt.slot_value) == place);
        }
        catalog.entries.insert(place, entry);
        i += 1;
    }
    proof {
        assert(found@.take(i as int) =~= found@);
        lemma_sorted_ascending(found@);
        assert forall|stage: StageInfo| ascending_alts(#[trigger] catalog.alts_spec(stage)) by {
            lemma_catalog_ascending(found@, stage);
        }
    }
    catalog
}

/// No two entries are the same alternate of the same stage's form.
pub open spec fn distinct_alts(list: Seq<CatalogEntry>) -> bool {
    forall|i: int, j: int|
        0 <= i < j < list.len() ==> !((#[trigger] list[i]).stage == (#[trigger] list[j]).stage
            && list[i].alt.slot_value == list[j].alt.slot_value)
}

/// Ordering by slot keeps the entries: each entry of the ordered list is
/// one of those that were found.
proof fn lemma_sorted_members(found: Seq<CatalogEntry>)
    ensures
        forall|k: int|
            0 <= k < sorted_by_slot(found).len() ==> found.contains(
                #[trigger] sorted_by_slot(found)[k],
            ),
    decreases found.len(),
{
    if found.len() > 0 {
        let shorter = found.drop_last();
        let before = sorted_by_slot(shorter);
        lemma_sorted_members(shorter);
        lemma_slot_place(before, found.last().alt.slot_value);
        let place = slot_place(before, found.last().alt.slot_value);
        let after = before.insert(place, found.last());
        assert forall|k: int| 0 <= k < after.len() implies found.contains(#[trigger] after[k]) by {
            if k == place {
                assert(found[found.len() - 1] == after[k]);
            } else {
                let b = if k < place {
                    k
                } else {
                    k - 1
                };
                assert(after[k] == before[b]);
                assert(shorter.contains(before[b]));
                let w = choose|w: int| 0 <= w < shorter.len() && shorter[w] == before[b];
                assert(found[w] == after[k]);
            }
        }
    }
}

/// Ordering by slot keeps entries apart that were apart.
proof fn lemma_sorted_distinct(found: Seq<CatalogEntry>)
    requires
        distinct_alts(found),
    ensures
        distinct_alts(sorted_by_slot(found)),
    decreases found.len(),
{
    if found.len() > 0 {
        let shorter = found.drop_last();
        let before = sorted_by_slot(shorter);
        assert(distinct_alts(shorter)) by {
            assert forall|i: int, j: int| 0 <= i < j < shorter.len() implies !((
            #[trigger] shorter[i]).stage == (#[trigger] shorter[j]).stage
                && shorter[i].alt.slot_value == shorter[j].alt.slot_value) by {
                assert(shorter[i] == found[i] && shorter[j] == found[j]);
            }
        }
        lemma_sorted_distinct(shorter);
        lemma_sorted_members(shorter);
        lemma_slot_place(before, found.last().alt.slot_value);
        let place = slot_place(before, found.last().alt.slot_value);
        let last = found.last();
        let after = before.insert(place, last);
        assert forall|b: int| 0 <= b < before.len() implies !((#[trigger] before[b]).stage
            == last.stage && before[b].alt.slot_value == last.alt.slot_value) by {
            assert(shorter.contains(before[b]));
            let w = choose|w: int| 0 <= w < shorter.len() && shorter[w] == before[b];
            assert(found[w] == before[b]);
            assert(found[found.len() - 1] == last);
        }
        assert forall|i: int, j: int| 0 <= i < j < after.len() implies !((#[trigger] after[i]).stage
            == (#[trigger] after[j]).stage && after[i].alt.slot_value
            == after[j].alt.slot_value) by {
            let bi = if i < place {
                i
            } else {
                i - 1
            };
            let bj = if j < place {
                j
            } else {
                j - 1
            };
            if i == place {
                assert(after[j] == before[bj]);
            } else if j == place {
                assert(after[i] == before[bi]);
            } else {
                assert(after[i] == before[bi] && after[j] == before[bj]);
            }
        }
    }
}

/// Entry `i` of the list is the alternate `alt` of the stage's form.
pub open spec fn holds_alt(entries: Seq<CatalogEntry>, stage: StageInfo, alt: AltInfo, i: int) -> bool {
    0 <= i < entries.len() && entries[i].stage == stage && entries[i].alt == alt
}

/// Some entry of the list is the alternate `alt` of the stage's form.
pub open spec fn has_alt(entries: Seq<CatalogEntry>, stage: StageInfo, alt: AltInfo) -> bool {
    exists|i: int| holds_alt(entries, stage, alt, i)
}

/// In an ascending list of entries that are apart, the alternates of one
/// stage's form have strictly ascending slots.
proof fn lemma_alts_of_strict(entries: Seq<CatalogEntry>, stage: StageInfo)
    requires
        ascending(entries),
        distinct_alts(entries),
    ensures
        strictly_ascending_alts(alts_of(entries, stage)),
        forall|k: int|
            0 <= k < alts_of(entries, stage).len() ==> #[trigger] has_alt(
                entries,
                stage,
                alts_of(entries, stage)[k],
            ),
    decreases entries.len(),
{
    if entries.len() == 0 {
    } else {
        let shorter = entries.drop_last();
        assert(ascending(shorter));
        assert(distinct_alts(shorter)) by {
            assert forall|i: int, j: int| 0 <= i < j < shorter.len() implies !((
            #[trigger] shorter[i]).stage == (#[trigger] shorter[j]).stage
                && shorter[i].alt.slot_value == shorter[j].alt.slot_value) by {
                assert(shorter[i] == entries[i] && shorter[j] == entries[j]);
            }
        }
        lemma_alts_of_strict(shorter, stage);
        let before = alts_of(shorter, stage);
        let all = alts_of(entries, stage);
        let end = entries.len() - 1;
        assert forall|k: int| 0 <= k < all.len() implies #[trigger] has_alt(
            entries,
            stage,
            all[k],
        ) by {
            if k < before.len() {
                assert(has_alt(shorter, stage, before[k]));
                let i = choose|i: int| holds_alt(shorter, stage, before[k], i);
                assert(holds_alt(entries, stage, all[k], i));
            } else {
                assert(holds_alt(entries, stage, all[k], end));
            }
        }
        assert forall|i: int, j: int| 0 <= i < j < all.len() implies all[i].slot_value
            < all[j].slot_value by {
            if j < before.len() {
            } else {
                assert(has_alt(shorter, stage, before[i]));
                let w = choose|w: int| holds_alt(shorter, stage, before[i], w);
                assert(holds_alt(shorter, stage, before[i], w));
                assert(entries[w].alt.slot_value <= entries[end].alt.slot_value);
                assert(!(entries[w].stage == entries[end].stage && entries[w].alt.slot_value
                    == entries[end].alt.slot_value));
            }
        }
    }
}

/// Where no alternate of a stage's form was found twice, the alternates of
/// every stage's form are in strictly ascending order of their slots in the
/// catalog.
pub proof fn lemma_catalog_strictly_ascending(found: Seq<CatalogEntry>, stage: StageInfo)
    requires
        distinct_alts(found),
    ensures
        strictly_ascending_alts(alts_of(sorted_by_slot(found), stage)),
{
    lemma_sorted_ascending(found);
    lemma_sorted_distinct(found);
    lemma_alts_of_strict(sorted_by_slot(found), stage);
}

/// The place of a new alternate of slot `slot` in a list: behind the last
/// alternate whose slot is not greater.
pub open spec fn alt_slot_place(list: Seq<AltInfo>, slot: usize) -> int
    decreases list.len(),
{
    if list.len() == 0 {
        0
    } else if list.last().slot_value <= slot {
        list.len() as int
    } else {
        alt_slot_place(list.drop_last(), slot)
    }
}

/// The alternates ordered by slot, those of equal slots in the order in
/// which they came.
pub open spec fn sorted_alts(list: Seq<AltInfo>) -> Seq<AltInfo>
    decreases list.len(),
{
    if list.len() == 0 {
        Seq::empty()
    } else {
        let before = sorted_alts(list.drop_last());
        before.insert(alt_slot_place(before, list.last().slot_value), list.last())
    }
}

/// Where every entry has a slot up to `slot`, so has every alternate of a
/// stage among them.
proof fn lemma_alts_up_to(entries: Seq<CatalogEntry>, stage: StageInfo, slot: usize)
    requires
        forall|j: int| 0 <= j < entries.len() ==> (#[trigger] entries[j]).alt.slot_value <= slot,
    ensures
        forall|k: int|
            0 <= k < alts_of(entries, stage).len() ==> (#[trigger] alts_of(
                entries,
                stage,
            )[k]).slot_value <= slot,
    decreases entries.len(),
{
    if entries.len() > 0 {
        let shorter = entries.drop_last();
        assert forall|j: int| 0 <= j < shorter.len() implies (#[trigger] shorter[j]).alt.slot_value
            <= slot by {
            assert(shorter[j] == entries[j]);
        }
        lemma_alts_up_to(shorter, stage, slot);
        assert(entries[entries.len() - 1] == entries.last());
        let before = alts_of(shorter, stage);
        let all = alts_of(entries, stage);
        assert forall|k: int| 0 <= k < all.len() implies (#[trigger] all[k]).slot_value
            <= slot by {
            if k < before.len() {
                assert(all[k] == before[k]);
            }
        }
    }
}

/// Where every entry has a slot above `slot`, so has every alternate of a
/// stage among them.
proof fn lemma_alts_above(entries: Seq<CatalogEntry>, stage: StageInfo, slot: usize)
    requires
        forall|j: int| 0 <= j < entries.len() ==> (#[trigger] entries[j]).alt.slot_value > slot,
    ensures
        forall|k: int|
            0 <= k < alts_of(entries, stage).len() ==> (#[trigger] alts_of(
                entries,
                stage,
            )[k]).slot_value > slot,
    decreases entries.len(),
{
    if entries.len() > 0 {
        let shorter = entries.drop_last();
        assert forall|j: int| 0 <= j < shorter.len() implies (#[trigger] shorter[j]).alt.slot_value
            > slot by {
            assert(shorter[j] == entries[j]);
        }
        lemma_alts_above(shorter, stage, slot);
        assert(entries[entries.len() - 1] == entries.last());
        let before = alts_of(shorter, stage);
        let all = alts_of(entries, stage);
        assert forall|k: int| 0 <= k < all.len() implies (#[trigger] all[k]).slot_value > slot by {
            if k < before.len() {
                assert(all[k] == before[k]);
            }
        }
    }
}

/// Behind alternates of slots up to `slot` and before alternates of
/// greater slots lies the place of a new alternate of that slot.
proof fn lemma_alt_slot_place_split(low: Seq<AltInfo>, high: Seq<AltInfo>, slot: usize)
    requires
        forall|k: int| 0 <= k < low.len() ==> (#[trigger] low[k]).slot_value <= slot,
        forall|k: int| 0 <= k < high.len() ==> (#[trigger] high[k]).slot_value > slot,
    ensures
        alt_slot_place(low + high, slot) == low.len(),
    decreases high.len(),
{
    if high.len() == 0 {
        assert(low + high =~= low);
        if low.len() > 0 {
            assert(low.last() == low[low.len() - 1]);
        }
    } else {
        assert((low + high).last() == high[high.len() - 1]);
        assert((low + high).drop_last() =~= low + high.drop_last());
        assert forall|k: int| 0 <= k < high.drop_last().len() implies (#[trigger] high.drop_last()[k]).slot_value
            > slot by {
            assert(high.drop_last()[k] == high[k]);
        }
        lemma_alt_slot_place_split(low, high.drop_last(), slot);
    }
}

/// The list that the catalog holds for a stage's form is the alternates
/// found for that form, ordered by slot, those of equal slots in the order
/// in which they were found.
pub proof fn lemma_catalog_lists(found: Seq<CatalogEntry>, stage: StageInfo)
    ensures
        alts_of(sorted_by_slot(found), stage) == sorted_alts(alts_of(found, stage)),
    decreases found.len(),
{
    if found.len() == 0 {
        assert(alts_of(sorted_by_slot(found), stage) =~= Seq::<AltInfo>::empty());
        assert(sorted_alts(alts_of(found, stage)) =~= Seq::<AltInfo>::empty());
    } else {
        let shorter = found.drop_last();
        let entry = found.last();
        let slot = entry.alt.slot_value;
        let before = sorted_by_slot(shorter);
        lemma_catalog_lists(shorter, stage);
        lemma_sorted_ascending(shorter);
        lemma_slot_place(before, slot);
        let place = slot_place(before, slot);
        let after = sorted_by_slot(found);
        let head = before.take(place);
        let tail = before.skip(place);
        assert(before =~= head + tail);
        assert(after =~= (head + seq![entry]) + tail);
        lemma_alts_of_concat(head, tail, stage);
        lemma_alts_of_concat(head, seq![entry], stage);
        lemma_alts_of_concat(head + seq![entry], tail, stage);
        lemma_alts_of_one(entry, stage);
        let low = alts_of(head, stage);
        let high = alts_of(tail, stage);
        if entry.stage == stage {
            assert forall|j: int| 0 <= j < head.len() implies (#[trigger] head[j]).alt.slot_value
                <= slot by {
                assert(head[j] == before[j]);
                if j < place - 1 {
                    assert(before[j].alt.slot_value <= before[place - 1].alt.slot_value);
                }
            }
            assert forall|j: int| 0 <= j < tail.len() implies (#[trigger] tail[j]).alt.slot_value
                > slot by {
                assert(tail[j] == before[place + j]);
            }
            lemma_alts_up_to(head, stage, slot);
            lemma_alts_above(tail, stage, slot);
            lemma_alt_slot_place_split(low, high, slot);
            let known = alts_of(shorter, stage);
            assert(alts_of(found, stage) == known.push(entry.alt));
            assert(known.push(entry.alt).drop_last() =~= known);
            assert(known.push(entry.alt).last() == entry.alt);
            assert(alts_of(after, stage) =~= (low + high).insert(low.len() as int, entry.alt));
        } else {
            assert(low + Seq::<AltInfo>::empty() =~= low);
        }
    }
}

} // verus!
