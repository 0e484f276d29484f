use std::collections::HashMap;

use stage_alts::archive::{
    lookup, DirInfo, DirectoryTable, FileInfo, FolderEntry, HashToIndex, PathEntry, SearchIndex,
    NO_INDEX,
};
use stage_alts::backup::BackupTable;
use stage_alts::hash::Hash40;
use stage_alts::loading::{
    default_excluded, initial_load, is_stage_directory, on_asset_prepare, patch_on_load,
    restore_on_load, snapshot, Skipped,
};
use stage_alts::manager::{
    AltManager, PlayableAlts, SelectedAltInfo, StageInfo, StageKind, UiPaths,
};
use stage_alts::patching::{patch_dir_info, patch_file_path, restore_dir_info};
use stage_alts::path::{ConcatHash, PrettyPath};
use stage_alts::search::{
    build_alt_lookups, collect_files_from_path, is_descendant_of, recreate_search_path_hash,
};
use stage_alts::search_patching::{patch_search_section, restore_search_section};
use stage_alts::sorting::{init_hash_lookup, sort_folder_contents, NameTable};

fn h(text: &str) -> Hash40 {
    Hash40::new(text)
}

struct World {
    search: SearchIndex,
    arc: DirectoryTable,
    last: HashMap<u64, usize>,
}

impl World {
    fn new() -> World {
        let root = h("/");
        World {
            search: SearchIndex {
                folder_index: vec![HashToIndex { hash: root, index: 0 }],
                folders: vec![FolderEntry {
                    path: root,
                    parent: root,
                    file_name: root,
                    first_child: None,
                }],
                path_index: vec![],
                path_list_indices: vec![],
                paths: vec![],
            },
            arc: DirectoryTable {
                dir_index: vec![],
                dir_infos: vec![],
                file_path_index: vec![],
                file_paths: vec![],
                file_info_indices: vec![],
                file_infos: vec![],
            },
            last: HashMap::new(),
        }
    }

    fn add(&mut self, parent: &str, name: &str, is_directory: bool) -> usize {
        let full = if parent == "/" { name.to_string() } else { format!("{}/{}", parent, name) };
        let position = self.search.paths.len();
        self.search.paths.push(PathEntry {
            path: h(&full),
            parent: h(parent),
            file_name: h(name),
            next: None,
            is_directory,
        });
        self.search.path_list_indices.push(position as u32);
        self.search.path_index.push(HashToIndex { hash: h(&full), index: position as u32 });
        let row = lookup(&self.search.folder_index, h(parent)).unwrap();
        let folder = self.search.folder_index[row].index as usize;
        match self.last.get(&h(parent).0) {
            Some(last) => self.search.paths[*last].next = Some(position),
            None => self.search.folders[folder].first_child = Some(position),
        }
        self.last.insert(h(parent).0, position);
        if is_directory {
            self.search.folders.push(FolderEntry {
                path: h(&full),
                parent: h(parent),
                file_name: h(name),
                first_child: None,
            });
            self.search.folder_index.push(HashToIndex {
                hash: h(&full),
                index: (self.search.folders.len() - 1) as u32,
            });
        } else {
            let file = self.arc.file_paths.len() as u32;
            self.arc.file_paths.push(HashToIndex { hash: h(&full), index: file });
            self.arc.file_info_indices.push(file);
            self.arc.file_infos.push(FileInfo { file_path_index: file, file_info_indice_index: file });
            self.arc.file_path_index.push(HashToIndex { hash: h(&full), index: file });
        }
        position
    }

    fn add_dir_info(&mut self, path: &str, start: u32, count: u32) {
        self.arc.dir_infos.push(DirInfo { file_info_start_index: start, file_count: count });
        self.arc.dir_index.push(HashToIndex {
            hash: h(path),
            index: (self.arc.dir_infos.len() - 1) as u32,
        });
    }
}

const MARIO: &str = "stage/mario_stage";

fn world() -> World {
    let mut w = World::new();
    w.add("/", "stage", true);
    w.add("stage", "mario_stage", true);
    w.add(MARIO, "normal", true);
    w.add("stage/mario_stage/normal", "a.bin", false);
    w.add("stage/mario_stage/normal", "b.bin", false);
    w.add(MARIO, "normal_s03", true);
    w.add("stage/mario_stage/normal_s03", "a.bin", false);
    w.add("stage/mario_stage/normal_s03", "b.bin", false);
    w.add(MARIO, "normal_s01", true);
    w.add("stage/mario_stage/normal_s01", "a.bin", false);
    w.add("stage/mario_stage/normal_s01", "b.bin", false);
    w.add(MARIO, "normal_s02", true);
    w.add("stage/mario_stage/normal_s02", "a.bin", false);
    w.add(MARIO, "battle", true);
    w.add("stage/mario_stage/battle", "a.bin", false);
    w.add(MARIO, "battle_s01", true);
    w.add("stage/mario_stage/battle_s01", "a.bin", false);
    w.add("stage", "common", true);
    w.add("stage/common", "shared.bin", false);
    w.add_dir_info(MARIO, 0, 9);
    w.add_dir_info("stage/common", 9, 1);
    w
}

fn mario(normal_form: bool) -> StageInfo {
    StageInfo { name: h("mario_stage"), normal_form }
}

fn names() -> NameTable {
    let all = [
        "stage", "mario_stage", "normal", "normal_s01", "normal_s02", "normal_s03", "battle",
        "battle_s01", "common", "a.bin", "b.bin",
    ];
    init_hash_lookup(false, all.iter().map(|name| name.to_string()).collect())
}

fn slots(manager: &AltManager, stage: StageInfo) -> Vec<usize> {
    manager.alts.alts(stage).iter().map(|alt| alt.slot_value).collect()
}

fn manager_of(w: &World) -> AltManager {
    let mut manager = AltManager::new();
    manager.alts = build_alt_lookups(&w.search);
    manager.backup_filepaths = snapshot(&w.arc.file_paths);
    manager.backup_searchpaths = snapshot(&w.search.path_index);
    manager
}

#[test]
fn lookups_find_what_the_tables_hold() {
    let w = world();
    assert_eq!(lookup(&w.search.path_index, h("stage")), Some(0));
    assert_eq!(lookup(&w.search.path_index, h("nothing")), None);
    assert_eq!(w.search.path_slot(h("stage/mario_stage/normal")), Some(2));
    let entry = w.search.path_entry(h("stage/mario_stage/normal/a.bin")).unwrap();
    assert_eq!(entry.file_name, h("a.bin"));
    assert_eq!(entry.parent, h("stage/mario_stage/normal"));
    assert!(!entry.is_directory);
    assert_eq!(entry.next, Some(4));
    assert_eq!(w.search.path_entry(h("nothing")), None);
    let folder = w.search.folder(h(MARIO)).unwrap();
    assert_eq!(folder.first_child, Some(2));
    assert_eq!(w.search.folder(h("stage/mario_stage/normal/a.bin")), None);
    assert_eq!(w.search.child(Some(3)).unwrap().path, h("stage/mario_stage/normal/a.bin"));
    assert_eq!(w.search.child(Some(1000)), None);
    assert_eq!(w.search.child(None), None);
    assert_eq!(w.arc.dir(h(MARIO)), Some(DirInfo { file_info_start_index: 0, file_count: 9 }));
    assert_eq!(w.arc.dir(h("stage")), None);
    assert_eq!(w.arc.file_path_position(h("stage/mario_stage/normal_s01/a.bin")), Some(4));
    assert_eq!(
        w.arc.file_info(h("stage/mario_stage/normal_s01/b.bin")),
        Some(FileInfo { file_path_index: 5, file_info_indice_index: 5 })
    );
    assert_eq!(w.arc.file_info(h("nothing")), None);
}

#[test]
fn lookup_takes_the_first_of_equal_hashes() {
    let table = vec![
        HashToIndex { hash: Hash40(7), index: 1 },
        HashToIndex { hash: Hash40(3), index: 2 },
        HashToIndex { hash: Hash40(7), index: 3 },
    ];
    assert_eq!(lookup(&table, Hash40(7)), Some(0));
    assert_eq!(lookup(&table, Hash40(3)), Some(1));
    assert_eq!(lookup(&table, Hash40(4)), None);
}

#[test]
fn lookup_through_missing_links_fails() {
    let mut w = world();
    w.search.path_index[3].index = NO_INDEX;
    assert_eq!(w.search.path_entry(h("stage/mario_stage/normal/a.bin")), None);
    w.search.path_index[3].index = 5000;
    assert_eq!(w.search.path_entry(h("stage/mario_stage/normal/a.bin")), None);
    w.search.path_index[3].index = 3;
    w.search.path_list_indices[3] = NO_INDEX;
    assert_eq!(w.search.path_entry(h("stage/mario_stage/normal/a.bin")), None);
    w.search.folder_index[1].index = NO_INDEX;
    assert_eq!(w.search.folder(h("stage")), None);
}

#[test]
fn redirect_writes_are_checked() {
    let mut w = world();
    let before = w.search.clone();
    assert!(!w.search.set_path_redirect(1000, 1));
    assert_eq!(w.search, before);
    assert!(w.search.set_path_redirect(2, 8));
    assert_eq!(w.search.path_index[2], HashToIndex { hash: h("stage/mario_stage/normal"), index: 8 });
    assert!(!w.search.set_next(1000, None));
    assert!(w.search.set_next(3, None));
    assert_eq!(w.search.paths[3].next, None);
    assert!(!w.search.set_first_child(h("nothing"), None));
    assert!(w.search.set_first_child(h(MARIO), Some(5)));
    assert_eq!(w.search.folder(h(MARIO)).unwrap().first_child, Some(5));
    let arc = w.arc.clone();
    assert!(!w.arc.set_file_redirect(1000, 1));
    assert_eq!(w.arc, arc);
    assert!(w.arc.set_file_redirect(0, 4));
    assert_eq!(w.arc.file_infos[0].file_info_indice_index, 4);
    assert_eq!(w.arc.file_paths[0].index, 4);
}

#[test]
fn pretty_rebuilds_the_components() {
    let w = world();
    let path = h("stage/mario_stage/normal/a.bin").pretty(&w.search);
    assert_eq!(
        path.components().clone(),
        vec![h("stage"), h("mario_stage"), h("normal"), h("a.bin")]
    );
    assert_eq!(path.to_whole(), h("stage/mario_stage/normal/a.bin"));
    assert_eq!(path.sub_range(2), h(MARIO));
    assert_eq!(path.sub_range(1), h("stage"));
    assert_eq!(path.sub_range(0), Hash40(0));
    assert_eq!(path.sub_range(10), h("stage/mario_stage/normal/a.bin"));
}

#[test]
fn pretty_of_an_unknown_hash_is_the_hash() {
    let w = world();
    let path = h("nothing/at/all").pretty(&w.search);
    assert_eq!(path.components, vec![h("nothing/at/all")]);
}

#[test]
fn replace_changes_every_equal_component() {
    let mut path = PrettyPath { components: vec![h("a"), h("b"), h("a")] };
    assert!(path.replace(h("a"), h("c")));
    assert_eq!(path.components, vec![h("c"), h("b"), h("c")]);
    assert!(!path.replace(h("a"), h("d")));
    assert_eq!(path.components, vec![h("c"), h("b"), h("c")]);
}

#[test]
fn patch_file_path_names_the_alternate() {
    let w = world();
    let normal = patch_file_path(&w.search, h("stage/mario_stage/normal/a.bin"), 1).unwrap();
    assert_eq!(normal.to_whole(), h("stage/mario_stage/normal_s01/a.bin"));
    let battle = patch_file_path(&w.search, h("stage/mario_stage/battle/a.bin"), 12).unwrap();
    assert_eq!(battle.to_whole(), h("stage/mario_stage/battle_s12/a.bin"));
    let folder = patch_file_path(&w.search, h("stage/mario_stage/normal"), 100).unwrap();
    assert_eq!(folder.to_whole(), h("stage/mario_stage/normal_s100"));
}

#[test]
fn patch_file_path_fails_without_a_form() {
    let w = world();
    assert!(patch_file_path(&w.search, h("stage/common/shared.bin"), 1).is_none());
    assert!(patch_file_path(&w.search, h("stage/mario_stage/normal_s01/a.bin"), 1).is_none());
    assert!(patch_file_path(&w.search, h("nothing"), 1).is_none());
}

#[test]
fn catalog_lists_three_alternates_in_order() {
    let w = world();
    let manager = manager_of(&w);
    assert_eq!(slots(&manager, mario(true)), vec![1, 2, 3]);
    assert_eq!(slots(&manager, mario(false)), vec![1]);
    assert_eq!(manager.alts.alt_count(mario(true)), 3);
    assert_eq!(manager.alts.alt_count(StageInfo { name: h("common"), normal_form: true }), 0);
    let first = manager.nth_alt(mario(true), 1).unwrap();
    assert!(first.wifi_safe);
    assert_eq!(first.ui_paths, UiPaths::new(StageKind::Normal(h("mario_stage")), 1));
}

#[test]
fn catalog_is_empty_without_a_stage_folder() {
    let mut w = World::new();
    w.add("/", "fighter", true);
    w.add("fighter", "normal_s01", true);
    assert_eq!(build_alt_lookups(&w.search).entries.len(), 0);
}

#[test]
fn catalog_slots_ascend_for_every_stage() {
    let mut w = world();
    w.add("stage", "zelda_tower", true);
    w.add("stage/zelda_tower", "battle_s120", true);
    w.add("stage/zelda_tower", "battle_s07", true);
    w.add("stage/zelda_tower", "normal_s07", true);
    w.add("stage/zelda_tower", "battle_s02", true);
    let manager = manager_of(&w);
    let zelda = StageInfo { name: h("zelda_tower"), normal_form: false };
    assert_eq!(slots(&manager, zelda), vec![2, 7, 120]);
    assert_eq!(slots(&manager, StageInfo { name: h("zelda_tower"), normal_form: true }), vec![7]);
    assert_eq!(slots(&manager, mario(true)), vec![1, 2, 3]);
}

#[test]
fn add_alt_puts_the_alternate_at_its_place() {
    let mut manager = AltManager::new();
    manager.add_alt(mario(true), 5, StageKind::Normal(h("mario_stage")));
    manager.add_alt(mario(false), 9, StageKind::Normal(h("mario_stage")));
    manager.add_alt(mario(true), 2, StageKind::Normal(h("mario_stage")));
    assert_eq!(slots(&manager, mario(true)), vec![2, 5]);
    assert_eq!(slots(&manager, mario(false)), vec![9]);
    manager.add_alt(mario(true), 3, StageKind::Normal(h("mario_stage")));
    manager.add_alt(mario(true), 7, StageKind::Normal(h("mario_stage")));
    manager.add_alt(mario(true), 1, StageKind::Normal(h("mario_stage")));
    assert_eq!(slots(&manager, mario(true)), vec![1, 2, 3, 5, 7]);
    manager.add_alt(mario(true), 3, StageKind::Normal(h("mario_stage")));
    manager.add_alt(mario(true), 7, StageKind::Normal(h("mario_stage")));
    assert_eq!(slots(&manager, mario(true)), vec![1, 2, 3, 5, 7]);
    assert_eq!(slots(&manager, mario(false)), vec![9]);
    assert_eq!(manager.nth_alt(mario(true), 0), None);
    assert_eq!(manager.nth_alt(mario(true), 2).unwrap().slot_value, 2);
    assert_eq!(manager.nth_alt(mario(true), 6), None);
    manager.add_alt(mario(true), 2, StageKind::DLC(h("mario_stage")));
    assert_eq!(slots(&manager, mario(true)), vec![1, 2, 3, 5, 7]);
    assert_eq!(
        manager.nth_alt(mario(true), 2).unwrap().ui_paths.normal,
        h("ui/replace_patch/stage/stage_2/stage_2_mario_stage_s02.bntx")
    );
    assert_eq!(
        manager.nth_alt(mario(true), 4).unwrap().ui_paths.normal,
        h("ui/replace/stage/stage_2/stage_2_mario_stage_s05.bntx")
    );
}

#[test]
fn selected_second_alternate_is_second_of_the_catalog() {
    let w = world();
    let mut manager = manager_of(&w);
    manager.set_alts(SelectedAltInfo { index: 2, stage_info: mario(true) }, None, None);
    let second = manager.alts.alts(mario(true))[1].slot_value;
    assert_eq!(manager.fetch_advance(), Some(second));
    assert_eq!(second, 2);
}

#[test]
fn three_stages_take_turns() {
    let w = world();
    let mut manager = manager_of(&w);
    manager.set_alts(
        SelectedAltInfo { index: 0, stage_info: mario(true) },
        Some(SelectedAltInfo { index: 1, stage_info: mario(false) }),
        Some(SelectedAltInfo { index: 3, stage_info: mario(true) }),
    );
    assert_eq!(manager.fetch_advance(), Some(0));
    assert_eq!(manager.fetch_advance(), Some(1));
    assert_eq!(manager.fetch_advance(), Some(3));
    assert_eq!(manager.fetch_advance(), Some(0));
    assert_eq!(manager.selected_alts.unwrap().current_index, 4);
}

#[test]
fn advance_at_the_bounds_of_the_catalog() {
    let w = world();
    let mut manager = manager_of(&w);
    assert_eq!(manager.fetch_advance(), None);
    manager.set_alts(SelectedAltInfo { index: 0, stage_info: mario(true) }, None, None);
    assert_eq!(manager.fetch_advance(), Some(0));
    manager.set_alts(SelectedAltInfo { index: 3, stage_info: mario(true) }, None, None);
    assert_eq!(manager.fetch_advance(), Some(3));
    manager.set_alts(SelectedAltInfo { index: 4, stage_info: mario(true) }, None, None);
    assert_eq!(manager.fetch_advance(), None);
    manager.set_alts(
        SelectedAltInfo { index: 1, stage_info: StageInfo { name: h("nowhere"), normal_form: true } },
        None,
        None,
    );
    assert_eq!(manager.fetch_advance(), None);
    assert_eq!(manager.selected_alts.unwrap().current_index, 1);
}

#[test]
fn set_alts_fills_the_places_in_order() {
    let mut manager = AltManager::new();
    let first = SelectedAltInfo { index: 1, stage_info: mario(true) };
    let third = SelectedAltInfo { index: 2, stage_info: mario(false) };
    manager.set_alts(first, None, Some(third));
    let selected = manager.selected_alts.unwrap();
    assert_eq!(selected.playable, PlayableAlts::TwoStages([first, third]));
    assert_eq!(selected.current_index, 0);
    manager.set_alts(first, None, None);
    assert_eq!(manager.selected_alts.unwrap().playable, PlayableAlts::OneStage(first));
    manager.set_alts(first, Some(third), Some(first));
    assert_eq!(
        manager.selected_alts.unwrap().playable,
        PlayableAlts::ThreeStages([first, third, first])
    );
    let default = SelectedAltInfo::default();
    assert_eq!(default.index, 0);
    assert_eq!(default.stage_info, StageInfo { name: h("battlefield"), normal_form: true });
}

#[test]
fn stage_info_reads_a_form_folder() {
    let w = world();
    assert_eq!(StageInfo::from_path(&w.search, h("stage/mario_stage/normal")), Some(mario(true)));
    assert_eq!(StageInfo::from_path(&w.search, h("stage/mario_stage/battle")), Some(mario(false)));
    assert_eq!(StageInfo::from_path(&w.search, h("stage/mario_stage/normal_s01")), None);
    assert_eq!(StageInfo::from_path(&w.search, h(MARIO)), None);
    assert_eq!(StageInfo::from_path(&w.search, h("stage/mario_stage/normal/a.bin")), None);
}

#[test]
fn patch_dir_points_files_at_the_alternate() {
    let mut w = world();
    let before = w.arc.clone();
    patch_dir_info(&mut w.arc, &w.search, h(MARIO), 1);
    assert_eq!(w.arc.file_paths[0].index, 4);
    assert_eq!(w.arc.file_infos[0].file_info_indice_index, 4);
    assert_eq!(w.arc.file_paths[1].index, 5);
    assert_eq!(w.arc.file_infos[1].file_info_indice_index, 5);
    assert_eq!(w.arc.file_paths[7].index, 8);
    assert_eq!(w.arc.file_infos[7].file_info_indice_index, 8);
    for file in [2usize, 3, 4, 5, 6, 8, 9] {
        assert_eq!(w.arc.file_paths[file], before.file_paths[file]);
        assert_eq!(w.arc.file_infos[file], before.file_infos[file]);
    }
    assert_eq!(w.arc.file_paths[0].hash, h("stage/mario_stage/normal/a.bin"));
}

#[test]
fn patch_dir_leaves_files_without_an_alternate() {
    let mut w = world();
    let before = w.arc.clone();
    let skipped = patch_dir_info(&mut w.arc, &w.search, h(MARIO), 2);
    assert_eq!(skipped.len(), 8);
    assert_eq!(skipped[0], h("stage/mario_stage/normal/b.bin"));
    assert_eq!(skipped[6], h("stage/mario_stage/battle/a.bin"));
    assert_eq!(w.arc.file_paths[0].index, 6);
    assert_eq!(w.arc.file_paths[1], before.file_paths[1]);
    assert_eq!(w.arc.file_paths[7], before.file_paths[7]);
    patch_dir_info(&mut w.arc, &w.search, h("stage/nothing"), 1);
    assert_eq!(w.arc.file_paths[0].index, 6);
}

#[test]
fn patch_without_a_form_changes_nothing() {
    let mut w = world();
    let arc = w.arc.clone();
    let search = w.search.clone();
    patch_dir_info(&mut w.arc, &w.search, h("stage/common"), 1);
    patch_search_section(&mut w.search, h("stage/common"), 1);
    assert_eq!(w.arc, arc);
    assert_eq!(w.search, search);
    assert!(patch_file_path(&w.search, h("stage/common/shared.bin"), 1).is_none());
}

#[test]
fn restore_dir_undoes_a_patch() {
    let mut w = world();
    let manager = manager_of(&w);
    let before = w.arc.clone();
    patch_dir_info(&mut w.arc, &w.search, h(MARIO), 1);
    assert_ne!(w.arc, before);
    restore_dir_info(&mut w.arc, &manager.backup_filepaths, h(MARIO));
    assert_eq!(w.arc, before);
}

#[test]
fn restore_dir_twice_is_restore_once() {
    let mut w = world();
    let manager = manager_of(&w);
    patch_dir_info(&mut w.arc, &w.search, h(MARIO), 3);
    restore_dir_info(&mut w.arc, &manager.backup_filepaths, h(MARIO));
    let once = w.arc.clone();
    restore_dir_info(&mut w.arc, &manager.backup_filepaths, h(MARIO));
    assert_eq!(w.arc, once);
}

#[test]
fn restore_dir_passes_over_files_without_backup() {
    let mut w = world();
    let mut backup = BackupTable::new();
    backup.insert(h("stage/mario_stage/normal/b.bin"), 77);
    assert_eq!(backup.get(h("stage/mario_stage/normal/b.bin")), Some(77));
    assert_eq!(backup.get(h("stage/mario_stage/normal/a.bin")), None);
    let before = w.arc.clone();
    let skipped = restore_dir_info(&mut w.arc, &backup, h(MARIO));
    assert_eq!(skipped.len(), 8);
    assert_eq!(skipped[0], h("stage/mario_stage/normal/a.bin"));
    assert_eq!(skipped[1], h("stage/mario_stage/normal_s03/a.bin"));
    assert_eq!(skipped[7], h("stage/mario_stage/battle_s01/a.bin"));
    assert_eq!(w.arc.file_paths[1].index, 77);
    assert_eq!(w.arc.file_infos[1].file_info_indice_index, 77);
    assert_eq!(w.arc.file_paths[0], before.file_paths[0]);
    assert_eq!(w.arc.file_infos[2], before.file_infos[2]);
}

#[test]
fn patch_search_points_rows_at_the_alternate() {
    let mut w = world();
    let before = w.search.clone();
    let skipped = patch_search_section(&mut w.search, h(MARIO), 1);
    assert_eq!(w.search.path_index[2].index, 8);
    assert_eq!(w.search.path_index[13].index, 15);
    assert_eq!(w.search.path_index[2].hash, h("stage/mario_stage/normal"));
    for row in [0usize, 1, 5, 6, 7, 8, 9, 10, 11, 12, 15, 16, 17, 18] {
        assert_eq!(w.search.path_index[row], before.path_index[row]);
    }
    assert_eq!(w.search.paths, before.paths);
    assert_eq!(w.search.folders, before.folders);
    let entry = w.search.path_entry(h("stage/mario_stage/normal")).unwrap();
    assert_eq!(entry.file_name, h("normal_s01"));
    assert_eq!(
        skipped,
        vec![
            h("stage/mario_stage/normal_s03"),
            h("stage/mario_stage/normal_s01"),
            h("stage/mario_stage/normal_s02"),
            h("stage/mario_stage/battle_s01")
        ]
    );
}

#[test]
fn patch_search_patches_below_the_form_folder() {
    let mut w = world();
    patch_search_section(&mut w.search, h(MARIO), 1);
    assert_eq!(w.search.path_index[3].index, 9);
    assert_eq!(w.search.path_index[4].index, 10);
    assert_eq!(w.search.path_index[14].index, 16);
    let file = w.search.path_entry(h("stage/mario_stage/normal/a.bin")).unwrap();
    assert_eq!(file.path, h("stage/mario_stage/normal_s01/a.bin"));
    let file = w.search.path_entry(h("stage/mario_stage/battle/a.bin")).unwrap();
    assert_eq!(file.path, h("stage/mario_stage/battle_s01/a.bin"));
}

#[test]
fn patch_search_reports_what_it_leaves() {
    let mut w = world();
    let before = w.search.clone();
    let skipped = patch_search_section(&mut w.search, h(MARIO), 2);
    assert_eq!(w.search.path_index[2].index, 11);
    assert_eq!(w.search.path_index[3].index, 12);
    assert_eq!(w.search.path_index[4], before.path_index[4]);
    assert_eq!(w.search.path_index[13], before.path_index[13]);
    assert_eq!(w.search.path_index[14], before.path_index[14]);
    assert_eq!(
        skipped,
        vec![
            h("stage/mario_stage/normal/b.bin"),
            h("stage/mario_stage/normal_s03"),
            h("stage/mario_stage/normal_s01"),
            h("stage/mario_stage/normal_s02"),
            h("stage/mario_stage/battle"),
            h("stage/mario_stage/battle_s01")
        ]
    );
    let nothing = patch_search_section(&mut w.search, h("nothing"), 2);
    assert_eq!(nothing, Vec::<Hash40>::new());
}

#[test]
fn restore_search_undoes_a_patch() {
    let mut w = world();
    let manager = manager_of(&w);
    let before = w.search.clone();
    patch_search_section(&mut w.search, h(MARIO), 1);
    assert_ne!(w.search, before);
    restore_search_section(&mut w.search, &manager.backup_searchpaths, h(MARIO));
    assert_eq!(w.search, before);
}

#[test]
fn restore_search_twice_is_restore_once() {
    let mut w = world();
    let manager = manager_of(&w);
    patch_search_section(&mut w.search, h(MARIO), 2);
    restore_search_section(&mut w.search, &manager.backup_searchpaths, h(MARIO));
    let once = w.search.clone();
    restore_search_section(&mut w.search, &manager.backup_searchpaths, h(MARIO));
    assert_eq!(w.search, once);
}

#[test]
fn restore_search_enters_directories() {
    let mut w = world();
    let manager = manager_of(&w);
    let before = w.search.clone();
    w.search.path_index[3].index = 9;
    w.search.path_index[14].index = 16;
    w.search.path_index[18].index = 3;
    let skipped = restore_search_section(&mut w.search, &manager.backup_searchpaths, h(MARIO));
    assert_eq!(skipped, Vec::<Hash40>::new());
    let mut partial = BackupTable::new();
    partial.insert(h("stage/mario_stage/normal"), 2);
    partial.insert(h("stage/mario_stage/normal/b.bin"), 4);
    let skipped = restore_search_section(&mut w.search, &partial, h(MARIO));
    assert_eq!(
        skipped,
        vec![
            h("stage/mario_stage/normal/a.bin"),
            h("stage/mario_stage/normal_s03"),
            h("stage/mario_stage/normal_s01"),
            h("stage/mario_stage/normal_s02"),
            h("stage/mario_stage/battle"),
            h("stage/mario_stage/battle_s01")
        ]
    );
    assert_eq!(w.search.path_index[3], before.path_index[3]);
    assert_eq!(w.search.path_index[14], before.path_index[14]);
    assert_eq!(w.search.path_index[18].index, 3);
    restore_search_section(&mut w.search, &manager.backup_searchpaths, h("nothing"));
    assert_eq!(w.search.path_index[18].index, 3);
}

#[test]
fn sort_orders_every_folder() {
    let mut w = world();
    let table = names();
    sort_folder_contents(h("/"), &mut w.search, &table);
    assert_eq!(w.search.folder(h(MARIO)).unwrap().first_child, Some(13));
    assert_eq!(w.search.paths[13].next, Some(15));
    assert_eq!(w.search.paths[15].next, Some(2));
    assert_eq!(w.search.paths[2].next, Some(8));
    assert_eq!(w.search.paths[8].next, Some(11));
    assert_eq!(w.search.paths[11].next, Some(5));
    assert_eq!(w.search.paths[5].next, None);
    assert_eq!(w.search.folder(h("stage")).unwrap().first_child, Some(17));
    assert_eq!(w.search.paths[17].next, Some(1));
    assert_eq!(w.search.paths[1].next, None);
    assert_eq!(w.search.folder(h("stage/mario_stage/normal")).unwrap().first_child, Some(3));
    assert_eq!(w.search.paths[3].next, Some(4));
    assert_eq!(w.search.paths[4].next, None);
}

#[test]
fn sort_of_a_sorted_tree_changes_nothing() {
    let mut w = world();
    let table = names();
    sort_folder_contents(h("/"), &mut w.search, &table);
    let once = w.search.clone();
    sort_folder_contents(h("/"), &mut w.search, &table);
    assert_eq!(w.search, once);
}

#[test]
fn sort_puts_directories_first_and_unknown_names_last() {
    let mut w = World::new();
    w.add("/", "zz.bin", false);
    w.add("/", "mystery.bin", false);
    w.add("/", "aa.bin", false);
    w.add("/", "late", true);
    w.add("/", "early", true);
    let table = init_hash_lookup(
        false,
        vec!["zz.bin".to_string(), "aa.bin".to_string(), "late".to_string(), "early".to_string()],
    );
    sort_folder_contents(h("/"), &mut w.search, &table);
    assert_eq!(w.search.folder(h("/")).unwrap().first_child, Some(4));
    assert_eq!(w.search.paths[4].next, Some(3));
    assert_eq!(w.search.paths[3].next, Some(2));
    assert_eq!(w.search.paths[2].next, Some(0));
    assert_eq!(w.search.paths[0].next, Some(1));
    assert_eq!(w.search.paths[1].next, None);
    let before = w.search.clone();
    sort_folder_contents(h("nothing"), &mut w.search, &table);
    assert_eq!(w.search, before);
}

#[test]
fn collect_files_walks_the_folder() {
    let w = world();
    assert_eq!(
        collect_files_from_path(&w.arc, &w.search, h("stage/mario_stage/normal"), 1, false),
        vec![0, 1]
    );
    assert_eq!(
        collect_files_from_path(&w.arc, &w.search, h("stage/mario_stage/normal"), 1, true),
        vec![4, 5]
    );
    assert_eq!(
        collect_files_from_path(&w.arc, &w.search, h("stage/mario_stage/normal"), 2, true),
        vec![6]
    );
    assert_eq!(
        collect_files_from_path(&w.arc, &w.search, h(MARIO), 0, false),
        vec![0, 1, 2, 3, 4, 5, 6, 7, 8]
    );
    assert_eq!(
        collect_files_from_path(&w.arc, &w.search, h("stage/mario_stage/normal"), 9, true),
        Vec::<u32>::new()
    );
    assert_eq!(collect_files_from_path(&w.arc, &w.search, h("nothing"), 1, true), Vec::<u32>::new());
    assert_eq!(collect_files_from_path(&w.arc, &w.search, h("nothing"), 1, false), Vec::<u32>::new());
}

#[test]
fn recreate_builds_the_path_under_the_alternate() {
    let w = world();
    let file = w.search.path_entry(h("stage/mario_stage/normal/a.bin")).unwrap();
    assert_eq!(
        recreate_search_path_hash(&w.search, &file, 1),
        Some(h("stage/mario_stage/normal_s01/a.bin"))
    );
    assert_eq!(
        recreate_search_path_hash(&w.search, &file, 0),
        Some(h("stage/mario_stage/normal/a.bin"))
    );
    let form = w.search.path_entry(h("stage/mario_stage/battle")).unwrap();
    assert_eq!(
        recreate_search_path_hash(&w.search, &form, 123),
        Some(h("stage/mario_stage/battle_s123"))
    );
    let shared = w.search.path_entry(h("stage/common/shared.bin")).unwrap();
    assert_eq!(recreate_search_path_hash(&w.search, &shared, 1), None);
}

#[test]
fn descendants_are_found_by_their_parents() {
    let w = world();
    assert!(is_descendant_of(&w.search, h("stage/mario_stage/normal/a.bin"), h("stage")));
    assert!(is_descendant_of(&w.search, h("stage/mario_stage/normal/a.bin"), h(MARIO)));
    assert!(is_descendant_of(&w.search, h("stage/common/shared.bin"), h("stage/common")));
    assert!(!is_descendant_of(&w.search, h("stage/mario_stage/normal/a.bin"), h("stage/common")));
    assert!(!is_descendant_of(&w.search, h("stage"), h("stage")));
    assert!(is_descendant_of(&w.search, h("stage"), h("/")));
    assert!(!is_descendant_of(&w.search, h("nothing"), h("stage")));
}

#[test]
fn stage_directories_leave_out_the_excluded() {
    let w = world();
    let excluded = default_excluded();
    assert_eq!(
        excluded,
        vec![
            h("stage/common"),
            h("stage/resultstage"),
            h("stage/resultstage_jack"),
            h("stage/resultstage_edge")
        ]
    );
    assert!(is_stage_directory(&w.search, h("stage/mario_stage/normal"), &excluded));
    assert!(is_stage_directory(&w.search, h(MARIO), &excluded));
    assert!(!is_stage_directory(&w.search, h("stage/common/shared.bin"), &excluded));
    assert!(!is_stage_directory(&w.search, h("stage"), &excluded));
    assert!(is_stage_directory(&w.search, h("stage/common/shared.bin"), &vec![]));
}

#[test]
fn snapshot_holds_every_row() {
    let w = world();
    let backup = snapshot(&w.search.path_index);
    for row in w.search.path_index.iter() {
        assert_eq!(backup.get(row.hash), Some(row.index));
    }
    assert_eq!(backup.get(h("nothing")), None);
    let twice = snapshot(&vec![
        HashToIndex { hash: Hash40(1), index: 10 },
        HashToIndex { hash: Hash40(1), index: 20 },
    ]);
    assert_eq!(twice.get(Hash40(1)), Some(20));
}

#[test]
fn initial_load_sorts_builds_and_backs_up() {
    let mut w = world();
    let table = names();
    let mut manager = AltManager::new();
    initial_load(&mut manager, &w.arc, &mut w.search, &table);
    assert_eq!(w.search.folder(h(MARIO)).unwrap().first_child, Some(13));
    assert_eq!(slots(&manager, mario(true)), vec![1, 2, 3]);
    assert_eq!(slots(&manager, mario(false)), vec![1]);
    assert_eq!(manager.backup_filepaths.get(h("stage/mario_stage/normal/a.bin")), Some(0));
    assert_eq!(manager.backup_searchpaths.get(h("stage/mario_stage/battle")), Some(13));
    assert!(manager.selected_alts.is_none());
}

#[test]
fn directory_load_restores_then_patches() {
    let mut w = world();
    let manager = manager_of(&w);
    let excluded = default_excluded();
    let arc = w.arc.clone();
    let search = w.search.clone();
    let form = h("stage/mario_stage/normal");
    let patched = patch_on_load(&mut w.arc, &mut w.search, form, Some(1), &excluded).unwrap();
    assert_eq!(
        patched.skipped.files,
        vec![
            h("stage/mario_stage/normal_s03/a.bin"),
            h("stage/mario_stage/normal_s03/b.bin"),
            h("stage/mario_stage/normal_s01/a.bin"),
            h("stage/mario_stage/normal_s01/b.bin"),
            h("stage/mario_stage/normal_s02/a.bin"),
            h("stage/mario_stage/battle_s01/a.bin")
        ]
    );
    assert_eq!(
        patched.skipped.paths,
        vec![
            h("stage/mario_stage/normal_s03"),
            h("stage/mario_stage/normal_s01"),
            h("stage/mario_stage/normal_s02"),
            h("stage/mario_stage/battle_s01")
        ]
    );
    assert_eq!(w.arc.file_paths[0].index, 4);
    assert_eq!(w.search.path_index[2].index, 8);
    assert_eq!(w.search.path_index[3].index, 9);
    assert_eq!(patched.files, collect_files_from_path(&w.arc, &w.search, form, 1, true));
    assert_eq!(
        restore_on_load(&manager, &mut w.arc, &mut w.search, form, &excluded),
        Some(Skipped { files: vec![], paths: vec![] })
    );
    assert_eq!(w.arc, arc);
    assert_eq!(w.search, search);
}

#[test]
fn directory_load_leaves_other_paths_alone() {
    let mut w = world();
    let manager = manager_of(&w);
    let excluded = default_excluded();
    let arc = w.arc.clone();
    let search = w.search.clone();
    assert_eq!(restore_on_load(&manager, &mut w.arc, &mut w.search, h("stage/common"), &excluded), None);
    assert_eq!(restore_on_load(&manager, &mut w.arc, &mut w.search, h(MARIO), &excluded), None);
    assert_eq!(patch_on_load(&mut w.arc, &mut w.search, h("stage/common/shared.bin"), Some(1), &excluded), None);
    assert_eq!(patch_on_load(&mut w.arc, &mut w.search, h("stage/mario_stage/normal"), None, &excluded), None);
    assert_eq!(patch_on_load(&mut w.arc, &mut w.search, h("stage/mario_stage/normal"), Some(0), &excluded), None);
    assert_eq!(w.arc, arc);
    assert_eq!(w.search, search);
    let patched = patch_on_load(&mut w.arc, &mut w.search, h("stage/mario_stage/normal/a.bin"), Some(1), &excluded).unwrap();
    assert_eq!(patched.skipped, Skipped { files: vec![], paths: vec![] });
    assert_eq!(w.arc, arc);
    assert_eq!(w.search, search);
}

#[test]
fn asset_prepare_takes_a_turn_offline() {
    let w = world();
    let mut manager = manager_of(&w);
    manager.set_alts(
        SelectedAltInfo { index: 1, stage_info: mario(true) },
        Some(SelectedAltInfo { index: 0, stage_info: mario(false) }),
        None,
    );
    let known = h("stage/mario_stage/normal/a.bin");
    assert_eq!(on_asset_prepare(&mut manager, &w.search, true, known), None);
    assert_eq!(on_asset_prepare(&mut manager, &w.search, false, h("nothing")), None);
    assert_eq!(on_asset_prepare(&mut manager, &w.search, false, h("stage")), None);
    assert_eq!(manager.selected_alts.unwrap().current_index, 0);
    assert_eq!(on_asset_prepare(&mut manager, &w.search, false, known), Some(Some(1)));
    assert_eq!(on_asset_prepare(&mut manager, &w.search, false, known), Some(Some(0)));
    assert_eq!(on_asset_prepare(&mut manager, &w.search, false, known), Some(Some(1)));
    let mut fresh = AltManager::new();
    assert_eq!(on_asset_prepare(&mut fresh, &w.search, false, known), Some(None));
}

#[test]
fn walks_end_on_links_that_turn_back() {
    let mut w = world();
    let manager = manager_of(&w);
    let entries = w.search.paths.len();
    w.search.paths[4].next = Some(3);
    let files =
        collect_files_from_path(&w.arc, &w.search, h("stage/mario_stage/normal"), 0, false);
    assert_eq!(files.len(), entries);
    assert_eq!(files[0], 0);
    assert_eq!(files[1], 1);
    assert_eq!(files[2], 0);
    let before = w.search.clone();
    restore_search_section(&mut w.search, &manager.backup_searchpaths, h(MARIO));
    assert_eq!(w.search, before);
    patch_search_section(&mut w.search, h("stage/mario_stage/normal"), 1);
    assert_eq!(
        w.search.path_index[3].index,
        w.search.path_slot(h("stage/mario_stage/normal_s01/a.bin")).unwrap() as u32
    );
    let table = names();
    sort_folder_contents(h("stage/mario_stage/normal"), &mut w.search, &table);
    assert_eq!(w.search.folder(h("stage/mario_stage/normal")).unwrap().first_child, Some(3));
    assert_eq!(w.search.paths[3].next, Some(4));
    assert_eq!(w.search.paths[4].next, None);
}

#[test]
fn walks_end_on_parents_that_turn_back() {
    let mut w = world();
    w.search.paths[1].parent = h("stage/mario_stage/normal");
    let path = h("stage/mario_stage/normal/a.bin").pretty(&w.search);
    assert_eq!(path.components.len(), w.search.path_index.len());
    assert!(!is_descendant_of(&w.search, h("stage/mario_stage/normal/a.bin"), h("stage")));
    assert!(is_descendant_of(&w.search, h("stage/mario_stage/normal/a.bin"), h(MARIO)));
    let file = w.search.path_entry(h("stage/mario_stage/battle/a.bin")).unwrap();
    assert_eq!(
        recreate_search_path_hash(&w.search, &file, 1),
        Some(h("stage/mario_stage/battle_s01/a.bin"))
    );
    let lost = w.search.path_entry(h("stage/mario_stage")).unwrap();
    assert_eq!(recreate_search_path_hash(&w.search, &lost, 1), Some(h("stage/mario_stage/normal_s01/mario_stage")));
}

#[test]
fn sort_keeps_children_of_one_name() {
    let mut w = World::new();
    w.add("/", "twin.bin", false);
    w.add("/", "aa.bin", false);
    w.add("/", "twin.bin", false);
    let table = init_hash_lookup(false, vec!["twin.bin".to_string(), "aa.bin".to_string()]);
    sort_folder_contents(h("/"), &mut w.search, &table);
    assert_eq!(w.search.folder(h("/")).unwrap().first_child, Some(1));
    assert_eq!(w.search.paths[1].next, Some(0));
    assert_eq!(w.search.paths[0].next, Some(2));
    assert_eq!(w.search.paths[2].next, None);
    let once = w.search.clone();
    sort_folder_contents(h("/"), &mut w.search, &table);
    assert_eq!(w.search, once);
}
