use stage_alts::archive::{DirectoryTable, HashToIndex};
use stage_alts::backup::HashTable;
use stage_alts::hash::Hash40;
use stage_alts::manager::{AltManager, SelectedAltInfo, StageInfo, StageKind};
use stage_alts::menu::{
    alt_field_of_bgm_id, alt_texture_path, get_alt_texture_index, get_panel_alt_count,
    is_valid_entrance_param, panel_stages, selection_of, set_alts, song_of_bgm_id,
    stage_of_panel, with_song, write_alt_field_to_bgm_id,
};
use stage_alts::music_fix::MusicCache;
use stage_alts::params::{
    cache_from_files, collect_bgm_lists, collect_stage_name_to_bgm_set,
    get_ui_hash_to_stage_hash, prc_get, prc_get_hash, Param,
};

fn h(text: &str) -> Hash40 {
    Hash40::new(text)
}

fn label(text: &str) -> Hash40 {
    Hash40(hash40::hash40(text).0)
}

fn fallback() -> Hash40 {
    label("ui_bgm_crs2_02_senjyou")
}

fn cache() -> MusicCache {
    MusicCache::new(
        vec![
            (h("series_mario"), vec![h("song_a"), h("song_b")]),
            (h("series_zelda"), vec![h("song_c")]),
            (h("series_empty"), vec![]),
        ],
        vec![
            (h("mario_stage"), h("series_mario")),
            (h("zelda_stage"), h("series_zelda")),
            (h("quiet_stage"), h("series_empty")),
            (h("lost_stage"), h("series_lost")),
        ],
    )
}

#[test]
fn every_song_of_every_list_is_allowed() {
    let cache = cache();
    assert!(cache.is_song_allowed(h("song_a")));
    assert!(cache.is_song_allowed(h("song_b")));
    assert!(cache.is_song_allowed(h("song_c")));
    assert!(!cache.is_song_allowed(h("song_d")));
    assert!(!cache.is_song_allowed(h("series_mario")));
    assert_eq!(cache.allowed_songs.len(), 3);
    assert_eq!(cache.song_by_series.len(), 3);
    assert_eq!(cache.song_by_series[&h("series_mario").0], vec![h("song_a"), h("song_b")]);
    assert_eq!(cache.stage_to_series[&h("lost_stage").0], h("series_lost").0);
}

#[test]
fn songs_of_a_replaced_list_are_not_allowed() {
    let cache = MusicCache::new(
        vec![
            (h("series_mario"), vec![h("song_a"), h("song_b")]),
            (h("series_zelda"), vec![h("song_b"), h("song_c")]),
            (h("series_mario"), vec![h("song_d")]),
        ],
        vec![(h("mario_stage"), h("series_mario"))],
    );
    assert!(!cache.is_song_allowed(h("song_a")));
    assert!(cache.is_song_allowed(h("song_b")));
    assert!(cache.is_song_allowed(h("song_c")));
    assert!(cache.is_song_allowed(h("song_d")));
    assert_eq!(cache.allowed_songs.len(), 3);
    assert_eq!(cache.song_by_series[&h("series_mario").0], vec![h("song_d")]);
    assert_eq!(cache.get_random_song(h("mario_stage")), h("song_d"));
}

#[test]
fn random_song_is_of_the_stage_series() {
    let cache = cache();
    for _ in 0..50 {
        let song = cache.get_random_song(h("mario_stage"));
        assert!(song == h("song_a") || song == h("song_b"));
    }
    assert_eq!(cache.get_random_song(h("zelda_stage")), h("song_c"));
}

#[test]
fn random_song_falls_back() {
    let cache = cache();
    assert_eq!(cache.get_random_song(h("quiet_stage")), fallback());
    assert_eq!(cache.get_random_song(h("lost_stage")), fallback());
    assert_eq!(cache.get_random_song(h("unknown_stage")), fallback());
    assert_eq!(MusicCache::chosen_song(None), fallback());
    assert_eq!(MusicCache::chosen_song(Some(h("song_a"))), h("song_a"));
    assert_ne!(fallback(), Hash40(0));
}

fn stage_struct(ui: &str, place: &str, set: &str) -> Param {
    Param::Struct(vec![
        (h("ui_stage_id"), Param::Hash(h(ui))),
        (label("stage_place_id"), Param::Hash(h(place))),
        (label("bgm_set_id"), Param::Hash(h(set))),
    ])
}

fn stage_file() -> Vec<(Hash40, Param)> {
    vec![(
        h("db_root"),
        Param::List(vec![
            stage_struct("ui_stage_mario", "mario_stage", "series_mario"),
            Param::Other,
            stage_struct("ui_stage_zelda", "zelda_stage", "series_zelda"),
        ]),
    )]
}

fn song(id: &str) -> Param {
    Param::Struct(vec![(h("other"), Param::Other), (label("ui_bgm_id"), Param::Hash(h(id)))])
}

fn music_file() -> Vec<(Hash40, Param)> {
    let mut file: Vec<(Hash40, Param)> = Vec::new();
    for i in 0..6 {
        file.push((Hash40(i), Param::List(vec![song("hidden")])));
    }
    file.push((h("series_mario"), Param::List(vec![song("song_a"), Param::Other, song("song_b")])));
    file.push((h("not_a_list"), Param::Hash(h("song_x"))));
    file.push((
        h("series_zelda"),
        Param::List(vec![Param::Struct(vec![(label("ui_bgm_id"), Param::Other)]), song("song_c")]),
    ));
    file
}

#[test]
fn fields_are_found_by_name() {
    let fields = vec![
        (h("a"), Param::Other),
        (h("b"), Param::Hash(h("first"))),
        (h("b"), Param::Hash(h("second"))),
    ];
    assert!(matches!(prc_get(&fields, h("a")), Some(Param::Other)));
    assert!(matches!(prc_get(&fields, h("b")), Some(Param::Hash(value)) if *value == h("first")));
    assert!(prc_get(&fields, h("c")).is_none());
    assert_eq!(prc_get_hash(&fields, h("b")), Some(h("first")));
    assert_eq!(prc_get_hash(&fields, h("a")), None);
    assert_eq!(prc_get_hash(&fields, h("c")), None);
}

#[test]
fn stage_file_gives_the_series_of_stages() {
    assert_eq!(
        collect_stage_name_to_bgm_set(&stage_file()),
        Some(vec![(h("mario_stage"), h("series_mario")), (h("zelda_stage"), h("series_zelda"))])
    );
    assert_eq!(
        get_ui_hash_to_stage_hash(&stage_file()),
        Some(vec![(h("ui_stage_mario"), h("mario_stage")), (h("ui_stage_zelda"), h("zelda_stage"))])
    );
}

#[test]
fn stage_file_without_its_fields_gives_nothing() {
    assert_eq!(collect_stage_name_to_bgm_set(&vec![]), None);
    assert_eq!(collect_stage_name_to_bgm_set(&vec![(h("root"), Param::Other)]), None);
    let broken = vec![(
        h("root"),
        Param::List(vec![Param::Struct(vec![(label("stage_place_id"), Param::Hash(h("x")))])]),
    )];
    assert_eq!(collect_stage_name_to_bgm_set(&broken), None);
    assert_eq!(get_ui_hash_to_stage_hash(&broken), None);
    assert_eq!(get_ui_hash_to_stage_hash(&vec![]), None);
    assert!(cache_from_files(&broken, &music_file()).is_none());
}

#[test]
fn song_file_gives_the_songs_of_series() {
    assert_eq!(
        collect_bgm_lists(&music_file()),
        vec![
            (h("series_mario"), vec![h("song_a"), h("song_b")]),
            (h("series_zelda"), vec![h("song_c")])
        ]
    );
    assert_eq!(collect_bgm_lists(&vec![]), vec![]);
}

#[test]
fn cache_is_built_from_the_files() {
    let cache = cache_from_files(&stage_file(), &music_file()).unwrap();
    assert!(cache.is_song_allowed(h("song_a")));
    assert!(cache.is_song_allowed(h("song_c")));
    assert!(!cache.is_song_allowed(h("hidden")));
    assert!(!cache.is_song_allowed(h("song_x")));
    assert_eq!(cache.get_random_song(h("zelda_stage")), h("song_c"));
}

fn places() -> HashTable {
    let mut ui_to_place = HashTable::new();
    ui_to_place.insert(h("ui_stage_mario").0, h("mario_stage"));
    ui_to_place.insert(h("ui_stage_zelda").0, h("zelda_stage"));
    ui_to_place
}

fn keys() -> Vec<u64> {
    vec![h("ui_stage_zelda").0 | (7u64 << 40), h("ui_stage_unknown").0, h("ui_stage_mario").0]
}

fn panels() -> HashTable {
    panel_stages(&places(), &keys())
}

fn mario(normal_form: bool) -> StageInfo {
    StageInfo { name: h("mario_stage"), normal_form }
}

fn manager() -> AltManager {
    let mut manager = AltManager::new();
    manager.add_alt(mario(true), 1, StageKind::Normal(h("mario_stage")));
    manager.add_alt(mario(true), 4, StageKind::Normal(h("mario_stage")));
    manager.add_alt(mario(false), 2, StageKind::Normal(h("mario_stage")));
    manager.ui_to_place = places();
    is_valid_entrance_param(&mut manager, &keys());
    manager
}

#[test]
fn panels_lead_to_stages() {
    let manager = manager();
    assert_eq!(manager.index_to_hash.entries, panels().entries);
    assert_eq!(manager.ui_to_place.entries, places().entries);
    let panels = panels();
    assert_eq!(stage_of_panel(&panels, 0), Some(h("zelda_stage")));
    assert_eq!(stage_of_panel(&panels, 1), None);
    assert_eq!(stage_of_panel(&panels, 2), Some(h("mario_stage")));
    assert_eq!(stage_of_panel(&panels, 3), None);
    assert_eq!(stage_of_panel(&panels, usize::MAX), None);
    assert_eq!(panels.entries.len(), 2);
}

#[test]
fn panel_alt_count_reads_the_catalog() {
    let manager = manager();
    assert_eq!(get_panel_alt_count(&manager, 2, 0), 2);
    assert_eq!(get_panel_alt_count(&manager, 2, 1), 1);
    assert_eq!(get_panel_alt_count(&manager, 2, 5), 1);
    assert_eq!(get_panel_alt_count(&manager, 0, 0), 0);
    assert_eq!(get_panel_alt_count(&manager, 1, 0), 0);
    assert_eq!(get_panel_alt_count(&manager, usize::MAX, 0), 0);
}

#[test]
fn alt_texture_is_the_artwork_of_the_form() {
    let manager = manager();
    assert_eq!(
        alt_texture_path(&manager, 2, 0, 0),
        Some(h("ui/replace/stage/stage_2/stage_2_mario_stage.bntx"))
    );
    assert_eq!(
        alt_texture_path(&manager, 2, 0, 2),
        Some(h("ui/replace/stage/stage_2/stage_2_mario_stage_s04.bntx"))
    );
    assert_eq!(
        alt_texture_path(&manager, 2, 1, 1),
        Some(h("ui/replace/stage/stage_4/stage_4_mario_stage_s02.bntx"))
    );
    assert_eq!(
        alt_texture_path(&manager, 2, 2, 1),
        Some(h("ui/replace/stage/stage_3/stage_3_mario_stage_s02.bntx"))
    );
    assert_eq!(alt_texture_path(&manager, 2, 0, 3), None);
    assert_eq!(alt_texture_path(&manager, 1, 0, 0), None);
    assert_eq!(
        alt_texture_path(&manager, 0, 1, 0),
        Some(h("ui/replace/stage/stage_4/stage_4_zelda_stage.bntx"))
    );
}

#[test]
fn alt_texture_index_is_the_file_position() {
    let manager = manager();
    let arc = DirectoryTable {
        dir_index: vec![],
        dir_infos: vec![],
        file_path_index: vec![HashToIndex {
            hash: h("ui/replace/stage/stage_2/stage_2_mario_stage_s04.bntx"),
            index: 31,
        }],
        file_paths: vec![],
        file_info_indices: vec![],
        file_infos: vec![],
    };
    assert_eq!(get_alt_texture_index(&manager, &arc, 2, 0, 2), 31);
    assert_eq!(get_alt_texture_index(&manager, &arc, 2, 0, 1), -1);
    assert_eq!(get_alt_texture_index(&manager, &arc, 2, 0, 9), -1);
    assert_eq!(get_alt_texture_index(&manager, &arc, usize::MAX, 0, 0), -1);
}

#[test]
fn menu_selection_needs_numbers_and_a_stage() {
    let panels = panels();
    assert_eq!(
        selection_of(&panels, 3, 2, 0),
        Some(SelectedAltInfo { index: 3, stage_info: mario(true) })
    );
    assert_eq!(
        selection_of(&panels, 0, 2, 1),
        Some(SelectedAltInfo { index: 0, stage_info: mario(false) })
    );
    assert_eq!(selection_of(&panels, -1, 2, 0), None);
    assert_eq!(selection_of(&panels, 1, -1, 0), None);
    assert_eq!(selection_of(&panels, 1, 2, -1), None);
    assert_eq!(selection_of(&panels, 1, 1, 0), None);
}

#[test]
fn menu_sets_the_selection_only_with_a_first() {
    let mut manager = manager();
    let second = SelectedAltInfo { index: 1, stage_info: mario(false) };
    assert!(!set_alts(&mut manager, None, Some(second), None));
    assert!(manager.selected_alts.is_none());
    let first = SelectedAltInfo { index: 2, stage_info: mario(true) };
    assert!(set_alts(&mut manager, Some(first), Some(second), None));
    assert_eq!(manager.fetch_advance(), Some(4));
    assert_eq!(manager.fetch_advance(), Some(2));
    assert_eq!(manager.fetch_advance(), Some(4));
}

#[test]
fn alt_field_is_written_above_the_song() {
    let word = 0xAB12_34CD_EF01_2345u64;
    let written = write_alt_field_to_bgm_id(word, 0x1_0007);
    assert_eq!(written, 0xAB00_07CD_EF01_2345);
    assert_eq!(alt_field_of_bgm_id(written), 7);
    assert_eq!(alt_field_of_bgm_id(word), 0x1234);
    assert_eq!(song_of_bgm_id(word), Hash40(0xCD_EF01_2345));
    assert_eq!(song_of_bgm_id(written), song_of_bgm_id(word));
    assert_eq!(with_song(word, Hash40(0x11_2233_4455)), 0xAB12_3411_2233_4455);
}
