use stage_alts::hash::{numbered_hash, Hash40};
use stage_alts::path::ConcatHash;
use stage_alts::logger::{check_download_hashes, colorize_level, Level, StageAltsLogger};
use stage_alts::manager::{is_dlc_stage, StageKind, UiPaths};
use stage_alts::search::guess_hash;
use stage_alts::sorting::{init_hash_lookup, text_before, NameTable, SearchEntry, SearchKey};

fn h(text: &str) -> Hash40 {
    Hash40::new(text)
}

#[test]
fn hash_of_known_texts() {
    assert_eq!(h("").0, 0);
    assert_eq!(h("a").0, 0x01e8b7be43);
    assert_eq!(h("damage_max").0, 0x0aa3cb8810);
}

#[test]
fn hash_keeps_the_case_of_letters() {
    assert_ne!(h("A"), h("a"));
}

#[test]
fn hash_records_the_length() {
    assert_eq!(h("normal_s01").len(), 10);
    assert_eq!(h("normal_s100").len(), 11);
    assert_eq!(h("").len(), 0);
}

#[test]
fn concat_is_the_hash_of_the_path_with_one_more_component() {
    assert_eq!(h("hello").append(h("world")), h("helloworld"));
    assert_eq!(h("hello").append_str("world"), h("helloworld"));
    assert_eq!(h("stage").concat(h("mario")), h("stage/mario"));
    assert_eq!(h("stage/mario").concat(h("normal")), h("stage/mario/normal"));
    assert_ne!(h("stage").concat(h("mario")), h("stagemario"));
    assert_ne!(h("hello").append(h("world")), h("hello"));
    assert_ne!(h("hello").append(h("world")), h("world"));
}

#[test]
fn concat_onto_nothing_gives_the_second() {
    assert_eq!(Hash40(0).append(h("stage")), h("stage"));
}

#[test]
fn numbered_hash_pads_to_two_digits() {
    assert_eq!(numbered_hash("normal_s", 7, ""), h("normal_s07"));
    assert_eq!(numbered_hash("normal_s", 42, ""), h("normal_s42"));
    assert_eq!(numbered_hash("battle_s", 123, ""), h("battle_s123"));
    assert_eq!(numbered_hash("_s", 5, ".bntx"), h("_s05.bntx"));
    assert_eq!(numbered_hash("s", 0, ".bntx"), h("s00.bntx"));
    assert_eq!(numbered_hash("", 1000, ""), h("1000"));
}

#[test]
fn guess_hash_tells_alternates() {
    assert_eq!(guess_hash(h("normal_s01")), Some((1, true)));
    assert_eq!(guess_hash(h("battle_s12")), Some((12, false)));
    assert_eq!(guess_hash(h("normal_s99")), Some((99, true)));
    assert_eq!(guess_hash(h("normal_s100")), Some((100, true)));
    assert_eq!(guess_hash(h("battle_s999")), Some((999, false)));
}

#[test]
fn guess_hash_refuses_other_names() {
    assert_eq!(guess_hash(h("normal")), None);
    assert_eq!(guess_hash(h("battle")), None);
    assert_eq!(guess_hash(h("normal_s00")), None);
    assert_eq!(guess_hash(h("normal_s1")), None);
    assert_eq!(guess_hash(h("normal_s1000")), None);
    assert_eq!(guess_hash(h("normal_s001")), None);
    assert_eq!(guess_hash(h("render_s01")), None);
}

#[test]
fn stage_kind_of_special_names() {
    assert_eq!(StageKind::from_hash(h("training")), StageKind::Training);
    assert_eq!(StageKind::from_hash(h("battlefield")), StageKind::Battlefield);
    assert_eq!(StageKind::from_hash(h("battlefield_s")), StageKind::SmallBattlefield);
    assert_eq!(StageKind::from_hash(h("battlefield_l")), StageKind::BigBattlefield);
    assert_eq!(StageKind::from_hash(h("end")), StageKind::FinalDestination);
    assert_eq!(StageKind::from_hash(h("jack_mementoes")), StageKind::DLC(h("jack_mementoes")));
    assert_eq!(StageKind::from_hash(h("trail_castle")), StageKind::DLC(h("trail_castle")));
    assert_eq!(StageKind::from_hash(h("mario_castle")), StageKind::Normal(h("mario_castle")));
    assert_eq!(StageKind::from(h("end")), StageKind::FinalDestination);
    assert_eq!(StageKind::from(h("ff_cave")), StageKind::DLC(h("ff_cave")));
}

#[test]
fn stage_kind_gives_its_name_back() {
    assert_eq!(StageKind::Training.as_hash(), h("training"));
    assert_eq!(StageKind::Battlefield.as_hash(), h("battlefield"));
    assert_eq!(StageKind::SmallBattlefield.as_hash(), h("battlefield_s"));
    assert_eq!(StageKind::BigBattlefield.as_hash(), h("battlefield_l"));
    assert_eq!(StageKind::FinalDestination.as_hash(), h("end"));
    assert_eq!(StageKind::Normal(h("zelda_tower")).as_hash(), h("zelda_tower"));
    assert_eq!(StageKind::DLC(h("ff_cave")).as_hash(), h("ff_cave"));
}

#[test]
fn dlc_stages_are_eleven_names() {
    let names = [
        "jack_mementoes",
        "brave_altar",
        "buddy_spiral",
        "dolly_stadium",
        "fe_shrine",
        "tantan_spring",
        "pickel_world",
        "ff_cave",
        "xeno_alst",
        "demon_dojo",
        "trail_castle",
    ];
    for name in names {
        assert!(is_dlc_stage(h(name)));
    }
    assert!(!is_dlc_stage(h("mario_castle")));
    assert!(!is_dlc_stage(h("battlefield")));
}

#[test]
fn ui_paths_of_an_ordinary_stage() {
    let kind = StageKind::Normal(h("mario_castle"));
    let paths = UiPaths::new(kind, 0);
    assert_eq!(paths.normal, h("ui/replace/stage/stage_2/stage_2_mario_castle.bntx"));
    assert_eq!(paths.battle, h("ui/replace/stage/stage_4/stage_4_mario_castle.bntx"));
    assert_eq!(paths.end, h("ui/replace/stage/stage_3/stage_3_mario_castle.bntx"));
    let paths = UiPaths::new(kind, 1);
    assert_eq!(paths.normal, h("ui/replace/stage/stage_2/stage_2_mario_castle_s01.bntx"));
    assert_eq!(paths.battle, h("ui/replace/stage/stage_4/stage_4_mario_castle_s01.bntx"));
    assert_eq!(paths.end, h("ui/replace/stage/stage_3/stage_3_mario_castle_s01.bntx"));
}

#[test]
fn ui_paths_of_the_battlefields() {
    let paths = UiPaths::new(StageKind::Battlefield, 2);
    assert_eq!(paths.normal, h("ui/replace/stage/stage_2/stage_2_battlefield_s02.bntx"));
    assert_eq!(paths.battle, h("ui/replace/stage/stage_2/stage_2_battlefield_s02.bntx"));
    assert_eq!(paths.end, h("ui/replace/stage/stage_3/stage_3_battlefield_s02.bntx"));
    let paths = UiPaths::new(StageKind::SmallBattlefield, 0);
    assert_eq!(paths.normal, h("ui/replace_patch/stage/stage_2/stage_2_battlefield_s.bntx"));
    assert_eq!(paths.battle, h("ui/replace/stage/stage_2/stage_2_battlefield.bntx"));
    assert_eq!(paths.end, h("ui/replace/stage/stage_3/stage_3_battlefield_s00.bntx"));
    let paths = UiPaths::new(StageKind::BigBattlefield, 12);
    assert_eq!(paths.normal, h("ui/replace/stage/stage_2/stage_2_battlefield_l_s12.bntx"));
}

#[test]
fn ui_paths_of_downloadable_and_special_stages() {
    let paths = UiPaths::new(StageKind::DLC(h("jack_mementoes")), 0);
    assert_eq!(paths.normal, h("ui/replace_patch/stage/stage_2/stage_2_jack_mementoes.bntx"));
    assert_eq!(paths.battle, h("ui/replace_patch/stage/stage_4/stage_4_jack_mementoes.bntx"));
    assert_eq!(paths.end, h("ui/replace_patch/stage/stage_4/stage_3_jack_mementoes.bntx"));
    let paths = UiPaths::new(StageKind::Training, 3);
    assert_eq!(paths.normal, h("ui/replace/stage/stage_2/stage_2_training_s03.bntx"));
    assert_eq!(paths.battle, paths.normal);
    assert_eq!(paths.end, paths.normal);
    let paths = UiPaths::new(StageKind::FinalDestination, 1);
    assert_eq!(paths.normal, h("ui/replace/stage/stage_2/stage_2_end_s01.bntx"));
    assert_eq!(paths.battle, h("ui/replace/stage/stage_4/stage_4_end_s01.bntx"));
    assert_eq!(paths.end, paths.normal);
}

#[test]
fn level_labels_are_coloured() {
    assert_eq!(colorize_level(Level::Error), "\u{1b}[91mERROR\u{1b}[39m");
    assert_eq!(colorize_level(Level::Warn), "\u{1b}[33m WARN\u{1b}[39m");
    assert_eq!(colorize_level(Level::Info), "\u{1b}[32m INFO\u{1b}[39m");
    assert_eq!(colorize_level(Level::Debug), "\u{1b}[92mDEBUG\u{1b}[39m");
    assert_eq!(colorize_level(Level::Trace), "\u{1b}[37mTRACE\u{1b}[39m");
}

#[test]
fn logger_accepts_every_level() {
    let logger = StageAltsLogger::new();
    assert!(logger.enabled(Level::Trace));
    assert!(logger.enabled(Level::Error));
    check_download_hashes();
}

#[test]
fn text_order_is_by_bytes() {
    assert!(text_before("abc", "abd"));
    assert!(!text_before("abd", "abc"));
    assert!(!text_before("abc", "abc"));
    assert!(text_before("ab", "abc"));
    assert!(!text_before("abc", "ab"));
    assert!(!text_before("b", "abc"));
    assert!(!text_before("", ""));
    assert!(text_before("", "a"));
    assert!(text_before("Z", "a"));
}

#[test]
fn name_table_knows_what_was_put_in() {
    let empty = init_hash_lookup(true, vec!["normal".to_string()]);
    assert_eq!(empty.get(h("normal")), None);
    let table = init_hash_lookup(false, vec!["normal".to_string(), "battle".to_string()]);
    assert_eq!(table.get(h("normal")), Some("normal"));
    assert_eq!(table.get(h("battle")), Some("battle"));
    assert_eq!(table.get(h("other")), None);
    let mut table = NameTable::new();
    table.insert("lvd".to_string());
    assert_eq!(table.get(h("lvd")), Some("lvd"));
}

#[test]
fn known_names_come_before_unknown_ones() {
    let table = init_hash_lookup(false, vec!["alpha".to_string(), "beta".to_string()]);
    let alpha = SearchKey::new(&table, h("alpha"));
    let beta = SearchKey::new(&table, h("beta"));
    let unknown = SearchKey::new(&table, Hash40(5));
    let other = SearchKey::new(&table, Hash40(9));
    assert!(alpha.before(&beta));
    assert!(!beta.before(&alpha));
    assert!(!alpha.before(&alpha));
    assert!(beta.before(&unknown));
    assert!(!unknown.before(&alpha));
    assert!(unknown.before(&other));
    assert!(!other.before(&unknown));
    assert!(!unknown.before(&unknown));
}

#[test]
fn directories_come_before_files() {
    let table = init_hash_lookup(false, vec!["alpha".to_string(), "beta".to_string()]);
    let file = SearchEntry { key: SearchKey::new(&table, h("alpha")), is_folder: false, index: 0 };
    let folder = SearchEntry { key: SearchKey::new(&table, h("beta")), is_folder: true, index: 1 };
    let late = SearchEntry { key: SearchKey::new(&table, h("beta")), is_folder: false, index: 2 };
    assert!(folder.before(&file));
    assert!(!file.before(&folder));
    assert!(file.before(&late));
    assert!(!late.before(&file));
}
