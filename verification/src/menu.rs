//! What the stage menu asks of redirection: the stage behind a panel, the
//! number of its alternates, the artwork of one of them, and the field of a
//! song's identifier that carries the chosen alternate.

use vstd::prelude::*;
use crate::archive::DirectoryTable;
use crate::backup::HashTable;
use crate::hash::Hash40;
use crate::manager::{
    ui_paths_spec, AltManager, SelectedAltInfo, StageInfo, StageKind, UiPaths,
};

verus! {

/// The hash in the low forty bits of a word.
pub open spec fn low_hash(word: u64) -> u64 {
    word & 0xFF_FFFF_FFFF
}

/// The stage of each panel of the menu: for the panel at each position of
/// `keys` whose menu name has a place, that place.
pub open spec fn panels_of(ui_to_place: Map<u64, u64>, keys: Seq<u64>) -> Map<u64, u64>
    decreases keys.len(),
{
    if keys.len() == 0 {
        Map::empty()
    } else {
        let before = panels_of(ui_to_place, keys.drop_last());
        if ui_to_place.contains_key(low_hash(keys.last())) {
            before.insert((keys.len() - 1) as u64, ui_to_place[low_hash(keys.last())])
        } else {
            before
        }
    }
}

/// Finds the stage of each panel of the menu. The menu name of a panel is
/// the low forty bits of its key; a panel whose menu name has no place gets
/// no stage.
pub fn panel_stages(ui_to_place: &HashTable, keys: &Vec<u64>) -> (panels: HashTable)
    ensures
        panels@ == panels_of(ui_to_place@, keys@),
{
    let mut panels = HashTable::new();
    let mut i: usize = 0;
    while i < keys.len()
        invariant
            i <= keys.len(),
            panels@ == panels_of(ui_to_place@, keys@.take(i as int)),
        decreases keys.len() - i,
    {
        proof {
            assert(keys@.take(i + 1).drop_last() =~= keys@.take(i as int));
        }
        match ui_to_place.get(keys[i] & 0xFF_FFFF_FFFF) {
            Some(place) => {
                panels.insert(i as u64, place);
            },
            None => {},
        }
        i += 1;
    }
    proof {
        assert(keys@.take(i as int) =~= keys@);
    }
    panels
}

/// Takes the panels of the menu: the manager then knows the stage behind
/// each panel whose menu name has a place, and of no other panel.
pub fn is_valid_entrance_param(manager: &mut AltManager, keys: &Vec<u64>)
    ensures
        final(manager).index_to_hash@ == panels_of(old(manager).ui_to_place@, keys@),
        final(manager).ui_to_place == old(manager).ui_to_place,
        final(manager).alts == old(manager).alts,
        final(manager).selected_alts == old(manager).selected_alts,
        final(manager).backup_filepaths == old(manager).backup_filepaths,
        final(manager).backup_searchpaths == old(manager).backup_searchpaths,
{
    let panels = panel_stages(&manager.ui_to_place, keys);
    manager.index_to_hash = panels;
}

/// The stage behind a panel; none for the panel that stands for no panel
/// and for one without a stage.
pub open spec fn panel_stage(panels: Map<u64, u64>, panel_id: usize) -> Option<Hash40> {
    if panel_id != usize::MAX && panels.contains_key(panel_id as u64) {
        Some(Hash40(panels[panel_id as u64]))
    } else {
        None
    }
}

/// Finds the stage behind a panel.
pub fn stage_of_panel(panels: &HashTable, panel_id: usize) -> (stage: Option<Hash40>)
    ensures
        stage == panel_stage(panels@, panel_id),
{
    if panel_id == usize::MAX {
        None
    } else {
        panels.get(panel_id as u64)
    }
}

/// The number of alternates of the form of the stage behind a panel; form
/// zero is the normal form, any other the battlefield form. Zero where the
/// panel has no stage.
pub fn get_panel_alt_count(manager: &AltManager, panel_id: usize, form_id: usize) -> (count: usize)
    ensures
        count == match panel_stage(manager.index_to_hash@, panel_id) {
            Some(name) => manager.alts.alts_spec(
                StageInfo { name, normal_form: form_id == 0 },
            ).len(),
            None => 0,
        },
{
    match stage_of_panel(&manager.index_to_hash, panel_id) {
        Some(name) => manager.alts.alt_count(StageInfo { name, normal_form: form_id == 0 }),
        None => 0,
    }
}

/// The artwork of a form: the battlefield form's for one, the omega form's
/// for two, the normal form's for any other number.
pub open spec fn form_artwork(paths: UiPaths, form_id: usize) -> Hash40 {
    if form_id == 1 {
        paths.battle
    } else if form_id == 2 {
        paths.end
    } else {
        paths.normal
    }
}

/// The path of the artwork that the menu shows for the alternate at place
/// `alt_id` of the stage behind a panel: that of the stage as it came for
/// place zero, else that of the catalog's alternate. None where the panel
/// has no stage or the form no alternate at that place.
pub open spec fn alt_texture_spec(
    manager: &AltManager,
    panel_id: usize,
    form_id: usize,
    alt_id: usize,
) -> Option<Hash40> {
    match panel_stage(manager.index_to_hash@, panel_id) {
        None => None,
        Some(name) => if alt_id == 0 {
            Some(form_artwork(ui_paths_spec(StageKind::from_hash_spec(name), 0), form_id))
        } else {
            let alts = manager.alts.alts_spec(StageInfo { name, normal_form: form_id == 0 });
            if alt_id <= alts.len() {
                Some(form_artwork(alts[alt_id - 1].ui_paths, form_id))
            } else {
                None
            }
        },
    }
}

/// Finds the path of the artwork that the menu shows for an alternate.
pub fn alt_texture_path(manager: &AltManager, panel_id: usize, form_id: usize, alt_id: usize) -> (path:
    Option<Hash40>)
    ensures
        path == alt_texture_spec(manager, panel_id, form_id, alt_id),
{
    let name = match stage_of_panel(&manager.index_to_hash, panel_id) {
        Some(name) => name,
        None => {
            return None;
        },
    };
    let paths = if alt_id == 0 {
        UiPaths::new(StageKind::from_hash(name), 0)
    } else {
        match manager.nth_alt(StageInfo { name, normal_form: form_id == 0 }, alt_id) {
            Some(alt) => alt.ui_paths,
            None => {
                return None;
            },
        }
    };
    if form_id == 1 {
        Some(paths.battle)
    } else if form_id == 2 {
        Some(paths.end)
    } else {
        Some(paths.normal)
    }
}

/// The position of the file of an alternate's artwork, for the menu to
/// load: minus one where there is no artwork or the directory table does
/// not know its file.
pub fn get_alt_texture_index(
    manager: &AltManager,
    arc: &DirectoryTable,
    panel_id: usize,
    form_id: usize,
    alt_id: usize,
) -> (index: i64)
    ensures
        index == match alt_texture_spec(manager, panel_id, form_id, alt_id) {
            Some(path) => match arc@.file_path_position_spec(path.0) {
                Some(position) => position as i64,
                None => -1i64,
            },
            None => -1i64,
        },
{
    match alt_texture_path(manager, panel_id, form_id, alt_id) {
        Some(path) => match arc.file_path_position(path) {
            Some(position) => position as i64,
            None => -1,
        },
        None => -1,
    }
}

/// The selection that the menu hands over for one place: the alternate's
/// place in the catalog, the panel and the form, each a number that is not
/// negative, and a panel that has a stage; else none.
pub open spec fn selection_spec(panels: Map<u64, u64>, alt: i64, panel: i64, form: i64) -> Option<
    SelectedAltInfo,
> {
    if form < 0 || panel < 0 || alt < 0 || !panels.contains_key(panel as u64) {
        None
    } else {
        Some(
            SelectedAltInfo {
                index: alt as usize,
                stage_info: StageInfo { name: Hash40(panels[panel as u64]), normal_form: form == 0 },
            },
        )
    }
}

/// Reads the selection that the menu hands over for one place.
pub fn selection_of(panels: &HashTable, alt: i64, panel: i64, form: i64) -> (selected: Option<
    SelectedAltInfo,
>)
    ensures
        selected == selection_spec(panels@, alt, panel, form),
{
    if form < 0 || panel < 0 || alt < 0 {
        return None;
    }
    match panels.get(panel as u64) {
        Some(name) => Some(
            SelectedAltInfo {
                index: alt as usize,
                stage_info: StageInfo { name, normal_form: form == 0 },
            },
        ),
        None => None,
    }
}

/// Takes the three selections of the menu: where there is a first, it and
/// those of the others that there are become the stages of the loads to
/// come; else the manager stays as it is.
pub fn set_alts(
    manager: &mut AltManager,
    first: Option<SelectedAltInfo>,
    second: Option<SelectedAltInfo>,
    third: Option<SelectedAltInfo>,
) -> (set: bool)
    ensures
        set == first is Some,
        !set ==> *final(manager) == *old(manager),
        set ==> final(manager).alts == old(manager).alts,
        set ==> final(manager).index_to_hash == old(manager).index_to_hash,
        set ==> final(manager).ui_to_place == old(manager).ui_to_place,
        set ==> final(manager).backup_filepaths == old(manager).backup_filepaths,
        set ==> final(manager).backup_searchpaths == old(manager).backup_searchpaths,
        set ==> final(manager).selected_alts is Some,
        set ==> final(manager).selected_alts.unwrap().current_index == 0,
        set ==> final(manager).selected_alts.unwrap().playable.slots() == match (second, third) {
            (Some(second), Some(third)) => seq![first.unwrap(), second, third],
            (Some(second), None) => seq![first.unwrap(), second],
            (None, Some(third)) => seq![first.unwrap(), third],
            (None, None) => seq![first.unwrap()],
        },
{
    match first {
        Some(first) => {
            manager.set_alts(first, second, third);
            true
        },
        None => false,
    }
}

/// The word of a song's identifier with the alternate's place written to
/// the sixteen bits above the song's hash, and all other bits as before.
pub open spec fn with_alt_spec(word: u64, alt_id: u64) -> u64 {
    (word & 0xFF00_00FF_FFFF_FFFF) | ((alt_id & 0xFFFF) << 40)
}

/// The alternate's place that the word of a song's identifier carries.
pub open spec fn alt_field_spec(word: u64) -> u64 {
    (word >> 40) & 0xFFFF
}

/// Writes the alternate's place into the word of a song's identifier.
pub fn write_alt_field_to_bgm_id(word: u64, alt_id: usize) -> (written: u64)
    ensures
        written == with_alt_spec(word, alt_id as u64),
{
    (word & 0xFF00_00FF_FFFF_FFFF) | (((alt_id as u64) & 0xFFFF) << 40)
}

/// Reads the alternate's place from the word of a song's identifier.
pub fn alt_field_of_bgm_id(word: u64) -> (alt_id: usize)
    ensures
        alt_id == alt_field_spec(word),
{
    let field = (word >> 40) & 0xFFFF;
    assert(field <= 0xFFFF) by (bit_vector)
        requires
            field == (word >> 40) & 0xFFFF,
    ;
    field as usize
}

/// Reads the song's hash from the word of a song's identifier.
pub fn song_of_bgm_id(word: u64) -> (song: Hash40)
    ensures
        song.0 == low_hash(word),
{
    Hash40(word & 0xFF_FFFF_FFFF)
}

/// The word of a song's identifier with another song: the high twenty-four
/// bits as before, the rest the new song.
pub fn with_song(word: u64, song: Hash40) -> (written: u64)
    ensures
        written == (word & 0xFFFF_FF00_0000_0000) | song.0,
{
    (word & 0xFFFF_FF00_0000_0000) | song.0
}

/// What was written to the word of a song's identifier is read from it
/// again, and the song's hash is as before.
pub proof fn lemma_alt_field_round_trip(word: u64, alt_id: u64)
    ensures
        alt_field_spec(with_alt_spec(word, alt_id)) == alt_id & 0xFFFF,
        low_hash(with_alt_spec(word, alt_id)) == low_hash(word),
{
    assert(((((word & 0xFF00_00FF_FFFF_FFFF) | ((alt_id & 0xFFFF) << 40)) >> 40) & 0xFFFF)
        == alt_id & 0xFFFF) by (bit_vector);
    assert((((word & 0xFF00_00FF_FFFF_FFFF) | ((alt_id & 0xFFFF) << 40)) & 0xFF_FFFF_FFFF) == (word
        & 0xFF_FFFF_FFFF)) by (bit_vector);
}

} // verus!
