//! The parameter files that name the series of each stage and the songs of
//! each series, as plain trees, and the tables read from them.

use vstd::prelude::*;
use crate::hash::{str_hash, Hash40};
use crate::music_fix::{
    hash_label, label_hash, lists_of, series_of, series_views, songs_in, MusicCache,
};

verus! {

/// One value of a parameter file, as far as the tables are read from it: a
/// hash, a list of values, a structure of named values, or anything else.
#[derive(Debug)]
pub enum Param {
    Hash(Hash40),
    List(Vec<Param>),
    Struct(Vec<(Hash40, Param)>),
    Other,
}

/// The value of the first field of the name `key`.
pub open spec fn first_field(fields: Seq<(Hash40, Param)>, key: u64) -> Option<Param>
    decreases fields.len(),
{
    if fields.len() == 0 {
        None
    } else if fields[0].0.0 == key {
        Some(fields[0].1)
    } else {
        first_field(fields.skip(1), key)
    }
}

/// The hash that the first field of the name `key` holds; none where there
/// is no such field or it holds no hash.
pub open spec fn hash_field(fields: Seq<(Hash40, Param)>, key: u64) -> Option<Hash40> {
    match first_field(fields, key) {
        Some(Param::Hash(hash)) => Some(hash),
        _ => None,
    }
}

/// Finds the value of the first field of a name.
pub fn prc_get(fields: &Vec<(Hash40, Param)>, key: Hash40) -> (value: Option<&Param>)
    ensures
        match value {
            Some(found) => first_field(fields@, key.0) == Some(*found),
            None => first_field(fields@, key.0) is None,
        },
{
    let mut i: usize = 0;
    proof {
        assert(fields@.skip(0) =~= fields@);
    }
    while i < fields.len()
        invariant
            i <= fields.len(),
            first_field(fields@, key.0) == first_field(fields@.skip(i as int), key.0),
        decreases fields.len() - i,
    {
        proof {
            assert(fields@.skip(i as int).skip(1) =~= fields@.skip(i + 1));
        }
        if fields[i].0.0 == key.0 {
            return Some(&fields[i].1);
        }
        i += 1;
    }
    None
}

/// Reads the hash that the first field of a name holds.
pub fn prc_get_hash(fields: &Vec<(Hash40, Param)>, key: Hash40) -> (hash: Option<Hash40>)
    ensures
        hash == hash_field(fields@, key.0),
{
    match prc_get(fields, key) {
        Some(Param::Hash(hash)) => Some(*hash),
        _ => None,
    }
}

/// The list that the first field of a file holds.
pub open spec fn main_list(file: Seq<(Hash40, Param)>) -> Option<Seq<Param>> {
    if file.len() > 0 {
        match file[0].1 {
            Param::List(list) => Some(list@),
            _ => None,
        }
    } else {
        None
    }
}

/// The pair of hashes that each structure of a list holds under two names,
/// in the order of the list; values that are no structures are passed over.
/// There is no table where a structure lacks one of the two.
pub open spec fn pairs_of(list: Seq<Param>, first: u64, second: u64) -> Option<Seq<(Hash40, Hash40)>>
    decreases list.len(),
{
    if list.len() == 0 {
        Some(Seq::empty())
    } else {
        match list[0] {
            Param::Struct(fields) => match (
                hash_field(fields@, first),
                hash_field(fields@, second),
            ) {
                (Some(a), Some(b)) => match pairs_of(list.skip(1), first, second) {
                    Some(rest) => Some(seq![(a, b)] + rest),
                    None => None,
                },
                _ => None,
            },
            _ => pairs_of(list.skip(1), first, second),
        }
    }
}

/// Reads the pairs that the structures of a list hold under two names.
fn collect_pairs(list: &Vec<Param>, first: Hash40, second: Hash40) -> (pairs: Option<
    Vec<(Hash40, Hash40)>,
>)
    ensures
        match pairs {
            Some(pairs) => pairs_of(list@, first.0, second.0) == Some(pairs@),
            None => pairs_of(list@, first.0, second.0) is None,
        },
{
    let mut pairs: Vec<(Hash40, Hash40)> = Vec::new();
    let mut i: usize = 0;
    proof {
        assert(list@.skip(0) =~= list@);
    }
    while i < list.len()
        invariant
            i <= list.len(),
            pairs_of(list@, first.0, second.0) == match pairs_of(
                list@.skip(i as int),
                first.0,
                second.0,
            ) {
                Some(rest) => Some(pairs@ + rest),
                None => None,
            },
        decreases list.len() - i,
    {
        proof {
            assert(list@.skip(i as int).skip(1) =~= list@.skip(i + 1));
        }
        let ghost before = pairs@;
        match &list[i] {
            Param::Struct(fields) => {
                match (prc_get_hash(fields, first), prc_get_hash(fields, second)) {
                    (Some(a), Some(b)) => {
                        pairs.push((a, b));
                        proof {
                            match pairs_of(list@.skip(i + 1), first.0, second.0) {
                                Some(rest) => {
                                    assert(before + (seq![(a, b)] + rest) =~= pairs@ + rest);
                                },
                                None => {},
                            }
                        }
                    },
                    _ => {
                        return None;
                    },
                }
            },
            _ => {},
        }
        i += 1;
    }
    proof {
        assert(pairs@ + Seq::<(Hash40, Hash40)>::empty() =~= pairs@);
    }
    Some(pairs)
}

/// The table of stages and their series in a stage file: for each stage of
/// the file's main list its place and its series. There is none where the
/// file has no main list or a stage lacks one of the two.
pub open spec fn stage_series_spec(file: Seq<(Hash40, Param)>) -> Option<Seq<(Hash40, Hash40)>> {
    match main_list(file) {
        Some(list) => pairs_of(list, label_hash("stage_place_id"@), label_hash("bgm_set_id"@)),
        None => None,
    }
}

/// Reads the series of each stage from a stage file.
pub fn collect_stage_name_to_bgm_set(prc: &Vec<(Hash40, Param)>) -> (table: Option<
    Vec<(Hash40, Hash40)>,
>)
    ensures
        match table {
            Some(table) => stage_series_spec(prc@) == Some(table@),
            None => stage_series_spec(prc@) is None,
        },
{
    if prc.len() == 0 {
        return None;
    }
    match &prc[0].1 {
        Param::List(list) => collect_pairs(
            list,
            hash_label("stage_place_id"),
            hash_label("bgm_set_id"),
        ),
        _ => None,
    }
}

/// The table of menu stages and their places in a stage file: for each
/// stage of the file's main list its menu name and its place. There is none
/// where the file has no main list or a stage lacks one of the two.
pub open spec fn ui_to_place_spec(file: Seq<(Hash40, Param)>) -> Option<Seq<(Hash40, Hash40)>> {
    match main_list(file) {
        Some(list) => pairs_of(list, str_hash("ui_stage_id"@), str_hash("stage_place_id"@)),
        None => None,
    }
}

/// Reads the place of each menu stage from a stage file.
pub fn get_ui_hash_to_stage_hash(stage: &Vec<(Hash40, Param)>) -> (table: Option<
    Vec<(Hash40, Hash40)>,
>)
    ensures
        match table {
            Some(table) => ui_to_place_spec(stage@) == Some(table@),
            None => ui_to_place_spec(stage@) is None,
        },
{
    if stage.len() == 0 {
        return None;
    }
    match &stage[0].1 {
        Param::List(list) => collect_pairs(
            list,
            Hash40::new("ui_stage_id"),
            Hash40::new("stage_place_id"),
        ),
        _ => None,
    }
}

/// The songs of a list of a song file: the hash that each structure holds
/// under `ui_bgm_id`; values without one are passed over.
pub open spec fn song_ids(list: Seq<Param>) -> Seq<Hash40>
    decreases list.len(),
{
    if list.len() == 0 {
        Seq::empty()
    } else {
        let here = match list[0] {
            Param::Struct(fields) => match hash_field(fields@, label_hash("ui_bgm_id"@)) {
                Some(song) => seq![song],
                None => Seq::empty(),
            },
            _ => Seq::empty(),
        };
        here + song_ids(list.skip(1))
    }
}

/// Reads the songs of one list of a song file.
fn collect_songs(list: &Vec<Param>) -> (songs: Vec<Hash40>)
    ensures
        songs@ == song_ids(list@),
{
    let key = hash_label("ui_bgm_id");
    let mut songs: Vec<Hash40> = Vec::new();
    let mut i: usize = 0;
    proof {
        assert(list@.skip(0) =~= list@);
    }
    while i < list.len()
        invariant
            i <= list.len(),
            key.0 == label_hash("ui_bgm_id"@),
            song_ids(list@) == songs@ + song_ids(list@.skip(i as int)),
        decreases list.len() - i,
    {
        let ghost before = songs@;
        let ghost rest = song_ids(list@.skip(i + 1));
        proof {
            assert(list@.skip(i as int).skip(1) =~= list@.skip(i + 1));
        }
        match &list[i] {
            Param::Struct(fields) => match prc_get_hash(fields, key) {
                Some(song) => {
                    songs.push(song);
                    proof {
                        assert(before + (seq![song] + rest) =~= songs@ + rest);
                    }
                },
                None => {
                    proof {
                        assert(before + (Seq::<Hash40>::empty() + rest) =~= songs@ + rest);
                    }
                },
            },
            _ => {
                proof {
                    assert(before + (Seq::<Hash40>::empty() + rest) =~= songs@ + rest);
                }
            },
        }
        i += 1;
    }
    proof {
        assert(songs@ + Seq::<Hash40>::empty() =~= songs@);
    }
    songs
}

/// The series of a song file from field `from` on, each with the view of
/// its songs: one for each field that holds a list.
pub open spec fn series_from(file: Seq<(Hash40, Param)>, from: int) -> Seq<(Hash40, Seq<Hash40>)>
    decreases file.len() - from,
{
    if from < 0 || from >= file.len() {
        Seq::empty()
    } else {
        let here = match file[from].1 {
            Param::List(list) => seq![(file[from].0, song_ids(list@))],
            _ => Seq::empty(),
        };
        here + series_from(file, from + 1)
    }
}

/// Reads the songs of each series from a song file. The series are the
/// lists from the seventh field on; the six before them hold other tables.
pub fn collect_bgm_lists(prc: &Vec<(Hash40, Param)>) -> (table: Vec<(Hash40, Vec<Hash40>)>)
    ensures
        series_views(table@) == series_from(prc@, 6),
{
    let mut table: Vec<(Hash40, Vec<Hash40>)> = Vec::new();
    let mut i: usize = 6;
    proof {
        assert(series_views(table@) =~= Seq::<(Hash40, Seq<Hash40>)>::empty());
        assert(series_from(prc@, 6) =~= series_views(table@) + series_from(prc@, 6));
    }
    while i < prc.len()
        invariant
            6 <= i,
            series_from(prc@, 6) == series_views(table@) + series_from(prc@, i as int),
        decreases prc.len() - i,
    {
        let ghost before = series_views(table@);
        let ghost rest = series_from(prc@, i + 1);
        match &prc[i].1 {
            Param::List(list) => {
                let songs = collect_songs(list);
                table.push((prc[i].0, songs));
                proof {
                    assert(series_views(table@) =~= before + seq![(prc@[i as int].0, song_ids(list@))]);
                    assert(before + (seq![(prc@[i as int].0, song_ids(list@))] + rest)
                        =~= series_views(table@) + rest);
                }
            },
            _ => {
                proof {
                    assert(before + (Seq::<(Hash40, Seq<Hash40>)>::empty() + rest) =~= before
                        + rest);
                }
            },
        }
        i += 1;
    }
    proof {
        assert(series_views(table@) + Seq::<(Hash40, Seq<Hash40>)>::empty() =~= series_views(
            table@,
        ));
    }
    table
}

/// Builds the cache of songs from a stage file and a song file. There is
/// none where the stage file has no main list or one of its stages lacks
/// its place or its series.
pub fn cache_from_files(stage: &Vec<(Hash40, Param)>, music: &Vec<(Hash40, Param)>) -> (cache:
    Option<MusicCache>)
    ensures
        cache is Some == stage_series_spec(stage@) is Some,
        cache matches Some(built) ==> built.stage_to_series@ == series_of(
            stage_series_spec(stage@).unwrap(),
        ) && built.allowed_songs@ == songs_in(lists_of(series_from(music@, 6))) && built.lists()
            == lists_of(series_from(music@, 6)),
{
    let stages = match collect_stage_name_to_bgm_set(stage) {
        Some(stages) => stages,
        None => {
            return None;
        },
    };
    let series = collect_bgm_lists(music);
    Some(MusicCache::new(series, stages))
}

} // verus!
