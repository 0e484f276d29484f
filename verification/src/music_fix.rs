//! The songs that may play on a stage: which songs are allowed at all, the
//! songs of each series, and the series of each stage.

use std::collections::{HashMap, HashSet};
use vstd::prelude::*;
use crate::hash::Hash40;

verus! {

broadcast use vstd::std_specs::hash::group_hash_axioms;

/// The hash that `hash40::hash40` gives to a text: that of the text with
/// its ASCII letters in lower case.
pub uninterp spec fn label_hash(text: Seq<char>) -> u64;

/// Calls `hash40::hash40` on the text. The contract names the result after
/// the text alone.
#[verifier::external_body]
pub(crate) fn hash_label(text: &str) -> (hash: Hash40)
    ensures
        hash.0 == label_hash(text@),
{
    Hash40(hash40::hash40(text).0)
}

/// Calls `rand::seq::IndexedRandom::choose` on the list with the thread's
/// generator, `rand::rng`. The crate gives an element of the list, and
/// nothing only where the list is empty; which element it is depends on
/// chance, and nothing more is stated of it.
#[verifier::external_body]
fn choose_song(list: &Vec<Hash40>) -> (choice: Option<Hash40>)
    ensures
        match choice {
            Some(song) => list@.contains(song),
            None => list@.len() == 0,
        },
{
    rand::seq::IndexedRandom::choose(list.as_slice(), &mut rand::rng()).copied()
}

/// The songs of a list, as a set.
pub open spec fn songs_of(list: Seq<Hash40>) -> Set<u64>
    decreases list.len(),
{
    if list.len() == 0 {
        Set::empty()
    } else {
        songs_of(list.drop_last()).insert(list.last().0)
    }
}

/// A table of series with the view of the songs of each.
pub open spec fn series_views(table: Seq<(Hash40, Vec<Hash40>)>) -> Seq<(Hash40, Seq<Hash40>)> {
    Seq::new(table.len(), |i: int| (table[i].0, table[i].1@))
}

/// The list of the series `series` holds the song `id`.
pub open spec fn holds_song(lists: Map<u64, Seq<Hash40>>, series: u64, id: u64) -> bool {
    lists.contains_key(series) && songs_of(lists[series]).contains(id)
}

/// The songs of all lists of a map of series: those that some list holds.
pub open spec fn songs_in(lists: Map<u64, Seq<Hash40>>) -> Set<u64> {
    Set::new(|id: u64| exists|series: u64| holds_song(lists, series, id))
}

/// The songs of the lists of the series named by `keys`.
pub open spec fn songs_upto(lists: Map<u64, Seq<Hash40>>, keys: Seq<u64>) -> Set<u64>
    decreases keys.len(),
{
    if keys.len() == 0 {
        Set::empty()
    } else if lists.contains_key(keys.last()) {
        songs_upto(lists, keys.drop_last()).union(songs_of(lists[keys.last()]))
    } else {
        songs_upto(lists, keys.drop_last())
    }
}

/// A song is among those of the named series where the list of one of
/// them holds it.
proof fn lemma_songs_upto(lists: Map<u64, Seq<Hash40>>, keys: Seq<u64>, id: u64)
    ensures
        songs_upto(lists, keys).contains(id) <==> exists|j: int|
            0 <= j < keys.len() && holds_song(lists, #[trigger] keys[j], id),
    decreases keys.len(),
{
    if keys.len() > 0 {
        let shorter = keys.drop_last();
        lemma_songs_upto(lists, shorter, id);
        if exists|j: int| 0 <= j < shorter.len() && holds_song(lists, #[trigger] shorter[j], id) {
            let j = choose|j: int|
                0 <= j < shorter.len() && holds_song(lists, #[trigger] shorter[j], id);
            assert(holds_song(lists, keys[j], id));
        }
        if holds_song(lists, keys.last(), id) {
            assert(holds_song(lists, keys[keys.len() - 1], id));
        }
        if exists|j: int| 0 <= j < keys.len() && holds_song(lists, #[trigger] keys[j], id) {
            let j = choose|j: int| 0 <= j < keys.len() && holds_song(lists, #[trigger] keys[j], id);
            if j < shorter.len() {
                assert(holds_song(lists, shorter[j], id));
            }
        }
    }
}

/// The series of a table, row by row.
pub open spec fn keys_of(series: Seq<(Hash40, Seq<Hash40>)>) -> Seq<u64> {
    Seq::new(series.len(), |i: int| series[i].0.0)
}

/// The songs of each series of a table; a later row replaces an earlier one
/// of the same series.
pub open spec fn lists_of(series: Seq<(Hash40, Seq<Hash40>)>) -> Map<u64, Seq<Hash40>>
    decreases series.len(),
{
    if series.len() == 0 {
        Map::empty()
    } else {
        lists_of(series.drop_last()).insert(series.last().0.0, series.last().1)
    }
}

/// The series that have a list are those of the rows of the table.
proof fn lemma_lists_keys(series: Seq<(Hash40, Seq<Hash40>)>, key: u64)
    ensures
        lists_of(series).contains_key(key) <==> exists|j: int|
            0 <= j < series.len() && #[trigger] keys_of(series)[j] == key,
    decreases series.len(),
{
    if series.len() > 0 {
        let shorter = series.drop_last();
        lemma_lists_keys(shorter, key);
        if exists|j: int| 0 <= j < shorter.len() && #[trigger] keys_of(shorter)[j] == key {
            let j = choose|j: int| 0 <= j < shorter.len() && #[trigger] keys_of(shorter)[j] == key;
            assert(keys_of(series)[j] == key);
        }
        if series.last().0.0 == key {
            assert(keys_of(series)[series.len() - 1] == key);
        }
        if exists|j: int| 0 <= j < series.len() && #[trigger] keys_of(series)[j] == key {
            let j = choose|j: int| 0 <= j < series.len() && #[trigger] keys_of(series)[j] == key;
            if j < shorter.len() {
                assert(keys_of(shorter)[j] == key);
            }
        }
    }
}

/// The songs of the lists that a table of series keeps are those of the
/// lists of its rows' series.
proof fn lemma_songs_of_table(series: Seq<(Hash40, Seq<Hash40>)>)
    ensures
        songs_upto(lists_of(series), keys_of(series)) == songs_in(lists_of(series)),
{
    let lists = lists_of(series);
    let keys = keys_of(series);
    assert forall|id: u64| songs_upto(lists, keys).contains(id) == songs_in(lists).contains(
        id,
    ) by {
        lemma_songs_upto(lists, keys, id);
        if songs_in(lists).contains(id) {
            let k = choose|k: u64| holds_song(lists, k, id);
            lemma_lists_keys(series, k);
            let j = choose|j: int| 0 <= j < series.len() && #[trigger] keys_of(series)[j] == k;
            assert(holds_song(lists, keys[j], id));
        }
        if songs_upto(lists, keys).contains(id) {
            let j = choose|j: int| 0 <= j < keys.len() && holds_song(lists, #[trigger] keys[j], id);
            assert(holds_song(lists, keys[j], id));
        }
    }
    assert(songs_upto(lists, keys) =~= songs_in(lists));
}

/// The series of each stage of a table; a later row replaces an earlier one
/// of the same stage.
pub open spec fn series_of(stages: Seq<(Hash40, Hash40)>) -> Map<u64, u64>
    decreases stages.len(),
{
    if stages.len() == 0 {
        Map::empty()
    } else {
        series_of(stages.drop_last()).insert(stages.last().0.0, stages.last().1.0)
    }
}

/// The song that plays where a stage has none of its own.
pub open spec fn fallback_song() -> u64 {
    label_hash("ui_bgm_crs2_02_senjyou"@)
}

/// Which songs are allowed, the songs of each series, and the series of
/// each stage.
pub struct MusicCache {
    pub allowed_songs: HashSet<u64>,
    pub song_by_series: HashMap<u64, Vec<Hash40>>,
    pub stage_to_series: HashMap<u64, u64>,
}

impl MusicCache {
    /// The songs of each series.
    pub open spec fn lists(&self) -> Map<u64, Seq<Hash40>> {
        Map::new(
            |series: u64| self.song_by_series@.contains_key(series),
            |series: u64| self.song_by_series@[series]@,
        )
    }

    /// The songs of the series of a stage, where the stage has a series and
    /// the series a list.
    pub open spec fn stage_songs(&self, stage: u64) -> Option<Seq<Hash40>> {
        if self.stage_to_series@.contains_key(stage) && self.song_by_series@.contains_key(
            self.stage_to_series@[stage],
        ) {
            Some(self.song_by_series@[self.stage_to_series@[stage]]@)
        } else {
            None
        }
    }

    /// Builds the cache from the table of series, each with its songs, and
    /// the table of stages, each with its series. Of two rows of one series
    /// the later is kept, and the songs allowed are those of the lists that
    /// are kept.
    pub fn new(series: Vec<(Hash40, Vec<Hash40>)>, stages: Vec<(Hash40, Hash40)>) -> (cache:
        MusicCache)
        ensures
            cache.lists() == lists_of(series_views(series@)),
            cache.allowed_songs@ == songs_in(cache.lists()),
            cache.stage_to_series@ == series_of(stages@),
    {
        let ghost views = series_views(series@);
        let mut keys: Vec<u64> = Vec::new();
        let mut i: usize = 0;
        while i < series.len()
            invariant
                i <= series.len(),
                views == series_views(series@),
                keys@ == keys_of(views).take(i as int),
            decreases series.len() - i,
        {
            keys.push(series[i].0.0);
            proof {
                assert(keys@ =~= keys_of(views).take(i + 1));
            }
            i += 1;
        }
        proof {
            assert(keys@ =~= keys_of(views));
        }
        let mut stage_to_series: HashMap<u64, u64> = HashMap::new();
        let mut k: usize = 0;
        while k < stages.len()
            invariant
                k <= stages.len(),
                stage_to_series@ == series_of(stages@.take(k as int)),
            decreases stages.len() - k,
        {
            proof {
                assert(stages@.take(k + 1).drop_last() =~= stages@.take(k as int));
            }
            stage_to_series.insert(stages[k].0.0, stages[k].1.0);
            k += 1;
        }
        proof {
            assert(stages@.take(k as int) =~= stages@);
        }
        let ghost all = series@;
        let mut series = series;
        let mut rest: Vec<(Hash40, Vec<Hash40>)> = Vec::new();
        while series.len() > 0
            invariant
                all == series@ + rest@.reverse(),
            decreases series.len(),
        {
            let ghost longer = series@;
            let row = series.pop().unwrap();
            rest.push(row);
            proof {
                assert(rest@.reverse() =~= seq![row] + rest@.drop_last().reverse());
                assert(longer =~= series@ + seq![row]);
                assert(all =~= series@ + rest@.reverse());
            }
        }
        let mut song_by_series: HashMap<u64, Vec<Hash40>> = HashMap::new();
        let ghost mut done: Seq<(Hash40, Vec<Hash40>)> = Seq::empty();
        proof {
            assert(all =~= rest@.reverse());
            assert(Map::new(
                |series: u64| song_by_series@.contains_key(series),
                |series: u64| song_by_series@[series]@,
            ) =~= lists_of(series_views(done)));
        }
        while rest.len() > 0
            invariant
                all == done + rest@.reverse(),
                Map::new(
                    |series: u64| song_by_series@.contains_key(series),
                    |series: u64| song_by_series@[series]@,
                ) == lists_of(series_views(done)),
            decreases rest.len(),
        {
            let ghost longer = rest@;
            let ghost before = song_by_series@;
            let row = rest.pop().unwrap();
            proof {
                assert(longer.reverse() =~= seq![row] + rest@.reverse());
                assert(series_views(done.push(row)).drop_last() =~= series_views(done));
                assert(all =~= done.push(row) + rest@.reverse());
            }
            let ghost key = row.0.0;
            let ghost list = row.1@;
            song_by_series.insert(row.0.0, row.1);
            proof {
                assert(Map::new(
                    |series: u64| song_by_series@.contains_key(series),
                    |series: u64| song_by_series@[series]@,
                ) =~= Map::new(
                    |series: u64| before.contains_key(series),
                    |series: u64| before[series]@,
                ).insert(key, list));
                done = done.push(row);
            }
        }
        proof {
            assert(all =~= done);
        }
        let ghost lists = lists_of(views);
        let mut allowed_songs: HashSet<u64> = HashSet::new();
        let mut n: usize = 0;
        while n < keys.len()
            invariant
                n <= keys.len(),
                lists == Map::new(
                    |series: u64| song_by_series@.contains_key(series),
                    |series: u64| song_by_series@[series]@,
                ),
                allowed_songs@ == songs_upto(lists, keys@.take(n as int)),
            decreases keys.len() - n,
        {
            proof {
                assert(keys@.take(n + 1).drop_last() =~= keys@.take(n as int));
                assert(keys@.take(n + 1).last() == keys@[n as int]);
            }
            let ghost before = allowed_songs@;
            match song_by_series.get(&keys[n]) {
                Some(list) => {
                    let mut j: usize = 0;
                    while j < list.len()
                        invariant
                            j <= list@.len(),
                            allowed_songs@ == before.union(songs_of(list@.take(j as int))),
                        decreases list@.len() - j,
                    {
                        proof {
                            assert(list@.take(j + 1).drop_last() =~= list@.take(j as int));
                            assert(before.union(songs_of(list@.take(j as int))).insert(
                                list@[j as int].0,
                            ) =~= before.union(songs_of(list@.take(j + 1))));
                        }
                        allowed_songs.insert(list[j].0);
                        j += 1;
                    }
                    proof {
                        assert(list@.take(j as int) =~= list@);
                        assert(lists[keys@[n as int]] == list@);
                    }
                },
                None => {},
            }
            n += 1;
        }
        proof {
            assert(keys@.take(n as int) =~= keys@);
            lemma_songs_of_table(views);
        }
        MusicCache { allowed_songs, song_by_series, stage_to_series }
    }

    /// Tells whether a song is one of those allowed.
    pub fn is_song_allowed(&self, hash: Hash40) -> (allowed: bool)
        ensures
            allowed == self.allowed_songs@.contains(hash.0),
    {
        self.allowed_songs.contains(&hash.0)
    }

    /// The song to play for what was chosen from a stage's songs: the
    /// chosen one, or the fallback where nothing could be chosen.
    pub fn chosen_song(choice: Option<Hash40>) -> (song: Hash40)
        ensures
            song.0 == match choice {
                Some(chosen) => chosen.0,
                None => fallback_song(),
            },
    {
        match choice {
            Some(chosen) => chosen,
            None => hash_label("ui_bgm_crs2_02_senjyou"),
        }
    }

    /// A song of the series of a stage, chosen by chance; the fallback where
    /// the stage has no series, the series no list, or the list no song.
    pub fn get_random_song(&self, stage_name: Hash40) -> (song: Hash40)
        ensures
            match self.stage_songs(stage_name.0) {
                Some(songs) => if songs.len() > 0 {
                    songs.contains(song)
                } else {
                    song.0 == fallback_song()
                },
                None => song.0 == fallback_song(),
            },
    {
        let series = match self.stage_to_series.get(&stage_name.0) {
            Some(series) => *series,
            None => {
                return MusicCache::chosen_song(None);
            },
        };
        match self.song_by_series.get(&series) {
            Some(list) => MusicCache::chosen_song(choose_song(list)),
            None => MusicCache::chosen_song(None),
        }
    }
}

} // verus!
