//! The catalog of alternates, the stages selected for the next load, and
//! the manager that holds both.

use vstd::prelude::*;
use crate::archive::SearchIndex;
use crate::backup::{BackupTable, HashTable};
use crate::hash::{concat_hash, numbered_hash, numbered_text, str_hash, Hash40};
use crate::path::{ConcatHash, pretty_spec};

verus! {

/// A stage and one of its two forms: the key of the catalog.
#[derive(Clone, Copy, Debug, PartialEq, Eq, Structural)]
pub struct StageInfo {
    pub name: Hash40,
    pub normal_form: bool,
}

/// The stage and form that a path of three components names: `stage`, the
/// stage's name, and `normal` or `battle`.
pub open spec fn stage_info_spec(components: Seq<Hash40>) -> Option<StageInfo> {
    if components.len() == 3 && components[0].0 == str_hash("stage"@) {
        if components[2].0 == str_hash("normal"@) {
            Some(StageInfo { name: components[1], normal_form: true })
        } else if components[2].0 == str_hash("battle"@) {
            Some(StageInfo { name: components[1], normal_form: false })
        } else {
            None
        }
    } else {
        None
    }
}

impl StageInfo {
    /// Reads the stage and form from the path of a form's folder.
    pub fn from_path(search: &SearchIndex, hash: Hash40) -> (info: Option<StageInfo>)
        ensures
            info == stage_info_spec(pretty_spec(search@, hash.0)),
    {
        let pretty = hash.pretty(search);
        let components = pretty.components();
        if components.len() != 3 {
            return None;
        }
        if components[0].0 != Hash40::new("stage").0 {
            return None;
        }
        let name = components[1];
        if components[2].0 == Hash40::new("normal").0 {
            Some(StageInfo { name, normal_form: true })
        } else if components[2].0 == Hash40::new("battle").0 {
            Some(StageInfo { name, normal_form: false })
        } else {
            None
        }
    }
}

/// The name is one of the stages that came as downloadable content.
pub open spec fn is_dlc_stage_spec(name: u64) -> bool {
    ||| name == str_hash("jack_mementoes"@)
    ||| name == str_hash("brave_altar"@)
    ||| name == str_hash("buddy_spiral"@)
    ||| name == str_hash("dolly_stadium"@)
    ||| name == str_hash("fe_shrine"@)
    ||| name == str_hash("tantan_spring"@)
    ||| name == str_hash("pickel_world"@)
    ||| name == str_hash("ff_cave"@)
    ||| name == str_hash("xeno_alst"@)
    ||| name == str_hash("demon_dojo"@)
    ||| name == str_hash("trail_castle"@)
}

/// Tells whether a stage came as downloadable content.
pub fn is_dlc_stage(name: Hash40) -> (dlc: bool)
    ensures
        dlc == is_dlc_stage_spec(name.0),
{
    name.0 == Hash40::new("jack_mementoes").0 || name.0 == Hash40::new("brave_altar").0 || name.0
        == Hash40::new("buddy_spiral").0 || name.0 == Hash40::new("dolly_stadium").0 || name.0
        == Hash40::new("fe_shrine").0 || name.0 == Hash40::new("tantan_spring").0 || name.0
        == Hash40::new("pickel_world").0 || name.0 == Hash40::new("ff_cave").0 || name.0
        == Hash40::new("xeno_alst").0 || name.0 == Hash40::new("demon_dojo").0 || name.0
        == Hash40::new("trail_castle").0
}

/// The kinds of stage that the artwork paths tell apart.
#[derive(Clone, Copy, Debug, PartialEq, Eq)]
pub enum StageKind {
    Training,
    Battlefield,
    SmallBattlefield,
    BigBattlefield,
    FinalDestination,
    Normal(Hash40),
    DLC(Hash40),
}

impl StageKind {
    /// The name of the stage of this kind.
    pub open spec fn as_hash_spec(self) -> u64 {
        match self {
            StageKind::Training => str_hash("training"@),
            StageKind::Battlefield => str_hash("battlefield"@),
            StageKind::SmallBattlefield => str_hash("battlefield_s"@),
            StageKind::BigBattlefield => str_hash("battlefield_l"@),
            StageKind::FinalDestination => str_hash("end"@),
            StageKind::Normal(name) => name.0,
            StageKind::DLC(name) => name.0,
        }
    }

    /// The kind of the stage of a name: one of the five special stages by
    /// its name, else downloadable content or an ordinary stage.
    pub open spec fn from_hash_spec(name: Hash40) -> StageKind {
        if name.0 == str_hash("training"@) {
            StageKind::Training
        } else if name.0 == str_hash("battlefield"@) {
            StageKind::Battlefield
        } else if name.0 == str_hash("battlefield_s"@) {
            StageKind::SmallBattlefield
        } else if name.0 == str_hash("battlefield_l"@) {
            StageKind::BigBattlefield
        } else if name.0 == str_hash("end"@) {
            StageKind::FinalDestination
        } else if is_dlc_stage_spec(name.0) {
            StageKind::DLC(name)
        } else {
            StageKind::Normal(name)
        }
    }

    /// The name of the stage of this kind.
    pub fn as_hash(&self) -> (name: Hash40)
        ensures
            name.0 == self.as_hash_spec(),
    {
        match self {
            StageKind::Training => Hash40::new("training"),
            StageKind::Battlefield => Hash40::new("battlefield"),
            StageKind::SmallBattlefield => Hash40::new("battlefield_s"),
            StageKind::BigBattlefield => Hash40::new("battlefield_l"),
            StageKind::FinalDestination => Hash40::new("end"),
            StageKind::Normal(name) => *name,
            StageKind::DLC(name) => *name,
        }
    }

    /// The kind of the stage of a name.
    pub fn from_hash(name: Hash40) -> (kind: StageKind)
        ensures
            kind == StageKind::from_hash_spec(name),
    {
        if name.0 == Hash40::new("training").0 {
            StageKind::Training
        } else if name.0 == Hash40::new("battlefield").0 {
            StageKind::Battlefield
        } else if name.0 == Hash40::new("battlefield_s").0 {
            StageKind::SmallBattlefield
        } else if name.0 == Hash40::new("battlefield_l").0 {
            StageKind::BigBattlefield
        } else if name.0 == Hash40::new("end").0 {
            StageKind::FinalDestination
        } else if is_dlc_stage(name) {
            StageKind::DLC(name)
        } else {
            StageKind::Normal(name)
        }
    }
}

impl From<Hash40> for StageKind {
    /// The kind of the stage of a name.
    fn from(value: Hash40) -> (kind: StageKind) {
        StageKind::from_hash(value)
    }
}

impl vstd::std_specs::convert::FromSpecImpl<Hash40> for StageKind {
    open spec fn obeys_from_spec() -> bool {
        true
    }

    open spec fn from_spec(value: Hash40) -> StageKind {
        StageKind::from_hash_spec(value)
    }
}

/// The paths of the three pieces of artwork of one alternate of a stage.
#[derive(Clone, Copy, Debug, PartialEq, Eq)]
pub struct UiPaths {
    pub normal: Hash40,
    pub battle: Hash40,
    pub end: Hash40,
}

/// The hash of a prefix, a stage's name and an extension, in that order.
pub open spec fn artwork(prefix: Seq<char>, name: u64, extension: u64) -> u64 {
    concat_hash(concat_hash(str_hash(prefix), name), extension)
}

/// The extension of the artwork of an alternate: `.bntx`, after `_s` and the
/// alternate's number where it is not zero.
pub open spec fn extension_spec(alt: nat) -> u64 {
    if alt == 0 {
        str_hash(".bntx"@)
    } else {
        str_hash(numbered_text("_s"@, alt, ".bntx"@))
    }
}

/// The artwork of the normal form.
pub open spec fn normal_artwork(kind: StageKind, alt: nat) -> u64 {
    match kind {
        StageKind::DLC(_) | StageKind::SmallBattlefield => artwork(
            "ui/replace_patch/stage/stage_2/stage_2_"@,
            kind.as_hash_spec(),
            extension_spec(alt),
        ),
        _ => artwork("ui/replace/stage/stage_2/stage_2_"@, kind.as_hash_spec(), extension_spec(alt)),
    }
}

/// The artwork of the battlefield form.
pub open spec fn battle_artwork(kind: StageKind, alt: nat) -> u64 {
    match kind {
        StageKind::Training => normal_artwork(kind, alt),
        StageKind::Battlefield | StageKind::BigBattlefield | StageKind::SmallBattlefield => concat_hash(
            str_hash("ui/replace/stage/stage_2/stage_2_battlefield"@),
            extension_spec(alt),
        ),
        StageKind::DLC(name) => artwork(
            "ui/replace_patch/stage/stage_4/stage_4_"@,
            name.0,
            extension_spec(alt),
        ),
        _ => artwork("ui/replace/stage/stage_4/stage_4_"@, kind.as_hash_spec(), extension_spec(alt)),
    }
}

/// The artwork of the omega form.
pub open spec fn end_artwork(kind: StageKind, alt: nat) -> u64 {
    match kind {
        StageKind::Training | StageKind::FinalDestination => normal_artwork(kind, alt),
        StageKind::Battlefield | StageKind::BigBattlefield | StageKind::SmallBattlefield => concat_hash(
            str_hash("ui/replace/stage/stage_3/stage_3_battlefield_"@),
            str_hash(numbered_text("s"@, alt, ".bntx"@)),
        ),
        StageKind::DLC(name) => artwork(
            "ui/replace_patch/stage/stage_4/stage_3_"@,
            name.0,
            extension_spec(alt),
        ),
        _ => artwork("ui/replace/stage/stage_3/stage_3_"@, kind.as_hash_spec(), extension_spec(alt)),
    }
}

/// The artwork paths of the alternate `alt` of a stage.
pub open spec fn ui_paths_spec(kind: StageKind, alt: nat) -> UiPaths {
    UiPaths {
        normal: Hash40(normal_artwork(kind, alt)),
        battle: Hash40(battle_artwork(kind, alt)),
        end: Hash40(end_artwork(kind, alt)),
    }
}

/// The catalog's record of the alternate `alt` of a stage.
pub open spec fn alt_info_spec(kind: StageKind, alt: usize) -> AltInfo {
    AltInfo { slot_value: alt, wifi_safe: true, ui_paths: ui_paths_spec(kind, alt as nat) }
}

impl UiPaths {
    /// The artwork paths of the alternate `alt_id` of a stage; zero is the
    /// stage as it came.
    pub fn new(value: StageKind, alt_id: usize) -> (paths: UiPaths)
        ensures
            paths == ui_paths_spec(value, alt_id as nat),
    {
        let extension = if alt_id == 0 {
            Hash40::new(".bntx")
        } else {
            numbered_hash("_s", alt_id, ".bntx")
        };
        let normal = match value {
            StageKind::DLC(_) | StageKind::SmallBattlefield => Hash40::new(
                "ui/replace_patch/stage/stage_2/stage_2_",
            ).append(value.as_hash()).append(extension),
            _ => Hash40::new("ui/replace/stage/stage_2/stage_2_").append(value.as_hash()).append(
                extension,
            ),
        };
        let battle = match value {
            StageKind::Training => normal,
            StageKind::Battlefield | StageKind::BigBattlefield | StageKind::SmallBattlefield => Hash40::new(
                "ui/replace/stage/stage_2/stage_2_battlefield",
            ).append(extension),
            StageKind::DLC(name) => Hash40::new("ui/replace_patch/stage/stage_4/stage_4_").append(
                name,
            ).append(extension),
            _ => Hash40::new("ui/replace/stage/stage_4/stage_4_").append(value.as_hash()).append(
                extension,
            ),
        };
        let end = match value {
            StageKind::Training | StageKind::FinalDestination => normal,
            StageKind::Battlefield | StageKind::BigBattlefield | StageKind::SmallBattlefield => Hash40::new(
                "ui/replace/stage/stage_3/stage_3_battlefield_",
            ).append(numbered_hash("s", alt_id, ".bntx")),
            StageKind::DLC(name) => Hash40::new("ui/replace_patch/stage/stage_4/stage_3_").append(
                name,
            ).append(extension),
            _ => Hash40::new("ui/replace/stage/stage_3/stage_3_").append(value.as_hash()).append(
                extension,
            ),
        };
        UiPaths { normal, battle, end }
    }
}

/// One alternate of a stage's form.
#[derive(Clone, Copy, Debug, PartialEq, Eq)]
pub struct AltInfo {
    pub slot_value: usize,
    pub wifi_safe: bool,
    pub ui_paths: UiPaths,
}

/// A stage's form and the alternate chosen for it: zero for the stage as it
/// came, `n` for the `n`-th alternate of the catalog.
#[derive(Clone, Copy, Debug, PartialEq, Eq)]
pub struct SelectedAltInfo {
    pub index: usize,
    pub stage_info: StageInfo,
}

impl Default for SelectedAltInfo {
    /// Battlefield's normal form as it came.
    fn default() -> (info: SelectedAltInfo)
        ensures
            info.index == 0,
            info.stage_info.name.0 == str_hash("battlefield"@),
            info.stage_info.normal_form,
    {
        SelectedAltInfo {
            index: 0,
            stage_info: StageInfo { name: Hash40::new("battlefield"), normal_form: true },
        }
    }
}

/// The one, two or three stages that the next loads take turns on.
#[derive(Clone, Copy, Debug, PartialEq, Eq)]
pub enum PlayableAlts {
    OneStage(SelectedAltInfo),
    TwoStages([SelectedAltInfo; 2]),
    ThreeStages([SelectedAltInfo; 3]),
}

impl PlayableAlts {
    /// The selected stages in their order.
    pub open spec fn slots(self) -> Seq<SelectedAltInfo> {
        match self {
            PlayableAlts::OneStage(first) => seq![first],
            PlayableAlts::TwoStages(both) => seq![both[0], both[1]],
            PlayableAlts::ThreeStages(all) => seq![all[0], all[1], all[2]],
        }
    }
}

/// The selected stages and the count of loads since they were selected.
#[derive(Clone, Copy, Debug, PartialEq, Eq)]
pub struct SelectedAlts {
    pub playable: PlayableAlts,
    pub current_index: usize,
}

/// One entry of the catalog: an alternate and the stage's form that it
/// belongs to.
#[derive(Clone, Copy, Debug, PartialEq, Eq)]
pub struct CatalogEntry {
    pub stage: StageInfo,
    pub alt: AltInfo,
}

/// The alternates among `entries` that belong to `stage`, in their order.
pub open spec fn alts_of(entries: Seq<CatalogEntry>, stage: StageInfo) -> Seq<AltInfo>
    decreases entries.len(),
{
    if entries.len() == 0 {
        Seq::empty()
    } else if entries.last().stage == stage {
        alts_of(entries.drop_last(), stage).push(entries.last().alt)
    } else {
        alts_of(entries.drop_last(), stage)
    }
}

/// The catalog of alternates: for each stage's form the alternates found
/// for it, as one list of entries in which those of one form keep their
/// order.
#[derive(Debug)]
pub struct Catalog {
    pub entries: Vec<CatalogEntry>,
}

impl Catalog {
    /// The alternates of a stage's form; none where the catalog does not
    /// know it.
    pub open spec fn alts_spec(&self, stage: StageInfo) -> Seq<AltInfo> {
        alts_of(self.entries@, stage)
    }

    /// A catalog without entries.
    pub fn new() -> (catalog: Catalog)
        ensures
            catalog.entries@.len() == 0,
            forall|stage: StageInfo| catalog.alts_spec(stage).len() == 0,
    {
        Catalog { entries: Vec::new() }
    }

    /// The alternates of a stage's form, in their order.
    pub fn alts(&self, stage: StageInfo) -> (list: Vec<AltInfo>)
        ensures
            list@ == self.alts_spec(stage),
    {
        let mut list: Vec<AltInfo> = Vec::new();
        let mut i: usize = 0;
        while i < self.entries.len()
            invariant
                i <= self.entries.len(),
                list@ == alts_of(self.entries@.take(i as int), stage),
            decreases self.entries.len() - i,
        {
            proof {
                assert(self.entries@.take(i + 1).drop_last() =~= self.entries@.take(i as int));
            }
            if self.entries[i].stage == stage {
                list.push(self.entries[i].alt);
            }
            i += 1;
        }
        proof {
            assert(self.entries@.take(i as int) =~= self.entries@);
        }
        list
    }

    /// The number of alternates of a stage's form.
    pub fn alt_count(&self, stage: StageInfo) -> (count: usize)
        ensures
            count == self.alts_spec(stage).len(),
    {
        self.alts(stage).len()
    }

    /// Puts an alternate at its place by slot among those of the stage's
    /// form: behind the alternates of smaller slots. Where the form has an
    /// alternate of that slot at that place, the new one takes its place.
    pub fn insert(&mut self, stage: StageInfo, alt: AltInfo)
        ensures
            final(self).alts_spec(stage) == with_alt(old(self).alts_spec(stage), alt),
            forall|other: StageInfo|
                other != stage ==> final(self).alts_spec(other) == old(self).alts_spec(other),
    {
        let mut i: usize = 0;
        while i < self.entries.len() && !(self.entries[i].stage == stage
            && self.entries[i].alt.slot_value >= alt.slot_value)
            invariant
                i <= self.entries.len(),
                self.entries@ == old(self).entries@,
                forall|j: int|
                    0 <= j < i && (#[trigger] self.entries@[j]).stage == stage
                        ==> self.entries@[j].alt.slot_value < alt.slot_value,
            decreases self.entries.len() - i,
        {
            i += 1;
        }
        let ghost all = self.entries@;
        let ghost head = all.take(i as int);
        let ghost tail = all.skip(i as int);
        let ghost below = alts_of(head, stage);
        let ghost above = alts_of(tail, stage);
        let entry = CatalogEntry { stage, alt };
        proof {
            assert(all =~= head + tail);
            lemma_alts_of_concat(head, tail, stage);
            lemma_alts_below(head, stage, alt.slot_value);
            if i < all.len() {
                assert(tail =~= seq![all[i as int]] + tail.skip(1));
                lemma_alts_of_concat(seq![all[i as int]], tail.skip(1), stage);
                lemma_alts_of_one(all[i as int], stage);
                assert(above[0] == all[i as int].alt);
            } else {
                assert(tail =~= Seq::<CatalogEntry>::empty());
            }
            lemma_alt_place_concat(below, above, alt.slot_value);
        }
        if i < self.entries.len() && self.entries[i].alt.slot_value == alt.slot_value {
            self.entries.set(i, entry);
            proof {
                let after = tail.skip(1);
                assert(self.entries@ =~= (head + seq![entry]) + after);
                lemma_alts_of_one(entry, stage);
                lemma_alts_of_concat(head, seq![entry], stage);
                lemma_alts_of_concat(head + seq![entry], after, stage);
                assert(self.alts_spec(stage) =~= (below + above).update(below.len() as int, alt));
                assert forall|other: StageInfo| other != stage implies self.alts_spec(other)
                    == old(self).alts_spec(other) by {
                    lemma_alts_of_concat(head, tail, other);
                    lemma_alts_of_concat(seq![all[i as int]], after, other);
                    lemma_alts_of_one(all[i as int], other);
                    lemma_alts_of_one(entry, other);
                    lemma_alts_of_concat(head, seq![entry], other);
                    lemma_alts_of_concat(head + seq![entry], after, other);
                    assert(alts_of(head, other) + Seq::<AltInfo>::empty() =~= alts_of(
                        head,
                        other,
                    ));
                    assert(Seq::<AltInfo>::empty() + alts_of(after, other) =~= alts_of(
                        after,
                        other,
                    ));
                }
            }
            return ;
        }
        self.entries.insert(i, entry);
        proof {
            assert(self.entries@ =~= (head + seq![entry]) + tail);
            lemma_alts_of_one(entry, stage);
            lemma_alts_of_concat(head, seq![entry], stage);
            lemma_alts_of_concat(head + seq![entry], tail, stage);
            assert(self.alts_spec(stage) =~= (below + above).insert(below.len() as int, alt));
            assert forall|other: StageInfo| other != stage implies self.alts_spec(other) == old(
                self,
            ).alts_spec(other) by {
                lemma_alts_of_concat(head, tail, other);
                lemma_alts_of_one(entry, other);
                lemma_alts_of_concat(head, seq![entry], other);
                lemma_alts_of_concat(head + seq![entry], tail, other);
                assert(alts_of(head, other) + Seq::<AltInfo>::empty() =~= alts_of(head, other));
            }
        }
    }
}

/// The place of a new alternate of slot `slot` in a list: behind the
/// leading alternates of smaller slots.
pub open spec fn alt_place(list: Seq<AltInfo>, slot: usize) -> int
    decreases list.len(),
{
    if list.len() == 0 {
        0
    } else if list[0].slot_value < slot {
        1 + alt_place(list.skip(1), slot)
    } else {
        0
    }
}

/// The list with an alternate put at its place by slot, in place of the
/// alternate there where that one has the same slot.
pub open spec fn with_alt(list: Seq<AltInfo>, alt: AltInfo) -> Seq<AltInfo> {
    let place = alt_place(list, alt.slot_value);
    if place < list.len() && list[place].slot_value == alt.slot_value {
        list.update(place, alt)
    } else {
        list.insert(place, alt)
    }
}

/// Every alternate has a smaller slot than those behind it.
pub open spec fn strictly_ascending_alts(list: Seq<AltInfo>) -> bool {
    forall|i: int, j: int| 0 <= i < j < list.len() ==> list[i].slot_value < list[j].slot_value
}

/// The alternates of two lists of entries, one after the other, are those
/// of the lists joined.
pub proof fn lemma_alts_of_concat(a: Seq<CatalogEntry>, b: Seq<CatalogEntry>, stage: StageInfo)
    ensures
        alts_of(a + b, stage) == alts_of(a, stage) + alts_of(b, stage),
    decreases b.len(),
{
    if b.len() == 0 {
        assert(a + b =~= a);
        assert(alts_of(a, stage) + alts_of(b, stage) =~= alts_of(a, stage));
    } else {
        assert((a + b).drop_last() =~= a + b.drop_last());
        lemma_alts_of_concat(a, b.drop_last(), stage);
        assert((a + b).last() == b.last());
        if b.last().stage == stage {
            assert((alts_of(a, stage) + alts_of(b.drop_last(), stage)).push(b.last().alt)
                =~= alts_of(a, stage) + alts_of(b.drop_last(), stage).push(b.last().alt));
        }
    }
}

/// The alternates of a single entry: its own for its stage, none for
/// another.
pub proof fn lemma_alts_of_one(entry: CatalogEntry, stage: StageInfo)
    ensures
        alts_of(seq![entry], stage) == if entry.stage == stage {
            seq![entry.alt]
        } else {
            Seq::<AltInfo>::empty()
        },
{
    let none = Seq::<CatalogEntry>::empty();
    assert(seq![entry].drop_last() =~= none);
    assert(seq![entry].last() == entry);
    assert(alts_of(none, stage) =~= Seq::<AltInfo>::empty());
    if entry.stage == stage {
        assert(alts_of(seq![entry], stage) =~= seq![entry.alt]);
    } else {
        assert(alts_of(seq![entry], stage) =~= Seq::<AltInfo>::empty());
    }
}

/// Where every entry of a stage has a slot below `slot`, so has every
/// alternate of the stage.
proof fn lemma_alts_below(entries: Seq<CatalogEntry>, stage: StageInfo, slot: usize)
    requires
        forall|j: int|
            0 <= j < entries.len() && (#[trigger] entries[j]).stage == stage
                ==> entries[j].alt.slot_value < slot,
    ensures
        forall|k: int|
            0 <= k < alts_of(entries, stage).len() ==> (#[trigger] alts_of(
                entries,
                stage,
            )[k]).slot_value < slot,
    decreases entries.len(),
{
    if entries.len() > 0 {
        let shorter = entries.drop_last();
        assert forall|j: int| 0 <= j < shorter.len() && (#[trigger] shorter[j]).stage
            == stage implies shorter[j].alt.slot_value < slot by {
            assert(shorter[j] == entries[j]);
        }
        lemma_alts_below(shorter, stage, slot);
        assert(entries[entries.len() - 1] == entries.last());
        let before = alts_of(shorter, stage);
        let all = alts_of(entries, stage);
        assert forall|k: int| 0 <= k < all.len() implies (#[trigger] all[k]).slot_value < slot by {
            if k < before.len() {
                assert(all[k] == before[k]);
            }
        }
    }
}

/// Behind alternates of smaller slots, the place of a new alternate is its
/// place in what follows them.
proof fn lemma_alt_place_concat(below: Seq<AltInfo>, above: Seq<AltInfo>, slot: usize)
    requires
        forall|k: int| 0 <= k < below.len() ==> (#[trigger] below[k]).slot_value < slot,
    ensures
        alt_place(below + above, slot) == below.len() + alt_place(above, slot),
    decreases below.len(),
{
    if below.len() == 0 {
        assert(below + above =~= above);
    } else {
        assert((below + above).skip(1) =~= below.skip(1) + above);
        assert((below + above)[0] == below[0]);
        assert forall|k: int| 0 <= k < below.skip(1).len() implies (#[trigger] below.skip(
            1,
        )[k]).slot_value < slot by {
            assert(below.skip(1)[k] == below[k + 1]);
        }
        lemma_alt_place_concat(below.skip(1), above, slot);
    }
}

/// What the place of a new alternate is: within the list, behind smaller
/// slots only, and before a slot that is not smaller.
pub proof fn lemma_alt_place(list: Seq<AltInfo>, slot: usize)
    ensures
        0 <= alt_place(list, slot) <= list.len(),
        forall|k: int| 0 <= k < alt_place(list, slot) ==> (#[trigger] list[k]).slot_value < slot,
        alt_place(list, slot) < list.len() ==> list[alt_place(list, slot)].slot_value >= slot,
    decreases list.len(),
{
    if list.len() > 0 && list[0].slot_value < slot {
        lemma_alt_place(list.skip(1), slot);
        assert forall|k: int| 0 <= k < alt_place(list, slot) implies (#[trigger] list[k]).slot_value
            < slot by {
            if k > 0 {
                assert(list.skip(1)[k - 1] == list[k]);
            }
        }
        if alt_place(list, slot) < list.len() {
            assert(list.skip(1)[alt_place(list.skip(1), slot)] == list[alt_place(list, slot)]);
        }
    }
}

/// A list in strictly ascending order of slots stays so when an alternate
/// is put at its place, and then holds that alternate.
pub proof fn lemma_with_alt_strict(list: Seq<AltInfo>, alt: AltInfo)
    requires
        strictly_ascending_alts(list),
    ensures
        strictly_ascending_alts(with_alt(list, alt)),
        with_alt(list, alt).contains(alt),
{
    lemma_alt_place(list, alt.slot_value);
    let place = alt_place(list, alt.slot_value);
    let after = with_alt(list, alt);
    if place < list.len() && list[place].slot_value == alt.slot_value {
        assert(after[place] == alt);
        assert forall|i: int, j: int| 0 <= i < j < after.len() implies after[i].slot_value
            < after[j].slot_value by {
            assert(list[i].slot_value < list[j].slot_value);
        }
    } else {
        assert(after[place] == alt);
        assert forall|i: int, j: int| 0 <= i < j < after.len() implies after[i].slot_value
            < after[j].slot_value by {
            if j < place {
                assert(after[i] == list[i] && after[j] == list[j]);
            } else if j == place {
                assert(after[i] == list[i]);
            } else if i < place {
                assert(after[i] == list[i] && after[j] == list[j - 1]);
            } else if i == place {
                assert(after[j] == list[j - 1]);
                assert(list[place].slot_value >= alt.slot_value);
                if j - 1 > place {
                    assert(list[place].slot_value < list[j - 1].slot_value);
                }
            } else {
                assert(after[i] == list[i - 1] && after[j] == list[j - 1]);
            }
        }
    }
}

/// The slot that a selection resolves to: zero for the stage as it came,
/// the slot of the alternate at the chosen place, counted from one, and
/// nothing where the stage's form has no alternate at that place.
pub open spec fn resolve_spec(alts: Seq<AltInfo>, index: usize) -> Option<usize> {
    if index == 0 {
        Some(0usize)
    } else if index <= alts.len() {
        Some(alts[index - 1].slot_value)
    } else {
        None
    }
}

/// A selection at place zero resolves to slot zero, one at a place that the
/// list has to the slot of the alternate there, counted from one, and one
/// beyond the list to nothing.
pub proof fn lemma_resolve_bounds(alts: Seq<AltInfo>, index: usize)
    ensures
        index == 0 ==> resolve_spec(alts, index) == Some(0usize),
        0 < index <= alts.len() ==> resolve_spec(alts, index) == Some(alts[index - 1].slot_value),
        index > alts.len() ==> resolve_spec(alts, index) is None,
{
}

/// The state that redirection keeps between loads: the catalog, the
/// selection, the two backups, and for the stage menu the stage behind each
/// panel and the place of each menu stage.
#[derive(Debug)]
pub struct AltManager {
    pub alts: Catalog,
    pub selected_alts: Option<SelectedAlts>,
    pub backup_filepaths: BackupTable,
    pub backup_searchpaths: BackupTable,
    pub index_to_hash: HashTable,
    pub ui_to_place: HashTable,
}

impl AltManager {
    /// A manager with an empty catalog, no selection and empty tables.
    pub fn new() -> (manager: AltManager)
        ensures
            manager.alts.entries@.len() == 0,
            manager.selected_alts is None,
            manager.backup_filepaths@ == Map::<u64, u32>::empty(),
            manager.backup_searchpaths@ == Map::<u64, u32>::empty(),
            manager.index_to_hash@ == Map::<u64, u64>::empty(),
            manager.ui_to_place@ == Map::<u64, u64>::empty(),
    {
        AltManager {
            alts: Catalog::new(),
            selected_alts: None,
            backup_filepaths: BackupTable::new(),
            backup_searchpaths: BackupTable::new(),
            index_to_hash: HashTable::new(),
            ui_to_place: HashTable::new(),
        }
    }

    /// Adds the alternate numbered `alt` to a stage's form, at its place by
    /// slot among those that the form has, in place of the alternate of
    /// that slot where the form has one there.
    pub fn add_alt(&mut self, stage_info: StageInfo, alt: usize, kind: StageKind)
        ensures
            final(self).selected_alts == old(self).selected_alts,
            final(self).backup_filepaths == old(self).backup_filepaths,
            final(self).backup_searchpaths == old(self).backup_searchpaths,
            final(self).index_to_hash == old(self).index_to_hash,
            final(self).ui_to_place == old(self).ui_to_place,
            final(self).alts.alts_spec(stage_info) == with_alt(
                old(self).alts.alts_spec(stage_info),
                alt_info_spec(kind, alt),
            ),
            forall|other: StageInfo|
                other != stage_info ==> final(self).alts.alts_spec(other) == old(
                    self,
                ).alts.alts_spec(other),
    {
        let info = AltInfo { slot_value: alt, wifi_safe: true, ui_paths: UiPaths::new(kind, alt) };
        self.alts.insert(stage_info, info);
    }

    /// The alternate at place `index` of a stage's form, counted from one.
    /// Place zero is the stage as it came and has no alternate.
    pub fn nth_alt(&self, info: StageInfo, index: usize) -> (alt: Option<AltInfo>)
        ensures
            alt == (if 0 < index <= self.alts.alts_spec(info).len() {
                Some(self.alts.alts_spec(info)[index - 1])
            } else {
                None
            }),
    {
        if index == 0 {
            return None;
        }
        let list = self.alts.alts(info);
        if index <= list.len() {
            Some(list[index - 1])
        } else {
            None
        }
    }

    /// Selects one, two or three stages for the loads to come and starts
    /// their rotation anew. Where only the third is given beside the first,
    /// it takes the second place.
    pub fn set_alts(
        &mut self,
        first: SelectedAltInfo,
        second: Option<SelectedAltInfo>,
        third: Option<SelectedAltInfo>,
    )
        ensures
            final(self).alts == old(self).alts,
            final(self).backup_filepaths == old(self).backup_filepaths,
            final(self).backup_searchpaths == old(self).backup_searchpaths,
            final(self).index_to_hash == old(self).index_to_hash,
            final(self).ui_to_place == old(self).ui_to_place,
            final(self).selected_alts is Some,
            final(self).selected_alts.unwrap().current_index == 0,
            final(self).selected_alts.unwrap().playable.slots() == match (second, third) {
                (Some(second), Some(third)) => seq![first, second, third],
                (Some(second), None) => seq![first, second],
                (None, Some(third)) => seq![first, third],
                (None, None) => seq![first],
            },
    {
        let playable = match (second, third) {
            (Some(second), Some(third)) => PlayableAlts::ThreeStages([first, second, third]),
            (Some(second), None) => PlayableAlts::TwoStages([first, second]),
            (None, Some(third)) => PlayableAlts::TwoStages([first, third]),
            (None, None) => PlayableAlts::OneStage(first),
        };
        self.selected_alts = Some(SelectedAlts { playable, current_index: 0 });
    }

    /// The slot that the selection at the rotation's present place resolves
    /// to, where there is a selection.
    pub open spec fn current_slot_spec(&self) -> Option<usize> {
        match self.selected_alts {
            None => None,
            Some(selected) => {
                let slots = selected.playable.slots();
                let info = slots[selected.current_index as int % slots.len() as int];
                resolve_spec(self.alts.alts_spec(info.stage_info), info.index)
            },
        }
    }

    /// Takes the selected stage whose turn it is, moves the rotation on by
    /// one, and gives the slot to apply: zero for the stage as it came, else
    /// the slot of the chosen alternate. Gives nothing, and changes nothing,
    /// where no stage was selected; gives nothing where the form has no
    /// alternate at the chosen place.
    pub fn fetch_advance(&mut self) -> (slot: Option<usize>)
        requires
            old(self).selected_alts matches Some(selected) ==> selected.current_index < usize::MAX,
        ensures
            slot == old(self).current_slot_spec(),
            final(self).alts == old(self).alts,
            final(self).backup_filepaths == old(self).backup_filepaths,
            final(self).backup_searchpaths == old(self).backup_searchpaths,
            final(self).index_to_hash == old(self).index_to_hash,
            final(self).ui_to_place == old(self).ui_to_place,
            final(self).selected_alts == match old(self).selected_alts {
                None => None,
                Some(selected) => Some(
                    SelectedAlts {
                        playable: selected.playable,
                        current_index: (selected.current_index + 1) as usize,
                    },
                ),
            },
    {
        let selected = match self.selected_alts {
            None => {
                return None;
            },
            Some(selected) => selected,
        };
        let info = match selected.playable {
            PlayableAlts::OneStage(first) => first,
            PlayableAlts::TwoStages(both) => both[selected.current_index % 2],
            PlayableAlts::ThreeStages(all) => all[selected.current_index % 3],
        };
        self.selected_alts = Some(
            SelectedAlts { playable: selected.playable, current_index: selected.current_index + 1 },
        );
        if info.index == 0 {
            Some(0)
        } else {
            match self.nth_alt(info.stage_info, info.index) {
                Some(alt) => Some(alt.slot_value),
                None => None,
            }
        }
    }
}

} // verus!
