//! Redirecting the files of a directory to an alternate and back, in the
//! directory table.

use vstd::prelude::*;
use crate::archive::{
    DirInfo, DirectoryTable, DirectoryTableView, FileInfo, HashToIndex, SearchIndex, SearchIndexView,
};
use crate::backup::BackupTable;
use crate::hash::{numbered_hash, numbered_text, str_hash, Hash40};
use crate::path::{ConcatHash, joined, pretty_spec, PrettyPath, substituted};

verus! {

/// The component that names a form: `normal` or `battle`.
pub open spec fn form_marker(normal: bool) -> Hash40 {
    if normal {
        Hash40(str_hash("normal"@))
    } else {
        Hash40(str_hash("battle"@))
    }
}

/// The component that names an alternate of a form: the form's name, `_s`
/// and the alternate's number in two digits or more.
pub open spec fn alt_marker(normal: bool, alt: nat) -> Hash40 {
    if normal {
        Hash40(str_hash(numbered_text("normal_s"@, alt, ""@)))
    } else {
        Hash40(str_hash(numbered_text("battle_s"@, alt, ""@)))
    }
}

/// The components of the alternate's path: those of the original with the
/// form's name replaced by the alternate's, the normal form first. A path
/// that names no form has no alternate.
pub open spec fn alt_path_spec(components: Seq<Hash40>, alt: nat) -> Option<Seq<Hash40>> {
    if components.contains(form_marker(true)) {
        Some(substituted(components, form_marker(true), alt_marker(true, alt)))
    } else if components.contains(form_marker(false)) {
        Some(substituted(components, form_marker(false), alt_marker(false, alt)))
    } else {
        None
    }
}

/// The hash of the alternate's path for the path `hash`, where it has one.
pub open spec fn alt_hash_spec(search: SearchIndexView, hash: u64, alt: nat) -> Option<u64> {
    match alt_path_spec(pretty_spec(search, hash), alt) {
        Some(components) => Some(joined(components)),
        None => None,
    }
}

/// Rebuilds the path `hash` and replaces the name of its form by that of the
/// alternate. Fails where the path names neither form.
pub fn patch_file_path(search: &SearchIndex, hash: Hash40, alt: usize) -> (patched: Option<
    PrettyPath,
>)
    ensures
        match patched {
            Some(path) => alt_path_spec(pretty_spec(search@, hash.0), alt as nat) == Some(path@),
            None => alt_path_spec(pretty_spec(search@, hash.0), alt as nat) is None,
        },
{
    let mut pretty = hash.pretty(search);
    proof {
        let components = pretty@;
        if !components.contains(form_marker(true)) {
            assert(substituted(components, form_marker(true), alt_marker(true, alt as nat))
                =~= components);
        }
    }
    if pretty.replace(Hash40::new("normal"), numbered_hash("normal_s", alt, "")) {
        Some(pretty)
    } else if pretty.replace(Hash40::new("battle"), numbered_hash("battle_s", alt, "")) {
        Some(pretty)
    } else {
        None
    }
}

impl DirectoryTableView {
    /// File record `i` exists and names a file path that exists.
    pub open spec fn has_file(self, i: int) -> bool {
        &&& 0 <= i < self.file_infos.len()
        &&& self.file_infos[i].file_path_index < self.file_paths.len()
    }

    /// The path hash of file record `i`.
    pub open spec fn file_hash(self, i: int) -> u64 {
        self.file_paths[self.file_infos[i].file_path_index as int].hash.0
    }

    /// The table with `index` written to file record `i` and to its file path.
    pub open spec fn with_redirect(self, i: int, index: u32) -> DirectoryTableView {
        let position = self.file_infos[i].file_path_index;
        DirectoryTableView {
            file_paths: self.file_paths.update(
                position as int,
                HashToIndex { hash: self.file_paths[position as int].hash, index },
            ),
            file_infos: self.file_infos.update(
                i,
                FileInfo { file_path_index: position, file_info_indice_index: index },
            ),
            ..self
        }
    }

    /// The first file record of the directory that exists.
    pub open spec fn first_record(self, dir: DirInfo) -> int {
        if dir.file_info_start_index < self.file_infos.len() {
            dir.file_info_start_index as int
        } else {
            self.file_infos.len() as int
        }
    }

    /// The end of the directory's file records that exist.
    pub open spec fn end_record(self, dir: DirInfo) -> int {
        if dir.file_info_start_index + dir.file_count < self.file_infos.len() {
            dir.file_info_start_index + dir.file_count
        } else {
            self.file_infos.len() as int
        }
    }
}

impl DirectoryTable {
    /// Writes `index` to one file record and to the file path that it names.
    /// A record or a file path out of range is refused and nothing is
    /// written.
    pub fn set_file_redirect(&mut self, record: usize, index: u32) -> (written: bool)
        ensures
            written == old(self)@.has_file(record as int),
            final(self)@ == (if written {
                old(self)@.with_redirect(record as int, index)
            } else {
                old(self)@
            }),
    {
        if record >= self.file_infos.len() {
            return false;
        }
        let position = self.file_infos[record].file_path_index;
        if position as usize >= self.file_paths.len() {
            return false;
        }
        let hash = self.file_paths[position as usize].hash;
        self.file_paths.set(position as usize, HashToIndex { hash, index });
        self.file_infos.set(
            record,
            FileInfo { file_path_index: position, file_info_indice_index: index },
        );
        true
    }

    /// The bounds of the directory's file records that exist.
    fn record_range(&self, dir: &DirInfo) -> (range: (usize, usize))
        ensures
            range.0 == self@.first_record(*dir),
            range.1 == self@.end_record(*dir),
            range.0 <= range.1 <= self.file_infos@.len(),
    {
        let len = self.file_infos.len();
        let start = dir.file_info_start_index as usize;
        let count = dir.file_count as usize;
        if start >= len {
            (len, len)
        } else if count < len - start {
            (start, start + count)
        } else {
            (start, len)
        }
    }
}

/// The table after file record `i` was pointed at its alternate: unchanged
/// where the record does not exist, its path names no form, or the alternate
/// resolves to no file record.
pub open spec fn patch_file_spec(
    table: DirectoryTableView,
    search: SearchIndexView,
    i: int,
    alt: nat,
) -> DirectoryTableView {
    if table.has_file(i) {
        match alt_hash_spec(search, table.file_hash(i), alt) {
            None => table,
            Some(alt_hash) => match table.file_info_spec(alt_hash) {
                None => table,
                Some(alt_info) => table.with_redirect(i, alt_info.file_info_indice_index),
            },
        }
    } else {
        table
    }
}

/// The table after the file records from `from` up to `to` were pointed at
/// their alternates, one after the other.
pub open spec fn patch_range_spec(
    table: DirectoryTableView,
    search: SearchIndexView,
    from: int,
    to: int,
    alt: nat,
) -> DirectoryTableView
    decreases to - from,
{
    if from >= to {
        table
    } else {
        patch_range_spec(patch_file_spec(table, search, from, alt), search, from + 1, to, alt)
    }
}

/// The table after the directory `path` was patched to the alternate `alt`.
pub open spec fn patch_dir_spec(
    table: DirectoryTableView,
    search: SearchIndexView,
    path: u64,
    alt: nat,
) -> DirectoryTableView {
    match table.dir_spec(path) {
        None => table,
        Some(dir) => patch_range_spec(
            table,
            search,
            table.first_record(dir),
            table.end_record(dir),
            alt,
        ),
    }
}

/// File record `i` exists and is left as it is by patching: its path names
/// no form, or the alternate resolves to no file record.
pub open spec fn stays_unpatched(
    table: DirectoryTableView,
    search: SearchIndexView,
    i: int,
    alt: nat,
) -> bool {
    table.has_file(i) && match alt_hash_spec(search, table.file_hash(i), alt) {
        None => true,
        Some(alt_hash) => table.file_info_spec(alt_hash) is None,
    }
}

/// The paths of the file records from `from` up to `to` that patching
/// leaves as they are, each judged by the table as it is when its turn
/// comes.
pub open spec fn patch_skipped_spec(
    table: DirectoryTableView,
    search: SearchIndexView,
    from: int,
    to: int,
    alt: nat,
) -> Seq<Hash40>
    decreases to - from,
{
    if from >= to {
        Seq::empty()
    } else {
        let here = if stays_unpatched(table, search, from, alt) {
            seq![Hash40(table.file_hash(from))]
        } else {
            Seq::empty()
        };
        here + patch_skipped_spec(
            patch_file_spec(table, search, from, alt),
            search,
            from + 1,
            to,
            alt,
        )
    }
}

/// The paths of the files of the directory `path` that patching leaves as
/// they are.
pub open spec fn dir_unpatched(
    table: DirectoryTableView,
    search: SearchIndexView,
    path: u64,
    alt: nat,
) -> Seq<Hash40> {
    match table.dir_spec(path) {
        None => Seq::empty(),
        Some(dir) => patch_skipped_spec(
            table,
            search,
            table.first_record(dir),
            table.end_record(dir),
            alt,
        ),
    }
}

/// Points every file of the directory `path` at the data of its alternate
/// `alt`, and gives the paths of the files that it left as they are. A file
/// whose path names no form, or whose alternate is not in the table, is
/// left as it is; the others are not undone on that account.
pub fn patch_dir_info(arc: &mut DirectoryTable, search: &SearchIndex, path: Hash40, alt: usize) -> (skipped:
    Vec<Hash40>)
    ensures
        final(arc)@ == patch_dir_spec(old(arc)@, search@, path.0, alt as nat),
        skipped@ == dir_unpatched(old(arc)@, search@, path.0, alt as nat),
{
    let mut skipped: Vec<Hash40> = Vec::new();
    let dir = match arc.dir(path) {
        Some(dir) => dir,
        None => {
            return skipped;
        },
    };
    let (first, end) = arc.record_range(&dir);
    let ghost total = patch_skipped_spec(old(arc)@, search@, first as int, end as int, alt as nat);
    proof {
        assert(total =~= skipped@ + total);
    }
    let mut i: usize = first;
    while i < end
        invariant
            first <= i <= end,
            patch_range_spec(old(arc)@, search@, first as int, end as int, alt as nat)
                == patch_range_spec(arc@, search@, i as int, end as int, alt as nat),
            total == skipped@ + patch_skipped_spec(
                arc@,
                search@,
                i as int,
                end as int,
                alt as nat,
            ),
        decreases end - i,
    {
        let ghost before = skipped@;
        let ghost now = arc@;
        if i < arc.file_infos.len() {
            let position = arc.file_infos[i].file_path_index;
            if (position as usize) < arc.file_paths.len() {
                let hash = arc.file_paths[position as usize].hash;
                match patch_file_path(search, hash, alt) {
                    None => {
                        skipped.push(hash);
                    },
                    Some(alt_path) => match arc.file_info(alt_path.to_whole()) {
                        None => {
                            skipped.push(hash);
                        },
                        Some(alt_info) => {
                            arc.set_file_redirect(i, alt_info.file_info_indice_index);
                        },
                    },
                }
            }
        }
        proof {
            let here = skipped@.subrange(before.len() as int, skipped@.len() as int);
            let rest = patch_skipped_spec(arc@, search@, i + 1, end as int, alt as nat);
            assert(skipped@ =~= before + here);
            assert(patch_skipped_spec(now, search@, i as int, end as int, alt as nat) =~= here
                + rest);
            assert(before + (here + rest) =~= (before + here) + rest);
        }
        i += 1;
    }
    proof {
        assert(skipped@ + Seq::<Hash40>::empty() =~= skipped@);
    }
    skipped
}

/// File record `i` belongs to the directory.
pub open spec fn in_dir(dir: DirInfo, i: int) -> bool {
    dir.file_info_start_index <= i < dir.file_info_start_index + dir.file_count
}

/// File record `i` belongs to the directory, exists, and the backup holds a
/// value for its path.
pub open spec fn restorable(
    table: DirectoryTableView,
    backup: Map<u64, u32>,
    dir: DirInfo,
    i: int,
) -> bool {
    &&& in_dir(dir, i)
    &&& table.has_file(i)
    &&& backup.contains_key(table.file_hash(i))
}

/// Some restorable file record below `bound` names the file path `p`.
pub open spec fn path_restorable(
    table: DirectoryTableView,
    backup: Map<u64, u32>,
    dir: DirInfo,
    p: int,
    bound: int,
) -> bool {
    exists|i: int|
        i < bound && #[trigger] restorable(table, backup, dir, i)
            && table.file_infos[i].file_path_index == p
}

/// The table after the first `bound` file records were restored: each
/// restorable record below `bound`, and the file path that it names, holds
/// the backup's value for the path; all else is as before.
pub open spec fn restored_below(
    table: DirectoryTableView,
    backup: Map<u64, u32>,
    dir: DirInfo,
    bound: int,
) -> DirectoryTableView {
    DirectoryTableView {
        file_paths: Seq::new(
            table.file_paths.len(),
            |p: int|
                if path_restorable(table, backup, dir, p, bound) {
                    HashToIndex {
                        hash: table.file_paths[p].hash,
                        index: backup[table.file_paths[p].hash.0],
                    }
                } else {
                    table.file_paths[p]
                },
        ),
        file_infos: Seq::new(
            table.file_infos.len(),
            |i: int|
                if i < bound && restorable(table, backup, dir, i) {
                    FileInfo {
                        file_path_index: table.file_infos[i].file_path_index,
                        file_info_indice_index: backup[table.file_hash(i)],
                    }
                } else {
                    table.file_infos[i]
                },
        ),
        ..table
    }
}

/// The table after the directory `path` was restored from the backup.
pub open spec fn restore_dir_spec(
    table: DirectoryTableView,
    backup: Map<u64, u32>,
    path: u64,
) -> DirectoryTableView {
    match table.dir_spec(path) {
        None => table,
        Some(dir) => restored_below(
            table,
            backup,
            dir,
            dir.file_info_start_index + dir.file_count,
        ),
    }
}

/// Restoring one more record: the step from `bound` to the next.
proof fn lemma_restore_step(
    table: DirectoryTableView,
    backup: Map<u64, u32>,
    dir: DirInfo,
    bound: int,
)
    ensures
        restored_below(table, backup, dir, bound + 1) == if restorable(table, backup, dir, bound) {
            restored_below(table, backup, dir, bound).with_redirect(
                bound,
                backup[table.file_hash(bound)],
            )
        } else {
            restored_below(table, backup, dir, bound)
        },
{
    let before = restored_below(table, backup, dir, bound);
    let after = restored_below(table, backup, dir, bound + 1);
    let here = restorable(table, backup, dir, bound);
    assert forall|p: int| 0 <= p < table.file_paths.len() implies path_restorable(
        table,
        backup,
        dir,
        p,
        bound + 1,
    ) == (path_restorable(table, backup, dir, p, bound) || (here
        && table.file_infos[bound].file_path_index == p)) by {
        if path_restorable(table, backup, dir, p, bound + 1) {
            let i = choose|i: int|
                i < bound + 1 && #[trigger] restorable(table, backup, dir, i)
                    && table.file_infos[i].file_path_index == p;
            if i < bound {
                assert(path_restorable(table, backup, dir, p, bound));
            }
        }
        if path_restorable(table, backup, dir, p, bound) {
            let i = choose|i: int|
                i < bound && #[trigger] restorable(table, backup, dir, i)
                    && table.file_infos[i].file_path_index == p;
            assert(i < bound + 1 && restorable(table, backup, dir, i));
        }
        if here && table.file_infos[bound].file_path_index == p {
            assert(bound < bound + 1 && restorable(table, backup, dir, bound));
        }
    }
    if here {
        let step = before.with_redirect(bound, backup[table.file_hash(bound)]);
        assert(step.file_paths =~= after.file_paths);
        assert(step.file_infos =~= after.file_infos);
    } else {
        assert(before.file_paths =~= after.file_paths);
        assert(before.file_infos =~= after.file_infos);
    }
}

/// Records outside the directory, or that do not exist, restore nothing.
proof fn lemma_restore_outside(
    table: DirectoryTableView,
    backup: Map<u64, u32>,
    dir: DirInfo,
    low: int,
    high: int,
)
    requires
        low <= high,
        forall|i: int| low <= i < high ==> !restorable(table, backup, dir, i),
    ensures
        restored_below(table, backup, dir, low) == restored_below(table, backup, dir, high),
{
    let a = restored_below(table, backup, dir, low);
    let b = restored_below(table, backup, dir, high);
    assert forall|p: int| 0 <= p < table.file_paths.len() implies path_restorable(
        table,
        backup,
        dir,
        p,
        low,
    ) == path_restorable(table, backup, dir, p, high) by {
        if path_restorable(table, backup, dir, p, high) {
            let i = choose|i: int|
                i < high && #[trigger] restorable(table, backup, dir, i)
                    && table.file_infos[i].file_path_index == p;
            assert(i < low);
        }
        if path_restorable(table, backup, dir, p, low) {
            let i = choose|i: int|
                i < low && #[trigger] restorable(table, backup, dir, i)
                    && table.file_infos[i].file_path_index == p;
            assert(i < high && restorable(table, backup, dir, i));
        }
    }
    assert(a.file_paths =~= b.file_paths);
    assert(a.file_infos =~= b.file_infos);
}

/// The paths of the file records from `from` up to `to` for which the
/// backup holds no value.
pub open spec fn missing_backup(
    table: DirectoryTableView,
    backup: Map<u64, u32>,
    from: int,
    to: int,
) -> Seq<Hash40>
    decreases to - from,
{
    if from >= to {
        Seq::empty()
    } else {
        let last = if table.has_file(to - 1) && !backup.contains_key(table.file_hash(to - 1)) {
            seq![Hash40(table.file_hash(to - 1))]
        } else {
            Seq::empty()
        };
        missing_backup(table, backup, from, to - 1) + last
    }
}

/// The paths of the files of the directory `path` for which the backup
/// holds no value.
pub open spec fn dir_unrestored(table: DirectoryTableView, backup: Map<u64, u32>, path: u64) -> Seq<
    Hash40,
> {
    match table.dir_spec(path) {
        None => Seq::empty(),
        Some(dir) => missing_backup(
            table,
            backup,
            table.first_record(dir),
            table.end_record(dir),
        ),
    }
}

/// Writes the backup's value to every file of the directory `path` for which
/// the backup holds one, and to the file path that the file names, and
/// gives the paths of the files for which it holds none. Such a file is
/// passed over; the others are still restored.
pub fn restore_dir_info(arc: &mut DirectoryTable, backup: &BackupTable, path: Hash40) -> (skipped:
    Vec<Hash40>)
    ensures
        final(arc)@ == restore_dir_spec(old(arc)@, backup@, path.0),
        skipped@ == dir_unrestored(old(arc)@, backup@, path.0),
{
    let mut skipped: Vec<Hash40> = Vec::new();
    let dir = match arc.dir(path) {
        Some(dir) => dir,
        None => {
            return skipped;
        },
    };
    let (first, end) = arc.record_range(&dir);
    proof {
        lemma_restore_outside(old(arc)@, backup@, dir, 0, first as int);
        assert(restored_below(old(arc)@, backup@, dir, 0).file_paths =~= old(arc)@.file_paths);
        assert(restored_below(old(arc)@, backup@, dir, 0).file_infos =~= old(arc)@.file_infos);
    }
    let mut i: usize = first;
    while i < end
        invariant
            first <= i <= end <= old(arc)@.file_infos.len(),
            first == old(arc)@.first_record(dir),
            end == old(arc)@.end_record(dir),
            arc@ == restored_below(old(arc)@, backup@, dir, i as int),
            skipped@ == missing_backup(old(arc)@, backup@, first as int, i as int),
        decreases end - i,
    {
        proof {
            lemma_restore_step(old(arc)@, backup@, dir, i as int);
            assert(in_dir(dir, i as int));
            assert(arc@.file_infos[i as int].file_path_index == old(arc)@.file_infos[i as
                int].file_path_index);
        }
        let ghost before = skipped@;
        let position = arc.file_infos[i].file_path_index;
        if (position as usize) < arc.file_paths.len() {
            let hash = arc.file_paths[position as usize].hash;
            assert(hash.0 == old(arc)@.file_hash(i as int));
            match backup.get(hash) {
                None => {
                    skipped.push(hash);
                },
                Some(index) => {
                    arc.set_file_redirect(i, index);
                },
            }
        }
        proof {
            let here = skipped@.subrange(before.len() as int, skipped@.len() as int);
            assert(skipped@ =~= before + here);
            assert(missing_backup(old(arc)@, backup@, first as int, i + 1) =~= before + here);
        }
        i += 1;
    }
    proof {
        let bound = dir.file_info_start_index + dir.file_count;
        if end <= bound {
            lemma_restore_outside(old(arc)@, backup@, dir, end as int, bound);
        } else {
            lemma_restore_outside(old(arc)@, backup@, dir, bound, end as int);
        }
    }
    skipped
}

/// The backup holds the index of every file path of the table.
pub open spec fn is_dir_snapshot(backup: Map<u64, u32>, table: DirectoryTableView) -> bool {
    forall|p: int|
        0 <= p < table.file_paths.len() ==> backup.contains_key(
            #[trigger] table.file_paths[p].hash.0,
        ) && backup[table.file_paths[p].hash.0] == table.file_paths[p].index
}

/// Two tables differ in nothing but index values: they hold the same
/// directories, the same file paths by hash, and the same file records by
/// the file path that each names.
pub open spec fn same_files(a: DirectoryTableView, b: DirectoryTableView) -> bool {
    &&& a.dir_index == b.dir_index
    &&& a.dir_infos == b.dir_infos
    &&& a.file_path_index == b.file_path_index
    &&& a.file_info_indices == b.file_info_indices
    &&& a.file_paths.len() == b.file_paths.len()
    &&& a.file_infos.len() == b.file_infos.len()
    &&& forall|p: int|
        0 <= p < a.file_paths.len() ==> (#[trigger] a.file_paths[p]).hash == b.file_paths[p].hash
    &&& forall|i: int|
        0 <= i < a.file_infos.len() ==> (#[trigger] a.file_infos[i]).file_path_index
            == b.file_infos[i].file_path_index
}

/// Between tables that differ in index values alone, the same records are
/// restorable and the same file paths are named by one.
proof fn lemma_same_files_restorable(
    a: DirectoryTableView,
    b: DirectoryTableView,
    backup: Map<u64, u32>,
    dir: DirInfo,
    bound: int,
)
    requires
        same_files(a, b),
    ensures
        forall|i: int| restorable(a, backup, dir, i) == restorable(b, backup, dir, i),
        forall|p: int|
            path_restorable(a, backup, dir, p, bound) == path_restorable(b, backup, dir, p, bound),
{
    assert forall|i: int| restorable(a, backup, dir, i) == restorable(b, backup, dir, i) by {
        if a.has_file(i) {
            assert(a.file_infos[i].file_path_index == b.file_infos[i].file_path_index);
            assert(a.file_paths[a.file_infos[i].file_path_index as int].hash
                == b.file_paths[a.file_infos[i].file_path_index as int].hash);
        }
        if b.has_file(i) {
            assert(a.file_infos[i].file_path_index == b.file_infos[i].file_path_index);
            assert(a.file_paths[a.file_infos[i].file_path_index as int].hash
                == b.file_paths[a.file_infos[i].file_path_index as int].hash);
        }
    }
    assert forall|p: int|
        path_restorable(a, backup, dir, p, bound) == path_restorable(
            b,
            backup,
            dir,
            p,
            bound,
        ) by {
        if path_restorable(a, backup, dir, p, bound) {
            let i = choose|i: int|
                i < bound && #[trigger] restorable(a, backup, dir, i)
                    && a.file_infos[i].file_path_index == p;
            assert(restorable(b, backup, dir, i) && b.file_infos[i].file_path_index == p);
        }
        if path_restorable(b, backup, dir, p, bound) {
            let i = choose|i: int|
                i < bound && #[trigger] restorable(b, backup, dir, i)
                    && b.file_infos[i].file_path_index == p;
            assert(restorable(a, backup, dir, i) && a.file_infos[i].file_path_index == p);
        }
    }
}

/// Restoring a directory twice leaves the table as restoring it once does.
pub proof fn lemma_restore_dir_idempotent(
    table: DirectoryTableView,
    backup: Map<u64, u32>,
    path: u64,
)
    ensures
        restore_dir_spec(restore_dir_spec(table, backup, path), backup, path) == restore_dir_spec(
            table,
            backup,
            path,
        ),
{
    match table.dir_spec(path) {
        None => {},
        Some(dir) => {
            let bound = dir.file_info_start_index + dir.file_count;
            let once = restored_below(table, backup, dir, bound);
            let twice = restored_below(once, backup, dir, bound);
            assert(same_files(once, table));
            lemma_same_files_restorable(once, table, backup, dir, bound);
            assert(twice.file_paths =~= once.file_paths);
            assert(twice.file_infos =~= once.file_infos);
        },
    }
}

/// Patching the records from `from` up to `to` changes index values alone,
/// and only those of restorable records and of the file paths that they
/// name, where the backup knows every file path by hash.
proof fn lemma_patch_range_frame(
    table: DirectoryTableView,
    search: SearchIndexView,
    backup: Map<u64, u32>,
    dir: DirInfo,
    from: int,
    to: int,
    alt: nat,
)
    requires
        forall|p: int|
            0 <= p < table.file_paths.len() ==> backup.contains_key(
                #[trigger] table.file_paths[p].hash.0,
            ),
        dir.file_info_start_index <= from,
        to <= dir.file_info_start_index + dir.file_count,
    ensures
        same_files(patch_range_spec(table, search, from, to, alt), table),
        forall|p: int|
            0 <= p < table.file_paths.len() ==> #[trigger] patch_range_spec(
                table,
                search,
                from,
                to,
                alt,
            ).file_paths[p] == table.file_paths[p] || path_restorable(table, backup, dir, p, to),
        forall|i: int|
            0 <= i < table.file_infos.len() ==> #[trigger] patch_range_spec(
                table,
                search,
                from,
                to,
                alt,
            ).file_infos[i] == table.file_infos[i] || restorable(table, backup, dir, i),
    decreases to - from,
{
    if from >= to {
    } else {
        let step = patch_file_spec(table, search, from, alt);
        assert(same_files(step, table));
        assert forall|p: int| 0 <= p < step.file_paths.len() implies backup.contains_key(
            #[trigger] step.file_paths[p].hash.0,
        ) by {
            assert(step.file_paths[p].hash == table.file_paths[p].hash);
            assert(backup.contains_key(table.file_paths[p].hash.0));
        }
        let last = patch_range_spec(table, search, from, to, alt);
        lemma_patch_range_frame(step, search, backup, dir, from + 1, to, alt);
        lemma_same_files_restorable(step, table, backup, dir, to);
        assert(same_files(last, table)) by {
            assert forall|p: int| 0 <= p < last.file_paths.len() implies (
            #[trigger] last.file_paths[p]).hash == table.file_paths[p].hash by {
                assert(step.file_paths[p].hash == table.file_paths[p].hash);
            }
            assert forall|i: int| 0 <= i < last.file_infos.len() implies (
            #[trigger] last.file_infos[i]).file_path_index == table.file_infos[i].file_path_index by {
                assert(step.file_infos[i].file_path_index == table.file_infos[i].file_path_index);
            }
        }
        assert forall|p: int| 0 <= p < table.file_paths.len() implies #[trigger] last.file_paths[p]
            == table.file_paths[p] || path_restorable(table, backup, dir, p, to) by {
            if step.file_paths[p] != table.file_paths[p] {
                assert(table.has_file(from));
                assert(backup.contains_key(table.file_paths[p].hash.0));
                assert(restorable(table, backup, dir, from));
            }
        }
        assert forall|i: int| 0 <= i < table.file_infos.len() implies #[trigger] last.file_infos[i]
            == table.file_infos[i] || restorable(table, backup, dir, i) by {
            if step.file_infos[i] != table.file_infos[i] {
                assert(table.has_file(from));
                assert(backup.contains_key(
                    table.file_paths[table.file_infos[from].file_path_index as int].hash.0,
                ));
                assert(restorable(table, backup, dir, from));
            }
        }
    }
}

/// Patching a directory and then restoring it gives every file path back
/// the index that it had when the backup was taken, and gives every file
/// record of the directory the backup's value for its path; no other record
/// has changed.
pub proof fn lemma_dir_round_trip(
    table: DirectoryTableView,
    search: SearchIndexView,
    backup: Map<u64, u32>,
    path: u64,
    alt: nat,
)
    requires
        is_dir_snapshot(backup, table),
    ensures
        same_files(restore_dir_spec(patch_dir_spec(table, search, path, alt), backup, path), table),
        restore_dir_spec(patch_dir_spec(table, search, path, alt), backup, path).file_paths
            == table.file_paths,
        forall|i: int|
            0 <= i < table.file_infos.len() ==> #[trigger] restore_dir_spec(
                patch_dir_spec(table, search, path, alt),
                backup,
                path,
            ).file_infos[i] == if table.dir_spec(path) is Some && restorable(
                table,
                backup,
                table.dir_spec(path).unwrap(),
                i,
            ) {
                FileInfo {
                    file_path_index: table.file_infos[i].file_path_index,
                    file_info_indice_index: backup[table.file_hash(i)],
                }
            } else {
                table.file_infos[i]
            },
{
    match table.dir_spec(path) {
        None => {
            assert(same_files(table, table));
        },
        Some(dir) => {
            let bound = dir.file_info_start_index + dir.file_count;
            let patched = patch_dir_spec(table, search, path, alt);
            assert(same_files(table, table));
            if table.first_record(dir) < table.end_record(dir) {
                lemma_patch_range_frame(
                    table,
                    search,
                    backup,
                    dir,
                    table.first_record(dir),
                    table.end_record(dir),
                    alt,
                );
            }
            lemma_same_files_restorable(patched, table, backup, dir, bound);
            let restored = restore_dir_spec(patched, backup, path);
            assert forall|p: int| 0 <= p < table.file_paths.len() implies restored.file_paths[p]
                == table.file_paths[p] by {
                assert(patched.file_paths[p].hash == table.file_paths[p].hash);
                assert(backup.contains_key(table.file_paths[p].hash.0));
                if !path_restorable(table, backup, dir, p, bound) {
                    if path_restorable(table, backup, dir, p, table.end_record(dir)) {
                        let i = choose|i: int|
                            i < table.end_record(dir) && #[trigger] restorable(table, backup, dir, i)
                                && table.file_infos[i].file_path_index == p;
                        assert(i < bound && restorable(table, backup, dir, i));
                    }
                }
            }
            assert(restored.file_paths =~= table.file_paths);
            assert forall|i: int| 0 <= i < table.file_infos.len() implies #[trigger] restored.file_infos[i]
                == if restorable(table, backup, dir, i) {
                FileInfo {
                    file_path_index: table.file_infos[i].file_path_index,
                    file_info_indice_index: backup[table.file_hash(i)],
                }
            } else {
                table.file_infos[i]
            } by {
                assert(patched.file_infos[i].file_path_index == table.file_infos[i].file_path_index);
                if restorable(table, backup, dir, i) {
                    assert(patched.file_paths[table.file_infos[i].file_path_index as int].hash
                        == table.file_paths[table.file_infos[i].file_path_index as int].hash);
                }
            }
            assert(same_files(restored, table));
        },
    }
}

/// Where none of the records from `from` up to `to` has a path that names
/// a form, patching them changes nothing.
proof fn lemma_patch_range_unmarked(
    table: DirectoryTableView,
    search: SearchIndexView,
    from: int,
    to: int,
    alt: nat,
)
    requires
        forall|i: int|
            from <= i < to && table.has_file(i) ==> #[trigger] alt_hash_spec(
                search,
                table.file_hash(i),
                alt,
            ) is None,
    ensures
        patch_range_spec(table, search, from, to, alt) == table,
    decreases to - from,
{
    if from < to {
        assert(patch_file_spec(table, search, from, alt) == table);
        lemma_patch_range_unmarked(table, search, from + 1, to, alt);
    }
}

/// Patching a directory none of whose files has a path that names a form
/// leaves the table as it is, whatever the alternate.
pub proof fn lemma_patch_dir_unmarked(
    table: DirectoryTableView,
    search: SearchIndexView,
    path: u64,
    alt: nat,
)
    requires
        forall|i: int|
            table.has_file(i) && table.dir_spec(path) is Some && in_dir(
                table.dir_spec(path).unwrap(),
                i,
            ) ==> #[trigger] alt_hash_spec(search, table.file_hash(i), alt) is None,
    ensures
        patch_dir_spec(table, search, path, alt) == table,
{
    match table.dir_spec(path) {
        None => {},
        Some(dir) => {
            if table.first_record(dir) < table.end_record(dir) {
                lemma_patch_range_unmarked(
                    table,
                    search,
                    table.first_record(dir),
                    table.end_record(dir),
                    alt,
                );
            }
        },
    }
}

} // verus!
