//! The two index tables of a loaded archive, as plain tables: the directory
//! table, whose records own file data indices, and the search index, a tree of
//! path entries linked by child and sibling positions.

use vstd::prelude::*;
use crate::hash::Hash40;

verus! {

/// The index value that stands for "no entry".
pub const NO_INDEX: u32 = 0xFF_FFFF;

/// One row of a lookup table: a hash and the index stored for it.
#[derive(Clone, Copy, Debug, PartialEq, Eq, Structural)]
pub struct HashToIndex {
    pub hash: Hash40,
    pub index: u32,
}

/// The hashes of a lookup table, row by row.
pub open spec fn hashes_of(table: Seq<HashToIndex>) -> Seq<u64> {
    Seq::new(table.len(), |i: int| table[i].hash.0)
}

/// Row `i` is the first row of `hashes` that holds `hash`.
pub open spec fn is_first(hashes: Seq<u64>, hash: u64, i: int) -> bool {
    &&& 0 <= i < hashes.len()
    &&& hashes[i] == hash
    &&& forall|j: int| 0 <= j < i ==> hashes[j] != hash
}

/// The first row that holds `hash`, if any row does.
pub open spec fn first_index(hashes: Seq<u64>, hash: u64) -> Option<int> {
    if exists|i: int| is_first(hashes, hash, i) {
        Some(choose|i: int| is_first(hashes, hash, i))
    } else {
        None
    }
}

/// The first row is unique, so a row known to be first is the one found.
pub proof fn lemma_first_index_is(hashes: Seq<u64>, hash: u64, i: int)
    requires
        is_first(hashes, hash, i),
    ensures
        first_index(hashes, hash) == Some(i),
{
    let k = choose|k: int| is_first(hashes, hash, k);
    assert(is_first(hashes, hash, k));
    if k < i {
        assert(hashes[k] != hash);
    } else if i < k {
        assert(hashes[i] != hash);
    }
}

/// A hash that no row holds is not found.
pub proof fn lemma_first_index_none(hashes: Seq<u64>, hash: u64)
    requires
        forall|j: int| 0 <= j < hashes.len() ==> hashes[j] != hash,
    ensures
        first_index(hashes, hash) is None,
{
}

/// What a found row is: in range, holding the hash, and the first to do so.
pub proof fn lemma_first_index_found(hashes: Seq<u64>, hash: u64)
    ensures
        match first_index(hashes, hash) {
            Some(i) => is_first(hashes, hash, i),
            None => forall|j: int| 0 <= j < hashes.len() ==> hashes[j] != hash,
        },
{
    if exists|i: int| is_first(hashes, hash, i) {
    } else {
        assert forall|j: int| 0 <= j < hashes.len() implies hashes[j] != hash by {
            if hashes[j] == hash {
                lemma_some_first(hashes, hash, j);
            }
        }
    }
}

/// Where some row up to `j` holds the hash, one of them is the first.
proof fn lemma_some_first(hashes: Seq<u64>, hash: u64, j: int)
    requires
        0 <= j < hashes.len(),
        hashes[j] == hash,
    ensures
        exists|i: int| is_first(hashes, hash, i),
    decreases j,
{
    if exists|k: int| 0 <= k < j && hashes[k] == hash {
        let k = choose|k: int| 0 <= k < j && hashes[k] == hash;
        lemma_some_first(hashes, hash, k);
    } else {
        assert(is_first(hashes, hash, j));
    }
}

/// Finds the first row of a lookup table that holds `hash`.
pub fn lookup(table: &Vec<HashToIndex>, hash: Hash40) -> (found: Option<usize>)
    ensures
        first_index(hashes_of(table@), hash.0) == match found {
            Some(i) => Some(i as int),
            None => None,
        },
        found matches Some(i) ==> i < table.len() && table[i as int].hash == hash,
{
    let mut i: usize = 0;
    while i < table.len()
        invariant
            i <= table.len(),
            forall|j: int| 0 <= j < i ==> hashes_of(table@)[j] != hash.0,
        decreases table.len() - i,
    {
        if table[i].hash.0 == hash.0 {
            proof {
                assert(hashes_of(table@)[i as int] == hash.0);
                lemma_first_index_is(hashes_of(table@), hash.0, i as int);
            }
            return Some(i);
        }
        i += 1;
    }
    proof {
        lemma_first_index_none(hashes_of(table@), hash.0);
    }
    None
}

/// One entry of the search index's path list: a file or a directory below
/// some folder, with the position of its next sibling.
#[derive(Clone, Copy, Debug, PartialEq, Eq)]
pub struct PathEntry {
    pub path: Hash40,
    pub parent: Hash40,
    pub file_name: Hash40,
    pub next: Option<usize>,
    pub is_directory: bool,
}

/// One folder of the search index, with the position of its first child in
/// the path list.
#[derive(Clone, Copy, Debug, PartialEq, Eq)]
pub struct FolderEntry {
    pub path: Hash40,
    pub parent: Hash40,
    pub file_name: Hash40,
    pub first_child: Option<usize>,
}

/// The search index: folders and path entries, each found by hash through a
/// lookup table. A path's lookup row leads through `path_list_indices` to
/// its entry; redirection rewrites the index of that row.
#[derive(Clone, Debug, PartialEq, Eq)]
pub struct SearchIndex {
    pub folder_index: Vec<HashToIndex>,
    pub folders: Vec<FolderEntry>,
    pub path_index: Vec<HashToIndex>,
    pub path_list_indices: Vec<u32>,
    pub paths: Vec<PathEntry>,
}

/// The search index as mathematical sequences.
pub struct SearchIndexView {
    pub folder_index: Seq<HashToIndex>,
    pub folders: Seq<FolderEntry>,
    pub path_index: Seq<HashToIndex>,
    pub path_list_indices: Seq<u32>,
    pub paths: Seq<PathEntry>,
}

impl View for SearchIndex {
    type V = SearchIndexView;

    open spec fn view(&self) -> SearchIndexView {
        SearchIndexView {
            folder_index: self.folder_index@,
            folders: self.folders@,
            path_index: self.path_index@,
            path_list_indices: self.path_list_indices@,
            paths: self.paths@,
        }
    }
}

impl SearchIndexView {
    /// The folder that `hash` resolves to.
    pub open spec fn folder_spec(&self, hash: u64) -> Option<FolderEntry> {
        match first_index(hashes_of(self.folder_index), hash) {
            Some(row) => {
                let index = self.folder_index[row].index;
                if index != NO_INDEX && index < self.folders.len() {
                    Some(self.folders[index as int])
                } else {
                    None
                }
            },
            None => None,
        }
    }

    /// The path entry that a child or sibling link leads to, if it leads
    /// anywhere.
    pub open spec fn child_at(self, link: Option<usize>) -> Option<PathEntry> {
        match link {
            Some(position) => if position < self.paths.len() {
                Some(self.paths[position as int])
            } else {
                None
            },
            None => None,
        }
    }

    /// The index with `index` written to one lookup row of the path table.
    pub open spec fn with_path_redirect(self, row: int, index: u32) -> SearchIndexView {
        SearchIndexView {
            path_index: self.path_index.update(
                row,
                HashToIndex { hash: self.path_index[row].hash, index },
            ),
            ..self
        }
    }

    /// The index with the sibling link of one path entry rewritten; the same
    /// index where there is no such entry.
    pub open spec fn with_next(self, position: int, next: Option<usize>) -> SearchIndexView {
        if 0 <= position < self.paths.len() {
            SearchIndexView {
                paths: self.paths.update(position, PathEntry { next, ..self.paths[position] }),
                ..self
            }
        } else {
            self
        }
    }

    /// The position in `folders` of the folder that `hash` resolves to.
    pub open spec fn folder_position_spec(self, hash: u64) -> Option<int> {
        match first_index(hashes_of(self.folder_index), hash) {
            Some(row) => {
                let index = self.folder_index[row].index;
                if index != NO_INDEX && index < self.folders.len() {
                    Some(index as int)
                } else {
                    None
                }
            },
            None => None,
        }
    }

    /// The index with the child link of the folder `hash` rewritten; the
    /// same index where `hash` resolves to no folder.
    pub open spec fn with_first_child(self, hash: u64, first: Option<usize>) -> SearchIndexView {
        match self.folder_position_spec(hash) {
            Some(position) => SearchIndexView {
                folders: self.folders.update(
                    position,
                    FolderEntry { first_child: first, ..self.folders[position] },
                ),
                ..self
            },
            None => self,
        }
    }

    /// The lookup row of the path `hash`.
    pub open spec fn path_slot_spec(&self, hash: u64) -> Option<int> {
        first_index(hashes_of(self.path_index), hash)
    }

    /// The path entry that `hash` resolves to at present, through its lookup
    /// row and the list of indices.
    pub open spec fn path_entry_spec(&self, hash: u64) -> Option<PathEntry> {
        match self.path_slot_spec(hash) {
            Some(row) => {
                let index = self.path_index[row].index;
                if index != NO_INDEX && index < self.path_list_indices.len() {
                    let position = self.path_list_indices[index as int];
                    if position != NO_INDEX && position < self.paths.len() {
                        Some(self.paths[position as int])
                    } else {
                        None
                    }
                } else {
                    None
                }
            },
            None => None,
        }
    }

}

impl SearchIndex {
    /// Resolves a folder by hash.
    pub fn folder(&self, hash: Hash40) -> (found: Option<FolderEntry>)
        ensures
            found == self@.folder_spec(hash.0),
    {
        match lookup(&self.folder_index, hash) {
            Some(row) => {
                let index = self.folder_index[row].index;
                if index != NO_INDEX && (index as usize) < self.folders.len() {
                    Some(self.folders[index as usize])
                } else {
                    None
                }
            },
            None => None,
        }
    }

    /// Finds the lookup row of a path.
    pub fn path_slot(&self, hash: Hash40) -> (found: Option<usize>)
        ensures
            self@.path_slot_spec(hash.0) == match found {
                Some(i) => Some(i as int),
                None => None,
            },
            found matches Some(i) ==> i < self.path_index.len() && self.path_index[i as int].hash
                == hash,
    {
        lookup(&self.path_index, hash)
    }

    /// Resolves a path entry by hash.
    pub fn path_entry(&self, hash: Hash40) -> (found: Option<PathEntry>)
        ensures
            found == self@.path_entry_spec(hash.0),
    {
        match lookup(&self.path_index, hash) {
            Some(row) => {
                let index = self.path_index[row].index;
                if index != NO_INDEX && (index as usize) < self.path_list_indices.len() {
                    let position = self.path_list_indices[index as usize];
                    if position != NO_INDEX && (position as usize) < self.paths.len() {
                        Some(self.paths[position as usize])
                    } else {
                        None
                    }
                } else {
                    None
                }
            },
            None => None,
        }
    }

    /// Follows a child or sibling link into the path list.
    pub fn child(&self, link: Option<usize>) -> (found: Option<PathEntry>)
        ensures
            found == self@.child_at(link),
    {
        match link {
            Some(position) => if position < self.paths.len() {
                Some(self.paths[position])
            } else {
                None
            },
            None => None,
        }
    }

    /// Rewrites the sibling link of one path entry. A position out of range
    /// is refused and nothing is written.
    pub fn set_next(&mut self, position: usize, next: Option<usize>) -> (written: bool)
        ensures
            written == (position < old(self)@.paths.len()),
            final(self)@ == old(self)@.with_next(position as int, next),
    {
        if position < self.paths.len() {
            let entry = self.paths[position];
            self.paths.set(position, PathEntry { next, ..entry });
            true
        } else {
            false
        }
    }

    /// Rewrites the child link of the folder that `hash` resolves to. Nothing
    /// is written where it resolves to none.
    pub fn set_first_child(&mut self, hash: Hash40, first: Option<usize>) -> (written: bool)
        ensures
            written == (old(self)@.folder_position_spec(hash.0) is Some),
            final(self)@ == old(self)@.with_first_child(hash.0, first),
    {
        match lookup(&self.folder_index, hash) {
            Some(row) => {
                let index = self.folder_index[row].index;
                if index != NO_INDEX && (index as usize) < self.folders.len() {
                    let folder = self.folders[index as usize];
                    self.folders.set(index as usize, FolderEntry { first_child: first, ..folder });
                    true
                } else {
                    false
                }
            },
            None => false,
        }
    }

    /// Rewrites the index of one lookup row of the path table. A row out of
    /// range is refused and nothing is written.
    pub fn set_path_redirect(&mut self, row: usize, index: u32) -> (written: bool)
        ensures
            written == (row < old(self)@.path_index.len()),
            final(self)@ == (if written {
                old(self)@.with_path_redirect(row as int, index)
            } else {
                old(self)@
            }),
    {
        if row < self.path_index.len() {
            let hash = self.path_index[row].hash;
            self.path_index.set(row, HashToIndex { hash, index });
            true
        } else {
            false
        }
    }
}

/// One file record of the directory table.
#[derive(Clone, Copy, Debug, PartialEq, Eq)]
pub struct FileInfo {
    pub file_path_index: u32,
    pub file_info_indice_index: u32,
}

/// One directory record: the range of file records that it owns.
#[derive(Clone, Copy, Debug, PartialEq, Eq)]
pub struct DirInfo {
    pub file_info_start_index: u32,
    pub file_count: u32,
}

/// The directory table. `dir_index` finds a directory record by hash and
/// `file_path_index` a file path by hash; a file path holds its own hash and
/// the index of its data, which leads through `file_info_indices` to a file
/// record.
#[derive(Clone, Debug, PartialEq, Eq)]
pub struct DirectoryTable {
    pub dir_index: Vec<HashToIndex>,
    pub dir_infos: Vec<DirInfo>,
    pub file_path_index: Vec<HashToIndex>,
    pub file_paths: Vec<HashToIndex>,
    pub file_info_indices: Vec<u32>,
    pub file_infos: Vec<FileInfo>,
}

/// The directory table as mathematical sequences.
pub struct DirectoryTableView {
    pub dir_index: Seq<HashToIndex>,
    pub dir_infos: Seq<DirInfo>,
    pub file_path_index: Seq<HashToIndex>,
    pub file_paths: Seq<HashToIndex>,
    pub file_info_indices: Seq<u32>,
    pub file_infos: Seq<FileInfo>,
}

impl View for DirectoryTable {
    type V = DirectoryTableView;

    open spec fn view(&self) -> DirectoryTableView {
        DirectoryTableView {
            dir_index: self.dir_index@,
            dir_infos: self.dir_infos@,
            file_path_index: self.file_path_index@,
            file_paths: self.file_paths@,
            file_info_indices: self.file_info_indices@,
            file_infos: self.file_infos@,
        }
    }
}

impl DirectoryTableView {
    /// The directory record that `hash` resolves to.
    pub open spec fn dir_spec(&self, hash: u64) -> Option<DirInfo> {
        match first_index(hashes_of(self.dir_index), hash) {
            Some(row) => {
                let index = self.dir_index[row].index;
                if index < self.dir_infos.len() {
                    Some(self.dir_infos[index as int])
                } else {
                    None
                }
            },
            None => None,
        }
    }

    /// The position of the file path `hash` in `file_paths`.
    pub open spec fn file_path_position_spec(&self, hash: u64) -> Option<u32> {
        match first_index(hashes_of(self.file_path_index), hash) {
            Some(row) => Some(self.file_path_index[row].index),
            None => None,
        }
    }

    /// The file record that the path `hash` resolves to at present.
    pub open spec fn file_info_spec(&self, hash: u64) -> Option<FileInfo> {
        match self.file_path_position_spec(hash) {
            Some(position) => {
                if position < self.file_paths.len() {
                    let data = self.file_paths[position as int].index;
                    if data < self.file_info_indices.len() {
                        let record = self.file_info_indices[data as int];
                        if record < self.file_infos.len() {
                            Some(self.file_infos[record as int])
                        } else {
                            None
                        }
                    } else {
                        None
                    }
                } else {
                    None
                }
            },
            None => None,
        }
    }

}

impl DirectoryTable {
    /// Resolves a directory record by hash.
    pub fn dir(&self, hash: Hash40) -> (found: Option<DirInfo>)
        ensures
            found == self@.dir_spec(hash.0),
    {
        match lookup(&self.dir_index, hash) {
            Some(row) => {
                let index = self.dir_index[row].index;
                if (index as usize) < self.dir_infos.len() {
                    Some(self.dir_infos[index as usize])
                } else {
                    None
                }
            },
            None => None,
        }
    }

    /// Finds the position of a file path by hash.
    pub fn file_path_position(&self, hash: Hash40) -> (found: Option<u32>)
        ensures
            found == self@.file_path_position_spec(hash.0),
    {
        match lookup(&self.file_path_index, hash) {
            Some(row) => Some(self.file_path_index[row].index),
            None => None,
        }
    }

    /// Resolves a file record by the hash of its path.
    pub fn file_info(&self, hash: Hash40) -> (found: Option<FileInfo>)
        ensures
            found == self@.file_info_spec(hash.0),
    {
        match self.file_path_position(hash) {
            Some(position) => {
                if (position as usize) < self.file_paths.len() {
                    let data = self.file_paths[position as usize].index;
                    if (data as usize) < self.file_info_indices.len() {
                        let record = self.file_info_indices[data as usize];
                        if (record as usize) < self.file_infos.len() {
                            Some(self.file_infos[record as usize])
                        } else {
                            None
                        }
                    } else {
                        None
                    }
                } else {
                    None
                }
            },
            None => None,
        }
    }
}

} // verus!
