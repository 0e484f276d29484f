//! The order of a folder's children: directories before files, known names
//! in the order of their text before unknown ones in the order of their
//! hashes, and the relinking of every folder's children in that order.

use std::collections::HashMap;
use vstd::prelude::*;
use vstd::string::StringSliceAdditionalSpecFns;
use crate::archive::{FolderEntry, PathEntry, SearchIndex, SearchIndexView};
use crate::hash::{str_hash, Hash40};

verus! {

broadcast use vstd::std_specs::hash::group_hash_axioms;

/// The table of known names: for the hash of a path component, its text.
#[derive(Debug)]
pub struct NameTable {
    pub names: HashMap<u64, String>,
}

impl View for NameTable {
    type V = Map<u64, Seq<u8>>;

    /// For each known hash the bytes of its text.
    open spec fn view(&self) -> Map<u64, Seq<u8>> {
        Map::new(
            |hash: u64| self.names@.contains_key(hash),
            |hash: u64| vstd::utf8::encode_utf8(self.names@[hash]@),
        )
    }
}

impl NameTable {
    /// A table that knows no name.
    pub fn new() -> (table: NameTable)
        ensures
            table.names@ == Map::<u64, String>::empty(),
    {
        NameTable { names: HashMap::new() }
    }

    /// Makes a name known by its hash, in place of an earlier name of that
    /// hash.
    pub fn insert(&mut self, name: String)
        ensures
            final(self).names@ == old(self).names@.insert(str_hash(name@), name),
    {
        let hash = Hash40::new(name.as_str());
        let _ = self.names.insert(hash.0, name);
    }

    /// The text known for a hash.
    pub fn get(&self, hash: Hash40) -> (name: Option<&str>)
        ensures
            match name {
                Some(text) => self@.contains_key(hash.0) && text.spec_bytes() == self@[hash.0],
                None => !self@.contains_key(hash.0),
            },
    {
        match self.names.get(&hash.0) {
            Some(name) => Some(name.as_str()),
            None => None,
        }
    }
}

/// The table that knows the names of `lines`, each under its hash; a later
/// line replaces an earlier one of the same hash.
pub open spec fn names_of(lines: Seq<String>) -> Map<u64, String>
    decreases lines.len(),
{
    if lines.len() == 0 {
        Map::empty()
    } else {
        names_of(lines.drop_last()).insert(str_hash(lines.last()@), lines.last())
    }
}

/// Builds the table of known names: empty where `empty` is asked for, else
/// of the names in `lines`.
pub fn init_hash_lookup(empty: bool, lines: Vec<String>) -> (table: NameTable)
    ensures
        table.names@ == (if empty {
            Map::<u64, String>::empty()
        } else {
            names_of(lines@)
        }),
{
    let mut table = NameTable::new();
    if empty {
        return table;
    }
    let mut lines = lines;
    let ghost all = lines@;
    let mut rest: Vec<String> = Vec::new();
    while lines.len() > 0
        invariant
            all == lines@ + rest@.reverse(),
        decreases lines.len(),
    {
        let ghost before = lines@;
        let line = lines.pop().unwrap();
        rest.push(line);
        proof {
            assert(rest@.reverse() =~= seq![line] + rest@.drop_last().reverse());
            assert(before =~= lines@ + seq![line]);
            assert(all =~= lines@ + rest@.reverse());
        }
    }
    proof {
        assert(all =~= rest@.reverse());
    }
    let ghost mut done: Seq<String> = Seq::empty();
    while rest.len() > 0
        invariant
            all == done + rest@.reverse(),
            table.names@ == names_of(done),
        decreases rest.len(),
    {
        let ghost before = rest@;
        let line = rest.pop().unwrap();
        proof {
            assert(before.reverse() =~= seq![line] + rest@.reverse());
            assert((done.push(line)).drop_last() =~= done);
            assert(all =~= done.push(line) + rest@.reverse());
            done = done.push(line);
        }
        table.insert(line);
    }
    proof {
        assert(all =~= done);
    }
    table
}

/// One text comes before another: at the first byte in which they differ
/// its byte is the smaller, or it ends there and the other does not.
pub open spec fn bytes_before(a: Seq<u8>, b: Seq<u8>) -> bool
    decreases a.len(),
{
    if b.len() == 0 {
        false
    } else if a.len() == 0 {
        true
    } else if a[0] != b[0] {
        a[0] < b[0]
    } else {
        bytes_before(a.skip(1), b.skip(1))
    }
}

/// Tells whether one text comes before another, byte by byte.
pub fn text_before(a: &str, b: &str) -> (before: bool)
    ensures
        before == bytes_before(a.spec_bytes(), b.spec_bytes()),
{
    let x = a.as_bytes();
    let y = b.as_bytes();
    let mut i: usize = 0;
    proof {
        assert(x@.skip(0) =~= x@);
        assert(y@.skip(0) =~= y@);
    }
    while i < x.len() && i < y.len()
        invariant
            x@ == a.spec_bytes(),
            y@ == b.spec_bytes(),
            i <= x@.len(),
            i <= y@.len(),
            bytes_before(x@, y@) == bytes_before(x@.skip(i as int), y@.skip(i as int)),
        decreases x.len() - i,
    {
        proof {
            assert(x@.skip(i as int).skip(1) =~= x@.skip(i + 1));
            assert(y@.skip(i as int).skip(1) =~= y@.skip(i + 1));
            assert(x@.skip(i as int)[0] == x@[i as int]);
            assert(y@.skip(i as int)[0] == y@[i as int]);
        }
        if x[i] != y[i] {
            return x[i] < y[i];
        }
        i += 1;
    }
    i < y.len()
}

/// What a child is ordered by: the text of its name where the name is
/// known, else the hash of the name.
pub enum KeyView {
    Resolved(Seq<u8>),
    Unresolved(u64),
}

/// The key of the name `hash` under a table of names.
pub open spec fn key_of(names: Map<u64, Seq<u8>>, hash: u64) -> KeyView {
    if names.contains_key(hash) {
        KeyView::Resolved(names[hash])
    } else {
        KeyView::Unresolved(hash)
    }
}

/// One key comes before another: a known name before an unknown one, known
/// names by their text, unknown ones by their hash.
pub open spec fn key_before(a: KeyView, b: KeyView) -> bool {
    match (a, b) {
        (KeyView::Resolved(first), KeyView::Resolved(second)) => bytes_before(first, second),
        (KeyView::Resolved(_), KeyView::Unresolved(_)) => true,
        (KeyView::Unresolved(_), KeyView::Resolved(_)) => false,
        (KeyView::Unresolved(first), KeyView::Unresolved(second)) => first < second,
    }
}

/// The key of a child with the text that it borrows from the table.
#[derive(Clone, Copy, Debug)]
pub enum SearchKey<'a> {
    Resolved(&'a str),
    Unresolved(Hash40),
}

impl<'a> SearchKey<'a> {
    /// What the key orders by.
    pub open spec fn key_view(self) -> KeyView {
        match self {
            SearchKey::Resolved(text) => KeyView::Resolved(text.spec_bytes()),
            SearchKey::Unresolved(hash) => KeyView::Unresolved(hash.0),
        }
    }

    /// The key of a name: its text where the table knows it.
    pub fn new(lookup: &'a NameTable, hash: Hash40) -> (key: SearchKey<'a>)
        ensures
            key.key_view() == key_of(lookup@, hash.0),
    {
        match lookup.get(hash) {
            Some(text) => SearchKey::Resolved(text),
            None => SearchKey::Unresolved(hash),
        }
    }

    /// Tells whether this key comes before another.
    pub fn before(&self, other: &SearchKey<'a>) -> (before: bool)
        ensures
            before == key_before(self.key_view(), other.key_view()),
    {
        match (self, other) {
            (SearchKey::Resolved(first), SearchKey::Resolved(second)) => text_before(first, second),
            (SearchKey::Resolved(_), SearchKey::Unresolved(_)) => true,
            (SearchKey::Unresolved(_), SearchKey::Resolved(_)) => false,
            (SearchKey::Unresolved(first), SearchKey::Unresolved(second)) => first.0 < second.0,
        }
    }
}

/// A child as the order sees it, and its position in the path list.
pub struct ChildView {
    pub key: KeyView,
    pub is_folder: bool,
    pub index: usize,
}

/// One child comes before another: a directory before a file, two of a
/// kind by their keys, and two of equal keys by their positions in the path
/// list.
pub open spec fn child_before(a: ChildView, b: ChildView) -> bool {
    if a.is_folder != b.is_folder {
        a.is_folder
    } else if key_before(a.key, b.key) {
        true
    } else if key_before(b.key, a.key) {
        false
    } else {
        a.index < b.index
    }
}

/// A child of a folder, as the order sees it.
#[derive(Clone, Copy, Debug)]
pub struct SearchEntry<'a> {
    pub key: SearchKey<'a>,
    pub is_folder: bool,
    pub index: usize,
}

impl<'a> SearchEntry<'a> {
    /// The child as the order sees it.
    pub open spec fn child_view(self) -> ChildView {
        ChildView { key: self.key.key_view(), is_folder: self.is_folder, index: self.index }
    }

    /// Tells whether this child comes before another.
    pub fn before(&self, other: &SearchEntry<'a>) -> (before: bool)
        ensures
            before == child_before(self.child_view(), other.child_view()),
    {
        if self.is_folder != other.is_folder {
            self.is_folder
        } else if self.key.before(&other.key) {
            true
        } else if other.key.before(&self.key) {
            false
        } else {
            self.index < other.index
        }
    }
}

/// The children of a list as the order sees them.
pub open spec fn child_views(list: Seq<SearchEntry<'_>>) -> Seq<ChildView> {
    Seq::new(list.len(), |i: int| list[i].child_view())
}

/// The first place from `from` on whose child does not come before `child`.
pub open spec fn child_place(list: Seq<ChildView>, child: ChildView, from: int) -> int
    decreases list.len() - from,
{
    if from < 0 || from >= list.len() {
        list.len() as int
    } else if child_before(list[from], child) {
        child_place(list, child, from + 1)
    } else {
        from
    }
}

/// The list with one more child put in its place. Children of equal keys
/// are all kept, in the order of their positions; only an entry that the
/// links lead to a second time is not put in again.
pub open spec fn with_child(list: Seq<ChildView>, child: ChildView) -> Seq<ChildView> {
    let place = child_place(list, child, 0);
    if place < list.len() && !child_before(child, list[place]) {
        list
    } else {
        list.insert(place, child)
    }
}

/// The child that the order sees in an entry of the path list.
pub open spec fn child_of(names: Map<u64, Seq<u8>>, entry: PathEntry, index: usize) -> ChildView {
    ChildView { key: key_of(names, entry.file_name.0), is_folder: entry.is_directory, index }
}

/// The index and the ordered children after a walk along the sibling links
/// from `cur`, `fuel` entries at most: each entry is put in its place among
/// `seen`, and each directory is sorted in its turn, `depth` folders deep at
/// most, before the walk goes on by the link that the entry had.
pub open spec fn walk_spec(
    search: SearchIndexView,
    names: Map<u64, Seq<u8>>,
    cur: Option<usize>,
    fuel: nat,
    depth: nat,
    seen: Seq<ChildView>,
) -> (SearchIndexView, Seq<ChildView>)
    decreases depth, 0nat, fuel,
{
    if fuel == 0 {
        (search, seen)
    } else {
        match search.child_at(cur) {
            None => (search, seen),
            Some(entry) => {
                let more = with_child(seen, child_of(names, entry, cur.unwrap()));
                let below = if entry.is_directory && depth > 0 {
                    sort_spec(search, names, entry.path.0, (depth - 1) as nat)
                } else {
                    search
                };
                walk_spec(below, names, entry.next, (fuel - 1) as nat, depth, more)
            },
        }
    }
}

/// The index after the children from place `from` on were linked each to
/// the next, and the last to nothing.
pub open spec fn relink_from(search: SearchIndexView, list: Seq<ChildView>, from: int) -> SearchIndexView
    decreases list.len() - from,
{
    if from < 0 || from >= list.len() {
        search
    } else {
        let next = if from + 1 < list.len() {
            Some(list[from + 1].index)
        } else {
            None
        };
        relink_from(search.with_next(list[from].index as int, next), list, from + 1)
    }
}

/// The index after the folder `folder` was given the children of `list` in
/// their order; the same index where `folder` resolves to no folder.
pub open spec fn relink_spec(search: SearchIndexView, folder: u64, list: Seq<ChildView>) -> SearchIndexView {
    if search.folder_position_spec(folder) is Some {
        let first = if list.len() > 0 {
            Some(list[0].index)
        } else {
            None
        };
        relink_from(search.with_first_child(folder, first), list, 0)
    } else {
        search
    }
}

/// The index after the folder `folder` and the folders below it, `depth`
/// deep at most, had their children put in order.
pub open spec fn sort_spec(search: SearchIndexView, names: Map<u64, Seq<u8>>, folder: u64, depth: nat) -> SearchIndexView
    decreases depth, 1nat, 0nat,
{
    match search.folder_spec(folder) {
        None => search,
        Some(entry) => {
            let walked = walk_spec(
                search,
                names,
                entry.first_child,
                search.paths.len(),
                depth,
                Seq::empty(),
            );
            relink_spec(walked.0, folder, walked.1)
        },
    }
}

/// Puts one more child in its place among the ordered children.
fn put_child<'a>(children: &mut Vec<SearchEntry<'a>>, child: SearchEntry<'a>)
    ensures
        child_views(final(children)@) == with_child(child_views(old(children)@), child.child_view()),
{
    let ghost views = child_views(children@);
    let mut place: usize = 0;
    while place < children.len() && children[place].before(&child)
        invariant
            place <= children.len(),
            views == child_views(children@),
            children@ == old(children)@,
            child_place(views, child.child_view(), 0) == child_place(
                views,
                child.child_view(),
                place as int,
            ),
        decreases children.len() - place,
    {
        place += 1;
    }
    if place < children.len() && !child.before(&children[place]) {
    } else {
        children.insert(place, child);
        proof {
            assert(child_views(children@) =~= with_child(views, child.child_view()));
        }
    }
}

/// Sorts the folder `name` and the folders below it, `depth` deep at most.
fn sort_within(name: Hash40, search: &mut SearchIndex, lookup: &NameTable, depth: usize)
    ensures
        final(search)@ == sort_spec(old(search)@, lookup@, name.0, depth as nat),
    decreases depth,
{
    let folder = match search.folder(name) {
        Some(folder) => folder,
        None => {
            return ;
        },
    };
    let mut children: Vec<SearchEntry> = Vec::new();
    let mut cur = folder.first_child;
    let mut fuel: usize = search.paths.len();
    let mut child = search.child(cur);
    let ghost goal = walk_spec(
        old(search)@,
        lookup@,
        folder.first_child,
        old(search)@.paths.len(),
        depth as nat,
        Seq::empty(),
    );
    proof {
        assert(child_views(children@) =~= Seq::<ChildView>::empty());
    }
    while fuel > 0 && child.is_some()
        invariant
            child == search@.child_at(cur),
            goal == walk_spec(
                search@,
                lookup@,
                cur,
                fuel as nat,
                depth as nat,
                child_views(children@),
            ),
        decreases fuel,
    {
        let entry = child.unwrap();
        let position = cur.unwrap();
        put_child(
            &mut children,
            SearchEntry {
                key: SearchKey::new(lookup, entry.file_name),
                is_folder: entry.is_directory,
                index: position,
            },
        );
        if entry.is_directory && depth > 0 {
            sort_within(entry.path, search, lookup, depth - 1);
        }
        cur = entry.next;
        fuel -= 1;
        child = search.child(cur);
    }
    let ghost walked = search@;
    let ghost list = child_views(children@);
    let first = if children.len() > 0 {
        Some(children[0].index)
    } else {
        None
    };
    if !search.set_first_child(name, first) {
        return ;
    }
    let mut i: usize = 0;
    while i < children.len()
        invariant
            i <= children.len(),
            list == child_views(children@),
            relink_spec(walked, name.0, list) == relink_from(search@, list, i as int),
        decreases children.len() - i,
    {
        let next = if i + 1 < children.len() {
            Some(children[i + 1].index)
        } else {
            None
        };
        search.set_next(children[i].index, next);
        i += 1;
    }
}

/// Puts the children of the folder `name`, and of every folder below it, in
/// order: directories before files, known names by their text before
/// unknown ones by their hash. Each folder's child link and its children's
/// sibling links are rewritten to that order, the last child linking to
/// nothing. Folders are entered as deep as there are folders, which no
/// tree of distinct folders exceeds.
pub fn sort_folder_contents(name: Hash40, search: &mut SearchIndex, lookup: &NameTable)
    ensures
        final(search)@ == sort_spec(
            old(search)@,
            lookup@,
            name.0,
            old(search)@.folders.len() as nat,
        ),
{
    let depth = search.folders.len();
    sort_within(name, search, lookup, depth);
}

/// The siblings from the link `cur` on are in order: the links end in
/// nothing within `fuel` entries, each child comes after all of `seen` and
/// all children before it, and each directory among them, `depth` folders
/// deep at most, is a folder in order.
pub open spec fn sorted_chain(
    search: SearchIndexView,
    names: Map<u64, Seq<u8>>,
    cur: Option<usize>,
    fuel: nat,
    depth: nat,
    seen: Seq<ChildView>,
) -> bool
    decreases depth, 0nat, fuel,
{
    match cur {
        None => true,
        Some(position) => {
            &&& fuel > 0
            &&& position < search.paths.len()
            &&& forall|k: int|
                0 <= k < seen.len() ==> child_before(
                    #[trigger] seen[k],
                    child_of(names, search.paths[position as int], position),
                )
            &&& search.paths[position as int].is_directory && depth > 0 ==> sorted_folder(
                search,
                names,
                search.paths[position as int].path.0,
                (depth - 1) as nat,
            )
            &&& sorted_chain(
                search,
                names,
                search.paths[position as int].next,
                (fuel - 1) as nat,
                depth,
                seen.push(child_of(names, search.paths[position as int], position)),
            )
        },
    }
}

/// The folder `folder` and the folders below it, `depth` deep at most, have
/// their children in order.
pub open spec fn sorted_folder(
    search: SearchIndexView,
    names: Map<u64, Seq<u8>>,
    folder: u64,
    depth: nat,
) -> bool
    decreases depth, 1nat, 0nat,
{
    match search.folder_spec(folder) {
        None => true,
        Some(entry) => sorted_chain(
            search,
            names,
            entry.first_child,
            search.paths.len(),
            depth,
            Seq::empty(),
        ),
    }
}

/// The children of `list` from place `from` on are the siblings that the
/// link `cur` leads to, one after the other, and the last links to nothing.
pub open spec fn linked(search: SearchIndexView, list: Seq<ChildView>, from: int, cur: Option<usize>) -> bool
    decreases list.len() - from,
{
    if from < 0 || from >= list.len() {
        cur is None
    } else {
        &&& cur == Some(list[from].index)
        &&& list[from].index < search.paths.len()
        &&& linked(search, list, from + 1, search.paths[list[from].index as int].next)
    }
}

/// A child that comes after all others has its place at the end.
proof fn lemma_place_at_end(list: Seq<ChildView>, child: ChildView, from: int)
    requires
        0 <= from <= list.len(),
        forall|k: int| 0 <= k < list.len() ==> child_before(#[trigger] list[k], child),
    ensures
        child_place(list, child, from) == list.len(),
    decreases list.len() - from,
{
    if from < list.len() {
        lemma_place_at_end(list, child, from + 1);
    }
}

/// Linking children that are linked already changes nothing.
proof fn lemma_relink_linked(
    search: SearchIndexView,
    list: Seq<ChildView>,
    from: int,
    cur: Option<usize>,
)
    requires
        0 <= from,
        linked(search, list, from, cur),
    ensures
        relink_from(search, list, from) == search,
    decreases list.len() - from,
{
    if from < list.len() {
        let position = list[from].index as int;
        let next = search.paths[position].next;
        lemma_relink_linked(search, list, from + 1, next);
        let written = if from + 1 < list.len() {
            Some(list[from + 1].index)
        } else {
            None
        };
        assert(linked(search, list, from + 1, next));
        assert(written == next);
        assert(search.with_next(position, written).paths =~= search.paths);
    }
}

/// A walk along siblings in order changes nothing and lists them as they
/// are linked.
proof fn lemma_walk_sorted(
    search: SearchIndexView,
    names: Map<u64, Seq<u8>>,
    cur: Option<usize>,
    fuel: nat,
    depth: nat,
    seen: Seq<ChildView>,
)
    requires
        sorted_chain(search, names, cur, fuel, depth, seen),
    ensures
        walk_spec(search, names, cur, fuel, depth, seen).0 == search,
        walk_spec(search, names, cur, fuel, depth, seen).1.len() >= seen.len(),
        walk_spec(search, names, cur, fuel, depth, seen).1.take(seen.len() as int) == seen,
        linked(
            search,
            walk_spec(search, names, cur, fuel, depth, seen).1,
            seen.len() as int,
            cur,
        ),
    decreases depth, 0nat, fuel,
{
    match cur {
        None => {
            assert(seen.take(seen.len() as int) =~= seen);
        },
        Some(position) => {
            let entry = search.paths[position as int];
            let child = child_of(names, entry, position);
            lemma_place_at_end(seen, child, 0);
            let more = with_child(seen, child);
            assert(more =~= seen.push(child));
            if entry.is_directory && depth > 0 {
                lemma_sort_fixed_point(search, names, entry.path.0, (depth - 1) as nat);
            }
            lemma_walk_sorted(search, names, entry.next, (fuel - 1) as nat, depth, more);
            let walked = walk_spec(search, names, cur, fuel, depth, seen);
            assert(walked.1.take(more.len() as int) == more);
            assert(walked.1[seen.len() as int] == more[seen.len() as int]);
            assert(walked.1.take(seen.len() as int) =~= seen) by {
                assert forall|k: int| 0 <= k < seen.len() implies walked.1[k] == seen[k] by {
                    assert(walked.1.take(more.len() as int)[k] == more[k]);
                }
            }
        },
    }
}

/// Sorting a folder whose children, and the children of the folders below
/// it, are in order already leaves the index as it is: every link keeps its
/// value.
pub proof fn lemma_sort_fixed_point(
    search: SearchIndexView,
    names: Map<u64, Seq<u8>>,
    folder: u64,
    depth: nat,
)
    requires
        sorted_folder(search, names, folder, depth),
    ensures
        sort_spec(search, names, folder, depth) == search,
    decreases depth, 1nat, 0nat,
{
    match search.folder_spec(folder) {
        None => {},
        Some(entry) => {
            lemma_walk_sorted(
                search,
                names,
                entry.first_child,
                search.paths.len(),
                depth,
                Seq::empty(),
            );
            let walked = walk_spec(
                search,
                names,
                entry.first_child,
                search.paths.len(),
                depth,
                Seq::empty(),
            );
            let list = walked.1;
            let first = if list.len() > 0 {
                Some(list[0].index)
            } else {
                None
            };
            assert(first == entry.first_child);
            assert(search.with_first_child(folder, first).folders =~= search.folders);
            lemma_relink_linked(search, list, 0, entry.first_child);
        },
    }
}

/// The order of texts is transitive.
pub proof fn lemma_bytes_before_transitive(a: Seq<u8>, b: Seq<u8>, c: Seq<u8>)
    requires
        bytes_before(a, b),
        bytes_before(b, c),
    ensures
        bytes_before(a, c),
    decreases a.len(),
{
    if a.len() > 0 && b.len() > 0 && c.len() > 0 && a[0] == b[0] && b[0] == c[0] {
        lemma_bytes_before_transitive(a.skip(1), b.skip(1), c.skip(1));
    }
}

/// The order of keys is a strict order in which two keys are the same
/// where neither comes before the other.
pub proof fn lemma_key_before_laws(a: KeyView, b: KeyView, c: KeyView)
    ensures
        !key_before(a, a),
        key_before(a, b) && key_before(b, c) ==> key_before(a, c),
        !key_before(a, b) && !key_before(b, a) ==> a == b,
{
    match (a, b) {
        (KeyView::Resolved(x), KeyView::Resolved(y)) => {
            lemma_bytes_before_irreflexive(x);
            if !bytes_before(x, y) && !bytes_before(y, x) {
                lemma_bytes_before_total(x, y);
            }
            match c {
                KeyView::Resolved(z) => {
                    if bytes_before(x, y) && bytes_before(y, z) {
                        lemma_bytes_before_transitive(x, y, z);
                    }
                },
                _ => {},
            }
        },
        (KeyView::Resolved(x), _) => {
            lemma_bytes_before_irreflexive(x);
        },
        _ => {},
    }
}

/// The order of children is transitive.
pub proof fn lemma_child_before_transitive(a: ChildView, b: ChildView, c: ChildView)
    requires
        child_before(a, b),
        child_before(b, c),
    ensures
        child_before(a, c),
{
    lemma_key_before_laws(a.key, b.key, c.key);
    lemma_key_before_laws(b.key, c.key, a.key);
    lemma_key_before_laws(c.key, a.key, b.key);
    lemma_key_before_laws(b.key, a.key, c.key);
    lemma_key_before_laws(c.key, b.key, a.key);
    lemma_key_before_laws(a.key, c.key, b.key);
}

/// Every child of the list comes before those behind it.
pub open spec fn ordered(list: Seq<ChildView>) -> bool {
    forall|i: int, j: int| 0 <= i < j < list.len() ==> child_before(list[i], list[j])
}

/// All children before the place of a child come before the child.
proof fn lemma_before_place(list: Seq<ChildView>, child: ChildView, from: int)
    requires
        0 <= from <= list.len(),
    ensures
        from <= child_place(list, child, from) <= list.len(),
        forall|k: int|
            from <= k < child_place(list, child, from) ==> child_before(#[trigger] list[k], child),
        child_place(list, child, from) < list.len() ==> !child_before(
            list[child_place(list, child, from)],
            child,
        ),
    decreases list.len() - from,
{
    if from < list.len() && child_before(list[from], child) {
        lemma_before_place(list, child, from + 1);
    }
}

/// A child put in its place among ordered children leaves them ordered.
pub proof fn lemma_with_child_ordered(list: Seq<ChildView>, child: ChildView)
    requires
        ordered(list),
    ensures
        ordered(with_child(list, child)),
{
    lemma_before_place(list, child, 0);
    let place = child_place(list, child, 0);
    let after = with_child(list, child);
    if place < list.len() && !child_before(child, list[place]) {
        assert forall|i: int, j: int| 0 <= i < j < after.len() implies child_before(
            after[i],
            after[j],
        ) by {
            assert(child_before(list[i], list[j]));
        }
    } else {
        assert forall|i: int, j: int| 0 <= i < j < after.len() implies child_before(
            after[i],
            after[j],
        ) by {
            if j < place {
                assert(child_before(list[i], list[j]));
            } else if j == place {
                assert(after[i] == list[i]);
            } else if i < place {
                assert(child_before(list[i], list[j - 1]));
            } else if i == place {
                if j - 1 > place {
                    assert(child_before(list[place], list[j - 1]));
                    lemma_child_before_transitive(child, list[place], list[j - 1]);
                }
            } else {
                assert(child_before(list[i - 1], list[j - 1]));
            }
        }
    }
}

/// The children that a walk lists are in order: those that sorting links a
/// folder's children by come each before the next.
pub proof fn lemma_walk_ordered(
    search: SearchIndexView,
    names: Map<u64, Seq<u8>>,
    cur: Option<usize>,
    fuel: nat,
    depth: nat,
    seen: Seq<ChildView>,
)
    requires
        ordered(seen),
    ensures
        ordered(walk_spec(search, names, cur, fuel, depth, seen).1),
    decreases fuel,
{
    if fuel > 0 {
        match search.child_at(cur) {
            None => {},
            Some(entry) => {
                let more = with_child(seen, child_of(names, entry, cur.unwrap()));
                lemma_with_child_ordered(seen, child_of(names, entry, cur.unwrap()));
                let below = if entry.is_directory && depth > 0 {
                    sort_spec(search, names, entry.path.0, (depth - 1) as nat)
                } else {
                    search
                };
                lemma_walk_ordered(below, names, entry.next, (fuel - 1) as nat, depth, more);
            },
        }
    }
}

/// The link that relinking gives the child at place `k`: to the next child
/// of the list, or to nothing behind the last.
pub open spec fn successor(list: Seq<ChildView>, k: int) -> Option<usize> {
    if k + 1 < list.len() {
        Some(list[k + 1].index)
    } else {
        None
    }
}

/// The children of the list are entries of the path list, each of them
/// once.
pub open spec fn distinct_children(search: SearchIndexView, list: Seq<ChildView>) -> bool {
    &&& forall|k: int| 0 <= k < list.len() ==> (#[trigger] list[k]).index < search.paths.len()
    &&& forall|i: int, j: int|
        0 <= i < j < list.len() ==> (#[trigger] list[i]).index != (#[trigger] list[j]).index
}

/// Relinking from place `from` on writes to each child from there on the
/// link to its successor and leaves all else as it is.
proof fn lemma_relink_from(search: SearchIndexView, list: Seq<ChildView>, from: int)
    requires
        0 <= from,
        distinct_children(search, list),
    ensures
        relink_from(search, list, from).paths.len() == search.paths.len(),
        relink_from(search, list, from).folders == search.folders,
        relink_from(search, list, from).folder_index == search.folder_index,
        forall|k: int|
            from <= k < list.len() ==> relink_from(search, list, from).paths[(
            #[trigger] list[k]).index as int].next == successor(list, k),
        forall|p: int|
            0 <= p < search.paths.len() && (forall|k: int|
                from <= k < list.len() ==> (#[trigger] list[k]).index != p) ==> relink_from(
                search,
                list,
                from,
            ).paths[p] == search.paths[p],
    decreases list.len() - from,
{
    if from < list.len() {
        let position = list[from].index as int;
        let step = search.with_next(position, successor(list, from));
        assert(distinct_children(step, list));
        lemma_relink_from(step, list, from + 1);
        let last = relink_from(search, list, from);
        assert forall|k: int| from <= k < list.len() implies last.paths[(
        #[trigger] list[k]).index as int].next == successor(list, k) by {
            if k == from {
                assert forall|j: int| from + 1 <= j < list.len() implies (
                #[trigger] list[j]).index != position by {
                    assert(list[from].index != list[j].index);
                }
                assert(last.paths[position] == step.paths[position]);
            }
        }
        assert forall|p: int|
            0 <= p < search.paths.len() && (forall|k: int|
                from <= k < list.len() ==> (#[trigger] list[k]).index != p) implies last.paths[p]
                == search.paths[p] by {
            assert(list[from].index != p);
            assert(step.paths[p] == search.paths[p]);
        }
    }
}

/// In an index whose children from place `from` on link each to its
/// successor, they are linked as the list has them.
proof fn lemma_linked_from(search: SearchIndexView, list: Seq<ChildView>, from: int)
    requires
        0 <= from,
        forall|k: int| 0 <= k < list.len() ==> (#[trigger] list[k]).index < search.paths.len(),
        forall|k: int|
            from <= k < list.len() ==> search.paths[(#[trigger] list[k]).index as int].next
                == successor(list, k),
    ensures
        linked(
            search,
            list,
            from,
            if from < list.len() {
                Some(list[from].index)
            } else {
                None
            },
        ),
    decreases list.len() - from,
{
    if from < list.len() {
        lemma_linked_from(search, list, from + 1);
        assert(search.paths[list[from].index as int].next == successor(list, from));
    }
}

/// After a folder was given a list of distinct children, the folder's child
/// link leads to the first of them and each links to the next, the last to
/// nothing: the folder's children are those of the list, in its order.
pub proof fn lemma_relink_links(search: SearchIndexView, folder: u64, list: Seq<ChildView>)
    requires
        search.folder_position_spec(folder) is Some,
        distinct_children(search, list),
    ensures
        relink_spec(search, folder, list).folder_spec(folder) is Some,
        linked(
            relink_spec(search, folder, list),
            list,
            0,
            relink_spec(search, folder, list).folder_spec(folder).unwrap().first_child,
        ),
{
    let first = if list.len() > 0 {
        Some(list[0].index)
    } else {
        None
    };
    let given = search.with_first_child(folder, first);
    assert(distinct_children(given, list));
    lemma_relink_from(given, list, 0);
    let last = relink_spec(search, folder, list);
    assert(last.folder_spec(folder).unwrap().first_child == first);
    assert forall|k: int| 0 <= k < list.len() implies (#[trigger] list[k]).index
        < last.paths.len() by {}
    lemma_linked_from(last, list, 0);
}

/// No text comes before itself.
pub proof fn lemma_bytes_before_irreflexive(a: Seq<u8>)
    ensures
        !bytes_before(a, a),
    decreases a.len(),
{
    if a.len() > 0 {
        lemma_bytes_before_irreflexive(a.skip(1));
    }
}

/// Of two texts one comes before the other, or they are the same text.
pub proof fn lemma_bytes_before_total(a: Seq<u8>, b: Seq<u8>)
    requires
        !bytes_before(a, b),
        !bytes_before(b, a),
    ensures
        a == b,
    decreases a.len(),
{
    if a.len() > 0 && b.len() > 0 {
        lemma_bytes_before_total(a.skip(1), b.skip(1));
        assert(a =~= seq![a[0]] + a.skip(1));
        assert(b =~= seq![b[0]] + b.skip(1));
    } else {
        assert(a =~= b);
    }
}

/// No child comes before itself, and children of which neither comes
/// before the other are the same child.
pub proof fn lemma_child_before_total(a: ChildView, b: ChildView)
    ensures
        !child_before(a, a),
        !child_before(a, b) && !child_before(b, a) ==> a == b,
{
    lemma_key_before_laws(a.key, b.key, a.key);
    lemma_key_before_laws(b.key, a.key, b.key);
}

/// Two indexes differ in links alone: they hold the same lookup tables and
/// the same entries but for child and sibling links.
pub open spec fn same_entries(a: SearchIndexView, b: SearchIndexView) -> bool {
    &&& a.folder_index == b.folder_index
    &&& a.path_index == b.path_index
    &&& a.path_list_indices == b.path_list_indices
    &&& a.paths.len() == b.paths.len()
    &&& a.folders.len() == b.folders.len()
    &&& forall|p: int|
        0 <= p < a.paths.len() ==> #[trigger] a.paths[p] == (PathEntry {
            next: a.paths[p].next,
            ..b.paths[p]
        })
    &&& forall|f: int|
        0 <= f < a.folders.len() ==> #[trigger] a.folders[f] == (FolderEntry {
            first_child: a.folders[f].first_child,
            ..b.folders[f]
        })
}

/// Relinking changes links alone.
proof fn lemma_relink_from_entries(search: SearchIndexView, list: Seq<ChildView>, from: int)
    requires
        0 <= from,
    ensures
        same_entries(relink_from(search, list, from), search),
    decreases list.len() - from,
{
    if from < list.len() {
        let step = search.with_next(list[from].index as int, successor(list, from));
        assert(same_entries(step, search));
        lemma_relink_from_entries(step, list, from + 1);
        let last = relink_from(search, list, from);
        assert forall|p: int| 0 <= p < last.paths.len() implies #[trigger] last.paths[p]
            == (PathEntry { next: last.paths[p].next, ..search.paths[p] }) by {
            assert(step.paths[p] == (PathEntry { next: step.paths[p].next, ..search.paths[p] }));
        }
        assert forall|f: int| 0 <= f < last.folders.len() implies #[trigger] last.folders[f]
            == (FolderEntry {
            first_child: last.folders[f].first_child,
            ..search.folders[f]
        }) by {
            assert(step.folders[f] == search.folders[f]);
        }
    }
}

/// A walk changes links alone.
proof fn lemma_walk_entries(
    search: SearchIndexView,
    names: Map<u64, Seq<u8>>,
    cur: Option<usize>,
    fuel: nat,
    depth: nat,
    seen: Seq<ChildView>,
)
    ensures
        same_entries(walk_spec(search, names, cur, fuel, depth, seen).0, search),
    decreases depth, 0nat, fuel,
{
    if fuel > 0 {
        match search.child_at(cur) {
            None => {},
            Some(entry) => {
                let more = with_child(seen, child_of(names, entry, cur.unwrap()));
                let below = if entry.is_directory && depth > 0 {
                    sort_spec(search, names, entry.path.0, (depth - 1) as nat)
                } else {
                    search
                };
                if entry.is_directory && depth > 0 {
                    lemma_sort_entries(search, names, entry.path.0, (depth - 1) as nat);
                }
                lemma_walk_entries(below, names, entry.next, (fuel - 1) as nat, depth, more);
                let last = walk_spec(search, names, cur, fuel, depth, seen).0;
                lemma_same_entries_transitive(last, below, search);
            },
        }
    }
}

/// Indexes that differ in links alone from a third differ in links alone.
proof fn lemma_same_entries_transitive(a: SearchIndexView, b: SearchIndexView, c: SearchIndexView)
    requires
        same_entries(a, b),
        same_entries(b, c),
    ensures
        same_entries(a, c),
{
    assert forall|p: int| 0 <= p < a.paths.len() implies #[trigger] a.paths[p] == (PathEntry {
        next: a.paths[p].next,
        ..c.paths[p]
    }) by {
        assert(b.paths[p] == (PathEntry { next: b.paths[p].next, ..c.paths[p] }));
    }
    assert forall|f: int| 0 <= f < a.folders.len() implies #[trigger] a.folders[f]
        == (FolderEntry {
        first_child: a.folders[f].first_child,
        ..c.folders[f]
    }) by {
        assert(b.folders[f] == (FolderEntry {
            first_child: b.folders[f].first_child,
            ..c.folders[f]
        }));
    }
}

/// Sorting changes links alone.
pub proof fn lemma_sort_entries(
    search: SearchIndexView,
    names: Map<u64, Seq<u8>>,
    folder: u64,
    depth: nat,
)
    ensures
        same_entries(sort_spec(search, names, folder, depth), search),
    decreases depth, 1nat, 0nat,
{
    match search.folder_spec(folder) {
        None => {},
        Some(entry) => {
            lemma_walk_entries(
                search,
                names,
                entry.first_child,
                search.paths.len(),
                depth,
                Seq::empty(),
            );
            let walked = walk_spec(
                search,
                names,
                entry.first_child,
                search.paths.len(),
                depth,
                Seq::empty(),
            );
            if walked.0.folder_position_spec(folder) is Some {
                let first = if walked.1.len() > 0 {
                    Some(walked.1[0].index)
                } else {
                    None
                };
                let given = walked.0.with_first_child(folder, first);
                assert(same_entries(given, walked.0));
                lemma_relink_from_entries(given, walked.1, 0);
                lemma_same_entries_transitive(relink_from(given, walked.1, 0), given, walked.0);
            }
            lemma_same_entries_transitive(
                sort_spec(search, names, folder, depth),
                walked.0,
                search,
            );
        },
    }
}

/// Every child of the list is an entry of the path list, seen as the order
/// sees that entry.
pub open spec fn faithful(search: SearchIndexView, names: Map<u64, Seq<u8>>, list: Seq<ChildView>) -> bool {
    forall|k: int|
        0 <= k < list.len() ==> (#[trigger] list[k]).index < search.paths.len() && list[k]
            == child_of(names, search.paths[list[k].index as int], list[k].index)
}

/// A list that is faithful to an index is faithful to one that differs
/// from it in links alone.
proof fn lemma_faithful_entries(
    a: SearchIndexView,
    b: SearchIndexView,
    names: Map<u64, Seq<u8>>,
    list: Seq<ChildView>,
)
    requires
        same_entries(a, b),
        faithful(b, names, list),
    ensures
        faithful(a, names, list),
{
    assert forall|k: int| 0 <= k < list.len() implies (#[trigger] list[k]).index < a.paths.len()
        && list[k] == child_of(names, a.paths[list[k].index as int], list[k].index) by {
        let p = list[k].index as int;
        assert(a.paths[p] == (PathEntry { next: a.paths[p].next, ..b.paths[p] }));
    }
}

/// An entry put in its place among ordered, faithful children leaves them
/// faithful.
proof fn lemma_with_child_faithful(
    search: SearchIndexView,
    names: Map<u64, Seq<u8>>,
    list: Seq<ChildView>,
    position: usize,
)
    requires
        faithful(search, names, list),
        position < search.paths.len(),
    ensures
        faithful(
            search,
            names,
            with_child(list, child_of(names, search.paths[position as int], position)),
        ),
{
    let child = child_of(names, search.paths[position as int], position);
    lemma_before_place(list, child, 0);
    let place = child_place(list, child, 0);
    let after = with_child(list, child);
    if place < list.len() && !child_before(child, list[place]) {
        lemma_child_before_total(list[place], child);
        assert forall|k: int| 0 <= k < after.len() implies (#[trigger] after[k]).index
            < search.paths.len() && after[k] == child_of(
            names,
            search.paths[after[k].index as int],
            after[k].index,
        ) by {
            if k != place {
                assert(after[k] == list[k]);
            }
        }
    } else {
        assert forall|k: int| 0 <= k < after.len() implies (#[trigger] after[k]).index
            < search.paths.len() && after[k] == child_of(
            names,
            search.paths[after[k].index as int],
            after[k].index,
        ) by {
            if k < place {
                assert(after[k] == list[k]);
            } else if k > place {
                assert(after[k] == list[k - 1]);
            }
        }
    }
}

/// The children that a walk lists are entries of the index that the walk
/// leaves, seen as the order sees them.
proof fn lemma_walk_faithful(
    search: SearchIndexView,
    names: Map<u64, Seq<u8>>,
    cur: Option<usize>,
    fuel: nat,
    depth: nat,
    seen: Seq<ChildView>,
)
    requires
        faithful(search, names, seen),
    ensures
        faithful(
            walk_spec(search, names, cur, fuel, depth, seen).0,
            names,
            walk_spec(search, names, cur, fuel, depth, seen).1,
        ),
    decreases fuel,
{
    if fuel > 0 {
        match search.child_at(cur) {
            None => {},
            Some(entry) => {
                let more = with_child(seen, child_of(names, entry, cur.unwrap()));
                lemma_with_child_faithful(search, names, seen, cur.unwrap());
                let below = if entry.is_directory && depth > 0 {
                    sort_spec(search, names, entry.path.0, (depth - 1) as nat)
                } else {
                    search
                };
                if entry.is_directory && depth > 0 {
                    lemma_sort_entries(search, names, entry.path.0, (depth - 1) as nat);
                    lemma_faithful_entries(below, search, names, more);
                }
                lemma_walk_faithful(below, names, entry.next, (fuel - 1) as nat, depth, more);
            },
        }
    }
}

/// The children that sorting links the folder `folder` by, in their order.
pub open spec fn sorted_children(
    search: SearchIndexView,
    names: Map<u64, Seq<u8>>,
    folder: u64,
    depth: nat,
) -> Seq<ChildView> {
    match search.folder_spec(folder) {
        None => Seq::empty(),
        Some(entry) => walk_spec(
            search,
            names,
            entry.first_child,
            search.paths.len(),
            depth,
            Seq::empty(),
        ).1,
    }
}

/// After a folder was sorted, its children are linked in order: the
/// folder's child link and the sibling links lead through a list of entries
/// of the path list in which each comes before those behind it.
pub proof fn lemma_sort_links_in_order(
    search: SearchIndexView,
    names: Map<u64, Seq<u8>>,
    folder: u64,
    depth: nat,
) -> (list: Seq<ChildView>)
    requires
        search.folder_spec(folder) is Some,
    ensures
        list == sorted_children(search, names, folder, depth),
        ordered(list),
        faithful(sort_spec(search, names, folder, depth), names, list),
        sort_spec(search, names, folder, depth).folder_spec(folder) is Some,
        linked(
            sort_spec(search, names, folder, depth),
            list,
            0,
            sort_spec(search, names, folder, depth).folder_spec(folder).unwrap().first_child,
        ),
{
    let entry = search.folder_spec(folder).unwrap();
    let walked = walk_spec(search, names, entry.first_child, search.paths.len(), depth, Seq::empty());
    let list = walked.1;
    lemma_walk_ordered(search, names, entry.first_child, search.paths.len(), depth, Seq::empty());
    lemma_walk_faithful(search, names, entry.first_child, search.paths.len(), depth, Seq::empty());
    lemma_walk_entries(search, names, entry.first_child, search.paths.len(), depth, Seq::empty());
    assert(walked.0.folder_position_spec(folder) is Some);
    assert(distinct_children(walked.0, list)) by {
        assert forall|i: int, j: int| 0 <= i < j < list.len() implies (#[trigger] list[i]).index != (
        #[trigger] list[j]).index by {
            lemma_child_before_total(list[i], list[j]);
            assert(child_before(list[i], list[j]));
        }
    }
    lemma_relink_links(walked.0, folder, list);
    lemma_sort_entries(search, names, folder, depth);
    let last = sort_spec(search, names, folder, depth);
    lemma_same_entries_transitive(walked.0, search, search);
    assert(same_entries(last, walked.0)) by {
        let first = if list.len() > 0 {
            Some(list[0].index)
        } else {
            None
        };
        let given = walked.0.with_first_child(folder, first);
        assert(same_entries(given, walked.0));
        lemma_relink_from_entries(given, list, 0);
        lemma_same_entries_transitive(last, given, walked.0);
    }
    lemma_faithful_entries(last, walked.0, names, list);
    list
}

/// A walk lists no more children than it was given and has fuel for.
proof fn lemma_walk_len(
    search: SearchIndexView,
    names: Map<u64, Seq<u8>>,
    cur: Option<usize>,
    fuel: nat,
    depth: nat,
    seen: Seq<ChildView>,
)
    ensures
        walk_spec(search, names, cur, fuel, depth, seen).1.len() <= seen.len() + fuel,
    decreases fuel,
{
    if fuel > 0 {
        match search.child_at(cur) {
            None => {},
            Some(entry) => {
                let child = child_of(names, entry, cur.unwrap());
                lemma_before_place(seen, child, 0);
                let more = with_child(seen, child);
                let below = if entry.is_directory && depth > 0 {
                    sort_spec(search, names, entry.path.0, (depth - 1) as nat)
                } else {
                    search
                };
                lemma_walk_len(below, names, entry.next, (fuel - 1) as nat, depth, more);
            },
        }
    }
}

/// Children that are linked as an ordered, faithful list has them are
/// siblings in order, where the folders of the directories among them are
/// in order.
proof fn lemma_linked_sorted(
    search: SearchIndexView,
    names: Map<u64, Seq<u8>>,
    list: Seq<ChildView>,
    from: int,
    cur: Option<usize>,
    fuel: nat,
    depth: nat,
)
    requires
        0 <= from <= list.len(),
        fuel >= list.len() - from,
        linked(search, list, from, cur),
        ordered(list),
        faithful(search, names, list),
        forall|k: int|
            0 <= k < list.len() && search.paths[(#[trigger] list[k]).index as int].is_directory
                && depth > 0 ==> sorted_folder(
                search,
                names,
                search.paths[list[k].index as int].path.0,
                (depth - 1) as nat,
            ),
    ensures
        sorted_chain(search, names, cur, fuel, depth, list.take(from)),
    decreases list.len() - from,
{
    if from < list.len() {
        let position = list[from].index;
        let entry = search.paths[position as int];
        let child = child_of(names, entry, position);
        let seen = list.take(from);
        assert(child == list[from]);
        assert forall|k: int| 0 <= k < seen.len() implies child_before(
            #[trigger] seen[k],
            child,
        ) by {
            assert(seen[k] == list[k]);
            assert(child_before(list[k], list[from]));
        }
        assert(seen.push(child) =~= list.take(from + 1));
        lemma_linked_sorted(search, names, list, from + 1, entry.next, (fuel - 1) as nat, depth);
    }
}

/// Sorting a folder a second time changes nothing, where the first sort
/// left the folders of the directories among the folder's children in
/// order.
pub proof fn lemma_sort_twice(
    search: SearchIndexView,
    names: Map<u64, Seq<u8>>,
    folder: u64,
    depth: nat,
)
    requires
        forall|k: int|
            0 <= k < sorted_children(search, names, folder, depth).len() && depth > 0
                && sort_spec(search, names, folder, depth).paths[(#[trigger] sorted_children(
                search,
                names,
                folder,
                depth,
            )[k]).index as int].is_directory ==> sorted_folder(
                sort_spec(search, names, folder, depth),
                names,
                sort_spec(search, names, folder, depth).paths[sorted_children(
                    search,
                    names,
                    folder,
                    depth,
                )[k].index as int].path.0,
                (depth - 1) as nat,
            ),
    ensures
        sort_spec(sort_spec(search, names, folder, depth), names, folder, depth) == sort_spec(
            search,
            names,
            folder,
            depth,
        ),
{
    let once = sort_spec(search, names, folder, depth);
    match search.folder_spec(folder) {
        None => {},
        Some(entry) => {
            let list = lemma_sort_links_in_order(search, names, folder, depth);
            lemma_sort_entries(search, names, folder, depth);
            lemma_walk_len(
                search,
                names,
                entry.first_child,
                search.paths.len(),
                depth,
                Seq::empty(),
            );
            let first = once.folder_spec(folder).unwrap().first_child;
            lemma_linked_sorted(once, names, list, 0, first, once.paths.len(), depth);
            assert(list.take(0) =~= Seq::<ChildView>::empty());
            assert(sorted_folder(once, names, folder, depth));
            lemma_sort_fixed_point(once, names, folder, depth);
        },
    }
}

/// The walk from the link `cur` meets the entry at `position`: it is the
/// entry that the link leads to, or the walk meets it further on, after
/// the folder of the entry before it was sorted.
pub open spec fn met(
    search: SearchIndexView,
    names: Map<u64, Seq<u8>>,
    cur: Option<usize>,
    fuel: nat,
    depth: nat,
    position: usize,
) -> bool
    decreases fuel,
{
    fuel > 0 && search.child_at(cur) is Some && (cur == Some(position) || met(
        if search.child_at(cur).unwrap().is_directory && depth > 0 {
            sort_spec(search, names, search.child_at(cur).unwrap().path.0, (depth - 1) as nat)
        } else {
            search
        },
        names,
        search.child_at(cur).unwrap().next,
        (fuel - 1) as nat,
        depth,
        position,
    ))
}

/// A child put in its place is on the list, and so is every child that
/// was on it.
proof fn lemma_with_child_keeps(list: Seq<ChildView>, child: ChildView)
    ensures
        with_child(list, child).contains(child),
        forall|k: int| 0 <= k < list.len() ==> with_child(list, child).contains(#[trigger] list[k]),
{
    lemma_before_place(list, child, 0);
    let place = child_place(list, child, 0);
    let after = with_child(list, child);
    if place < list.len() && !child_before(child, list[place]) {
        lemma_child_before_total(list[place], child);
        assert(after[place] == child);
        assert forall|k: int| 0 <= k < list.len() implies after.contains(#[trigger] list[k]) by {
            assert(after[k] == list[k]);
        }
    } else {
        assert(after[place] == child);
        assert forall|k: int| 0 <= k < list.len() implies after.contains(#[trigger] list[k]) by {
            if k < place {
                assert(after[k] == list[k]);
            } else {
                assert(after[k + 1] == list[k]);
            }
        }
    }
}

/// Every child that a walk was given and every entry that it meets is on
/// the list that it gives: sorting drops no child.
pub proof fn lemma_walk_keeps(
    search: SearchIndexView,
    names: Map<u64, Seq<u8>>,
    cur: Option<usize>,
    fuel: nat,
    depth: nat,
    seen: Seq<ChildView>,
)
    ensures
        forall|k: int|
            0 <= k < seen.len() ==> walk_spec(search, names, cur, fuel, depth, seen).1.contains(
                #[trigger] seen[k],
            ),
        forall|position: usize| #[trigger]
            met(search, names, cur, fuel, depth, position) ==> exists|k: int|
                0 <= k < walk_spec(search, names, cur, fuel, depth, seen).1.len() && (
                #[trigger] walk_spec(search, names, cur, fuel, depth, seen).1[k]).index
                    == position,
    decreases fuel,
{
    let list = walk_spec(search, names, cur, fuel, depth, seen).1;
    if fuel == 0 || search.child_at(cur) is None {
        assert forall|k: int| 0 <= k < seen.len() implies list.contains(#[trigger] seen[k]) by {
            assert(list[k] == seen[k]);
        }
    } else {
        let entry = search.child_at(cur).unwrap();
        let child = child_of(names, entry, cur.unwrap());
        let more = with_child(seen, child);
        let below = if entry.is_directory && depth > 0 {
            sort_spec(search, names, entry.path.0, (depth - 1) as nat)
        } else {
            search
        };
        lemma_with_child_keeps(seen, child);
        lemma_walk_keeps(below, names, entry.next, (fuel - 1) as nat, depth, more);
        assert forall|k: int| 0 <= k < seen.len() implies list.contains(#[trigger] seen[k]) by {
            assert(more.contains(seen[k]));
            let j = choose|j: int| 0 <= j < more.len() && more[j] == seen[k];
            assert(list.contains(more[j]));
        }
        assert forall|position: usize| #[trigger]
            met(search, names, cur, fuel, depth, position) implies exists|k: int|
            0 <= k < list.len() && (#[trigger] list[k]).index == position by {
            if cur == Some(position) {
                assert(more.contains(child));
                let j = choose|j: int| 0 <= j < more.len() && more[j] == child;
                assert(list.contains(more[j]));
                let k = choose|k: int| 0 <= k < list.len() && list[k] == child;
                assert(list[k].index == position);
            } else {
                assert(met(below, names, entry.next, (fuel - 1) as nat, depth, position));
            }
        }
    }
}

} // verus!
