//! Paths as lists of component hashes: rebuilding a path from the search
//! index, replacing a component, and joining components into one hash.

use vstd::prelude::*;
use crate::archive::{SearchIndex, SearchIndexView};
use crate::hash::{concat_hash, separator, Hash40};

verus! {

/// The hash of the components joined by separators, from the first on. No
/// separator is put after a hash of zero, which is what nothing joins to.
pub open spec fn joined(components: Seq<Hash40>) -> u64
    decreases components.len(),
{
    if components.len() == 0 {
        0
    } else {
        let before = joined(components.drop_last());
        let base = if before != 0 {
            concat_hash(before, separator())
        } else {
            before
        };
        concat_hash(base, components.last().0)
    }
}

/// The components with every occurrence of `from` replaced by `to`.
pub open spec fn substituted(components: Seq<Hash40>, from: Hash40, to: Hash40) -> Seq<Hash40> {
    Seq::new(
        components.len(),
        |i: int|
            if components[i] == from {
                to
            } else {
                components[i]
            },
    )
}

/// The file names met on the way from the path `hash` up to the root, the
/// path's own name first. The walk follows parent hashes and ends where a
/// hash resolves to no entry, where the parent is the root, or after `fuel`
/// entries.
pub open spec fn ancestry(search: SearchIndexView, hash: u64, fuel: nat) -> Seq<Hash40>
    decreases fuel,
{
    if fuel == 0 {
        Seq::empty()
    } else {
        match search.path_entry_spec(hash) {
            None => Seq::empty(),
            Some(entry) => if entry.parent.0 == separator() {
                seq![entry.file_name]
            } else {
                seq![entry.file_name] + ancestry(search, entry.parent.0, (fuel - 1) as nat)
            },
        }
    }
}

/// The components of the path `hash`, the outermost first; the hash alone
/// where the search index does not know it. The walk is as long as the path
/// lookup table at most, which no chain of distinct entries exceeds.
pub open spec fn pretty_spec(search: SearchIndexView, hash: u64) -> Seq<Hash40> {
    let names = ancestry(search, hash, search.path_index.len());
    if names.len() == 0 {
        seq![Hash40(hash)]
    } else {
        names.reverse()
    }
}

/// A path as the list of its component hashes, the outermost first.
#[derive(Clone, Debug, PartialEq, Eq)]
pub struct PrettyPath {
    pub components: Vec<Hash40>,
}

impl View for PrettyPath {
    type V = Seq<Hash40>;

    open spec fn view(&self) -> Seq<Hash40> {
        self.components@
    }
}

impl PrettyPath {
    /// The hash of the first `len` components joined, or of all of them where
    /// there are fewer.
    pub fn sub_range(&self, len: usize) -> (hash: Hash40)
        ensures
            hash.0 == joined(
                self@.take(
                    if len <= self@.len() {
                        len as int
                    } else {
                        self@.len() as int
                    },
                ),
            ),
    {
        let end = if len <= self.components.len() {
            len
        } else {
            self.components.len()
        };
        let mut hash = Hash40(0);
        let mut i: usize = 0;
        while i < end
            invariant
                i <= end <= self.components.len(),
                hash.0 == joined(self@.take(i as int)),
            decreases end - i,
        {
            proof {
                assert(self@.take(i + 1).drop_last() =~= self@.take(i as int));
            }
            if hash.0 != 0 {
                hash = hash.concat(self.components[i]);
            } else {
                hash = hash.append(self.components[i]);
            }
            i += 1;
        }
        hash
    }

    /// The components, the outermost first.
    pub fn components(&self) -> (list: &Vec<Hash40>)
        ensures
            list@ == self@,
    {
        &self.components
    }

    /// Replaces every component equal to `search` by `replace` and says
    /// whether there was one.
    pub fn replace(&mut self, search: Hash40, replace: Hash40) -> (replaced: bool)
        ensures
            final(self)@ == substituted(old(self)@, search, replace),
            replaced == old(self)@.contains(search),
    {
        let mut replaced = false;
        let mut i: usize = 0;
        while i < self.components.len()
            invariant
                i <= self.components.len(),
                self.components.len() == old(self).components.len(),
                forall|j: int|
                    0 <= j < self.components@.len() ==> #[trigger] self.components@[j] == if j < i {
                        substituted(old(self)@, search, replace)[j]
                    } else {
                        old(self)@[j]
                    },
                replaced == old(self)@.take(i as int).contains(search),
            decreases self.components.len() - i,
        {
            proof {
                let shorter = old(self)@.take(i as int);
                let longer = old(self)@.take(i + 1);
                if shorter.contains(search) {
                    let j = choose|j: int| 0 <= j < shorter.len() && shorter[j] == search;
                    assert(longer[j] == search);
                }
                if old(self)@[i as int] == search {
                    assert(longer[i as int] == search);
                }
                if longer.contains(search) {
                    let j = choose|j: int| 0 <= j < longer.len() && longer[j] == search;
                    if j < i {
                        assert(shorter[j] == search);
                    }
                }
            }
            if self.components[i] == search {
                self.components.set(i, replace);
                replaced = true;
            }
            i += 1;
        }
        proof {
            assert(self@ =~= substituted(old(self)@, search, replace));
            assert(old(self)@.take(i as int) =~= old(self)@);
        }
        replaced
    }

    /// The hash of all components joined.
    pub fn to_whole(&self) -> (hash: Hash40)
        ensures
            hash.0 == joined(self@),
    {
        proof {
            assert(self@.take(self@.len() as int) =~= self@);
        }
        self.sub_range(self.components.len())
    }
}

/// What a hash offers beside its value: joining with another hash, and the
/// components of the path that it stands for.
pub trait ConcatHash: Sized {
    /// The raw value of the hash.
    spec fn raw(self) -> u64;

    /// The hash of the path of this hash with one more component: this
    /// hash's text, the separator, and the text of `extra`.
    fn concat(self, extra: Hash40) -> (hash: Self)
        ensures
            hash.raw() == concat_hash(concat_hash(self.raw(), separator()), extra.0),
    ;

    /// Rebuilds the components of this path by walking the parents in the
    /// search index.
    fn pretty(self, search: &SearchIndex) -> (path: PrettyPath)
        ensures
            path@ == pretty_spec(search@, self.raw()),
    ;
}

impl ConcatHash for Hash40 {
    open spec fn raw(self) -> u64 {
        self.0
    }

    fn concat(self, extra: Hash40) -> (hash: Hash40) {
        self.append_str("/").append(extra)
    }

    fn pretty(self, search: &SearchIndex) -> (path: PrettyPath) {
        let root = Hash40::new("/");
        let mut names: Vec<Hash40> = Vec::new();
        let mut current = self;
        let mut fuel: usize = search.path_index.len();
        let mut open = true;
        while open && fuel > 0
            invariant
                root.0 == separator(),
                ancestry(search@, self.0, search@.path_index.len()) == if open {
                    names@ + ancestry(search@, current.0, fuel as nat)
                } else {
                    names@
                },
            decreases fuel, open as int,
        {
            match search.path_entry(current) {
                None => {
                    open = false;
                },
                Some(entry) => {
                    names.push(entry.file_name);
                    proof {
                        let before = names@.drop_last();
                        if entry.parent.0 == separator() {
                            assert(names@ =~= before + seq![entry.file_name]);
                        } else {
                            assert(names@ + ancestry(search@, entry.parent.0, (fuel - 1) as nat)
                                =~= before + (seq![entry.file_name] + ancestry(
                                search@,
                                entry.parent.0,
                                (fuel - 1) as nat,
                            )));
                        }
                    }
                    current = entry.parent;
                    fuel -= 1;
                    if current == root {
                        open = false;
                    }
                },
            }
        }
        proof {
            if open {
                assert(names@ + Seq::<Hash40>::empty() =~= names@);
            }
        }
        if names.len() == 0 {
            let mut components: Vec<Hash40> = Vec::new();
            components.push(self);
            proof {
                assert(components@ =~= seq![self]);
            }
            return PrettyPath { components };
        }
        let mut components: Vec<Hash40> = Vec::new();
        let mut left: usize = names.len();
        while left > 0
            invariant
                left <= names.len(),
                components@.len() == names.len() - left,
                forall|j: int| 0 <= j < components@.len() ==> components@[j] == names@[names.len() - 1 - j],
            decreases left,
        {
            left -= 1;
            components.push(names[left]);
        }
        proof {
            assert(components@ =~= names@.reverse());
        }
        PrettyPath { components }
    }
}

} // verus!
