//! Directory nodes: the tree as it is held in memory.
//!
//! A directory owns its entries, one for each directory directly below it,
//! in the order of their names. The mathematical value of a directory is
//! the set of the paths that lead from it to itself and to the directories
//! below it.

use crate::error::{ErrorView, FileSystemError};
use crate::model::{
    children, empty_tree, graft, indent, is_tree, lemma_listing_order, line, lines_from,
    listing_order, lists, prune, subtree, Tree,
};
use crate::order::{
    ascending, compare, lemma_name_lt_irreflexive, lemma_name_lt_transitive, lemma_path_lt_behind,
    lemma_path_lt_heads, lemma_path_lt_root, name_lt, path_lt, Relation,
};
use crate::path::{root, valid_path, valid_segment, Path, PathView};
use crate::text::texts;
use vstd::prelude::*;

verus! {

/// A named directory inside another one.
struct Entry {
    name: String,
    dir: Dir,
}

/// A directory: where it is, and what it holds.
pub struct Dir {
    path: Path,
    entries: Vec<Entry>,
}

/// The names of `entries` stand in strictly ascending order.
spec fn sorted(entries: Seq<Entry>) -> bool {
    forall|i: int, j: int|
        0 <= i < j < entries.len() ==> name_lt(
            (#[trigger] entries[i]).name@,
            (#[trigger] entries[j]).name@,
        )
}

/// The non-empty path `p` leads through one of the first `upto` of
/// `entries`: it starts with the name of that entry, and its rest leads on
/// from the directory there.
spec fn reach(entries: Seq<Entry>, upto: int, p: PathView) -> bool
    decreases p.len(), 0nat,
{
    p.len() > 0 && exists|i: int|
        0 <= i < upto && i < entries.len() && (#[trigger] entries[i]).name@ == p[0]
            && entries[i].dir.holds(p.skip(1))
}

/// The paths to the first `upto` of `entries` and to all that they hold,
/// each entry before what it holds and the entries one after the other.
spec fn walk_entries(entries: Seq<Entry>, upto: int) -> Seq<PathView>
    decreases entries, upto,
{
    if 0 < upto <= entries.len() {
        walk_entries(entries, upto - 1) + walk_entry(entries[upto - 1])
    } else {
        Seq::empty()
    }
}

/// The path to `entry` and, behind it, the paths to all that it holds.
spec fn walk_entry(entry: Entry) -> Seq<PathView>
    decreases entry, 0int,
{
    seq![seq![entry.name@]] + below(entry.name@, entry.dir.walk())
}

/// The paths of `order`, each behind `name`.
spec fn below(name: Seq<char>, order: Seq<PathView>) -> Seq<PathView> {
    Seq::new(order.len(), |i: int| seq![name] + order[i])
}

/// The paths that lead from a directory with these entries to itself and to
/// the directories below it.
spec fn held(entries: Seq<Entry>) -> Tree {
    Set::new(|p: PathView| p.len() == 0 || reach(entries, entries.len() as int, p))
}

impl View for Dir {
    type V = Tree;

    /// The paths that lead from this directory to itself and to the
    /// directories below it.
    closed spec fn view(&self) -> Tree {
        held(self.entries@)
    }
}

impl Dir {
    /// The path that leads from the root to this directory.
    pub closed spec fn location(self) -> PathView {
        self.path@
    }

    /// Following `p` from this directory leads to a directory.
    spec fn holds(self, p: PathView) -> bool
        decreases p.len(), 1nat,
    {
        p.len() == 0 || reach(self.entries@, self.entries@.len() as int, p)
    }

    /// The paths from this directory to the directories below it, in the
    /// order of a listing.
    spec fn walk(self) -> Seq<PathView>
        decreases self, 0int,
    {
        walk_entries(self.entries@, self.entries@.len() as int)
    }

    /// The entries are valid names in strictly ascending order, each
    /// directory knows where it is, and all this holds below as well.
    #[verifier::type_invariant]
    pub closed spec fn wf(self) -> bool
        decreases self,
    {
        &&& sorted(self.entries@)
        &&& forall|i: int|
            0 <= i < self.entries@.len() ==> {
                &&& valid_segment((#[trigger] self.entries@[i]).name@)
                &&& self.entries@[i].dir.path@ == self.path@.push(self.entries@[i].name@)
                &&& self.entries@[i].dir.wf()
            }
    }

    /// An empty directory at `path`.
    pub fn new(path: Path) -> (dir: Self)
        ensures
            dir.location() == path@,
            dir@ == empty_tree(),
    {
        let dir = Dir { path, entries: Vec::new() };
        proof {
            assert forall|p: PathView| dir@.contains(p) <==> p == root() by {
                if p.len() == 0 {
                    assert(p =~= root());
                }
            }
            assert(dir@ =~= empty_tree());
        }
        dir
    }

    /// The path that leads from the root to this directory.
    pub fn path(&self) -> (path: &Path)
        ensures
            path@ == self.location(),
    {
        &self.path
    }

    /// The number of directories directly below this one.
    pub fn len(&self) -> (n: usize)
        ensures
            n == children(self@).len(),
    {
        proof {
            use_type_invariant(self);
            lemma_children(self.entries@);
        }
        self.entries.len()
    }

    /// The directory called `name` directly below this one, if there is one.
    pub fn get(&self, name: &str) -> (found: Option<&Dir>)
        ensures
            match found {
                Some(dir) => self@.contains(seq![name@])
                    && dir.location() == self.location().push(name@)
                    && dir@ == subtree(self@, seq![name@]),
                None => !self@.contains(seq![name@]),
            },
    {
        let (pos, found): (usize, bool) = self.find(name);
        if found {
            proof {
                use_type_invariant(self);
                lemma_removed(self.entries@, pos as int);
            }
            Some(&self.entries[pos].dir)
        } else {
            None
        }
    }

    /// Looks for the entry called `name`: whether there is one, and the
    /// position at which it stands or would have to be put.
    fn find(&self, name: &str) -> (place: (usize, bool))
        ensures
            place.0 <= self.entries@.len(),
            place.1 == self@.contains(seq![name@]),
            place.1 ==> place.0 < self.entries@.len()
                && self.entries@[place.0 as int].name@ == name@,
            forall|i: int| 0 <= i < place.0 ==> name_lt((#[trigger] self.entries@[i]).name@, name@),
            forall|i: int|
                place.0 <= i < self.entries@.len() && !(place.1 && i == place.0) ==> name_lt(
                    name@,
                    (#[trigger] self.entries@[i]).name@,
                ),
    {
        proof {
            use_type_invariant(self);
        }
        let mut low: usize = 0;
        let mut high: usize = self.entries.len();
        while low < high
            invariant
                self.wf(),
                low <= high <= self.entries@.len(),
                forall|i: int| 0 <= i < low ==> name_lt((#[trigger] self.entries@[i]).name@, name@),
                forall|i: int|
                    high <= i < self.entries@.len() ==> name_lt(
                        name@,
                        (#[trigger] self.entries@[i]).name@,
                    ),
            decreases high - low,
        {
            let middle: usize = low + (high - low) / 2;
            let ghost pivot = self.entries@[middle as int].name@;
            match compare(self.entries[middle].name.as_str(), name) {
                Relation::Before => {
                    proof {
                        assert forall|i: int| 0 <= i <= middle implies name_lt(
                            (#[trigger] self.entries@[i]).name@,
                            name@,
                        ) by {
                            if i < middle {
                                lemma_name_lt_transitive(self.entries@[i].name@, pivot, name@);
                            }
                        }
                    }
                    low = middle + 1;
                },
                Relation::Same => {
                    proof {
                        lemma_child_named(self.entries@, name@);
                    }
                    return (middle, true);
                },
                Relation::After => {
                    proof {
                        assert forall|i: int| middle <= i < self.entries@.len() implies name_lt(
                            name@,
                            (#[trigger] self.entries@[i]).name@,
                        ) by {
                            if i > middle {
                                lemma_name_lt_transitive(name@, pivot, self.entries@[i].name@);
                            }
                        }
                    }
                    high = middle;
                },
            }
        }
        proof {
            lemma_name_lt_irreflexive(name@);
            lemma_child_named(self.entries@, name@);
        }
        (low, false)
    }

    /// Puts `dir` into this directory under `name`, unless an entry of
    /// that name is there already. What is put in then knows its new place,
    /// and so does all that it holds.
    pub fn create_dir(&mut self, name: String, dir: Dir) -> (result: Result<(), FileSystemError>)
        requires
            valid_segment(name@),
        ensures
            final(self).location() == old(self).location(),
            match result {
                Ok(_) => !old(self)@.contains(seq![name@])
                    && final(self)@ == graft(old(self)@, seq![name@], dir@),
                Err(error) => old(self)@.contains(seq![name@]) && final(self)@ == old(self)@
                    && error@ == ErrorView::FileAlreadyExists(old(self).location().push(name@)),
            },
    {
        proof {
            use_type_invariant(&*self);
        }
        let (pos, found): (usize, bool) = self.find(name.as_str());
        if found {
            let mut taken = self.path.clone();
            taken.push_file(name);
            return Err(FileSystemError::FileAlreadyExists(taken));
        }
        let mut dir = dir;
        let mut place = self.path.clone();
        place.push_file(name.clone());
        dir.relocate(place);
        proof {
            use_type_invariant(&dir);
        }
        let mut entries: Vec<Entry> = Vec::new();
        std::mem::swap(&mut entries, &mut self.entries);
        entries.insert(pos, Entry { name, dir });
        proof {
            let before = old(self).entries@;
            let after = entries@;
            assert forall|i: int| 0 <= i < after.len() && i != pos implies #[trigger] after[i]
                == before[if i < pos { i } else { i - 1 }] by {}
            assert(sorted(after));
            lemma_inserted(before, after, pos as int);
        }
        self.entries = entries;
        Ok(())
    }

    /// Takes the entry called `name` out of this directory and returns
    /// what it held.
    pub fn delete(&mut self, name: &String) -> (result: Result<Dir, FileSystemError>)
        requires
            valid_segment(name@),
        ensures
            final(self).location() == old(self).location(),
            match result {
                Ok(dir) => old(self)@.contains(seq![name@])
                    && dir.location() == old(self).location().push(name@)
                    && dir@ == subtree(old(self)@, seq![name@])
                    && final(self)@ == prune(old(self)@, seq![name@]),
                Err(error) => !old(self)@.contains(seq![name@]) && final(self)@ == old(self)@
                    && error@ == ErrorView::PathDoesNotExist(old(self).location().push(name@)),
            },
    {
        proof {
            use_type_invariant(&*self);
        }
        let (pos, found): (usize, bool) = self.find(name.as_str());
        if !found {
            let mut missing = self.path.clone();
            missing.push_file(name.clone());
            return Err(FileSystemError::PathDoesNotExist(missing));
        }
        let mut entries: Vec<Entry> = Vec::new();
        std::mem::swap(&mut entries, &mut self.entries);
        let entry = entries.remove(pos);
        proof {
            let before = old(self).entries@;
            let after = entries@;
            assert forall|i: int| 0 <= i < after.len() implies #[trigger] after[i]
                == before[if i < pos { i } else { i + 1 }] by {}
            assert(sorted(after));
            lemma_removed(before, pos as int);
        }
        self.entries = entries;
        Ok(entry.dir)
    }

    /// Follows `path` from this directory, which is the root, and returns
    /// the directory that it leads to.
    pub(crate) fn access(&self, path: &Path) -> (result: Result<&Dir, FileSystemError>)
        requires
            self.location() == root(),
        ensures
            match result {
                Ok(dir) => self@.contains(path@) && dir.location() == path@
                    && dir@ == subtree(self@, path@),
                Err(error) => !self@.contains(path@)
                    && error@ == ErrorView::PathDoesNotExist(path@),
            },
    {
        proof {
            assert(path@.take(0) =~= root());
            assert(path@.skip(0) =~= path@);
        }
        self.access_from(path, 0)
    }

    /// Follows `path` from this directory, which is the root, and puts `dir`
    /// into the directory that it leads to, under `name`.
    pub(crate) fn create_at(&mut self, path: &Path, name: String, dir: Dir) -> (result: Result<
        (),
        FileSystemError,
    >)
        requires
            old(self).location() == root(),
            valid_segment(name@),
        ensures
            final(self).location() == root(),
            match result {
                Ok(_) => old(self)@.contains(path@) && !old(self)@.contains(path@.push(name@))
                    && final(self)@ == graft(old(self)@, path@.push(name@), dir@),
                Err(error) => final(self)@ == old(self)@ && if old(self)@.contains(path@) {
                    old(self)@.contains(path@.push(name@))
                        && error@ == ErrorView::FileAlreadyExists(path@.push(name@))
                } else {
                    error@ == ErrorView::PathDoesNotExist(path@)
                },
            },
    {
        proof {
            assert(path@.take(0) =~= root());
            assert(path@.skip(0) =~= path@);
        }
        self.create_from(path, 0, name, dir)
    }

    /// Follows `path` from this directory, which is the root, takes the
    /// entry called `name` out of the directory that it leads to, and
    /// returns what the entry held.
    pub(crate) fn delete_at(&mut self, path: &Path, name: &String) -> (result: Result<
        Dir,
        FileSystemError,
    >)
        requires
            old(self).location() == root(),
            valid_segment(name@),
        ensures
            final(self).location() == root(),
            match result {
                Ok(dir) => old(self)@.contains(path@) && old(self)@.contains(path@.push(name@))
                    && dir.location() == path@.push(name@)
                    && dir@ == subtree(old(self)@, path@.push(name@))
                    && final(self)@ == prune(old(self)@, path@.push(name@)),
                Err(error) => final(self)@ == old(self)@ && if old(self)@.contains(path@) {
                    !old(self)@.contains(path@.push(name@))
                        && error@ == ErrorView::PathDoesNotExist(path@.push(name@))
                } else {
                    error@ == ErrorView::PathDoesNotExist(path@)
                },
            },
    {
        proof {
            assert(path@.take(0) =~= root());
            assert(path@.skip(0) =~= path@);
        }
        self.delete_from(path, 0, name)
    }

    /// Looks for the entry through which `path` leads on from its name at
    /// `depth`, and returns its position if there is one.
    fn step(&self, path: &Path, depth: usize) -> (place: Option<usize>)
        requires
            depth < path@.len(),
            self.location() == path@.take(depth as int),
        ensures
            match place {
                Some(pos) => pos < self.entries@.len()
                    && self.entries@[pos as int].name@ == path@[depth as int]
                    && self.entries@[pos as int].dir.location() == path@.take(depth + 1),
                None => !self@.contains(path@.skip(depth as int)),
            },
    {
        proof {
            use_type_invariant(self);
        }
        let (pos, found): (usize, bool) = self.find(path.file_name(depth).as_str());
        if found {
            assert(path@.take(depth as int).push(path@[depth as int]) =~= path@.take(depth + 1));
            Some(pos)
        } else {
            proof {
                if self@.contains(path@.skip(depth as int)) {
                    lemma_first_name(self.entries@, path@.skip(depth as int));
                }
            }
            None
        }
    }

    /// Follows `path` from its name at `depth` on and returns the
    /// directory that it leads to.
    fn access_from(&self, path: &Path, depth: usize) -> (result: Result<&Dir, FileSystemError>)
        requires
            depth <= path@.len(),
            self.location() == path@.take(depth as int),
        ensures
            match result {
                Ok(dir) => self@.contains(path@.skip(depth as int))
                    && dir.location() == path@
                    && dir@ == subtree(self@, path@.skip(depth as int)),
                Err(error) => !self@.contains(path@.skip(depth as int))
                    && error@ == ErrorView::PathDoesNotExist(path@),
            },
        decreases path@.len() - depth,
    {
        let ghost rel = path@.skip(depth as int);
        if depth == path.len() {
            proof {
                assert(path@.take(depth as int) =~= path@);
                assert forall|p: PathView| self@.contains(p) == self@.contains(rel + p) by {
                    assert(rel + p =~= p);
                }
                assert(self@ =~= subtree(self@, rel));
            }
            return Ok(self);
        }
        match self.step(path, depth) {
            Some(pos) => {
                proof {
                    use_type_invariant(self);
                    assert(rel.skip(1) =~= path@.skip(depth + 1));
                    lemma_through(self.entries@, pos as int, rel);
                }
                self.entries[pos].dir.access_from(path, depth + 1)
            },
            None => Err(FileSystemError::PathDoesNotExist(path.clone())),
        }
    }

    /// Follows `path` from its name at `depth` on and puts `dir` into the
    /// directory that it leads to, under `name`.
    fn create_from(&mut self, path: &Path, depth: usize, name: String, dir: Dir) -> (result: Result<
        (),
        FileSystemError,
    >)
        requires
            depth <= path@.len(),
            old(self).location() == path@.take(depth as int),
            valid_segment(name@),
        ensures
            final(self).location() == old(self).location(),
            match result {
                Ok(_) => old(self)@.contains(path@.skip(depth as int))
                    && !old(self)@.contains(path@.skip(depth as int).push(name@))
                    && final(self)@ == graft(
                    old(self)@,
                    path@.skip(depth as int).push(name@),
                    dir@,
                ),
                Err(error) => final(self)@ == old(self)@ && if old(self)@.contains(
                    path@.skip(depth as int),
                ) {
                    old(self)@.contains(path@.skip(depth as int).push(name@))
                        && error@ == ErrorView::FileAlreadyExists(path@.push(name@))
                } else {
                    error@ == ErrorView::PathDoesNotExist(path@)
                },
            },
        decreases path@.len() - depth,
    {
        let ghost rel = path@.skip(depth as int);
        let ghost target = rel.push(name@);
        if depth == path.len() {
            proof {
                assert(path@.take(depth as int) =~= path@);
                assert(rel =~= root());
                assert(target =~= seq![name@]);
            }
            return self.create_dir(name, dir);
        }
        match self.step(path, depth) {
            Some(pos) => {
                proof {
                    use_type_invariant(&*self);
                    assert(rel.skip(1) =~= path@.skip(depth + 1));
                    assert(target.skip(1) =~= rel.skip(1).push(name@));
                    lemma_through(self.entries@, pos as int, rel);
                    lemma_through(self.entries@, pos as int, target);
                }
                let mut entries: Vec<Entry> = Vec::new();
                std::mem::swap(&mut entries, &mut self.entries);
                let result = entries[pos].dir.create_from(path, depth + 1, name, dir);
                let changed = &entries[pos].dir;
                proof {
                    let before = old(self).entries@;
                    let after = entries@;
                    use_type_invariant(changed);
                    lemma_replaced_sorted(before, after, pos as int);
                    if result is Ok {
                        lemma_replaced_graft(before, after, pos as int, target, dir@);
                    } else {
                        lemma_replaced_same(before, after, pos as int);
                    }
                }
                self.entries = entries;
                result
            },
            None => Err(FileSystemError::PathDoesNotExist(path.clone())),
        }
    }

    /// Follows `path` from its name at `depth` on, takes the entry called
    /// `name` out of the directory that it leads to, and returns what the
    /// entry held.
    fn delete_from(&mut self, path: &Path, depth: usize, name: &String) -> (result: Result<
        Dir,
        FileSystemError,
    >)
        requires
            depth <= path@.len(),
            old(self).location() == path@.take(depth as int),
            valid_segment(name@),
        ensures
            final(self).location() == old(self).location(),
            match result {
                Ok(dir) => old(self)@.contains(path@.skip(depth as int))
                    && old(self)@.contains(path@.skip(depth as int).push(name@))
                    && dir.location() == path@.push(name@)
                    && dir@ == subtree(old(self)@, path@.skip(depth as int).push(name@))
                    && final(self)@ == prune(old(self)@, path@.skip(depth as int).push(name@)),
                Err(error) => final(self)@ == old(self)@ && if old(self)@.contains(
                    path@.skip(depth as int),
                ) {
                    !old(self)@.contains(path@.skip(depth as int).push(name@))
                        && error@ == ErrorView::PathDoesNotExist(path@.push(name@))
                } else {
                    error@ == ErrorView::PathDoesNotExist(path@)
                },
            },
        decreases path@.len() - depth,
    {
        let ghost rel = path@.skip(depth as int);
        let ghost target = rel.push(name@);
        if depth == path.len() {
            proof {
                assert(path@.take(depth as int) =~= path@);
                assert(rel =~= root());
                assert(target =~= seq![name@]);
            }
            return self.delete(name);
        }
        match self.step(path, depth) {
            Some(pos) => {
                proof {
                    use_type_invariant(&*self);
                    assert(rel.skip(1) =~= path@.skip(depth + 1));
                    assert(target.skip(1) =~= rel.skip(1).push(name@));
                    lemma_through(self.entries@, pos as int, rel);
                    lemma_through(self.entries@, pos as int, target);
                }
                let mut entries: Vec<Entry> = Vec::new();
                std::mem::swap(&mut entries, &mut self.entries);
                let result = entries[pos].dir.delete_from(path, depth + 1, name);
                let changed = &entries[pos].dir;
                proof {
                    let before = old(self).entries@;
                    let after = entries@;
                    use_type_invariant(changed);
                    lemma_replaced_sorted(before, after, pos as int);
                    if result is Ok {
                        lemma_replaced_prune(before, after, pos as int, target);
                    } else {
                        lemma_replaced_same(before, after, pos as int);
                    }
                }
                self.entries = entries;
                result
            },
            None => Err(FileSystemError::PathDoesNotExist(path.clone())),
        }
    }

    /// Moves this directory, with all that it holds, to `path`: every
    /// directory in it then knows its new place.
    fn relocate(&mut self, path: Path)
        ensures
            final(self).location() == path@,
            final(self)@ == old(self)@,
        decreases *old(self),
    {
        proof {
            use_type_invariant(&*self);
        }
        let mut entries: Vec<Entry> = Vec::new();
        std::mem::swap(&mut entries, &mut self.entries);
        let mut i: usize = 0;
        while i < entries.len()
            invariant
                old(self).wf(),
                i <= entries@.len(),
                entries@.len() == old(self).entries@.len(),
                forall|j: int|
                    i <= j < entries@.len() ==> #[trigger] entries@[j] == old(self).entries@[j],
                forall|j: int|
                    0 <= j < i ==> {
                        &&& (#[trigger] entries@[j]).name@ == old(self).entries@[j].name@
                        &&& entries@[j].dir.wf()
                        &&& entries@[j].dir.path@ == path@.push(entries@[j].name@)
                        &&& entries@[j].dir@ == old(self).entries@[j].dir@
                    },
            decreases entries@.len() - i,
        {
            let mut below = path.clone();
            below.push_file(entries[i].name.clone());
            entries[i].dir.relocate(below);
            let moved = &entries[i].dir;
            proof {
                use_type_invariant(moved);
            }
            i += 1;
        }
        proof {
            let before = old(self).entries@;
            let after = entries@;
            assert forall|i: int, j: int| 0 <= i < j < after.len() implies name_lt(
                (#[trigger] after[i]).name@,
                (#[trigger] after[j]).name@,
            ) by {
                assert(name_lt(before[i].name@, before[j].name@));
            }
            lemma_same_below(before, after);
        }
        self.path = path;
        self.entries = entries;
    }

    /// Appends to `lines` one line for each directory below this one, in
    /// the order of a listing.
    pub fn traverse(&self, lines: &mut Vec<String>)
        ensures
            texts(final(lines)@) == texts(old(lines)@) + lines_from(
                self.location(),
                listing_order(self@),
            ),
        decreases self,
    {
        let ghost base = self.location();
        let mut i: usize = 0;
        proof {
            use_type_invariant(self);
            lemma_walk_lists(*self);
            lemma_listing_order(self.walk(), self@);
            let none = walk_entries(self.entries@, 0);
            assert(texts(lines@) + lines_from(base, none) =~= texts(lines@));
        }
        while i < self.entries.len()
            invariant
                self.wf(),
                base == self.location(),
                i <= self.entries@.len(),
                texts(lines@) == texts(old(lines)@) + lines_from(
                    base,
                    walk_entries(self.entries@, i as int),
                ),
            decreases self.entries@.len() - i,
        {
            let entry = &self.entries[i];
            let ghost name = entry.name@;
            let ghost before = texts(lines@);
            let mut text = String::new();
            let mut level: usize = 0;
            while level < self.path.len()
                invariant
                    level <= self.path@.len(),
                    text@ == indent(level as nat),
                decreases self.path@.len() - level,
            {
                proof {
                    reveal_strlit("  ");
                }
                text.append("  ");
                level += 1;
                assert(text@ =~= indent(level as nat));
            }
            text.append(entry.name.as_str());
            proof {
                assert((base + seq![name]).last() == name);
                assert(text@ == line(base + seq![name]));
            }
            lines.push(text);
            let ghost between = texts(lines@);
            entry.dir.traverse(lines);
            proof {
                let deeper = entry.dir.walk();
                lemma_walk_lists(entry.dir);
                lemma_listing_order(deeper, entry.dir@);
                assert(between =~= before.push(line(base + seq![name])));
                assert forall|k: int| 0 <= k < deeper.len() implies line(
                    base.push(name) + deeper[k],
                ) == line(base + below(name, deeper)[k]) by {
                    assert(base.push(name) + deeper[k] =~= base + (seq![name] + deeper[k]));
                }
                let done = walk_entries(self.entries@, i as int) + walk_entry(*entry);
                assert(texts(lines@) =~= texts(old(lines)@) + lines_from(base, done));
            }
            i += 1;
        }
    }

    /// What a directory holds is a tree.
    pub proof fn lemma_is_tree(dir: Dir)
        requires
            dir.wf(),
        ensures
            is_tree(dir@),
    {
        let order = dir.walk();
        lemma_walk_lists(dir);
        let listed = order.to_set().insert(root());
        assert forall|p: PathView| dir@.contains(p) == listed.contains(p) by {
            if p.len() == 0 {
                assert(p =~= root());
            }
        }
        assert(dir@ =~= listed);
        vstd::seq_lib::seq_to_set_is_finite(order);
        assert forall|p: PathView| #[trigger] dir@.contains(p) implies valid_path(p) by {
            lemma_holds_valid(dir, p);
        }
        assert forall|p: PathView| #[trigger] dir@.contains(p) && p.len() > 0 implies dir@.contains(
            p.drop_last(),
        ) by {
            lemma_holds_above(dir.entries@, p);
        }
    }
}

/// A path that leads through one of the first `upto` entries leads through
/// the entry that this gives: its first name is that of the entry, and its
/// rest leads on from the directory there.
proof fn lemma_way(entries: Seq<Entry>, upto: int, p: PathView) -> (i: int)
    requires
        reach(entries, upto, p),
    ensures
        0 <= i < upto,
        i < entries.len(),
        p.len() > 0,
        entries[i].name@ == p[0],
        entries[i].dir@.contains(p.skip(1)),
{
    let i = choose|i: int|
        0 <= i < upto && i < entries.len() && (#[trigger] entries[i]).name@ == p[0]
            && entries[i].dir.holds(p.skip(1));
    assert(entries[i].dir.holds(p.skip(1)));
    i
}

/// A path leads through the entry that has its first name, if its rest
/// leads on from the directory there.
proof fn lemma_leads(entries: Seq<Entry>, upto: int, i: int, p: PathView)
    requires
        0 <= i < upto,
        i < entries.len(),
        p.len() > 0,
        entries[i].name@ == p[0],
        entries[i].dir@.contains(p.skip(1)),
    ensures
        reach(entries, upto, p),
        upto == entries.len() ==> held(entries).contains(p),
{
    assert(entries[i].dir.holds(p.skip(1)));
}

/// In sorted entries a name stands at one position at most.
proof fn lemma_sorted_distinct(entries: Seq<Entry>, i: int, j: int)
    requires
        sorted(entries),
        0 <= i < entries.len(),
        0 <= j < entries.len(),
        entries[i].name@ == entries[j].name@,
    ensures
        i == j,
{
    lemma_name_lt_irreflexive(entries[i].name@);
}

/// A directory holds the one-name path `name` exactly if one of its entries
/// is called `name`.
proof fn lemma_child_named(entries: Seq<Entry>, name: Seq<char>)
    ensures
        held(entries).contains(seq![name]) <==> exists|i: int|
            0 <= i < entries.len() && (#[trigger] entries[i]).name@ == name,
{
    let p = seq![name];
    assert(p.skip(1).len() == 0);
    if held(entries).contains(p) {
        let i = lemma_way(entries, entries.len() as int, p);
    }
    if exists|i: int| 0 <= i < entries.len() && (#[trigger] entries[i]).name@ == name {
        let i = choose|i: int| 0 <= i < entries.len() && (#[trigger] entries[i]).name@ == name;
        lemma_leads(entries, entries.len() as int, i, p);
    }
}

/// A directory that holds a path holds its first name.
proof fn lemma_first_name(entries: Seq<Entry>, p: PathView)
    requires
        p.len() > 0,
        held(entries).contains(p),
    ensures
        held(entries).contains(seq![p[0]]),
{
    let i = lemma_way(entries, entries.len() as int, p);
    lemma_child_named(entries, p[0]);
}

/// The directories directly below a directory are as many as its entries.
proof fn lemma_children(entries: Seq<Entry>)
    requires
        sorted(entries),
    ensures
        children(held(entries)).len() == entries.len(),
{
    let names = Seq::new(entries.len(), |i: int| entries[i].name@);
    assert forall|i: int, j: int|
        0 <= i < names.len() && 0 <= j < names.len() && i != j implies names[i] != names[j] by {
        if names[i] == names[j] {
            lemma_sorted_distinct(entries, i, j);
        }
    }
    names.unique_seq_to_set();
    assert forall|name: Seq<char>| names.to_set().contains(name) == children(
        held(entries),
    ).contains(name) by {
        lemma_child_named(entries, name);
        if names.contains(name) {
            let i = choose|i: int| 0 <= i < names.len() && names[i] == name;
            assert(entries[i].name@ == name);
        }
        if children(held(entries)).contains(name) {
            let i = choose|i: int| 0 <= i < entries.len() && (#[trigger] entries[i]).name@ == name;
            assert(names[i] == name);
        }
    }
    assert(names.to_set() =~= children(held(entries)));
}

/// A path that starts with the name of an entry leads on through that entry
/// and through no other.
proof fn lemma_only_way(entries: Seq<Entry>, at: int, p: PathView)
    requires
        sorted(entries),
        0 <= at < entries.len(),
        p.len() > 0,
        p[0] == entries[at].name@,
    ensures
        held(entries).contains(p) == entries[at].dir@.contains(p.skip(1)),
{
    if held(entries).contains(p) {
        let i = lemma_way(entries, entries.len() as int, p);
        lemma_sorted_distinct(entries, i, at);
    }
    if entries[at].dir@.contains(p.skip(1)) {
        lemma_leads(entries, entries.len() as int, at, p);
    }
}

/// What a directory holds along a path through one of its entries is what
/// that entry holds along the rest of the path.
proof fn lemma_through(entries: Seq<Entry>, at: int, rel: PathView)
    requires
        sorted(entries),
        0 <= at < entries.len(),
        rel.len() > 0,
        rel[0] == entries[at].name@,
    ensures
        held(entries).contains(rel) == entries[at].dir@.contains(rel.skip(1)),
        subtree(held(entries), rel) == subtree(entries[at].dir@, rel.skip(1)),
{
    lemma_only_way(entries, at, rel);
    let here = subtree(held(entries), rel);
    let there = subtree(entries[at].dir@, rel.skip(1));
    assert forall|p: PathView| here.contains(p) == there.contains(p) by {
        assert((rel + p).skip(1) =~= rel.skip(1) + p);
        lemma_only_way(entries, at, rel + p);
    }
    assert(here =~= there);
}

/// `rel` leads the way of `p` exactly if their first names agree and the
/// rest of `rel` leads the way of the rest of `p`.
proof fn lemma_prefix_step(rel: PathView, p: PathView)
    requires
        rel.len() > 0,
    ensures
        rel.is_prefix_of(p) <==> p.len() > 0 && p[0] == rel[0] && rel.skip(1).is_prefix_of(
            p.skip(1),
        ),
        rel.is_prefix_of(p) ==> p.skip(rel.len() as int) == p.skip(1).skip(rel.len() - 1),
{
    if rel.is_prefix_of(p) {
        assert(p[0] == p.subrange(0, rel.len() as int)[0]);
        assert(rel.skip(1) =~= p.skip(1).subrange(0, rel.len() - 1));
        assert(p.skip(rel.len() as int) =~= p.skip(1).skip(rel.len() - 1));
    }
    if p.len() > 0 && p[0] == rel[0] && rel.skip(1).is_prefix_of(p.skip(1)) {
        let head = p.subrange(0, rel.len() as int);
        assert forall|k: int| 0 <= k < rel.len() implies rel[k] == head[k] by {
            if k > 0 {
                assert(rel[k] == rel.skip(1)[k - 1]);
                assert(p.skip(1).subrange(0, rel.len() - 1)[k - 1] == p[k]);
            }
        }
        assert(rel =~= head);
    }
}

/// The entries `after` are the entries `before` but for the directory of
/// the entry at `at`.
spec fn replaced(before: Seq<Entry>, after: Seq<Entry>, at: int) -> bool {
    &&& 0 <= at < before.len()
    &&& after.len() == before.len()
    &&& after[at].name@ == before[at].name@
    &&& forall|i: int| 0 <= i < before.len() && i != at ==> #[trigger] after[i] == before[i]
}

/// Changing the directory of an entry keeps the entries sorted.
proof fn lemma_replaced_sorted(before: Seq<Entry>, after: Seq<Entry>, at: int)
    requires
        sorted(before),
        replaced(before, after, at),
    ensures
        sorted(after),
{
    assert forall|i: int, j: int| 0 <= i < j < after.len() implies name_lt(
        (#[trigger] after[i]).name@,
        (#[trigger] after[j]).name@,
    ) by {
        assert(after[i].name@ == before[i].name@);
        assert(after[j].name@ == before[j].name@);
        assert(name_lt(before[i].name@, before[j].name@));
    }
}

/// After the directory of the entry at `at` was changed, a path leads on as
/// it did, unless it goes through that entry.
proof fn lemma_replaced(before: Seq<Entry>, after: Seq<Entry>, at: int, p: PathView)
    requires
        sorted(before),
        replaced(before, after, at),
    ensures
        held(after).contains(p) == if p.len() > 0 && p[0] == before[at].name@ {
            after[at].dir@.contains(p.skip(1))
        } else {
            held(before).contains(p)
        },
{
    lemma_replaced_sorted(before, after, at);
    if p.len() > 0 {
        if p[0] == before[at].name@ {
            lemma_only_way(after, at, p);
        } else {
            if held(before).contains(p) {
                let i = lemma_way(before, before.len() as int, p);
                lemma_leads(after, after.len() as int, i, p);
            }
            if held(after).contains(p) {
                let i = lemma_way(after, after.len() as int, p);
                lemma_leads(before, before.len() as int, i, p);
            }
        }
    }
}

/// If the changed entry holds what it held, so does the directory.
proof fn lemma_replaced_same(before: Seq<Entry>, after: Seq<Entry>, at: int)
    requires
        sorted(before),
        replaced(before, after, at),
        after[at].dir@ == before[at].dir@,
    ensures
        held(after) == held(before),
{
    assert forall|p: PathView| held(after).contains(p) == held(before).contains(p) by {
        lemma_replaced(before, after, at, p);
        if p.len() > 0 && p[0] == before[at].name@ {
            lemma_only_way(before, at, p);
        }
    }
    assert(held(after) =~= held(before));
}

/// If a branch was placed inside the changed entry, it was placed inside
/// the directory, one name further from the place.
proof fn lemma_replaced_graft(
    before: Seq<Entry>,
    after: Seq<Entry>,
    at: int,
    rel: PathView,
    branch: Tree,
)
    requires
        sorted(before),
        replaced(before, after, at),
        rel.len() > 0,
        rel[0] == before[at].name@,
        after[at].dir@ == graft(before[at].dir@, rel.skip(1), branch),
    ensures
        held(after) == graft(held(before), rel, branch),
{
    let grown = graft(held(before), rel, branch);
    assert forall|p: PathView| held(after).contains(p) == grown.contains(p) by {
        lemma_replaced(before, after, at, p);
        lemma_prefix_step(rel, p);
        if p.len() > 0 && p[0] == before[at].name@ {
            lemma_only_way(before, at, p);
        }
    }
    assert(held(after) =~= grown);
}

/// If a part was cut out of the changed entry, it was cut out of the
/// directory, one name further from the place.
proof fn lemma_replaced_prune(before: Seq<Entry>, after: Seq<Entry>, at: int, rel: PathView)
    requires
        sorted(before),
        replaced(before, after, at),
        rel.len() > 0,
        rel[0] == before[at].name@,
        after[at].dir@ == prune(before[at].dir@, rel.skip(1)),
    ensures
        held(after) == prune(held(before), rel),
{
    let cut = prune(held(before), rel);
    assert forall|p: PathView| held(after).contains(p) == cut.contains(p) by {
        lemma_replaced(before, after, at, p);
        lemma_prefix_step(rel, p);
        if p.len() > 0 && p[0] == before[at].name@ {
            lemma_only_way(before, at, p);
        }
    }
    assert(held(after) =~= cut);
}

/// Entries with the same names, whose directories hold the same, hold the
/// same.
proof fn lemma_same_below(before: Seq<Entry>, after: Seq<Entry>)
    requires
        after.len() == before.len(),
        forall|i: int|
            0 <= i < before.len() ==> (#[trigger] after[i]).name@ == before[i].name@
                && after[i].dir@ == before[i].dir@,
    ensures
        held(after) == held(before),
{
    assert forall|p: PathView| held(after).contains(p) == held(before).contains(p) by {
        if held(before).contains(p) && p.len() > 0 {
            let i = lemma_way(before, before.len() as int, p);
            assert(before[i].dir@.contains(p.skip(1)));
            assert(after[i].dir@.contains(p.skip(1)));
            lemma_leads(after, after.len() as int, i, p);
        }
        if held(after).contains(p) && p.len() > 0 {
            let i = lemma_way(after, after.len() as int, p);
            assert(after[i].dir@.contains(p.skip(1)));
            assert(before[i].dir@.contains(p.skip(1)));
            lemma_leads(before, before.len() as int, i, p);
        }
    }
    assert(held(after) =~= held(before));
}

/// After an entry with a new name was put in at `pos`, the directory holds
/// what it held and, under that name, what the entry holds.
proof fn lemma_inserted(before: Seq<Entry>, after: Seq<Entry>, pos: int)
    requires
        0 <= pos <= before.len(),
        after == before.insert(pos, after[pos]),
        sorted(after),
    ensures
        held(after) == graft(held(before), seq![after[pos].name@], after[pos].dir@),
{
    let entry = after[pos];
    let at = seq![entry.name@];
    let grown = graft(held(before), at, entry.dir@);
    assert forall|p: PathView| held(after).contains(p) == grown.contains(p) by {
        lemma_prefix_step(at, p);
        if p.len() > 0 {
            if held(before).contains(p) {
                let i = lemma_way(before, before.len() as int, p);
                let k = if i < pos { i } else { i + 1 };
                assert(after[k] == before[i]);
                lemma_leads(after, after.len() as int, k, p);
            }
            if p[0] == entry.name@ {
                lemma_only_way(after, pos, p);
            } else if held(after).contains(p) {
                let k = lemma_way(after, after.len() as int, p);
                let i = if k < pos { k } else { k - 1 };
                assert(after[k] == before[i]);
                lemma_leads(before, before.len() as int, i, p);
            }
        }
    }
    assert(held(after) =~= grown);
}

/// Without its entry at `pos` a directory holds what it held but for that
/// entry and what lay below it, and the entry held what the directory held
/// under its name.
proof fn lemma_removed(before: Seq<Entry>, pos: int)
    requires
        0 <= pos < before.len(),
        sorted(before),
    ensures
        held(before).contains(seq![before[pos].name@]),
        held(before.remove(pos)) == prune(held(before), seq![before[pos].name@]),
        before[pos].dir@ == subtree(held(before), seq![before[pos].name@]),
{
    let after = before.remove(pos);
    let entry = before[pos];
    let at = seq![entry.name@];
    let cut = prune(held(before), at);
    lemma_child_named(before, entry.name@);
    assert forall|p: PathView| held(after).contains(p) == cut.contains(p) by {
        lemma_prefix_step(at, p);
        if p.len() > 0 {
            if held(after).contains(p) {
                let k = lemma_way(after, after.len() as int, p);
                let i = if k < pos { k } else { k + 1 };
                assert(after[k] == before[i]);
                lemma_leads(before, before.len() as int, i, p);
                if p[0] == entry.name@ {
                    lemma_sorted_distinct(before, i, pos);
                }
            }
            if held(before).contains(p) && p[0] != entry.name@ {
                let i = lemma_way(before, before.len() as int, p);
                let k = if i < pos { i } else { i - 1 };
                assert(after[k] == before[i]);
                lemma_leads(after, after.len() as int, k, p);
            }
        }
    }
    assert(held(after) =~= cut);
    let branch = subtree(held(before), at);
    assert forall|p: PathView| entry.dir@.contains(p) == branch.contains(p) by {
        assert((at + p).skip(1) =~= p);
        lemma_only_way(before, pos, at + p);
    }
    assert(entry.dir@ =~= branch);
}

/// A path that leads to a directory is a valid path.
proof fn lemma_holds_valid(dir: Dir, p: PathView)
    requires
        dir.wf(),
        dir@.contains(p),
    ensures
        valid_path(p),
    decreases p.len(),
{
    if p.len() > 0 {
        let i = lemma_way(dir.entries@, dir.entries@.len() as int, p);
        lemma_holds_valid(dir.entries@[i].dir, p.skip(1));
        assert forall|k: int| 0 <= k < p.len() implies valid_segment(#[trigger] p[k]) by {
            if k > 0 {
                assert(p[k] == p.skip(1)[k - 1]);
            }
        }
    }
}

/// With a path to a directory, the path to the one above it leads to a
/// directory as well.
proof fn lemma_holds_above(entries: Seq<Entry>, p: PathView)
    requires
        held(entries).contains(p),
        p.len() > 0,
    ensures
        held(entries).contains(p.drop_last()),
    decreases p.len(),
{
    if p.len() > 1 {
        let i = lemma_way(entries, entries.len() as int, p);
        lemma_holds_above(entries[i].dir.entries@, p.skip(1));
        assert(p.drop_last().skip(1) =~= p.skip(1).drop_last());
        lemma_leads(entries, entries.len() as int, i, p.drop_last());
    }
}

/// What two sequences hold together is what one of them holds.
proof fn lemma_concat_contains<T>(a: Seq<T>, b: Seq<T>, x: T)
    ensures
        (a + b).contains(x) <==> a.contains(x) || b.contains(x),
{
    if a.contains(x) {
        let i = choose|i: int| 0 <= i < a.len() && a[i] == x;
        assert((a + b)[i] == x);
    }
    if b.contains(x) {
        let i = choose|i: int| 0 <= i < b.len() && b[i] == x;
        assert((a + b)[a.len() + i] == x);
    }
    if (a + b).contains(x) {
        let i = choose|i: int| 0 <= i < (a + b).len() && (a + b)[i] == x;
        if i < a.len() {
            assert(a[i] == x);
        } else {
            assert(b[i - a.len()] == x);
        }
    }
}

/// The walk of an entry is ascending and holds the paths that lead through
/// the entry, if the walk of its directory lists what that holds.
proof fn lemma_walk_entry(entry: Entry)
    requires
        lists(entry.dir.walk(), entry.dir@),
    ensures
        ascending(walk_entry(entry)),
        forall|p: PathView| #[trigger]
            walk_entry(entry).contains(p) <==> p.len() > 0 && p[0] == entry.name@
                && entry.dir@.contains(p.skip(1)),
{
    let name = entry.name@;
    let deeper = entry.dir.walk();
    let block = walk_entry(entry);
    assert forall|k: int| 0 <= k < deeper.len() implies (#[trigger] deeper[k]).len() > 0
        && entry.dir@.contains(deeper[k]) by {
        assert(deeper.contains(deeper[k]));
    }
    assert forall|i: int, j: int| 0 <= i < j < block.len() implies path_lt(
        #[trigger] block[i],
        #[trigger] block[j],
    ) by {
        if i == 0 {
            assert(block[0] =~= seq![name] + root());
            lemma_path_lt_behind(name, root(), deeper[j - 1]);
            lemma_path_lt_root(deeper[j - 1]);
        } else {
            lemma_path_lt_behind(name, deeper[i - 1], deeper[j - 1]);
        }
    }
    assert forall|p: PathView| #[trigger]
        block.contains(p) <==> p.len() > 0 && p[0] == name && entry.dir@.contains(p.skip(1)) by {
        if block.contains(p) {
            let k = choose|k: int| 0 <= k < block.len() && block[k] == p;
            if k > 0 {
                assert(p.skip(1) =~= deeper[k - 1]);
            }
        }
        if p.len() > 0 && p[0] == name && entry.dir@.contains(p.skip(1)) {
            if p.len() == 1 {
                assert(p =~= block[0]);
            } else {
                assert(deeper.contains(p.skip(1)));
                let k = choose|k: int| 0 <= k < deeper.len() && deeper[k] == p.skip(1);
                assert(block[k + 1] =~= p);
            }
        }
    }
}

/// The walk of the first `upto` of sorted entries is ascending and holds
/// the paths that lead through one of them.
proof fn lemma_walk_entries(entries: Seq<Entry>, upto: int)
    requires
        sorted(entries),
        forall|i: int| 0 <= i < entries.len() ==> (#[trigger] entries[i]).dir.wf(),
        0 <= upto <= entries.len(),
    ensures
        ascending(walk_entries(entries, upto)),
        forall|p: PathView| #[trigger]
            walk_entries(entries, upto).contains(p) <==> reach(entries, upto, p),
    decreases entries, upto,
{
    if upto > 0 {
        let entry = entries[upto - 1];
        let done = walk_entries(entries, upto - 1);
        let block = walk_entry(entry);
        let all = walk_entries(entries, upto);
        lemma_walk_entries(entries, upto - 1);
        lemma_walk_lists(entry.dir);
        lemma_walk_entry(entry);
        assert forall|p: PathView| #[trigger] all.contains(p) <==> reach(entries, upto, p) by {
            lemma_concat_contains(done, block, p);
            if reach(entries, upto, p) {
                let m = lemma_way(entries, upto, p);
                if m < upto - 1 {
                    lemma_leads(entries, upto - 1, m, p);
                }
            }
            if done.contains(p) {
                let m = lemma_way(entries, upto - 1, p);
                lemma_leads(entries, upto, m, p);
            }
            if block.contains(p) {
                lemma_leads(entries, upto, upto - 1, p);
            }
        }
        assert forall|i: int, j: int| 0 <= i < j < all.len() implies path_lt(
            #[trigger] all[i],
            #[trigger] all[j],
        ) by {
            if j < done.len() {
                assert(all[i] == done[i] && all[j] == done[j]);
            } else if i >= done.len() {
                assert(all[i] == block[i - done.len()] && all[j] == block[j - done.len()]);
            } else {
                let p = all[i];
                let q = all[j];
                assert(p == done[i] && q == block[j - done.len()]);
                assert(done.contains(p));
                assert(block.contains(q));
                let m = lemma_way(entries, upto - 1, p);
                assert(name_lt(entries[m].name@, entries[upto - 1].name@));
                lemma_path_lt_heads(p, q);
            }
        }
    } else {
        assert forall|p: PathView| !reach(entries, upto, p) by {
            if reach(entries, upto, p) {
                let m = lemma_way(entries, upto, p);
            }
        }
    }
}

/// The walk of a directory lists what the directory holds.
proof fn lemma_walk_lists(dir: Dir)
    requires
        dir.wf(),
    ensures
        lists(dir.walk(), dir@),
    decreases dir, 1int,
{
    lemma_walk_entries(dir.entries@, dir.entries@.len() as int);
}

} // verus!
