//! The file system: a directory tree and the commands that change it.

use crate::cmd::Cmd;
use crate::dir::Dir;
use crate::error::{ErrorView, FileSystemError};
use crate::model::{
    empty_tree, execute, is_tree, lemma_graft_empty, lines, listing_order, subtree, Tree,
};
use crate::path::{root, Path};
use crate::text::{join_strings, texts};
use vstd::prelude::*;

verus! {

/// The mathematical value of what a command answers.
pub open spec fn answer_view(answer: Result<Option<String>, FileSystemError>) -> Result<
    Option<Seq<char>>,
    ErrorView,
> {
    match answer {
        Ok(Some(text)) => Ok(Some(text@)),
        Ok(None) => Ok(None),
        Err(error) => Err(error@),
    }
}

/// A tree of directories below one root.
pub struct FileSystem {
    root: Dir,
}

impl View for FileSystem {
    type V = Tree;

    /// The paths of all directories, the root's among them.
    closed spec fn view(&self) -> Tree {
        self.root@
    }
}

impl FileSystem {
    #[verifier::type_invariant]
    spec fn inv(self) -> bool {
        self.root.location() == root()
    }

    /// A file system that holds the root alone.
    pub fn new() -> (fs: Self)
        ensures
            fs@ == empty_tree(),
    {
        FileSystem { root: Dir::new(Path::new()) }
    }

    /// The root directory.
    pub fn root(&self) -> (dir: &Dir)
        ensures
            dir.location() == root(),
            dir@ == self@,
            is_tree(self@),
    {
        proof {
            use_type_invariant(self);
            use_type_invariant(&self.root);
            Dir::lemma_is_tree(self.root);
        }
        &self.root
    }

    /// Follows `path` from the root and returns the directory that it
    /// leads to; the root for the empty path.
    pub fn access_dir(&self, path: &Path) -> (result: Result<&Dir, FileSystemError>)
        ensures
            match result {
                Ok(dir) => self@.contains(path@) && dir.location() == path@
                    && dir@ == subtree(self@, path@),
                Err(error) => !self@.contains(path@)
                    && error@ == ErrorView::PathDoesNotExist(path@),
            },
    {
        proof {
            use_type_invariant(self);
        }
        self.root.access(path)
    }

    /// Executes `cmd`.
    ///
    /// Listing answers with the text of the listing; the other commands
    /// answer with nothing when they succeed.
    pub fn exec_cmd(&mut self, cmd: Cmd) -> (result: Result<Option<String>, FileSystemError>)
        requires
            cmd@.is_runnable(),
        ensures
            final(self)@ == execute(old(self)@, cmd@).tree,
            answer_view(result) == execute(old(self)@, cmd@).answer,
            is_tree(final(self)@),
    {
        proof {
            use_type_invariant(&*self);
        }
        let mut tree = Dir::new(Path::new());
        std::mem::swap(&mut tree, &mut self.root);
        let ghost before = tree@;
        let result = match cmd {
            Cmd::List => {
                let mut output: Vec<String> = Vec::new();
                tree.traverse(&mut output);
                proof {
                    let order = listing_order(tree@);
                    assert forall|k: int| 0 <= k < order.len() implies root() + order[k]
                        == order[k] by {
                        assert(root() + order[k] =~= order[k]);
                    }
                    assert(texts(output@) =~= lines(order));
                }
                Ok(Some(join_strings(&output, '\n')))
            },
            Cmd::Move { src, dest } => {
                let mut src = src;
                let ghost whole = src@;
                match tree.access(&dest) {
                    Ok(_) => {
                        let move_file_name = src.pop_file().unwrap();
                        assert(src@.push(move_file_name@) =~= whole);
                        match tree.delete_at(&src, &move_file_name) {
                            Ok(move_dir) => {
                                match tree.create_at(&dest, move_file_name, move_dir) {
                                    Ok(_) => Ok(None),
                                    Err(error) => Err(error),
                                }
                            },
                            Err(error) => Err(error),
                        }
                    },
                    Err(error) => Err(error),
                }
            },
            Cmd::Create(path) => {
                let mut path = path;
                let ghost whole = path@;
                let new_dir = Dir::new(path.clone());
                let new_file = path.pop_file().unwrap();
                proof {
                    assert(path@.push(new_file@) =~= whole);
                    lemma_graft_empty(before, whole);
                }
                match tree.create_at(&path, new_file, new_dir) {
                    Ok(_) => Ok(None),
                    Err(error) => Err(error),
                }
            },
            Cmd::Delete(path) => {
                let mut path = path;
                let ghost whole = path@;
                let file_name = path.pop_file().unwrap();
                assert(path@.push(file_name@) =~= whole);
                match tree.delete_at(&path, &file_name) {
                    Ok(_) => Ok(None),
                    Err(error) => Err(error),
                }
            },
        };
        proof {
            use_type_invariant(&tree);
            Dir::lemma_is_tree(tree);
        }
        self.root = tree;
        result
    }
}

} // verus!
