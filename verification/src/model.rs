//! The directory tree as mathematics.
//!
//! A tree is the set of the paths of its directories. The root is the empty
//! path and belongs to every tree; a tree holds, with each path, the path of
//! the directory above it. Each command is a function from the tree before
//! it to the tree after it and what the command answers.

use crate::cmd::CmdView;
use crate::error::ErrorView;
use crate::order::{ascending, lemma_ascending_exists, lemma_ascending_unique};
use crate::path::{root, valid_path, valid_segment, PathView};
use crate::text::join;
use vstd::prelude::*;

verus! {

/// A tree: the set of the paths of its directories.
pub type Tree = Set<PathView>;

/// The tree that holds the root alone.
pub open spec fn empty_tree() -> Tree {
    set![root()]
}

/// `tree` is a directory tree: finitely many valid paths, the root among
/// them, and with each path the one above it.
pub open spec fn is_tree(tree: Tree) -> bool {
    &&& tree.finite()
    &&& tree.contains(root())
    &&& forall|p: PathView| #[trigger] tree.contains(p) ==> valid_path(p)
    &&& forall|p: PathView|
        #[trigger] tree.contains(p) && p.len() > 0 ==> tree.contains(p.drop_last())
}

/// `tree` without the directory at `at` and everything below it.
pub open spec fn prune(tree: Tree, at: PathView) -> Tree {
    Set::new(|p: PathView| tree.contains(p) && !at.is_prefix_of(p))
}

/// What `tree` holds at and below `at`, as paths from `at`.
pub open spec fn subtree(tree: Tree, at: PathView) -> Tree {
    Set::new(|p: PathView| tree.contains(at + p))
}

/// `tree` with `branch` placed at `at`: each path of `branch` is added
/// behind `at`.
pub open spec fn graft(tree: Tree, at: PathView, branch: Tree) -> Tree {
    Set::new(
        |p: PathView|
            tree.contains(p) || (at.is_prefix_of(p) && branch.contains(p.skip(at.len() as int))),
    )
}

/// The names of the directories that `tree` holds directly below its root.
pub open spec fn children(tree: Tree) -> Set<Seq<char>> {
    Set::new(|name: Seq<char>| tree.contains(seq![name]))
}

/// A tree together with the answer of the command that led to it.
pub struct Outcome {
    pub tree: Tree,
    pub answer: Result<Option<Seq<char>>, ErrorView>,
}

/// Creating the directory `path`, which is not the root.
///
/// The directory above must exist and `path` must not; the new directory
/// is empty.
pub open spec fn create(tree: Tree, path: PathView) -> Outcome
    recommends
        path.len() > 0,
{
    if !tree.contains(path.drop_last()) {
        Outcome { tree, answer: Err(ErrorView::PathDoesNotExist(path.drop_last())) }
    } else if tree.contains(path) {
        Outcome { tree, answer: Err(ErrorView::FileAlreadyExists(path)) }
    } else {
        Outcome { tree: tree.insert(path), answer: Ok(None) }
    }
}

/// Deleting the directory `path`, which is not the root, with everything
/// below it.
pub open spec fn delete(tree: Tree, path: PathView) -> Outcome
    recommends
        path.len() > 0,
{
    if !tree.contains(path.drop_last()) {
        Outcome { tree, answer: Err(ErrorView::PathDoesNotExist(path.drop_last())) }
    } else if !tree.contains(path) {
        Outcome { tree, answer: Err(ErrorView::PathDoesNotExist(path)) }
    } else {
        Outcome { tree: prune(tree, path), answer: Ok(None) }
    }
}

/// Moving the directory `src`, which is not the root, into the directory
/// `dest`, under the name it has.
///
/// The move takes `src` out of the tree before it looks for room in `dest`.
/// If `dest` lay inside `src`, or already holds an entry of that name, the
/// move fails at that point and what was taken out is gone.
pub open spec fn move_dir(tree: Tree, src: PathView, dest: PathView) -> Outcome
    recommends
        src.len() > 0,
{
    let target = dest.push(src.last());
    let rest = prune(tree, src);
    if !tree.contains(dest) {
        Outcome { tree, answer: Err(ErrorView::PathDoesNotExist(dest)) }
    } else if !tree.contains(src.drop_last()) {
        Outcome { tree, answer: Err(ErrorView::PathDoesNotExist(src.drop_last())) }
    } else if !tree.contains(src) {
        Outcome { tree, answer: Err(ErrorView::PathDoesNotExist(src)) }
    } else if !rest.contains(dest) {
        Outcome { tree: rest, answer: Err(ErrorView::PathDoesNotExist(dest)) }
    } else if rest.contains(target) {
        Outcome { tree: rest, answer: Err(ErrorView::FileAlreadyExists(target)) }
    } else {
        Outcome { tree: graft(rest, target, subtree(tree, src)), answer: Ok(None) }
    }
}

/// `order` lists `tree`: it holds each directory but the root once, a
/// directory before everything below it and siblings in the order of their
/// names.
pub open spec fn lists(order: Seq<PathView>, tree: Tree) -> bool {
    &&& ascending(order)
    &&& forall|p: PathView| #[trigger] order.contains(p) <==> tree.contains(p) && p.len() > 0
}

/// The directories of `tree` but the root, in the order of the listing.
pub open spec fn listing_order(tree: Tree) -> Seq<PathView> {
    choose|order: Seq<PathView>| lists(order, tree)
}

/// The indentation of a line at `depth`: two spaces for each level.
pub open spec fn indent(depth: nat) -> Seq<char> {
    Seq::new(2 * depth, |i: int| ' ')
}

/// The line that the listing shows for the directory `path`, which is not
/// the root: its name, indented by its depth below the root's entries.
pub open spec fn line(path: PathView) -> Seq<char>
    recommends
        path.len() > 0,
{
    indent((path.len() - 1) as nat) + path.last()
}

/// The lines of the directories in `order`.
pub open spec fn lines(order: Seq<PathView>) -> Seq<Seq<char>> {
    Seq::new(order.len(), |i: int| line(order[i]))
}

/// The lines of the directories at `base + p`, for each `p` of `order`.
pub open spec fn lines_from(base: PathView, order: Seq<PathView>) -> Seq<Seq<char>> {
    Seq::new(order.len(), |i: int| line(base + order[i]))
}

/// The listing of `tree`: one line for each directory but the root, with a
/// line break between neighbours.
pub open spec fn listing(tree: Tree) -> Seq<char> {
    join(lines(listing_order(tree)), '\n')
}

/// Listing the tree, which leaves it as it is.
pub open spec fn list(tree: Tree) -> Outcome {
    Outcome { tree, answer: Ok(Some(listing(tree))) }
}

/// Executing `cmd` on `tree`.
pub open spec fn execute(tree: Tree, cmd: CmdView) -> Outcome
    recommends
        cmd.is_runnable(),
{
    match cmd {
        CmdView::Move { src, dest } => move_dir(tree, src, dest),
        CmdView::Create(path) => create(tree, path),
        CmdView::Delete(path) => delete(tree, path),
        CmdView::List => list(tree),
    }
}

/// The empty tree is a tree.
pub proof fn lemma_empty_tree()
    ensures
        is_tree(empty_tree()),
{
}

/// A tree holds every path that leads the way of one of its paths.
pub proof fn lemma_tree_holds_prefixes(tree: Tree, p: PathView, q: PathView)
    requires
        is_tree(tree),
        tree.contains(q),
        p.is_prefix_of(q),
    ensures
        tree.contains(p),
    decreases q.len(),
{
    if p.len() == q.len() {
        assert(p =~= q);
    } else {
        assert(p =~= q.drop_last().subrange(0, p.len() as int));
        lemma_tree_holds_prefixes(tree, p, q.drop_last());
    }
}

/// A tree without one of its directories, other than the root, is a tree.
pub proof fn lemma_prune_is_tree(tree: Tree, at: PathView)
    requires
        is_tree(tree),
        at.len() > 0,
    ensures
        is_tree(prune(tree, at)),
{
    let rest = prune(tree, at);
    assert(rest.subset_of(tree));
    vstd::set_lib::lemma_set_subset_finite(tree, rest);
    assert forall|p: PathView| #[trigger] rest.contains(p) && p.len() > 0 implies
        rest.contains(p.drop_last()) by {
        if at.is_prefix_of(p.drop_last()) {
            assert(at =~= p.subrange(0, at.len() as int));
        }
    }
}

/// What a tree holds below one of its directories is a tree.
pub proof fn lemma_subtree_is_tree(tree: Tree, at: PathView)
    requires
        is_tree(tree),
        tree.contains(at),
    ensures
        is_tree(subtree(tree, at)),
{
    let branch = subtree(tree, at);
    let cut = |p: PathView| p.skip(at.len() as int);
    assert forall|p: PathView| branch.contains(p) implies tree.map(cut).contains(p) by {
        assert(cut(at + p) =~= p);
    }
    assert(branch.subset_of(tree.map(cut)));
    tree.lemma_map_finite(cut);
    vstd::set_lib::lemma_set_subset_finite(tree.map(cut), branch);
    assert(at + root() =~= at);
    assert forall|p: PathView| #[trigger] branch.contains(p) implies valid_path(p) by {
        assert forall|i: int| 0 <= i < p.len() implies valid_segment(#[trigger] p[i]) by {
            assert((at + p)[at.len() + i] == p[i]);
        }
    }
    assert forall|p: PathView| #[trigger] branch.contains(p) && p.len() > 0 implies
        branch.contains(p.drop_last()) by {
        assert((at + p).drop_last() =~= at + p.drop_last());
    }
}

/// A tree with a tree placed in one of its directories, under a valid
/// name, is a tree.
pub proof fn lemma_graft_is_tree(tree: Tree, at: PathView, branch: Tree)
    requires
        is_tree(tree),
        is_tree(branch),
        at.len() > 0,
        tree.contains(at.drop_last()),
        valid_segment(at.last()),
    ensures
        is_tree(graft(tree, at, branch)),
{
    let grown = graft(tree, at, branch);
    let put = |p: PathView| at + p;
    assert forall|p: PathView| grown.contains(p) implies
        tree.union(branch.map(put)).contains(p) by {
        if !tree.contains(p) {
            assert(put(p.skip(at.len() as int)) =~= p);
        }
    }
    assert(grown.subset_of(tree.union(branch.map(put))));
    branch.lemma_map_finite(put);
    vstd::set_lib::lemma_set_subset_finite(tree.union(branch.map(put)), grown);
    assert forall|p: PathView| #[trigger] grown.contains(p) implies valid_path(p) by {
        if !tree.contains(p) {
            let rest = p.skip(at.len() as int);
            assert forall|i: int| 0 <= i < p.len() implies valid_segment(#[trigger] p[i]) by {
                if i < at.len() - 1 {
                    assert(p[i] == at.drop_last()[i]);
                } else if i == at.len() - 1 {
                    assert(p[i] == at.last());
                } else {
                    assert(p[i] == rest[i - at.len()]);
                }
            }
        }
    }
    assert forall|p: PathView| #[trigger] grown.contains(p) && p.len() > 0 implies
        grown.contains(p.drop_last()) by {
        if !tree.contains(p) {
            let rest = p.skip(at.len() as int);
            if rest.len() == 0 {
                assert(p =~= at);
            } else {
                assert(p.drop_last().skip(at.len() as int) =~= rest.drop_last());
                assert(at =~= p.drop_last().subrange(0, at.len() as int));
            }
        }
    }
}

/// Placing an empty directory adds its path and nothing else.
pub proof fn lemma_graft_empty(tree: Tree, at: PathView)
    ensures
        graft(tree, at, empty_tree()) == tree.insert(at),
{
    let grown = graft(tree, at, empty_tree());
    assert forall|p: PathView| grown.contains(p) == tree.insert(at).contains(p) by {
        if at.is_prefix_of(p) && p.skip(at.len() as int) == root() {
            assert(p.skip(at.len() as int).len() == 0);
            assert(p =~= at);
        }
        if p == at {
            assert(p.skip(at.len() as int) =~= root());
        }
    }
    assert(grown =~= tree.insert(at));
}

/// Every command leaves a tree a tree.
pub proof fn lemma_execute_keeps_tree(tree: Tree, cmd: CmdView)
    requires
        is_tree(tree),
        cmd.is_runnable(),
        cmd.is_valid(),
    ensures
        is_tree(execute(tree, cmd).tree),
{
    match cmd {
        CmdView::Move { src, dest } => {
            lemma_prune_is_tree(tree, src);
            if move_dir(tree, src, dest).answer is Ok {
                let target = dest.push(src.last());
                assert(target.drop_last() =~= dest);
                lemma_subtree_is_tree(tree, src);
                lemma_graft_is_tree(prune(tree, src), target, subtree(tree, src));
            }
        },
        CmdView::Create(path) => {},
        CmdView::Delete(path) => {
            lemma_prune_is_tree(tree, path);
        },
        CmdView::List => {},
    }
}

/// Creating a directory and deleting it at once leaves the tree as it was.
pub proof fn lemma_create_then_delete(tree: Tree, path: PathView)
    requires
        is_tree(tree),
        path.len() > 0,
        create(tree, path).answer is Ok,
    ensures
        delete(create(tree, path).tree, path).answer is Ok,
        delete(create(tree, path).tree, path).tree == tree,
{
    let created = create(tree, path).tree;
    assert forall|p: PathView| prune(created, path).contains(p) == tree.contains(p) by {
        if tree.contains(p) && path.is_prefix_of(p) {
            lemma_tree_holds_prefixes(tree, path, p);
        }
    }
    assert(prune(created, path) =~= tree);
}

/// A move that succeeds puts at the new place what the directory held at
/// the old one, and leaves nothing at the old place unless the two are one.
pub proof fn lemma_move_keeps_subtree(tree: Tree, src: PathView, dest: PathView)
    requires
        is_tree(tree),
        src.len() > 0,
        move_dir(tree, src, dest).answer is Ok,
    ensures
        subtree(move_dir(tree, src, dest).tree, dest.push(src.last())) == subtree(tree, src),
        src != dest.push(src.last()) ==> !move_dir(tree, src, dest).tree.contains(src),
{
    let target = dest.push(src.last());
    let rest = prune(tree, src);
    let moved = move_dir(tree, src, dest).tree;
    lemma_prune_is_tree(tree, src);
    let branch = subtree(tree, src);
    assert forall|p: PathView| subtree(moved, target).contains(p) == branch.contains(p) by {
        assert(target.is_prefix_of(target + p));
        assert((target + p).skip(target.len() as int) =~= p);
        if rest.contains(target + p) {
            lemma_tree_holds_prefixes(rest, target, target + p);
        }
    }
    assert(subtree(moved, target) =~= branch);
    assert(src.is_prefix_of(src));
    if target.is_prefix_of(src) && target != src {
        lemma_tree_holds_prefixes(tree, target, src);
        assert(rest.contains(target));
    }
}

/// A command that fails leaves the tree as it was, but for a move, which
/// may by then have taken its source out.
pub proof fn lemma_failed_command(tree: Tree, cmd: CmdView)
    requires
        execute(tree, cmd).answer is Err,
    ensures
        !(cmd is Move) ==> execute(tree, cmd).tree == tree,
        cmd matches CmdView::Move { src, dest } ==> {
            ||| execute(tree, cmd).tree == tree
            ||| execute(tree, cmd).tree == prune(tree, src)
        },
{
}

/// The listing of the empty tree is the empty text.
pub proof fn lemma_listing_of_empty_tree()
    ensures
        listing(empty_tree()) == Seq::<char>::empty(),
{
    let nothing = Seq::<PathView>::empty();
    assert forall|p: PathView|
        #[trigger] nothing.contains(p) <==> empty_tree().contains(p) && p.len() > 0 by {}
    lemma_listing_order(nothing, empty_tree());
    assert(lines(nothing) =~= Seq::<Seq<char>>::empty());
}

/// A tree has one listing order at most: an order that lists it is its
/// listing order.
pub proof fn lemma_listing_order(order: Seq<PathView>, tree: Tree)
    requires
        lists(order, tree),
    ensures
        listing_order(tree) == order,
{
    let chosen = listing_order(tree);
    assert(lists(chosen, tree));
    lemma_ascending_unique(chosen, order);
}

/// Every finite tree has a listing order.
pub proof fn lemma_listing_exists(tree: Tree)
    requires
        tree.finite(),
    ensures
        lists(listing_order(tree), tree),
{
    let below = tree.filter(|p: PathView| p.len() > 0);
    assert(below.subset_of(tree));
    vstd::set_lib::lemma_set_subset_finite(tree, below);
    let order = lemma_ascending_exists(below);
    assert(lists(order, tree));
}

} // verus!
