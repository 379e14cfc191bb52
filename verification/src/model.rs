//! The walk as mathematics: a filesystem as a pair of functions, and the
//! tree that a walk of a path to a depth produces in it.

use vstd::prelude::*;
use crate::dir::Tree;
use crate::metadata::{FileStat, MetadataModel};
use crate::path::text_of;

verus! {

/// What the filesystem answers when asked for the metadata of a path.
pub enum StatAnswer {
    /// The entry exists and could be queried.
    Found(FileStat),
    /// The query failed (missing entry, permission denied), with the reason.
    Failed(Seq<char>),
}

/// What the filesystem answers when asked to list a directory.
pub enum ListAnswer {
    /// The paths of the entries, in the order of the listing.
    Entries(Seq<Seq<u8>>),
    /// The directory could not be opened for listing, with the reason.
    Refused(Seq<char>),
    /// Reading the opened listing failed part way, with the reason.
    Broken(Seq<char>),
}

/// A filesystem as the walk sees it: an answer to every metadata query and
/// to every listing.
pub struct World {
    pub stat: spec_fn(Seq<u8>) -> StatAnswer,
    pub list: spec_fn(Seq<u8>) -> ListAnswer,
}

/// The metadata recorded for an answer to a metadata query.
pub open spec fn metadata_of(answer: StatAnswer) -> MetadataModel {
    match answer {
        StatAnswer::Found(stat) => MetadataModel::found(stat),
        StatAnswer::Failed(reason) => MetadataModel::failed(reason),
    }
}

/// Whether an entry with this metadata is listed when `depth` levels remain:
/// its query succeeded, it reports a directory, it reports no symlink, and a
/// level is left. Symlinks are not followed: an entry that reports one is
/// never listed, also where it reports the directory that the link leads
/// to.
pub open spec fn descends(metadata: MetadataModel, depth: nat) -> bool {
    metadata.status && metadata.is_dir && !metadata.is_symlink && depth > 0
}

/// An entry with no children.
pub open spec fn leaf(path: Seq<u8>, metadata: MetadataModel) -> Tree {
    Tree { path: text_of(path), metadata: Some(metadata), children: None }
}

/// An entry whose listing gave `children`.
pub open spec fn branch(path: Seq<u8>, metadata: MetadataModel, children: Seq<Tree>) -> Tree {
    Tree { path: text_of(path), metadata: Some(metadata), children: Some(children) }
}

/// The tree that a walk of `path` with `depth` levels left produces in
/// `world`. There is none when a listing that the walk reaches breaks part
/// way: that failure ends the whole walk.
pub open spec fn walk(world: World, path: Seq<u8>, depth: nat) -> Option<Tree>
    decreases depth, 0nat,
{
    let metadata = metadata_of((world.stat)(path));
    if descends(metadata, depth) {
        match (world.list)(path) {
            ListAnswer::Refused(reason) => Some(leaf(path, MetadataModel::failed(reason))),
            ListAnswer::Broken(_) => None,
            ListAnswer::Entries(entries) => match walk_all(world, entries, (depth - 1) as nat) {
                Some(children) => Some(branch(path, metadata, children)),
                None => None,
            },
        }
    } else {
        Some(leaf(path, metadata))
    }
}

/// The trees of `paths`, in order, each walked with `depth` levels left.
/// There are none as soon as one of the walks has none.
pub open spec fn walk_all(world: World, paths: Seq<Seq<u8>>, depth: nat) -> Option<Seq<Tree>>
    decreases depth, paths.len() + 1,
{
    if paths.len() == 0 {
        Some(Seq::empty())
    } else {
        match (walk_all(world, paths.drop_last(), depth), walk(world, paths.last(), depth)) {
            (Some(before), Some(tree)) => Some(before.push(tree)),
            _ => None,
        }
    }
}

/// `walk_all` entry by entry: it gives trees exactly when every path has
/// one, and then one tree for each path, in order.
pub proof fn lemma_walk_all_each(world: World, paths: Seq<Seq<u8>>, depth: nat)
    ensures
        walk_all(world, paths, depth) is Some <==> forall|i: int|
            0 <= i < paths.len() ==> (#[trigger] walk(world, paths[i], depth)) is Some,
        walk_all(world, paths, depth) matches Some(trees) ==> trees.len() == paths.len()
            && forall|i: int|
            0 <= i < paths.len() ==> walk(world, paths[i], depth) == Some(#[trigger] trees[i]),
    decreases paths.len(),
{
    if paths.len() > 0 {
        let front = paths.drop_last();
        lemma_walk_all_each(world, front, depth);
        assert forall|i: int| 0 <= i < front.len() implies front[i] == paths[i] by {}
        if walk_all(world, paths, depth) is Some {
            assert forall|i: int| 0 <= i < paths.len() implies (#[trigger] walk(
                world,
                paths[i],
                depth,
            )) is Some by {
                if i < front.len() {
                    assert(front[i] == paths[i]);
                }
            }
        }
        if forall|i: int| 0 <= i < paths.len() ==> (#[trigger] walk(world, paths[i], depth)) is Some {
            assert forall|i: int| 0 <= i < front.len() implies (#[trigger] walk(
                world,
                front[i],
                depth,
            )) is Some by {
                assert(front[i] == paths[i]);
            }
            assert(walk(world, paths[paths.len() - 1], depth) is Some);
        }
    }
}

/// Whether the walk of `path` with `depth` levels left asks for a listing
/// that breaks part way with `reason`.
pub open spec fn breaks(world: World, path: Seq<u8>, depth: nat, reason: Seq<char>) -> bool
    decreases depth, 0nat,
{
    descends(metadata_of((world.stat)(path)), depth) && match (world.list)(path) {
        ListAnswer::Broken(cause) => cause == reason,
        ListAnswer::Entries(entries) => breaks_any(world, entries, (depth - 1) as nat, reason),
        ListAnswer::Refused(_) => false,
    }
}

/// Whether the walk of one of `paths` asks for a listing that breaks part
/// way with `reason`.
pub open spec fn breaks_any(
    world: World,
    paths: Seq<Seq<u8>>,
    depth: nat,
    reason: Seq<char>,
) -> bool
    decreases depth, paths.len() + 1,
{
    paths.len() > 0 && (breaks_any(world, paths.drop_last(), depth, reason) || breaks(
        world,
        paths.last(),
        depth,
        reason,
    ))
}

/// A walk has no tree exactly when it asks for a listing that breaks.
pub proof fn lemma_no_tree_when_broken(world: World, path: Seq<u8>, depth: nat)
    ensures
        walk(world, path, depth) is None <==> exists|reason: Seq<char>|
            breaks(world, path, depth, reason),
    decreases depth, 0nat,
{
    if descends(metadata_of((world.stat)(path)), depth) {
        match (world.list)(path) {
            ListAnswer::Broken(cause) => {
                assert(breaks(world, path, depth, cause));
            },
            ListAnswer::Entries(entries) => {
                let deeper = (depth - 1) as nat;
                lemma_no_trees_when_broken(world, entries, deeper);
                if walk(world, path, depth) is None {
                    let reason = choose|reason: Seq<char>|
                        breaks_any(world, entries, deeper, reason);
                    assert(breaks(world, path, depth, reason));
                }
                if exists|reason: Seq<char>| breaks(world, path, depth, reason) {
                    let reason = choose|reason: Seq<char>| breaks(world, path, depth, reason);
                    assert(breaks_any(world, entries, deeper, reason));
                }
            },
            ListAnswer::Refused(_) => {},
        }
    }
}

/// The same for several paths.
pub proof fn lemma_no_trees_when_broken(world: World, paths: Seq<Seq<u8>>, depth: nat)
    ensures
        walk_all(world, paths, depth) is None <==> exists|reason: Seq<char>|
            breaks_any(world, paths, depth, reason),
    decreases depth, paths.len() + 1,
{
    if paths.len() > 0 {
        let front = paths.drop_last();
        lemma_no_trees_when_broken(world, front, depth);
        lemma_no_tree_when_broken(world, paths.last(), depth);
        if walk_all(world, front, depth) is None {
            let reason = choose|reason: Seq<char>| breaks_any(world, front, depth, reason);
            assert(breaks_any(world, paths, depth, reason));
        } else if walk(world, paths.last(), depth) is None {
            let reason = choose|reason: Seq<char>| breaks(world, paths.last(), depth, reason);
            assert(breaks_any(world, paths, depth, reason));
        }
        if exists|reason: Seq<char>| breaks_any(world, paths, depth, reason) {
            let reason = choose|reason: Seq<char>| breaks_any(world, paths, depth, reason);
            assert(breaks_any(world, front, depth, reason) || breaks(
                world,
                paths.last(),
                depth,
                reason,
            ));
        }
    }
}

/// A walk of two sequences of paths breaks where the walk of one of them
/// does.
pub proof fn lemma_breaks_any_add(
    world: World,
    left: Seq<Seq<u8>>,
    right: Seq<Seq<u8>>,
    depth: nat,
    reason: Seq<char>,
)
    ensures
        breaks_any(world, left + right, depth, reason) <==> breaks_any(world, left, depth, reason)
            || breaks_any(world, right, depth, reason),
    decreases right.len(),
{
    if right.len() > 0 {
        lemma_breaks_any_add(world, left, right.drop_last(), depth, reason);
        assert((left + right).drop_last() =~= left + right.drop_last());
    } else {
        assert(left + right =~= left);
    }
}

} // verus!
