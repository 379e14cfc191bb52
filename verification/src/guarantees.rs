//! What holds of every walk, stated of the walk that goes level by level
//! and is answered by a filesystem.

use vstd::prelude::*;
use crate::dir::{tallest, Tree};
use crate::metadata::MetadataModel;
use crate::model::{
    breaks, breaks_any, descends, leaf, lemma_no_trees_when_broken, lemma_walk_all_each,
    metadata_of, walk, walk_all, ListAnswer, World,
};
use crate::params::{answer_of, roots_of, TargetModel};
use crate::run::{theorem_walked, walked};
use crate::volumes::volumes_tree;
use vstd::utf8::encode_utf8;

verus! {

/// The trees of a single path are the tree of that path.
pub proof fn lemma_walk_all_one(world: World, path: Seq<u8>, depth: nat)
    ensures
        walk_all(world, seq![path], depth) == match walk(world, path, depth) {
            Some(tree) => Some(seq![tree]),
            None => None,
        },
{
    reveal_with_fuel(walk_all, 2);
    let one = seq![path];
    assert(one.drop_last() =~= Seq::<Seq<u8>>::empty());
    assert(one.last() == path);
    if walk(world, path, depth) is Some {
        assert(Seq::<Tree>::empty().push(walk(world, path, depth)->0) =~= seq![
            walk(world, path, depth)->0,
        ]);
    }
}

/// A walk of one path, answered by `world`, ends with the tree that the
/// recursive definition gives for the path, and fails where it gives none,
/// with the reason of a listing that it asks for and that breaks.
pub proof fn walked_path(world: World, path: Seq<u8>, depth: nat)
    ensures
        match walk(world, path, depth) {
            Some(tree) => walked(world, seq![path], depth).outcome() == Some(
                Ok::<Seq<Tree>, Seq<char>>(seq![tree]),
            ),
            None => walked(world, seq![path], depth).outcome() matches Some(Err(reason))
                && breaks(world, path, depth, reason),
        },
{
    reveal_with_fuel(breaks_any, 2);
    lemma_walk_all_one(world, path, depth);
    theorem_walked(world, seq![path], depth);
    assert(seq![path].drop_last() =~= Seq::<Seq<u8>>::empty());
}

/// The walks of several paths, one by one, against the trees of them all:
/// where all have trees, the walk of each path alone ends with its tree;
/// where they have none, the walk of one of the paths alone fails.
proof fn lemma_walked_each(world: World, paths: Seq<Seq<u8>>, depth: nat)
    ensures
        match walk_all(world, paths, depth) {
            Some(trees) => trees.len() == paths.len() && forall|i: int|
                0 <= i < paths.len() ==> (#[trigger] walked(world, seq![paths[i]], depth)).outcome()
                    == Some(Ok::<Seq<Tree>, Seq<char>>(seq![trees[i]])),
            None => exists|i: int|
                0 <= i < paths.len() && (#[trigger] walked(
                    world,
                    seq![paths[i]],
                    depth,
                )).outcome() matches Some(Err(_)),
        },
{
    lemma_walk_all_each(world, paths, depth);
    assert forall|i: int| 0 <= i < paths.len() implies match walk(world, paths[i], depth) {
        Some(tree) => (#[trigger] walked(world, seq![paths[i]], depth)).outcome() == Some(
            Ok::<Seq<Tree>, Seq<char>>(seq![tree]),
        ),
        None => walked(world, seq![paths[i]], depth).outcome() matches Some(Err(_)),
    } by {
        walked_path(world, paths[i], depth);
    }
    if walk_all(world, paths, depth) is None {
        let i = choose|i: int|
            0 <= i < paths.len() && !((#[trigger] walk(world, paths[i], depth)) is Some);
        assert(walked(world, seq![paths[i]], depth).outcome() matches Some(Err(_)));
    }
}

/// A walk fails only where it asks for a listing that breaks part way, and
/// then always; the reason it gives is the reason of such a listing. A
/// query that fails or a directory that cannot be opened never fails the
/// walk.
pub proof fn failure_has_a_cause(world: World, roots: Seq<Seq<u8>>, depth: nat)
    ensures
        walked(world, roots, depth).outcome() is Some,
        walked(world, roots, depth).outcome() matches Some(Err(reason)) ==> breaks_any(
            world,
            roots,
            depth,
            reason,
        ),
        walked(world, roots, depth).outcome() matches Some(Err(_)) <==> exists|reason: Seq<char>|
            breaks_any(world, roots, depth, reason),
{
    theorem_walked(world, roots, depth);
    lemma_no_trees_when_broken(world, roots, depth);
}

/// A regular file walks to a single entry that reports a file, with its
/// size and no children, whatever the depth.
pub proof fn file_is_a_leaf(world: World, path: Seq<u8>, depth: nat)
    requires
        (world.stat)(path) is Found,
        (world.stat)(path)->Found_0.is_file,
        !(world.stat)(path)->Found_0.is_dir,
    ensures
        walked(world, seq![path], depth).outcome() == Some(
            Ok::<Seq<Tree>, Seq<char>>(
                seq![leaf(path, MetadataModel::found((world.stat)(path)->Found_0))],
            ),
        ),
        leaf(path, MetadataModel::found((world.stat)(path)->Found_0)).metadata->0.is_file,
        leaf(path, MetadataModel::found((world.stat)(path)->Found_0)).children is None,
{
    walked_path(world, path, depth);
}

/// A symlink is not followed: an entry whose query reports a symlink walks
/// to a single entry that keeps the flag and has no children, whatever the
/// depth and whatever else the query reports, the directory that the link
/// leads to included.
pub proof fn symlink_is_a_leaf(world: World, path: Seq<u8>, depth: nat)
    requires
        (world.stat)(path) is Found,
        (world.stat)(path)->Found_0.is_symlink,
    ensures
        walked(world, seq![path], depth).outcome() == Some(
            Ok::<Seq<Tree>, Seq<char>>(
                seq![leaf(path, MetadataModel::found((world.stat)(path)->Found_0))],
            ),
        ),
        leaf(path, MetadataModel::found((world.stat)(path)->Found_0)).metadata->0.is_symlink,
        leaf(path, MetadataModel::found((world.stat)(path)->Found_0)).children is None,
{
    walked_path(world, path, depth);
}

/// A directory that is no symlink, walked with at least one level left, has
/// one child for each entry of its listing, in the order of the listing,
/// and each child is what a walk of that entry with one level less gives.
/// Where one of those walks fails, so does the walk of the directory.
pub proof fn directory_has_its_entries(world: World, path: Seq<u8>, depth: nat)
    requires
        depth > 0,
        (world.stat)(path) is Found,
        (world.stat)(path)->Found_0.is_dir,
        !(world.stat)(path)->Found_0.is_symlink,
        (world.list)(path) is Entries,
    ensures
        ({
            let stat = (world.stat)(path)->Found_0;
            let entries = (world.list)(path)->Entries_0;
            let deeper = (depth - 1) as nat;
            match walked(world, seq![path], depth).outcome() {
                Some(Ok(trees)) => {
                    &&& trees.len() == 1
                    &&& trees[0].metadata == Some(MetadataModel::found(stat))
                    &&& trees[0].children is Some
                    &&& trees[0].children->0.len() == entries.len()
                    &&& forall|i: int|
                        0 <= i < entries.len() ==> walked(world, seq![entries[i]], deeper).outcome()
                            == Some(
                            Ok::<Seq<Tree>, Seq<char>>(seq![#[trigger] trees[0].children->0[i]]),
                        )
                },
                Some(Err(_)) => exists|i: int|
                    0 <= i < entries.len() && (#[trigger] walked(
                        world,
                        seq![entries[i]],
                        deeper,
                    )).outcome() matches Some(Err(_)),
                None => false,
            }
        }),
{
    let entries = (world.list)(path)->Entries_0;
    let deeper = (depth - 1) as nat;
    walked_path(world, path, depth);
    lemma_walked_each(world, entries, deeper);
}

/// With no level left a walk gives the entry alone: no children, whatever
/// the path is and whatever a listing of it would hold.
pub proof fn depth_zero_has_no_children(world: World, path: Seq<u8>)
    ensures
        walked(world, seq![path], 0).outcome() == Some(
            Ok::<Seq<Tree>, Seq<char>>(seq![leaf(path, metadata_of((world.stat)(path)))]),
        ),
        leaf(path, metadata_of((world.stat)(path))).children is None,
{
    walked_path(world, path, 0);
}

/// A path whose metadata query fails walks to a single entry with status
/// false, the reason of the failure as its message and no children,
/// whatever the depth. The message is the reason word for word, so it is
/// not empty unless the reason handed in is.
pub proof fn missing_path_is_reported(world: World, path: Seq<u8>, depth: nat)
    requires
        (world.stat)(path) is Failed,
    ensures
        ({
            let reason = (world.stat)(path)->Failed_0;
            let tree = leaf(path, MetadataModel::failed(reason));
            &&& walked(world, seq![path], depth).outcome() == Some(
                Ok::<Seq<Tree>, Seq<char>>(seq![tree]),
            )
            &&& !tree.metadata->0.status
            &&& tree.metadata->0.message == Some(reason)
            &&& reason.len() > 0 ==> tree.metadata->0.message->0.len() > 0
            &&& tree.children is None
        }),
{
    walked_path(world, path, depth);
}

/// A directory that is no symlink and cannot be opened for listing walks
/// to a single entry with status false and the reason as its message; the walk itself does
/// not fail.
pub proof fn unlistable_directory_is_reported(world: World, path: Seq<u8>, depth: nat)
    requires
        depth > 0,
        (world.stat)(path) is Found,
        (world.stat)(path)->Found_0.is_dir,
        !(world.stat)(path)->Found_0.is_symlink,
        (world.list)(path) is Refused,
    ensures
        walked(world, seq![path], depth).outcome() == Some(
            Ok::<Seq<Tree>, Seq<char>>(
                seq![leaf(path, MetadataModel::failed((world.list)(path)->Refused_0))],
            ),
        ),
{
    walked_path(world, path, depth);
}

/// Whether a walk of `root` with `depth` levels left asks about `path`.
pub open spec fn reaches(world: World, root: Seq<u8>, depth: nat, path: Seq<u8>) -> bool
    decreases depth, 0nat,
{
    path == root || (descends(metadata_of((world.stat)(root)), depth) && match (world.list)(root) {
        ListAnswer::Entries(entries) => reaches_any(world, entries, (depth - 1) as nat, path),
        _ => false,
    })
}

/// Whether a walk of one of `roots` with `depth` levels left asks about
/// `path`.
pub open spec fn reaches_any(world: World, roots: Seq<Seq<u8>>, depth: nat, path: Seq<u8>) -> bool
    decreases depth, roots.len() + 1,
{
    roots.len() > 0 && (reaches_any(world, roots.drop_last(), depth, path) || reaches(
        world,
        roots.last(),
        depth,
        path,
    ))
}

/// Two filesystems agree on `path`.
pub open spec fn same_answers(before: World, after: World, path: Seq<u8>) -> bool {
    (before.stat)(path) == (after.stat)(path) && (before.list)(path) == (after.list)(path)
}

/// Two filesystems that agree on every path that a walk reaches give the
/// same tree.
proof fn lemma_unchanged_walk(before: World, after: World, root: Seq<u8>, depth: nat)
    requires
        forall|path: Seq<u8>| #[trigger]
            reaches(before, root, depth, path) ==> same_answers(before, after, path),
    ensures
        walk(before, root, depth) == walk(after, root, depth),
    decreases depth, 0nat,
{
    assert(reaches(before, root, depth, root));
    let metadata = metadata_of((before.stat)(root));
    if descends(metadata, depth) {
        if let ListAnswer::Entries(entries) = (before.list)(root) {
            let deeper = (depth - 1) as nat;
            assert forall|path: Seq<u8>| #[trigger]
                reaches_any(before, entries, deeper, path) implies same_answers(
                before,
                after,
                path,
            ) by {
                assert(reaches(before, root, depth, path));
            }
            lemma_unchanged_walks(before, after, entries, deeper);
        }
    }
}

/// The same for several roots.
proof fn lemma_unchanged_walks(before: World, after: World, roots: Seq<Seq<u8>>, depth: nat)
    requires
        forall|path: Seq<u8>| #[trigger]
            reaches_any(before, roots, depth, path) ==> same_answers(before, after, path),
    ensures
        walk_all(before, roots, depth) == walk_all(after, roots, depth),
    decreases depth, roots.len() + 1,
{
    if roots.len() > 0 {
        let front = roots.drop_last();
        assert forall|path: Seq<u8>| #[trigger]
            reaches_any(before, front, depth, path) implies same_answers(before, after, path) by {
            assert(reaches_any(before, roots, depth, path));
        }
        lemma_unchanged_walks(before, after, front, depth);
        assert forall|path: Seq<u8>| #[trigger]
            reaches(before, roots.last(), depth, path) implies same_answers(
            before,
            after,
            path,
        ) by {
            assert(reaches_any(before, roots, depth, path));
        }
        lemma_unchanged_walk(before, after, roots.last(), depth);
    }
}

/// Walking twice gives the same trees: two walks of the same roots to the
/// same depth, the second in a filesystem that answers as the first did for
/// every path that the first walk reached, end with the same trees, or both
/// fail.
pub proof fn unchanged_subtree_walks_alike(
    before: World,
    after: World,
    roots: Seq<Seq<u8>>,
    depth: nat,
)
    requires
        forall|path: Seq<u8>| #[trigger]
            reaches_any(before, roots, depth, path) ==> same_answers(before, after, path),
    ensures
        match walked(before, roots, depth).outcome() {
            Some(Ok(trees)) => walked(after, roots, depth).outcome() == Some(
                Ok::<Seq<Tree>, Seq<char>>(trees),
            ),
            Some(Err(_)) => walked(after, roots, depth).outcome() matches Some(Err(_)),
            None => false,
        },
{
    lemma_unchanged_walks(before, after, roots, depth);
    theorem_walked(before, roots, depth);
    theorem_walked(after, roots, depth);
}

/// Every tree of a walk is complete and no higher than the depth allows.
proof fn lemma_walk_is_complete(world: World, path: Seq<u8>, depth: nat)
    ensures
        walk(world, path, depth) matches Some(tree) ==> tree.complete() && tree.height() <= depth,
    decreases depth, 0nat,
{
    let metadata = metadata_of((world.stat)(path));
    if descends(metadata, depth) {
        if let ListAnswer::Entries(entries) = (world.list)(path) {
            lemma_walks_are_complete(world, entries, (depth - 1) as nat);
        }
    }
}

/// The same for several paths.
proof fn lemma_walks_are_complete(world: World, paths: Seq<Seq<u8>>, depth: nat)
    ensures
        walk_all(world, paths, depth) matches Some(trees) ==> tallest(trees) <= depth && forall|
            i: int,
        |
            0 <= i < trees.len() ==> (#[trigger] trees[i]).complete(),
    decreases depth, paths.len() + 1,
{
    if paths.len() > 0 {
        lemma_walks_are_complete(world, paths.drop_last(), depth);
        lemma_walk_is_complete(world, paths.last(), depth);
        if let Some(trees) = walk_all(world, paths, depth) {
            let before = walk_all(world, paths.drop_last(), depth)->0;
            assert(trees.drop_last() =~= before);
            assert forall|i: int| 0 <= i < trees.len() implies (#[trigger] trees[i]).complete() by {
                if i < before.len() {
                    assert(trees[i] == before[i]);
                }
            }
        }
    }
}

/// Every tree that a walk ends with is complete: each entry has metadata,
/// either of a successful query, without a message, or of a failure, with
/// its message and with the type and size fields zeroed; only a directory
/// whose query succeeded has children. No tree goes further down than the
/// depth of the walk.
pub proof fn walked_trees_are_complete(world: World, roots: Seq<Seq<u8>>, depth: nat)
    ensures
        walked(world, roots, depth).outcome() matches Some(Ok(trees)) ==> trees.len()
            == roots.len() && forall|i: int|
            0 <= i < trees.len() ==> (#[trigger] trees[i]).complete() && trees[i].height()
                <= depth,
{
    theorem_walked(world, roots, depth);
    lemma_walks_are_complete(world, roots, depth);
    lemma_walk_all_each(world, roots, depth);
    if let Some(trees) = walk_all(world, roots, depth) {
        assert forall|i: int| 0 <= i < trees.len() implies (#[trigger] trees[i]).height()
            <= depth by {
            lemma_tallest_bounds(trees, i);
        }
    }
}

/// No tree is higher than the tallest.
proof fn lemma_tallest_bounds(trees: Seq<Tree>, i: int)
    requires
        0 <= i < trees.len(),
    ensures
        trees[i].height() <= tallest(trees),
    decreases trees.len(),
{
    if i < trees.len() - 1 {
        lemma_tallest_bounds(trees.drop_last(), i);
    }
}

/// What a listing of `target` to `depth` answers in `world`, the roots of
/// the volumes being `volumes`: for a path its tree; for the volumes the
/// entry that stands for them, with the tree of each below it. There is no
/// answer where a listing within reach breaks.
pub open spec fn listing(
    world: World,
    target: TargetModel,
    volumes: Seq<Seq<u8>>,
    depth: nat,
) -> Option<Tree> {
    match target {
        TargetModel::Path(path) => walk(world, encode_utf8(path), depth),
        TargetModel::Volumes => match walk_all(world, volumes, depth) {
            Some(trees) => Some(volumes_tree(trees)),
            None => None,
        },
    }
}

/// The walk for a listing, answered by `world`, ends with trees from which
/// the answer of the listing is assembled; it fails exactly where the
/// listing has no answer. The entry that stands for the volumes takes no
/// level of the depth: each volume is walked to the full depth.
pub proof fn listing_is_answered(
    world: World,
    target: TargetModel,
    volumes: Seq<Seq<u8>>,
    depth: nat,
)
    ensures
        match walked(world, roots_of(target, volumes), depth).outcome() {
            Some(Ok(trees)) => answer_of(target, trees) is Some && answer_of(target, trees)
                == listing(world, target, volumes, depth),
            Some(Err(_)) => listing(world, target, volumes, depth) is None,
            None => false,
        },
{
    theorem_walked(world, roots_of(target, volumes), depth);
    if let TargetModel::Path(path) = target {
        lemma_walk_all_one(world, encode_utf8(path), depth);
    }
}

/// A listing of the volumes has one child for each mount point, in the
/// order reported and whether the mount point has a string form or not;
/// each child is what a walk of that mount point gives at the full depth,
/// also at depth 0. Where the walk of one mount point fails, the listing of
/// the volumes fails.
pub proof fn every_volume_is_walked(world: World, mounts: Seq<Seq<u8>>, depth: nat)
    ensures
        match walked(world, roots_of(TargetModel::Volumes, mounts), depth).outcome() {
            Some(Ok(trees)) => {
                &&& answer_of(TargetModel::Volumes, trees) == Some(volumes_tree(trees))
                &&& volumes_tree(trees).children == Some(trees)
                &&& trees.len() == mounts.len()
                &&& forall|i: int|
                    0 <= i < mounts.len() ==> walked(world, seq![mounts[i]], depth).outcome()
                        == Some(Ok::<Seq<Tree>, Seq<char>>(seq![#[trigger] trees[i]]))
            },
            Some(Err(_)) => exists|i: int|
                0 <= i < mounts.len() && (#[trigger] walked(
                    world,
                    seq![mounts[i]],
                    depth,
                )).outcome() matches Some(Err(_)),
            None => false,
        },
{
    theorem_walked(world, mounts, depth);
    lemma_walked_each(world, mounts, depth);
}

} // verus!
