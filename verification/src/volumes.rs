//! The mounted volumes as the roots of a walk, and the entry that stands
//! above them.

use vstd::prelude::*;
use crate::dir::{lemma_children_view, Dir, Tree};

verus! {

/// The entry that stands above the volumes: the path `/`, no metadata, and
/// the trees of the volumes as its children.
pub open spec fn volumes_tree(children: Seq<Tree>) -> Tree {
    Tree { path: Some(seq!['/']), metadata: None, children: Some(children) }
}

/// Why the volumes cannot be listed.
#[derive(Debug, PartialEq, Eq)]
pub enum VolumesError {
    /// This platform has no way to list mounted volumes.
    Unavailable,
}

/// The roots of a walk over the volumes, given what the platform said:
/// whether it can list volumes at all, and the mount points it reported.
/// Where it can, every mount point is a root, in the order reported.
pub open spec fn volume_roots(supported: bool, mounts: Seq<Seq<u8>>) -> Option<Seq<Seq<u8>>> {
    if supported {
        Some(mounts)
    } else {
        None
    }
}

/// The roots of a walk over the volumes, given what the platform said:
/// whether it can list volumes at all, and the mount points it reported.
/// Where it cannot, there are no roots to give, whatever the mount points;
/// where it can, every mount point is a root, in the order reported, be it
/// one that has a string form or not.
pub fn roots_from(supported: bool, mounts: Vec<Vec<u8>>) -> (result: Result<
    Vec<Vec<u8>>,
    VolumesError,
>)
    ensures
        match volume_roots(supported, mounts.deep_view()) {
            Some(wanted) => result matches Ok(roots) && roots.deep_view() == wanted,
            None => result == Err::<Vec<Vec<u8>>, VolumesError>(VolumesError::Unavailable),
        },
{
    if supported {
        Ok(mounts)
    } else {
        Err(VolumesError::Unavailable)
    }
}

impl Dir {
    /// The entry that stands above the volumes, with their trees below it.
    pub fn volumes(children: Vec<Dir>) -> (root: Dir)
        ensures
            root@ == volumes_tree(children.deep_view()),
    {
        let slash = "/".to_owned();
        proof {
            reveal_strlit("/");
            assert(slash@ =~= seq!['/']);
        }
        let root = Dir { path: Some(slash), metadata: None, children: Some(children) };
        proof {
            lemma_children_view(root);
        }
        root
    }
}

} // verus!
