//! The entries of a listing: [`Dir`], the tree that is handed out, and
//! [`Tree`], its mathematical value.

use vstd::prelude::*;
use crate::metadata::{Metadata, MetadataModel};

verus! {

/// The mathematical value of a [`Dir`].
pub struct Tree {
    pub path: Option<Seq<char>>,
    pub metadata: Option<MetadataModel>,
    pub children: Option<Seq<Tree>>,
}

impl Tree {
    /// The entry has been queried and holds what a finished walk may leave:
    /// well-formed metadata, children only under a directory whose query
    /// succeeded and that is no symlink, and the same of every child.
    pub open spec fn complete(self) -> bool
        decreases self,
    {
        &&& self.metadata is Some
        &&& self.metadata->0.well_formed()
        &&& match self.children {
            Some(children) => {
                &&& self.metadata->0.status
                &&& self.metadata->0.is_dir
                &&& !self.metadata->0.is_symlink
                &&& forall|i: int| 0 <= i < children.len() ==> (#[trigger] children[i]).complete()
            },
            None => true,
        }
    }

    /// How many levels of children lie below the entry.
    pub open spec fn height(self) -> nat
        decreases self,
    {
        match self.children {
            Some(children) => 1 + tallest(children),
            None => 0,
        }
    }
}

/// The greatest height among `trees`, 0 when there are none.
pub open spec fn tallest(trees: Seq<Tree>) -> nat
    decreases trees,
{
    if trees.len() == 0 {
        0
    } else {
        let rest = tallest(trees.drop_last());
        let last = trees.last().height();
        if last > rest {
            last
        } else {
            rest
        }
    }
}

/// One entry of the result: its path, what the filesystem said of it, and,
/// for a directory that was listed, the entries below it.
#[derive(Debug, PartialEq, Eq)]
pub struct Dir {
    pub path: Option<String>,
    pub metadata: Option<Metadata>,
    pub children: Option<Vec<Dir>>,
}

impl Dir {
    /// The value of this entry and of everything below it, children in
    /// their stored order.
    pub open spec fn tree(self) -> Tree
        decreases self,
    {
        Tree {
            path: self.path.deep_view(),
            metadata: self.metadata.deep_view(),
            children: match self.children {
                Some(children) => Some(
                    Seq::new(
                        children@.len(),
                        |i: int|
                            if 0 <= i < children@.len() {
                                children@[i].tree()
                            } else {
                                arbitrary()
                            },
                    ),
                ),
                None => None,
            },
        }
    }
}

impl Default for Dir {
    /// An entry of which nothing is known: no path, no metadata, no
    /// children.
    fn default() -> (dir: Dir)
        ensures
            dir@ == (Tree { path: None, metadata: None, children: None }),
    {
        Dir { path: None, metadata: None, children: None }
    }
}

impl DeepView for Dir {
    type V = Tree;

    open spec fn deep_view(&self) -> Tree {
        self.tree()
    }
}

impl View for Dir {
    type V = Tree;

    open spec fn view(&self) -> Tree {
        self.tree()
    }
}

/// The view of a stored entry gives its children as the view of the stored
/// children.
pub proof fn lemma_children_view(dir: Dir)
    ensures
        dir@.path == dir.path.deep_view(),
        dir@.metadata == dir.metadata.deep_view(),
        dir@.children == dir.children.deep_view(),
{
    if dir.children is Some {
        assert(dir@.children->0 =~= dir.children->0.deep_view());
    }
}

} // verus!
