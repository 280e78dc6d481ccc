//! The aggregated tree and its mathematical model.

use vstd::prelude::*;

verus! {

/// Whether a node stands for a regular file or for a directory.
#[derive(Clone, Copy, Debug, PartialEq, Eq, Structural)]
pub enum Kind {
    File,
    Directory,
}

/// The model of a node: what contracts speak of.
pub struct Tree {
    pub size: u64,
    pub kind: Kind,
    pub depth: u32,
    pub path: Seq<char>,
    pub children: Seq<Tree>,
}

/// One file or directory with its total size in bytes.
#[derive(Debug)]
pub struct DirStat {
    pub size: u64,
    pub kind: Kind,
    pub depth: u32,
    pub path: String,
    pub children: Vec<DirStat>,
}

impl View for DirStat {
    type V = Tree;

    open spec fn view(&self) -> Tree
        decreases self,
    {
        Tree {
            size: self.size,
            kind: self.kind,
            depth: self.depth,
            path: self.path@,
            children: views(self.children@),
        }
    }
}

/// The models of a sequence of nodes, in order.
pub open spec fn views(nodes: Seq<DirStat>) -> Seq<Tree>
    decreases nodes,
{
    if nodes.len() == 0 {
        Seq::empty()
    } else {
        views(nodes.drop_last()).push(nodes.last()@)
    }
}

/// `views` keeps the length, and its `i`-th item is the model of the `i`-th
/// node.
pub proof fn lemma_views(nodes: Seq<DirStat>)
    ensures
        views(nodes).len() == nodes.len(),
        forall|i: int| 0 <= i < nodes.len() ==> (#[trigger] views(nodes)[i]) == nodes[i]@,
    decreases nodes.len(),
{
    if nodes.len() > 0 {
        lemma_views(nodes.drop_last());
        assert(views(nodes) == views(nodes.drop_last()).push(nodes.last()@));
    } else {
        assert(views(nodes) == Seq::<Tree>::empty());
    }
}

/// The sum of the sizes of `nodes`.
pub open spec fn total_size(nodes: Seq<Tree>) -> nat
    decreases nodes.len(),
{
    if nodes.len() == 0 {
        0
    } else {
        total_size(nodes.drop_last()) + nodes.last().size as nat
    }
}

/// No node of `nodes` is smaller than one that follows it.
pub open spec fn largest_first(nodes: Seq<Tree>) -> bool {
    forall|i: int, j: int| 0 <= i < j < nodes.len() ==> nodes[i].size >= nodes[j].size
}

impl Tree {
    /// The invariant of a built tree: a file has no children; a directory is
    /// as large as its children together, holds them largest first, and each
    /// child lies one level deeper and is itself well formed.
    pub open spec fn wf(self) -> bool
        decreases self,
    {
        match self.kind {
            Kind::File => self.children.len() == 0,
            Kind::Directory => {
                &&& self.size as nat == total_size(self.children)
                &&& largest_first(self.children)
                &&& forall|i: int|
                    0 <= i < self.children.len() ==> {
                        &&& (#[trigger] self.children[i]).depth as int == self.depth as int + 1
                        &&& self.children[i].wf()
                    }
            },
        }
    }
}

impl DirStat {
    /// The model of a node holds the node's own fields and the models of its
    /// children.
    pub proof fn lemma_view(self)
        ensures
            self@.size == self.size,
            self@.kind == self.kind,
            self@.depth == self.depth,
            self@.path == self.path@,
            self@.children == views(self.children@),
    {
    }

    /// A node for a regular file of `len` bytes at `depth`.
    pub fn file(depth: u32, path: String, len: u64) -> (node: DirStat)
        ensures
            node@ == (Tree {
                size: len,
                kind: Kind::File,
                depth: depth,
                path: path@,
                children: Seq::empty(),
            }),
            node@.wf(),
    {
        let node = DirStat { size: len, kind: Kind::File, depth, path, children: Vec::new() };
        node
    }
}

} // verus!
