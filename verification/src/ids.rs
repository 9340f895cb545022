//! The nodes of a generational arena of leaves and branches, and their
//! identifiers.

use vstd::prelude::*;

use crate::grid::Grid2;
use crate::leaf::Leaf;

verus! {

/// The index of a node in an arena.
#[derive(Clone, Copy, Debug, PartialEq, Eq, Structural)]
pub struct Idx(pub u32);

/// The generation of an arena.
#[derive(Clone, Copy, Debug, PartialEq, Eq, Structural)]
pub struct Gen(pub u32);

/// A node of an arena: its index, and the generation it belongs to.
#[derive(Clone, Copy, Debug, PartialEq, Eq, Structural)]
pub struct NodeId {
    /// The index of the node.
    pub index: Idx,
    /// The generation the node belongs to.
    pub generation: Gen,
}

impl NodeId {
    /// Creates the identifier of the node at `idx` in generation `gen`.
    pub fn new(idx: Idx, gen: Gen) -> (id: Self)
        ensures
            id.index == idx,
            id.generation == gen,
    {
        Self { index: idx, generation: gen }
    }
}

/// A node with four children of equal size, stored by their indices.
#[derive(Clone, Copy, Debug, PartialEq, Eq)]
pub struct Branch {
    /// The log of the side length of the branch.
    pub side_log2: u8,
    /// Whether no cell of the branch is alive.
    pub is_empty: bool,
    /// The generation the children belong to.
    pub gen: Gen,
    /// The indices of the children: `[nw, ne, sw, se]`.
    pub child_indices: Grid2<Idx>,
}

impl Branch {
    /// The identifiers of the children, each in the branch's generation.
    pub fn children(&self) -> (ids: Grid2<NodeId>)
        ensures
            forall|i: int|
                0 <= i < 4 ==> #[trigger] ids.0@[i] == (NodeId { index: self.child_indices.0@[i], generation: self.gen }),
    {
        let c = self.child_indices.0;
        Grid2(
            [
                NodeId::new(c[0], self.gen),
                NodeId::new(c[1], self.gen),
                NodeId::new(c[2], self.gen),
                NodeId::new(c[3], self.gen),
            ],
        )
    }
}

/// A node of the arena: a leaf, or a branch.
#[derive(Debug, PartialEq, Eq)]
pub enum Node {
    /// A 16 by 16 leaf.
    Leaf(Leaf),
    /// A branch with four children.
    Branch(Branch),
}

impl Node {
    /// The log of the side length of the node.
    pub fn side_log2(&self) -> (side_log2: u8)
        ensures
            side_log2 == (match *self {
                Node::Leaf(_) => Leaf::SIDE_LOG2,
                Node::Branch(branch) => branch.side_log2,
            }),
    {
        match self {
            Node::Leaf(_) => Leaf::SIDE_LOG2,
            Node::Branch(branch) => branch.side_log2,
        }
    }

    /// Whether no cell of the node is alive: for a leaf, all its rows are
    /// 0; for a branch, its own record of it.
    pub fn is_empty(&self) -> (empty: bool)
        ensures
            empty == (match *self {
                Node::Leaf(leaf) => forall|r: int| 0 <= r < 16 ==> #[trigger] leaf.cells@[r] == 0,
                Node::Branch(branch) => branch.is_empty,
            }),
    {
        match self {
            Node::Leaf(leaf) => leaf.is_empty(),
            Node::Branch(branch) => branch.is_empty,
        }
    }
}

} // verus!
