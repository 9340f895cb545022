//! A store of quadtree nodes kept in a generational arena, with 8 by 8
//! leaves held in the bits of a `u64`.

use vstd::prelude::*;

use arrayvec::ArrayVec;

use crate::bool8x8::bit64;
use crate::grid::Grid2;
pub use crate::{Cell, Position};

verus! {

/// `ArrayVec`, the fixed-capacity list of the `arrayvec` crate.
#[verifier::external_type_specification]
#[verifier::external_body]
#[verifier::reject_recursive_types(T)]
pub struct ExArrayVec<T, const CAP: usize>(ArrayVec<T, CAP>);

/// The generational arena of the `generational_arena` crate that holds
/// the nodes of a store.
#[verifier::external_body]
pub struct NodeSlots {
    arena: generational_arena::Arena<Node>,
}

/// The positions a list holds, in order.
pub uninterp spec fn listed_positions(list: ArrayVec<Position, 64>) -> Seq<Position>;

/// The nodes an arena holds, each under the slot and generation of its
/// index.
pub uninterp spec fn stored_nodes(slots: NodeSlots) -> Map<(usize, u64), Node>;

/// `ArrayVec::new`: an empty list.
#[verifier::external_body]
fn empty_position_list() -> (list: ArrayVec<Position, 64>)
    ensures
        listed_positions(list) == Seq::<Position>::empty(),
{
    ArrayVec::new()
}

/// `ArrayVec::push`: the position added at the end. It panics on a full
/// list, so the list must hold fewer than 64.
#[verifier::external_body]
fn push_position(list: &mut ArrayVec<Position, 64>, position: Position)
    requires
        listed_positions(*old(list)).len() < 64,
    ensures
        listed_positions(*final(list)) == listed_positions(*old(list)).push(position),
{
    list.push(position)
}

/// `Arena::new`: no nodes.
#[verifier::external_body]
fn new_node_slots() -> (slots: NodeSlots)
    ensures
        stored_nodes(slots).dom().is_empty(),
{
    NodeSlots { arena: generational_arena::Arena::new() }
}

/// `Arena::insert`: the node stored under a fresh index, whose slot and
/// generation are returned. The slot it takes holds no live node, so no
/// stored node has that slot and generation.
#[verifier::external_body]
fn insert_node(slots: &mut NodeSlots, node: Node) -> (key: (usize, u64))
    ensures
        !stored_nodes(*old(slots)).dom().contains(key),
        stored_nodes(*final(slots)) == stored_nodes(*old(slots)).insert(key, node),
{
    slots.arena.insert(node).into_raw_parts()
}

/// `Arena::get`: the node stored under the index of the given slot and
/// generation, if there is one.
#[verifier::external_body]
fn node_at(slots: &NodeSlots, key: (usize, u64)) -> (node: Option<Node>)
    ensures
        node == (if stored_nodes(*slots).dom().contains(key) {
            Some(stored_nodes(*slots)[key])
        } else {
            None
        }),
{
    slots.arena.get(generational_arena::Index::from_raw_parts(key.0, key.1)).copied()
}

/// The side length of a leaf.
pub const LEAF_SIDE_LEN: u64 = 8;

/// The side length of the largest node.
pub const MAX_SIDE_LEN: u64 = 0x8000_0000_0000_0000;

/// The identity of a stored node.
#[derive(Clone, Copy, Debug, PartialEq, Eq, Structural)]
pub struct Id {
    slot: usize,
    generation: u64,
}

impl Id {
    /// The slot and generation of the arena index.
    pub closed spec fn key(&self) -> (usize, u64) {
        (self.slot, self.generation)
    }

    /// The identity of the node under the given slot and generation.
    fn new(key: (usize, u64)) -> (id: Self)
        ensures
            id.key() == key,
    {
        Self { slot: key.0, generation: key.1 }
    }
}

/// An 8 by 8 leaf: bit `63` is the northwest cell, bit `0` the southeast
/// one, each row a byte.
#[derive(Clone, Copy, Debug, PartialEq, Eq, Structural)]
pub struct Leaf {
    /// The bits of the alive cells.
    pub alive: u64,
}

/// The position of bit `i` of a leaf, the origin four cells in from its
/// northwest corner.
pub open spec fn leaf_position(i: int) -> Position {
    Position { x: (3 - i % 8) as i64, y: (3 - i / 8) as i64 }
}

/// The positions of the alive cells of bits `63` down to `i`, in that
/// order.
pub open spec fn positions_from(alive: u64, i: int) -> Seq<Position>
    decreases 64 - i,
{
    if i >= 64 || i < 0 {
        Seq::empty()
    } else if bit64(alive, i as u64) {
        positions_from(alive, i + 1).push(leaf_position(i))
    } else {
        positions_from(alive, i + 1)
    }
}

/// The number of alive cells among bits `0` to `n - 1`.
pub open spec fn count64(alive: u64, n: nat) -> nat
    decreases n,
{
    if n == 0 {
        0
    } else {
        count64(alive, (n - 1) as nat) + if bit64(alive, (n - 1) as u64) {
            1nat
        } else {
            0nat
        }
    }
}

/// Whether a position lies in a leaf.
pub open spec fn in_leaf(pos: Position) -> bool {
    -4 <= pos.x <= 3 && -4 <= pos.y <= 3
}

/// The bit index of a position.
pub open spec fn leaf_index(pos: Position) -> int {
    8 * (3 - pos.y) + (3 - pos.x)
}

impl Leaf {
    /// The smallest coordinate in a leaf.
    pub const MIN: i64 = -4;

    /// The largest coordinate in a leaf.
    pub const MAX: i64 = 3;

    /// The side length of a leaf.
    pub const SIDE_LEN: i64 = 8;

    /// The leaf with the given bits.
    pub fn new(alive: u64) -> (leaf: Self)
        ensures
            leaf.alive == alive,
    {
        Self { alive }
    }

    /// The positions of the alive cells, from bit `63` down to bit `0`.
    pub fn alive_cells(&self) -> (cells: ArrayVec<Position, 64>)
        ensures
            listed_positions(cells) == positions_from(self.alive, 0),
    {
        let mut result = empty_position_list();
        let mut i: usize = 64;
        proof {
            lemma_positions_len(self.alive, 64);
        }
        while i > 0
            invariant
                i <= 64,
                listed_positions(result) == positions_from(self.alive, i as int),
            decreases i,
        {
            i = i - 1;
            proof {
                lemma_positions_len(self.alive, i as int + 1);
            }
            if self.alive & (1u64 << i as u64) != 0 {
                proof {
                    lemma_bit_test(self.alive, i as u64);
                }
                push_position(&mut result, self.idx_to_pos(i));
            } else {
                proof {
                    lemma_bit_test(self.alive, i as u64);
                }
            }
        }
        result
    }

    /// Whether the position lies in the leaf.
    fn check_bounds(&self, pos: Position) -> (ok: bool)
        ensures
            ok == in_leaf(pos),
    {
        let x_ok = Self::MIN <= pos.x && pos.x <= Self::MAX;
        let y_ok = Self::MIN <= pos.y && pos.y <= Self::MAX;
        x_ok && y_ok
    }

    /// The bit index of a position.
    fn pos_to_idx(&self, pos: Position) -> (index: usize)
        requires
            0 <= leaf_index(pos) < 64,
            3 - pos.x <= i64::MAX,
            8 * (3 - pos.y) <= i64::MAX,
            i64::MIN <= 8 * (3 - pos.y),
        ensures
            index == leaf_index(pos),
    {
        (Self::SIDE_LEN * (Self::MAX - pos.y) + (Self::MAX - pos.x)) as usize
    }

    /// The position of a bit index.
    fn idx_to_pos(&self, index: usize) -> (pos: Position)
        requires
            index < 64,
        ensures
            pos == leaf_position(index as int),
    {
        let index = index as i64;
        let y = Self::MAX - index / Self::SIDE_LEN;
        let x = Self::MAX - index % Self::SIDE_LEN;
        Position::new(x, y)
    }

    /// The number of alive cells.
    pub fn population(&self) -> (population: u128)
        ensures
            population == count64(self.alive, 64),
    {
        let mut count: u128 = 0;
        let mut i: u64 = 0;
        while i < 64
            invariant
                i <= 64,
                count == count64(self.alive, i as nat),
                count <= i,
            decreases 64 - i,
        {
            proof {
                lemma_bit_test(self.alive, i);
            }
            if self.alive & (1u64 << i) != 0 {
                count = count + 1;
            }
            i = i + 1;
        }
        count
    }

    /// `None` for a position inside the leaf; for a position outside it
    /// whose index `8 * (3 - y) + (3 - x)` is still a bit index, the cell
    /// of that bit.
    pub fn get_cell(&self, pos: Position) -> (cell: Option<Cell>)
        requires
            in_leaf(pos) || {
                &&& 0 <= leaf_index(pos) < 64
                &&& 3 - pos.x <= i64::MAX
                &&& i64::MIN <= 8 * (3 - pos.y) <= i64::MAX
            },
        ensures
            in_leaf(pos) ==> cell is None,
            !in_leaf(pos) ==> cell == Some(
                if bit64(self.alive, leaf_index(pos) as u64) {
                    Cell::Alive
                } else {
                    Cell::Dead
                },
            ),
    {
        if self.check_bounds(pos) {
            None
        } else {
            let index = self.pos_to_idx(pos);
            proof {
                lemma_bit_test(self.alive, index as u64);
            }
            if self.alive & (1u64 << index as u64) == 0 {
                Some(Cell::Dead)
            } else {
                Some(Cell::Alive)
            }
        }
    }
}

/// Testing bit `i` with a mask.
proof fn lemma_bit_test(v: u64, i: u64)
    requires
        i < 64,
    ensures
        (v & (1u64 << i) != 0) == bit64(v, i),
{
    assert((v & (1u64 << i) != 0) == bit64(v, i)) by (bit_vector)
        requires
            i < 64,
    ;
}

/// At most `64 - i` positions are listed from bit `i` on.
proof fn lemma_positions_len(alive: u64, i: int)
    requires
        0 <= i <= 64,
    ensures
        positions_from(alive, i).len() <= 64 - i,
    decreases 64 - i,
{
    if i < 64 {
        lemma_positions_len(alive, i + 1);
    }
}

/// An interior node: four children, a side length and a population.
#[derive(Clone, Copy, Debug, PartialEq, Eq)]
pub struct Branch {
    /// The children, northwest, northeast, southwest, southeast.
    pub children: Grid2<Id>,
    /// The side length.
    pub side_len: u64,
    /// The number of alive cells.
    pub population: u128,
}

/// A stored node.
#[derive(Clone, Copy, Debug, PartialEq, Eq)]
pub enum Node {
    /// An 8 by 8 leaf.
    Leaf(Leaf),
    /// An interior node.
    Branch(Branch),
}

/// The kinds of node.
#[derive(Clone, Copy, Debug, PartialEq, Eq, Structural)]
pub enum NodeKind {
    /// A leaf.
    Leaf,
    /// An interior node.
    Branch,
}

impl Node {
    /// The number of alive cells.
    pub fn population(&self) -> (population: u128)
        ensures
            population == (match *self {
                Node::Leaf(leaf) => count64(leaf.alive, 64) as int,
                Node::Branch(branch) => branch.population as int,
            }),
    {
        match self {
            Node::Leaf(leaf) => leaf.population(),
            Node::Branch(branch) => branch.population,
        }
    }

    /// The kind of the node.
    pub fn kind(&self) -> (kind: NodeKind)
        ensures
            kind == (match *self {
                Node::Leaf(_) => NodeKind::Leaf,
                Node::Branch(_) => NodeKind::Branch,
            }),
    {
        match self {
            Node::Leaf(_) => NodeKind::Leaf,
            Node::Branch(_) => NodeKind::Branch,
        }
    }
}

/// `id` is the top of a chain of `n` empty branches of side length 16,
/// each with four copies of the next, down to an empty leaf.
pub open spec fn empty_chain(nodes: Map<(usize, u64), Node>, id: Id, n: nat) -> bool
    decreases n,
{
    &&& nodes.dom().contains(id.key())
    &&& if n == 0 {
        nodes[id.key()] == Node::Leaf(Leaf { alive: 0 })
    } else {
        match nodes[id.key()] {
            Node::Branch(b) => {
                &&& b.population == 0
                &&& b.side_len == 2 * LEAF_SIDE_LEN
                &&& b.children.0@ == seq![b.children.0@[0], b.children.0@[0], b.children.0@[0], b.children.0@[0]]
                &&& empty_chain(nodes, b.children.0@[0], (n - 1) as nat)
            },
            Node::Leaf(_) => false,
        }
    }
}

/// A chain stays in place when a node is stored under a fresh key.
proof fn lemma_chain_grows(nodes: Map<(usize, u64), Node>, id: Id, n: nat, key: (usize, u64), node: Node)
    requires
        empty_chain(nodes, id, n),
        !nodes.dom().contains(key),
    ensures
        empty_chain(nodes.insert(key, node), id, n),
    decreases n,
{
    if n > 0 {
        match nodes[id.key()] {
            Node::Branch(b) => {
                lemma_chain_grows(nodes, b.children.0@[0], (n - 1) as nat, key, node);
            },
            Node::Leaf(_) => {},
        }
    }
}

/// A store of nodes and the rule they evolve by.
pub struct Store<R> {
    rule: R,
    nodes: NodeSlots,
}

impl<R> Store<R> {
    /// The stored nodes, by the slot and generation of their index.
    pub closed spec fn nodes(&self) -> Map<(usize, u64), Node> {
        stored_nodes(self.nodes)
    }

    /// An empty store for the given rule.
    pub fn new(rule: R) -> (store: Self)
        ensures
            store.nodes() == Map::<(usize, u64), Node>::empty(),
    {
        let nodes = new_node_slots();
        assert(stored_nodes(nodes) =~= Map::<(usize, u64), Node>::empty());
        Self { rule, nodes }
    }

    /// Stores an empty leaf and, on top of it, a branch for each side
    /// length from 16 up to `MAX_SIDE_LEN`, each with four copies of the
    /// one before; returns the topmost. Every branch records side length
    /// 16.
    pub fn init(&mut self) -> (id: Id)
        ensures
            empty_chain(final(self).nodes(), id, 61),
            forall|k: (usize, u64)| #[trigger] old(self).nodes().dom().contains(k) ==> final(self).nodes().dom().contains(k)
                && final(self).nodes()[k] == old(self).nodes()[k],
    {
        let ghost nodes0 = self.nodes();
        let empty_leaf = Leaf::new(0);
        let empty_leaf_id = Id::new(insert_node(&mut self.nodes, Node::Leaf(empty_leaf)));
        let mut empty_branch = Branch {
            children: Grid2::repeat(empty_leaf_id),
            side_len: LEAF_SIDE_LEN * 2,
            population: 0,
        };
        let mut id = empty_leaf_id;
        let mut side_len = LEAF_SIDE_LEN;
        let ghost mut k: nat = 0;
        proof {
            assert(crate::node::two_pow(3) == 8) by {
                reveal_with_fuel(crate::node::two_pow, 4);
            }
        }
        loop
            invariant
                k <= 60,
                nodes0 == old(self).nodes(),
                side_len == crate::node::two_pow(k + 3),
                empty_branch.side_len == 2 * LEAF_SIDE_LEN,
                empty_chain(self.nodes(), id, k),
                forall|q: (usize, u64)| #[trigger] nodes0.dom().contains(q) ==> self.nodes().dom().contains(q)
                    && self.nodes()[q] == nodes0[q],
            decreases 60 - k,
        {
            empty_branch = Branch {
                children: Grid2::repeat(id),
                side_len: empty_branch.side_len,
                population: 0,
            };
            let ghost before = self.nodes();
            let key = insert_node(&mut self.nodes, Node::Branch(empty_branch));
            proof {
                lemma_chain_grows(before, id, k, key, Node::Branch(empty_branch));
                assert forall|q: (usize, u64)| #[trigger] nodes0.dom().contains(q) implies self.nodes().dom().contains(q)
                    && self.nodes()[q] == nodes0[q] by {
                    assert(before.dom().contains(q));
                }
            }
            id = Id::new(key);
            proof {
                k = k + 1;
            }
            if side_len == MAX_SIDE_LEN {
                proof {
                    lemma_side_len_63(k);
                }
                return id;
            } else {
                proof {
                    lemma_side_len_step(k);
                }
                side_len = side_len * 2;
            }
        }
    }

    /// The node stored under the given identity, if there is one.
    pub fn get_node(&self, id: Id) -> (node: Option<Node>)
        ensures
            node == (if self.nodes().dom().contains(id.key()) {
                Some(self.nodes()[id.key()])
            } else {
                None
            }),
    {
        node_at(&self.nodes, (id.slot, id.generation))
    }

    /// Hands the node under `root_id` to the visitor of its kind; `None` if
    /// no node is stored under it.
    pub fn visit<B, F: Fn(B, Leaf) -> Option<B>, G: Fn(B, Branch) -> Option<B>>(
        &self,
        init: B,
        root_id: Id,
        visit_leaf: &F,
        visit_branch: &G,
    ) -> (r: Option<B>)
        requires
            forall|leaf: Leaf| visit_leaf.requires((init, leaf)),
            forall|branch: Branch| visit_branch.requires((init, branch)),
        ensures
            !self.nodes().dom().contains(root_id.key()) ==> r is None,
            self.nodes().dom().contains(root_id.key()) ==> match self.nodes()[root_id.key()] {
                Node::Leaf(leaf) => visit_leaf.ensures((init, leaf), r),
                Node::Branch(branch) => visit_branch.ensures((init, branch), r),
            },
    {
        let root = match self.get_node(root_id) {
            Some(node) => node,
            None => {
                return None;
            },
        };
        match root {
            Node::Leaf(leaf) => visit_leaf(init, leaf),
            Node::Branch(branch) => visit_branch(init, branch),
        }
    }
}

/// A chain of `k` branches over a leaf of side 8 tops out at side
/// `2^63` when `k` is 60, one short of the last step.
proof fn lemma_side_len_63(k: nat)
    requires
        crate::node::two_pow((k - 1 + 3) as nat) == 0x8000_0000_0000_0000,
        1 <= k <= 61,
    ensures
        k == 61,
{
    crate::node::cells::lemma_two_pow_62();
    assert(crate::node::two_pow(63) == 2 * crate::node::two_pow(62)) by {
        reveal_with_fuel(crate::node::two_pow, 2);
    }
    if k < 61 {
        crate::node::lemma_two_pow_monotonic((k + 2) as nat, 62);
    }
}

/// Below `2^63`, the next side length is still in range.
proof fn lemma_side_len_step(k: nat)
    requires
        1 <= k <= 61,
        crate::node::two_pow((k - 1 + 3) as nat) != 0x8000_0000_0000_0000,
    ensures
        k <= 60,
        crate::node::two_pow(k + 3) == 2 * crate::node::two_pow((k - 1 + 3) as nat),
        crate::node::two_pow(k + 3) <= 0x8000_0000_0000_0000,
{
    crate::node::cells::lemma_two_pow_62();
    assert(crate::node::two_pow(63) == 2 * crate::node::two_pow(62)) by {
        reveal_with_fuel(crate::node::two_pow, 2);
    }
    assert(crate::node::two_pow(k + 3) == 2 * crate::node::two_pow((k + 2) as nat)) by {
        reveal_with_fuel(crate::node::two_pow, 2);
    }
    if k == 61 {
        assert(crate::node::two_pow(63) == 0x8000_0000_0000_0000);
    }
    crate::node::lemma_two_pow_monotonic(k + 3, 63);
}

} // verus!
