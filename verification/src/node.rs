//! Quadtree nodes of a Life grid, the store that hash-conses them, and the
//! mathematical view of both.
//!
//! A node of level `n` is a square of `2^n` by `2^n` cells. Level 0 is a single
//! cell, level 1 a 2 by 2 square packed in a `u8`, level 2 a 4 by 4 square
//! packed in a `u16`; higher levels are interior nodes whose four quadrants are
//! nodes of the level below, kept in a [`Store`].
//!
//! For a node of level `n > 0`, cells are addressed by coordinates in
//! `-2^(n-1) ..= 2^(n-1) - 1`; a level 0 node has the single coordinate `0`.

pub mod cell_sets;
pub mod cells;
pub mod evolve;
pub mod store;
pub mod subregion;
pub mod table;

use vstd::prelude::*;

use crate::node::table::{node_table_contents, NodeTable};

verus! {

/// The highest level of a node: a level 64 node covers every `i64` position.
pub const MAX_LEVEL: u8 = 64;

/// Bit of a level one node holding its northwest cell (`00ab_00cd`: `a`).
pub const LEVEL_ONE_NW_MASK: u8 = 0b0010_0000;

/// Bit of a level one node holding its northeast cell (`00ab_00cd`: `b`).
pub const LEVEL_ONE_NE_MASK: u8 = 0b0001_0000;

/// Bit of a level one node holding its southwest cell (`00ab_00cd`: `c`).
pub const LEVEL_ONE_SW_MASK: u8 = 0b0000_0010;

/// Bit of a level one node holding its southeast cell (`00ab_00cd`: `d`).
pub const LEVEL_ONE_SE_MASK: u8 = 0b0000_0001;

/// All four cell bits of a level one node.
pub const LEVEL_ONE_MASK: u8 = 0b0011_0011;

/// The four quadrants of a node.
#[derive(Clone, Copy, Debug, PartialEq, Eq, Structural)]
pub enum Quadrant {
    /// The northwest quadrant.
    Northwest,
    /// The northeast quadrant.
    Northeast,
    /// The southwest quadrant.
    Southwest,
    /// The southeast quadrant.
    Southeast,
}

/// The level of a node: a level `n` node is `2^n` cells wide.
#[derive(Clone, Copy, Debug, PartialEq, Eq, Hash, PartialOrd, Ord, Structural)]
pub struct Level(pub u8);

/// The representation of a node.
#[derive(Clone, Copy, Debug, PartialEq, Eq, Structural)]
pub enum NodeBase {
    /// A single cell.
    Leaf { alive: bool },
    /// A 2 by 2 square, bits `00ab_00cd` for `a b / c d`.
    LevelOne { cells: u8 },
    /// A 4 by 4 square, bits `abcd_efgh_ijkl_mnop` read row by row; `index`
    /// is its place in the store.
    LevelTwo { cells: u16, index: usize },
    /// A node of level 3 or more: the places of its four quadrants in the
    /// store, and its own place.
    Interior { ne_index: usize, nw_index: usize, se_index: usize, sw_index: usize, index: usize },
}

/// An immutable quadtree node of a Life grid.
#[derive(Clone, Copy, Debug, PartialEq, Eq, Structural)]
pub struct Node {
    /// The level of the node: it is `2^level` cells wide.
    pub level: u8,
    /// How the cells of the node are held.
    pub base: NodeBase,
}

/// Nodes that have been created, and the results of evolving them.
pub struct Store {
    nodes: Vec<Node>,
    populations: Vec<u128>,
    indices: NodeTable,
    level_2_steps: NodeTable,
    steps: NodeTable,
}

/// `2^n`.
pub open spec fn two_pow(n: nat) -> int
    decreases n,
{
    if n == 0 {
        1
    } else {
        2 * two_pow((n - 1) as nat)
    }
}

/// The smallest coordinate of a node of the given level.
pub open spec fn min_coord_of(level: int) -> int {
    if level <= 0 {
        0
    } else {
        -two_pow((level - 1) as nat)
    }
}

/// The largest coordinate of a node of the given level.
pub open spec fn max_coord_of(level: int) -> int {
    if level <= 0 {
        0
    } else {
        two_pow((level - 1) as nat) - 1
    }
}

/// Whether `(x, y)` addresses a cell of a node of the given level.
pub open spec fn in_bounds(level: int, x: int, y: int) -> bool {
    &&& min_coord_of(level) <= x <= max_coord_of(level)
    &&& min_coord_of(level) <= y <= max_coord_of(level)
}

/// Bit `i` of a byte.
pub open spec fn bit8(c: u8, i: u8) -> bool {
    (c >> i) & 1u8 == 1u8
}

/// Bit `i` of a `u16`.
pub open spec fn bit16(c: u16, i: u16) -> bool {
    (c >> i) & 1u16 == 1u16
}

/// The bit of a level one node that holds the cell `(x, y)`, `x, y` in `-1..=0`.
pub open spec fn level_one_bit_index(x: int, y: int) -> u8 {
    if y < 0 {
        if x < 0 {
            5
        } else {
            4
        }
    } else {
        if x < 0 {
            1
        } else {
            0
        }
    }
}

/// The bit of a level two node that holds the cell `(x, y)`, `x, y` in `-2..=1`.
pub open spec fn level_two_bit_index(x: int, y: int) -> u16 {
    (15 - (4 * (y + 2) + (x + 2))) as u16
}

/// The number of set bits among the lowest `n` bits of a byte.
pub open spec fn count8(c: u8, n: nat) -> nat
    decreases n,
{
    if n == 0 {
        0
    } else {
        count8(c, (n - 1) as nat) + if bit8(c, (n - 1) as u8) {
            1nat
        } else {
            0nat
        }
    }
}

/// The number of set bits among the lowest `n` bits of a `u16`.
pub open spec fn count16(c: u16, n: nat) -> nat
    decreases n,
{
    if n == 0 {
        0
    } else {
        count16(c, (n - 1) as nat) + if bit16(c, (n - 1) as u16) {
            1nat
        } else {
            0nat
        }
    }
}

/// Only the four cell bits of a level one node are used.
pub open spec fn level_one_cells_ok(cells: u8) -> bool {
    cells & 0b1100_1100u8 == 0
}

/// The child at `c` of a level `level` node stored at `i`.
pub open spec fn child_ok(nodes: Seq<Node>, c: usize, i: int, level: u8) -> bool {
    &&& 0 <= c < i
    &&& nodes[c as int].level + 1 == level
}

/// The node stored at `i` is well formed: it knows its own place, and its
/// children come earlier in the store and are one level lower.
pub open spec fn stored_ok(nodes: Seq<Node>, i: int) -> bool {
    let n = nodes[i];
    match n.base {
        NodeBase::LevelTwo { index, .. } => n.level == 2 && index == i,
        NodeBase::Interior { ne_index, nw_index, se_index, sw_index, index } => {
            &&& 3 <= n.level <= MAX_LEVEL
            &&& index == i
            &&& child_ok(nodes, ne_index, i, n.level)
            &&& child_ok(nodes, nw_index, i, n.level)
            &&& child_ok(nodes, se_index, i, n.level)
            &&& child_ok(nodes, sw_index, i, n.level)
        },
        _ => false,
    }
}

/// Whether every stored node is well formed.
pub open spec fn nodes_ok(nodes: Seq<Node>) -> bool {
    forall|i: int| 0 <= i < nodes.len() ==> #[trigger] stored_ok(nodes, i)
}

/// Whether `n` is a node of the store whose contents are `nodes`.
pub open spec fn node_in(nodes: Seq<Node>, n: Node) -> bool {
    match n.base {
        NodeBase::Leaf { .. } => n.level == 0,
        NodeBase::LevelOne { cells } => n.level == 1 && level_one_cells_ok(cells),
        NodeBase::LevelTwo { index, .. } => index < nodes.len() && nodes[index as int] == n,
        NodeBase::Interior { index, .. } => index < nodes.len() && nodes[index as int] == n,
    }
}

/// Whether the cell `(x, y)` of `n` is alive, coordinates relative to the
/// center of `n`.
pub open spec fn cell_of(nodes: Seq<Node>, n: Node, x: int, y: int) -> bool
    decreases n.level,
{
    match n.base {
        NodeBase::Leaf { alive } => alive,
        NodeBase::LevelOne { cells } => bit8(cells, level_one_bit_index(x, y)),
        NodeBase::LevelTwo { cells, .. } => bit16(cells, level_two_bit_index(x, y)),
        NodeBase::Interior { ne_index, nw_index, se_index, sw_index, .. } => {
            let q = two_pow((n.level - 2) as nat);
            if x < 0 && y < 0 {
                if nw_index < nodes.len() && nodes[nw_index as int].level < n.level {
                    cell_of(nodes, nodes[nw_index as int], x + q, y + q)
                } else {
                    false
                }
            } else if x >= 0 && y < 0 {
                if ne_index < nodes.len() && nodes[ne_index as int].level < n.level {
                    cell_of(nodes, nodes[ne_index as int], x - q, y + q)
                } else {
                    false
                }
            } else if x < 0 && y >= 0 {
                if sw_index < nodes.len() && nodes[sw_index as int].level < n.level {
                    cell_of(nodes, nodes[sw_index as int], x + q, y - q)
                } else {
                    false
                }
            } else {
                if se_index < nodes.len() && nodes[se_index as int].level < n.level {
                    cell_of(nodes, nodes[se_index as int], x - q, y - q)
                } else {
                    false
                }
            }
        },
    }
}

/// The number of alive cells of `n`.
pub open spec fn pop_of(nodes: Seq<Node>, n: Node) -> nat
    decreases n.level,
{
    match n.base {
        NodeBase::Leaf { alive } => if alive {
            1
        } else {
            0
        },
        NodeBase::LevelOne { cells } => count8(cells, 8),
        NodeBase::LevelTwo { cells, .. } => count16(cells, 16),
        NodeBase::Interior { ne_index, nw_index, se_index, sw_index, .. } => {
            let ne = if ne_index < nodes.len() && nodes[ne_index as int].level < n.level {
                pop_of(nodes, nodes[ne_index as int])
            } else {
                0
            };
            let nw = if nw_index < nodes.len() && nodes[nw_index as int].level < n.level {
                pop_of(nodes, nodes[nw_index as int])
            } else {
                0
            };
            let se = if se_index < nodes.len() && nodes[se_index as int].level < n.level {
                pop_of(nodes, nodes[se_index as int])
            } else {
                0
            };
            let sw = if sw_index < nodes.len() && nodes[sw_index as int].level < n.level {
                pop_of(nodes, nodes[sw_index as int])
            } else {
                0
            };
            ne + nw + se + sw
        },
    }
}

/// The shift from the coordinates of a level `level` node to those of its
/// quadrants (a level 1 node's quadrants are single cells, which ignore it).
pub open spec fn quarter(level: int) -> int {
    if level >= 2 {
        two_pow((level - 2) as nat)
    } else {
        1
    }
}

/// The cell `(x, y)` of a level `level` node whose quadrants are given (the
/// quadrants of a level one node are single cells, at coordinate `0`).
pub open spec fn quad_cell(
    nodes: Seq<Node>,
    nw: Node,
    ne: Node,
    sw: Node,
    se: Node,
    level: int,
    x: int,
    y: int,
) -> bool {
    if level <= 1 {
        if x < 0 && y < 0 {
            cell_of(nodes, nw, 0, 0)
        } else if x >= 0 && y < 0 {
            cell_of(nodes, ne, 0, 0)
        } else if x < 0 && y >= 0 {
            cell_of(nodes, sw, 0, 0)
        } else {
            cell_of(nodes, se, 0, 0)
        }
    } else {
        let q = quarter(level);
        if x < 0 && y < 0 {
            cell_of(nodes, nw, x + q, y + q)
        } else if x >= 0 && y < 0 {
            cell_of(nodes, ne, x - q, y + q)
        } else if x < 0 && y >= 0 {
            cell_of(nodes, sw, x + q, y - q)
        } else {
            cell_of(nodes, se, x - q, y - q)
        }
    }
}

/// `new` keeps the nodes of `old` in their places.
pub open spec fn extends(old: Seq<Node>, new: Seq<Node>) -> bool {
    &&& old.len() <= new.len()
    &&& forall|i: int| 0 <= i < old.len() ==> #[trigger] new[i] == old[i]
}

/// The representation of `n` fits its level.
pub open spec fn shape_ok(n: Node) -> bool {
    match n.base {
        NodeBase::Leaf { .. } => n.level == 0,
        NodeBase::LevelOne { cells } => n.level == 1 && level_one_cells_ok(cells),
        NodeBase::LevelTwo { .. } => n.level == 2,
        NodeBase::Interior { .. } => 3 <= n.level <= MAX_LEVEL,
    }
}

/// The key under which a stored node is found in the index table.
pub open spec fn key_of(n: Node) -> (u8, u64, u64, u64, u64) {
    match n.base {
        NodeBase::LevelTwo { cells, .. } => (2u8, cells as u64, 0u64, 0u64, 0u64),
        NodeBase::Interior { ne_index, nw_index, se_index, sw_index, .. } => (
            n.level,
            ne_index as u64,
            nw_index as u64,
            se_index as u64,
            sw_index as u64,
        ),
        _ => (n.level, 0u64, 0u64, 0u64, 0u64),
    }
}

/// The place of a stored node.
pub open spec fn index_of(n: Node) -> usize {
    match n.base {
        NodeBase::LevelTwo { index, .. } => index,
        NodeBase::Interior { index, .. } => index,
        _ => 0,
    }
}

/// The key under which the next generation of a stored level two node is
/// cached.
pub open spec fn level_two_step_key(index: usize) -> (u8, u64, u64, u64, u64) {
    (2u8, index as u64, 0u64, 0u64, 0u64)
}

/// The key under which the center of a stored node `steps` generations later
/// is cached.
pub open spec fn step_key(index: usize, steps: u64) -> (u8, u64, u64, u64, u64) {
    (0u8, index as u64, steps, 0u64, 0u64)
}

/// The cells of `n`, everything outside it dead.
pub open spec fn grid_of(nodes: Seq<Node>, n: Node) -> spec_fn(int, int) -> bool {
    |x: int, y: int| in_bounds(n.level as int, x, y) && cell_of(nodes, n, x, y)
}

/// 1 if the cell is alive, else 0.
pub open spec fn alive_count(g: spec_fn(int, int) -> bool, x: int, y: int) -> int {
    if g(x, y) {
        1
    } else {
        0
    }
}

/// The number of alive cells among the eight neighbours of `(x, y)`.
pub open spec fn neighbours(g: spec_fn(int, int) -> bool, x: int, y: int) -> int {
    alive_count(g, x - 1, y - 1) + alive_count(g, x, y - 1) + alive_count(g, x + 1, y - 1)
        + alive_count(g, x - 1, y) + alive_count(g, x + 1, y) + alive_count(g, x - 1, y + 1)
        + alive_count(g, x, y + 1) + alive_count(g, x + 1, y + 1)
}

/// Conway's rule: a cell is alive in the next generation if it has three
/// alive neighbours, or two and is alive itself.
pub open spec fn life_rule(alive: bool, neighbours: int) -> bool {
    neighbours == 3 || (neighbours == 2 && alive)
}

/// The next generation of a grid under Conway's rule.
pub open spec fn next_generation(g: spec_fn(int, int) -> bool) -> spec_fn(int, int) -> bool {
    |x: int, y: int| life_rule(g(x, y), neighbours(g, x, y))
}

/// A grid `t` generations later.
pub open spec fn evolve(g: spec_fn(int, int) -> bool, t: nat) -> spec_fn(int, int) -> bool
    decreases t,
{
    if t == 0 {
        g
    } else {
        next_generation(evolve(g, (t - 1) as nat))
    }
}

/// `r` is the center half of `n` after `t` generations: one level lower, and
/// each of its cells is that cell of the whole grid of `n` `t` generations
/// later.
pub open spec fn advanced(nodes: Seq<Node>, n: Node, r: Node, t: nat) -> bool {
    &&& node_in(nodes, r)
    &&& r.level + 1 == n.level
    &&& forall|x: int, y: int|
        in_bounds(r.level as int, x, y) ==> #[trigger] cell_of(nodes, r, x, y) == evolve(
            grid_of(nodes, n),
            t,
        )(x, y)
}

impl Store {
    /// The nodes kept by the store, in the order they were created.
    pub closed spec fn nodes(&self) -> Seq<Node> {
        self.nodes@
    }

    /// Whether `n` belongs to this store.
    #[verifier::inline]
    pub open spec fn valid(&self, n: Node) -> bool {
        node_in(self.nodes(), n)
    }

    /// Whether the cell `(x, y)` of `n` is alive.
    #[verifier::inline]
    pub open spec fn cell(&self, n: Node, x: int, y: int) -> bool {
        cell_of(self.nodes(), n, x, y)
    }

    /// Whether the cell `(x, y)` is alive, with everything outside `n` dead.
    #[verifier::inline]
    pub open spec fn alive_at(&self, n: Node, x: int, y: int) -> bool {
        in_bounds(n.level as int, x, y) && self.cell(n, x, y)
    }

    /// The number of alive cells of `n`.
    #[verifier::inline]
    pub open spec fn pop(&self, n: Node) -> nat {
        pop_of(self.nodes(), n)
    }

    /// Nodes added to a store leave the nodes already there as they were.
    pub proof fn lemma_grows(&self, new: &Store, n: Node)
        requires
            self.wf(),
            self.valid(n),
            extends(self.nodes(), new.nodes()),
        ensures
            new.valid(n),
            new.pop(n) == self.pop(n),
            forall|x: int, y: int| #[trigger] new.cell(n, x, y) == self.cell(n, x, y),
    {
        lemma_extends(self.nodes@, new.nodes@, n);
    }

    /// The center of `n` `t` generations later, if it is cached.
    pub closed spec fn cached_step(&self, n: Node, t: u64) -> Option<Node> {
        let table = node_table_contents(self.steps);
        let k = step_key(index_of(n), t);
        if table.dom().contains(k) {
            Some(table[k])
        } else {
            None
        }
    }

    /// The next generation of the center of the level two node `n`, if it
    /// is cached.
    pub closed spec fn cached_level_2_step(&self, n: Node) -> Option<Node> {
        let table = node_table_contents(self.level_2_steps);
        let k = level_two_step_key(index_of(n));
        if table.dom().contains(k) {
            Some(table[k])
        } else {
            None
        }
    }

    /// The nodes of a well formed store are well formed.
    pub proof fn lemma_wf(&self)
        requires
            self.wf(),
        ensures
            nodes_ok(self.nodes()),
    {
    }

    /// Whether the store's tables agree with its nodes.
    pub closed spec fn wf(&self) -> bool {
        let nodes = self.nodes@;
        let table = node_table_contents(self.indices);
        let level_2_steps = node_table_contents(self.level_2_steps);
        let steps = node_table_contents(self.steps);
        &&& nodes_ok(nodes)
        &&& self.populations@.len() == nodes.len()
        &&& forall|i: int|
            0 <= i < nodes.len() ==> #[trigger] self.populations@[i] == pop_of(nodes, nodes[i])
        &&& forall|i: int|
            0 <= i < nodes.len() ==> #[trigger] table.dom().contains(key_of(nodes[i]))
                && table[key_of(nodes[i])] == nodes[i]
        &&& forall|k: (u8, u64, u64, u64, u64)| #[trigger]
            table.dom().contains(k) ==> node_in(nodes, table[k]) && table[k].level >= 2
                && key_of(table[k]) == k
        &&& forall|k: (u8, u64, u64, u64, u64)| #[trigger]
            level_2_steps.dom().contains(k) ==> k.1 < nodes.len() && k == level_two_step_key(
                k.1 as usize,
            ) && nodes[k.1 as int].level == 2 && advanced(
                nodes,
                nodes[k.1 as int],
                level_2_steps[k],
                1,
            )
        &&& forall|k: (u8, u64, u64, u64, u64)| #[trigger]
            steps.dom().contains(k) ==> k.1 < nodes.len() && k == step_key(k.1 as usize, k.2)
                && nodes[k.1 as int].level >= 2 && advanced(
                nodes,
                nodes[k.1 as int],
                steps[k],
                k.2 as nat,
            )
    }
}

/// The quadrants of a node of level 2 or more are half as wide, and the
/// coordinates of a cell in a quadrant are those of the quadrant.
pub proof fn lemma_quarter(level: int)
    requires
        2 <= level <= 64,
    ensures
        quarter(level) >= 1,
        two_pow((level - 1) as nat) == 2 * quarter(level),
        min_coord_of(level) == -2 * quarter(level),
        max_coord_of(level) == 2 * quarter(level) - 1,
        min_coord_of(level - 1) == -quarter(level),
        max_coord_of(level - 1) == quarter(level) - 1,
{
    lemma_two_pow_pos((level - 2) as nat);
}

/// `2^n` is positive.
pub proof fn lemma_two_pow_pos(n: nat)
    ensures
        two_pow(n) >= 1,
    decreases n,
{
    if n > 0 {
        lemma_two_pow_pos((n - 1) as nat);
    }
}

/// The population of a node is at most the number of its cells.
pub proof fn lemma_pop_bound(nodes: Seq<Node>, n: Node)
    requires
        nodes_ok(nodes),
        node_in(nodes, n),
    ensures
        pop_of(nodes, n) <= two_pow(2 * n.level as nat),
    decreases n.level,
{
    lemma_stored(nodes, n);
    match n.base {
        NodeBase::Leaf { alive } => {
            assert(two_pow(0) == 1);
        },
        NodeBase::LevelOne { cells } => {
            crate::node::store::lemma_count8(cells);
            reveal_with_fuel(two_pow, 3);
        },
        NodeBase::LevelTwo { cells, .. } => {
            lemma_count16_bound(cells, 16);
            reveal_with_fuel(two_pow, 5);
        },
        NodeBase::Interior { ne_index, nw_index, se_index, sw_index, .. } => {
            lemma_children(nodes, n);
            lemma_pop_bound(nodes, nodes[ne_index as int]);
            lemma_pop_bound(nodes, nodes[nw_index as int]);
            lemma_pop_bound(nodes, nodes[se_index as int]);
            lemma_pop_bound(nodes, nodes[sw_index as int]);
            let k = (2 * (n.level - 1)) as nat;
            assert(two_pow(k + 2) == 4 * two_pow(k)) by {
                reveal_with_fuel(two_pow, 3);
            }
            assert(2 * n.level as nat == k + 2);
        },
    }
}

/// At most `n` of the lowest `n` bits are set.
pub proof fn lemma_count8_bound(c: u8, n: nat)
    ensures
        count8(c, n) <= n,
    decreases n,
{
    if n > 0 {
        lemma_count8_bound(c, (n - 1) as nat);
    }
}

/// At most `n` of the lowest `n` bits are set.
pub proof fn lemma_count16_bound(c: u16, n: nat)
    ensures
        count16(c, n) <= n,
    decreases n,
{
    if n > 0 {
        lemma_count16_bound(c, (n - 1) as nat);
    }
}

/// `2^n` grows with `n`.
pub proof fn lemma_two_pow_monotonic(a: nat, b: nat)
    requires
        a <= b,
    ensures
        two_pow(a) <= two_pow(b),
    decreases b,
{
    if a < b {
        lemma_two_pow_monotonic(a, (b - 1) as nat);
        lemma_two_pow_pos((b - 1) as nat);
    }
}

/// Four nodes of level 62 or less have fewer than `2^128` alive cells in all.
pub proof fn lemma_small_pops(nodes: Seq<Node>, a: Node, b: Node, c: Node, d: Node)
    requires
        nodes_ok(nodes),
        node_in(nodes, a),
        node_in(nodes, b),
        node_in(nodes, c),
        node_in(nodes, d),
        a.level <= 62,
        b.level <= 62,
        c.level <= 62,
        d.level <= 62,
    ensures
        pop_of(nodes, a) + pop_of(nodes, b) + pop_of(nodes, c) + pop_of(nodes, d) <= u128::MAX,
{
    lemma_pop_bound(nodes, a);
    lemma_pop_bound(nodes, b);
    lemma_pop_bound(nodes, c);
    lemma_pop_bound(nodes, d);
    lemma_two_pow_monotonic(2 * a.level as nat, 124);
    lemma_two_pow_monotonic(2 * b.level as nat, 124);
    lemma_two_pow_monotonic(2 * c.level as nat, 124);
    lemma_two_pow_monotonic(2 * d.level as nat, 124);
    lemma_two_pow_u128(126);
    assert(two_pow(126) == 4 * two_pow(124)) by {
        reveal_with_fuel(two_pow, 3);
    }
}

/// `2^k` as a shift of a `u128`.
pub proof fn lemma_two_pow_u128(k: nat)
    requires
        k < 128,
    ensures
        two_pow(k) == (1u128 << (k as u128)),
    decreases k,
{
    if k == 0 {
        assert(1u128 << 0u128 == 1u128) by (bit_vector);
    } else {
        lemma_two_pow_u128((k - 1) as nat);
        let j = (k - 1) as u128;
        assert((1u128 << ((j + 1) as u128)) == 2 * (1u128 << j)) by (bit_vector)
            requires
                j < 127,
        ;
    }
}

/// `2^k` as a shift of a `u64`.
pub proof fn lemma_two_pow_u64(k: nat)
    requires
        k < 64,
    ensures
        two_pow(k) == (1u64 << (k as u64)),
    decreases k,
{
    if k == 0 {
        assert(1u64 << 0u64 == 1u64) by (bit_vector);
    } else {
        lemma_two_pow_u64((k - 1) as nat);
        let j = (k - 1) as u64;
        assert((1u64 << ((j + 1) as u64)) == 2 * (1u64 << j)) by (bit_vector)
            requires
                j < 63,
        ;
    }
}

/// Every stored node belongs to the store.
pub proof fn lemma_index_node_in(nodes: Seq<Node>, i: int)
    requires
        nodes_ok(nodes),
        0 <= i < nodes.len(),
    ensures
        node_in(nodes, nodes[i]),
        nodes[i].level >= 2,
        index_of(nodes[i]) == i,
{
    assert(stored_ok(nodes, i));
}

/// A stored node is well formed.
pub proof fn lemma_stored(nodes: Seq<Node>, n: Node)
    requires
        nodes_ok(nodes),
        node_in(nodes, n),
    ensures
        shape_ok(n),
        n.level >= 2 ==> stored_ok(nodes, index_of(n) as int) && nodes[index_of(n) as int] == n,
        n.level <= MAX_LEVEL,
{
    match n.base {
        NodeBase::LevelTwo { index, .. } => {
            assert(stored_ok(nodes, index as int));
        },
        NodeBase::Interior { index, .. } => {
            assert(stored_ok(nodes, index as int));
        },
        _ => {},
    }
}

/// The quadrants of a stored interior node are stored nodes one level lower.
pub proof fn lemma_children(nodes: Seq<Node>, n: Node)
    requires
        nodes_ok(nodes),
        node_in(nodes, n),
        n.level >= 3,
    ensures
        match n.base {
            NodeBase::Interior { ne_index, nw_index, se_index, sw_index, index } => {
                &&& node_in(nodes, nodes[ne_index as int])
                &&& node_in(nodes, nodes[nw_index as int])
                &&& node_in(nodes, nodes[se_index as int])
                &&& node_in(nodes, nodes[sw_index as int])
                &&& nodes[ne_index as int].level + 1 == n.level
                &&& nodes[nw_index as int].level + 1 == n.level
                &&& nodes[se_index as int].level + 1 == n.level
                &&& nodes[sw_index as int].level + 1 == n.level
                &&& ne_index < index && nw_index < index && se_index < index && sw_index < index
                &&& index < nodes.len()
                &&& forall|x: int, y: int|
                    #[trigger] cell_of(nodes, n, x, y) == quad_cell(
                        nodes,
                        nodes[nw_index as int],
                        nodes[ne_index as int],
                        nodes[sw_index as int],
                        nodes[se_index as int],
                        n.level as int,
                        x,
                        y,
                    )
                &&& pop_of(nodes, n) == pop_of(nodes, nodes[ne_index as int]) + pop_of(
                    nodes,
                    nodes[nw_index as int],
                ) + pop_of(nodes, nodes[se_index as int]) + pop_of(nodes, nodes[sw_index as int])
            },
            _ => false,
        },
{
    lemma_stored(nodes, n);
    match n.base {
        NodeBase::Interior { ne_index, nw_index, se_index, sw_index, index } => {
            assert(stored_ok(nodes, ne_index as int));
            assert(stored_ok(nodes, nw_index as int));
            assert(stored_ok(nodes, se_index as int));
            assert(stored_ok(nodes, sw_index as int));
        },
        _ => {},
    }
}

/// Appending nodes to a store changes nothing about the nodes already there.
pub proof fn lemma_extends(old: Seq<Node>, new: Seq<Node>, n: Node)
    requires
        nodes_ok(old),
        extends(old, new),
        node_in(old, n),
    ensures
        node_in(new, n),
        pop_of(new, n) == pop_of(old, n),
        forall|x: int, y: int| #[trigger] cell_of(new, n, x, y) == cell_of(old, n, x, y),
        grid_of(new, n) == grid_of(old, n),
    decreases n.level,
{
    lemma_stored(old, n);
    match n.base {
        NodeBase::Interior { ne_index, nw_index, se_index, sw_index, index } => {
            lemma_children(old, n);
            assert(new[ne_index as int] == old[ne_index as int]);
            assert(new[nw_index as int] == old[nw_index as int]);
            assert(new[se_index as int] == old[se_index as int]);
            assert(new[sw_index as int] == old[sw_index as int]);
            lemma_extends(old, new, old[ne_index as int]);
            lemma_extends(old, new, old[nw_index as int]);
            lemma_extends(old, new, old[se_index as int]);
            lemma_extends(old, new, old[sw_index as int]);
            assert(new[index as int] == old[index as int]);
            assert forall|x: int, y: int| #[trigger]
                cell_of(new, n, x, y) == cell_of(old, n, x, y) by {
                let q = two_pow((n.level - 2) as nat);
                assert(cell_of(new, old[nw_index as int], x + q, y + q) == cell_of(old, old[nw_index as int], x + q, y + q));
                assert(cell_of(new, old[ne_index as int], x - q, y + q) == cell_of(old, old[ne_index as int], x - q, y + q));
                assert(cell_of(new, old[sw_index as int], x + q, y - q) == cell_of(old, old[sw_index as int], x + q, y - q));
                assert(cell_of(new, old[se_index as int], x - q, y - q) == cell_of(old, old[se_index as int], x - q, y - q));
            }
        },
        NodeBase::LevelTwo { index, .. } => {
            assert(new[index as int] == old[index as int]);
        },
        _ => {},
    }
    assert forall|x: int, y: int| #[trigger] grid_of(new, n)(x, y) == grid_of(old, n)(x, y) by {
        assert(cell_of(new, n, x, y) == cell_of(old, n, x, y));
    }
    assert(grid_of(new, n) =~= grid_of(old, n));
}

/// What `advanced` says of stored nodes still holds when nodes are appended.
pub proof fn lemma_extends_advanced(old: Seq<Node>, new: Seq<Node>, n: Node, r: Node, t: nat)
    requires
        nodes_ok(old),
        extends(old, new),
        node_in(old, n),
        advanced(old, n, r, t),
    ensures
        advanced(new, n, r, t),
{
    lemma_extends(old, new, n);
    lemma_extends(old, new, r);
}

/// Nodes with the same key have the same cells and population.
pub proof fn lemma_same_key(nodes: Seq<Node>, a: Node, b: Node)
    requires
        shape_ok(a),
        shape_ok(b),
        a.level >= 2,
        b.level >= 2,
        key_of(a) == key_of(b),
    ensures
        a.level == b.level,
        pop_of(nodes, a) == pop_of(nodes, b),
        forall|x: int, y: int| #[trigger] cell_of(nodes, a, x, y) == cell_of(nodes, b, x, y),
{
    match (a.base, b.base) {
        (NodeBase::Interior { .. }, NodeBase::Interior { .. }) => {},
        (NodeBase::LevelTwo { .. }, NodeBase::LevelTwo { .. }) => {},
        _ => {},
    }
}

} // verus!
