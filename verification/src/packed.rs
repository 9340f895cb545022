//! A quadtree whose leaves are 16 by 16 squares of cells held as sixteen
//! rows of bits; equal nodes are stored once, and nodes refer to their
//! children by index.

pub mod cells;
pub mod region;

use vstd::prelude::*;

use crate::node::cells::{lemma_coords_fit, pow2_i64};
use crate::node::store::count_ones_u16;
use crate::node::{
    bit16, count16, in_bounds, lemma_count16_bound, lemma_quarter, lemma_two_pow_monotonic,
    lemma_two_pow_pos, lemma_two_pow_u128, max_coord_of, min_coord_of, quarter, two_pow, Level,
};

verus! {

/// A map from tuples of integers to node indices, kept in a `hashbrown`
/// map.
#[verifier::external_body]
pub struct IdTable {
    map: hashbrown::HashMap<(u8, u64, u64, u64, u64), usize>,
}

/// What an [`IdTable`] holds.
pub uninterp spec fn id_table_contents(t: IdTable) -> Map<(u8, u64, u64, u64, u64), usize>;

impl IdTable {
    /// An empty table, from `hashbrown::HashMap::new`: it holds nothing.
    #[verifier::external_body]
    pub fn new() -> (table: IdTable)
        ensures
            id_table_contents(table).dom().is_empty(),
    {
        IdTable { map: hashbrown::HashMap::new() }
    }

    /// Looks a key up with `hashbrown::HashMap::get`: the index stored under
    /// the key, if there is one.
    #[verifier::external_body]
    pub fn get(&self, key: (u8, u64, u64, u64, u64)) -> (r: Option<usize>)
        ensures
            r == (if id_table_contents(*self).dom().contains(key) {
                Some(id_table_contents(*self)[key])
            } else {
                None
            }),
    {
        self.map.get(&key).copied()
    }

    /// Stores an index under a key with `hashbrown::HashMap::insert`, which
    /// replaces whatever the key held and leaves the other keys alone.
    #[verifier::external_body]
    pub fn insert(&mut self, key: (u8, u64, u64, u64, u64), value: usize)
        ensures
            id_table_contents(*final(self)) == id_table_contents(*old(self)).insert(key, value),
    {
        self.map.insert(key, value);
    }
}

/// The place of a node in its store.
#[derive(Clone, Copy, Debug, PartialEq, Eq, Hash, Structural)]
pub struct Index(pub usize);

/// A node of a store, by its place.
#[derive(Clone, Copy, Debug, PartialEq, Eq, Hash, Structural)]
pub struct NodeId {
    index: Index,
}

impl NodeId {
    /// The place of the node.
    pub closed spec fn at(&self) -> int {
        self.index.0 as int
    }
}

/// A node: a 16 by 16 leaf, or four children one level lower.
#[derive(Clone, Copy, Debug, PartialEq, Eq, Hash)]
pub enum Node {
    /// A level 4 leaf: row `y + 8` holds the cells of row `y`, bit `7 - x`
    /// the cell `(x, y)`, for `x, y` in `-8..=7`.
    Leaf {
        /// The rows of cells.
        grid: [u16; 16],
    },
    /// A node of level 5 or more.
    Interior {
        /// The northwest child.
        nw: NodeId,
        /// The northeast child.
        ne: NodeId,
        /// The southwest child.
        sw: NodeId,
        /// The southeast child.
        se: NodeId,
        /// The level of the node.
        level: Level,
        /// The number of alive cells.
        population: u128,
    },
}

/// The four children of a node to be created.
pub struct NodeTemplate {
    /// The northwest child.
    pub nw: NodeId,
    /// The northeast child.
    pub ne: NodeId,
    /// The southwest child.
    pub sw: NodeId,
    /// The southeast child.
    pub se: NodeId,
}

/// The highest level of a node: a level 64 node covers every `i64` position.
pub const MAX_LEVEL: u8 = 64;

/// The level of a node.
pub open spec fn level_of(n: Node) -> int {
    match n {
        Node::Leaf { .. } => 4,
        Node::Interior { level, .. } => level.0 as int,
    }
}

/// The level of the node stored at `i`, or 0 if none is.
pub open spec fn level_at(nodes: Seq<Node>, i: int) -> int {
    if 0 <= i < nodes.len() {
        level_of(nodes[i])
    } else {
        0
    }
}

/// The cell `(x, y)` of a leaf's rows.
pub open spec fn grid_cell(grid: Seq<u16>, x: int, y: int) -> bool {
    -8 <= x <= 7 && -8 <= y <= 7 && bit16(grid[y + 8], (7 - x) as u16)
}

/// Whether the cell `(x, y)` of the node stored at `i` is alive,
/// coordinates relative to its center.
pub open spec fn cell_at(nodes: Seq<Node>, i: int, x: int, y: int) -> bool
    decreases level_at(nodes, i),
{
    if 0 <= i < nodes.len() {
        match nodes[i] {
            Node::Leaf { grid } => grid_cell(grid@, x, y),
            Node::Interior { nw, ne, sw, se, level, .. } => {
                let q = quarter(level.0 as int);
                let (c, dx, dy) = if x < 0 && y < 0 {
                    (nw, q, q)
                } else if y < 0 {
                    (ne, -q, q)
                } else if x < 0 {
                    (sw, q, -q)
                } else {
                    (se, -q, -q)
                };
                if level_at(nodes, c.at()) < level_at(nodes, i) {
                    cell_at(nodes, c.at(), x + dx, y + dy)
                } else {
                    false
                }
            },
        }
    } else {
        false
    }
}

/// The cell `(x, y)` of a node of the given level made of four children.
pub open spec fn quad_cell(
    nodes: Seq<Node>,
    nw: NodeId,
    ne: NodeId,
    sw: NodeId,
    se: NodeId,
    level: int,
    x: int,
    y: int,
) -> bool {
    let q = quarter(level);
    if x < 0 && y < 0 {
        cell_at(nodes, nw.at(), x + q, y + q)
    } else if y < 0 {
        cell_at(nodes, ne.at(), x - q, y + q)
    } else if x < 0 {
        cell_at(nodes, sw.at(), x + q, y - q)
    } else {
        cell_at(nodes, se.at(), x - q, y - q)
    }
}

/// The number of alive cells among the first `n` rows of a leaf.
pub open spec fn grid_population(grid: Seq<u16>, n: nat) -> nat
    decreases n,
{
    if n == 0 {
        0
    } else {
        grid_population(grid, (n - 1) as nat) + count16(grid[n - 1], 16)
    }
}

/// The number of alive cells of the node stored at `i`.
pub open spec fn pop_at(nodes: Seq<Node>, i: int) -> nat
    decreases level_at(nodes, i),
{
    if 0 <= i < nodes.len() {
        match nodes[i] {
            Node::Leaf { grid } => grid_population(grid@, 16),
            Node::Interior { nw, ne, sw, se, .. } => {
                (if level_at(nodes, nw.at()) < level_at(nodes, i) { pop_at(nodes, nw.at()) } else { 0 })
                    + (if level_at(nodes, ne.at()) < level_at(nodes, i) { pop_at(nodes, ne.at()) } else { 0 })
                    + (if level_at(nodes, sw.at()) < level_at(nodes, i) { pop_at(nodes, sw.at()) } else { 0 })
                    + (if level_at(nodes, se.at()) < level_at(nodes, i) { pop_at(nodes, se.at()) } else { 0 })
            },
        }
    } else {
        0
    }
}

/// A child of the node stored at `i`, of level `level`.
pub open spec fn child_ok(nodes: Seq<Node>, c: NodeId, i: int, level: int) -> bool {
    &&& 0 <= c.at() < i
    &&& level_of(nodes[c.at()]) + 1 == level
}

/// The node stored at `i` is well formed: its children come earlier and
/// are one level lower, and it counts their cells.
pub open spec fn stored_ok(nodes: Seq<Node>, i: int) -> bool {
    match nodes[i] {
        Node::Leaf { .. } => true,
        Node::Interior { nw, ne, sw, se, level, population } => {
            &&& 5 <= level.0 <= MAX_LEVEL
            &&& child_ok(nodes, nw, i, level.0 as int)
            &&& child_ok(nodes, ne, i, level.0 as int)
            &&& child_ok(nodes, sw, i, level.0 as int)
            &&& child_ok(nodes, se, i, level.0 as int)
            &&& population == pop_at(nodes, i)
        },
    }
}

/// Whether every stored node is well formed.
pub open spec fn nodes_ok(nodes: Seq<Node>) -> bool {
    forall|i: int| 0 <= i < nodes.len() ==> #[trigger] stored_ok(nodes, i)
}

/// `new` holds the nodes of `old` at their places, and maybe more after them.
pub open spec fn grows(old: Seq<Node>, new: Seq<Node>) -> bool {
    &&& old.len() <= new.len()
    &&& forall|i: int| 0 <= i < old.len() ==> #[trigger] new[i] == old[i]
}

/// Four rows of a leaf packed in a word, the first in the low bits.
pub open spec fn pack4(a: u16, b: u16, c: u16, d: u16) -> u64 {
    (a as u64) | ((b as u64) << 16u64) | ((c as u64) << 32u64) | ((d as u64) << 48u64)
}

/// The key a node is found under: its rows for a leaf, its level and the
/// places of its children for an interior node.
pub open spec fn key_of(n: Node) -> (u8, u64, u64, u64, u64) {
    match n {
        Node::Leaf { grid } => (
            0u8,
            pack4(grid@[0], grid@[1], grid@[2], grid@[3]),
            pack4(grid@[4], grid@[5], grid@[6], grid@[7]),
            pack4(grid@[8], grid@[9], grid@[10], grid@[11]),
            pack4(grid@[12], grid@[13], grid@[14], grid@[15]),
        ),
        Node::Interior { nw, ne, sw, se, level, .. } => (
            level.0,
            nw.at() as u64,
            ne.at() as u64,
            sw.at() as u64,
            se.at() as u64,
        ),
    }
}

/// Packing four rows loses none of them.
proof fn lemma_pack4(a: u16, b: u16, c: u16, d: u16, e: u16, f: u16, g: u16, h: u16)
    by (bit_vector)
    requires
        pack4(a, b, c, d) == pack4(e, f, g, h),
    ensures
        a == e && b == f && c == g && d == h,
{
}

/// The cells and the population of a stored interior node are those of its
/// children, which are stored nodes one level lower.
pub proof fn lemma_interior(nodes: Seq<Node>, i: int)
    requires
        nodes_ok(nodes),
        0 <= i < nodes.len(),
        nodes[i] is Interior,
    ensures
        match nodes[i] {
            Node::Interior { nw, ne, sw, se, level, population } => {
                &&& 5 <= level.0 <= MAX_LEVEL
                &&& 0 <= nw.at() < i && 0 <= ne.at() < i && 0 <= sw.at() < i && 0 <= se.at() < i
                &&& level_at(nodes, nw.at()) == level.0 - 1
                &&& level_at(nodes, ne.at()) == level.0 - 1
                &&& level_at(nodes, sw.at()) == level.0 - 1
                &&& level_at(nodes, se.at()) == level.0 - 1
                &&& population == pop_at(nodes, i)
                &&& pop_at(nodes, i) == pop_at(nodes, nw.at()) + pop_at(nodes, ne.at()) + pop_at(nodes, sw.at())
                    + pop_at(nodes, se.at())
                &&& forall|x: int, y: int|
                    #[trigger] cell_at(nodes, i, x, y) == quad_cell(nodes, nw, ne, sw, se, level.0 as int, x, y)
            },
            _ => false,
        },
{
    assert(stored_ok(nodes, i));
}

/// Adding nodes after the stored ones changes nothing about those.
pub proof fn lemma_grows(old: Seq<Node>, new: Seq<Node>, i: int)
    requires
        nodes_ok(old),
        grows(old, new),
        0 <= i < old.len(),
    ensures
        new[i] == old[i],
        level_at(new, i) == level_at(old, i),
        pop_at(new, i) == pop_at(old, i),
        stored_ok(new, i),
        forall|x: int, y: int| #[trigger] cell_at(new, i, x, y) == cell_at(old, i, x, y),
    decreases level_at(old, i),
{
    assert(stored_ok(old, i));
    match old[i] {
        Node::Leaf { .. } => {},
        Node::Interior { nw, ne, sw, se, .. } => {
            lemma_grows(old, new, nw.at());
            lemma_grows(old, new, ne.at());
            lemma_grows(old, new, sw.at());
            lemma_grows(old, new, se.at());
            assert(new[i] == old[i]);
            assert forall|x: int, y: int| #[trigger] cell_at(new, i, x, y) == cell_at(old, i, x, y) by {
                let q = quarter(level_at(old, i));
                assert(cell_at(new, nw.at(), x + q, y + q) == cell_at(old, nw.at(), x + q, y + q));
                assert(cell_at(new, ne.at(), x - q, y + q) == cell_at(old, ne.at(), x - q, y + q));
                assert(cell_at(new, sw.at(), x + q, y - q) == cell_at(old, sw.at(), x + q, y - q));
                assert(cell_at(new, se.at(), x - q, y - q) == cell_at(old, se.at(), x - q, y - q));
            }
        },
    }
}

/// A stored node has no alive cell outside its bounds.
pub proof fn lemma_outside_dead(nodes: Seq<Node>, i: int)
    requires
        nodes_ok(nodes),
        0 <= i < nodes.len(),
    ensures
        forall|x: int, y: int| !in_bounds(level_at(nodes, i), x, y) ==> !#[trigger] cell_at(nodes, i, x, y),
    decreases level_at(nodes, i),
{
    assert(stored_ok(nodes, i));
    match nodes[i] {
        Node::Leaf { .. } => {
            reveal_with_fuel(two_pow, 4);
        },
        Node::Interior { nw, ne, sw, se, level, .. } => {
            lemma_interior(nodes, i);
            lemma_quarter(level.0 as int);
            lemma_outside_dead(nodes, nw.at());
            lemma_outside_dead(nodes, ne.at());
            lemma_outside_dead(nodes, sw.at());
            lemma_outside_dead(nodes, se.at());
            let l = level.0 as int;
            let q = quarter(l);
            assert forall|x: int, y: int| !in_bounds(l, x, y) implies !#[trigger] cell_at(nodes, i, x, y) by {
                if x < 0 && y < 0 {
                    assert(!in_bounds(l - 1, x + q, y + q));
                } else if y < 0 {
                    assert(!in_bounds(l - 1, x - q, y + q));
                } else if x < 0 {
                    assert(!in_bounds(l - 1, x + q, y - q));
                } else {
                    assert(!in_bounds(l - 1, x - q, y - q));
                }
            }
        },
    }
}

/// A stored node is at most as populous as it has cells.
pub proof fn lemma_pop_bound(nodes: Seq<Node>, i: int)
    requires
        nodes_ok(nodes),
        0 <= i < nodes.len(),
    ensures
        4 <= level_at(nodes, i) <= MAX_LEVEL,
        pop_at(nodes, i) <= two_pow((2 * level_at(nodes, i)) as nat),
    decreases level_at(nodes, i),
{
    assert(stored_ok(nodes, i));
    match nodes[i] {
        Node::Leaf { grid } => {
            lemma_grid_population_bound(grid@, 16);
            reveal_with_fuel(two_pow, 9);
        },
        Node::Interior { nw, ne, sw, se, level, .. } => {
            lemma_interior(nodes, i);
            lemma_pop_bound(nodes, nw.at());
            lemma_pop_bound(nodes, ne.at());
            lemma_pop_bound(nodes, sw.at());
            lemma_pop_bound(nodes, se.at());
            let l = level.0 as int;
            assert(two_pow((2 * l) as nat) == 4 * two_pow((2 * (l - 1)) as nat)) by {
                assert(two_pow((2 * l) as nat) == 2 * two_pow((2 * l - 1) as nat));
                assert(two_pow((2 * l - 1) as nat) == 2 * two_pow((2 * l - 2) as nat));
            }
        },
    }
}

/// A leaf's first `n` rows hold at most `16 n` alive cells.
proof fn lemma_grid_population_bound(grid: Seq<u16>, n: nat)
    ensures
        grid_population(grid, n) <= 16 * n,
    decreases n,
{
    if n > 0 {
        lemma_grid_population_bound(grid, (n - 1) as nat);
        lemma_count16_bound(grid[n - 1], 16);
    }
}

/// Two well formed stored nodes under one key are the same node.
proof fn lemma_same_key(nodes: Seq<Node>, i: int, n: Node)
    requires
        nodes_ok(nodes),
        0 <= i < nodes.len(),
        stored_ok(nodes.push(n), nodes.len() as int),
        key_of(nodes[i]) == key_of(n),
    ensures
        nodes[i] == n,
{
    assert(stored_ok(nodes, i));
    let all = nodes.push(n);
    lemma_grows(nodes, all, i);
    match (nodes[i], n) {
        (Node::Leaf { grid: a }, Node::Leaf { grid: b }) => {
            lemma_pack4(a@[0], a@[1], a@[2], a@[3], b@[0], b@[1], b@[2], b@[3]);
            lemma_pack4(a@[4], a@[5], a@[6], a@[7], b@[4], b@[5], b@[6], b@[7]);
            lemma_pack4(a@[8], a@[9], a@[10], a@[11], b@[8], b@[9], b@[10], b@[11]);
            lemma_pack4(a@[12], a@[13], a@[14], a@[15], b@[12], b@[13], b@[14], b@[15]);
            assert(a@ =~= b@);
            assert(a == b);
        },
        (Node::Interior { nw, ne, sw, se, level, .. }, Node::Interior { .. }) => {
            let j = nodes.len() as int;
            assert(all[j] == n);
            assert(all[i] == nodes[i]);
            assert(pop_at(all, j) == pop_at(all, i));
        },
        (Node::Leaf { .. }, Node::Interior { .. }) => {},
        (Node::Interior { .. }, Node::Leaf { .. }) => {},
    }
}

/// A store of nodes, each stored once, with caches of their futures.
pub struct Store {
    indices: IdTable,
    nodes: Vec<Node>,
    steps: Vec<Option<NodeId>>,
    jumps: Vec<Option<NodeId>>,
    step_log_2: u8,
}

impl Store {
    /// The stored nodes, in the order they were added.
    pub closed spec fn nodes(&self) -> Seq<Node> {
        self.nodes@
    }

    /// Whether `id` names a stored node.
    pub open spec fn valid(&self, id: NodeId) -> bool {
        0 <= id.at() < self.nodes().len()
    }

    /// The level of the node `id`.
    pub open spec fn level(&self, id: NodeId) -> int {
        level_at(self.nodes(), id.at())
    }

    /// Whether the cell `(x, y)` of the node `id` is alive.
    pub open spec fn cell(&self, id: NodeId, x: int, y: int) -> bool {
        cell_at(self.nodes(), id.at(), x, y)
    }

    /// The number of alive cells of the node `id`.
    pub open spec fn pop(&self, id: NodeId) -> nat {
        pop_at(self.nodes(), id.at())
    }

    /// The cached futures of each node.
    pub closed spec fn cached_steps(&self) -> Seq<Option<NodeId>> {
        self.steps@
    }

    /// The cached jumps of each node.
    pub closed spec fn cached_jumps(&self) -> Seq<Option<NodeId>> {
        self.jumps@
    }

    /// The number of generations a step of the store advances, as a power
    /// of two.
    pub closed spec fn log_step(&self) -> u8 {
        self.step_log_2
    }

    /// Whether the store's table and caches agree with its nodes.
    pub closed spec fn wf(&self) -> bool {
        let nodes = self.nodes@;
        let table = id_table_contents(self.indices);
        &&& nodes_ok(nodes)
        &&& self.steps@.len() == nodes.len()
        &&& self.jumps@.len() == nodes.len()
        &&& forall|i: int|
            0 <= i < nodes.len() ==> #[trigger] table.dom().contains(key_of(nodes[i])) && table[key_of(nodes[i])]
                == i
        &&& forall|k: (u8, u64, u64, u64, u64)| #[trigger]
            table.dom().contains(k) ==> table[k] < nodes.len() && key_of(nodes[table[k] as int]) == k
    }

    /// This store is `old` with nodes added: the nodes, caches and step of
    /// `old` are kept, and the added nodes have nothing cached.
    pub open spec fn grown_from(&self, old: &Store) -> bool {
        &&& grows(old.nodes(), self.nodes())
        &&& self.log_step() == old.log_step()
        &&& self.cached_steps().len() == self.nodes().len()
        &&& self.cached_jumps().len() == self.nodes().len()
        &&& forall|i: int|
            0 <= i < self.nodes().len() ==> #[trigger] self.cached_steps()[i] == (if i < old.nodes().len() {
                old.cached_steps()[i]
            } else {
                None
            })
        &&& forall|i: int|
            0 <= i < self.nodes().len() ==> #[trigger] self.cached_jumps()[i] == (if i < old.nodes().len() {
                old.cached_jumps()[i]
            } else {
                None
            })
    }

    /// The nodes of a well formed store are well formed.
    pub proof fn lemma_wf(&self)
        requires
            self.wf(),
        ensures
            nodes_ok(self.nodes()),
    {
    }

    /// Nodes added to a store leave the ones already there as they were.
    pub proof fn lemma_keeps(&self, new: &Store, id: NodeId)
        requires
            self.wf(),
            self.valid(id),
            grows(self.nodes(), new.nodes()),
        ensures
            new.valid(id),
            new.level(id) == self.level(id),
            new.pop(id) == self.pop(id),
            forall|x: int, y: int| #[trigger] new.cell(id, x, y) == self.cell(id, x, y),
    {
        lemma_grows(self.nodes(), new.nodes(), id.at());
    }

    /// A store grown from a store grown from `old` is grown from `old`.
    pub proof fn lemma_grown_trans(&self, mid: &Store, old: &Store)
        requires
            mid.grown_from(old),
            self.grown_from(mid),
        ensures
            self.grown_from(old),
    {
        assert forall|i: int| 0 <= i < self.nodes().len() implies #[trigger] self.cached_steps()[i] == (if i
            < old.nodes().len() {
            old.cached_steps()[i]
        } else {
            None
        }) by {
            if i < mid.nodes().len() {
                assert(mid.cached_steps()[i] == mid.cached_steps()[i]);
            }
        }
        assert forall|i: int| 0 <= i < self.nodes().len() implies #[trigger] self.cached_jumps()[i] == (if i
            < old.nodes().len() {
            old.cached_jumps()[i]
        } else {
            None
        }) by {
            if i < mid.nodes().len() {
                assert(mid.cached_jumps()[i] == mid.cached_jumps()[i]);
            }
        }
        assert forall|i: int| 0 <= i < old.nodes().len() implies #[trigger] self.nodes()[i] == old.nodes()[i] by {
            assert(mid.nodes()[i] == old.nodes()[i]);
        }
    }

    /// An empty store.
    pub fn new() -> (store: Self)
        ensures
            store.wf(),
            store.nodes().len() == 0,
            store.log_step() == 0,
    {
        Self { indices: IdTable::new(), nodes: Vec::new(), steps: Vec::new(), jumps: Vec::new(), step_log_2: 0 }
    }

    /// The node `id`.
    pub fn node(&self, id: NodeId) -> (node: Node)
        requires
            self.valid(id),
        ensures
            node == self.nodes()[id.at()],
    {
        self.nodes[id.index.0]
    }

    /// The key of a node, as [`key_of`] gives it.
    fn key(node: &Node) -> (key: (u8, u64, u64, u64, u64))
        ensures
            key == key_of(*node),
    {
        match node {
            Node::Leaf { grid } => {
                let g = grid;
                (
                    0u8,
                    (g[0] as u64) | ((g[1] as u64) << 16u64) | ((g[2] as u64) << 32u64) | ((g[3] as u64) << 48u64),
                    (g[4] as u64) | ((g[5] as u64) << 16u64) | ((g[6] as u64) << 32u64) | ((g[7] as u64) << 48u64),
                    (g[8] as u64) | ((g[9] as u64) << 16u64) | ((g[10] as u64) << 32u64) | ((g[11] as u64) << 48u64),
                    (g[12] as u64) | ((g[13] as u64) << 16u64) | ((g[14] as u64) << 32u64) | ((g[15] as u64)
                        << 48u64),
                )
            },
            Node::Interior { nw, ne, sw, se, level, .. } => (
                level.0,
                nw.index.0 as u64,
                ne.index.0 as u64,
                sw.index.0 as u64,
                se.index.0 as u64,
            ),
        }
    }

    /// Stores a node, or finds it stored already: the node at the returned
    /// place is `node`.
    fn add_node(&mut self, node: Node) -> (id: NodeId)
        requires
            old(self).wf(),
            stored_ok(old(self).nodes().push(node), old(self).nodes().len() as int),
        ensures
            final(self).wf(),
            final(self).grown_from(old(self)),
            final(self).valid(id),
            final(self).nodes()[id.at()] == node,
    {
        let key = Self::key(&node);
        match self.indices.get(key) {
            Some(index) => {
                proof {
                    lemma_same_key(self.nodes@, index as int, node);
                }
                NodeId { index: Index(index) }
            },
            None => {
                let ghost old_nodes = self.nodes@;
                let index = self.nodes.len();
                proof {
                    if key_of(node) == key_of(old_nodes[0]) && old_nodes.len() > 0 {
                        assert(id_table_contents(self.indices).dom().contains(key_of(old_nodes[0])));
                    }
                }
                self.indices.insert(key, index);
                self.nodes.push(node);
                self.steps.push(None);
                self.jumps.push(None);
                proof {
                    let nodes = self.nodes@;
                    assert(grows(old_nodes, nodes));
                    assert forall|i: int| 0 <= i < nodes.len() implies #[trigger] stored_ok(nodes, i) by {
                        if i < old_nodes.len() {
                            lemma_grows(old_nodes, nodes, i);
                        }
                    }
                    let table = id_table_contents(self.indices);
                    assert forall|i: int| 0 <= i < nodes.len() implies #[trigger] table.dom().contains(
                        key_of(nodes[i]),
                    ) && table[key_of(nodes[i])] == i by {
                        if i < old_nodes.len() {
                            assert(id_table_contents(old(self).indices).dom().contains(key_of(old_nodes[i])));
                        }
                    }
                }
                NodeId { index: Index(index) }
            },
        }
    }

    /// Stores a leaf with the given rows.
    pub fn create_leaf(&mut self, grid: [u16; 16]) -> (id: NodeId)
        requires
            old(self).wf(),
        ensures
            final(self).wf(),
            final(self).grown_from(old(self)),
            final(self).valid(id),
            final(self).nodes()[id.at()] == (Node::Leaf { grid }),
            final(self).level(id) == 4,
            final(self).pop(id) == grid_population(grid@, 16),
            forall|x: int, y: int| #[trigger] final(self).cell(id, x, y) == grid_cell(grid@, x, y),
    {
        self.add_node(Node::Leaf { grid })
    }

    /// Stores the node whose children are those of `template`, all of one
    /// level below 64, whose populations add up to at most `u128::MAX`.
    pub fn create_interior(&mut self, template: NodeTemplate) -> (id: NodeId)
        requires
            old(self).wf(),
            old(self).valid(template.nw),
            old(self).valid(template.ne),
            old(self).valid(template.sw),
            old(self).valid(template.se),
            old(self).level(template.ne) == old(self).level(template.nw),
            old(self).level(template.sw) == old(self).level(template.nw),
            old(self).level(template.se) == old(self).level(template.nw),
            old(self).level(template.nw) < MAX_LEVEL,
            old(self).pop(template.nw) + old(self).pop(template.ne) + old(self).pop(template.sw) + old(
                self,
            ).pop(template.se) <= u128::MAX,
        ensures
            final(self).wf(),
            final(self).grown_from(old(self)),
            final(self).valid(id),
            final(self).nodes()[id.at()] == (Node::Interior {
                nw: template.nw,
                ne: template.ne,
                sw: template.sw,
                se: template.se,
                level: Level((old(self).level(template.nw) + 1) as u8),
                population: (old(self).pop(template.nw) + old(self).pop(template.ne) + old(self).pop(
                    template.sw,
                ) + old(self).pop(template.se)) as u128,
            }),
            final(self).level(id) == old(self).level(template.nw) + 1,
            final(self).pop(id) == old(self).pop(template.nw) + old(self).pop(template.ne) + old(self).pop(
                template.sw,
            ) + old(self).pop(template.se),
            forall|x: int, y: int| #[trigger]
                final(self).cell(id, x, y) == quad_cell(
                    old(self).nodes(),
                    template.nw,
                    template.ne,
                    template.sw,
                    template.se,
                    old(self).level(template.nw) + 1,
                    x,
                    y,
                ),
    {
        let ghost old_nodes = self.nodes();
        let level = template.nw.level(self);
        let population = template.nw.population(self) + template.ne.population(self) + template.sw.population(
            self,
        ) + template.se.population(self);
        let node = Node::Interior {
            nw: template.nw,
            ne: template.ne,
            sw: template.sw,
            se: template.se,
            level: Level(level.0 + 1),
            population,
        };
        proof {
            lemma_pop_bound(old_nodes, template.nw.at());
            let all = old_nodes.push(node);
            let j = old_nodes.len() as int;
            lemma_grows(old_nodes, all, template.nw.at());
            lemma_grows(old_nodes, all, template.ne.at());
            lemma_grows(old_nodes, all, template.sw.at());
            lemma_grows(old_nodes, all, template.se.at());
            assert(all[j] == node);
            assert(pop_at(all, j) == population);
        }
        let id = self.add_node(node);
        proof {
            let nodes = self.nodes();
            lemma_grows(old_nodes, nodes, template.nw.at());
            lemma_grows(old_nodes, nodes, template.ne.at());
            lemma_grows(old_nodes, nodes, template.sw.at());
            lemma_grows(old_nodes, nodes, template.se.at());
            lemma_interior(nodes, id.at());
            assert forall|x: int, y: int| #[trigger]
                self.cell(id, x, y) == quad_cell(
                    old_nodes,
                    template.nw,
                    template.ne,
                    template.sw,
                    template.se,
                    level.0 + 1,
                    x,
                    y,
                ) by {
                let q = quarter(level.0 + 1);
                assert(cell_at(nodes, template.nw.at(), x + q, y + q) == cell_at(old_nodes, template.nw.at(), x + q, y + q));
                assert(cell_at(nodes, template.ne.at(), x - q, y + q) == cell_at(old_nodes, template.ne.at(), x - q, y + q));
                assert(cell_at(nodes, template.sw.at(), x + q, y - q) == cell_at(old_nodes, template.sw.at(), x + q, y - q));
                assert(cell_at(nodes, template.se.at(), x - q, y - q) == cell_at(old_nodes, template.se.at(), x - q, y - q));
            }
        }
        id
    }

    /// Stores the node of the given level, from 4 to 64, whose cells are all
    /// dead.
    pub fn create_empty(&mut self, level: Level) -> (id: NodeId)
        requires
            old(self).wf(),
            4 <= level.0 <= MAX_LEVEL,
        ensures
            final(self).wf(),
            final(self).grown_from(old(self)),
            final(self).valid(id),
            final(self).level(id) == level.0,
            final(self).pop(id) == 0,
            forall|x: int, y: int| !#[trigger] final(self).cell(id, x, y),
        decreases level.0,
    {
        if level.0 == 4 {
            let grid: [u16; 16] = [0; 16];
            assert(forall|r: int| 0 <= r < 16 ==> #[trigger] grid@[r] == 0);
            let id = self.create_leaf(grid);
            proof {
                assert forall|x: int, y: int| !#[trigger] self.cell(id, x, y) by {
                    if -8 <= y <= 7 {
                        let k = (7 - x) as u16;
                        assert(grid@[y + 8] == 0);
                        if -8 <= x <= 7 {
                            lemma_row_bits(0, 0, k);
                        }
                    }
                }
                lemma_empty_grid_population(grid@, 16);
            }
            id
        } else {
            let ghost s0 = *self;
            let empty = self.create_empty(Level(level.0 - 1));
            let ghost s1 = *self;
            let id = self.create_interior(NodeTemplate { nw: empty, ne: empty, sw: empty, se: empty });
            proof {
                self.lemma_grown_trans(&s1, &s0);
                assert forall|x: int, y: int| !#[trigger] self.cell(id, x, y) by {
                    let q = quarter(level.0 as int);
                    assert(!s1.cell(empty, x + q, y + q));
                    assert(!s1.cell(empty, x - q, y + q));
                    assert(!s1.cell(empty, x + q, y - q));
                    assert(!s1.cell(empty, x - q, y - q));
                }
            }
            id
        }
    }

    /// The number of generations a step advances, as a power of two.
    pub fn step_log_2(&self) -> (step_log_2: u8)
        ensures
            step_log_2 == self.log_step(),
    {
        self.step_log_2
    }

    /// Sets the number of generations a step advances, as a power of two.
    pub fn set_step_log_2(&mut self, step_log_2: u8)
        requires
            old(self).wf(),
        ensures
            final(self).wf(),
            final(self).log_step() == step_log_2,
            final(self).nodes() == old(self).nodes(),
            final(self).cached_steps() == old(self).cached_steps(),
            final(self).cached_jumps() == old(self).cached_jumps(),
    {
        self.step_log_2 = step_log_2;
        assert(self.indices == old(self).indices);
        assert(self.nodes@ == old(self).nodes@);
        assert(self.steps@ == old(self).steps@);
        assert(self.jumps@ == old(self).jumps@);
    }

    /// The step of the node `id` stored with [`Store::add_step`], if any.
    pub fn get_step(&self, id: NodeId) -> (step: Option<NodeId>)
        requires
            self.wf(),
            self.valid(id),
        ensures
            step == self.cached_steps()[id.at()],
    {
        self.steps[id.index.0]
    }

    /// Stores `step` as the step of the node `id`.
    pub fn add_step(&mut self, id: NodeId, step: NodeId)
        requires
            old(self).wf(),
            old(self).valid(id),
        ensures
            final(self).wf(),
            final(self).nodes() == old(self).nodes(),
            final(self).log_step() == old(self).log_step(),
            final(self).cached_steps() == old(self).cached_steps().update(id.at(), Some(step)),
            final(self).cached_jumps() == old(self).cached_jumps(),
    {
        self.steps.set(id.index.0, Some(step));
    }

    /// The jump of the node `id` stored with [`Store::add_jump`], if any.
    pub fn get_jump(&self, id: NodeId) -> (jump: Option<NodeId>)
        requires
            self.wf(),
            self.valid(id),
        ensures
            jump == self.cached_jumps()[id.at()],
    {
        self.jumps[id.index.0]
    }

    /// Stores `jump` as the jump of the node `id`.
    pub fn add_jump(&mut self, id: NodeId, jump: NodeId)
        requires
            old(self).wf(),
            old(self).valid(id),
        ensures
            final(self).wf(),
            final(self).nodes() == old(self).nodes(),
            final(self).log_step() == old(self).log_step(),
            final(self).cached_steps() == old(self).cached_steps(),
            final(self).cached_jumps() == old(self).cached_jumps().update(id.at(), Some(jump)),
    {
        self.jumps.set(id.index.0, Some(jump));
    }
}

impl Default for Store {
    fn default() -> (store: Self)
        ensures
            store.wf(),
            store.nodes().len() == 0,
            store.log_step() == 0,
    {
        Self::new()
    }
}

/// The bits of two rows put side by side, the first to the west, and the
/// bits of an empty row.
pub proof fn lemma_row_bits(a: u16, b: u16, k: u16)
    by (bit_vector)
    requires
        k < 16,
    ensures
        bit16(((a << 8u16) | (b >> 8u16)) as u16, k) == (if k >= 8 {
            bit16(a, (k - 8) as u16)
        } else {
            bit16(b, (k + 8) as u16)
        }),
        !bit16(0u16, k),
{
}

/// An empty row has no alive cell among its lowest `n` bits.
proof fn lemma_empty_count(n: nat)
    requires
        n <= 16,
    ensures
        count16(0u16, n) == 0,
    decreases n,
{
    if n > 0 {
        lemma_empty_count((n - 1) as nat);
        lemma_row_bits(0, 0, (n - 1) as u16);
    }
}

/// A leaf without alive cells has none among its first `n` rows.
proof fn lemma_empty_grid_population(grid: Seq<u16>, n: nat)
    requires
        n <= grid.len(),
        forall|r: int| 0 <= r < grid.len() ==> #[trigger] grid[r] == 0,
    ensures
        grid_population(grid, n) == 0,
    decreases n,
{
    if n > 0 {
        lemma_empty_grid_population(grid, (n - 1) as nat);
        assert(grid[n - 1] == 0);
        lemma_empty_count(16);
    }
}

/// Properties of a stored node.
impl NodeId {
    /// The level of the node.
    pub fn level(self, store: &Store) -> (level: Level)
        requires
            store.valid(self),
        ensures
            level.0 == store.level(self),
    {
        match store.node(self) {
            Node::Leaf { .. } => Level(4),
            Node::Interior { level, .. } => level,
        }
    }

    /// The number of alive cells of the node.
    pub fn population(self, store: &Store) -> (population: u128)
        requires
            store.wf(),
            store.valid(self),
        ensures
            population == store.pop(self),
    {
        proof {
            assert(stored_ok(store.nodes(), self.at()));
        }
        match store.node(self) {
            Node::Leaf { grid } => {
                let mut total: u128 = 0;
                let mut r: usize = 0;
                while r < 16
                    invariant
                        r <= 16,
                        total == grid_population(grid@, r as nat),
                        total <= 16 * r,
                    decreases 16 - r,
                {
                    let c = count_ones_u16(grid[r]);
                    total = total + c as u128;
                    r = r + 1;
                }
                total
            },
            Node::Interior { population, .. } => population,
        }
    }

    /// The smallest coordinate of a cell of the node, `-2^(level - 1)`:
    /// `i64::MIN` for a node of level 64.
    pub fn min_coord(self, store: &Store) -> (coord: i64)
        requires
            store.wf(),
            store.valid(self),
        ensures
            coord == min_coord_of(store.level(self)),
    {
        proof {
            assert(stored_ok(store.nodes(), self.at()));
        }
        match store.node(self) {
            Node::Leaf { .. } => {
                proof {
                    reveal_with_fuel(two_pow, 4);
                }
                -8
            },
            Node::Interior { level, .. } => if level.0 == MAX_LEVEL {
                proof {
                    crate::node::cells::lemma_level_64();
                }
                i64::MIN
            } else {
                -pow2_i64(level.0 - 1)
            },
        }
    }

    /// The largest coordinate of a cell of the node, `2^(level - 1) - 1`:
    /// `i64::MAX` for a node of level 64.
    pub fn max_coord(self, store: &Store) -> (coord: i64)
        requires
            store.wf(),
            store.valid(self),
        ensures
            coord == max_coord_of(store.level(self)),
    {
        proof {
            assert(stored_ok(store.nodes(), self.at()));
        }
        match store.node(self) {
            Node::Leaf { .. } => {
                proof {
                    reveal_with_fuel(two_pow, 4);
                }
                7
            },
            Node::Interior { level, .. } => if level.0 == MAX_LEVEL {
                proof {
                    crate::node::cells::lemma_level_64();
                }
                i64::MAX
            } else {
                pow2_i64(level.0 - 1) - 1
            },
        }
    }
}

} // verus!
