//! Properties of a node, and getting and setting its cells.

use vstd::prelude::*;

use crate::node::store::{
    b16, b8, count_ones_u16, count_ones_u8, index_of_stored, lemma_count16, lemma_count8,
    lemma_pop_fits, NodeTemplate,
};
use crate::node::subregion::{east_shift, lemma_extends_shifted, shifted, west_shift};
use crate::node::{
    bit16, bit8, cell_of, count16, count8, extends, in_bounds, lemma_extends, lemma_quarter,
    lemma_stored, lemma_two_pow_pos, lemma_two_pow_u64, level_one_bit_index,
    level_one_cells_ok, level_two_bit_index, max_coord_of, min_coord_of, node_in, nodes_ok,
    pop_of, quad_cell, quarter, shape_ok, two_pow, Node, NodeBase, Store, LEVEL_ONE_NE_MASK,
    LEVEL_ONE_NW_MASK, LEVEL_ONE_SE_MASK, LEVEL_ONE_SW_MASK, MAX_LEVEL,
};
use crate::Cell;

verus! {

/// `2^k` as an `i64`, for `k <= 62`.
pub(crate) fn pow2_i64(k: u8) -> (r: i64)
    requires
        k <= 62,
    ensures
        r == two_pow(k as nat),
        r >= 1,
{
    proof {
        lemma_two_pow_pos(k as nat);
        lemma_two_pow_u64(k as nat);
        lemma_two_pow_62();
        crate::node::lemma_two_pow_monotonic(k as nat, 62);
    }
    (1u64 << k) as i64
}

/// The coordinates of a node fit in an `i64`.
pub proof fn lemma_coords_fit(level: int)
    requires
        0 <= level <= MAX_LEVEL,
    ensures
        i64::MIN <= min_coord_of(level) <= 0,
        0 <= max_coord_of(level) <= i64::MAX,
{
    if level > 0 {
        lemma_two_pow_pos((level - 1) as nat);
        if level < 64 {
            crate::node::lemma_two_pow_monotonic((level - 1) as nat, 62);
            lemma_two_pow_62();
        } else {
            lemma_level_64();
        }
    }
}

/// `2^62`.
pub proof fn lemma_two_pow_62()
    ensures
        two_pow(62) == 0x4000_0000_0000_0000,
{
    lemma_two_pow_u64(62);
    assert((1u64 << 62u64) == 0x4000_0000_0000_0000u64) by (bit_vector);
}

/// The smallest and largest coordinate of a level 64 node are those of `i64`.
pub proof fn lemma_level_64()
    ensures
        min_coord_of(64) == i64::MIN,
        max_coord_of(64) == i64::MAX,
{
    lemma_two_pow_u64(63);
    assert((1u64 << 63u64) == 0x8000_0000_0000_0000u64) by (bit_vector);
}

/// Methods for getting node properties.
impl Node {
    /// Returns the level of the node.
    pub fn level(&self) -> (level: u8)
        ensures
            level == self.level,
    {
        self.level
    }

    /// Returns the number of alive cells in the node.
    pub fn population(&self, store: &Store) -> (population: u128)
        requires
            store.wf(),
            store.valid(*self),
        ensures
            population == store.pop(*self),
    {
        proof {
            lemma_stored(store.nodes(), *self);
        }
        match self.base {
            NodeBase::Leaf { alive } => if alive {
                1
            } else {
                0
            },
            NodeBase::LevelOne { cells } => count_ones_u8(cells) as u128,
            NodeBase::LevelTwo { cells, .. } => count_ones_u16(cells) as u128,
            NodeBase::Interior { .. } => store.population_of_stored(self),
        }
    }

    /// Returns the minimum coordinate that can be used with the node: `0` for
    /// a level 0 node, `-2^(n-1)` for a level `n > 0` node.
    pub fn min_coord(&self) -> (coord: i64)
        requires
            self.level <= MAX_LEVEL,
        ensures
            coord == min_coord_of(self.level as int),
    {
        if self.level == 0 {
            0
        } else if self.level < MAX_LEVEL {
            -pow2_i64(self.level - 1)
        } else {
            proof {
                lemma_level_64();
            }
            i64::MIN
        }
    }

    /// Returns the maximum coordinate that can be used with the node: `0` for
    /// a level 0 node, `2^(n-1) - 1` for a level `n > 0` node.
    pub fn max_coord(&self) -> (coord: i64)
        requires
            self.level <= MAX_LEVEL,
        ensures
            coord == max_coord_of(self.level as int),
    {
        if self.level == 0 {
            0
        } else if self.level < MAX_LEVEL {
            pow2_i64(self.level - 1) - 1
        } else {
            proof {
                lemma_level_64();
            }
            i64::MAX
        }
    }
}

/// The quarter of a level `level` node as an `i64`.
pub(crate) fn quarter_i64(level: u8) -> (q: i64)
    requires
        2 <= level <= MAX_LEVEL,
    ensures
        q == quarter(level as int),
        q >= 1,
{
    proof {
        lemma_quarter(level as int);
    }
    pow2_i64(level - 2)
}

/// The coordinates of the cell `(x, y)` of a node of level 2 or more in the
/// quadrant that holds it.
pub open spec fn in_quadrant(level: int, x: int, y: int) -> (int, int) {
    let q = quarter(level);
    if x < 0 && y < 0 {
        (x + q, y + q)
    } else if x >= 0 && y < 0 {
        (x - q, y + q)
    } else if x < 0 && y >= 0 {
        (x + q, y - q)
    } else {
        (x - q, y - q)
    }
}

/// The cell of a node of level 2 or more lies in one of its quadrants, at
/// coordinates within that quadrant.
proof fn lemma_in_quadrant(level: int, x: int, y: int)
    requires
        2 <= level <= MAX_LEVEL,
        in_bounds(level, x, y),
    ensures
        in_bounds(level - 1, in_quadrant(level, x, y).0, in_quadrant(level, x, y).1),
        in_quadrant(level, x, y).0 == x + (if x < 0 {
            quarter(level)
        } else {
            -quarter(level)
        }),
        in_quadrant(level, x, y).1 == y + (if y < 0 {
            quarter(level)
        } else {
            -quarter(level)
        }),
{
    lemma_quarter(level);
}

impl Node {
    /// Gets the cell at the given coordinates; a cell outside the node is
    /// dead.
    pub fn get_cell(&self, store: &Store, x: i64, y: i64) -> (cell: Cell)
        requires
            store.wf(),
            store.valid(*self),
        ensures
            (cell == Cell::Alive) == store.alive_at(*self, x as int, y as int),
        decreases self.level,
    {
        proof {
            lemma_stored(store.nodes(), *self);
        }
        if x < self.min_coord() || y < self.min_coord() || x > self.max_coord() || y
            > self.max_coord() {
            return Cell::Dead;
        }
        match self.base {
            NodeBase::Leaf { alive } => Cell::new(alive),
            NodeBase::LevelOne { cells } => {
                proof {
                    reveal_with_fuel(two_pow, 2);
                    lemma_mask_bits(cells);
                }
                if x < 0 && y < 0 {
                    Cell::new(cells & LEVEL_ONE_NW_MASK > 0)
                } else if x < 0 {
                    Cell::new(cells & LEVEL_ONE_SW_MASK > 0)
                } else if y < 0 {
                    Cell::new(cells & LEVEL_ONE_NE_MASK > 0)
                } else {
                    Cell::new(cells & LEVEL_ONE_SE_MASK > 0)
                }
            },
            NodeBase::LevelTwo { cells, .. } => {
                proof {
                    reveal_with_fuel(two_pow, 3);
                }
                let index = (15 - ((4 * (y + 2)) + (x + 2))) as u16;
                proof {
                    lemma_bit16_mask(cells, index);
                }
                Cell::new(cells & (1u16 << index) > 0)
            },
            NodeBase::Interior { .. } => {
                let offset = quarter_i64(self.level);
                proof {
                    lemma_in_quadrant(self.level as int, x as int, y as int);
                    lemma_quarter(self.level as int);
                }
                if x < 0 && y < 0 {
                    self.nw(store).get_cell(store, x + offset, y + offset)
                } else if x < 0 {
                    self.sw(store).get_cell(store, x + offset, y - offset)
                } else if y < 0 {
                    self.ne(store).get_cell(store, x - offset, y + offset)
                } else {
                    self.se(store).get_cell(store, x - offset, y - offset)
                }
            },
        }
    }
}

/// A single bit of a byte, tested with a mask.
pub proof fn lemma_mask_bits(c: u8)
    by (bit_vector)
    ensures
        (c & 0x20u8 > 0) == bit8(c, 5),
        (c & 0x10u8 > 0) == bit8(c, 4),
        (c & 0x02u8 > 0) == bit8(c, 1),
        (c & 0x01u8 > 0) == bit8(c, 0),
{
}

/// A single bit of a `u16`, tested with a mask.
pub proof fn lemma_bit16_mask(c: u16, i: u16)
    requires
        i < 16,
    ensures
        (c & (1u16 << i) > 0) == bit16(c, i),
{
    assert((c & (1u16 << i) > 0) == bit16(c, i)) by (bit_vector)
        requires
            i < 16,
    ;
}

/// Setting and clearing a bit of a byte.
pub proof fn lemma_bit8_update(c: u8, k: u8, i: u8)
    requires
        k < 8,
        i < 8,
    ensures
        bit8(c | (1u8 << k), i) == (i == k || bit8(c, i)),
        bit8(c & !(1u8 << k), i) == (i != k && bit8(c, i)),
{
    assert(bit8(c | (1u8 << k), i) == (i == k || bit8(c, i))) by (bit_vector)
        requires
            k < 8,
            i < 8,
    ;
    assert(bit8(c & !(1u8 << k), i) == (i != k && bit8(c, i))) by (bit_vector)
        requires
            k < 8,
            i < 8,
    ;
}

/// Setting and clearing a bit of a `u16`.
pub proof fn lemma_bit16_update(c: u16, k: u16, i: u16)
    requires
        k < 16,
        i < 16,
    ensures
        bit16(c | (1u16 << k), i) == (i == k || bit16(c, i)),
        bit16(c & !(1u16 << k), i) == (i != k && bit16(c, i)),
{
    assert(bit16(c | (1u16 << k), i) == (i == k || bit16(c, i))) by (bit_vector)
        requires
            k < 16,
            i < 16,
    ;
    assert(bit16(c & !(1u16 << k), i) == (i != k && bit16(c, i))) by (bit_vector)
        requires
            k < 16,
            i < 16,
    ;
}

/// The population of a level two node after setting or clearing one bit.
pub proof fn lemma_count16_update(c: u16, k: u16, d: u16, set: bool)
    requires
        k < 16,
        d == (if set {
            c | (1u16 << k)
        } else {
            c & !(1u16 << k)
        }),
    ensures
        count16(d, 16) + (if bit16(c, k) {
            1int
        } else {
            0int
        }) == count16(c, 16) + (if set {
            1int
        } else {
            0int
        }),
{
    lemma_count16_prefix(c, k, d, set, 16);
}

/// The population of the lowest `n` bits after setting or clearing one bit.
proof fn lemma_count16_prefix(c: u16, k: u16, d: u16, set: bool, n: nat)
    requires
        k < 16,
        n <= 16,
        d == (if set {
            c | (1u16 << k)
        } else {
            c & !(1u16 << k)
        }),
    ensures
        count16(d, n) + (if k < n && bit16(c, k) {
            1int
        } else {
            0int
        }) == count16(c, n) + (if k < n && set {
            1int
        } else {
            0int
        }),
    decreases n,
{
    if n > 0 {
        lemma_count16_prefix(c, k, d, set, (n - 1) as nat);
        lemma_bit16_update(c, k, (n - 1) as u16);
    }
}

/// The cell `(a, b)` of `n` with the cell `(x, y)` set to `alive`.
pub open spec fn cell_with(nodes: Seq<Node>, n: Node, x: int, y: int, alive: bool, a: int, b: int) -> bool {
    if a == x && b == y {
        alive
    } else {
        cell_of(nodes, n, a, b)
    }
}

/// 1 if true, 0 if false.
pub open spec fn one_if(b: bool) -> int {
    if b {
        1
    } else {
        0
    }
}

impl Node {
    /// Sets the cell at the given coordinates, which must lie within the node.
    pub fn set_cell(&self, store: &mut Store, x: i64, y: i64, cell: Cell) -> (node: Node)
        requires
            old(store).wf(),
            old(store).valid(*self),
            in_bounds(self.level as int, x as int, y as int),
            cell == Cell::Dead || old(store).cell(*self, x as int, y as int) || old(store).pop(
                *self,
            ) < u128::MAX,
        ensures
            final(store).wf(),
            extends(old(store).nodes(), final(store).nodes()),
            final(store).valid(node),
            node.level == self.level,
            forall|a: int, b: int|
                in_bounds(self.level as int, a, b) ==> #[trigger] final(store).cell(node, a, b)
                    == cell_with(
                    final(store).nodes(),
                    *self,
                    x as int,
                    y as int,
                    cell == Cell::Alive,
                    a,
                    b,
                ),
            final(store).pop(node) + one_if(old(store).cell(*self, x as int, y as int)) == old(
                store,
            ).pop(*self) + one_if(cell == Cell::Alive),
        decreases self.level, 1nat,
    {
        proof {
            lemma_stored(store.nodes(), *self);
        }
        match self.base {
            NodeBase::Leaf { .. } => store.create_leaf(cell),
            NodeBase::LevelOne { .. } => self.set_cell_level_one(store, x, y, cell),
            NodeBase::LevelTwo { .. } => self.set_cell_level_two(store, x, y, cell),
            NodeBase::Interior { .. } => self.set_cell_interior(store, x, y, cell),
        }
    }

    /// Sets a cell of a level one node.
    fn set_cell_level_one(&self, store: &mut Store, x: i64, y: i64, cell: Cell) -> (node: Node)
        requires
            old(store).wf(),
            old(store).valid(*self),
            self.level == 1,
            in_bounds(self.level as int, x as int, y as int),
            cell == Cell::Dead || old(store).cell(*self, x as int, y as int) || old(store).pop(
                *self,
            ) < u128::MAX,
        ensures
            final(store).wf(),
            extends(old(store).nodes(), final(store).nodes()),
            final(store).valid(node),
            node.level == self.level,
            forall|a: int, b: int|
                in_bounds(self.level as int, a, b) ==> #[trigger] final(store).cell(node, a, b)
                    == cell_with(
                    final(store).nodes(),
                    *self,
                    x as int,
                    y as int,
                    cell == Cell::Alive,
                    a,
                    b,
                ),
            final(store).pop(node) + one_if(old(store).cell(*self, x as int, y as int)) == old(
                store,
            ).pop(*self) + one_if(cell == Cell::Alive),
    {
        let ghost n0 = store.nodes();
        proof {
            lemma_stored(n0, *self);
        }
        let cells = match self.base {
            NodeBase::LevelOne { cells } => cells,
            _ => 0,
        };
        proof {
            reveal_with_fuel(two_pow, 2);
        }
        let k: u8 = if x < 0 && y < 0 {
            5
        } else if x < 0 {
            1
        } else if y < 0 {
            4
        } else {
            0
        };
        let new_cells = match cell {
            Cell::Alive => cells | (1u8 << k),
            Cell::Dead => cells & !(1u8 << k),
        };
        proof {
            assert(level_one_cells_ok(new_cells)) by (bit_vector)
                requires
                    cells & 0b1100_1100u8 == 0u8,
                    k == 0 || k == 1 || k == 4 || k == 5,
                    new_cells == cells | (1u8 << k) || new_cells == cells & !(1u8 << k),
            ;
            lemma_bit8_update(cells, k, 0);
            lemma_bit8_update(cells, k, 1);
            lemma_bit8_update(cells, k, 4);
            lemma_bit8_update(cells, k, 5);
            lemma_count8(cells);
            lemma_count8(new_cells);
        }
        store.create_level_one_from_cells(new_cells)
    
    }

    /// Sets a cell of a level two node.
    fn set_cell_level_two(&self, store: &mut Store, x: i64, y: i64, cell: Cell) -> (node: Node)
        requires
            old(store).wf(),
            old(store).valid(*self),
            self.level == 2,
            in_bounds(self.level as int, x as int, y as int),
            cell == Cell::Dead || old(store).cell(*self, x as int, y as int) || old(store).pop(
                *self,
            ) < u128::MAX,
        ensures
            final(store).wf(),
            extends(old(store).nodes(), final(store).nodes()),
            final(store).valid(node),
            node.level == self.level,
            forall|a: int, b: int|
                in_bounds(self.level as int, a, b) ==> #[trigger] final(store).cell(node, a, b)
                    == cell_with(
                    final(store).nodes(),
                    *self,
                    x as int,
                    y as int,
                    cell == Cell::Alive,
                    a,
                    b,
                ),
            final(store).pop(node) + one_if(old(store).cell(*self, x as int, y as int)) == old(
                store,
            ).pop(*self) + one_if(cell == Cell::Alive),
    {
        let ghost n0 = store.nodes();
        proof {
            lemma_stored(n0, *self);
        }
        let cells = match self.base {
            NodeBase::LevelTwo { cells, .. } => cells,
            _ => 0,
        };
        proof {
            reveal_with_fuel(two_pow, 3);
        }
        let k = (15 - ((4 * (y + 2)) + (x + 2))) as u16;
        let new_cells = match cell {
            Cell::Alive => cells | (1u16 << k),
            Cell::Dead => cells & !(1u16 << k),
        };
        proof {
            lemma_count16_update(cells, k, new_cells, cell == Cell::Alive);
            assert forall|a: int, b: int| in_bounds(2, a, b) implies bit16(
                new_cells,
                level_two_bit_index(a, b),
            ) == cell_with(n0, *self, x as int, y as int, cell == Cell::Alive, a, b) by {
                lemma_bit16_update(cells, k, level_two_bit_index(a, b));
            }
        }
        let node = store.create_level_two_from_cells(new_cells);
        proof {
            lemma_extends(n0, store.nodes(), *self);
        }
        node
    
    }

    /// Sets a cell of a node of level 3 or more.
    fn set_cell_interior(&self, store: &mut Store, x: i64, y: i64, cell: Cell) -> (node: Node)
        requires
            old(store).wf(),
            old(store).valid(*self),
            self.level >= 3,
            in_bounds(self.level as int, x as int, y as int),
            cell == Cell::Dead || old(store).cell(*self, x as int, y as int) || old(store).pop(
                *self,
            ) < u128::MAX,
        ensures
            final(store).wf(),
            extends(old(store).nodes(), final(store).nodes()),
            final(store).valid(node),
            node.level == self.level,
            forall|a: int, b: int|
                in_bounds(self.level as int, a, b) ==> #[trigger] final(store).cell(node, a, b)
                    == cell_with(
                    final(store).nodes(),
                    *self,
                    x as int,
                    y as int,
                    cell == Cell::Alive,
                    a,
                    b,
                ),
            final(store).pop(node) + one_if(old(store).cell(*self, x as int, y as int)) == old(
                store,
            ).pop(*self) + one_if(cell == Cell::Alive),
        decreases self.level, 0nat,
    {
        let ghost n0 = store.nodes();
        proof {
            lemma_stored(n0, *self);
        }
        let ne = self.ne(store);
        let nw = self.nw(store);
        let se = self.se(store);
        let sw = self.sw(store);
        let offset = quarter_i64(self.level);
        proof {
            crate::node::subregion::lemma_quadrant_pops(n0, *self);
            lemma_pop_fits(store, *self);
            lemma_in_quadrant(self.level as int, x as int, y as int);
            lemma_quarter(self.level as int);
        }
        let ghost l = self.level as int;
        let ghost q = quarter(l);
        if x < 0 && y < 0 {
            proof {
                assert(in_bounds(l - 1, in_quadrant(l, x as int, y as int).0, in_quadrant(l, x as int, y as int).1));
            }
            let new_nw = nw.set_cell(store, x + offset, y + offset, cell);
            let ghost n1 = store.nodes();
            proof {
                lemma_extends(n0, n1, nw);
                lemma_extends(n0, n1, ne);
                lemma_extends(n0, n1, se);
                lemma_extends(n0, n1, sw);
            }
            let node = store.create_interior(NodeTemplate { ne, nw: new_nw, se, sw });
            proof {
                lemma_set_interior(n0, n1, store.nodes(), *self, node, nw, ne, sw, se, new_nw, ne, sw, se, x as int, y as int, cell == Cell::Alive);
            }
            node
        } else if x < 0 {
            proof {
                assert(in_bounds(l - 1, in_quadrant(l, x as int, y as int).0, in_quadrant(l, x as int, y as int).1));
            }
            let new_sw = sw.set_cell(store, x + offset, y - offset, cell);
            let ghost n1 = store.nodes();
            proof {
                lemma_extends(n0, n1, nw);
                lemma_extends(n0, n1, ne);
                lemma_extends(n0, n1, se);
                lemma_extends(n0, n1, sw);
            }
            let node = store.create_interior(NodeTemplate { ne, nw, se, sw: new_sw });
            proof {
                lemma_set_interior(n0, n1, store.nodes(), *self, node, nw, ne, sw, se, nw, ne, new_sw, se, x as int, y as int, cell == Cell::Alive);
            }
            node
        } else if y < 0 {
            proof {
                assert(in_bounds(l - 1, in_quadrant(l, x as int, y as int).0, in_quadrant(l, x as int, y as int).1));
            }
            let new_ne = ne.set_cell(store, x - offset, y + offset, cell);
            let ghost n1 = store.nodes();
            proof {
                lemma_extends(n0, n1, nw);
                lemma_extends(n0, n1, ne);
                lemma_extends(n0, n1, se);
                lemma_extends(n0, n1, sw);
            }
            let node = store.create_interior(NodeTemplate { ne: new_ne, nw, se, sw });
            proof {
                lemma_set_interior(n0, n1, store.nodes(), *self, node, nw, ne, sw, se, nw, new_ne, sw, se, x as int, y as int, cell == Cell::Alive);
            }
            node
        } else {
            proof {
                assert(in_bounds(l - 1, in_quadrant(l, x as int, y as int).0, in_quadrant(l, x as int, y as int).1));
            }
            let new_se = se.set_cell(store, x - offset, y - offset, cell);
            let ghost n1 = store.nodes();
            proof {
                lemma_extends(n0, n1, nw);
                lemma_extends(n0, n1, ne);
                lemma_extends(n0, n1, se);
                lemma_extends(n0, n1, sw);
            }
            let node = store.create_interior(NodeTemplate { ne, nw, se: new_se, sw });
            proof {
                lemma_set_interior(n0, n1, store.nodes(), *self, node, nw, ne, sw, se, nw, ne, sw, new_se, x as int, y as int, cell == Cell::Alive);
            }
            node
        }
    
    }
}

/// The cells of an interior node rebuilt after one of its quadrants had a
/// cell set.
proof fn lemma_set_interior(
    n0: Seq<Node>,
    n1: Seq<Node>,
    n2: Seq<Node>,
    n: Node,
    r: Node,
    nw: Node,
    ne: Node,
    sw: Node,
    se: Node,
    nw2: Node,
    ne2: Node,
    sw2: Node,
    se2: Node,
    x: int,
    y: int,
    alive: bool,
)
    requires
        nodes_ok(n0),
        nodes_ok(n1),
        extends(n0, n1),
        extends(n1, n2),
        node_in(n0, n),
        node_in(n0, nw) && node_in(n0, ne) && node_in(n0, sw) && node_in(n0, se),
        node_in(n1, nw2) && node_in(n1, ne2) && node_in(n1, sw2) && node_in(n1, se2),
        3 <= n.level <= MAX_LEVEL,
        r.level == n.level,
        in_bounds(n.level as int, x, y),
        shifted(n0, n, ne, east_shift(n.level as int), west_shift(n.level as int)),
        shifted(n0, n, nw, west_shift(n.level as int), west_shift(n.level as int)),
        shifted(n0, n, se, east_shift(n.level as int), east_shift(n.level as int)),
        shifted(n0, n, sw, west_shift(n.level as int), east_shift(n.level as int)),
        nw.level + 1 == n.level && ne.level + 1 == n.level && sw.level + 1 == n.level && se.level + 1
            == n.level,
        (x < 0 && y < 0) ==> ne2 == ne && sw2 == sw && se2 == se,
        (x < 0 && y >= 0) ==> ne2 == ne && nw2 == nw && se2 == se,
        (x >= 0 && y < 0) ==> nw2 == nw && sw2 == sw && se2 == se,
        (x >= 0 && y >= 0) ==> ne2 == ne && sw2 == sw && nw2 == nw,
        forall|a: int, b: int|
            in_bounds(n.level - 1, a, b) ==> #[trigger] cell_of(n1, nw2, a, b) == (if x < 0 && y < 0 {
                cell_with(n0, nw, x + quarter(n.level as int), y + quarter(n.level as int), alive, a, b)
            } else {
                cell_of(n0, nw, a, b)
            }),
        forall|a: int, b: int|
            in_bounds(n.level - 1, a, b) ==> #[trigger] cell_of(n1, sw2, a, b) == (if x < 0 && y >= 0 {
                cell_with(n0, sw, x + quarter(n.level as int), y - quarter(n.level as int), alive, a, b)
            } else {
                cell_of(n0, sw, a, b)
            }),
        forall|a: int, b: int|
            in_bounds(n.level - 1, a, b) ==> #[trigger] cell_of(n1, ne2, a, b) == (if x >= 0 && y < 0 {
                cell_with(n0, ne, x - quarter(n.level as int), y + quarter(n.level as int), alive, a, b)
            } else {
                cell_of(n0, ne, a, b)
            }),
        forall|a: int, b: int|
            in_bounds(n.level - 1, a, b) ==> #[trigger] cell_of(n1, se2, a, b) == (if x >= 0 && y >= 0 {
                cell_with(n0, se, x - quarter(n.level as int), y - quarter(n.level as int), alive, a, b)
            } else {
                cell_of(n0, se, a, b)
            }),
        forall|a: int, b: int|
            in_bounds(r.level as int, a, b) ==> #[trigger] cell_of(n2, r, a, b) == quad_cell(
                n2,
                nw2,
                ne2,
                sw2,
                se2,
                r.level as int,
                a,
                b,
            ),
    ensures
        forall|a: int, b: int|
            in_bounds(n.level as int, a, b) ==> #[trigger] cell_of(n2, r, a, b) == cell_with(
                n2,
                n,
                x,
                y,
                alive,
                a,
                b,
            ),
{
    lemma_extends(n0, n2, n);
    lemma_extends(n1, n2, nw2);
    lemma_extends(n1, n2, ne2);
    lemma_extends(n1, n2, sw2);
    lemma_extends(n1, n2, se2);
    let l = n.level as int;
    lemma_quarter(l);
    let q = quarter(l);
    assert forall|a: int, b: int| in_bounds(l, a, b) implies #[trigger] cell_of(n2, r, a, b)
        == cell_with(n2, n, x, y, alive, a, b) by {
        lemma_in_quadrant(l, a, b);
        if a < 0 && b < 0 {
            assert(cell_of(n0, nw, a + q, b + q) == cell_of(n0, n, a, b));
        } else if a >= 0 && b < 0 {
            assert(cell_of(n0, ne, a - q, b + q) == cell_of(n0, n, a, b));
        } else if a < 0 && b >= 0 {
            assert(cell_of(n0, sw, a + q, b - q) == cell_of(n0, n, a, b));
        } else {
            assert(cell_of(n0, se, a - q, b - q) == cell_of(n0, n, a, b));
        }
    }
}

} // verus!
