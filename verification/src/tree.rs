//! Levels of a quadtree, and 8 by 8 leaves held in a `Bool8x8`.

use vstd::prelude::*;

use crate::bool8x8::{bit64, shift_amount, Bool8x8};
use crate::coords::Offset;
use crate::grid::Grid2;
use crate::rule::{cell8, rule_evolve, rule_generation, stepped, Rule};
use crate::window::{
    centers_cell, corners_cell, horiz_cell, lemma_halves_horiz, lemma_halves_vert, lemma_moved_down,
    lemma_moved_up, lemma_quarters, lemma_step_shows, shows8, vert_cell,
};
use crate::node::cells::pow2_i64;
use crate::node::{two_pow, Level};
use crate::store::{count64, Id};
use crate::Cell;

verus! {

/// What went wrong building a quadtree.
#[derive(Clone, Copy, Debug, PartialEq, Eq, Structural)]
pub enum TreeError {
    /// The level is already the highest.
    Increment,
    /// The four nodes are not all leaves or all branches.
    Unbalanced,
}

impl Level {
    /// The next level up, unless this is level 63.
    pub fn increment(&self) -> (r: Result<Level, TreeError>)
        ensures
            self.0 < 63 ==> r == Ok::<Level, TreeError>(Level((self.0 + 1) as u8)),
            self.0 >= 63 ==> r == Err::<Level, TreeError>(TreeError::Increment),
    {
        if self.0 < 63 {
            Ok(Level(self.0 + 1))
        } else {
            Err(TreeError::Increment)
        }
    }

    /// The width of a node of this level: `2^level`.
    pub fn side_len(&self) -> (len: u64)
        requires
            self.0 < 64,
        ensures
            len == two_pow(self.0 as nat),
    {
        proof {
            crate::node::lemma_two_pow_u64(self.0 as nat);
        }
        1u64 << self.0
    }

    /// The most generations a node of this level can be advanced:
    /// `2^(level - 1)`.
    pub fn max_steps(&self) -> (steps: u64)
        requires
            1 <= self.0 <= 64,
        ensures
            steps == two_pow((self.0 - 1) as nat),
    {
        proof {
            crate::node::lemma_two_pow_u64((self.0 - 1) as nat);
        }
        1u64 << (self.0 - 1)
    }

    /// The smallest coordinate of a node of this level: `-2^(level - 1)`.
    pub fn min_coord(&self) -> (coord: i64)
        requires
            1 <= self.0 <= 63,
        ensures
            coord == -two_pow((self.0 - 1) as nat),
    {
        -pow2_i64(self.0 - 1)
    }

    /// `2^(level - 2)`: the expression `1 << (level - 1) - 1` subtracts
    /// before it shifts, so this is half the number of coordinates on each
    /// side of the center, not the largest coordinate `2^(level - 1) - 1`.
    pub fn max_coord(&self) -> (coord: i64)
        requires
            2 <= self.0 <= 64,
        ensures
            coord == two_pow((self.0 - 2) as nat),
    {
        pow2_i64(self.0 - 2)
    }
}

/// The bit of a leaf that holds `(x, y)`, `x` and `y` in `-4..=3`.
pub open spec fn leaf_index(x: int, y: int) -> int {
    63 - 8 * (y + 4) - (x + 4)
}

/// An 8 by 8 square of cells.
#[derive(Clone, Copy, Debug, PartialEq, Eq, Structural)]
pub struct Leaf {
    /// The alive cells.
    pub alive: Bool8x8,
}

/// A node above the leaves: four children one level lower.
#[derive(Clone, Copy, Debug, PartialEq, Eq)]
pub struct Branch {
    /// The children, northwest, northeast, southwest, southeast.
    pub children: Grid2<Id>,
    /// The level of the node.
    pub level: Level,
    /// The number of alive cells.
    pub population: u128,
}

/// A node of a quadtree.
#[derive(Clone, Copy, Debug, PartialEq, Eq)]
pub enum Node {
    /// An 8 by 8 leaf, of level 3.
    Leaf(Leaf),
    /// A node above the leaves.
    Branch(Branch),
}

impl Node {
    /// The level of the node: 3 for a leaf.
    pub fn level(&self) -> (level: Level)
        ensures
            level == (match *self {
                Node::Leaf(_) => Level(3),
                Node::Branch(branch) => branch.level,
            }),
    {
        match self {
            Node::Leaf(_) => Level(3),
            Node::Branch(branch) => branch.level,
        }
    }

    /// The number of alive cells of the node.
    pub fn population(&self) -> (population: u128)
        ensures
            population == (match *self {
                Node::Leaf(leaf) => count64(leaf.alive.0, 64) as int,
                Node::Branch(branch) => branch.population as int,
            }),
    {
        match self {
            Node::Leaf(leaf) => crate::store::Leaf::new(leaf.alive.0).population(),
            Node::Branch(branch) => branch.population,
        }
    }
}

/// The four children of a node, all of one kind.
#[derive(Clone, Copy, Debug, PartialEq, Eq)]
pub enum Children {
    /// Four leaves.
    Leaves(Grid2<Leaf>),
    /// Four branches.
    Branches(Grid2<Branch>),
}

impl Grid2<Node> {
    /// The four nodes as leaves or as branches; `Unbalanced` when they are
    /// not all of one kind.
    pub fn classify(&self) -> (r: Result<Children, TreeError>)
        ensures
            (forall|i: int| 0 <= i < 4 ==> #[trigger] self.0@[i] is Leaf) ==> (r matches Ok(Children::Leaves(g))
                && forall|i: int| 0 <= i < 4 ==> Node::Leaf(#[trigger] g.0@[i]) == self.0@[i]),
            (forall|i: int| 0 <= i < 4 ==> #[trigger] self.0@[i] is Branch) ==> (r matches Ok(
                Children::Branches(g),
            ) && forall|i: int| 0 <= i < 4 ==> Node::Branch(#[trigger] g.0@[i]) == self.0@[i]),
            !(forall|i: int| 0 <= i < 4 ==> #[trigger] self.0@[i] is Leaf) && !(forall|i: int|
                0 <= i < 4 ==> #[trigger] self.0@[i] is Branch) ==> r == Err::<Children, TreeError>(
                TreeError::Unbalanced,
            ),
    {
        match (self.0[0], self.0[1], self.0[2], self.0[3]) {
            (Node::Leaf(a), Node::Leaf(b), Node::Leaf(c), Node::Leaf(d)) => {
                let g = Grid2([a, b, c, d]);
                proof {
                    assert(forall|i: int| 0 <= i < 4 ==> Node::Leaf(#[trigger] g.0@[i]) == self.0@[i]);
                }
                Ok(Children::Leaves(g))
            },
            (Node::Branch(a), Node::Branch(b), Node::Branch(c), Node::Branch(d)) => {
                let g = Grid2([a, b, c, d]);
                proof {
                    assert(forall|i: int| 0 <= i < 4 ==> Node::Branch(#[trigger] g.0@[i]) == self.0@[i]);
                }
                Ok(Children::Branches(g))
            },
            _ => {
                proof {
                    if forall|i: int| 0 <= i < 4 ==> #[trigger] self.0@[i] is Leaf {
                        assert(self.0@[0] is Leaf && self.0@[1] is Leaf && self.0@[2] is Leaf && self.0@[3] is Leaf);
                    }
                    if forall|i: int| 0 <= i < 4 ==> #[trigger] self.0@[i] is Branch {
                        assert(self.0@[0] is Branch && self.0@[1] is Branch && self.0@[2] is Branch && self.0@[3]
                            is Branch);
                    }
                }
                Err(TreeError::Unbalanced)
            },
        }
    }
}

impl Leaf {
    /// Creates a leaf with the given alive cells.
    pub fn new(alive: Bool8x8) -> (leaf: Self)
        ensures
            leaf.alive == alive,
    {
        Self { alive }
    }

    /// A leaf without alive cells.
    pub fn dead() -> (leaf: Self)
        ensures
            leaf.alive.0 == 0,
    {
        Self::new(Bool8x8(Bool8x8::FALSE))
    }

    /// A leaf whose cells are all alive.
    pub fn alive() -> (leaf: Self)
        ensures
            leaf.alive.0 == 0xFFFF_FFFF_FFFF_FFFF,
    {
        Self::new(Bool8x8(Bool8x8::TRUE))
    }

    /// The cell at `(x, y)`.
    pub fn get_cell(&self, x: i64, y: i64) -> (cell: Cell)
        requires
            x <= i64::MAX - 4,
            y <= i64::MAX - 4,
            i64::MIN + 63 <= 8 * (y + 4) <= i64::MAX,
            0 <= leaf_index(x as int, y as int) < 64,
        ensures
            (cell == Cell::Alive) == bit64(self.alive.0, leaf_index(x as int, y as int) as u64),
    {
        let index = (63 - 8 * (y + 4) - (x + 4)) as usize;
        if self.alive.get_bit(index) {
            Cell::Alive
        } else {
            Cell::Dead
        }
    }

    /// The leaf with the cell at `(x, y)` set.
    pub fn set_cell(&self, x: i64, y: i64, value: Cell) -> (leaf: Self)
        requires
            x <= i64::MAX - 4,
            y <= i64::MAX - 4,
            i64::MIN + 63 <= 8 * (y + 4) <= i64::MAX,
            0 <= leaf_index(x as int, y as int) < 64,
        ensures
            forall|i: u64| i < 64 ==> #[trigger] bit64(leaf.alive.0, i) == if i == leaf_index(x as int, y as int) {
                value == Cell::Alive
            } else {
                bit64(self.alive.0, i)
            },
    {
        let index = (63 - 8 * (y + 4) - (x + 4)) as usize;
        match value {
            Cell::Dead => Self::new(self.alive.unset_bit(index)),
            Cell::Alive => Self::new(self.alive.set_bit(index)),
        }
    }
}

} // verus!

verus! {

/// `w` is two generations of the rule on `v`.
pub open spec fn jumped(rule: Rule, v: u64, w: u64) -> bool {
    exists|m: u64| #[trigger] stepped(rule, v, m) && stepped(rule, m, w)
}

/// The four grids of a 2 by 2 group show `g` from the corners of a square
/// of side 4 with `(ox, oy)` at its northwest corner.
pub open spec fn group_shows(group: Grid2<Leaf>, g: spec_fn(int, int) -> bool, ox: int, oy: int) -> bool {
    &&& shows8(group.0@[0].alive.0, g, ox, oy, 0)
    &&& shows8(group.0@[1].alive.0, g, ox + 4, oy, 0)
    &&& shows8(group.0@[2].alive.0, g, ox, oy + 4, 0)
    &&& shows8(group.0@[3].alive.0, g, ox + 4, oy + 4, 0)
}

/// Each quadrant of `w` is the center of the quadrant's grid, which shows
/// its own grid from its own offset.
pub open spec fn centers_show(
    w: u64,
    g0: spec_fn(int, int) -> bool,
    g1: spec_fn(int, int) -> bool,
    g2: spec_fn(int, int) -> bool,
    g3: spec_fn(int, int) -> bool,
    o0: (int, int),
    o1: (int, int),
    o2: (int, int),
    o3: (int, int),
) -> bool {
    forall|c: int, r: int|
        0 <= c < 8 && 0 <= r < 8 ==> #[trigger] cell8(w, c, r) == if r < 4 {
            if c < 4 {
                g0(o0.0 + c + 2, o0.1 + r + 2)
            } else {
                g1(o1.0 + c - 2, o1.1 + r + 2)
            }
        } else {
            if c < 4 {
                g2(o2.0 + c + 2, o2.1 + r - 2)
            } else {
                g3(o3.0 + c - 2, o3.1 + r - 2)
            }
        }
}

/// The 16 by 16 grid of four leaves, dead outside it, `(0, 0)` at the
/// northwest corner of the northwest leaf.
pub open spec fn leaves_grid(leaves: Grid2<Leaf>) -> spec_fn(int, int) -> bool {
    |x: int, y: int|
        0 <= x < 16 && 0 <= y < 16 && if y < 8 {
            if x < 8 {
                cell8(leaves.0@[0].alive.0, x, y)
            } else {
                cell8(leaves.0@[1].alive.0, x - 8, y)
            }
        } else {
            if x < 8 {
                cell8(leaves.0@[2].alive.0, x, y - 8)
            } else {
                cell8(leaves.0@[3].alive.0, x - 8, y - 8)
            }
        }
}

/// The 4 by 4 block of `g` at `(bx, by)`, repeated over the whole plane.
pub open spec fn block_torus(g: spec_fn(int, int) -> bool, bx: int, by: int) -> spec_fn(int, int) -> bool {
    |x: int, y: int| g(bx + x % 4, by + y % 4)
}

/// The cell `(c, r)` of what `evolve_leaves` gives for one or two steps:
/// the 4 by 4 block of the center of the grid behind the cell's quadrant,
/// evolved as if it wrapped around, read two cells toward the block's far
/// side.
pub open spec fn wrapped_center_cell(rule: Rule, g: spec_fn(int, int) -> bool, t: nat, c: int, r: int) -> bool {
    let bx = if c < 4 { 4int } else { 8int };
    let by = if r < 4 { 4int } else { 8int };
    let pc = if c < 4 { c + 2 } else { c - 2 };
    let pr = if r < 4 { r + 2 } else { r - 2 };
    rule_evolve(rule, block_torus(g, bx, by), t)(pc, pr)
}

/// How far `shift` moves the bits for the offsets that joining uses.
proof fn lemma_join_shifts()
    ensures
        shift_amount(Offset::West(4)) == -4,
        shift_amount(Offset::East(4)) == 4,
        shift_amount(Offset::North(4)) == -32,
        shift_amount(Offset::South(4)) == 32,
        shift_amount(Offset::Northwest(4)) == -36,
        shift_amount(Offset::Northeast(4)) == -28,
        shift_amount(Offset::Southwest(4)) == 28,
        shift_amount(Offset::Southeast(4)) == 36,
        shift_amount(Offset::Northwest(2)) == -18,
        shift_amount(Offset::Northeast(2)) == -14,
        shift_amount(Offset::Southwest(2)) == 14,
        shift_amount(Offset::Southeast(2)) == 18,
{
}

/// Two generations on a grid that shows `g` show the generation after the
/// next of `g`, two cells further in from the border.
proof fn lemma_jump_shows(rule: Rule, v: u64, w: u64, g: spec_fn(int, int) -> bool, ox: int, oy: int, a: int)
    requires
        jumped(rule, v, w),
        shows8(v, g, ox, oy, a),
        0 <= a <= 1,
    ensures
        shows8(w, rule_generation(rule, rule_generation(rule, g)), ox, oy, a + 2),
{
    let m = choose|m: u64| #[trigger] stepped(rule, v, m) && stepped(rule, m, w);
    lemma_step_shows(rule, v, m, g, ox, oy, a);
    lemma_step_shows(rule, m, w, rule_generation(rule, g), ox, oy, a + 1);
}

/// Four centers that show one grid from the corners of a square of side 4
/// show it whole.
proof fn lemma_centers_one_grid(w: u64, g: spec_fn(int, int) -> bool, ox: int, oy: int)
    requires
        centers_show(w, g, g, g, g, (ox, oy), (ox + 4, oy), (ox, oy + 4), (ox + 4, oy + 4)),
    ensures
        shows8(w, g, ox + 2, oy + 2, 0),
{
    assert forall|c: int, r: int| 0 <= c < 8 && 0 <= r < 8 implies #[trigger] cell8(w, c, r) == g(ox + 2 + c, oy + 2 + r) by {
        if r < 4 {
            if c < 4 {
                assert(g(ox + c + 2, oy + r + 2) == g(ox + 2 + c, oy + 2 + r));
            } else {
                assert(g(ox + 4 + c - 2, oy + r + 2) == g(ox + 2 + c, oy + 2 + r));
            }
        } else {
            if c < 4 {
                assert(g(ox + c + 2, oy + 4 + r - 2) == g(ox + 2 + c, oy + 2 + r));
            } else {
                assert(g(ox + 4 + c - 2, oy + 4 + r - 2) == g(ox + 2 + c, oy + 2 + r));
            }
        }
    }
}

/// The inner quadrants of a group that shows `g` show the 4 by 4 block of
/// `g` at the group's center, repeated.
proof fn lemma_corners_torus(w: u64, group: Grid2<Leaf>, g: spec_fn(int, int) -> bool, ox: int, oy: int)
    requires
        group_shows(group, g, ox, oy),
        forall|c: int, r: int|
            0 <= c < 8 && 0 <= r < 8 ==> #[trigger] cell8(w, c, r) == corners_cell(
                group.0@[0].alive.0,
                group.0@[1].alive.0,
                group.0@[2].alive.0,
                group.0@[3].alive.0,
                c,
                r,
            ),
    ensures
        shows8(w, block_torus(g, ox + 4, oy + 4), 0, 0, 0),
{
    assert forall|c: int, r: int| 0 <= c < 8 && 0 <= r < 8 implies #[trigger] cell8(w, c, r) == block_torus(
        g,
        ox + 4,
        oy + 4,
    )(0 + c, 0 + r) by {
        if c < 4 {
            assert(c % 4 == c);
        } else {
            assert(c % 4 == c - 4);
        }
        if r < 4 {
            assert(r % 4 == r);
        } else {
            assert(r % 4 == r - 4);
        }
        let n0 = group.0@[0].alive.0;
        let n1 = group.0@[1].alive.0;
        let n2 = group.0@[2].alive.0;
        let n3 = group.0@[3].alive.0;
        if r < 4 {
            if c < 4 {
                assert(cell8(n0, c + 4, r + 4) == g(ox + (c + 4), oy + (r + 4)));
            } else {
                assert(cell8(n1, c - 4, r + 4) == g(ox + 4 + (c - 4), oy + (r + 4)));
            }
        } else {
            if c < 4 {
                assert(cell8(n2, c + 4, r - 4) == g(ox + (c + 4), oy + 4 + (r - 4)));
            } else {
                assert(cell8(n3, c - 4, r - 4) == g(ox + 4 + (c - 4), oy + 4 + (r - 4)));
            }
        }
    }
}

impl Leaf {
    /// One generation of the rule; only the cells off the border follow
    /// their true neighbours.
    pub fn step(&self, rule: Rule) -> (leaf: Leaf)
        ensures
            stepped(rule, self.alive.0, leaf.alive.0),
    {
        Self::new(rule.step(self.alive))
    }

    /// Two generations of the rule.
    pub fn jump(&self, rule: Rule) -> (leaf: Leaf)
        ensures
            jumped(rule, self.alive.0, leaf.alive.0),
    {
        let mid = self.step(rule);
        let leaf = mid.step(rule);
        assert(stepped(rule, self.alive.0, mid.alive.0) && stepped(rule, mid.alive.0, leaf.alive.0));
        leaf
    }

    /// The leaf across the seam of a western and an eastern leaf.
    pub fn join_horiz(west: Leaf, east: Leaf) -> (leaf: Leaf)
        ensures
            forall|c: int, r: int|
                0 <= c < 8 && 0 <= r < 8 ==> #[trigger] cell8(leaf.alive.0, c, r) == horiz_cell(
                    west.alive.0,
                    east.alive.0,
                    c,
                    r,
                ),
    {
        proof {
            lemma_join_shifts();
        }
        let a = west.alive.shift(Offset::West(4));
        let b = east.alive.shift(Offset::East(4));
        let combined = Bool8x8(Bool8x8::FALSE).or(a.and(Bool8x8(Bool8x8::WEST))).or(b.and(Bool8x8(Bool8x8::EAST)));
        proof {
            assert forall|c: int, r: int| 0 <= c < 8 && 0 <= r < 8 implies #[trigger] cell8(combined.0, c, r) == horiz_cell(
                west.alive.0,
                east.alive.0,
                c,
                r,
            ) by {
                lemma_halves_horiz(a.0, b.0, c, r);
                if c < 4 {
                    lemma_moved_up(west.alive.0, 4, 0, c, r);
                } else {
                    lemma_moved_down(east.alive.0, 4, 0, c, r);
                }
            }
        }
        Self::new(combined)
    }

    /// The leaf across the seam of a northern and a southern leaf.
    pub fn join_vert(north: Leaf, south: Leaf) -> (leaf: Leaf)
        ensures
            forall|c: int, r: int|
                0 <= c < 8 && 0 <= r < 8 ==> #[trigger] cell8(leaf.alive.0, c, r) == vert_cell(
                    north.alive.0,
                    south.alive.0,
                    c,
                    r,
                ),
    {
        proof {
            lemma_join_shifts();
        }
        let a = north.alive.shift(Offset::North(4));
        let b = south.alive.shift(Offset::South(4));
        let combined = Bool8x8(Bool8x8::FALSE).or(a.and(Bool8x8(Bool8x8::NORTH))).or(b.and(Bool8x8(Bool8x8::SOUTH)));
        proof {
            assert forall|c: int, r: int| 0 <= c < 8 && 0 <= r < 8 implies #[trigger] cell8(combined.0, c, r) == vert_cell(
                north.alive.0,
                south.alive.0,
                c,
                r,
            ) by {
                lemma_halves_vert(a.0, b.0, c, r);
                if r < 4 {
                    lemma_moved_up(north.alive.0, 0, 4, c, r);
                } else {
                    lemma_moved_down(south.alive.0, 0, 4, c, r);
                }
            }
        }
        Self::new(combined)
    }

    /// The leaf made of the centers of four leaves.
    pub fn join_centers(leaves: Grid2<Leaf>) -> (leaf: Leaf)
        ensures
            forall|c: int, r: int|
                0 <= c < 8 && 0 <= r < 8 ==> #[trigger] cell8(leaf.alive.0, c, r) == centers_cell(
                    leaves.0@[0].alive.0,
                    leaves.0@[1].alive.0,
                    leaves.0@[2].alive.0,
                    leaves.0@[3].alive.0,
                    c,
                    r,
                ),
    {
        proof {
            lemma_join_shifts();
        }
        let nw = leaves.0[0];
        let ne = leaves.0[1];
        let sw = leaves.0[2];
        let se = leaves.0[3];
        let a = nw.alive.shift(Offset::Northwest(2));
        let b = ne.alive.shift(Offset::Northeast(2));
        let c = sw.alive.shift(Offset::Southwest(2));
        let d = se.alive.shift(Offset::Southeast(2));
        let combined = Bool8x8(Bool8x8::FALSE).or(a.and(Bool8x8(Bool8x8::NORTHWEST))).or(
            b.and(Bool8x8(Bool8x8::NORTHEAST)),
        ).or(c.and(Bool8x8(Bool8x8::SOUTHWEST))).or(d.and(Bool8x8(Bool8x8::SOUTHEAST)));
        proof {
            assert forall|col: int, row: int| 0 <= col < 8 && 0 <= row < 8 implies #[trigger] cell8(combined.0, col, row)
                == centers_cell(nw.alive.0, ne.alive.0, sw.alive.0, se.alive.0, col, row) by {
                lemma_quarters(a.0, b.0, c.0, d.0, col, row);
                if row < 4 {
                    if col < 4 {
                        lemma_moved_up(nw.alive.0, 2, 2, col, row);
                    } else {
                        lemma_moved_up(ne.alive.0, -2, 2, col, row);
                    }
                } else {
                    if col < 4 {
                        lemma_moved_down(sw.alive.0, -2, 2, col, row);
                    } else {
                        lemma_moved_down(se.alive.0, 2, 2, col, row);
                    }
                }
            }
        }
        Self::new(combined)
    }

    /// The leaf at the center of four leaves.
    pub fn join_corners(leaves: Grid2<Leaf>) -> (leaf: Leaf)
        ensures
            forall|c: int, r: int|
                0 <= c < 8 && 0 <= r < 8 ==> #[trigger] cell8(leaf.alive.0, c, r) == corners_cell(
                    leaves.0@[0].alive.0,
                    leaves.0@[1].alive.0,
                    leaves.0@[2].alive.0,
                    leaves.0@[3].alive.0,
                    c,
                    r,
                ),
    {
        proof {
            lemma_join_shifts();
        }
        let nw = leaves.0[0];
        let ne = leaves.0[1];
        let sw = leaves.0[2];
        let se = leaves.0[3];
        let a = nw.alive.shift(Offset::Northwest(4));
        let b = ne.alive.shift(Offset::Northeast(4));
        let c = sw.alive.shift(Offset::Southwest(4));
        let d = se.alive.shift(Offset::Southeast(4));
        let combined = Bool8x8(Bool8x8::FALSE).or(a.and(Bool8x8(Bool8x8::NORTHWEST))).or(
            b.and(Bool8x8(Bool8x8::NORTHEAST)),
        ).or(c.and(Bool8x8(Bool8x8::SOUTHWEST))).or(d.and(Bool8x8(Bool8x8::SOUTHEAST)));
        proof {
            assert forall|col: int, row: int| 0 <= col < 8 && 0 <= row < 8 implies #[trigger] cell8(combined.0, col, row)
                == corners_cell(nw.alive.0, ne.alive.0, sw.alive.0, se.alive.0, col, row) by {
                lemma_quarters(a.0, b.0, c.0, d.0, col, row);
                if row < 4 {
                    if col < 4 {
                        lemma_moved_up(nw.alive.0, 4, 4, col, row);
                    } else {
                        lemma_moved_up(ne.alive.0, -4, 4, col, row);
                    }
                } else {
                    if col < 4 {
                        lemma_moved_down(sw.alive.0, -4, 4, col, row);
                    } else {
                        lemma_moved_down(se.alive.0, 4, 4, col, row);
                    }
                }
            }
        }
        Self::new(combined)
    }
}

/// The centers of the four leaves after one generation each.
fn join_step(
    leaves: Grid2<Leaf>,
    rule: Rule,
    Ghost(g0): Ghost<spec_fn(int, int) -> bool>,
    Ghost(g1): Ghost<spec_fn(int, int) -> bool>,
    Ghost(g2): Ghost<spec_fn(int, int) -> bool>,
    Ghost(g3): Ghost<spec_fn(int, int) -> bool>,
    Ghost(o0): Ghost<(int, int)>,
    Ghost(o1): Ghost<(int, int)>,
    Ghost(o2): Ghost<(int, int)>,
    Ghost(o3): Ghost<(int, int)>,
) -> (leaf: Leaf)
    requires
        shows8(leaves.0@[0].alive.0, g0, o0.0, o0.1, 0),
        shows8(leaves.0@[1].alive.0, g1, o1.0, o1.1, 0),
        shows8(leaves.0@[2].alive.0, g2, o2.0, o2.1, 0),
        shows8(leaves.0@[3].alive.0, g3, o3.0, o3.1, 0),
    ensures
        centers_show(
            leaf.alive.0,
            rule_generation(rule, g0),
            rule_generation(rule, g1),
            rule_generation(rule, g2),
            rule_generation(rule, g3),
            o0,
            o1,
            o2,
            o3,
        ),
{
    let nw = leaves.0[0].step(rule);
    let ne = leaves.0[1].step(rule);
    let sw = leaves.0[2].step(rule);
    let se = leaves.0[3].step(rule);
    proof {
        lemma_step_shows(rule, leaves.0@[0].alive.0, nw.alive.0, g0, o0.0, o0.1, 0);
        lemma_step_shows(rule, leaves.0@[1].alive.0, ne.alive.0, g1, o1.0, o1.1, 0);
        lemma_step_shows(rule, leaves.0@[2].alive.0, sw.alive.0, g2, o2.0, o2.1, 0);
        lemma_step_shows(rule, leaves.0@[3].alive.0, se.alive.0, g3, o3.0, o3.1, 0);
    }
    let stepped_leaves = Grid2([nw, ne, sw, se]);
    let leaf = Leaf::join_centers(stepped_leaves);
    proof {
        assert forall|c: int, r: int| 0 <= c < 8 && 0 <= r < 8 implies #[trigger] cell8(leaf.alive.0, c, r) == if r < 4 {
            if c < 4 {
                rule_generation(rule, g0)(o0.0 + c + 2, o0.1 + r + 2)
            } else {
                rule_generation(rule, g1)(o1.0 + c - 2, o1.1 + r + 2)
            }
        } else {
            if c < 4 {
                rule_generation(rule, g2)(o2.0 + c + 2, o2.1 + r - 2)
            } else {
                rule_generation(rule, g3)(o3.0 + c - 2, o3.1 + r - 2)
            }
        } by {
            assert(cell8(leaf.alive.0, c, r) == centers_cell(nw.alive.0, ne.alive.0, sw.alive.0, se.alive.0, c, r));
            if r < 4 {
                if c < 4 {
                    assert(cell8(nw.alive.0, c + 2, r + 2) == rule_generation(rule, g0)(o0.0 + (c + 2), o0.1 + (r + 2)));
                } else {
                    assert(cell8(ne.alive.0, c - 2, r + 2) == rule_generation(rule, g1)(o1.0 + (c - 2), o1.1 + (r + 2)));
                }
            } else {
                if c < 4 {
                    assert(cell8(sw.alive.0, c + 2, r - 2) == rule_generation(rule, g2)(o2.0 + (c + 2), o2.1 + (r - 2)));
                } else {
                    assert(cell8(se.alive.0, c - 2, r - 2) == rule_generation(rule, g3)(o3.0 + (c - 2), o3.1 + (r - 2)));
                }
            }
        }
    }
    leaf
}

/// The centers of the four leaves after two generations each.
fn join_jump(
    leaves: Grid2<Leaf>,
    rule: Rule,
    Ghost(g0): Ghost<spec_fn(int, int) -> bool>,
    Ghost(g1): Ghost<spec_fn(int, int) -> bool>,
    Ghost(g2): Ghost<spec_fn(int, int) -> bool>,
    Ghost(g3): Ghost<spec_fn(int, int) -> bool>,
    Ghost(o0): Ghost<(int, int)>,
    Ghost(o1): Ghost<(int, int)>,
    Ghost(o2): Ghost<(int, int)>,
    Ghost(o3): Ghost<(int, int)>,
) -> (leaf: Leaf)
    requires
        shows8(leaves.0@[0].alive.0, g0, o0.0, o0.1, 0),
        shows8(leaves.0@[1].alive.0, g1, o1.0, o1.1, 0),
        shows8(leaves.0@[2].alive.0, g2, o2.0, o2.1, 0),
        shows8(leaves.0@[3].alive.0, g3, o3.0, o3.1, 0),
    ensures
        centers_show(
            leaf.alive.0,
            rule_generation(rule, rule_generation(rule, g0)),
            rule_generation(rule, rule_generation(rule, g1)),
            rule_generation(rule, rule_generation(rule, g2)),
            rule_generation(rule, rule_generation(rule, g3)),
            o0,
            o1,
            o2,
            o3,
        ),
{
    let nw = leaves.0[0].jump(rule);
    let ne = leaves.0[1].jump(rule);
    let sw = leaves.0[2].jump(rule);
    let se = leaves.0[3].jump(rule);
    let ghost h0 = rule_generation(rule, rule_generation(rule, g0));
    let ghost h1 = rule_generation(rule, rule_generation(rule, g1));
    let ghost h2 = rule_generation(rule, rule_generation(rule, g2));
    let ghost h3 = rule_generation(rule, rule_generation(rule, g3));
    proof {
        lemma_jump_shows(rule, leaves.0@[0].alive.0, nw.alive.0, g0, o0.0, o0.1, 0);
        lemma_jump_shows(rule, leaves.0@[1].alive.0, ne.alive.0, g1, o1.0, o1.1, 0);
        lemma_jump_shows(rule, leaves.0@[2].alive.0, sw.alive.0, g2, o2.0, o2.1, 0);
        lemma_jump_shows(rule, leaves.0@[3].alive.0, se.alive.0, g3, o3.0, o3.1, 0);
    }
    let jumped_leaves = Grid2([nw, ne, sw, se]);
    let leaf = Leaf::join_centers(jumped_leaves);
    proof {
        assert forall|c: int, r: int| 0 <= c < 8 && 0 <= r < 8 implies #[trigger] cell8(leaf.alive.0, c, r) == if r < 4 {
            if c < 4 {
                h0(o0.0 + c + 2, o0.1 + r + 2)
            } else {
                h1(o1.0 + c - 2, o1.1 + r + 2)
            }
        } else {
            if c < 4 {
                h2(o2.0 + c + 2, o2.1 + r - 2)
            } else {
                h3(o3.0 + c - 2, o3.1 + r - 2)
            }
        } by {
            assert(cell8(leaf.alive.0, c, r) == centers_cell(nw.alive.0, ne.alive.0, sw.alive.0, se.alive.0, c, r));
            if r < 4 {
                if c < 4 {
                    assert(cell8(nw.alive.0, c + 2, r + 2) == h0(o0.0 + (c + 2), o0.1 + (r + 2)));
                } else {
                    assert(cell8(ne.alive.0, c - 2, r + 2) == h1(o1.0 + (c - 2), o1.1 + (r + 2)));
                }
            } else {
                if c < 4 {
                    assert(cell8(sw.alive.0, c + 2, r - 2) == h2(o2.0 + (c + 2), o2.1 + (r - 2)));
                } else {
                    assert(cell8(se.alive.0, c - 2, r - 2) == h3(o3.0 + (c - 2), o3.1 + (r - 2)));
                }
            }
        }
    }
    leaf
}

/// The partial result for a group of four windows that show `g` from the
/// corners of a square of side 4: its center block repeated for up to two
/// steps, its center one generation later for three, two for four.
fn make_partial(
    group: Grid2<Leaf>,
    steps: u64,
    rule: Rule,
    Ghost(g): Ghost<spec_fn(int, int) -> bool>,
    Ghost(ox): Ghost<int>,
    Ghost(oy): Ghost<int>,
) -> (leaf: Leaf)
    requires
        group_shows(group, g, ox, oy),
        steps <= 4,
    ensures
        steps <= 2 ==> shows8(leaf.alive.0, block_torus(g, ox + 4, oy + 4), 0, 0, 0),
        steps == 3 ==> shows8(leaf.alive.0, rule_generation(rule, g), ox + 2, oy + 2, 0),
        steps == 4 ==> shows8(leaf.alive.0, rule_generation(rule, rule_generation(rule, g)), ox + 2, oy + 2, 0),
{
    if steps <= 2 {
        let leaf = Leaf::join_corners(group);
        proof {
            lemma_corners_torus(leaf.alive.0, group, g, ox, oy);
        }
        leaf
    } else if steps == 3 {
        let leaf = join_step(
            group,
            rule,
            Ghost(g),
            Ghost(g),
            Ghost(g),
            Ghost(g),
            Ghost((ox, oy)),
            Ghost((ox + 4, oy)),
            Ghost((ox, oy + 4)),
            Ghost((ox + 4, oy + 4)),
        );
        proof {
            lemma_centers_one_grid(leaf.alive.0, rule_generation(rule, g), ox, oy);
        }
        leaf
    } else {
        let leaf = join_jump(
            group,
            rule,
            Ghost(g),
            Ghost(g),
            Ghost(g),
            Ghost(g),
            Ghost((ox, oy)),
            Ghost((ox + 4, oy)),
            Ghost((ox, oy + 4)),
            Ghost((ox + 4, oy + 4)),
        );
        proof {
            lemma_centers_one_grid(leaf.alive.0, rule_generation(rule, rule_generation(rule, g)), ox, oy);
        }
        leaf
    }
}

/// The nine overlapping windows of four leaves, each showing the grid of
/// the leaves from a multiple of 4.
fn windows(leaves: Grid2<Leaf>) -> (w: (Leaf, Leaf, Leaf, Leaf, Leaf))
    ensures
        shows8(leaves.0@[0].alive.0, leaves_grid(leaves), 0, 0, 0),
        shows8(leaves.0@[1].alive.0, leaves_grid(leaves), 8, 0, 0),
        shows8(leaves.0@[2].alive.0, leaves_grid(leaves), 0, 8, 0),
        shows8(leaves.0@[3].alive.0, leaves_grid(leaves), 8, 8, 0),
        shows8(w.0.alive.0, leaves_grid(leaves), 4, 0, 0),
        shows8(w.1.alive.0, leaves_grid(leaves), 4, 8, 0),
        shows8(w.2.alive.0, leaves_grid(leaves), 0, 4, 0),
        shows8(w.3.alive.0, leaves_grid(leaves), 8, 4, 0),
        shows8(w.4.alive.0, leaves_grid(leaves), 4, 4, 0),
{
    let ghost g = leaves_grid(leaves);
    let northwest = leaves.0[0];
    let northeast = leaves.0[1];
    let southwest = leaves.0[2];
    let southeast = leaves.0[3];
    let north = Leaf::join_horiz(northwest, northeast);
    let south = Leaf::join_horiz(southwest, southeast);
    let west = Leaf::join_vert(northwest, southwest);
    let east = Leaf::join_vert(northeast, southeast);
    let center = Leaf::join_corners(leaves);
    proof {
        assert forall|c: int, r: int| 0 <= c < 8 && 0 <= r < 8 implies #[trigger] cell8(north.alive.0, c, r) == g(4 + c, 0 + r) by {
            assert(cell8(north.alive.0, c, r) == horiz_cell(northwest.alive.0, northeast.alive.0, c, r));
        }
        assert forall|c: int, r: int| 0 <= c < 8 && 0 <= r < 8 implies #[trigger] cell8(south.alive.0, c, r) == g(4 + c, 8 + r) by {
            assert(cell8(south.alive.0, c, r) == horiz_cell(southwest.alive.0, southeast.alive.0, c, r));
        }
        assert forall|c: int, r: int| 0 <= c < 8 && 0 <= r < 8 implies #[trigger] cell8(west.alive.0, c, r) == g(0 + c, 4 + r) by {
            assert(cell8(west.alive.0, c, r) == vert_cell(northwest.alive.0, southwest.alive.0, c, r));
        }
        assert forall|c: int, r: int| 0 <= c < 8 && 0 <= r < 8 implies #[trigger] cell8(east.alive.0, c, r) == g(8 + c, 4 + r) by {
            assert(cell8(east.alive.0, c, r) == vert_cell(northeast.alive.0, southeast.alive.0, c, r));
        }
        assert forall|c: int, r: int| 0 <= c < 8 && 0 <= r < 8 implies #[trigger] cell8(center.alive.0, c, r) == g(4 + c, 4 + r) by {
            assert(cell8(center.alive.0, c, r) == corners_cell(
                northwest.alive.0,
                northeast.alive.0,
                southwest.alive.0,
                southeast.alive.0,
                c,
                r,
            ));
        }
    }
    (north, south, west, east, center)
}

/// `rule_evolve` for up to four generations, spelled out.
proof fn lemma_evolve_unfold(rule: Rule, g: spec_fn(int, int) -> bool)
    ensures
        rule_evolve(rule, g, 0) == g,
        rule_evolve(rule, g, 1) == rule_generation(rule, g),
        rule_evolve(rule, g, 2) == rule_generation(rule, rule_generation(rule, g)),
        rule_evolve(rule, g, 3) == rule_generation(rule, rule_generation(rule, rule_generation(rule, g))),
        rule_evolve(rule, g, 4) == rule_generation(
            rule,
            rule_generation(rule, rule_generation(rule, rule_generation(rule, g))),
        ),
{
    reveal_with_fuel(rule_evolve, 5);
}

/// The last join for no step: the inner quadrants of the partial results.
fn finish_idle(partials: Grid2<Leaf>, Ghost(g): Ghost<spec_fn(int, int) -> bool>) -> (leaf: Leaf)
    requires
        shows8(partials.0@[0].alive.0, block_torus(g, 4, 4), 0, 0, 0),
        shows8(partials.0@[1].alive.0, block_torus(g, 8, 4), 0, 0, 0),
        shows8(partials.0@[2].alive.0, block_torus(g, 4, 8), 0, 0, 0),
        shows8(partials.0@[3].alive.0, block_torus(g, 8, 8), 0, 0, 0),
    ensures
        shows8(leaf.alive.0, g, 4, 4, 0),
{
    let leaf = Leaf::join_corners(partials);
    proof {
        assert forall|c: int, r: int| 0 <= c < 8 && 0 <= r < 8 implies #[trigger] cell8(leaf.alive.0, c, r) == g(4 + c, 4 + r) by {
            if c < 4 {
                assert((c + 4) % 4 == c);
            } else {
                assert((c - 4) % 4 == c - 4);
            }
            if r < 4 {
                assert((r + 4) % 4 == r);
            } else {
                assert((r - 4) % 4 == r - 4);
            }
            assert(cell8(leaf.alive.0, c, r) == corners_cell(
                partials.0@[0].alive.0,
                partials.0@[1].alive.0,
                partials.0@[2].alive.0,
                partials.0@[3].alive.0,
                c,
                r,
            ));
        }
    }
    leaf
}

/// The last join for one or two steps: the partial results, each a
/// repeated block, stepped once or twice.
fn finish_wrapped(partials: Grid2<Leaf>, steps: u64, rule: Rule, Ghost(g): Ghost<spec_fn(int, int) -> bool>) -> (leaf: Leaf)
    requires
        steps == 1 || steps == 2,
        shows8(partials.0@[0].alive.0, block_torus(g, 4, 4), 0, 0, 0),
        shows8(partials.0@[1].alive.0, block_torus(g, 8, 4), 0, 0, 0),
        shows8(partials.0@[2].alive.0, block_torus(g, 4, 8), 0, 0, 0),
        shows8(partials.0@[3].alive.0, block_torus(g, 8, 8), 0, 0, 0),
    ensures
        forall|c: int, r: int|
            0 <= c < 8 && 0 <= r < 8 ==> #[trigger] cell8(leaf.alive.0, c, r) == wrapped_center_cell(
                rule,
                g,
                steps as nat,
                c,
                r,
            ),
{
    proof {
        lemma_evolve_unfold(rule, block_torus(g, 4, 4));
        lemma_evolve_unfold(rule, block_torus(g, 8, 4));
        lemma_evolve_unfold(rule, block_torus(g, 4, 8));
        lemma_evolve_unfold(rule, block_torus(g, 8, 8));
    }
    if steps == 1 {
        join_step(
            partials,
            rule,
            Ghost(block_torus(g, 4, 4)),
            Ghost(block_torus(g, 8, 4)),
            Ghost(block_torus(g, 4, 8)),
            Ghost(block_torus(g, 8, 8)),
            Ghost((0, 0)),
            Ghost((0, 0)),
            Ghost((0, 0)),
            Ghost((0, 0)),
        )
    } else {
        join_jump(
            partials,
            rule,
            Ghost(block_torus(g, 4, 4)),
            Ghost(block_torus(g, 8, 4)),
            Ghost(block_torus(g, 4, 8)),
            Ghost(block_torus(g, 8, 8)),
            Ghost((0, 0)),
            Ghost((0, 0)),
            Ghost((0, 0)),
            Ghost((0, 0)),
        )
    }
}

/// The last join for three or four steps: the partial results, each the
/// center of its group some generations later, stepped twice more.
fn finish_evolved(partials: Grid2<Leaf>, rule: Rule, Ghost(h): Ghost<spec_fn(int, int) -> bool>) -> (leaf: Leaf)
    requires
        group_shows(partials, h, 2, 2),
    ensures
        shows8(leaf.alive.0, rule_generation(rule, rule_generation(rule, h)), 4, 4, 0),
{
    let leaf = join_jump(
        partials,
        rule,
        Ghost(h),
        Ghost(h),
        Ghost(h),
        Ghost(h),
        Ghost((2, 2)),
        Ghost((6, 2)),
        Ghost((2, 6)),
        Ghost((6, 6)),
    );
    proof {
        lemma_centers_one_grid(leaf.alive.0, rule_generation(rule, rule_generation(rule, h)), 2, 2);
    }
    leaf
}

impl Leaf {
    /// The center 8 by 8 of the 16 by 16 square of four leaves, `steps`
    /// generations of the rule later for 0, 3 or 4 steps. For 1 or 2 steps
    /// each quadrant of the result comes from the 4 by 4 block of the
    /// center behind it evolved as if it wrapped around (see
    /// `wrapped_center_cell`).
    #[verifier::spinoff_prover]
    #[verifier::rlimit(80)]
    pub fn evolve_leaves(leaves: Grid2<Leaf>, steps: u64, rule: Rule) -> (leaf: Leaf)
        requires
            steps <= 4,
        ensures
            steps == 0 || steps >= 3 ==> forall|c: int, r: int|
                0 <= c < 8 && 0 <= r < 8 ==> #[trigger] cell8(leaf.alive.0, c, r) == rule_evolve(
                    rule,
                    leaves_grid(leaves),
                    steps as nat,
                )(4 + c, 4 + r),
            steps == 1 || steps == 2 ==> forall|c: int, r: int|
                0 <= c < 8 && 0 <= r < 8 ==> #[trigger] cell8(leaf.alive.0, c, r) == wrapped_center_cell(
                    rule,
                    leaves_grid(leaves),
                    steps as nat,
                    c,
                    r,
                ),
    {
        let ghost g = leaves_grid(leaves);
        let northwest = leaves.0[0];
        let northeast = leaves.0[1];
        let southwest = leaves.0[2];
        let southeast = leaves.0[3];
        let (north, south, west, east, center) = windows(leaves);
        let partial_nw = make_partial(Grid2([northwest, north, west, center]), steps, rule, Ghost(g), Ghost(0), Ghost(0));
        let partial_ne = make_partial(Grid2([north, northeast, center, east]), steps, rule, Ghost(g), Ghost(4), Ghost(0));
        let partial_sw = make_partial(Grid2([west, center, southwest, south]), steps, rule, Ghost(g), Ghost(0), Ghost(4));
        let partial_se = make_partial(Grid2([center, east, south, southeast]), steps, rule, Ghost(g), Ghost(4), Ghost(4));
        let partial_leaves = Grid2([partial_nw, partial_ne, partial_sw, partial_se]);
        proof {
            lemma_evolve_unfold(rule, g);
        }
        if steps == 0 {
            finish_idle(partial_leaves, Ghost(g))
        } else if steps <= 2 {
            finish_wrapped(partial_leaves, steps, rule, Ghost(g))
        } else if steps == 3 {
            finish_evolved(partial_leaves, rule, Ghost(rule_generation(rule, g)))
        } else {
            finish_evolved(partial_leaves, rule, Ghost(rule_generation(rule, rule_generation(rule, g))))
        }
    }
}

} // verus!
