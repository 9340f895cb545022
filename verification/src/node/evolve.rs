//! Advancing nodes in time: the hashlife recursion, and the facts about
//! Conway's rule that it rests on.

use vstd::prelude::*;

use crate::node::cells::lemma_bit16_mask;
use crate::node::store::{b16, count_ones_u16, lemma_count16, NodeTemplate};
use crate::node::subregion::{east_shift, lemma_quadrant_window, shifted, west_shift};
use crate::node::{
    advanced, bit16, cell_of, count16, evolve, extends, grid_of, in_bounds, lemma_extends,
    lemma_quarter, lemma_small_pops, lemma_stored, lemma_two_pow_u64, life_rule, neighbours,
    next_generation, node_in, nodes_ok, quad_cell, quarter, two_pow, Node, NodeBase, Store,
    MAX_LEVEL,
};
use crate::Cell;

verus! {

/// `r` shows the grid `g` through a window shifted by `(dx, dy)`: each cell
/// `(a, b)` of `r` is the cell `(a + dx, b + dy)` of `g`.
pub open spec fn shows(nodes: Seq<Node>, r: Node, g: spec_fn(int, int) -> bool, dx: int, dy: int) -> bool {
    forall|a: int, b: int|
        in_bounds(r.level as int, a, b) ==> #[trigger] cell_of(nodes, r, a, b) == g(a + dx, b + dy)
}

/// The grids `g1` and `g2` agree on the square of radius `t` around `(x, y)`,
/// `g2` seen through a window shifted by `(dx, dy)`.
pub open spec fn agree_around(
    g1: spec_fn(int, int) -> bool,
    g2: spec_fn(int, int) -> bool,
    x: int,
    y: int,
    t: int,
    dx: int,
    dy: int,
) -> bool {
    forall|a: int, b: int|
        x - t <= a <= x + t && y - t <= b <= y + t ==> #[trigger] g1(a, b) == g2(a + dx, b + dy)
}

/// Life is local and the same everywhere: after `t` generations, a cell
/// depends only on the cells within distance `t` of it, wherever they are.
pub proof fn lemma_locality(
    g1: spec_fn(int, int) -> bool,
    g2: spec_fn(int, int) -> bool,
    t: nat,
    x: int,
    y: int,
    dx: int,
    dy: int,
)
    requires
        agree_around(g1, g2, x, y, t as int, dx, dy),
    ensures
        evolve(g1, t)(x, y) == evolve(g2, t)(x + dx, y + dy),
    decreases t,
{
    if t > 0 {
        let s = (t - 1) as nat;
        lemma_locality(g1, g2, s, x - 1, y - 1, dx, dy);
        lemma_locality(g1, g2, s, x, y - 1, dx, dy);
        lemma_locality(g1, g2, s, x + 1, y - 1, dx, dy);
        lemma_locality(g1, g2, s, x - 1, y, dx, dy);
        lemma_locality(g1, g2, s, x, y, dx, dy);
        lemma_locality(g1, g2, s, x + 1, y, dx, dy);
        lemma_locality(g1, g2, s, x - 1, y + 1, dx, dy);
        lemma_locality(g1, g2, s, x, y + 1, dx, dy);
        lemma_locality(g1, g2, s, x + 1, y + 1, dx, dy);
        let e1 = evolve(g1, s);
        let e2 = evolve(g2, s);
        let u = x + dx;
        let v = y + dy;
        assert(e1(x - 1, y - 1) == e2(u - 1, v - 1));
        assert(e1(x, y - 1) == e2(u, v - 1));
        assert(e1(x + 1, y - 1) == e2(u + 1, v - 1));
        assert(e1(x - 1, y) == e2(u - 1, v));
        assert(e1(x + 1, y) == e2(u + 1, v));
        assert(e1(x - 1, y + 1) == e2(u - 1, v + 1));
        assert(e1(x, y + 1) == e2(u, v + 1));
        assert(e1(x + 1, y + 1) == e2(u + 1, v + 1));
        assert(neighbours(e1, x, y) == neighbours(e2, u, v));
        assert(evolve(g1, t) == next_generation(e1));
        assert(evolve(g2, t) == next_generation(e2));
    }
}

/// Evolving `a` generations and then `b` more is evolving `a + b`.
pub proof fn lemma_evolve_compose(g: spec_fn(int, int) -> bool, a: nat, b: nat)
    ensures
        evolve(evolve(g, a), b) == evolve(g, a + b),
    decreases b,
{
    if b > 0 {
        lemma_evolve_compose(g, a, (b - 1) as nat);
        assert(evolve(evolve(g, a), b) == next_generation(evolve(evolve(g, a), (b - 1) as nat)));
        assert(evolve(g, a + b) == next_generation(evolve(g, (a + b - 1) as nat)));
    }
}

/// A node shows its own grid.
pub proof fn lemma_shows_own_grid(nodes: Seq<Node>, n: Node)
    ensures
        shows(nodes, n, grid_of(nodes, n), 0, 0),
{
}

/// A subregion of a node that shows a grid shows that grid too, through a
/// window shifted further by the subregion's offset.
pub proof fn lemma_shifted_shows(
    nodes: Seq<Node>,
    n: Node,
    r: Node,
    g: spec_fn(int, int) -> bool,
    ex: int,
    ey: int,
    dx: int,
    dy: int,
)
    requires
        shows(nodes, n, g, ex, ey),
        shifted(nodes, n, r, dx, dy),
        forall|a: int, b: int|
            #[trigger] in_bounds(r.level as int, a, b) ==> in_bounds(n.level as int, a + dx, b + dy),
    ensures
        shows(nodes, r, g, ex + dx, ey + dy),
{
    assert forall|a: int, b: int| in_bounds(r.level as int, a, b) implies #[trigger] cell_of(
        nodes,
        r,
        a,
        b,
    ) == g(a + (ex + dx), b + (ey + dy)) by {
        assert(in_bounds(n.level as int, a + dx, b + dy));
        assert(cell_of(nodes, n, a + dx, b + dy) == g(a + dx + ex, b + dy + ey));
    }
}

/// What a node shows is unchanged when nodes are appended to its store.
pub proof fn lemma_extends_shows(
    old: Seq<Node>,
    new: Seq<Node>,
    r: Node,
    g: spec_fn(int, int) -> bool,
    dx: int,
    dy: int,
)
    requires
        nodes_ok(old),
        extends(old, new),
        node_in(old, r),
        shows(old, r, g, dx, dy),
    ensures
        shows(new, r, g, dx, dy),
        node_in(new, r),
{
    lemma_extends(old, new, r);
}

/// The center of a node, `t` generations later, shows the grid the node
/// shows, `t` generations later: nothing from outside the node reaches the
/// center in `t` generations when `t` is at most a quarter of its width.
pub proof fn lemma_advanced_shows(
    nodes: Seq<Node>,
    m: Node,
    r: Node,
    g: spec_fn(int, int) -> bool,
    dx: int,
    dy: int,
    t: nat,
)
    requires
        2 <= m.level <= MAX_LEVEL,
        t <= quarter(m.level as int),
        shows(nodes, m, g, dx, dy),
        advanced(nodes, m, r, t),
    ensures
        shows(nodes, r, evolve(g, t), dx, dy),
{
    lemma_quarter(m.level as int);
    let gm = grid_of(nodes, m);
    assert forall|a: int, b: int| in_bounds(r.level as int, a, b) implies #[trigger] cell_of(
        nodes,
        r,
        a,
        b,
    ) == evolve(g, t)(a + dx, b + dy) by {
        assert forall|p: int, q: int|
            a - t <= p <= a + t && b - t <= q <= b + t implies #[trigger] gm(p, q) == g(
            p + dx,
            q + dy,
        ) by {
            assert(in_bounds(m.level as int, p, q));
            assert(cell_of(nodes, m, p, q) == g(p + dx, q + dy));
        }
        lemma_locality(gm, g, t, a, b, dx, dy);
    }
}

/// A node made of four quadrants, each showing a grid through the window of
/// its place, shows that grid.
pub proof fn lemma_assemble_shows(
    nodes: Seq<Node>,
    r: Node,
    nw: Node,
    ne: Node,
    sw: Node,
    se: Node,
    g: spec_fn(int, int) -> bool,
    dx: int,
    dy: int,
)
    requires
        2 <= r.level <= MAX_LEVEL,
        nw.level + 1 == r.level,
        ne.level + 1 == r.level,
        sw.level + 1 == r.level,
        se.level + 1 == r.level,
        forall|a: int, b: int|
            in_bounds(r.level as int, a, b) ==> #[trigger] cell_of(nodes, r, a, b) == quad_cell(
                nodes,
                nw,
                ne,
                sw,
                se,
                r.level as int,
                a,
                b,
            ),
        shows(nodes, nw, g, dx - quarter(r.level as int), dy - quarter(r.level as int)),
        shows(nodes, ne, g, dx + quarter(r.level as int), dy - quarter(r.level as int)),
        shows(nodes, sw, g, dx - quarter(r.level as int), dy + quarter(r.level as int)),
        shows(nodes, se, g, dx + quarter(r.level as int), dy + quarter(r.level as int)),
    ensures
        shows(nodes, r, g, dx, dy),
{
    let q = quarter(r.level as int);
    lemma_quarter(r.level as int);
    assert forall|a: int, b: int| in_bounds(r.level as int, a, b) implies #[trigger] cell_of(
        nodes,
        r,
        a,
        b,
    ) == g(a + dx, b + dy) by {
        assert(cell_of(nodes, r, a, b) == quad_cell(nodes, nw, ne, sw, se, r.level as int, a, b));
        if a < 0 && b < 0 {
            assert(in_bounds(nw.level as int, a + q, b + q));
            assert(cell_of(nodes, nw, a + q, b + q) == g(a + q + (dx - q), b + q + (dy - q)));
        } else if a >= 0 && b < 0 {
            assert(in_bounds(ne.level as int, a - q, b + q));
            assert(cell_of(nodes, ne, a - q, b + q) == g(a - q + (dx + q), b + q + (dy - q)));
        } else if a < 0 && b >= 0 {
            assert(in_bounds(sw.level as int, a + q, b - q));
            assert(cell_of(nodes, sw, a + q, b - q) == g(a + q + (dx - q), b - q + (dy + q)));
        } else {
            assert(in_bounds(se.level as int, a - q, b - q));
            assert(cell_of(nodes, se, a - q, b - q) == g(a - q + (dx + q), b - q + (dy + q)));
        }
    }
}

/// The neighbour mask of the northwest center cell of a level two node selects
/// the bits of its eight neighbours.
proof fn lemma_nw_mask_bits(c: u16)
    by (bit_vector)
    ensures
        bit16(0b1110_1010_1110_0000u16 & c, 15) == bit16(c, 15),
        bit16(0b1110_1010_1110_0000u16 & c, 14) == bit16(c, 14),
        bit16(0b1110_1010_1110_0000u16 & c, 13) == bit16(c, 13),
        !bit16(0b1110_1010_1110_0000u16 & c, 12),
        bit16(0b1110_1010_1110_0000u16 & c, 11) == bit16(c, 11),
        !bit16(0b1110_1010_1110_0000u16 & c, 10),
        bit16(0b1110_1010_1110_0000u16 & c, 9) == bit16(c, 9),
        !bit16(0b1110_1010_1110_0000u16 & c, 8),
        bit16(0b1110_1010_1110_0000u16 & c, 7) == bit16(c, 7),
        bit16(0b1110_1010_1110_0000u16 & c, 6) == bit16(c, 6),
        bit16(0b1110_1010_1110_0000u16 & c, 5) == bit16(c, 5),
        !bit16(0b1110_1010_1110_0000u16 & c, 4),
        !bit16(0b1110_1010_1110_0000u16 & c, 3),
        !bit16(0b1110_1010_1110_0000u16 & c, 2),
        !bit16(0b1110_1010_1110_0000u16 & c, 1),
        !bit16(0b1110_1010_1110_0000u16 & c, 0),
{
}

/// The number of alive neighbours of the northwest center cell of a level two
/// node.
proof fn lemma_nw_neighbours(c: u16)
    ensures
        count16(0b1110_1010_1110_0000u16 & c, 16) == b16(c, 15) + b16(c, 14) + b16(c, 13) + b16(c, 11) + b16(c, 9) + b16(c, 7) + b16(c, 6) + b16(c, 5),
{
    lemma_nw_mask_bits(c);
    lemma_count16(0b1110_1010_1110_0000u16 & c);
}

/// The neighbour mask of the northeast center cell of a level two node selects
/// the bits of its eight neighbours.
proof fn lemma_ne_mask_bits(c: u16)
    by (bit_vector)
    ensures
        !bit16(0b0111_0101_0111_0000u16 & c, 15),
        bit16(0b0111_0101_0111_0000u16 & c, 14) == bit16(c, 14),
        bit16(0b0111_0101_0111_0000u16 & c, 13) == bit16(c, 13),
        bit16(0b0111_0101_0111_0000u16 & c, 12) == bit16(c, 12),
        !bit16(0b0111_0101_0111_0000u16 & c, 11),
        bit16(0b0111_0101_0111_0000u16 & c, 10) == bit16(c, 10),
        !bit16(0b0111_0101_0111_0000u16 & c, 9),
        bit16(0b0111_0101_0111_0000u16 & c, 8) == bit16(c, 8),
        !bit16(0b0111_0101_0111_0000u16 & c, 7),
        bit16(0b0111_0101_0111_0000u16 & c, 6) == bit16(c, 6),
        bit16(0b0111_0101_0111_0000u16 & c, 5) == bit16(c, 5),
        bit16(0b0111_0101_0111_0000u16 & c, 4) == bit16(c, 4),
        !bit16(0b0111_0101_0111_0000u16 & c, 3),
        !bit16(0b0111_0101_0111_0000u16 & c, 2),
        !bit16(0b0111_0101_0111_0000u16 & c, 1),
        !bit16(0b0111_0101_0111_0000u16 & c, 0),
{
}

/// The number of alive neighbours of the northeast center cell of a level two
/// node.
proof fn lemma_ne_neighbours(c: u16)
    ensures
        count16(0b0111_0101_0111_0000u16 & c, 16) == b16(c, 14) + b16(c, 13) + b16(c, 12) + b16(c, 10) + b16(c, 8) + b16(c, 6) + b16(c, 5) + b16(c, 4),
{
    lemma_ne_mask_bits(c);
    lemma_count16(0b0111_0101_0111_0000u16 & c);
}

/// The neighbour mask of the southwest center cell of a level two node selects
/// the bits of its eight neighbours.
proof fn lemma_sw_mask_bits(c: u16)
    by (bit_vector)
    ensures
        !bit16(0b0000_1110_1010_1110u16 & c, 15),
        !bit16(0b0000_1110_1010_1110u16 & c, 14),
        !bit16(0b0000_1110_1010_1110u16 & c, 13),
        !bit16(0b0000_1110_1010_1110u16 & c, 12),
        bit16(0b0000_1110_1010_1110u16 & c, 11) == bit16(c, 11),
        bit16(0b0000_1110_1010_1110u16 & c, 10) == bit16(c, 10),
        bit16(0b0000_1110_1010_1110u16 & c, 9) == bit16(c, 9),
        !bit16(0b0000_1110_1010_1110u16 & c, 8),
        bit16(0b0000_1110_1010_1110u16 & c, 7) == bit16(c, 7),
        !bit16(0b0000_1110_1010_1110u16 & c, 6),
        bit16(0b0000_1110_1010_1110u16 & c, 5) == bit16(c, 5),
        !bit16(0b0000_1110_1010_1110u16 & c, 4),
        bit16(0b0000_1110_1010_1110u16 & c, 3) == bit16(c, 3),
        bit16(0b0000_1110_1010_1110u16 & c, 2) == bit16(c, 2),
        bit16(0b0000_1110_1010_1110u16 & c, 1) == bit16(c, 1),
        !bit16(0b0000_1110_1010_1110u16 & c, 0),
{
}

/// The number of alive neighbours of the southwest center cell of a level two
/// node.
proof fn lemma_sw_neighbours(c: u16)
    ensures
        count16(0b0000_1110_1010_1110u16 & c, 16) == b16(c, 11) + b16(c, 10) + b16(c, 9) + b16(c, 7) + b16(c, 5) + b16(c, 3) + b16(c, 2) + b16(c, 1),
{
    lemma_sw_mask_bits(c);
    lemma_count16(0b0000_1110_1010_1110u16 & c);
}

/// The neighbour mask of the southeast center cell of a level two node selects
/// the bits of its eight neighbours.
proof fn lemma_se_mask_bits(c: u16)
    by (bit_vector)
    ensures
        !bit16(0b0000_0111_0101_0111u16 & c, 15),
        !bit16(0b0000_0111_0101_0111u16 & c, 14),
        !bit16(0b0000_0111_0101_0111u16 & c, 13),
        !bit16(0b0000_0111_0101_0111u16 & c, 12),
        !bit16(0b0000_0111_0101_0111u16 & c, 11),
        bit16(0b0000_0111_0101_0111u16 & c, 10) == bit16(c, 10),
        bit16(0b0000_0111_0101_0111u16 & c, 9) == bit16(c, 9),
        bit16(0b0000_0111_0101_0111u16 & c, 8) == bit16(c, 8),
        !bit16(0b0000_0111_0101_0111u16 & c, 7),
        bit16(0b0000_0111_0101_0111u16 & c, 6) == bit16(c, 6),
        !bit16(0b0000_0111_0101_0111u16 & c, 5),
        bit16(0b0000_0111_0101_0111u16 & c, 4) == bit16(c, 4),
        !bit16(0b0000_0111_0101_0111u16 & c, 3),
        bit16(0b0000_0111_0101_0111u16 & c, 2) == bit16(c, 2),
        bit16(0b0000_0111_0101_0111u16 & c, 1) == bit16(c, 1),
        bit16(0b0000_0111_0101_0111u16 & c, 0) == bit16(c, 0),
{
}

/// The number of alive neighbours of the southeast center cell of a level two
/// node.
proof fn lemma_se_neighbours(c: u16)
    ensures
        count16(0b0000_0111_0101_0111u16 & c, 16) == b16(c, 10) + b16(c, 9) + b16(c, 8) + b16(c, 6) + b16(c, 4) + b16(c, 2) + b16(c, 1) + b16(c, 0),
{
    lemma_se_mask_bits(c);
    lemma_count16(0b0000_0111_0101_0111u16 & c);
}

/// The next generation of the four center cells of a level two node, by
/// Conway's rule from the bits of its cells.
proof fn lemma_level_two_next(nodes: Seq<Node>, n: Node, c: u16)
    requires
        n.level == 2,
        n.base matches NodeBase::LevelTwo { cells, .. } && cells == c,
    ensures
        evolve(grid_of(nodes, n), 1)(-1, -1) == life_rule(
            bit16(c, 10),
            (b16(c, 15) + b16(c, 14) + b16(c, 13) + b16(c, 11) + b16(c, 9) + b16(c, 7) + b16(c, 6)
                + b16(c, 5)) as int,
        ),
        evolve(grid_of(nodes, n), 1)(0, -1) == life_rule(
            bit16(c, 9),
            (b16(c, 14) + b16(c, 13) + b16(c, 12) + b16(c, 10) + b16(c, 8) + b16(c, 6) + b16(c, 5)
                + b16(c, 4)) as int,
        ),
        evolve(grid_of(nodes, n), 1)(-1, 0) == life_rule(
            bit16(c, 6),
            (b16(c, 11) + b16(c, 10) + b16(c, 9) + b16(c, 7) + b16(c, 5) + b16(c, 3) + b16(c, 2)
                + b16(c, 1)) as int,
        ),
        evolve(grid_of(nodes, n), 1)(0, 0) == life_rule(
            bit16(c, 5),
            (b16(c, 10) + b16(c, 9) + b16(c, 8) + b16(c, 6) + b16(c, 4) + b16(c, 2) + b16(c, 1)
                + b16(c, 0)) as int,
        ),
{
    let g = grid_of(nodes, n);
    reveal_with_fuel(two_pow, 2);
    assert(evolve(g, 1) == next_generation(evolve(g, 0)));
    assert(evolve(g, 0) == g);
    assert forall|x: int, y: int| -2 <= x <= 1 && -2 <= y <= 1 implies #[trigger] g(x, y) == bit16(
        c,
        (15 - (4 * (y + 2) + (x + 2))) as u16,
    ) by {
        assert(in_bounds(2, x, y));
    }
    assert forall|x: int, y: int| !(-2 <= x <= 1 && -2 <= y <= 1) implies !#[trigger] g(x, y) by {
        assert(!in_bounds(2, x, y));
    }
}

impl Node {
    /// Steps a level two node one generation into the future: the result is
    /// its 2 by 2 center, one generation later.
    pub fn step_level_2(&self, store: &mut Store) -> (node: Node)
        requires
            old(store).wf(),
            old(store).valid(*self),
            self.level == 2,
        ensures
            final(store).wf(),
            extends(old(store).nodes(), final(store).nodes()),
            advanced(final(store).nodes(), *self, node, 1),
    {
        if let Some(step) = store.level_2_step(*self) {
            return step;
        }
        let ghost old_nodes = store.nodes();
        proof {
            lemma_stored(old_nodes, *self);
        }
        let board: u16 = match self.base {
            NodeBase::LevelTwo { cells, .. } => cells,
            _ => 0,
        };
        let nw_bitmask: u16 = 0b1110_1010_1110_0000;
        let ne_bitmask: u16 = 0b0111_0101_0111_0000;
        let sw_bitmask: u16 = 0b0000_1110_1010_1110;
        let se_bitmask: u16 = 0b0000_0111_0101_0111;
        let nw_center: u16 = 1u16 << 10u16;
        let ne_center: u16 = 1u16 << 9u16;
        let sw_center: u16 = 1u16 << 6u16;
        let se_center: u16 = 1u16 << 5u16;
        proof {
            lemma_nw_neighbours(board);
            lemma_ne_neighbours(board);
            lemma_sw_neighbours(board);
            lemma_se_neighbours(board);
            lemma_bit16_mask(board, 10);
            lemma_bit16_mask(board, 9);
            lemma_bit16_mask(board, 6);
            lemma_bit16_mask(board, 5);
            lemma_level_two_next(old_nodes, *self, board);
        }

        let nw_neighbors = count_ones_u16(nw_bitmask & board);
        let nw = if nw_neighbors == 3 || (nw_neighbors == 2 && (board & nw_center > 0)) {
            store.create_leaf(Cell::Alive)
        } else {
            store.create_leaf(Cell::Dead)
        };

        let ne_neighbors = count_ones_u16(ne_bitmask & board);
        let ne = if ne_neighbors == 3 || (ne_neighbors == 2 && (board & ne_center > 0)) {
            store.create_leaf(Cell::Alive)
        } else {
            store.create_leaf(Cell::Dead)
        };

        let sw_neighbors = count_ones_u16(sw_bitmask & board);
        let sw = if sw_neighbors == 3 || (sw_neighbors == 2 && (board & sw_center > 0)) {
            store.create_leaf(Cell::Alive)
        } else {
            store.create_leaf(Cell::Dead)
        };

        let se_neighbors = count_ones_u16(se_bitmask & board);
        let se = if se_neighbors == 3 || (se_neighbors == 2 && (board & se_center > 0)) {
            store.create_leaf(Cell::Alive)
        } else {
            store.create_leaf(Cell::Dead)
        };

        let step = store.create_interior(NodeTemplate { ne, nw, se, sw });
        proof {
            let nodes = store.nodes();
            lemma_extends(old_nodes, nodes, *self);
            let g = grid_of(nodes, *self);
            assert(grid_of(old_nodes, *self) == g);
            reveal_with_fuel(two_pow, 2);
            lemma_extends(old_nodes, nodes, nw);
            lemma_extends(old_nodes, nodes, ne);
            lemma_extends(old_nodes, nodes, sw);
            lemma_extends(old_nodes, nodes, se);
            assert(in_bounds(1, -1, -1) && in_bounds(1, 0, -1) && in_bounds(1, -1, 0) && in_bounds(1, 0, 0));
            assert(cell_of(nodes, step, -1, -1) == quad_cell(nodes, nw, ne, sw, se, 1, -1, -1));
            assert(cell_of(nodes, step, 0, -1) == quad_cell(nodes, nw, ne, sw, se, 1, 0, -1));
            assert(cell_of(nodes, step, -1, 0) == quad_cell(nodes, nw, ne, sw, se, 1, -1, 0));
            assert(cell_of(nodes, step, 0, 0) == quad_cell(nodes, nw, ne, sw, se, 1, 0, 0));
            assert(cell_of(nodes, nw, 0, 0) == (nw_neighbors == 3 || (nw_neighbors == 2 && bit16(board, 10))));
            assert(cell_of(nodes, ne, 0, 0) == (ne_neighbors == 3 || (ne_neighbors == 2 && bit16(board, 9))));
            assert(cell_of(nodes, sw, 0, 0) == (sw_neighbors == 3 || (sw_neighbors == 2 && bit16(board, 6))));
            assert(cell_of(nodes, se, 0, 0) == (se_neighbors == 3 || (se_neighbors == 2 && bit16(board, 5))));
            assert forall|x: int, y: int| in_bounds(step.level as int, x, y) implies #[trigger] cell_of(
                nodes,
                step,
                x,
                y,
            ) == evolve(g, 1)(x, y) by {
                assert(x == -1 || x == 0);
                assert(y == -1 || y == 0);
            }
        }
        store.add_level_2_step(*self, step);
        step
    }
}


/// A window one level down, with the same center, lies within the node.
proof fn lemma_center_window(level: int)
    requires
        2 <= level <= MAX_LEVEL,
    ensures
        forall|a: int, b: int| #[trigger] in_bounds(level - 1, a, b) ==> in_bounds(level, a + 0, b + 0),
{
    lemma_quarter(level);
}

/// The center of a node `2^(n-2)` generations later, for a node of level
/// `n` that shows a grid, shows that grid `2^(n-2)` generations later.
proof fn lemma_jump_shows(
    old: Seq<Node>,
    new: Seq<Node>,
    m: Node,
    r: Node,
    g: spec_fn(int, int) -> bool,
    dx: int,
    dy: int,
)
    requires
        nodes_ok(old),
        extends(old, new),
        node_in(old, m),
        2 <= m.level <= MAX_LEVEL,
        shows(old, m, g, dx, dy),
        advanced(new, m, r, two_pow((m.level - 2) as nat) as nat),
    ensures
        shows(new, r, evolve(g, quarter(m.level as int) as nat), dx, dy),
        node_in(new, r),
        r.level + 1 == m.level,
{
    lemma_quarter(m.level as int);
    lemma_extends_shows(old, new, m, g, dx, dy);
    lemma_advanced_shows(new, m, r, g, dx, dy, quarter(m.level as int) as nat);
}

impl Node {
    /// For a level `n` node, returns the center subnode of the node
    /// `2^(n-2)` generations into the future.
    #[verifier::spinoff_prover]
    #[verifier::rlimit(80)]
    pub fn jump(&self, store: &mut Store) -> (node: Node)
        requires
            old(store).wf(),
            old(store).valid(*self),
            self.level >= 2,
        ensures
            final(store).wf(),
            extends(old(store).nodes(), final(store).nodes()),
            advanced(final(store).nodes(), *self, node, two_pow((self.level - 2) as nat) as nat),
        decreases self.level, 0nat,
    {
        proof {
            lemma_stored(store.nodes(), *self);
            lemma_two_pow_u64((self.level - 2) as nat);
        }
        let jump_size: u64 = 1u64 << ((self.level - 2) as u64);

        // check if the jump has been calculated previously
        if let Some(jump) = store.step(*self, jump_size) {
            return jump;
        }

        // a jump of a level two node is a single generation
        if self.level == 2 {
            return self.step_level_2(store);
        }

        let ghost n0 = store.nodes();
        let ghost l = self.level as int;
        let ghost q = quarter(l);
        let ghost h = quarter(l - 1);
        let ghost g0 = grid_of(n0, *self);
        let ghost e1 = evolve(g0, h as nat);
        let ghost e2 = evolve(e1, h as nat);
        let nw = self.nw(store);
        let ne = self.ne(store);
        let sw = self.sw(store);
        let se = self.se(store);
        proof {
            lemma_quarter(l);
            lemma_quarter(l - 1);
            assert(q == 2 * h);
            assert(nodes_ok(n0));
            lemma_shows_own_grid(n0, *self);
            lemma_quadrant_window(l, west_shift(l), west_shift(l));
            lemma_quadrant_window(l, east_shift(l), west_shift(l));
            lemma_quadrant_window(l, west_shift(l), east_shift(l));
            lemma_quadrant_window(l, east_shift(l), east_shift(l));
            lemma_shifted_shows(n0, *self, nw, g0, 0, 0, -q, -q);
            lemma_shifted_shows(n0, *self, ne, g0, 0, 0, q, -q);
            lemma_shifted_shows(n0, *self, sw, g0, 0, 0, -q, q);
            lemma_shifted_shows(n0, *self, se, g0, 0, 0, q, q);
        }

        // a-i are the nine subnodes of level n-2 around the center, each
        // 2^(n-3) generations later
        let a = nw.jump(store);
        let ghost n1 = store.nodes();
        proof {
            lemma_jump_shows(n0, n1, nw, a, g0, -q, -q);
            lemma_extends_shows(n0, n1, nw, g0, -q, -q);
            lemma_extends_shows(n0, n1, ne, g0, q, -q);
        }
        let b = Node::horiz_jump(store, ne, nw, Ghost(g0), Ghost(0int), Ghost(-q));
        let ghost n2 = store.nodes();
        proof {
            lemma_extends_shows(n0, n2, ne, g0, q, -q);
        }
        let c = ne.jump(store);
        let ghost n3 = store.nodes();
        proof {
            lemma_jump_shows(n2, n3, ne, c, g0, q, -q);
            lemma_extends_shows(n0, n3, nw, g0, -q, -q);
            lemma_extends_shows(n0, n3, sw, g0, -q, q);
        }
        let d = Node::vert_jump(store, nw, sw, Ghost(g0), Ghost(-q), Ghost(0int));
        let ghost n4 = store.nodes();
        let center = self.center_subnode(store);
        let ghost n5 = store.nodes();
        proof {
            lemma_extends_shows(n0, n5, *self, g0, 0, 0);
            lemma_center_window(l);
            lemma_shifted_shows(n5, *self, center, g0, 0, 0, 0, 0);
        }
        let e = center.jump(store);
        let ghost n6 = store.nodes();
        proof {
            lemma_jump_shows(n5, n6, center, e, g0, 0, 0);
            lemma_extends_shows(n0, n6, ne, g0, q, -q);
            lemma_extends_shows(n0, n6, se, g0, q, q);
        }
        let f = Node::vert_jump(store, ne, se, Ghost(g0), Ghost(q), Ghost(0int));
        let ghost n7 = store.nodes();
        proof {
            lemma_extends_shows(n0, n7, sw, g0, -q, q);
        }
        let g = sw.jump(store);
        let ghost n8 = store.nodes();
        proof {
            lemma_jump_shows(n7, n8, sw, g, g0, -q, q);
            lemma_extends_shows(n0, n8, se, g0, q, q);
            lemma_extends_shows(n0, n8, sw, g0, -q, q);
        }
        let h_ = Node::horiz_jump(store, se, sw, Ghost(g0), Ghost(0int), Ghost(q));
        let ghost n9 = store.nodes();
        proof {
            lemma_extends_shows(n0, n9, se, g0, q, q);
        }
        let i = se.jump(store);
        let ghost n10 = store.nodes();
        proof {
            lemma_jump_shows(n9, n10, se, i, g0, q, q);
            assert(nodes_ok(n10));
            lemma_extends_shows(n1, n10, a, e1, -q, -q);
            lemma_extends_shows(n2, n10, b, e1, 0, -q);
            lemma_extends_shows(n3, n10, c, e1, q, -q);
            lemma_extends_shows(n4, n10, d, e1, -q, 0);
            lemma_extends_shows(n6, n10, e, e1, 0, 0);
            lemma_extends_shows(n7, n10, f, e1, q, 0);
            lemma_extends_shows(n8, n10, g, e1, -q, q);
            lemma_extends_shows(n9, n10, h_, e1, 0, q);
        }
        let ghost na = store.nodes();
        let w = Self::jump_quadrants(store, a, b, d, e, Ghost(e1), Ghost(-h), Ghost(-h));
        let ghost nc = store.nodes();
        assert(shows(nc, b, e1, 0, -q) && shows(nc, c, e1, q, -q) && shows(nc, e, e1, 0, 0)
            && shows(nc, f, e1, q, 0) && nodes_ok(nc) && node_in(nc, b) && node_in(nc, c)
            && node_in(nc, e) && node_in(nc, f)) by {
            lemma_extends_shows(na, nc, b, e1, 0, -q);
            lemma_extends_shows(na, nc, c, e1, q, -q);
            lemma_extends_shows(na, nc, e, e1, 0, 0);
            lemma_extends_shows(na, nc, f, e1, q, 0);
        }
        let x = Self::jump_quadrants(store, b, c, e, f, Ghost(e1), Ghost(h), Ghost(-h));
        let ghost ne_ = store.nodes();
        assert(shows(ne_, d, e1, -q, 0) && shows(ne_, e, e1, 0, 0) && shows(ne_, g, e1, -q, q)
            && shows(ne_, h_, e1, 0, q) && nodes_ok(ne_) && node_in(ne_, d) && node_in(ne_, e)
            && node_in(ne_, g) && node_in(ne_, h_)) by {
            lemma_extends_shows(na, ne_, d, e1, -q, 0);
            lemma_extends_shows(na, ne_, e, e1, 0, 0);
            lemma_extends_shows(na, ne_, g, e1, -q, q);
            lemma_extends_shows(na, ne_, h_, e1, 0, q);
        }
        let y = Self::jump_quadrants(store, d, e, g, h_, Ghost(e1), Ghost(-h), Ghost(h));
        let ghost ng = store.nodes();
        assert(shows(ng, e, e1, 0, 0) && shows(ng, f, e1, q, 0) && shows(ng, h_, e1, 0, q)
            && shows(ng, i, e1, q, q) && nodes_ok(ng) && node_in(ng, e) && node_in(ng, f)
            && node_in(ng, h_) && node_in(ng, i)) by {
            lemma_extends_shows(na, ng, e, e1, 0, 0);
            lemma_extends_shows(na, ng, f, e1, q, 0);
            lemma_extends_shows(na, ng, h_, e1, 0, q);
            lemma_extends_shows(n10, ng, i, e1, q, q);
        }
        let z = Self::jump_quadrants(store, e, f, h_, i, Ghost(e1), Ghost(h), Ghost(h));
        let ghost ni = store.nodes();
        assert(shows(ni, w, e2, -h, -h) && shows(ni, x, e2, h, -h) && shows(ni, y, e2, -h, h)
            && node_in(ni, w) && node_in(ni, x) && node_in(ni, y)) by {
            lemma_extends_shows(nc, ni, w, e2, -h, -h);
            lemma_extends_shows(ne_, ni, x, e2, h, -h);
            lemma_extends_shows(ng, ni, y, e2, -h, h);
        }
        proof {
            lemma_small_pops(ni, x, w, z, y);
        }

        // the four results together are the center 2^(n-3) + 2^(n-3)
        // generations later
        let final_jump = store.create_interior(NodeTemplate { ne: x, nw: w, se: z, sw: y });
        proof {
            let nj = store.nodes();
            lemma_extends_shows(ni, nj, w, e2, -h, -h);
            lemma_extends_shows(ni, nj, x, e2, h, -h);
            lemma_extends_shows(ni, nj, y, e2, -h, h);
            lemma_extends_shows(ni, nj, z, e2, h, h);
            lemma_assemble_shows(nj, final_jump, w, x, y, z, e2, 0, 0);
            lemma_evolve_compose(g0, h as nat, h as nat);
            lemma_extends(n0, nj, *self);
            assert(grid_of(nj, *self) == g0);
            assert(e2 == evolve(g0, two_pow((l - 2) as nat) as nat));
        }
        store.add_step(*self, jump_size, final_jump);
        final_jump
    }

    /// Jumps the node made of four quadrants of level `n` that show a grid:
    /// the result shows that grid `2^(n-1)` generations later.
    fn jump_quadrants(
        store: &mut Store,
        nw: Node,
        ne: Node,
        sw: Node,
        se: Node,
        Ghost(g): Ghost<spec_fn(int, int) -> bool>,
        Ghost(dx): Ghost<int>,
        Ghost(dy): Ghost<int>,
    ) -> (node: Node)
        requires
            old(store).wf(),
            old(store).valid(nw),
            old(store).valid(ne),
            old(store).valid(sw),
            old(store).valid(se),
            nw.level == ne.level,
            sw.level == ne.level,
            se.level == ne.level,
            1 <= ne.level <= 62,
            shows(old(store).nodes(), nw, g, dx - quarter(ne.level + 1), dy - quarter(ne.level + 1)),
            shows(old(store).nodes(), ne, g, dx + quarter(ne.level + 1), dy - quarter(ne.level + 1)),
            shows(old(store).nodes(), sw, g, dx - quarter(ne.level + 1), dy + quarter(ne.level + 1)),
            shows(old(store).nodes(), se, g, dx + quarter(ne.level + 1), dy + quarter(ne.level + 1)),
        ensures
            final(store).wf(),
            extends(old(store).nodes(), final(store).nodes()),
            final(store).valid(node),
            node.level == ne.level,
            shows(final(store).nodes(), node, evolve(g, quarter(ne.level + 1) as nat), dx, dy),
        decreases ne.level + 1, 2nat,
    {
        let ghost n0 = store.nodes();
        proof {
            lemma_small_pops(n0, ne, nw, se, sw);
            assert(nodes_ok(n0));
        }
        let m = store.create_interior(NodeTemplate { ne, nw, se, sw });
        let ghost n1 = store.nodes();
        assert(shows(n1, m, g, dx, dy) && nodes_ok(n1)) by {
            let q = quarter(ne.level + 1);
            lemma_extends_shows(n0, n1, nw, g, dx - q, dy - q);
            lemma_extends_shows(n0, n1, ne, g, dx + q, dy - q);
            lemma_extends_shows(n0, n1, sw, g, dx - q, dy + q);
            lemma_extends_shows(n0, n1, se, g, dx + q, dy + q);
            lemma_assemble_shows(n1, m, nw, ne, sw, se, g, dx, dy);
        }
        let r = m.jump(store);
        proof {
            lemma_jump_shows(n1, store.nodes(), m, r, g, dx, dy);
        }
        r
    }

    /// Given two horizontally adjacent nodes of level `n`, `w` to the west
    /// of `e`, returns the level `n - 1` node between them, `2^(n-2)`
    /// generations later.
    fn horiz_jump(
        store: &mut Store,
        e: Node,
        w: Node,
        Ghost(g): Ghost<spec_fn(int, int) -> bool>,
        Ghost(dx): Ghost<int>,
        Ghost(dy): Ghost<int>,
    ) -> (node: Node)
        requires
            old(store).wf(),
            old(store).valid(e),
            old(store).valid(w),
            e.level == w.level,
            2 <= e.level < MAX_LEVEL,
            shows(old(store).nodes(), w, g, dx - 2 * quarter(e.level as int), dy),
            shows(old(store).nodes(), e, g, dx + 2 * quarter(e.level as int), dy),
        ensures
            final(store).wf(),
            extends(old(store).nodes(), final(store).nodes()),
            final(store).valid(node),
            node.level + 1 == e.level,
            shows(final(store).nodes(), node, evolve(g, quarter(e.level as int) as nat), dx, dy),
        decreases e.level, 1nat,
    {
        let ghost n0 = store.nodes();
        let ghost k = e.level as int;
        let ghost q = quarter(k);
        let ne = e.nw(store);
        let nw = w.ne(store);
        let se = e.sw(store);
        let sw = w.se(store);
        proof {
            lemma_quarter(k);
            lemma_quadrant_window(k, west_shift(k), west_shift(k));
            lemma_quadrant_window(k, east_shift(k), west_shift(k));
            lemma_quadrant_window(k, west_shift(k), east_shift(k));
            lemma_quadrant_window(k, east_shift(k), east_shift(k));
            lemma_shifted_shows(n0, e, ne, g, dx + 2 * q, dy, -q, -q);
            lemma_shifted_shows(n0, w, nw, g, dx - 2 * q, dy, q, -q);
            lemma_shifted_shows(n0, e, se, g, dx + 2 * q, dy, -q, q);
            lemma_shifted_shows(n0, w, sw, g, dx - 2 * q, dy, q, q);
            lemma_small_pops(n0, ne, nw, se, sw);
            assert(nodes_ok(n0));
        }
        let m = store.create_interior(NodeTemplate { ne, nw, se, sw });
        let ghost n1 = store.nodes();
        proof {
            lemma_extends_shows(n0, n1, ne, g, dx + q, dy - q);
            lemma_extends_shows(n0, n1, nw, g, dx - q, dy - q);
            lemma_extends_shows(n0, n1, se, g, dx + q, dy + q);
            lemma_extends_shows(n0, n1, sw, g, dx - q, dy + q);
            lemma_assemble_shows(n1, m, nw, ne, sw, se, g, dx, dy);
            assert(nodes_ok(n1));
        }
        let r = m.jump(store);
        proof {
            lemma_jump_shows(n1, store.nodes(), m, r, g, dx, dy);
        }
        r
    }

    /// Given two vertically adjacent nodes of level `n`, `n` to the north of
    /// `s`, returns the level `n - 1` node between them, `2^(n-2)`
    /// generations later.
    fn vert_jump(
        store: &mut Store,
        n: Node,
        s: Node,
        Ghost(g): Ghost<spec_fn(int, int) -> bool>,
        Ghost(dx): Ghost<int>,
        Ghost(dy): Ghost<int>,
    ) -> (node: Node)
        requires
            old(store).wf(),
            old(store).valid(n),
            old(store).valid(s),
            n.level == s.level,
            2 <= n.level < MAX_LEVEL,
            shows(old(store).nodes(), n, g, dx, dy - 2 * quarter(n.level as int)),
            shows(old(store).nodes(), s, g, dx, dy + 2 * quarter(n.level as int)),
        ensures
            final(store).wf(),
            extends(old(store).nodes(), final(store).nodes()),
            final(store).valid(node),
            node.level + 1 == n.level,
            shows(final(store).nodes(), node, evolve(g, quarter(n.level as int) as nat), dx, dy),
        decreases n.level, 1nat,
    {
        let ghost n0 = store.nodes();
        let ghost k = n.level as int;
        let ghost q = quarter(k);
        let ne = n.se(store);
        let nw = n.sw(store);
        let se = s.ne(store);
        let sw = s.nw(store);
        proof {
            lemma_quarter(k);
            lemma_quadrant_window(k, west_shift(k), west_shift(k));
            lemma_quadrant_window(k, east_shift(k), west_shift(k));
            lemma_quadrant_window(k, west_shift(k), east_shift(k));
            lemma_quadrant_window(k, east_shift(k), east_shift(k));
            lemma_shifted_shows(n0, n, ne, g, dx, dy - 2 * q, q, q);
            lemma_shifted_shows(n0, n, nw, g, dx, dy - 2 * q, -q, q);
            lemma_shifted_shows(n0, s, se, g, dx, dy + 2 * q, q, -q);
            lemma_shifted_shows(n0, s, sw, g, dx, dy + 2 * q, -q, -q);
            lemma_small_pops(n0, ne, nw, se, sw);
            assert(nodes_ok(n0));
        }
        let m = store.create_interior(NodeTemplate { ne, nw, se, sw });
        let ghost n1 = store.nodes();
        proof {
            lemma_extends_shows(n0, n1, ne, g, dx + q, dy - q);
            lemma_extends_shows(n0, n1, nw, g, dx - q, dy - q);
            lemma_extends_shows(n0, n1, se, g, dx + q, dy + q);
            lemma_extends_shows(n0, n1, sw, g, dx - q, dy + q);
            lemma_assemble_shows(n1, m, nw, ne, sw, se, g, dx, dy);
            assert(nodes_ok(n1));
        }
        let r = m.jump(store);
        proof {
            lemma_jump_shows(n1, store.nodes(), m, r, g, dx, dy);
        }
        r
    }
}


/// Windows two levels down, centered at the center of the node or a quarter
/// of its width away, lie within the node.
proof fn lemma_sub_window(level: int, dx: int, dy: int)
    requires
        3 <= level <= MAX_LEVEL,
        dx == 0 || dx == quarter(level) || dx == -quarter(level),
        dy == 0 || dy == quarter(level) || dy == -quarter(level),
    ensures
        forall|a: int, b: int| #[trigger] in_bounds(level - 2, a, b) ==> in_bounds(level, a + dx, b + dy),
{
    lemma_quarter(level);
    lemma_quarter(level - 1);
}

/// The center of a node `t` generations later, for a node that shows a grid
/// and `t` at most a quarter of its width, shows that grid `t` generations
/// later.
proof fn lemma_step_shows(
    old: Seq<Node>,
    new: Seq<Node>,
    m: Node,
    r: Node,
    g: spec_fn(int, int) -> bool,
    dx: int,
    dy: int,
    t: nat,
)
    requires
        nodes_ok(old),
        extends(old, new),
        node_in(old, m),
        2 <= m.level <= MAX_LEVEL,
        t <= quarter(m.level as int),
        shows(old, m, g, dx, dy),
        advanced(new, m, r, t),
    ensures
        shows(new, r, evolve(g, t), dx, dy),
        node_in(new, r),
        r.level + 1 == m.level,
{
    lemma_extends_shows(old, new, m, g, dx, dy);
    lemma_advanced_shows(new, m, r, g, dx, dy, t);
}

impl Node {
    /// Returns the center subnode of the node `2^(cutoff-2)` generations
    /// into the future.
    #[verifier::spinoff_prover]
    #[verifier::rlimit(100)]
    pub fn step(&self, store: &mut Store, level_cutoff: u8) -> (node: Node)
        requires
            old(store).wf(),
            old(store).valid(*self),
            2 <= level_cutoff <= self.level,
        ensures
            final(store).wf(),
            extends(old(store).nodes(), final(store).nodes()),
            advanced(final(store).nodes(), *self, node, two_pow((level_cutoff - 2) as nat) as nat),
        decreases self.level, 1nat,
    {
        proof {
            lemma_stored(store.nodes(), *self);
            lemma_two_pow_u64((level_cutoff - 2) as nat);
        }
        let step_size: u64 = 1u64 << ((level_cutoff - 2) as u64);

        // check if the result has been calculated previously
        if let Some(step) = store.step(*self, step_size) {
            return step;
        }

        if self.level == level_cutoff {
            // when level == level_cutoff, a step is a jump
            let jump = self.jump(store);
            store.add_step(*self, step_size, jump);
            return jump;
        }

        let ghost n0 = store.nodes();
        let ghost l = self.level as int;
        let ghost q = quarter(l);
        let ghost h = quarter(l - 1);
        let ghost t = two_pow((level_cutoff - 2) as nat) as nat;
        let ghost g0 = grid_of(n0, *self);
        let ghost e1 = evolve(g0, t);
        let nw = self.nw(store);
        let ne = self.ne(store);
        let sw = self.sw(store);
        let se = self.se(store);
        proof {
            lemma_quarter(l);
            lemma_quarter(l - 1);
            assert(nodes_ok(n0));
            lemma_shows_own_grid(n0, *self);
        }
        assert(shows(n0, nw, g0, -q, -q) && shows(n0, ne, g0, q, -q) && shows(n0, sw, g0, -q, q)
            && shows(n0, se, g0, q, q)) by {
            lemma_quadrant_window(l, west_shift(l), west_shift(l));
            lemma_quadrant_window(l, east_shift(l), west_shift(l));
            lemma_quadrant_window(l, west_shift(l), east_shift(l));
            lemma_quadrant_window(l, east_shift(l), east_shift(l));
            lemma_shifted_shows(n0, *self, nw, g0, 0, 0, -q, -q);
            lemma_shifted_shows(n0, *self, ne, g0, 0, 0, q, -q);
            lemma_shifted_shows(n0, *self, sw, g0, 0, 0, -q, q);
            lemma_shifted_shows(n0, *self, se, g0, 0, 0, q, q);
        }

        // a-i are the nine subnodes of level n-2 around the center
        let a = nw.center_subnode(store);
        let ghost n1 = store.nodes();
        assert(shows(n1, a, g0, -q, -q) && nodes_ok(n1)) by {
            lemma_center_window(l - 1);
            lemma_extends_shows(n0, n1, nw, g0, -q, -q);
            lemma_shifted_shows(n1, nw, a, g0, -q, -q, 0, 0);
        }
        assert(shows(n1, *self, g0, 0, 0)) by {
            lemma_extends_shows(n0, n1, *self, g0, 0, 0);
        }
        let b = self.north_subsubnode(store);
        let ghost n2 = store.nodes();
        assert(shows(n2, b, g0, 0, -q) && nodes_ok(n2)) by {
            lemma_sub_window(l, 0, -q);
            lemma_extends_shows(n1, n2, *self, g0, 0, 0);
            lemma_shifted_shows(n2, *self, b, g0, 0, 0, 0, -q);
        }
        assert(shows(n2, ne, g0, q, -q)) by {
            lemma_extends_shows(n0, n2, ne, g0, q, -q);
        }
        let c = ne.center_subnode(store);
        let ghost n3 = store.nodes();
        assert(shows(n3, c, g0, q, -q) && nodes_ok(n3)) by {
            lemma_center_window(l - 1);
            lemma_extends_shows(n0, n3, ne, g0, q, -q);
            lemma_shifted_shows(n3, ne, c, g0, q, -q, 0, 0);
        }
        assert(shows(n3, *self, g0, 0, 0)) by {
            lemma_extends_shows(n0, n3, *self, g0, 0, 0);
        }
        let d = self.west_subsubnode(store);
        let ghost n4 = store.nodes();
        assert(shows(n4, d, g0, -q, 0) && nodes_ok(n4)) by {
            lemma_sub_window(l, -q, 0);
            lemma_extends_shows(n0, n4, *self, g0, 0, 0);
            lemma_shifted_shows(n4, *self, d, g0, 0, 0, -q, 0);
        }
        let center = self.center_subnode(store);
        let ghost n5 = store.nodes();
        assert(shows(n5, center, g0, 0, 0) && nodes_ok(n5)) by {
            lemma_extends_shows(n0, n5, *self, g0, 0, 0);
            lemma_center_window(l);
            lemma_shifted_shows(n5, *self, center, g0, 0, 0, 0, 0);
        }
        let e = center.center_subnode(store);
        let ghost n6 = store.nodes();
        assert(shows(n6, e, g0, 0, 0) && nodes_ok(n6)) by {
            lemma_center_window(l - 1);
            lemma_extends_shows(n5, n6, center, g0, 0, 0);
            lemma_shifted_shows(n6, center, e, g0, 0, 0, 0, 0);
        }
        assert(shows(n6, *self, g0, 0, 0)) by {
            lemma_extends_shows(n0, n6, *self, g0, 0, 0);
        }
        let f = self.east_subsubnode(store);
        let ghost n7 = store.nodes();
        assert(shows(n7, f, g0, q, 0) && nodes_ok(n7)) by {
            lemma_sub_window(l, q, 0);
            lemma_extends_shows(n0, n7, *self, g0, 0, 0);
            lemma_shifted_shows(n7, *self, f, g0, 0, 0, q, 0);
        }
        assert(shows(n7, sw, g0, -q, q)) by {
            lemma_extends_shows(n0, n7, sw, g0, -q, q);
        }
        let g = sw.center_subnode(store);
        let ghost n8 = store.nodes();
        assert(shows(n8, g, g0, -q, q) && nodes_ok(n8)) by {
            lemma_center_window(l - 1);
            lemma_extends_shows(n0, n8, sw, g0, -q, q);
            lemma_shifted_shows(n8, sw, g, g0, -q, q, 0, 0);
        }
        assert(shows(n8, *self, g0, 0, 0)) by {
            lemma_extends_shows(n0, n8, *self, g0, 0, 0);
        }
        let h_ = self.south_subsubnode(store);
        let ghost n9 = store.nodes();
        assert(shows(n9, h_, g0, 0, q) && nodes_ok(n9)) by {
            lemma_sub_window(l, 0, q);
            lemma_extends_shows(n0, n9, *self, g0, 0, 0);
            lemma_shifted_shows(n9, *self, h_, g0, 0, 0, 0, q);
        }
        assert(shows(n9, se, g0, q, q)) by {
            lemma_extends_shows(n0, n9, se, g0, q, q);
        }
        let i = se.center_subnode(store);
        let ghost na = store.nodes();
        assert(shows(na, i, g0, q, q) && nodes_ok(na)) by {
            lemma_center_window(l - 1);
            lemma_extends_shows(n0, na, se, g0, q, q);
            lemma_shifted_shows(na, se, i, g0, q, q, 0, 0);
        }
        assert(shows(na, a, g0, -q, -q) && shows(na, b, g0, 0, -q) && shows(na, c, g0, q, -q)
            && shows(na, d, g0, -q, 0) && shows(na, e, g0, 0, 0) && shows(na, f, g0, q, 0)
            && shows(na, g, g0, -q, q) && shows(na, h_, g0, 0, q) && node_in(na, a) && node_in(na, b)
            && node_in(na, c) && node_in(na, d) && node_in(na, e) && node_in(na, f) && node_in(na, g)
            && node_in(na, h_) && node_in(na, i)) by {
            lemma_extends_shows(n1, na, a, g0, -q, -q);
            lemma_extends_shows(n2, na, b, g0, 0, -q);
            lemma_extends_shows(n3, na, c, g0, q, -q);
            lemma_extends_shows(n4, na, d, g0, -q, 0);
            lemma_extends_shows(n6, na, e, g0, 0, 0);
            lemma_extends_shows(n7, na, f, g0, q, 0);
            lemma_extends_shows(n8, na, g, g0, -q, q);
            lemma_extends_shows(n9, na, h_, g0, 0, q);
        }
        assert(t <= h) by {
            crate::node::lemma_two_pow_monotonic((level_cutoff - 2) as nat, (l - 3) as nat);
        }

        // the four subnodes of level n-1 around the center, each stepped
        let w = Self::step_quadrants(store, a, b, d, e, level_cutoff, Ghost(g0), Ghost(-h), Ghost(-h));
        let ghost nc = store.nodes();
        assert(shows(nc, b, g0, 0, -q) && shows(nc, c, g0, q, -q) && shows(nc, e, g0, 0, 0)
            && shows(nc, f, g0, q, 0) && nodes_ok(nc) && node_in(nc, b) && node_in(nc, c)
            && node_in(nc, e) && node_in(nc, f)) by {
            lemma_extends_shows(na, nc, b, g0, 0, -q);
            lemma_extends_shows(na, nc, c, g0, q, -q);
            lemma_extends_shows(na, nc, e, g0, 0, 0);
            lemma_extends_shows(na, nc, f, g0, q, 0);
        }
        let x = Self::step_quadrants(store, b, c, e, f, level_cutoff, Ghost(g0), Ghost(h), Ghost(-h));
        let ghost ne_ = store.nodes();
        assert(shows(ne_, d, g0, -q, 0) && shows(ne_, e, g0, 0, 0) && shows(ne_, g, g0, -q, q)
            && shows(ne_, h_, g0, 0, q) && nodes_ok(ne_) && node_in(ne_, d) && node_in(ne_, e)
            && node_in(ne_, g) && node_in(ne_, h_)) by {
            lemma_extends_shows(na, ne_, d, g0, -q, 0);
            lemma_extends_shows(na, ne_, e, g0, 0, 0);
            lemma_extends_shows(na, ne_, g, g0, -q, q);
            lemma_extends_shows(na, ne_, h_, g0, 0, q);
        }
        let y = Self::step_quadrants(store, d, e, g, h_, level_cutoff, Ghost(g0), Ghost(-h), Ghost(h));
        let ghost ng = store.nodes();
        assert(shows(ng, e, g0, 0, 0) && shows(ng, f, g0, q, 0) && shows(ng, h_, g0, 0, q)
            && shows(ng, i, g0, q, q) && nodes_ok(ng) && node_in(ng, e) && node_in(ng, f)
            && node_in(ng, h_) && node_in(ng, i)) by {
            lemma_extends_shows(na, ng, e, g0, 0, 0);
            lemma_extends_shows(na, ng, f, g0, q, 0);
            lemma_extends_shows(na, ng, h_, g0, 0, q);
            lemma_extends_shows(na, ng, i, g0, q, q);
        }
        let z = Self::step_quadrants(store, e, f, h_, i, level_cutoff, Ghost(g0), Ghost(h), Ghost(h));
        let ghost ni = store.nodes();
        assert(shows(ni, w, e1, -h, -h) && shows(ni, x, e1, h, -h) && shows(ni, y, e1, -h, h)
            && node_in(ni, w) && node_in(ni, x) && node_in(ni, y)) by {
            lemma_extends_shows(nc, ni, w, e1, -h, -h);
            lemma_extends_shows(ne_, ni, x, e1, h, -h);
            lemma_extends_shows(ng, ni, y, e1, -h, h);
        }
        proof {
            lemma_small_pops(ni, x, w, z, y);
        }

        let final_step = store.create_interior(NodeTemplate { ne: x, nw: w, se: z, sw: y });
        proof {
            let nj = store.nodes();
            lemma_extends_shows(ni, nj, w, e1, -h, -h);
            lemma_extends_shows(ni, nj, x, e1, h, -h);
            lemma_extends_shows(ni, nj, y, e1, -h, h);
            lemma_extends_shows(ni, nj, z, e1, h, h);
            lemma_assemble_shows(nj, final_step, w, x, y, z, e1, 0, 0);
            lemma_extends(n0, nj, *self);
            assert(grid_of(nj, *self) == g0);
        }
        store.add_step(*self, step_size, final_step);
        final_step
    }

    /// Steps the node made of four quadrants that show a grid: the result
    /// shows that grid `2^(cutoff-2)` generations later.
    fn step_quadrants(
        store: &mut Store,
        nw: Node,
        ne: Node,
        sw: Node,
        se: Node,
        level_cutoff: u8,
        Ghost(g): Ghost<spec_fn(int, int) -> bool>,
        Ghost(dx): Ghost<int>,
        Ghost(dy): Ghost<int>,
    ) -> (node: Node)
        requires
            old(store).wf(),
            old(store).valid(nw),
            old(store).valid(ne),
            old(store).valid(sw),
            old(store).valid(se),
            nw.level == ne.level,
            sw.level == ne.level,
            se.level == ne.level,
            1 <= ne.level <= 62,
            2 <= level_cutoff <= ne.level + 1,
            shows(old(store).nodes(), nw, g, dx - quarter(ne.level + 1), dy - quarter(ne.level + 1)),
            shows(old(store).nodes(), ne, g, dx + quarter(ne.level + 1), dy - quarter(ne.level + 1)),
            shows(old(store).nodes(), sw, g, dx - quarter(ne.level + 1), dy + quarter(ne.level + 1)),
            shows(old(store).nodes(), se, g, dx + quarter(ne.level + 1), dy + quarter(ne.level + 1)),
        ensures
            final(store).wf(),
            extends(old(store).nodes(), final(store).nodes()),
            final(store).valid(node),
            node.level == ne.level,
            shows(final(store).nodes(), node, evolve(g, two_pow((level_cutoff - 2) as nat) as nat), dx, dy),
        decreases ne.level + 1, 2nat,
    {
        let ghost n0 = store.nodes();
        let ghost t = two_pow((level_cutoff - 2) as nat) as nat;
        proof {
            lemma_small_pops(n0, ne, nw, se, sw);
            assert(nodes_ok(n0));
            lemma_quarter(ne.level + 1);
            crate::node::lemma_two_pow_monotonic((level_cutoff - 2) as nat, (ne.level - 1) as nat);
        }
        let m = store.create_interior(NodeTemplate { ne, nw, se, sw });
        let ghost n1 = store.nodes();
        assert(shows(n1, m, g, dx, dy) && nodes_ok(n1)) by {
            let q = quarter(ne.level + 1);
            lemma_extends_shows(n0, n1, nw, g, dx - q, dy - q);
            lemma_extends_shows(n0, n1, ne, g, dx + q, dy - q);
            lemma_extends_shows(n0, n1, sw, g, dx - q, dy + q);
            lemma_extends_shows(n0, n1, se, g, dx + q, dy + q);
            lemma_assemble_shows(n1, m, nw, ne, sw, se, g, dx, dy);
        }
        assert(t <= quarter(m.level as int)) by {
            crate::node::lemma_two_pow_monotonic((level_cutoff - 2) as nat, (ne.level - 1) as nat);
            assert(quarter(m.level as int) == two_pow((ne.level - 1) as nat));
            crate::node::lemma_two_pow_pos((level_cutoff - 2) as nat);
        }
        let r = m.step(store, level_cutoff);
        proof {
            lemma_step_shows(n1, store.nodes(), m, r, g, dx, dy, t);
        }
        r
    }
}

} // verus!
