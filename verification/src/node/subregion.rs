//! Extracting the quadrants and other subregions of a node.

use vstd::prelude::*;

use crate::node::store::{b16, b8, lemma_count16, lemma_count8, lemma_pop_fits, NodeTemplate};
use crate::node::{
    lemma_small_pops, count8, level_one_cells_ok, pop_of, Quadrant, nodes_ok, node_in,
    bit16, bit8, cell_of, in_bounds, lemma_children, lemma_extends, lemma_quarter, lemma_stored,
    level_one_bit_index, level_two_bit_index, max_coord_of, min_coord_of, quad_cell, quarter,
    shape_ok, extends, two_pow, Node, NodeBase, Store, LEVEL_ONE_MASK, LEVEL_ONE_NE_MASK,
    LEVEL_ONE_NW_MASK, LEVEL_ONE_SE_MASK, LEVEL_ONE_SW_MASK, MAX_LEVEL,
};
use crate::Cell;

verus! {

/// How far east of the center of a level `level` node the center of its
/// eastern quadrants lies (a single cell's coordinate is `0`).
pub open spec fn east_shift(level: int) -> int {
    if level >= 2 {
        quarter(level)
    } else {
        0
    }
}

/// How far west of the center of a level `level` node the center of its
/// western quadrants lies, as a negative offset.
pub open spec fn west_shift(level: int) -> int {
    -quarter(level)
}

/// `r` is the part of `n` seen through a window shifted by `(dx, dy)`: each
/// cell `(a, b)` of `r` is the cell `(a + dx, b + dy)` of `n`.
pub open spec fn shifted(nodes: Seq<Node>, n: Node, r: Node, dx: int, dy: int) -> bool {
    forall|a: int, b: int|
        in_bounds(r.level as int, a, b) ==> #[trigger] cell_of(nodes, r, a, b) == cell_of(
            nodes,
            n,
            a + dx,
            b + dy,
        )
}

/// The number of alive cells in one quadrant of a node of level 1 or more.
pub open spec fn quadrant_pop(nodes: Seq<Node>, n: Node, q: Quadrant) -> nat {
    match n.base {
        NodeBase::Leaf { .. } => 0,
        NodeBase::LevelOne { cells } => match q {
            Quadrant::Northwest => b8(cells, 5),
            Quadrant::Northeast => b8(cells, 4),
            Quadrant::Southwest => b8(cells, 1),
            Quadrant::Southeast => b8(cells, 0),
        },
        NodeBase::LevelTwo { cells, .. } => match q {
            Quadrant::Northwest => b16(cells, 15) + b16(cells, 14) + b16(
                cells,
                11,
            ) + b16(cells, 10),
            Quadrant::Northeast => b16(cells, 13) + b16(cells, 12) + b16(
                cells,
                9,
            ) + b16(cells, 8),
            Quadrant::Southwest => b16(cells, 7) + b16(cells, 6) + b16(
                cells,
                3,
            ) + b16(cells, 2),
            Quadrant::Southeast => b16(cells, 5) + b16(cells, 4) + b16(
                cells,
                1,
            ) + b16(cells, 0),
        },
        NodeBase::Interior { ne_index, nw_index, se_index, sw_index, .. } => match q {
            Quadrant::Northwest => pop_of(nodes, nodes[nw_index as int]),
            Quadrant::Northeast => pop_of(nodes, nodes[ne_index as int]),
            Quadrant::Southwest => pop_of(nodes, nodes[sw_index as int]),
            Quadrant::Southeast => pop_of(nodes, nodes[se_index as int]),
        },
    }
}

/// The population of a node of level 1 or more is the sum of those of its
/// quadrants.
pub proof fn lemma_quadrant_pops(nodes: Seq<Node>, n: Node)
    requires
        nodes_ok(nodes),
        node_in(nodes, n),
        n.level >= 1,
    ensures
        pop_of(nodes, n) == quadrant_pop(nodes, n, Quadrant::Northwest) + quadrant_pop(
            nodes,
            n,
            Quadrant::Northeast,
        ) + quadrant_pop(nodes, n, Quadrant::Southwest) + quadrant_pop(
            nodes,
            n,
            Quadrant::Southeast,
        ),
{
    lemma_stored(nodes, n);
    match n.base {
        NodeBase::LevelOne { cells } => {
            lemma_count8(cells);
        },
        NodeBase::LevelTwo { cells, .. } => {
            lemma_count16(cells);
        },
        NodeBase::Interior { .. } => {
            lemma_children(nodes, n);
        },
        _ => {},
    }
}

/// The quadrant toward the east when `east`, and toward the south when
/// `south`.
pub open spec fn corner(east: bool, south: bool) -> Quadrant {
    if !east && !south {
        Quadrant::Northwest
    } else if east && !south {
        Quadrant::Northeast
    } else if !east && south {
        Quadrant::Southwest
    } else {
        Quadrant::Southeast
    }
}

/// Whether `(x, y)` lies in the quadrant `q` of a node.
pub open spec fn in_quadrant_of(q: Quadrant, x: int, y: int) -> bool {
    match q {
        Quadrant::Northwest => x < 0 && y < 0,
        Quadrant::Northeast => x >= 0 && y < 0,
        Quadrant::Southwest => x < 0 && y >= 0,
        Quadrant::Southeast => x >= 0 && y >= 0,
    }
}

/// `d` toward the east or south when `forward`, else toward the west or
/// north.
pub open spec fn toward(forward: bool, d: int) -> int {
    if forward {
        d
    } else {
        -d
    }
}

/// A quadrant of a node of level 3 or more that counts no alive cell has
/// none.
pub proof fn lemma_quadrant_empty(nodes: Seq<Node>, n: Node, q: Quadrant)
    requires
        nodes_ok(nodes),
        node_in(nodes, n),
        3 <= n.level,
        quadrant_pop(nodes, n, q) == 0,
    ensures
        forall|x: int, y: int|
            in_bounds(n.level as int, x, y) && in_quadrant_of(q, x, y) ==> !#[trigger] cell_of(nodes, n, x, y),
{
    lemma_children(nodes, n);
    lemma_stored(nodes, n);
    lemma_quarter(n.level as int);
    match n.base {
        NodeBase::Interior { ne_index, nw_index, se_index, sw_index, .. } => {
            let l = n.level as int;
            let qq = quarter(l);
            let c = match q {
                Quadrant::Northwest => nodes[nw_index as int],
                Quadrant::Northeast => nodes[ne_index as int],
                Quadrant::Southwest => nodes[sw_index as int],
                Quadrant::Southeast => nodes[se_index as int],
            };
            crate::node::cell_sets::lemma_pop_zero(nodes, c);
            assert forall|x: int, y: int| in_bounds(l, x, y) && in_quadrant_of(q, x, y) implies !#[trigger] cell_of(
                nodes,
                n,
                x,
                y,
            ) by {
                if x < 0 && y < 0 {
                    assert(in_bounds(l - 1, x + qq, y + qq));
                } else if y < 0 {
                    assert(in_bounds(l - 1, x - qq, y + qq));
                } else if x < 0 {
                    assert(in_bounds(l - 1, x + qq, y - qq));
                } else {
                    assert(in_bounds(l - 1, x - qq, y - qq));
                }
            }
        },
        _ => {},
    }
}

/// When a corner quadrant `a` of `root` counts no more alive cells than the
/// quarter of its quadrant `b` nearest the center of `root`, every alive
/// cell of `root` in that corner lies in the central half of `root`.
pub proof fn lemma_centered_corner(nodes: Seq<Node>, root: Node, a: Node, b: Node, east: bool, south: bool)
    requires
        nodes_ok(nodes),
        node_in(nodes, root),
        node_in(nodes, a),
        node_in(nodes, b),
        5 <= root.level <= MAX_LEVEL,
        a.level + 1 == root.level,
        b.level + 1 == a.level,
        shifted(nodes, root, a, toward(east, quarter(root.level as int)), toward(south, quarter(root.level as int))),
        shifted(nodes, a, b, toward(!east, quarter(a.level as int)), toward(!south, quarter(a.level as int))),
        pop_of(nodes, b) == quadrant_pop(nodes, a, corner(!east, !south)),
        pop_of(nodes, a) <= quadrant_pop(nodes, b, corner(!east, !south)),
    ensures
        forall|x: int, y: int|
            in_bounds(root.level as int, x, y) && in_quadrant_of(corner(east, south), x, y) && #[trigger] cell_of(
                nodes,
                root,
                x,
                y,
            ) ==> in_bounds(root.level - 2, x, y),
{
    let l = root.level as int;
    lemma_quarter(l);
    lemma_quarter(l - 1);
    lemma_quarter(l - 2);
    lemma_quadrant_pops(nodes, a);
    lemma_quadrant_pops(nodes, b);
    let qi = corner(!east, !south);
    assert forall|q: Quadrant| q != qi implies quadrant_pop(nodes, a, q) == 0 && quadrant_pop(nodes, b, q) == 0 by {}
    if qi != Quadrant::Northwest {
        lemma_quadrant_empty(nodes, a, Quadrant::Northwest);
    }
    if qi != Quadrant::Northeast {
        lemma_quadrant_empty(nodes, a, Quadrant::Northeast);
    }
    if qi != Quadrant::Southwest {
        lemma_quadrant_empty(nodes, a, Quadrant::Southwest);
    }
    if qi != Quadrant::Southeast {
        lemma_quadrant_empty(nodes, a, Quadrant::Southeast);
    }
    if qi != Quadrant::Northwest {
        lemma_quadrant_empty(nodes, b, Quadrant::Northwest);
    }
    if qi != Quadrant::Northeast {
        lemma_quadrant_empty(nodes, b, Quadrant::Northeast);
    }
    if qi != Quadrant::Southwest {
        lemma_quadrant_empty(nodes, b, Quadrant::Southwest);
    }
    if qi != Quadrant::Southeast {
        lemma_quadrant_empty(nodes, b, Quadrant::Southeast);
    }
    let q0 = quarter(l);
    let q1 = quarter(l - 1);
    assert forall|x: int, y: int|
        in_bounds(l, x, y) && in_quadrant_of(corner(east, south), x, y) && #[trigger] cell_of(nodes, root, x, y)
            implies in_bounds(l - 2, x, y) by {
        let x1 = x - toward(east, q0);
        let y1 = y - toward(south, q0);
        assert(in_bounds(l - 1, x1, y1));
        assert(cell_of(nodes, a, x1, y1));
        assert(in_quadrant_of(qi, x1, y1));
        let x2 = x1 - toward(!east, q1);
        let y2 = y1 - toward(!south, q1);
        assert(in_bounds(l - 2, x2, y2));
        assert(cell_of(nodes, b, x2, y2));
        assert(in_quadrant_of(qi, x2, y2));
    }
}

/// Appending nodes to a store keeps what `shifted` says of its nodes.
pub proof fn lemma_extends_shifted(old: Seq<Node>, new: Seq<Node>, n: Node, r: Node, dx: int, dy: int)
    requires
        nodes_ok(old),
        extends(old, new),
        node_in(old, n),
        node_in(old, r),
        shifted(old, n, r, dx, dy),
    ensures
        shifted(new, n, r, dx, dy),
{
    lemma_extends(old, new, n);
    lemma_extends(old, new, r);
}

/// The quadrants of a level two node, as level one cells.
proof fn lemma_level_two_quadrant_bits(c: u16)
    by (bit_vector)
    ensures
        ({
            let hi = ((c >> 8u16) as u8) & 0x33u8;
            let hw = (((c >> 8u16) as u8) >> 2u8) & 0x33u8;
            let lo = (c as u8) & 0x33u8;
            let lw = ((c as u8) >> 2u8) & 0x33u8;
            &&& bit8(hi, 5) == bit16(c, 13) && bit8(hi, 4) == bit16(c, 12)
            &&& bit8(hi, 1) == bit16(c, 9) && bit8(hi, 0) == bit16(c, 8)
            &&& bit8(hw, 5) == bit16(c, 15) && bit8(hw, 4) == bit16(c, 14)
            &&& bit8(hw, 1) == bit16(c, 11) && bit8(hw, 0) == bit16(c, 10)
            &&& bit8(lo, 5) == bit16(c, 5) && bit8(lo, 4) == bit16(c, 4)
            &&& bit8(lo, 1) == bit16(c, 1) && bit8(lo, 0) == bit16(c, 0)
            &&& bit8(lw, 5) == bit16(c, 7) && bit8(lw, 4) == bit16(c, 6)
            &&& bit8(lw, 1) == bit16(c, 3) && bit8(lw, 0) == bit16(c, 2)
        }),
{
}

/// The populations of the quadrants of a level two node.
proof fn lemma_level_two_quadrant_pops(c: u16)
    ensures
        count8(((c >> 8u16) as u8) & 0x33u8, 8) == b16(c, 13) + b16(c, 12)
            + b16(c, 9) + b16(c, 8),
        count8((((c >> 8u16) as u8) >> 2u8) & 0x33u8, 8) == b16(c, 15) + b16(
            c,
            14,
        ) + b16(c, 11) + b16(c, 10),
        count8((c as u8) & 0x33u8, 8) == b16(c, 5) + b16(c, 4) + b16(c, 1)
            + b16(c, 0),
        count8(((c as u8) >> 2u8) & 0x33u8, 8) == b16(c, 7) + b16(c, 6)
            + b16(c, 3) + b16(c, 2),
        level_one_cells_ok(((c >> 8u16) as u8) & 0x33u8),
        level_one_cells_ok((((c >> 8u16) as u8) >> 2u8) & 0x33u8),
        level_one_cells_ok((c as u8) & 0x33u8),
        level_one_cells_ok(((c as u8) >> 2u8) & 0x33u8),
{
    lemma_level_two_quadrant_bits(c);
    let hi = ((c >> 8u16) as u8) & 0x33u8;
    let hw = (((c >> 8u16) as u8) >> 2u8) & 0x33u8;
    let lo = (c as u8) & 0x33u8;
    let lw = ((c as u8) >> 2u8) & 0x33u8;
    assert(level_one_cells_ok(hi) && level_one_cells_ok(hw) && level_one_cells_ok(lo)
        && level_one_cells_ok(lw)) by (bit_vector)
        requires
            hi == ((c >> 8u16) as u8) & 0x33u8,
            hw == (((c >> 8u16) as u8) >> 2u8) & 0x33u8,
            lo == (c as u8) & 0x33u8,
            lw == ((c as u8) >> 2u8) & 0x33u8,
    ;
    lemma_count8(hi);
    lemma_count8(hw);
    lemma_count8(lo);
    lemma_count8(lw);
}

/// A single bit of a byte, tested with a mask.
proof fn lemma_mask_bits(c: u8)
    by (bit_vector)
    ensures
        (c & 0x20u8 > 0) == bit8(c, 5),
        (c & 0x10u8 > 0) == bit8(c, 4),
        (c & 0x02u8 > 0) == bit8(c, 1),
        (c & 0x01u8 > 0) == bit8(c, 0),
{
}

/// Which quadrant of a level two node a cell of a level one quadrant lies in.
proof fn lemma_level_two_cases(a: int, b: int)
    requires
        in_bounds(1, a, b),
    ensures
        a == -1 || a == 0,
        b == -1 || b == 0,
{
    reveal_with_fuel(two_pow, 2);
}

impl Node {
    /// Returns the northeast quadrant of the node.
    pub fn ne(&self, store: &Store) -> (node: Node)
        requires
            store.wf(),
            store.valid(*self),
            self.level >= 1,
        ensures
            store.valid(node),
            node.level + 1 == self.level,
            store.pop(node) == quadrant_pop(store.nodes(), *self, Quadrant::Northeast),
            shifted(store.nodes(), *self, node, east_shift(self.level as int), west_shift(self.level as int)),
    {
        proof {
            lemma_stored(store.nodes(), *self);
        }
        match self.base {
            NodeBase::Leaf { .. } => *self,
            NodeBase::LevelOne { cells } => {
                proof {
                    lemma_mask_bits(cells);
                    reveal_with_fuel(pop_of, 1);
                    reveal_with_fuel(two_pow, 2);
                }
                store.create_leaf(Cell::new(cells & LEVEL_ONE_NE_MASK > 0))
            },
            NodeBase::LevelTwo { cells, .. } => {
                proof {
                    lemma_level_two_quadrant_bits(cells);
                    lemma_level_two_quadrant_pops(cells);
                    reveal_with_fuel(two_pow, 2);
                }
                let node = store.create_level_one_from_cells(((cells >> 8u16) as u8) & LEVEL_ONE_MASK);
                proof {
                    assert forall|a: int, b: int| in_bounds(node.level as int, a, b) implies #[trigger] cell_of(store.nodes(), node, a, b)
                        == cell_of(store.nodes(), *self, a + 1, b - 1) by {
                        lemma_level_two_cases(a, b);
                    }
                }
                node
            },
            NodeBase::Interior { ne_index, .. } => {
                proof {
                    lemma_children(store.nodes(), *self);
                    lemma_quarter(self.level as int);
                }
                store.node(ne_index)
            },
        }
    }

    /// Returns the northwest quadrant of the node.
    pub fn nw(&self, store: &Store) -> (node: Node)
        requires
            store.wf(),
            store.valid(*self),
            self.level >= 1,
        ensures
            store.valid(node),
            node.level + 1 == self.level,
            store.pop(node) == quadrant_pop(store.nodes(), *self, Quadrant::Northwest),
            shifted(store.nodes(), *self, node, west_shift(self.level as int), west_shift(self.level as int)),
    {
        proof {
            lemma_stored(store.nodes(), *self);
        }
        match self.base {
            NodeBase::Leaf { .. } => *self,
            NodeBase::LevelOne { cells } => {
                proof {
                    lemma_mask_bits(cells);
                    reveal_with_fuel(pop_of, 1);
                    reveal_with_fuel(two_pow, 2);
                }
                store.create_leaf(Cell::new(cells & LEVEL_ONE_NW_MASK > 0))
            },
            NodeBase::LevelTwo { cells, .. } => {
                proof {
                    lemma_level_two_quadrant_bits(cells);
                    lemma_level_two_quadrant_pops(cells);
                    reveal_with_fuel(two_pow, 2);
                }
                let node = store.create_level_one_from_cells((((cells >> 8u16) as u8) >> 2u8) & LEVEL_ONE_MASK);
                proof {
                    assert forall|a: int, b: int| in_bounds(node.level as int, a, b) implies #[trigger] cell_of(store.nodes(), node, a, b)
                        == cell_of(store.nodes(), *self, a - 1, b - 1) by {
                        lemma_level_two_cases(a, b);
                    }
                }
                node
            },
            NodeBase::Interior { nw_index, .. } => {
                proof {
                    lemma_children(store.nodes(), *self);
                    lemma_quarter(self.level as int);
                }
                store.node(nw_index)
            },
        }
    }

    /// Returns the southeast quadrant of the node.
    pub fn se(&self, store: &Store) -> (node: Node)
        requires
            store.wf(),
            store.valid(*self),
            self.level >= 1,
        ensures
            store.valid(node),
            node.level + 1 == self.level,
            store.pop(node) == quadrant_pop(store.nodes(), *self, Quadrant::Southeast),
            shifted(store.nodes(), *self, node, east_shift(self.level as int), east_shift(self.level as int)),
    {
        proof {
            lemma_stored(store.nodes(), *self);
        }
        match self.base {
            NodeBase::Leaf { .. } => *self,
            NodeBase::LevelOne { cells } => {
                proof {
                    lemma_mask_bits(cells);
                    reveal_with_fuel(pop_of, 1);
                    reveal_with_fuel(two_pow, 2);
                }
                store.create_leaf(Cell::new(cells & LEVEL_ONE_SE_MASK > 0))
            },
            NodeBase::LevelTwo { cells, .. } => {
                proof {
                    lemma_level_two_quadrant_bits(cells);
                    lemma_level_two_quadrant_pops(cells);
                    reveal_with_fuel(two_pow, 2);
                }
                let node = store.create_level_one_from_cells((cells as u8) & LEVEL_ONE_MASK);
                proof {
                    assert forall|a: int, b: int| in_bounds(node.level as int, a, b) implies #[trigger] cell_of(store.nodes(), node, a, b)
                        == cell_of(store.nodes(), *self, a + 1, b + 1) by {
                        lemma_level_two_cases(a, b);
                    }
                }
                node
            },
            NodeBase::Interior { se_index, .. } => {
                proof {
                    lemma_children(store.nodes(), *self);
                    lemma_quarter(self.level as int);
                }
                store.node(se_index)
            },
        }
    }

    /// Returns the southwest quadrant of the node.
    pub fn sw(&self, store: &Store) -> (node: Node)
        requires
            store.wf(),
            store.valid(*self),
            self.level >= 1,
        ensures
            store.valid(node),
            node.level + 1 == self.level,
            store.pop(node) == quadrant_pop(store.nodes(), *self, Quadrant::Southwest),
            shifted(store.nodes(), *self, node, west_shift(self.level as int), east_shift(self.level as int)),
    {
        proof {
            lemma_stored(store.nodes(), *self);
        }
        match self.base {
            NodeBase::Leaf { .. } => *self,
            NodeBase::LevelOne { cells } => {
                proof {
                    lemma_mask_bits(cells);
                    reveal_with_fuel(pop_of, 1);
                    reveal_with_fuel(two_pow, 2);
                }
                store.create_leaf(Cell::new(cells & LEVEL_ONE_SW_MASK > 0))
            },
            NodeBase::LevelTwo { cells, .. } => {
                proof {
                    lemma_level_two_quadrant_bits(cells);
                    lemma_level_two_quadrant_pops(cells);
                    reveal_with_fuel(two_pow, 2);
                }
                let node = store.create_level_one_from_cells(((cells as u8) >> 2u8) & LEVEL_ONE_MASK);
                proof {
                    assert forall|a: int, b: int| in_bounds(node.level as int, a, b) implies #[trigger] cell_of(store.nodes(), node, a, b)
                        == cell_of(store.nodes(), *self, a - 1, b + 1) by {
                        lemma_level_two_cases(a, b);
                    }
                }
                node
            },
            NodeBase::Interior { sw_index, .. } => {
                proof {
                    lemma_children(store.nodes(), *self);
                    lemma_quarter(self.level as int);
                }
                store.node(sw_index)
            },
        }
    }
}

/// The quadrants of `r` are windows on `n` that fit together: `r` is the
/// window on `n` shifted by `(dx, dy)`.
proof fn lemma_assemble(
    nodes: Seq<Node>,
    n: Node,
    r: Node,
    nw: Node,
    ne: Node,
    sw: Node,
    se: Node,
    dx: int,
    dy: int,
)
    requires
        1 <= r.level <= MAX_LEVEL,
        nw.level + 1 == r.level,
        ne.level + 1 == r.level,
        sw.level + 1 == r.level,
        se.level + 1 == r.level,
        forall|a: int, b: int|
            in_bounds(r.level as int, a, b) ==> #[trigger] cell_of(nodes, r, a, b) == quad_cell(
                nodes,
                nw,
                ne,
                sw,
                se,
                r.level as int,
                a,
                b,
            ),
        shifted(nodes, n, nw, dx + west_shift(r.level as int), dy + west_shift(r.level as int)),
        shifted(nodes, n, ne, dx + east_shift(r.level as int), dy + west_shift(r.level as int)),
        shifted(nodes, n, sw, dx + west_shift(r.level as int), dy + east_shift(r.level as int)),
        shifted(nodes, n, se, dx + east_shift(r.level as int), dy + east_shift(r.level as int)),
    ensures
        shifted(nodes, n, r, dx, dy),
{
    let q = quarter(r.level as int);
    if r.level >= 2 {
        lemma_quarter(r.level as int);
    }
    assert forall|a: int, b: int| in_bounds(r.level as int, a, b) implies #[trigger] cell_of(
        nodes,
        r,
        a,
        b,
    ) == cell_of(nodes, n, a + dx, b + dy) by {
        if r.level == 1 {
            reveal_with_fuel(two_pow, 2);
            assert(in_bounds(0, 0, 0));
            if a < 0 && b < 0 {
                assert(cell_of(nodes, nw, 0, 0) == cell_of(nodes, n, dx - 1, dy - 1));
            } else if a >= 0 && b < 0 {
                assert(cell_of(nodes, ne, 0, 0) == cell_of(nodes, n, dx, dy - 1));
            } else if a < 0 && b >= 0 {
                assert(cell_of(nodes, sw, 0, 0) == cell_of(nodes, n, dx - 1, dy));
            } else {
                assert(cell_of(nodes, se, 0, 0) == cell_of(nodes, n, dx, dy));
            }
        } else {
            if a < 0 && b < 0 {
                assert(in_bounds(nw.level as int, a + q, b + q));
                assert(cell_of(nodes, nw, a + q, b + q) == cell_of(nodes, n, a + q + dx - q, b + q + dy - q));
            } else if a >= 0 && b < 0 {
                assert(in_bounds(ne.level as int, a - q, b + q));
                assert(cell_of(nodes, ne, a - q, b + q) == cell_of(nodes, n, a - q + dx + q, b + q + dy - q));
            } else if a < 0 && b >= 0 {
                assert(in_bounds(sw.level as int, a + q, b - q));
                assert(cell_of(nodes, sw, a + q, b - q) == cell_of(nodes, n, a + q + dx - q, b - q + dy + q));
            } else {
                assert(in_bounds(se.level as int, a - q, b - q));
                assert(cell_of(nodes, se, a - q, b - q) == cell_of(nodes, n, a - q + dx + q, b - q + dy + q));
            }
        }
    }
}

/// The quadrants of `r` are windows on four nodes: so is `r`, quadrant by
/// quadrant.
proof fn lemma_assemble_quads(
    nodes: Seq<Node>,
    r: Node,
    nw: Node,
    ne: Node,
    sw: Node,
    se: Node,
    n_nw: Node,
    n_ne: Node,
    n_sw: Node,
    n_se: Node,
    dx_w: int,
    dx_e: int,
    dy_n: int,
    dy_s: int,
)
    requires
        1 <= r.level <= MAX_LEVEL,
        nw.level + 1 == r.level,
        ne.level + 1 == r.level,
        sw.level + 1 == r.level,
        se.level + 1 == r.level,
        forall|a: int, b: int|
            in_bounds(r.level as int, a, b) ==> #[trigger] cell_of(nodes, r, a, b) == quad_cell(
                nodes,
                nw,
                ne,
                sw,
                se,
                r.level as int,
                a,
                b,
            ),
        shifted(nodes, n_nw, nw, dx_w + west_shift(r.level as int), dy_n + west_shift(r.level as int)),
        shifted(nodes, n_ne, ne, dx_e + east_shift(r.level as int), dy_n + west_shift(r.level as int)),
        shifted(nodes, n_sw, sw, dx_w + west_shift(r.level as int), dy_s + east_shift(r.level as int)),
        shifted(nodes, n_se, se, dx_e + east_shift(r.level as int), dy_s + east_shift(r.level as int)),
    ensures
        forall|a: int, b: int|
            in_bounds(r.level as int, a, b) ==> #[trigger] cell_of(nodes, r, a, b) == (if a < 0
                && b < 0 {
                cell_of(nodes, n_nw, a + dx_w, b + dy_n)
            } else if a >= 0 && b < 0 {
                cell_of(nodes, n_ne, a + dx_e, b + dy_n)
            } else if a < 0 && b >= 0 {
                cell_of(nodes, n_sw, a + dx_w, b + dy_s)
            } else {
                cell_of(nodes, n_se, a + dx_e, b + dy_s)
            }),
{
    let q = quarter(r.level as int);
    if r.level >= 2 {
        lemma_quarter(r.level as int);
    }
    assert forall|a: int, b: int| in_bounds(r.level as int, a, b) implies #[trigger] cell_of(
        nodes,
        r,
        a,
        b,
    ) == (if a < 0 && b < 0 {
        cell_of(nodes, n_nw, a + dx_w, b + dy_n)
    } else if a >= 0 && b < 0 {
        cell_of(nodes, n_ne, a + dx_e, b + dy_n)
    } else if a < 0 && b >= 0 {
        cell_of(nodes, n_sw, a + dx_w, b + dy_s)
    } else {
        cell_of(nodes, n_se, a + dx_e, b + dy_s)
    }) by {
        if r.level == 1 {
            reveal_with_fuel(two_pow, 2);
            assert(in_bounds(0, 0, 0));
            if a < 0 && b < 0 {
                assert(cell_of(nodes, nw, 0, 0) == cell_of(nodes, n_nw, dx_w - 1, dy_n - 1));
            } else if a >= 0 && b < 0 {
                assert(cell_of(nodes, ne, 0, 0) == cell_of(nodes, n_ne, dx_e, dy_n - 1));
            } else if a < 0 && b >= 0 {
                assert(cell_of(nodes, sw, 0, 0) == cell_of(nodes, n_sw, dx_w - 1, dy_s));
            } else {
                assert(cell_of(nodes, se, 0, 0) == cell_of(nodes, n_se, dx_e, dy_s));
            }
        } else {
            if a < 0 && b < 0 {
                assert(in_bounds(nw.level as int, a + q, b + q));
                assert(cell_of(nodes, nw, a + q, b + q) == cell_of(nodes, n_nw, a + q + dx_w - q, b + q + dy_n - q));
            } else if a >= 0 && b < 0 {
                assert(in_bounds(ne.level as int, a - q, b + q));
                assert(cell_of(nodes, ne, a - q, b + q) == cell_of(nodes, n_ne, a - q + dx_e + q, b + q + dy_n - q));
            } else if a < 0 && b >= 0 {
                assert(in_bounds(sw.level as int, a + q, b - q));
                assert(cell_of(nodes, sw, a + q, b - q) == cell_of(nodes, n_sw, a + q + dx_w - q, b - q + dy_s + q));
            } else {
                assert(in_bounds(se.level as int, a - q, b - q));
                assert(cell_of(nodes, se, a - q, b - q) == cell_of(nodes, n_se, a - q + dx_e + q, b - q + dy_s + q));
            }
        }
    }
}

/// A window on a window on `n` is a window on `n`.
proof fn lemma_shifted_trans(
    nodes: Seq<Node>,
    n: Node,
    m: Node,
    r: Node,
    dx1: int,
    dy1: int,
    dx2: int,
    dy2: int,
)
    requires
        shifted(nodes, n, m, dx1, dy1),
        shifted(nodes, m, r, dx2, dy2),
        forall|a: int, b: int|
            #[trigger] in_bounds(r.level as int, a, b) ==> in_bounds(m.level as int, a + dx2, b + dy2),
    ensures
        shifted(nodes, n, r, dx1 + dx2, dy1 + dy2),
{
    assert forall|a: int, b: int| in_bounds(r.level as int, a, b) implies #[trigger] cell_of(
        nodes,
        r,
        a,
        b,
    ) == cell_of(nodes, n, a + dx1 + dx2, b + dy1 + dy2) by {
        assert(in_bounds(m.level as int, a + dx2, b + dy2));
        assert(cell_of(nodes, m, a + dx2, b + dy2) == cell_of(nodes, n, a + dx2 + dx1, b + dy2 + dy1));
    }
}

/// A quadrant's cells lie in its parent: the windows of a quadrant, shifted
/// by `(dx, dy)`, stay within the parent when `|dx|, |dy|` are at most the
/// quarter of the parent.
pub proof fn lemma_quadrant_window(level: int, dx: int, dy: int)
    requires
        2 <= level <= MAX_LEVEL,
        dx == east_shift(level) || dx == west_shift(level),
        dy == east_shift(level) || dy == west_shift(level),
    ensures
        forall|a: int, b: int| #[trigger] in_bounds(level - 1, a, b) ==> in_bounds(level, a + dx, b + dy),
{
    lemma_quarter(level);
}

impl Node {
    /// Returns the center subnode of the node: the node one level lower
    /// whose cells are the central cells of this one, at the same
    /// coordinates.
    pub fn center_subnode(&self, store: &mut Store) -> (node: Node)
        requires
            old(store).wf(),
            old(store).valid(*self),
            self.level >= 2,
        ensures
            final(store).wf(),
            extends(old(store).nodes(), final(store).nodes()),
            final(store).valid(node),
            node.level + 1 == self.level,
            shifted(final(store).nodes(), *self, node, 0, 0),
    {
        let ghost old_nodes = store.nodes();
        let ghost l = self.level as int;
        proof {
            lemma_stored(old_nodes, *self);
        }
        let c_ne = self.ne(store);
        let c_nw = self.nw(store);
        let c_se = self.se(store);
        let c_sw = self.sw(store);
        let ne = c_ne.sw(store);
        let nw = c_nw.se(store);
        let se = c_se.nw(store);
        let sw = c_sw.ne(store);
        proof {
            lemma_small_pops(old_nodes, ne, nw, se, sw);
            lemma_quadrant_window(l, east_shift(l), west_shift(l));
            lemma_quadrant_window(l, west_shift(l), west_shift(l));
            lemma_quadrant_window(l, east_shift(l), east_shift(l));
            lemma_quadrant_window(l, west_shift(l), east_shift(l));
            if l >= 3 {
                lemma_quadrant_window(l - 1, east_shift(l - 1), west_shift(l - 1));
                lemma_quadrant_window(l - 1, west_shift(l - 1), west_shift(l - 1));
                lemma_quadrant_window(l - 1, east_shift(l - 1), east_shift(l - 1));
                lemma_quadrant_window(l - 1, west_shift(l - 1), east_shift(l - 1));
            } else {
                reveal_with_fuel(two_pow, 2);
            }
            lemma_shifted_trans(old_nodes, *self, c_ne, ne, east_shift(l), west_shift(l), west_shift(l - 1), east_shift(l - 1));
            lemma_shifted_trans(old_nodes, *self, c_nw, nw, west_shift(l), west_shift(l), east_shift(l - 1), east_shift(l - 1));
            lemma_shifted_trans(old_nodes, *self, c_se, se, east_shift(l), east_shift(l), west_shift(l - 1), west_shift(l - 1));
            lemma_shifted_trans(old_nodes, *self, c_sw, sw, west_shift(l), east_shift(l), east_shift(l - 1), west_shift(l - 1));
        }
        let node = store.create_interior(NodeTemplate { ne, nw, se, sw });
        proof {
            let nodes = store.nodes();
            lemma_extends_shifted(old_nodes, nodes, *self, ne, east_shift(l) + west_shift(l - 1), west_shift(l) + east_shift(l - 1));
            lemma_extends_shifted(old_nodes, nodes, *self, nw, west_shift(l) + east_shift(l - 1), west_shift(l) + east_shift(l - 1));
            lemma_extends_shifted(old_nodes, nodes, *self, se, east_shift(l) + west_shift(l - 1), east_shift(l) + west_shift(l - 1));
            lemma_extends_shifted(old_nodes, nodes, *self, sw, west_shift(l) + east_shift(l - 1), east_shift(l) + west_shift(l - 1));
            if l >= 3 {
                lemma_quarter(l);
                lemma_quarter(l - 1);
            } else {
                reveal_with_fuel(two_pow, 2);
            }
            lemma_assemble(nodes, *self, node, nw, ne, sw, se, 0, 0);
        }
        node
    }
}

/// The node of level `n - 1` halfway between two level `n` nodes side by side,
/// `w` to the west of `e`: its western half is the eastern half of `w`, its
/// eastern half the western half of `e`.
pub open spec fn between_horiz(nodes: Seq<Node>, w: Node, e: Node, r: Node) -> bool {
    forall|a: int, b: int|
        in_bounds(r.level as int, a, b) ==> #[trigger] cell_of(nodes, r, a, b) == (if a < 0 {
            cell_of(nodes, w, a + 2 * quarter(w.level as int), b)
        } else {
            cell_of(nodes, e, a - 2 * quarter(w.level as int), b)
        })
}

/// The node of level `n - 1` halfway between two level `n` nodes one above
/// the other, `n` to the north of `s`.
pub open spec fn between_vert(nodes: Seq<Node>, n: Node, s: Node, r: Node) -> bool {
    forall|a: int, b: int|
        in_bounds(r.level as int, a, b) ==> #[trigger] cell_of(nodes, r, a, b) == (if b < 0 {
            cell_of(nodes, n, a, b + 2 * quarter(n.level as int))
        } else {
            cell_of(nodes, s, a, b - 2 * quarter(n.level as int))
        })
}

/// The shifts of quadrants of quadrants, at a level of 2 or more.
proof fn lemma_shifts(level: int)
    requires
        2 <= level <= MAX_LEVEL,
    ensures
        east_shift(level) == quarter(level),
        west_shift(level) == -quarter(level),
        east_shift(level) + east_shift(level - 1) - west_shift(level - 1) == 2 * quarter(level),
        west_shift(level) + west_shift(level - 1) - east_shift(level - 1) == -2 * quarter(level),
        west_shift(level) + east_shift(level - 1) - west_shift(level - 1) == 0,
        east_shift(level) + west_shift(level - 1) - east_shift(level - 1) == 0,
{
    lemma_quarter(level);
    if level >= 3 {
        lemma_quarter(level - 1);
    } else {
        reveal_with_fuel(two_pow, 2);
    }
}

impl Node {
    /// Given two horizontally adjacent nodes of the same level, returns the
    /// subnode halfway between them.
    #[verifier::spinoff_prover]
    fn centered_horiz(store: &mut Store, e: Node, w: Node) -> (node: Node)
        requires
            old(store).wf(),
            old(store).valid(e),
            old(store).valid(w),
            e.level == w.level,
            2 <= e.level <= 63,
        ensures
            final(store).wf(),
            extends(old(store).nodes(), final(store).nodes()),
            final(store).valid(node),
            node.level + 1 == e.level,
            between_horiz(final(store).nodes(), w, e, node),
    {
        let ghost old_nodes = store.nodes();
        let ghost l = e.level as int;
        let w_ne = w.ne(store);
        let e_nw = e.nw(store);
        let w_se = w.se(store);
        let e_sw = e.sw(store);
        let ne = e_nw.sw(store);
        let nw = w_ne.se(store);
        let se = e_sw.nw(store);
        let sw = w_se.ne(store);
        proof {
            lemma_small_pops(old_nodes, ne, nw, se, sw);
            lemma_shifts(l);
            lemma_quadrant_window(l, east_shift(l), west_shift(l));
            lemma_quadrant_window(l, west_shift(l), west_shift(l));
            lemma_quadrant_window(l, east_shift(l), east_shift(l));
            lemma_quadrant_window(l, west_shift(l), east_shift(l));
            if l >= 3 {
                lemma_quadrant_window(l - 1, east_shift(l - 1), west_shift(l - 1));
                lemma_quadrant_window(l - 1, west_shift(l - 1), west_shift(l - 1));
                lemma_quadrant_window(l - 1, east_shift(l - 1), east_shift(l - 1));
                lemma_quadrant_window(l - 1, west_shift(l - 1), east_shift(l - 1));
            } else {
                reveal_with_fuel(two_pow, 2);
            }
            lemma_shifted_trans(old_nodes, w, w_ne, nw, east_shift(l), west_shift(l), east_shift(l - 1), east_shift(l - 1));
            lemma_shifted_trans(old_nodes, e, e_nw, ne, west_shift(l), west_shift(l), west_shift(l - 1), east_shift(l - 1));
            lemma_shifted_trans(old_nodes, w, w_se, sw, east_shift(l), east_shift(l), east_shift(l - 1), west_shift(l - 1));
            lemma_shifted_trans(old_nodes, e, e_sw, se, west_shift(l), east_shift(l), west_shift(l - 1), west_shift(l - 1));
        }
        let node = store.create_interior(NodeTemplate { ne, nw, se, sw });
        proof {
            let nodes = store.nodes();
            lemma_extends_shifted(old_nodes, nodes, w, nw, east_shift(l) + east_shift(l - 1), west_shift(l) + east_shift(l - 1));
            lemma_extends_shifted(old_nodes, nodes, e, ne, west_shift(l) + west_shift(l - 1), west_shift(l) + east_shift(l - 1));
            lemma_extends_shifted(old_nodes, nodes, w, sw, east_shift(l) + east_shift(l - 1), east_shift(l) + west_shift(l - 1));
            lemma_extends_shifted(old_nodes, nodes, e, se, west_shift(l) + west_shift(l - 1), east_shift(l) + west_shift(l - 1));
            lemma_assemble_quads(nodes, node, nw, ne, sw, se, w, e, w, e, 2 * quarter(l), -2 * quarter(l), 0, 0);
        }
        node
    }

    /// Given two vertically adjacent nodes of the same level, returns the
    /// subnode halfway between them.
    #[verifier::spinoff_prover]
    fn centered_vert(store: &mut Store, n: Node, s: Node) -> (node: Node)
        requires
            old(store).wf(),
            old(store).valid(n),
            old(store).valid(s),
            n.level == s.level,
            2 <= n.level <= 63,
        ensures
            final(store).wf(),
            extends(old(store).nodes(), final(store).nodes()),
            final(store).valid(node),
            node.level + 1 == n.level,
            between_vert(final(store).nodes(), n, s, node),
    {
        let ghost old_nodes = store.nodes();
        let ghost l = n.level as int;
        let n_se = n.se(store);
        let n_sw = n.sw(store);
        let s_ne = s.ne(store);
        let s_nw = s.nw(store);
        let ne = n_se.sw(store);
        let nw = n_sw.se(store);
        let se = s_ne.nw(store);
        let sw = s_nw.ne(store);
        proof {
            lemma_small_pops(old_nodes, ne, nw, se, sw);
            lemma_shifts(l);
            lemma_quadrant_window(l, east_shift(l), west_shift(l));
            lemma_quadrant_window(l, west_shift(l), west_shift(l));
            lemma_quadrant_window(l, east_shift(l), east_shift(l));
            lemma_quadrant_window(l, west_shift(l), east_shift(l));
            if l >= 3 {
                lemma_quadrant_window(l - 1, east_shift(l - 1), west_shift(l - 1));
                lemma_quadrant_window(l - 1, west_shift(l - 1), west_shift(l - 1));
                lemma_quadrant_window(l - 1, east_shift(l - 1), east_shift(l - 1));
                lemma_quadrant_window(l - 1, west_shift(l - 1), east_shift(l - 1));
            } else {
                reveal_with_fuel(two_pow, 2);
            }
            lemma_shifted_trans(old_nodes, n, n_sw, nw, west_shift(l), east_shift(l), east_shift(l - 1), east_shift(l - 1));
            lemma_shifted_trans(old_nodes, n, n_se, ne, east_shift(l), east_shift(l), west_shift(l - 1), east_shift(l - 1));
            lemma_shifted_trans(old_nodes, s, s_nw, sw, west_shift(l), west_shift(l), east_shift(l - 1), west_shift(l - 1));
            lemma_shifted_trans(old_nodes, s, s_ne, se, east_shift(l), west_shift(l), west_shift(l - 1), west_shift(l - 1));
        }
        let node = store.create_interior(NodeTemplate { ne, nw, se, sw });
        proof {
            let nodes = store.nodes();
            lemma_extends_shifted(old_nodes, nodes, n, nw, west_shift(l) + east_shift(l - 1), east_shift(l) + east_shift(l - 1));
            lemma_extends_shifted(old_nodes, nodes, n, ne, east_shift(l) + west_shift(l - 1), east_shift(l) + east_shift(l - 1));
            lemma_extends_shifted(old_nodes, nodes, s, sw, west_shift(l) + east_shift(l - 1), west_shift(l) + west_shift(l - 1));
            lemma_extends_shifted(old_nodes, nodes, s, se, east_shift(l) + west_shift(l - 1), west_shift(l) + west_shift(l - 1));
            lemma_assemble_quads(nodes, node, nw, ne, sw, se, n, n, s, s, 0, 0, 2 * quarter(l), -2 * quarter(l));
        }
        node
    }
}

/// The cell `(u, v)` of a node made of one quadrant `c` at the given
/// corner and dead cells elsewhere.
pub open spec fn corner_cell(nodes: Seq<Node>, c: Node, level: int, corner: Quadrant, u: int, v: int) -> bool {
    let q = quarter(level);
    match corner {
        Quadrant::Northwest => u < 0 && v < 0 && (if level <= 1 {
            cell_of(nodes, c, 0, 0)
        } else {
            cell_of(nodes, c, u + q, v + q)
        }),
        Quadrant::Northeast => u >= 0 && v < 0 && (if level <= 1 {
            cell_of(nodes, c, 0, 0)
        } else {
            cell_of(nodes, c, u - q, v + q)
        }),
        Quadrant::Southwest => u < 0 && v >= 0 && (if level <= 1 {
            cell_of(nodes, c, 0, 0)
        } else {
            cell_of(nodes, c, u + q, v - q)
        }),
        Quadrant::Southeast => u >= 0 && v >= 0 && (if level <= 1 {
            cell_of(nodes, c, 0, 0)
        } else {
            cell_of(nodes, c, u - q, v - q)
        }),
    }
}

/// A node made of one quadrant and three dead ones.
proof fn lemma_corner(nodes: Seq<Node>, r: Node, border: Node, c: Node, corner: Quadrant)
    requires
        1 <= r.level <= MAX_LEVEL,
        border.level + 1 == r.level,
        forall|a: int, b: int| in_bounds(border.level as int, a, b) ==> !#[trigger] cell_of(nodes, border, a, b),
        forall|a: int, b: int|
            in_bounds(r.level as int, a, b) ==> #[trigger] cell_of(nodes, r, a, b) == (match corner {
                Quadrant::Northwest => quad_cell(nodes, c, border, border, border, r.level as int, a, b),
                Quadrant::Northeast => quad_cell(nodes, border, c, border, border, r.level as int, a, b),
                Quadrant::Southwest => quad_cell(nodes, border, border, c, border, r.level as int, a, b),
                Quadrant::Southeast => quad_cell(nodes, border, border, border, c, r.level as int, a, b),
            }),
    ensures
        forall|u: int, v: int|
            in_bounds(r.level as int, u, v) ==> #[trigger] cell_of(nodes, r, u, v) == corner_cell(
                nodes,
                c,
                r.level as int,
                corner,
                u,
                v,
            ),
{
    if r.level >= 2 {
        lemma_quarter(r.level as int);
    } else {
        reveal_with_fuel(two_pow, 2);
        assert(in_bounds(0, 0, 0));
    }
    assert forall|u: int, v: int| in_bounds(r.level as int, u, v) implies #[trigger] cell_of(
        nodes,
        r,
        u,
        v,
    ) == corner_cell(nodes, c, r.level as int, corner, u, v) by {
        let q = quarter(r.level as int);
        if r.level >= 2 {
            if u < 0 && v < 0 {
                assert(in_bounds(border.level as int, u + q, v + q));
            } else if u >= 0 && v < 0 {
                assert(in_bounds(border.level as int, u - q, v + q));
            } else if u < 0 && v >= 0 {
                assert(in_bounds(border.level as int, u + q, v - q));
            } else {
                assert(in_bounds(border.level as int, u - q, v - q));
            }
        }
    }
}

impl Node {
    /// Returns a node one level higher with this node at its center and dead
    /// cells around it.
    #[verifier::spinoff_prover]
    #[verifier::rlimit(60)]
    pub fn expand(&self, store: &mut Store) -> (node: Node)
        requires
            old(store).wf(),
            old(store).valid(*self),
            1 <= self.level < MAX_LEVEL,
        ensures
            final(store).wf(),
            extends(old(store).nodes(), final(store).nodes()),
            final(store).valid(node),
            node.level == self.level + 1,
            forall|a: int, b: int|
                in_bounds(node.level as int, a, b) ==> #[trigger] final(store).cell(node, a, b) == (
                in_bounds(self.level as int, a, b) && final(store).cell(*self, a, b)),
            final(store).pop(node) == old(store).pop(*self),
    {
        let ghost n0 = store.nodes();
        let ghost l = self.level as int;
        let c_ne = self.ne(store);
        let c_nw = self.nw(store);
        let c_se = self.se(store);
        let c_sw = self.sw(store);
        proof {
            lemma_quadrant_pops(n0, *self);
            lemma_pop_fits(store, *self);
        }
        let border = store.create_empty(self.level - 1);
        let ghost n1 = store.nodes();
        proof {
            lemma_extends(n0, n1, c_ne);
            lemma_extends(n0, n1, c_nw);
            lemma_extends(n0, n1, c_se);
            lemma_extends(n0, n1, c_sw);
        }
        let ne = store.create_interior(NodeTemplate { ne: border, nw: border, se: border, sw: c_ne });
        let ghost n2 = store.nodes();
        proof {
            lemma_extends(n1, n2, border);
            lemma_extends(n0, n2, c_nw);
        }
        let nw = store.create_interior(NodeTemplate { ne: border, nw: border, se: c_nw, sw: border });
        let ghost n3 = store.nodes();
        proof {
            lemma_extends(n1, n3, border);
            lemma_extends(n0, n3, c_se);
        }
        let se = store.create_interior(NodeTemplate { ne: border, nw: c_se, se: border, sw: border });
        let ghost n4 = store.nodes();
        proof {
            lemma_extends(n1, n4, border);
            lemma_extends(n0, n4, c_sw);
        }
        let sw = store.create_interior(NodeTemplate { ne: c_sw, nw: border, se: border, sw: border });
        let ghost n5 = store.nodes();
        proof {
            lemma_extends(n0, n5, c_ne);
            lemma_extends(n0, n5, c_nw);
            lemma_extends(n0, n5, c_se);
            lemma_extends(n0, n5, c_sw);
            lemma_extends(n1, n2, border);
            lemma_extends(n2, n5, ne);
            lemma_extends(n3, n5, nw);
            lemma_extends(n4, n5, se);
            assert(pop_of(n5, ne) == quadrant_pop(n0, *self, Quadrant::Northeast));
            assert(pop_of(n5, nw) == quadrant_pop(n0, *self, Quadrant::Northwest));
            assert(pop_of(n5, se) == quadrant_pop(n0, *self, Quadrant::Southeast));
            assert(pop_of(n5, sw) == quadrant_pop(n0, *self, Quadrant::Southwest));
        }
        let node = store.create_interior(NodeTemplate { ne, nw, se, sw });
        proof {
            let nodes = store.nodes();
            lemma_extends(n0, nodes, *self);
            lemma_extends(n0, nodes, c_ne);
            lemma_extends(n0, nodes, c_nw);
            lemma_extends(n0, nodes, c_se);
            lemma_extends(n0, nodes, c_sw);
            lemma_extends(n1, nodes, border);
            lemma_extends(n2, nodes, ne);
            lemma_extends(n3, nodes, nw);
            lemma_extends(n4, nodes, se);
            lemma_extends(n5, nodes, sw);
            lemma_extends(n1, n2, border);
            lemma_extends(n1, n3, border);
            lemma_extends(n1, n4, border);
            lemma_extends(n1, n5, border);
            lemma_extends(n0, n2, c_ne);
            lemma_extends(n0, n3, c_nw);
            lemma_extends(n0, n4, c_se);
            lemma_extends(n0, n5, c_sw);
            lemma_corner(nodes, ne, border, c_ne, Quadrant::Southwest);
            lemma_corner(nodes, nw, border, c_nw, Quadrant::Southeast);
            lemma_corner(nodes, se, border, c_se, Quadrant::Northwest);
            lemma_corner(nodes, sw, border, c_sw, Quadrant::Northeast);
            lemma_expand_cells(nodes, *self, node, c_ne, c_nw, c_se, c_sw, ne, nw, se, sw);
        }
        node
    }
}

/// The cells of an expanded node.
proof fn lemma_expand_cells(
    nodes: Seq<Node>,
    n: Node,
    r: Node,
    c_ne: Node,
    c_nw: Node,
    c_se: Node,
    c_sw: Node,
    ne: Node,
    nw: Node,
    se: Node,
    sw: Node,
)
    requires
        1 <= n.level < MAX_LEVEL,
        r.level == n.level + 1,
        ne.level == n.level && nw.level == n.level && se.level == n.level && sw.level == n.level,
        shifted(nodes, n, c_ne, east_shift(n.level as int), west_shift(n.level as int)),
        shifted(nodes, n, c_nw, west_shift(n.level as int), west_shift(n.level as int)),
        shifted(nodes, n, c_se, east_shift(n.level as int), east_shift(n.level as int)),
        shifted(nodes, n, c_sw, west_shift(n.level as int), east_shift(n.level as int)),
        c_ne.level + 1 == n.level && c_nw.level + 1 == n.level && c_se.level + 1 == n.level
            && c_sw.level + 1 == n.level,
        forall|a: int, b: int|
            in_bounds(r.level as int, a, b) ==> #[trigger] cell_of(nodes, r, a, b) == quad_cell(
                nodes,
                nw,
                ne,
                sw,
                se,
                r.level as int,
                a,
                b,
            ),
        forall|u: int, v: int|
            in_bounds(n.level as int, u, v) ==> #[trigger] cell_of(nodes, ne, u, v) == corner_cell(
                nodes,
                c_ne,
                n.level as int,
                Quadrant::Southwest,
                u,
                v,
            ),
        forall|u: int, v: int|
            in_bounds(n.level as int, u, v) ==> #[trigger] cell_of(nodes, nw, u, v) == corner_cell(
                nodes,
                c_nw,
                n.level as int,
                Quadrant::Southeast,
                u,
                v,
            ),
        forall|u: int, v: int|
            in_bounds(n.level as int, u, v) ==> #[trigger] cell_of(nodes, se, u, v) == corner_cell(
                nodes,
                c_se,
                n.level as int,
                Quadrant::Northwest,
                u,
                v,
            ),
        forall|u: int, v: int|
            in_bounds(n.level as int, u, v) ==> #[trigger] cell_of(nodes, sw, u, v) == corner_cell(
                nodes,
                c_sw,
                n.level as int,
                Quadrant::Northeast,
                u,
                v,
            ),
    ensures
        forall|a: int, b: int|
            in_bounds(r.level as int, a, b) ==> #[trigger] cell_of(nodes, r, a, b) == (in_bounds(
                n.level as int,
                a,
                b,
            ) && cell_of(nodes, n, a, b)),
{
    let l = n.level as int;
    lemma_quarter(l + 1);
    if l >= 2 {
        lemma_quarter(l);
    } else {
        reveal_with_fuel(two_pow, 2);
        assert(in_bounds(0, 0, 0));
    }
    assert forall|a: int, b: int| in_bounds(r.level as int, a, b) implies #[trigger] cell_of(
        nodes,
        r,
        a,
        b,
    ) == (in_bounds(l, a, b) && cell_of(nodes, n, a, b)) by {
        let big = quarter(l + 1);
        let small = quarter(l);
        if a < 0 && b < 0 {
            assert(in_bounds(l, a + big, b + big));
            if l >= 2 {
                if in_bounds(l, a, b) {
                    assert(in_bounds(l - 1, a + big - small, b + big - small));
                }
            }
        } else if a >= 0 && b < 0 {
            assert(in_bounds(l, a - big, b + big));
            if l >= 2 {
                if in_bounds(l, a, b) {
                    assert(in_bounds(l - 1, a - big + small, b + big - small));
                }
            }
        } else if a < 0 && b >= 0 {
            assert(in_bounds(l, a + big, b - big));
            if l >= 2 {
                if in_bounds(l, a, b) {
                    assert(in_bounds(l - 1, a + big - small, b - big + small));
                }
            }
        } else {
            assert(in_bounds(l, a - big, b - big));
            if l >= 2 {
                if in_bounds(l, a, b) {
                    assert(in_bounds(l - 1, a - big + small, b - big + small));
                }
            }
        }
    }
}

impl Node {
    /// Returns the north subsubnode: the node two levels lower centered a
    /// quarter of the node north of its center.
    pub fn north_subsubnode(&self, store: &mut Store) -> (node: Node)
        requires
            old(store).wf(),
            old(store).valid(*self),
            self.level >= 3,
        ensures
            final(store).wf(),
            extends(old(store).nodes(), final(store).nodes()),
            final(store).valid(node),
            node.level + 2 == self.level,
            shifted(final(store).nodes(), *self, node, 0, -quarter(self.level as int)),
    {
        let ghost n0 = store.nodes();
        let ghost l = self.level as int;
        proof {
            lemma_stored(n0, *self);
        }
        let w = self.nw(store);
        let e = self.ne(store);
        let node = Self::centered_horiz(store, e, w);
        proof {
            let nodes = store.nodes();
            lemma_extends_shifted(n0, nodes, *self, w, west_shift(l), west_shift(l));
            lemma_extends_shifted(n0, nodes, *self, e, east_shift(l), west_shift(l));
            lemma_quarter(l);
            lemma_quarter(l - 1);
            assert forall|a: int, b: int| in_bounds(node.level as int, a, b) implies #[trigger] cell_of(
                nodes,
                node,
                a,
                b,
            ) == cell_of(nodes, *self, a + (0), b + (-quarter(self.level as int))) by {
                assert(between_horiz(store.nodes(), w, e, node));
                let q = quarter(l - 1);
                if a < 0 {
                    assert(in_bounds(l - 1, a + 2 * q, b));
                } else {
                    assert(in_bounds(l - 1, a - 2 * q, b));
                }
            }
        }
        node
    }

    /// Returns the south subsubnode: the node two levels lower centered a
    /// quarter of the node south of its center.
    pub fn south_subsubnode(&self, store: &mut Store) -> (node: Node)
        requires
            old(store).wf(),
            old(store).valid(*self),
            self.level >= 3,
        ensures
            final(store).wf(),
            extends(old(store).nodes(), final(store).nodes()),
            final(store).valid(node),
            node.level + 2 == self.level,
            shifted(final(store).nodes(), *self, node, 0, quarter(self.level as int)),
    {
        let ghost n0 = store.nodes();
        let ghost l = self.level as int;
        proof {
            lemma_stored(n0, *self);
        }
        let w = self.sw(store);
        let e = self.se(store);
        let node = Self::centered_horiz(store, e, w);
        proof {
            let nodes = store.nodes();
            lemma_extends_shifted(n0, nodes, *self, w, west_shift(l), east_shift(l));
            lemma_extends_shifted(n0, nodes, *self, e, east_shift(l), east_shift(l));
            lemma_quarter(l);
            lemma_quarter(l - 1);
            assert forall|a: int, b: int| in_bounds(node.level as int, a, b) implies #[trigger] cell_of(
                nodes,
                node,
                a,
                b,
            ) == cell_of(nodes, *self, a + (0), b + (quarter(self.level as int))) by {
                assert(between_horiz(store.nodes(), w, e, node));
                let q = quarter(l - 1);
                if a < 0 {
                    assert(in_bounds(l - 1, a + 2 * q, b));
                } else {
                    assert(in_bounds(l - 1, a - 2 * q, b));
                }
            }
        }
        node
    }

    /// Returns the west subsubnode: the node two levels lower centered a
    /// quarter of the node west of its center.
    pub fn west_subsubnode(&self, store: &mut Store) -> (node: Node)
        requires
            old(store).wf(),
            old(store).valid(*self),
            self.level >= 3,
        ensures
            final(store).wf(),
            extends(old(store).nodes(), final(store).nodes()),
            final(store).valid(node),
            node.level + 2 == self.level,
            shifted(final(store).nodes(), *self, node, -quarter(self.level as int), 0),
    {
        let ghost n0 = store.nodes();
        let ghost l = self.level as int;
        proof {
            lemma_stored(n0, *self);
        }
        let n = self.nw(store);
        let s = self.sw(store);
        let node = Self::centered_vert(store, n, s);
        proof {
            let nodes = store.nodes();
            lemma_extends_shifted(n0, nodes, *self, n, west_shift(l), west_shift(l));
            lemma_extends_shifted(n0, nodes, *self, s, west_shift(l), east_shift(l));
            lemma_quarter(l);
            lemma_quarter(l - 1);
            assert forall|a: int, b: int| in_bounds(node.level as int, a, b) implies #[trigger] cell_of(
                nodes,
                node,
                a,
                b,
            ) == cell_of(nodes, *self, a + (-quarter(self.level as int)), b + (0)) by {
                assert(between_vert(store.nodes(), n, s, node));
                let q = quarter(l - 1);
                if b < 0 {
                    assert(in_bounds(l - 1, a, b + 2 * q));
                } else {
                    assert(in_bounds(l - 1, a, b - 2 * q));
                }
            }
        }
        node
    }

    /// Returns the east subsubnode: the node two levels lower centered a
    /// quarter of the node east of its center.
    pub fn east_subsubnode(&self, store: &mut Store) -> (node: Node)
        requires
            old(store).wf(),
            old(store).valid(*self),
            self.level >= 3,
        ensures
            final(store).wf(),
            extends(old(store).nodes(), final(store).nodes()),
            final(store).valid(node),
            node.level + 2 == self.level,
            shifted(final(store).nodes(), *self, node, quarter(self.level as int), 0),
    {
        let ghost n0 = store.nodes();
        let ghost l = self.level as int;
        proof {
            lemma_stored(n0, *self);
        }
        let n = self.ne(store);
        let s = self.se(store);
        let node = Self::centered_vert(store, n, s);
        proof {
            let nodes = store.nodes();
            lemma_extends_shifted(n0, nodes, *self, n, east_shift(l), west_shift(l));
            lemma_extends_shifted(n0, nodes, *self, s, east_shift(l), east_shift(l));
            lemma_quarter(l);
            lemma_quarter(l - 1);
            assert forall|a: int, b: int| in_bounds(node.level as int, a, b) implies #[trigger] cell_of(
                nodes,
                node,
                a,
                b,
            ) == cell_of(nodes, *self, a + (quarter(self.level as int)), b + (0)) by {
                assert(between_vert(store.nodes(), n, s, node));
                let q = quarter(l - 1);
                if b < 0 {
                    assert(in_bounds(l - 1, a, b + 2 * q));
                } else {
                    assert(in_bounds(l - 1, a, b - 2 * q));
                }
            }
        }
        node
    }
}

} // verus!
