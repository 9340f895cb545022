//! Creating nodes, and caching the results of evolving them.

use vstd::prelude::*;

use crate::node::table::{node_table_contents, NodeTable};
use crate::node::{
    quarter, lemma_quarter, advanced, bit16, bit8, cell_of, child_ok, count16, count8, extends, in_bounds, index_of,
    key_of, lemma_children, lemma_extends, lemma_extends_advanced, lemma_index_node_in,
    lemma_same_key, lemma_stored, level_one_bit_index, level_one_cells_ok, level_two_bit_index,
    level_two_step_key, node_in, nodes_ok, pop_of, quad_cell, shape_ok, step_key, stored_ok,
    two_pow, Node, NodeBase, Store, LEVEL_ONE_MASK, LEVEL_ONE_NE_MASK, LEVEL_ONE_NW_MASK,
    LEVEL_ONE_SE_MASK, LEVEL_ONE_SW_MASK, MAX_LEVEL,
};
use crate::Cell;

verus! {

/// The four quadrants of a node to be created.
pub struct NodeTemplate {
    /// The northeast quadrant.
    pub ne: Node,
    /// The northwest quadrant.
    pub nw: Node,
    /// The southeast quadrant.
    pub se: Node,
    /// The southwest quadrant.
    pub sw: Node,
}

/// A node that may be added to a store whose contents are `nodes`: its
/// representation fits its level, it is of level 2 or more, and an interior
/// node's quadrants are already stored one level lower.
pub open spec fn addable(nodes: Seq<Node>, n: Node) -> bool {
    &&& shape_ok(n)
    &&& n.level >= 2
    &&& match n.base {
        NodeBase::Interior { ne_index, nw_index, se_index, sw_index, .. } => {
            &&& child_ok(nodes, ne_index, nodes.len() as int, n.level)
            &&& child_ok(nodes, nw_index, nodes.len() as int, n.level)
            &&& child_ok(nodes, se_index, nodes.len() as int, n.level)
            &&& child_ok(nodes, sw_index, nodes.len() as int, n.level)
        },
        _ => true,
    }
}

/// The same node, placed at `index`.
pub open spec fn with_index(n: Node, index: usize) -> Node {
    match n.base {
        NodeBase::LevelTwo { cells, .. } => Node {
            level: n.level,
            base: NodeBase::LevelTwo { cells, index },
        },
        NodeBase::Interior { ne_index, nw_index, se_index, sw_index, .. } => Node {
            level: n.level,
            base: NodeBase::Interior { ne_index, nw_index, se_index, sw_index, index },
        },
        _ => n,
    }
}

/// The cells of a level two node made of four level one nodes.
pub open spec fn level_two_cells(nw: u8, ne: u8, sw: u8, se: u8) -> u16 {
    let hi: u8 = (((nw & 0x33u8) << 2u8) | (ne & 0x33u8)) as u8;
    let lo: u8 = (((sw & 0x33u8) << 2u8) | (se & 0x33u8)) as u8;
    (((hi as u16) << 8u16) | (lo as u16)) as u16
}

/// The cells of a level one node made of four single cells.
pub open spec fn level_one_cells(nw: bool, ne: bool, sw: bool, se: bool) -> u8 {
    ((if nw {
        0x20u8
    } else {
        0u8
    }) | (if ne {
        0x10u8
    } else {
        0u8
    }) | (if sw {
        0x02u8
    } else {
        0u8
    }) | (if se {
        0x01u8
    } else {
        0u8
    })) as u8
}

/// The population of a level one node counts its four cell bits.
pub proof fn lemma_count8(c: u8)
    requires
        level_one_cells_ok(c),
    ensures
        count8(c, 8) == b8(c, 5) + b8(c, 4) + b8(c, 1) + b8(c, 0),
{
    assert(c & 0b1100_1100u8 == 0u8 ==> !bit8(c, 2) && !bit8(c, 3) && !bit8(c, 6) && !bit8(c, 7))
        by (bit_vector);
    assert(count8(c, 0) == 0);
    assert(count8(c, 1) == count8(c, 0) + b8(c, 0));
    assert(count8(c, 2) == count8(c, 1) + b8(c, 1));
    assert(count8(c, 3) == count8(c, 2) + b8(c, 2));
    assert(count8(c, 4) == count8(c, 3) + b8(c, 3));
    assert(count8(c, 5) == count8(c, 4) + b8(c, 4));
    assert(count8(c, 6) == count8(c, 5) + b8(c, 5));
    assert(count8(c, 7) == count8(c, 6) + b8(c, 6));
    assert(count8(c, 8) == count8(c, 7) + b8(c, 7));
}

/// The bits of the cells of a level two node made of four level one nodes.
proof fn lemma_level_two_bits(nw: u8, ne: u8, sw: u8, se: u8)
    by (bit_vector)
    ensures
        ({
            let c = level_two_cells(nw, ne, sw, se);
            &&& bit16(c, 15) == bit8(nw, 5)
            &&& bit16(c, 14) == bit8(nw, 4)
            &&& bit16(c, 11) == bit8(nw, 1)
            &&& bit16(c, 10) == bit8(nw, 0)
            &&& bit16(c, 13) == bit8(ne, 5)
            &&& bit16(c, 12) == bit8(ne, 4)
            &&& bit16(c, 9) == bit8(ne, 1)
            &&& bit16(c, 8) == bit8(ne, 0)
            &&& bit16(c, 7) == bit8(sw, 5)
            &&& bit16(c, 6) == bit8(sw, 4)
            &&& bit16(c, 3) == bit8(sw, 1)
            &&& bit16(c, 2) == bit8(sw, 0)
            &&& bit16(c, 5) == bit8(se, 5)
            &&& bit16(c, 4) == bit8(se, 4)
            &&& bit16(c, 1) == bit8(se, 1)
            &&& bit16(c, 0) == bit8(se, 0)
        }),
{
}

/// The bits of the cells of a level one node made of four single cells.
proof fn lemma_level_one_bits(nw: bool, ne: bool, sw: bool, se: bool)
    by (bit_vector)
    ensures
        ({
            let c = level_one_cells(nw, ne, sw, se);
            &&& bit8(c, 5) == nw
            &&& bit8(c, 4) == ne
            &&& bit8(c, 1) == sw
            &&& bit8(c, 0) == se
            &&& level_one_cells_ok(c)
        }),
{
}

impl Store {
    /// Creates a new empty store.
    pub fn new() -> (store: Self)
        ensures
            store.wf(),
            store.nodes().len() == 0,
    {
        Store {
            nodes: Vec::new(),
            populations: Vec::new(),
            indices: NodeTable::new(),
            level_2_steps: NodeTable::new(),
            steps: NodeTable::new(),
        }
    }

    /// The node stored at `index`.
    pub fn node(&self, index: usize) -> (node: Node)
        requires
            self.wf(),
            index < self.nodes().len(),
        ensures
            node == self.nodes()[index as int],
            self.valid(node),
            node.level >= 2,
    {
        proof {
            lemma_index_node_in(self.nodes@, index as int);
        }
        self.nodes[index]
    }

    /// The population of a stored node, of level 2 or more.
    pub fn population_of_stored(&self, node: &Node) -> (pop: u128)
        requires
            self.wf(),
            self.valid(*node),
            node.level >= 2,
        ensures
            pop == self.pop(*node),
    {
        proof {
            lemma_stored(self.nodes@, *node);
        }
        let index = match node.base {
            NodeBase::LevelTwo { index, .. } => index,
            NodeBase::Interior { index, .. } => index,
            _ => 0,
        };
        self.populations[index]
    }

    /// Creates a leaf node corresponding to the given cell.
    pub fn create_leaf(&self, cell: Cell) -> (node: Node)
        ensures
            node.level == 0,
            self.valid(node),
            forall|x: int, y: int| #[trigger] self.cell(node, x, y) == (cell == Cell::Alive),
            self.pop(node) == (if cell == Cell::Alive {
                1nat
            } else {
                0nat
            }),
    {
        Node { level: 0, base: NodeBase::Leaf { alive: cell.is_alive() } }
    }

    /// Creates a level 1 node corresponding to the given cells: the `u8`
    /// `00ab_00cd` is the square `a b / c d`, 1 for alive and 0 for dead; the
    /// other bits are ignored.
    pub fn create_level_one_from_cells(&self, cells: u8) -> (node: Node)
        ensures
            node.level == 1,
            self.valid(node),
            forall|x: int, y: int|
                in_bounds(1, x, y) ==> #[trigger] self.cell(node, x, y) == bit8(
                    cells,
                    level_one_bit_index(x, y),
                ),
            node.base == (NodeBase::LevelOne { cells: cells & LEVEL_ONE_MASK }),
            level_one_cells_ok(cells) ==> node.base == (NodeBase::LevelOne { cells }),
    {
        let masked = cells & LEVEL_ONE_MASK;
        assert(masked & 0b1100_1100u8 == 0u8) by (bit_vector)
            requires
                masked == cells & 0b0011_0011u8,
        ;
        assert(cells & 0b1100_1100u8 == 0u8 ==> masked == cells) by (bit_vector)
            requires
                masked == cells & 0b0011_0011u8,
        ;
        assert(bit8(masked, 5) == bit8(cells, 5) && bit8(masked, 4) == bit8(cells, 4) && bit8(
            masked,
            1,
        ) == bit8(cells, 1) && bit8(masked, 0) == bit8(cells, 0)) by (bit_vector)
            requires
                masked == cells & 0b0011_0011u8,
        ;
        Node { level: 1, base: NodeBase::LevelOne { cells: masked } }
    }

    /// Creates a level 2 node corresponding to the given cells: the `u16`
    /// `abcd_efgh_ijkl_mnop` is the square read row by row from the top left,
    /// 1 for alive and 0 for dead.
    pub fn create_level_two_from_cells(&mut self, cells: u16) -> (node: Node)
        requires
            old(self).wf(),
        ensures
            final(self).wf(),
            extends(old(self).nodes(), final(self).nodes()),
            node.level == 2,
            final(self).valid(node),
            forall|x: int, y: int|
                in_bounds(2, x, y) ==> #[trigger] final(self).cell(node, x, y) == bit16(
                    cells,
                    level_two_bit_index(x, y),
                ),
            final(self).pop(node) == count16(cells, 16),
    {
        let population = count_ones_u16(cells);
        let proto = Node { level: 2, base: NodeBase::LevelTwo { cells, index: 0 } };
        self.add_node(proto, population as u128)
    }

    /// Creates a node from four quadrants of the same level.
    pub fn create_interior(&mut self, template: NodeTemplate) -> (node: Node)
        requires
            old(self).wf(),
            old(self).valid(template.ne),
            old(self).valid(template.nw),
            old(self).valid(template.se),
            old(self).valid(template.sw),
            template.nw.level == template.ne.level,
            template.sw.level == template.ne.level,
            template.se.level == template.ne.level,
            template.ne.level < MAX_LEVEL,
            old(self).pop(template.ne) + old(self).pop(template.nw) + old(self).pop(template.se)
                + old(self).pop(template.sw) <= u128::MAX,
        ensures
            final(self).wf(),
            extends(old(self).nodes(), final(self).nodes()),
            final(self).valid(node),
            node.level == template.ne.level + 1,
            forall|x: int, y: int|
                in_bounds(node.level as int, x, y) ==> #[trigger] final(self).cell(node, x, y)
                    == quad_cell(
                    final(self).nodes(),
                    template.nw,
                    template.ne,
                    template.sw,
                    template.se,
                    node.level as int,
                    x,
                    y,
                ),
            final(self).pop(node) == old(self).pop(template.ne) + old(self).pop(template.nw)
                + old(self).pop(template.se) + old(self).pop(template.sw),
    {
        let ghost old_nodes = self.nodes@;
        proof {
            lemma_stored(old_nodes, template.ne);
            lemma_stored(old_nodes, template.nw);
            lemma_stored(old_nodes, template.se);
            lemma_stored(old_nodes, template.sw);
        }
        let level = template.ne.level;
        if level == 0 {
            self.create_level_one(template)
        } else if level == 1 {
            self.create_level_two(template)
        } else {
            self.create_high_interior(template)
        }
    }

    /// Creates a level one node from four leaves.
    fn create_level_one(&mut self, template: NodeTemplate) -> (node: Node)
        requires
            old(self).wf(),
            old(self).valid(template.ne),
            old(self).valid(template.nw),
            old(self).valid(template.se),
            old(self).valid(template.sw),
            template.nw.level == 0,
            template.ne.level == 0,
            template.sw.level == 0,
            template.se.level == 0,
        ensures
            *final(self) == *old(self),
            final(self).valid(node),
            node.level == 1,
            forall|x: int, y: int|
                in_bounds(node.level as int, x, y) ==> #[trigger] final(self).cell(node, x, y)
                    == quad_cell(
                    final(self).nodes(),
                    template.nw,
                    template.ne,
                    template.sw,
                    template.se,
                    node.level as int,
                    x,
                    y,
                ),
            final(self).pop(node) == old(self).pop(template.ne) + old(self).pop(template.nw)
                + old(self).pop(template.se) + old(self).pop(template.sw),
    {
        let (nw, ne, sw, se) = match (template.nw.base, template.ne.base, template.sw.base, template.se.base) {
            (
                NodeBase::Leaf { alive: nw },
                NodeBase::Leaf { alive: ne },
                NodeBase::Leaf { alive: sw },
                NodeBase::Leaf { alive: se },
            ) => (nw, ne, sw, se),
            _ => (false, false, false, false),
        };
        let cells: u8 = (if nw {
            LEVEL_ONE_NW_MASK
        } else {
            0u8
        }) | (if ne {
            LEVEL_ONE_NE_MASK
        } else {
            0u8
        }) | (if sw {
            LEVEL_ONE_SW_MASK
        } else {
            0u8
        }) | (if se {
            LEVEL_ONE_SE_MASK
        } else {
            0u8
        });
        proof {
            lemma_level_one_bits(nw, ne, sw, se);
            lemma_count8(cells);
        }
        proof {
            lemma_stored(self.nodes@, template.ne);
            lemma_stored(self.nodes@, template.nw);
            lemma_stored(self.nodes@, template.se);
            lemma_stored(self.nodes@, template.sw);
        }
        let node = Node { level: 1, base: NodeBase::LevelOne { cells } };
        proof {
            assert forall|x: int, y: int| in_bounds(node.level as int, x, y) implies #[trigger]
                self.cell(node, x, y) == quad_cell(
                    self.nodes@,
                    template.nw,
                    template.ne,
                    template.sw,
                    template.se,
                    node.level as int,
                    x,
                    y,
                ) by {
                reveal_with_fuel(two_pow, 2);
            }
        }
        node
    }

    /// Creates a level two node from four level one nodes.
    fn create_level_two(&mut self, template: NodeTemplate) -> (node: Node)
        requires
            old(self).wf(),
            old(self).valid(template.ne),
            old(self).valid(template.nw),
            old(self).valid(template.se),
            old(self).valid(template.sw),
            template.nw.level == 1,
            template.ne.level == 1,
            template.sw.level == 1,
            template.se.level == 1,
        ensures
            final(self).wf(),
            extends(old(self).nodes(), final(self).nodes()),
            final(self).valid(node),
            node.level == 2,
            forall|x: int, y: int|
                in_bounds(node.level as int, x, y) ==> #[trigger] final(self).cell(node, x, y)
                    == quad_cell(
                    final(self).nodes(),
                    template.nw,
                    template.ne,
                    template.sw,
                    template.se,
                    node.level as int,
                    x,
                    y,
                ),
            final(self).pop(node) == old(self).pop(template.ne) + old(self).pop(template.nw)
                + old(self).pop(template.se) + old(self).pop(template.sw),
    {
        proof {
            lemma_stored(self.nodes@, template.ne);
            lemma_stored(self.nodes@, template.nw);
            lemma_stored(self.nodes@, template.se);
            lemma_stored(self.nodes@, template.sw);
        }
        let (nw, ne, sw, se) = match (template.nw.base, template.ne.base, template.sw.base, template.se.base) {
            (
                NodeBase::LevelOne { cells: nw },
                NodeBase::LevelOne { cells: ne },
                NodeBase::LevelOne { cells: sw },
                NodeBase::LevelOne { cells: se },
            ) => (nw, ne, sw, se),
            _ => (0, 0, 0, 0),
        };
        let hi: u8 = ((nw & LEVEL_ONE_MASK) << 2u8) | (ne & LEVEL_ONE_MASK);
        let lo: u8 = ((sw & LEVEL_ONE_MASK) << 2u8) | (se & LEVEL_ONE_MASK);
        let cells: u16 = ((hi as u16) << 8u16) | (lo as u16);
        assert(cells == level_two_cells(nw, ne, sw, se));
        proof {
            lemma_level_two_pop(nw, ne, sw, se, cells);
        }
        let population = (count_ones_u8(nw) as u128) + (count_ones_u8(ne) as u128) + (
        count_ones_u8(sw) as u128) + (count_ones_u8(se) as u128);
        let ghost old_nodes = self.nodes@;
        let proto = Node { level: 2, base: NodeBase::LevelTwo { cells, index: 0 } };
        let node = self.add_node(proto, population);
        proof {
            assert forall|x: int, y: int| in_bounds(node.level as int, x, y) implies #[trigger]
                self.cell(node, x, y) == quad_cell(
                    self.nodes@,
                    template.nw,
                    template.ne,
                    template.sw,
                    template.se,
                    node.level as int,
                    x,
                    y,
                ) by {
                assert(self.cell(node, x, y) == cell_of(old_nodes, proto, x, y));
                lemma_level_two_quad(self.nodes@, cells, template.nw, template.ne, template.sw, template.se, x, y);
            }
        }
        node
    }

    /// Creates a node of level 3 or more from four stored nodes.
    fn create_high_interior(&mut self, template: NodeTemplate) -> (node: Node)
        requires
            old(self).wf(),
            old(self).valid(template.ne),
            old(self).valid(template.nw),
            old(self).valid(template.se),
            old(self).valid(template.sw),
            template.nw.level == template.ne.level,
            template.sw.level == template.ne.level,
            template.se.level == template.ne.level,
            2 <= template.ne.level < MAX_LEVEL,
            old(self).pop(template.ne) + old(self).pop(template.nw) + old(self).pop(template.se)
                + old(self).pop(template.sw) <= u128::MAX,
        ensures
            final(self).wf(),
            extends(old(self).nodes(), final(self).nodes()),
            final(self).valid(node),
            node.level == template.ne.level + 1,
            forall|x: int, y: int|
                in_bounds(node.level as int, x, y) ==> #[trigger] final(self).cell(node, x, y)
                    == quad_cell(
                    final(self).nodes(),
                    template.nw,
                    template.ne,
                    template.sw,
                    template.se,
                    node.level as int,
                    x,
                    y,
                ),
            final(self).pop(node) == old(self).pop(template.ne) + old(self).pop(template.nw)
                + old(self).pop(template.se) + old(self).pop(template.sw),
    {
        let ghost old_nodes = self.nodes@;
        proof {
            lemma_stored(old_nodes, template.ne);
            lemma_stored(old_nodes, template.nw);
            lemma_stored(old_nodes, template.se);
            lemma_stored(old_nodes, template.sw);
        }
        let level = template.ne.level;
        let ne_index = index_of_stored(&template.ne);
        let nw_index = index_of_stored(&template.nw);
        let se_index = index_of_stored(&template.se);
        let sw_index = index_of_stored(&template.sw);
        let population = self.populations[ne_index] + self.populations[nw_index]
            + self.populations[se_index] + self.populations[sw_index];
        let proto = Node {
            level: level + 1,
            base: NodeBase::Interior { ne_index, nw_index, se_index, sw_index, index: 0 },
        };
        proof {
            assert(old_nodes[ne_index as int] == template.ne);
            assert(old_nodes[nw_index as int] == template.nw);
            assert(old_nodes[se_index as int] == template.se);
            assert(old_nodes[sw_index as int] == template.sw);
            reveal_with_fuel(pop_of, 2);
        }
        let node = self.add_node(proto, population);
        proof {
            lemma_extends(old_nodes, self.nodes@, template.ne);
            lemma_extends(old_nodes, self.nodes@, template.nw);
            lemma_extends(old_nodes, self.nodes@, template.se);
            lemma_extends(old_nodes, self.nodes@, template.sw);
            assert forall|x: int, y: int| in_bounds(node.level as int, x, y) implies #[trigger]
                self.cell(node, x, y) == quad_cell(
                    self.nodes@,
                    template.nw,
                    template.ne,
                    template.sw,
                    template.se,
                    node.level as int,
                    x,
                    y,
                ) by {
                assert(self.cell(node, x, y) == cell_of(old_nodes, proto, x, y));
            }
        }
        node
    }

    /// Creates an empty node of the given level.
    pub fn create_empty(&mut self, level: u8) -> (node: Node)
        requires
            old(self).wf(),
            level <= MAX_LEVEL,
        ensures
            final(self).wf(),
            extends(old(self).nodes(), final(self).nodes()),
            final(self).valid(node),
            node.level == level,
            forall|x: int, y: int|
                in_bounds(level as int, x, y) ==> !#[trigger] final(self).cell(node, x, y),
            final(self).pop(node) == 0,
        decreases level,
    {
        if level == 0 {
            self.create_leaf(Cell::Dead)
        } else {
            let empty = self.create_empty(level - 1);
            let ghost mid = self.nodes@;
            let node = self.create_interior(
                NodeTemplate { ne: empty, nw: empty, se: empty, sw: empty },
            );
            proof {
                lemma_extends(mid, self.nodes@, empty);
                assert forall|x: int, y: int|
                    in_bounds(level as int, x, y) implies !#[trigger] self.cell(node, x, y) by {
                    if level >= 2 {
                        lemma_quarter(level as int);
                    }
                }
            }
            node
        }
    }

    /// Adds a node to the store, or finds the node with the same contents
    /// already there.
    fn add_node(&mut self, node: Node, population: u128) -> (stored: Node)
        requires
            old(self).wf(),
            addable(old(self).nodes(), node),
            population == pop_of(old(self).nodes(), node),
        ensures
            final(self).wf(),
            extends(old(self).nodes(), final(self).nodes()),
            final(self).valid(stored),
            stored.level == node.level,
            key_of(stored) == key_of(node),
            final(self).pop(stored) == pop_of(old(self).nodes(), node),
            forall|x: int, y: int| #[trigger]
                final(self).cell(stored, x, y) == cell_of(old(self).nodes(), node, x, y),
    {
        let ghost old_nodes = self.nodes@;
        let key = node_key(&node);
        match self.indices.get(key) {
            Some(found) => {
                proof {
                    assert(node_table_contents(self.indices).dom().contains(key));
                    lemma_stored(old_nodes, found);
                    lemma_same_key(old_nodes, found, node);
                }
                found
            },
            None => {
                let index = self.nodes.len();
                let stored = set_index(node, index);
                proof {
                    lemma_same_key(old_nodes, stored, node);
                }
                self.nodes.push(stored);
                self.populations.push(population);
                self.indices.insert(key, stored);
                proof {
                    let nodes = self.nodes@;
                    assert(extends(old_nodes, nodes));
                    assert forall|i: int| 0 <= i < nodes.len() implies #[trigger] stored_ok(
                        nodes,
                        i,
                    ) by {
                        if i < old_nodes.len() {
                            assert(stored_ok(old_nodes, i));
                        }
                    }
                    assert(nodes_ok(nodes));
                    lemma_new_node(old_nodes, nodes, node, stored);
                    assert forall|i: int| 0 <= i < nodes.len() implies #[trigger] self.populations@[i]
                        == pop_of(nodes, nodes[i]) by {
                        if i < old_nodes.len() {
                            lemma_index_node_in(old_nodes, i);
                            lemma_extends(old_nodes, nodes, old_nodes[i]);
                        }
                    }
                    let table = node_table_contents(self.indices);
                    assert forall|i: int| 0 <= i < nodes.len() implies #[trigger] table.dom().contains(
                        key_of(nodes[i]),
                    ) && table[key_of(nodes[i])] == nodes[i] by {
                        if i < old_nodes.len() {
                            assert(nodes[i] == old_nodes[i]);
                        }
                    }
                    assert forall|k: (u8, u64, u64, u64, u64)| #[trigger]
                        table.dom().contains(k) implies node_in(nodes, table[k]) && table[k].level
                        >= 2 && key_of(table[k]) == k by {
                        if k != key {
                            lemma_extends(old_nodes, nodes, table[k]);
                        }
                    }
                    let level_2_steps = node_table_contents(self.level_2_steps);
                    assert forall|k: (u8, u64, u64, u64, u64)| #[trigger]
                        level_2_steps.dom().contains(k) implies k.1 < nodes.len() && k
                        == level_two_step_key(k.1 as usize) && nodes[k.1 as int].level == 2
                        && advanced(nodes, nodes[k.1 as int], level_2_steps[k], 1) by {
                        lemma_index_node_in(old_nodes, k.1 as int);
                        lemma_extends_advanced(
                            old_nodes,
                            nodes,
                            old_nodes[k.1 as int],
                            level_2_steps[k],
                            1,
                        );
                    }
                    let steps = node_table_contents(self.steps);
                    assert forall|k: (u8, u64, u64, u64, u64)| #[trigger]
                        steps.dom().contains(k) implies k.1 < nodes.len() && k == step_key(
                            k.1 as usize,
                            k.2,
                        ) && nodes[k.1 as int].level >= 2 && advanced(
                            nodes,
                            nodes[k.1 as int],
                            steps[k],
                            k.2 as nat,
                        ) by {
                        lemma_index_node_in(old_nodes, k.1 as int);
                        lemma_extends_advanced(
                            old_nodes,
                            nodes,
                            old_nodes[k.1 as int],
                            steps[k],
                            k.2 as nat,
                        );
                    }
                }
                stored
            },
        }
    }

    /// The center of `node` `step_size` generations later, if it has been
    /// cached.
    pub fn step(&self, node: Node, step_size: u64) -> (result: Option<Node>)
        requires
            self.wf(),
            self.valid(node),
            node.level >= 2,
        ensures
            result == self.cached_step(node, step_size),
            result matches Some(r) ==> advanced(self.nodes(), node, r, step_size as nat),
    {
        proof {
            lemma_stored(self.nodes@, node);
        }
        let key = (0u8, index_of_stored(&node) as u64, step_size, 0u64, 0u64);
        let result = self.steps.get(key);
        proof {
            if result is Some {
                assert(node_table_contents(self.steps).dom().contains(key));
            }
        }
        result
    }

    /// Caches the center of `node` `step_size` generations later.
    pub fn add_step(&mut self, node: Node, step_size: u64, result: Node)
        requires
            old(self).wf(),
            old(self).valid(node),
            node.level >= 2,
            advanced(old(self).nodes(), node, result, step_size as nat),
        ensures
            final(self).wf(),
            final(self).nodes() == old(self).nodes(),
            final(self).cached_step(node, step_size) == Some(result),
            forall|m: Node, t: u64|
                index_of(m) != index_of(node) || t != step_size ==> #[trigger] final(self).cached_step(m, t)
                    == old(self).cached_step(m, t),
            forall|m: Node| #[trigger] final(self).cached_level_2_step(m) == old(self).cached_level_2_step(m),
    {
        proof {
            lemma_stored(self.nodes@, node);
        }
        let key = (0u8, index_of_stored(&node) as u64, step_size, 0u64, 0u64);
        self.steps.insert(key, result);
    }

    /// The next generation of the center of a level two node, if it has been
    /// cached.
    pub fn level_2_step(&self, node: Node) -> (result: Option<Node>)
        requires
            self.wf(),
            self.valid(node),
            node.level == 2,
        ensures
            result == self.cached_level_2_step(node),
            result matches Some(r) ==> advanced(self.nodes(), node, r, 1),
    {
        proof {
            lemma_stored(self.nodes@, node);
        }
        let key = (2u8, index_of_stored(&node) as u64, 0u64, 0u64, 0u64);
        let result = self.level_2_steps.get(key);
        proof {
            if result is Some {
                assert(node_table_contents(self.level_2_steps).dom().contains(key));
            }
        }
        result
    }

    /// Caches the next generation of the center of a level two node.
    pub fn add_level_2_step(&mut self, node: Node, result: Node)
        requires
            old(self).wf(),
            old(self).valid(node),
            node.level == 2,
            advanced(old(self).nodes(), node, result, 1),
        ensures
            final(self).wf(),
            final(self).nodes() == old(self).nodes(),
            final(self).cached_level_2_step(node) == Some(result),
            forall|m: Node|
                index_of(m) != index_of(node) ==> #[trigger] final(self).cached_level_2_step(m)
                    == old(self).cached_level_2_step(m),
            forall|m: Node, t: u64| #[trigger] final(self).cached_step(m, t) == old(self).cached_step(m, t),
    {
        proof {
            lemma_stored(self.nodes@, node);
        }
        let key = (2u8, index_of_stored(&node) as u64, 0u64, 0u64, 0u64);
        self.level_2_steps.insert(key, result);
    }
}

/// The cells of a level two node made of four level one nodes are those of
/// its quadrants.
proof fn lemma_level_two_quad(
    nodes: Seq<Node>,
    cells: u16,
    nw: Node,
    ne: Node,
    sw: Node,
    se: Node,
    x: int,
    y: int,
)
    requires
        shape_ok(nw) && shape_ok(ne) && shape_ok(sw) && shape_ok(se),
        nw.level == 1 && ne.level == 1 && sw.level == 1 && se.level == 1,
        cells == level_two_cells(
            nw.base->LevelOne_cells,
            ne.base->LevelOne_cells,
            sw.base->LevelOne_cells,
            se.base->LevelOne_cells,
        ),
        in_bounds(2, x, y),
    ensures
        bit16(cells, level_two_bit_index(x, y)) == quad_cell(nodes, nw, ne, sw, se, 2, x, y),
{
    lemma_level_two_bits(
        nw.base->LevelOne_cells,
        ne.base->LevelOne_cells,
        sw.base->LevelOne_cells,
        se.base->LevelOne_cells,
    );
    reveal_with_fuel(two_pow, 2);
    assert(quarter(2) == 1);
    if y == -2 {
        if x == -2 {
        } else if x == -1 {
        } else if x == 0 {
        } else {
        }
    } else if y == -1 {
        if x == -2 {
        } else if x == -1 {
        } else if x == 0 {
        } else {
        }
    } else if y == 0 {
        if x == -2 {
        } else if x == -1 {
        } else if x == 0 {
        } else {
        }
    } else {
        if x == -2 {
        } else if x == -1 {
        } else if x == 0 {
        } else {
        }
    }
}

/// The population of a level two node made of four level one nodes is the
/// sum of theirs.
proof fn lemma_level_two_pop(nw: u8, ne: u8, sw: u8, se: u8, c: u16)
    requires
        level_one_cells_ok(nw),
        level_one_cells_ok(ne),
        level_one_cells_ok(sw),
        level_one_cells_ok(se),
        c == level_two_cells(nw, ne, sw, se),
    ensures
        count16(c, 16) == count8(nw, 8) + count8(ne, 8) + count8(sw, 8) + count8(se, 8),
{
    lemma_level_two_bits(nw, ne, sw, se);
    lemma_count8(nw);
    lemma_count8(ne);
    lemma_count8(sw);
    lemma_count8(se);
    lemma_count16(c);
    assert(b16(c, 15) == b8(nw, 5) && b16(c, 14) == b8(nw, 4) && b16(c, 11) == b8(nw, 1) && b16(c, 10) == b8(nw, 0));
    assert(b16(c, 13) == b8(ne, 5) && b16(c, 12) == b8(ne, 4) && b16(c, 9) == b8(ne, 1) && b16(c, 8) == b8(ne, 0));
    assert(b16(c, 7) == b8(sw, 5) && b16(c, 6) == b8(sw, 4) && b16(c, 3) == b8(sw, 1) && b16(c, 2) == b8(sw, 0));
    assert(b16(c, 5) == b8(se, 5) && b16(c, 4) == b8(se, 4) && b16(c, 1) == b8(se, 1) && b16(c, 0) == b8(se, 0));
}

/// 1 for a set bit, 0 for a clear one.
pub open spec fn b8(c: u8, i: u8) -> nat {
    if bit8(c, i) {
        1
    } else {
        0
    }
}

/// 1 for a set bit, 0 for a clear one.
pub open spec fn b16(c: u16, i: u16) -> nat {
    if bit16(c, i) {
        1
    } else {
        0
    }
}

/// The population of a level two node counts its sixteen bits.
pub proof fn lemma_count16(c: u16)
    ensures
        count16(c, 16) == b16(c, 0) + b16(c, 1) + b16(c, 2) + b16(c, 3) + b16(c, 4) + b16(c, 5)
            + b16(c, 6) + b16(c, 7) + b16(c, 8) + b16(c, 9) + b16(c, 10) + b16(c, 11) + b16(c, 12)
            + b16(c, 13) + b16(c, 14) + b16(c, 15),
{
    assert(count16(c, 0) == 0);
    assert(count16(c, 1) == count16(c, 0) + b16(c, 0));
    assert(count16(c, 2) == count16(c, 1) + b16(c, 1));
    assert(count16(c, 3) == count16(c, 2) + b16(c, 2));
    assert(count16(c, 4) == count16(c, 3) + b16(c, 3));
    assert(count16(c, 5) == count16(c, 4) + b16(c, 4));
    assert(count16(c, 6) == count16(c, 5) + b16(c, 5));
    assert(count16(c, 7) == count16(c, 6) + b16(c, 6));
    assert(count16(c, 8) == count16(c, 7) + b16(c, 7));
    assert(count16(c, 9) == count16(c, 8) + b16(c, 8));
    assert(count16(c, 10) == count16(c, 9) + b16(c, 9));
    assert(count16(c, 11) == count16(c, 10) + b16(c, 10));
    assert(count16(c, 12) == count16(c, 11) + b16(c, 11));
    assert(count16(c, 13) == count16(c, 12) + b16(c, 12));
    assert(count16(c, 14) == count16(c, 13) + b16(c, 13));
    assert(count16(c, 15) == count16(c, 14) + b16(c, 14));
    assert(count16(c, 16) == count16(c, 15) + b16(c, 15));
}

/// The population of a node of a store fits in a `u128`.
pub proof fn lemma_pop_fits(store: &Store, n: Node)
    requires
        store.wf(),
        store.valid(n),
    ensures
        store.pop(n) <= u128::MAX,
{
    lemma_stored(store.nodes(), n);
    if n.level >= 2 {
        assert(store.populations@[index_of(n) as int] == pop_of(store.nodes(), n));
    } else {
        crate::node::lemma_pop_bound(store.nodes(), n);
        reveal_with_fuel(two_pow, 3);
    }
}

/// A node added at the end of a store is well formed there, with the cells and
/// population it was made with.
proof fn lemma_new_node(old: Seq<Node>, new: Seq<Node>, node: Node, stored: Node)
    requires
        nodes_ok(old),
        nodes_ok(new),
        extends(old, new),
        new.len() == old.len() + 1,
        new[old.len() as int] == stored,
        old.len() <= usize::MAX,
        stored == with_index(node, old.len() as usize),
        addable(old, node),
    ensures
        node_in(new, stored),
        pop_of(new, stored) == pop_of(old, node),
        forall|x: int, y: int| #[trigger] cell_of(new, stored, x, y) == cell_of(old, node, x, y),
{
    assert(index_of(stored) == old.len());
    match node.base {
        NodeBase::Interior { ne_index, nw_index, se_index, sw_index, .. } => {
            lemma_index_node_in(old, ne_index as int);
            lemma_index_node_in(old, nw_index as int);
            lemma_index_node_in(old, se_index as int);
            lemma_index_node_in(old, sw_index as int);
            lemma_extends(old, new, old[ne_index as int]);
            lemma_extends(old, new, old[nw_index as int]);
            lemma_extends(old, new, old[se_index as int]);
            lemma_extends(old, new, old[sw_index as int]);
            assert(new[ne_index as int] == old[ne_index as int]);
            assert(new[nw_index as int] == old[nw_index as int]);
            assert(new[se_index as int] == old[se_index as int]);
            assert(new[sw_index as int] == old[sw_index as int]);
            assert forall|x: int, y: int| #[trigger]
                cell_of(new, stored, x, y) == cell_of(old, node, x, y) by {
                let q = two_pow((node.level - 2) as nat);
                assert(cell_of(new, old[nw_index as int], x + q, y + q) == cell_of(old, old[nw_index as int], x + q, y + q));
                assert(cell_of(new, old[ne_index as int], x - q, y + q) == cell_of(old, old[ne_index as int], x - q, y + q));
                assert(cell_of(new, old[sw_index as int], x + q, y - q) == cell_of(old, old[sw_index as int], x + q, y - q));
                assert(cell_of(new, old[se_index as int], x - q, y - q) == cell_of(old, old[se_index as int], x - q, y - q));
            }
        },
        _ => {},
    }
}

/// The key under which a node is found in the index table.
fn node_key(node: &Node) -> (key: (u8, u64, u64, u64, u64))
    ensures
        key == key_of(*node),
{
    match node.base {
        NodeBase::LevelTwo { cells, .. } => (2u8, cells as u64, 0u64, 0u64, 0u64),
        NodeBase::Interior { ne_index, nw_index, se_index, sw_index, .. } => (
            node.level,
            ne_index as u64,
            nw_index as u64,
            se_index as u64,
            sw_index as u64,
        ),
        _ => (node.level, 0u64, 0u64, 0u64, 0u64),
    }
}

/// The same node placed at `index`.
fn set_index(node: Node, index: usize) -> (placed: Node)
    ensures
        placed == with_index(node, index),
{
    match node.base {
        NodeBase::LevelTwo { cells, .. } => Node {
            level: node.level,
            base: NodeBase::LevelTwo { cells, index },
        },
        NodeBase::Interior { ne_index, nw_index, se_index, sw_index, .. } => Node {
            level: node.level,
            base: NodeBase::Interior { ne_index, nw_index, se_index, sw_index, index },
        },
        _ => node,
    }
}

/// The place of a stored node.
pub fn index_of_stored(node: &Node) -> (index: usize)
    ensures
        index == index_of(*node),
{
    match node.base {
        NodeBase::LevelTwo { index, .. } => index,
        NodeBase::Interior { index, .. } => index,
        _ => 0,
    }
}

/// The number of alive cells of a level one node.
pub fn count_ones_u8(cells: u8) -> (count: u32)
    ensures
        count == count8(cells, 8),
        count <= 8,
{
    let mut count: u32 = 0;
    let mut i: u8 = 0;
    while i < 8
        invariant
            i <= 8,
            count == count8(cells, i as nat),
            count <= i,
        decreases 8 - i,
    {
        if (cells >> i) & 1u8 == 1u8 {
            count = count + 1;
        }
        i = i + 1;
    }
    count
}

/// The number of alive cells of a level two node.
pub fn count_ones_u16(cells: u16) -> (count: u32)
    ensures
        count == count16(cells, 16),
        count <= 16,
{
    let mut count: u32 = 0;
    let mut i: u16 = 0;
    while i < 16
        invariant
            i <= 16,
            count == count16(cells, i as nat),
            count <= i,
        decreases 16 - i,
    {
        if (cells >> i) & 1u16 == 1u16 {
            count = count + 1;
        }
        i = i + 1;
    }
    count
}

} // verus!
