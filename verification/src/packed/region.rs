//! The quadrants and other regions of a node.

use vstd::prelude::*;

use crate::node::{in_bounds, lemma_quarter, lemma_two_pow_monotonic, lemma_two_pow_u128, quarter, two_pow};
use crate::packed::{
    grid_cell, lemma_interior, lemma_outside_dead, lemma_pop_bound, lemma_row_bits, quad_cell, Level, Node,
    NodeId, NodeTemplate, Store, MAX_LEVEL,
};

verus! {

/// The cell `(x, y)` of the leaf at the center of four leaves.
pub open spec fn center_cell(nw: Seq<u16>, ne: Seq<u16>, sw: Seq<u16>, se: Seq<u16>, x: int, y: int) -> bool {
    &&& -8 <= x <= 7
    &&& -8 <= y <= 7
    &&& if x < 0 && y < 0 {
        grid_cell(nw, x + 8, y + 8)
    } else if y < 0 {
        grid_cell(ne, x - 8, y + 8)
    } else if x < 0 {
        grid_cell(sw, x + 8, y - 8)
    } else {
        grid_cell(se, x - 8, y - 8)
    }
}

/// The rows of the leaf at the center of four leaves: the southeast quarter
/// of `nw_grid`, the southwest quarter of `ne_grid` and so on.
fn center(nw_grid: [u16; 16], ne_grid: [u16; 16], sw_grid: [u16; 16], se_grid: [u16; 16]) -> (grid: [u16; 16])
    ensures
        forall|x: int, y: int| #[trigger] grid_cell(grid@, x, y) == center_cell(nw_grid@, ne_grid@, sw_grid@, se_grid@, x, y),
{
    let mut grid: [u16; 16] = [0; 16];
    let mut i: usize = 0;
    while i < 16
        invariant
            i <= 16,
            forall|r: int|
                0 <= r < i ==> #[trigger] grid@[r] == (if r < 8 {
                    ((nw_grid@[r + 8] << 8u16) | (ne_grid@[r + 8] >> 8u16)) as u16
                } else {
                    ((sw_grid@[r - 8] << 8u16) | (se_grid@[r - 8] >> 8u16)) as u16
                }),
        decreases 16 - i,
    {
        let row = if i < 8 {
            (nw_grid[i + 8] << 8u16) | (ne_grid[i + 8] >> 8u16)
        } else {
            (sw_grid[i - 8] << 8u16) | (se_grid[i - 8] >> 8u16)
        };
        grid[i] = row;
        i = i + 1;
    }
    proof {
        assert forall|x: int, y: int| #[trigger] grid_cell(grid@, x, y) == center_cell(
            nw_grid@,
            ne_grid@,
            sw_grid@,
            se_grid@,
            x,
            y,
        ) by {
            if -8 <= x <= 7 && -8 <= y <= 7 {
                let k = (7 - x) as u16;
                if y < 0 {
                    lemma_row_bits(nw_grid@[y + 16], ne_grid@[y + 16], k);
                } else {
                    lemma_row_bits(sw_grid@[y], se_grid@[y], k);
                }
            }
        }
    }
    grid
}

/// The populations of four nodes of level 62 or less add up to at most
/// `u128::MAX`.
proof fn lemma_four_fit(store: &Store, a: NodeId, b: NodeId, c: NodeId, d: NodeId)
    requires
        store.wf(),
        store.valid(a),
        store.valid(b),
        store.valid(c),
        store.valid(d),
        store.level(a) <= 62,
        store.level(b) <= 62,
        store.level(c) <= 62,
        store.level(d) <= 62,
    ensures
        store.pop(a) + store.pop(b) + store.pop(c) + store.pop(d) <= u128::MAX,
{
    store.lemma_wf();
    let nodes = store.nodes();
    lemma_pop_bound(nodes, a.at());
    lemma_pop_bound(nodes, b.at());
    lemma_pop_bound(nodes, c.at());
    lemma_pop_bound(nodes, d.at());
    lemma_two_pow_monotonic((2 * store.level(a)) as nat, 124);
    lemma_two_pow_monotonic((2 * store.level(b)) as nat, 124);
    lemma_two_pow_monotonic((2 * store.level(c)) as nat, 124);
    lemma_two_pow_monotonic((2 * store.level(d)) as nat, 124);
    lemma_two_pow_u128(126);
    assert(two_pow(126) == 4 * two_pow(124)) by {
        assert(two_pow(126) == 2 * two_pow(125));
        assert(two_pow(125) == 2 * two_pow(124));
    }
}

/// The rows of a leaf.
pub fn unwrap_leaf(node: Node) -> (grid: [u16; 16])
    requires
        node is Leaf,
    ensures
        node == (Node::Leaf { grid }),
{
    match node {
        Node::Leaf { grid } => grid,
        Node::Interior { .. } => [0; 16],
    }
}

/// The quadrants of a node.
impl NodeId {
    /// The northwest quadrant of a node of level 5 or more.
    pub fn nw(self, store: &Store) -> (child: NodeId)
        requires
            store.wf(),
            store.valid(self),
            store.level(self) >= 5,
        ensures
            (match store.nodes()[self.at()] {
                Node::Interior { nw, .. } => child == nw,
                _ => false,
            }),
            store.valid(child),
            store.level(child) == store.level(self) - 1,
            forall|x: int, y: int|
                in_bounds(store.level(child), x, y) ==> #[trigger] store.cell(child, x, y) == store.cell(
                    self,
                    x - quarter(store.level(self)),
                    y - quarter(store.level(self)),
                ),
    {
        proof {
            store.lemma_wf();
            lemma_interior(store.nodes(), self.at());
            lemma_quarter(store.level(self));
        }
        match store.node(self) {
            Node::Interior { nw, .. } => nw,
            Node::Leaf { .. } => self,
        }
    }

    /// The northeast quadrant of a node of level 5 or more.
    pub fn ne(self, store: &Store) -> (child: NodeId)
        requires
            store.wf(),
            store.valid(self),
            store.level(self) >= 5,
        ensures
            (match store.nodes()[self.at()] {
                Node::Interior { ne, .. } => child == ne,
                _ => false,
            }),
            store.valid(child),
            store.level(child) == store.level(self) - 1,
            forall|x: int, y: int|
                in_bounds(store.level(child), x, y) ==> #[trigger] store.cell(child, x, y) == store.cell(
                    self,
                    x + quarter(store.level(self)),
                    y - quarter(store.level(self)),
                ),
    {
        proof {
            store.lemma_wf();
            lemma_interior(store.nodes(), self.at());
            lemma_quarter(store.level(self));
        }
        match store.node(self) {
            Node::Interior { ne, .. } => ne,
            Node::Leaf { .. } => self,
        }
    }

    /// The southwest quadrant of a node of level 5 or more.
    pub fn sw(self, store: &Store) -> (child: NodeId)
        requires
            store.wf(),
            store.valid(self),
            store.level(self) >= 5,
        ensures
            (match store.nodes()[self.at()] {
                Node::Interior { sw, .. } => child == sw,
                _ => false,
            }),
            store.valid(child),
            store.level(child) == store.level(self) - 1,
            forall|x: int, y: int|
                in_bounds(store.level(child), x, y) ==> #[trigger] store.cell(child, x, y) == store.cell(
                    self,
                    x - quarter(store.level(self)),
                    y + quarter(store.level(self)),
                ),
    {
        proof {
            store.lemma_wf();
            lemma_interior(store.nodes(), self.at());
            lemma_quarter(store.level(self));
        }
        match store.node(self) {
            Node::Interior { sw, .. } => sw,
            Node::Leaf { .. } => self,
        }
    }

    /// The southeast quadrant of a node of level 5 or more.
    pub fn se(self, store: &Store) -> (child: NodeId)
        requires
            store.wf(),
            store.valid(self),
            store.level(self) >= 5,
        ensures
            (match store.nodes()[self.at()] {
                Node::Interior { se, .. } => child == se,
                _ => false,
            }),
            store.valid(child),
            store.level(child) == store.level(self) - 1,
            forall|x: int, y: int|
                in_bounds(store.level(child), x, y) ==> #[trigger] store.cell(child, x, y) == store.cell(
                    self,
                    x + quarter(store.level(self)),
                    y + quarter(store.level(self)),
                ),
    {
        proof {
            store.lemma_wf();
            lemma_interior(store.nodes(), self.at());
            lemma_quarter(store.level(self));
        }
        match store.node(self) {
            Node::Interior { se, .. } => se,
            Node::Leaf { .. } => self,
        }
    }

    /// The node one level up with this node at its center and dead cells
    /// around it, for a node of level 5 to 63.
    pub fn expand(self, store: &mut Store) -> (id: NodeId)
        requires
            old(store).wf(),
            old(store).valid(self),
            5 <= old(store).level(self) < MAX_LEVEL,
        ensures
            final(store).wf(),
            final(store).grown_from(old(store)),
            final(store).valid(id),
            final(store).level(id) == old(store).level(self) + 1,
            final(store).pop(id) == old(store).pop(self),
            forall|x: int, y: int| #[trigger] final(store).cell(id, x, y) == old(store).cell(self, x, y),
    {
        let ghost s0 = *store;
        let ghost l = s0.level(self);
        let ghost q = quarter(l);
        proof {
            store.lemma_wf();
            lemma_interior(s0.nodes(), self.at());
            lemma_quarter(l);
            lemma_quarter(l + 1);
            lemma_outside_dead(s0.nodes(), self.at());
        }
        let (nw, ne, sw, se, level) = match store.node(self) {
            Node::Interior { nw, ne, sw, se, level, .. } => (nw, ne, sw, se, level),
            Node::Leaf { .. } => (self, self, self, self, Level(4)),
        };
        proof {
            lemma_outside_dead(s0.nodes(), nw.at());
            lemma_outside_dead(s0.nodes(), ne.at());
            lemma_outside_dead(s0.nodes(), sw.at());
            lemma_outside_dead(s0.nodes(), se.at());
        }
        let empty = store.create_empty(Level(level.0 - 1));
        let ghost s1 = *store;
        proof {
            s0.lemma_keeps(&s1, nw);
            s0.lemma_keeps(&s1, ne);
            s0.lemma_keeps(&s1, sw);
            s0.lemma_keeps(&s1, se);
        }
        let nw = store.create_interior(NodeTemplate { nw: empty, ne: empty, sw: empty, se: nw });
        let ghost s2 = *store;
        proof {
            s1.lemma_wf();
            s1.lemma_keeps(&s2, empty);
            s1.lemma_keeps(&s2, ne);
            s1.lemma_keeps(&s2, sw);
            s1.lemma_keeps(&s2, se);
        }
        let ne = store.create_interior(NodeTemplate { nw: empty, ne: empty, sw: ne, se: empty });
        let ghost s3 = *store;
        proof {
            s2.lemma_wf();
            s2.lemma_keeps(&s3, empty);
            s2.lemma_keeps(&s3, nw);
            s2.lemma_keeps(&s3, sw);
            s2.lemma_keeps(&s3, se);
        }
        let sw = store.create_interior(NodeTemplate { nw: empty, ne: sw, sw: empty, se: empty });
        let ghost s4 = *store;
        proof {
            s3.lemma_wf();
            s3.lemma_keeps(&s4, empty);
            s3.lemma_keeps(&s4, nw);
            s3.lemma_keeps(&s4, ne);
            s3.lemma_keeps(&s4, se);
        }
        let se = store.create_interior(NodeTemplate { nw: se, ne: empty, sw: empty, se: empty });
        let ghost s5 = *store;
        proof {
            s4.lemma_wf();
            s4.lemma_keeps(&s5, nw);
            s4.lemma_keeps(&s5, ne);
            s4.lemma_keeps(&s5, sw);
        }
        let id = store.create_interior(NodeTemplate { nw, ne, sw, se });
        proof {
            s2.lemma_grown_trans(&s1, &s0);
            s3.lemma_grown_trans(&s2, &s0);
            s4.lemma_grown_trans(&s3, &s0);
            s5.lemma_grown_trans(&s4, &s0);
            store.lemma_grown_trans(&s5, &s0);
            let (onw, one, osw, ose) = match s0.nodes()[self.at()] {
                Node::Interior { nw, ne, sw, se, .. } => (nw, ne, sw, se),
                Node::Leaf { .. } => (self, self, self, self),
            };
            assert forall|x: int, y: int| #[trigger] store.cell(id, x, y) == s0.cell(self, x, y) by {
                let qq = 2 * q;
                if x < 0 && y < 0 {
                    assert(s5.cell(nw, x + qq, y + qq) == s2.cell(nw, x + qq, y + qq));
                    if x + qq >= 0 && y + qq >= 0 {
                        assert(s2.cell(nw, x + qq, y + qq) == s1.cell(onw, x + q, y + q));
                    } else if y + qq < 0 && x + qq < 0 {
                        assert(!s1.cell(empty, x + qq + q, y + qq + q));
                        assert(!in_bounds(l - 1, x + q, y + q));
                    } else if y + qq < 0 {
                        assert(!s1.cell(empty, x + qq - q, y + qq + q));
                        assert(!in_bounds(l - 1, x + q, y + q));
                    } else {
                        assert(!s1.cell(empty, x + qq + q, y + qq - q));
                        assert(!in_bounds(l - 1, x + q, y + q));
                    }
                } else if y < 0 {
                    assert(s5.cell(ne, x - qq, y + qq) == s3.cell(ne, x - qq, y + qq));
                    if x - qq < 0 && y + qq >= 0 {
                        assert(s3.cell(ne, x - qq, y + qq) == s2.cell(one, x - q, y + q));
                    } else if x - qq < 0 {
                        assert(!s2.cell(empty, x - qq + q, y + qq + q));
                        assert(!in_bounds(l - 1, x - q, y + q));
                    } else if y + qq < 0 {
                        assert(!s2.cell(empty, x - qq - q, y + qq + q));
                        assert(!in_bounds(l - 1, x - q, y + q));
                    } else {
                        assert(!s2.cell(empty, x - qq - q, y + qq - q));
                        assert(!in_bounds(l - 1, x - q, y + q));
                    }
                } else if x < 0 {
                    assert(s5.cell(sw, x + qq, y - qq) == s4.cell(sw, x + qq, y - qq));
                    if x + qq >= 0 && y - qq < 0 {
                        assert(s4.cell(sw, x + qq, y - qq) == s3.cell(osw, x + q, y - q));
                    } else if x + qq < 0 && y - qq < 0 {
                        assert(!s3.cell(empty, x + qq + q, y - qq + q));
                        assert(!in_bounds(l - 1, x + q, y - q));
                    } else if x + qq < 0 {
                        assert(!s3.cell(empty, x + qq + q, y - qq - q));
                        assert(!in_bounds(l - 1, x + q, y - q));
                    } else {
                        assert(!s3.cell(empty, x + qq - q, y - qq - q));
                        assert(!in_bounds(l - 1, x + q, y - q));
                    }
                } else {
                    assert(store.cell(id, x, y) == s5.cell(se, x - qq, y - qq));
                    if x - qq < 0 && y - qq < 0 {
                        assert(s5.cell(se, x - qq, y - qq) == s4.cell(ose, x - qq + q, y - qq + q));
                    } else if x - qq < 0 {
                        assert(!s4.cell(empty, x - qq + q, y - qq - q));
                        assert(!in_bounds(l - 1, x - q, y - q));
                    } else if y - qq < 0 {
                        assert(!s4.cell(empty, x - qq - q, y - qq + q));
                        assert(!in_bounds(l - 1, x - q, y - q));
                    } else {
                        assert(!s4.cell(empty, x - qq - q, y - qq - q));
                        assert(!in_bounds(l - 1, x - q, y - q));
                    }
                }
            }
        }
        id
    }

    /// The node one level down at the center of a node of level 5 or more.
    pub fn center_subnode(self, store: &mut Store) -> (id: NodeId)
        requires
            old(store).wf(),
            old(store).valid(self),
            old(store).level(self) >= 5,
        ensures
            final(store).wf(),
            final(store).grown_from(old(store)),
            final(store).valid(id),
            final(store).level(id) == old(store).level(self) - 1,
            forall|x: int, y: int| #[trigger]
                final(store).cell(id, x, y) == (in_bounds(old(store).level(self) - 1, x, y) && old(store).cell(
                    self,
                    x,
                    y,
                )),
    {
        let ghost s0 = *store;
        let ghost l = s0.level(self);
        proof {
            store.lemma_wf();
            lemma_interior(s0.nodes(), self.at());
            lemma_quarter(l);
            lemma_quarter(l - 1);
        }
        match store.node(self) {
            Node::Leaf { .. } => {
                proof {
                    assert(false);
                }
                self
            },
            Node::Interior { nw, ne, sw, se, level, .. } => {
                if level.0 == 5 {
                    proof {
                        assert(crate::packed::stored_ok(store.nodes(), nw.at()));
                    }
                    let nw_grid = unwrap_leaf(store.node(nw));
                    proof {
                        assert(crate::packed::stored_ok(store.nodes(), ne.at()));
                    }
                    let ne_grid = unwrap_leaf(store.node(ne));
                    proof {
                        assert(crate::packed::stored_ok(store.nodes(), sw.at()));
                    }
                    let sw_grid = unwrap_leaf(store.node(sw));
                    proof {
                        assert(crate::packed::stored_ok(store.nodes(), se.at()));
                    }
                    let se_grid = unwrap_leaf(store.node(se));
                    let grid = center(nw_grid, ne_grid, sw_grid, se_grid);
                    let id = store.create_leaf(grid);
                    proof {
                        reveal_with_fuel(two_pow, 4);
                        assert forall|x: int, y: int| #[trigger]
                            store.cell(id, x, y) == (in_bounds(4, x, y) && s0.cell(self, x, y)) by {
                            assert(store.cell(id, x, y) == center_cell(nw_grid@, ne_grid@, sw_grid@, se_grid@, x, y));
                        }
                    }
                    id
                } else {
                    let template = NodeTemplate {
                        nw: nw.se(store),
                        ne: ne.sw(store),
                        sw: sw.ne(store),
                        se: se.nw(store),
                    };
                    proof {
                        lemma_four_fit(store, template.nw, template.ne, template.sw, template.se);
                    }
                    let id = store.create_interior(template);
                    proof {
                        lemma_outside_dead(store.nodes(), id.at());
                        let q = quarter(l - 1);
                        assert forall|x: int, y: int| #[trigger]
                            store.cell(id, x, y) == (in_bounds(l - 1, x, y) && s0.cell(self, x, y)) by {
                            if in_bounds(l - 1, x, y) {
                                if x < 0 && y < 0 {
                                    assert(s0.cell(template.nw, x + q, y + q) == s0.cell(nw, x + 2 * q, y + 2 * q));
                                } else if y < 0 {
                                    assert(s0.cell(template.ne, x - q, y + q) == s0.cell(ne, x - 2 * q, y + 2 * q));
                                } else if x < 0 {
                                    assert(s0.cell(template.sw, x + q, y - q) == s0.cell(sw, x + 2 * q, y - 2 * q));
                                } else {
                                    assert(s0.cell(template.se, x - q, y - q) == s0.cell(se, x - 2 * q, y - 2 * q));
                                }
                            }
                        }
                    }
                    id
                }
            },
        }
    }

    /// The node two levels down centered on the northern edge of the
    /// northern quadrants of a node of level 6 or more.
    pub fn north_subsubnode(self, store: &mut Store) -> (id: NodeId)
        requires
            old(store).wf(),
            old(store).valid(self),
            old(store).level(self) >= 6,
        ensures
            final(store).wf(),
            final(store).grown_from(old(store)),
            final(store).valid(id),
            final(store).level(id) == old(store).level(self) - 2,
            forall|x: int, y: int| #[trigger]
                final(store).cell(id, x, y) == (in_bounds(old(store).level(self) - 2, x, y) && old(store).cell(
                    self,
                    x,
                    y - quarter(old(store).level(self)),
                )),
    {
        let ghost s0 = *store;
        let ghost l = s0.level(self);
        proof {
            store.lemma_wf();
            lemma_pop_bound(s0.nodes(), self.at());
            lemma_quarter(l);
            lemma_quarter(l - 1);
            lemma_quarter(l - 2);
        }
        let w = self.nw(store);
        let e = self.ne(store);
        let id = centered_horiz(store, w, e);
        proof {
            let q = quarter(l);
            assert forall|x: int, y: int| #[trigger]
                store.cell(id, x, y) == (in_bounds(l - 2, x, y) && s0.cell(self, x, y - q)) by {
                if in_bounds(l - 2, x, y) {
                    if x < 0 {
                        assert(s0.cell(w, x + q, y) == s0.cell(self, x, y - q));
                    } else {
                        assert(s0.cell(e, x - q, y) == s0.cell(self, x, y - q));
                    }
                }
            }
        }
        id
    }

    /// The node two levels down centered on the southern edge of the
    /// southern quadrants of a node of level 6 or more.
    pub fn south_subsubnode(self, store: &mut Store) -> (id: NodeId)
        requires
            old(store).wf(),
            old(store).valid(self),
            old(store).level(self) >= 6,
        ensures
            final(store).wf(),
            final(store).grown_from(old(store)),
            final(store).valid(id),
            final(store).level(id) == old(store).level(self) - 2,
            forall|x: int, y: int| #[trigger]
                final(store).cell(id, x, y) == (in_bounds(old(store).level(self) - 2, x, y) && old(store).cell(
                    self,
                    x,
                    y + quarter(old(store).level(self)),
                )),
    {
        let ghost s0 = *store;
        let ghost l = s0.level(self);
        proof {
            store.lemma_wf();
            lemma_pop_bound(s0.nodes(), self.at());
            lemma_quarter(l);
            lemma_quarter(l - 1);
            lemma_quarter(l - 2);
        }
        let w = self.sw(store);
        let e = self.se(store);
        let id = centered_horiz(store, w, e);
        proof {
            let q = quarter(l);
            assert forall|x: int, y: int| #[trigger]
                store.cell(id, x, y) == (in_bounds(l - 2, x, y) && s0.cell(self, x, y + q)) by {
                if in_bounds(l - 2, x, y) {
                    if x < 0 {
                        assert(s0.cell(w, x + q, y) == s0.cell(self, x, y + q));
                    } else {
                        assert(s0.cell(e, x - q, y) == s0.cell(self, x, y + q));
                    }
                }
            }
        }
        id
    }

    /// The node two levels down centered on the western edge of the
    /// western quadrants of a node of level 6 or more.
    pub fn west_subsubnode(self, store: &mut Store) -> (id: NodeId)
        requires
            old(store).wf(),
            old(store).valid(self),
            old(store).level(self) >= 6,
        ensures
            final(store).wf(),
            final(store).grown_from(old(store)),
            final(store).valid(id),
            final(store).level(id) == old(store).level(self) - 2,
            forall|x: int, y: int| #[trigger]
                final(store).cell(id, x, y) == (in_bounds(old(store).level(self) - 2, x, y) && old(store).cell(
                    self,
                    x - quarter(old(store).level(self)),
                    y,
                )),
    {
        let ghost s0 = *store;
        let ghost l = s0.level(self);
        proof {
            store.lemma_wf();
            lemma_pop_bound(s0.nodes(), self.at());
            lemma_quarter(l);
            lemma_quarter(l - 1);
            lemma_quarter(l - 2);
        }
        let n = self.nw(store);
        let s = self.sw(store);
        let id = centered_vert(store, n, s);
        proof {
            let q = quarter(l);
            assert forall|x: int, y: int| #[trigger]
                store.cell(id, x, y) == (in_bounds(l - 2, x, y) && s0.cell(self, x - q, y)) by {
                if in_bounds(l - 2, x, y) {
                    if y < 0 {
                        assert(s0.cell(n, x, y + q) == s0.cell(self, x - q, y));
                    } else {
                        assert(s0.cell(s, x, y - q) == s0.cell(self, x - q, y));
                    }
                }
            }
        }
        id
    }

    /// The node two levels down centered on the eastern edge of the
    /// eastern quadrants of a node of level 6 or more.
    pub fn east_subsubnode(self, store: &mut Store) -> (id: NodeId)
        requires
            old(store).wf(),
            old(store).valid(self),
            old(store).level(self) >= 6,
        ensures
            final(store).wf(),
            final(store).grown_from(old(store)),
            final(store).valid(id),
            final(store).level(id) == old(store).level(self) - 2,
            forall|x: int, y: int| #[trigger]
                final(store).cell(id, x, y) == (in_bounds(old(store).level(self) - 2, x, y) && old(store).cell(
                    self,
                    x + quarter(old(store).level(self)),
                    y,
                )),
    {
        let ghost s0 = *store;
        let ghost l = s0.level(self);
        proof {
            store.lemma_wf();
            lemma_pop_bound(s0.nodes(), self.at());
            lemma_quarter(l);
            lemma_quarter(l - 1);
            lemma_quarter(l - 2);
        }
        let n = self.ne(store);
        let s = self.se(store);
        let id = centered_vert(store, n, s);
        proof {
            let q = quarter(l);
            assert forall|x: int, y: int| #[trigger]
                store.cell(id, x, y) == (in_bounds(l - 2, x, y) && s0.cell(self, x + q, y)) by {
                if in_bounds(l - 2, x, y) {
                    if y < 0 {
                        assert(s0.cell(n, x, y + q) == s0.cell(self, x + q, y));
                    } else {
                        assert(s0.cell(s, x, y - q) == s0.cell(self, x + q, y));
                    }
                }
            }
        }
        id
    }
}


/// The node one level down centered on the edge between two nodes of one
/// level, 5 or more, side by side: `w` to the west, `e` to the east.
fn centered_horiz(store: &mut Store, w: NodeId, e: NodeId) -> (id: NodeId)
    requires
        old(store).wf(),
        old(store).valid(w),
        old(store).valid(e),
        old(store).level(w) >= 5,
        old(store).level(e) == old(store).level(w),
    ensures
        final(store).wf(),
        final(store).grown_from(old(store)),
        final(store).valid(id),
        final(store).level(id) == old(store).level(w) - 1,
        forall|x: int, y: int| #[trigger]
            final(store).cell(id, x, y) == (in_bounds(old(store).level(w) - 1, x, y) && if x < 0 {
                old(store).cell(w, x + 2 * quarter(old(store).level(w)), y)
            } else {
                old(store).cell(e, x - 2 * quarter(old(store).level(w)), y)
            }),
{
    let ghost s0 = *store;
    let ghost m = s0.level(w);
    proof {
        store.lemma_wf();
        lemma_interior(s0.nodes(), w.at());
        lemma_interior(s0.nodes(), e.at());
        lemma_quarter(m);
        lemma_quarter(m - 1);
    }
    match (store.node(w), store.node(e)) {
        (Node::Interior { level, ne: w_ne, se: w_se, .. }, Node::Interior { nw: e_nw, sw: e_sw, .. }) => {
            if level.0 == 5 {
                proof {
                    assert(crate::packed::stored_ok(store.nodes(), w_ne.at()));
                }
                let nw_grid = unwrap_leaf(store.node(w_ne));
                proof {
                    assert(crate::packed::stored_ok(store.nodes(), e_nw.at()));
                }
                let ne_grid = unwrap_leaf(store.node(e_nw));
                proof {
                    assert(crate::packed::stored_ok(store.nodes(), w_se.at()));
                }
                let sw_grid = unwrap_leaf(store.node(w_se));
                proof {
                    assert(crate::packed::stored_ok(store.nodes(), e_sw.at()));
                }
                let se_grid = unwrap_leaf(store.node(e_sw));
                let grid = center(nw_grid, ne_grid, sw_grid, se_grid);
                let id = store.create_leaf(grid);
                proof {
                    reveal_with_fuel(two_pow, 4);
                    assert forall|x: int, y: int| #[trigger]
                        store.cell(id, x, y) == (in_bounds(4, x, y) && if x < 0 {
                            s0.cell(w, x + 16, y)
                        } else {
                            s0.cell(e, x - 16, y)
                        }) by {
                        assert(store.cell(id, x, y) == center_cell(nw_grid@, ne_grid@, sw_grid@, se_grid@, x, y));
                    }
                }
                id
            } else {
                let nw = w_ne.se(store);
                let ne = e_nw.sw(store);
                let sw = w_se.ne(store);
                let se = e_sw.nw(store);
                proof {
                    lemma_four_fit(store, nw, ne, sw, se);
                }
                let id = store.create_interior(NodeTemplate { nw, ne, sw, se });
                proof {
                    lemma_outside_dead(store.nodes(), id.at());
                    let q = quarter(m - 1);
                    assert forall|x: int, y: int| #[trigger]
                        store.cell(id, x, y) == (in_bounds(m - 1, x, y) && if x < 0 {
                            s0.cell(w, x + 4 * q, y)
                        } else {
                            s0.cell(e, x - 4 * q, y)
                        }) by {
                        if in_bounds(m - 1, x, y) {
                            if x < 0 && y < 0 {
                                assert(s0.cell(nw, x + q, y + q) == s0.cell(w_ne, x + 2 * q, y + 2 * q));
                            } else if y < 0 {
                                assert(s0.cell(ne, x - q, y + q) == s0.cell(e_nw, x - 2 * q, y + 2 * q));
                            } else if x < 0 {
                                assert(s0.cell(sw, x + q, y - q) == s0.cell(w_se, x + 2 * q, y - 2 * q));
                            } else {
                                assert(s0.cell(se, x - q, y - q) == s0.cell(e_sw, x - 2 * q, y - 2 * q));
                            }
                        }
                    }
                }
                id
            }
        },
        _ => {
            proof {
                assert(false);
            }
            w
        },
    }
}

/// The node one level down centered on the edge between two nodes of one
/// level, 5 or more, one above the other: `n` to the north, `s` to the
/// south.
fn centered_vert(store: &mut Store, n: NodeId, s: NodeId) -> (id: NodeId)
    requires
        old(store).wf(),
        old(store).valid(n),
        old(store).valid(s),
        old(store).level(n) >= 5,
        old(store).level(s) == old(store).level(n),
    ensures
        final(store).wf(),
        final(store).grown_from(old(store)),
        final(store).valid(id),
        final(store).level(id) == old(store).level(n) - 1,
        forall|x: int, y: int| #[trigger]
            final(store).cell(id, x, y) == (in_bounds(old(store).level(n) - 1, x, y) && if y < 0 {
                old(store).cell(n, x, y + 2 * quarter(old(store).level(n)))
            } else {
                old(store).cell(s, x, y - 2 * quarter(old(store).level(n)))
            }),
{
    let ghost s0 = *store;
    let ghost m = s0.level(n);
    proof {
        store.lemma_wf();
        lemma_interior(s0.nodes(), n.at());
        lemma_interior(s0.nodes(), s.at());
        lemma_quarter(m);
        lemma_quarter(m - 1);
    }
    match (store.node(n), store.node(s)) {
        (Node::Interior { level, sw: n_sw, se: n_se, .. }, Node::Interior { nw: s_nw, ne: s_ne, .. }) => {
            if level.0 == 5 {
                proof {
                    assert(crate::packed::stored_ok(store.nodes(), n_sw.at()));
                }
                let nw_grid = unwrap_leaf(store.node(n_sw));
                proof {
                    assert(crate::packed::stored_ok(store.nodes(), n_se.at()));
                }
                let ne_grid = unwrap_leaf(store.node(n_se));
                proof {
                    assert(crate::packed::stored_ok(store.nodes(), s_nw.at()));
                }
                let sw_grid = unwrap_leaf(store.node(s_nw));
                proof {
                    assert(crate::packed::stored_ok(store.nodes(), s_ne.at()));
                }
                let se_grid = unwrap_leaf(store.node(s_ne));
                let grid = center(nw_grid, ne_grid, sw_grid, se_grid);
                let id = store.create_leaf(grid);
                proof {
                    reveal_with_fuel(two_pow, 4);
                    assert forall|x: int, y: int| #[trigger]
                        store.cell(id, x, y) == (in_bounds(4, x, y) && if y < 0 {
                            s0.cell(n, x, y + 16)
                        } else {
                            s0.cell(s, x, y - 16)
                        }) by {
                        assert(store.cell(id, x, y) == center_cell(nw_grid@, ne_grid@, sw_grid@, se_grid@, x, y));
                    }
                }
                id
            } else {
                let nw = n_sw.se(store);
                let ne = n_se.sw(store);
                let sw = s_nw.ne(store);
                let se = s_ne.nw(store);
                proof {
                    lemma_four_fit(store, nw, ne, sw, se);
                }
                let id = store.create_interior(NodeTemplate { nw, ne, sw, se });
                proof {
                    lemma_outside_dead(store.nodes(), id.at());
                    let q = quarter(m - 1);
                    assert forall|x: int, y: int| #[trigger]
                        store.cell(id, x, y) == (in_bounds(m - 1, x, y) && if y < 0 {
                            s0.cell(n, x, y + 4 * q)
                        } else {
                            s0.cell(s, x, y - 4 * q)
                        }) by {
                        if in_bounds(m - 1, x, y) {
                            if x < 0 && y < 0 {
                                assert(s0.cell(nw, x + q, y + q) == s0.cell(n_sw, x + 2 * q, y + 2 * q));
                            } else if y < 0 {
                                assert(s0.cell(ne, x - q, y + q) == s0.cell(n_se, x - 2 * q, y + 2 * q));
                            } else if x < 0 {
                                assert(s0.cell(sw, x + q, y - q) == s0.cell(s_nw, x + 2 * q, y - 2 * q));
                            } else {
                                assert(s0.cell(se, x - q, y - q) == s0.cell(s_ne, x - 2 * q, y - 2 * q));
                            }
                        }
                    }
                }
                id
            }
        },
        _ => {
            proof {
                assert(false);
            }
            n
        },
    }
}

} // verus!
