//! Getting and setting the cells of a node.

use vstd::prelude::*;

use crate::node::cells::{lemma_bit16_mask, lemma_bit16_update, lemma_count16_update, pow2_i64};
use crate::node::cell_sets::{lemma_parts, listed, partition_horiz, partition_vert};
use crate::node::{bit16, count16, in_bounds, max_coord_of, min_coord_of, lemma_quarter, quarter, two_pow, Quadrant};
use crate::packed::{
    cell_at, grid_cell, grid_population, lemma_interior, level_at, nodes_ok, quad_cell, Node, Level,
    NodeId, NodeTemplate, Store, MAX_LEVEL,
};
use crate::{quadrant_of, Cell, Position};

verus! {

/// The smallest coordinate of a cell of a leaf.
const MIN_LVL4_COORD: i64 = -8;

/// The largest coordinate of a cell of a leaf.
const MAX_LVL4_COORD: i64 = 7;

/// The population of a leaf after one of its rows is replaced.
proof fn lemma_grid_population_update(grid: Seq<u16>, r: int, v: u16, n: nat)
    requires
        grid.len() == 16,
        0 <= r < 16,
        n <= 16,
    ensures
        grid_population(grid.update(r, v), n) + (if r < n {
            count16(grid[r], 16) as int
        } else {
            0int
        }) == grid_population(grid, n) + (if r < n {
            count16(v, 16) as int
        } else {
            0int
        }),
    decreases n,
{
    if n > 0 {
        lemma_grid_population_update(grid, r, v, (n - 1) as nat);
    }
}

/// Whether `(x, y)` is among the positions.
pub open spec fn has_pos(s: Seq<Position>, x: int, y: int) -> bool {
    exists|k: int| #![trigger s[k]] 0 <= k < s.len() && s[k].x == x && s[k].y == y
}

/// The positions, each moved by `(dx, dy)`.
pub open spec fn moved(s: Seq<Position>, dx: int, dy: int) -> Seq<Position> {
    Seq::new(s.len(), |k: int| Position { x: (s[k].x + dx) as i64, y: (s[k].y + dy) as i64 })
}

/// Whether `s` lists the alive cells of the node `id` of `store`: each
/// once, and nothing else.
pub open spec fn lists_alive(store: &Store, id: NodeId, s: Seq<Position>) -> bool {
    &&& forall|k: int|
        #![trigger s[k]]
        0 <= k < s.len() ==> in_bounds(store.level(id), s[k].x as int, s[k].y as int) && store.cell(
            id,
            s[k].x as int,
            s[k].y as int,
        )
    &&& forall|x: int, y: int| #[trigger] store.cell(id, x, y) ==> has_pos(s, x, y)
    &&& forall|k: int, j: int| 0 <= k < j < s.len() ==> s[k] != s[j]
}

/// A position stays listed when another is appended, and the appended one
/// is listed.
proof fn lemma_has_pos_push(s: Seq<Position>, p: Position)
    ensures
        forall|x: int, y: int| has_pos(s, x, y) ==> #[trigger] has_pos(s.push(p), x, y),
        has_pos(s.push(p), p.x as int, p.y as int),
{
    assert forall|x: int, y: int| has_pos(s, x, y) implies #[trigger] has_pos(s.push(p), x, y) by {
        let k = choose|k: int| #![trigger s[k]] 0 <= k < s.len() && s[k].x == x && s[k].y == y;
        assert(s.push(p)[k] == s[k]);
    }
    assert(s.push(p)[s.len() as int] == p);
}

/// Appends the positions of `cells`, each moved by `(dx, dy)`, to `out`.
fn extend_moved(out: &mut Vec<Position>, cells: &Vec<Position>, dx: i64, dy: i64)
    requires
        forall|k: int|
            0 <= k < cells.len() ==> i64::MIN <= #[trigger] cells@[k].x + dx <= i64::MAX && i64::MIN
                <= cells@[k].y + dy <= i64::MAX,
    ensures
        final(out)@ == old(out)@ + moved(cells@, dx as int, dy as int),
{
    let ghost start = out@;
    let mut k: usize = 0;
    while k < cells.len()
        invariant
            k <= cells.len(),
            out@ == start + moved(cells@, dx as int, dy as int).subrange(0, k as int),
            forall|j: int|
                0 <= j < cells.len() ==> i64::MIN <= #[trigger] cells@[j].x + dx <= i64::MAX && i64::MIN
                    <= cells@[j].y + dy <= i64::MAX,
        decreases cells.len() - k,
    {
        let p = cells[k].offset(dx, dy);
        out.push(p);
        k = k + 1;
        proof {
            assert(moved(cells@, dx as int, dy as int).subrange(0, k as int) =~= moved(cells@, dx as int, dy as int).subrange(
                0,
                k - 1,
            ).push(p));
        }
    }
    proof {
        assert(moved(cells@, dx as int, dy as int).subrange(0, cells@.len() as int) =~= moved(cells@, dx as int, dy as int));
    }
}

/// An entry of a list of the alive cells of a node is an alive cell of it.
proof fn lemma_entry(store: &Store, c: NodeId, s: Seq<Position>, k: int)
    requires
        lists_alive(store, c, s),
        0 <= k < s.len(),
    ensures
        in_bounds(store.level(c), s[k].x as int, s[k].y as int),
        store.cell(c, s[k].x as int, s[k].y as int),
{
}

/// The positions listed for a child of a node, moved by a quarter of the
/// node's side toward it, fit in an `i64`.
proof fn lemma_moved_fits(store: &Store, c: NodeId, s: Seq<Position>, dx: int, dy: int)
    requires
        store.wf(),
        store.valid(c),
        4 <= store.level(c) < MAX_LEVEL,
        lists_alive(store, c, s),
        dx == quarter(store.level(c) + 1) || dx == -quarter(store.level(c) + 1),
        dy == quarter(store.level(c) + 1) || dy == -quarter(store.level(c) + 1),
    ensures
        forall|k: int|
            0 <= k < s.len() ==> i64::MIN <= #[trigger] s[k].x + dx <= i64::MAX && i64::MIN <= s[k].y + dy
                <= i64::MAX,
{
    let l = store.level(c) + 1;
    lemma_quarter(l);
    crate::node::cells::lemma_coords_fit(l);
    assert forall|k: int| 0 <= k < s.len() implies i64::MIN <= #[trigger] s[k].x + dx <= i64::MAX && i64::MIN
        <= s[k].y + dy <= i64::MAX by {
        lemma_entry(store, c, s, k);
    }
}

/// Where an entry of the list gathered from the children of a node comes
/// from: an alive cell of the node in the quadrant of that child.
proof fn lemma_gathered_entry(
    store: &Store,
    id: NodeId,
    a: Seq<Position>,
    b: Seq<Position>,
    c: Seq<Position>,
    d: Seq<Position>,
    k: int,
)
    requires
        store.wf(),
        store.valid(id),
        store.nodes()[id.at()] is Interior,
        match store.nodes()[id.at()] {
            Node::Interior { nw, ne, sw, se, .. } => {
                &&& lists_alive(store, nw, a)
                &&& lists_alive(store, ne, b)
                &&& lists_alive(store, sw, c)
                &&& lists_alive(store, se, d)
            },
            _ => false,
        },
        0 <= k < a.len() + b.len() + c.len() + d.len(),
    ensures
        ({
            let q = quarter(store.level(id));
            let s = moved(a, -q, -q) + moved(b, q, -q) + moved(c, -q, q) + moved(d, q, q);
            let na = a.len() as int;
            let nb = b.len() as int;
            let nc = c.len() as int;
            &&& in_bounds(store.level(id), s[k].x as int, s[k].y as int)
            &&& store.cell(id, s[k].x as int, s[k].y as int)
            &&& if k < na {
                s[k].x < 0 && s[k].y < 0
            } else if k < na + nb {
                s[k].x >= 0 && s[k].y < 0
            } else if k < na + nb + nc {
                s[k].x < 0 && s[k].y >= 0
            } else {
                s[k].x >= 0 && s[k].y >= 0
            }
        }),
{
    store.lemma_wf();
    let nodes = store.nodes();
    lemma_interior(nodes, id.at());
    match nodes[id.at()] {
        Node::Interior { nw, ne, sw, se, level, .. } => {
            let l = level.0 as int;
            let q = quarter(l);
            lemma_quarter(l);
            crate::node::cells::lemma_coords_fit(l);
            let ma = moved(a, -q, -q);
            let mb = moved(b, q, -q);
            let mc = moved(c, -q, q);
            let md = moved(d, q, q);
            let s = ma + mb + mc + md;
            let na = a.len() as int;
            let nb = b.len() as int;
            let nc = c.len() as int;
                if k < na {
                    lemma_entry(store, nw, a, k);
                    assert(s[k] == ma[k]);
                    assert(s[k].x == a[k].x - q && s[k].y == a[k].y - q);
                    assert(store.cell(nw, s[k].x + q, s[k].y + q));
                } else if k < na + nb {
                    lemma_entry(store, ne, b, k - na);
                    assert(s[k] == mb[k - na]);
                    assert(s[k].x == b[k - na].x + q && s[k].y == b[k - na].y - q);
                    assert(store.cell(ne, s[k].x - q, s[k].y + q));
                } else if k < na + nb + nc {
                    lemma_entry(store, sw, c, k - na - nb);
                    assert(s[k] == mc[k - na - nb]);
                    assert(s[k].x == c[k - na - nb].x - q && s[k].y == c[k - na - nb].y + q);
                    assert(store.cell(sw, s[k].x + q, s[k].y - q));
                } else {
                    lemma_entry(store, se, d, k - na - nb - nc);
                    assert(s[k] == md[k - na - nb - nc]);
                    assert(s[k].x == d[k - na - nb - nc].x + q && s[k].y == d[k - na - nb - nc].y + q);
                    assert(store.cell(se, s[k].x - q, s[k].y - q));
                }
                    },
        _ => {},
    }
}

/// Every alive cell of a node is in the list gathered from its children.
proof fn lemma_gather_complete(store: &Store, id: NodeId, a: Seq<Position>, b: Seq<Position>, c: Seq<Position>, d: Seq<Position>)
    requires
        store.wf(),
        store.valid(id),
        store.nodes()[id.at()] is Interior,
        match store.nodes()[id.at()] {
            Node::Interior { nw, ne, sw, se, .. } => {
                &&& lists_alive(store, nw, a)
                &&& lists_alive(store, ne, b)
                &&& lists_alive(store, sw, c)
                &&& lists_alive(store, se, d)
            },
            _ => false,
        },
    ensures
        ({
            let q = quarter(store.level(id));
            let s = moved(a, -q, -q) + moved(b, q, -q) + moved(c, -q, q) + moved(d, q, q);
            forall|x: int, y: int| #[trigger] store.cell(id, x, y) ==> has_pos(s, x, y)
        }),
{
    store.lemma_wf();
    let nodes = store.nodes();
    lemma_interior(nodes, id.at());
    match nodes[id.at()] {
        Node::Interior { nw, ne, sw, se, level, .. } => {
            let l = level.0 as int;
            let q = quarter(l);
            lemma_quarter(l);
            crate::node::cells::lemma_coords_fit(l);
            let ma = moved(a, -q, -q);
            let mb = moved(b, q, -q);
            let mc = moved(c, -q, q);
            let md = moved(d, q, q);
            let s = ma + mb + mc + md;
            let na = a.len() as int;
            let nb = b.len() as int;
            let nc = c.len() as int;
            assert forall|x: int, y: int| #[trigger] store.cell(id, x, y) implies has_pos(s, x, y) by {
                crate::packed::lemma_outside_dead(nodes, id.at());
                assert(in_bounds(l, x, y));
                let p = Position { x: x as i64, y: y as i64 };
                if x < 0 && y < 0 {
                    assert(store.cell(nw, x + q, y + q));
                    assert(has_pos(a, x + q, y + q));
                    let k = choose|k: int| #![trigger a[k]] 0 <= k < a.len() && a[k].x == x + q && a[k].y == y + q;
                    assert(s[k] == ma[k]);
                    assert(s[k] == p);
                } else if y < 0 {
                    assert(store.cell(ne, x - q, y + q));
                    assert(has_pos(b, x - q, y + q));
                    let k = choose|k: int| #![trigger b[k]] 0 <= k < b.len() && b[k].x == x - q && b[k].y == y + q;
                    assert(s[na + k] == mb[k]);
                    assert(s[na + k] == p);
                } else if x < 0 {
                    assert(store.cell(sw, x + q, y - q));
                    assert(has_pos(c, x + q, y - q));
                    let k = choose|k: int| #![trigger c[k]] 0 <= k < c.len() && c[k].x == x + q && c[k].y == y - q;
                    assert(s[na + nb + k] == mc[k]);
                    assert(s[na + nb + k] == p);
                } else {
                    assert(store.cell(se, x - q, y - q));
                    assert(has_pos(d, x - q, y - q));
                    let k = choose|k: int| #![trigger d[k]] 0 <= k < d.len() && d[k].x == x - q && d[k].y == y - q;
                    assert(s[na + nb + nc + k] == md[k]);
                    assert(s[na + nb + nc + k] == p);
                }
            }
        },
        _ => {},
    }
}

/// The list gathered from the children of a node holds no position twice.
proof fn lemma_gather_distinct(store: &Store, id: NodeId, a: Seq<Position>, b: Seq<Position>, c: Seq<Position>, d: Seq<Position>)
    requires
        store.wf(),
        store.valid(id),
        store.nodes()[id.at()] is Interior,
        match store.nodes()[id.at()] {
            Node::Interior { nw, ne, sw, se, .. } => {
                &&& lists_alive(store, nw, a)
                &&& lists_alive(store, ne, b)
                &&& lists_alive(store, sw, c)
                &&& lists_alive(store, se, d)
            },
            _ => false,
        },
    ensures
        ({
            let q = quarter(store.level(id));
            let s = moved(a, -q, -q) + moved(b, q, -q) + moved(c, -q, q) + moved(d, q, q);
            forall|k: int, j: int| 0 <= k < j < s.len() ==> s[k] != s[j]
        }),
{
    store.lemma_wf();
    let nodes = store.nodes();
    lemma_interior(nodes, id.at());
    match nodes[id.at()] {
        Node::Interior { nw, ne, sw, se, level, .. } => {
            let l = level.0 as int;
            let q = quarter(l);
            lemma_quarter(l);
            crate::node::cells::lemma_coords_fit(l);
            let ma = moved(a, -q, -q);
            let mb = moved(b, q, -q);
            let mc = moved(c, -q, q);
            let md = moved(d, q, q);
            let s = ma + mb + mc + md;
            let na = a.len() as int;
            let nb = b.len() as int;
            let nc = c.len() as int;
            assert forall|k: int, j: int| 0 <= k < j < s.len() implies s[k] != s[j] by {
                lemma_gathered_entry(store, id, a, b, c, d, k);
                lemma_gathered_entry(store, id, a, b, c, d, j);
                if j < na {
                    lemma_entry(store, nw, a, k);
                    lemma_entry(store, nw, a, j);
                    assert(s[k] == ma[k] && s[j] == ma[j]);
                    assert(s[k].x == a[k].x - q && s[k].y == a[k].y - q);
                    assert(s[j].x == a[j].x - q && s[j].y == a[j].y - q);
                    assert(a[k] != a[j]);
                } else if na <= k && j < na + nb {
                    lemma_entry(store, ne, b, k - na);
                    lemma_entry(store, ne, b, j - na);
                    assert(s[k] == mb[k - na] && s[j] == mb[j - na]);
                    assert(s[k].x == b[k - na].x + q && s[k].y == b[k - na].y - q);
                    assert(s[j].x == b[j - na].x + q && s[j].y == b[j - na].y - q);
                    assert(b[k - na] != b[j - na]);
                } else if na + nb <= k && j < na + nb + nc {
                    lemma_entry(store, sw, c, k - na - nb);
                    lemma_entry(store, sw, c, j - na - nb);
                    assert(s[k] == mc[k - na - nb] && s[j] == mc[j - na - nb]);
                    assert(s[k].x == c[k - na - nb].x - q && s[k].y == c[k - na - nb].y + q);
                    assert(s[j].x == c[j - na - nb].x - q && s[j].y == c[j - na - nb].y + q);
                    assert(c[k - na - nb] != c[j - na - nb]);
                } else if na + nb + nc <= k {
                    lemma_entry(store, se, d, k - na - nb - nc);
                    lemma_entry(store, se, d, j - na - nb - nc);
                    assert(s[k] == md[k - na - nb - nc] && s[j] == md[j - na - nb - nc]);
                    assert(s[k].x == d[k - na - nb - nc].x + q && s[k].y == d[k - na - nb - nc].y + q);
                    assert(s[j].x == d[j - na - nb - nc].x + q && s[j].y == d[j - na - nb - nc].y + q);
                    assert(d[k - na - nb - nc] != d[j - na - nb - nc]);
                }
            }
        },
        _ => {},
    }
}

/// The alive cells of a node are those of its children, each moved by a
/// quarter of the node's side toward the child.
proof fn lemma_gather(store: &Store, id: NodeId, a: Seq<Position>, b: Seq<Position>, c: Seq<Position>, d: Seq<Position>)
    requires
        store.wf(),
        store.valid(id),
        store.nodes()[id.at()] is Interior,
        match store.nodes()[id.at()] {
            Node::Interior { nw, ne, sw, se, .. } => {
                &&& lists_alive(store, nw, a)
                &&& lists_alive(store, ne, b)
                &&& lists_alive(store, sw, c)
                &&& lists_alive(store, se, d)
            },
            _ => false,
        },
    ensures
        ({
            let q = quarter(store.level(id));
            lists_alive(store, id, moved(a, -q, -q) + moved(b, q, -q) + moved(c, -q, q) + moved(d, q, q))
        }),
{
    let q = quarter(store.level(id));
    let s = moved(a, -q, -q) + moved(b, q, -q) + moved(c, -q, q) + moved(d, q, q);
    assert forall|k: int| #![trigger s[k]] 0 <= k < s.len() implies store.cell(id, s[k].x as int, s[k].y as int) && in_bounds(store.level(id), s[k].x as int, s[k].y as int) by {
        lemma_gathered_entry(store, id, a, b, c, d, k);
    }
    lemma_gather_complete(store, id, a, b, c, d);
    lemma_gather_distinct(store, id, a, b, c, d);
}

/// Getting and setting single cells.
impl NodeId {
    /// Whether the cell at `pos` is alive, `pos` within the node.
    pub fn get_cell(self, store: &Store, pos: Position) -> (cell: Cell)
        requires
            store.wf(),
            store.valid(self),
            in_bounds(store.level(self), pos.x as int, pos.y as int),
        ensures
            (cell == Cell::Alive) == store.cell(self, pos.x as int, pos.y as int),
        decreases store.level(self),
    {
        proof {
            store.lemma_wf();
        }
        match store.node(self) {
            Node::Leaf { grid } => {
                proof {
                    reveal_with_fuel(two_pow, 4);
                }
                let x_offset = (7 - pos.x) as u16;
                let y_offset = (pos.y + 8) as usize;
                proof {
                    lemma_bit16_mask(grid[y_offset as int], x_offset);
                }
                Cell::new(grid[y_offset] & (1u16 << x_offset) > 0)
            },
            Node::Interior { nw, ne, sw, se, level, .. } => {
                proof {
                    lemma_interior(store.nodes(), self.at());
                    lemma_quarter(level.0 as int);
                }
                // quarter side length
                let offset = pow2_i64(level.0 - 2);
                match pos.quadrant() {
                    Quadrant::Northwest => nw.get_cell(store, pos.offset(offset, offset)),
                    Quadrant::Northeast => ne.get_cell(store, pos.offset(-offset, offset)),
                    Quadrant::Southwest => sw.get_cell(store, pos.offset(offset, -offset)),
                    Quadrant::Southeast => se.get_cell(store, pos.offset(-offset, -offset)),
                }
            },
        }
    }

    /// The node with the cell at `pos`, within the node, set alive.
    pub fn set_cell_alive(self, store: &mut Store, pos: Position) -> (id: NodeId)
        requires
            old(store).wf(),
            old(store).valid(self),
            in_bounds(old(store).level(self), pos.x as int, pos.y as int),
            old(store).pop(self) < u128::MAX,
        ensures
            final(store).wf(),
            final(store).grown_from(old(store)),
            final(store).valid(id),
            final(store).level(id) == old(store).level(self),
            final(store).pop(id) == old(store).pop(self) + (if old(store).cell(self, pos.x as int, pos.y as int) {
                0int
            } else {
                1int
            }),
            forall|x: int, y: int| #[trigger]
                final(store).cell(id, x, y) == (old(store).cell(self, x, y) || (x == pos.x && y == pos.y)),
        decreases old(store).level(self),
    {
        let ghost s0 = *store;
        proof {
            store.lemma_wf();
        }
        match store.node(self) {
            Node::Leaf { grid } => {
                proof {
                    reveal_with_fuel(two_pow, 4);
                }
                let x_offset = (7 - pos.x) as u16;
                let y_offset = (pos.y + 8) as usize;
                let mut new_grid = grid;
                let row = grid[y_offset] | (1u16 << x_offset);
                new_grid[y_offset] = row;
                let id = store.create_leaf(new_grid);
                proof {
                    let g = grid@;
                    assert(new_grid@ == g.update(y_offset as int, row));
                    assert forall|x: int, y: int| #[trigger]
                        store.cell(id, x, y) == (s0.cell(self, x, y) || (x == pos.x && y == pos.y)) by {
                        if -8 <= x <= 7 && y == pos.y {
                            lemma_bit16_update(grid[y_offset as int], x_offset, (7 - x) as u16);
                        }
                    }
                    lemma_bit16_update(grid[y_offset as int], x_offset, x_offset);
                    lemma_count16_update(grid[y_offset as int], x_offset, row, true);
                    lemma_grid_population_update(g, y_offset as int, row, 16);
                }
                id
            },
            Node::Interior { nw, ne, sw, se, level, .. } => {
                let ghost nodes = s0.nodes();
                let ghost l = level.0 as int;
                proof {
                    lemma_interior(nodes, self.at());
                    lemma_quarter(l);
                }
                // quarter side length
                let offset = pow2_i64(level.0 - 2);
                let ghost q = offset as int;
                let quadrant = pos.quadrant();
                let (child, dx, dy) = match quadrant {
                    Quadrant::Northwest => (nw, offset, offset),
                    Quadrant::Northeast => (ne, -offset, offset),
                    Quadrant::Southwest => (sw, offset, -offset),
                    Quadrant::Southeast => (se, -offset, -offset),
                };
                let new_child = child.set_cell_alive(store, pos.offset(dx, dy));
                let ghost s1 = *store;
                proof {
                    s0.lemma_keeps(&s1, nw);
                    s0.lemma_keeps(&s1, ne);
                    s0.lemma_keeps(&s1, sw);
                    s0.lemma_keeps(&s1, se);
                }
                let template = match quadrant {
                    Quadrant::Northwest => NodeTemplate { nw: new_child, ne, sw, se },
                    Quadrant::Northeast => NodeTemplate { nw, ne: new_child, sw, se },
                    Quadrant::Southwest => NodeTemplate { nw, ne, sw: new_child, se },
                    Quadrant::Southeast => NodeTemplate { nw, ne, sw, se: new_child },
                };
                let id = store.create_interior(template);
                proof {
                    store.lemma_grown_trans(&s1, &s0);
                    let px = pos.x as int;
                    let py = pos.y as int;
                    assert forall|x: int, y: int| #[trigger]
                        store.cell(id, x, y) == (s0.cell(self, x, y) || (x == px && y == py)) by {
                        assert(store.cell(id, x, y) == quad_cell(
                            s1.nodes(),
                            template.nw,
                            template.ne,
                            template.sw,
                            template.se,
                            l,
                            x,
                            y,
                        ));
                        assert(s0.cell(self, x, y) == quad_cell(nodes, nw, ne, sw, se, l, x, y));
                        if x < 0 && y < 0 {
                            assert(s1.cell(template.nw, x + q, y + q) == (s0.cell(nw, x + q, y + q) || (
                            quadrant == Quadrant::Northwest && x + q == px + q && y + q == py + q)));
                        } else if y < 0 {
                            assert(s1.cell(template.ne, x - q, y + q) == (s0.cell(ne, x - q, y + q) || (
                            quadrant == Quadrant::Northeast && x - q == px - q && y + q == py + q)));
                        } else if x < 0 {
                            assert(s1.cell(template.sw, x + q, y - q) == (s0.cell(sw, x + q, y - q) || (
                            quadrant == Quadrant::Southwest && x + q == px + q && y - q == py - q)));
                        } else {
                            assert(s1.cell(template.se, x - q, y - q) == (s0.cell(se, x - q, y - q) || (
                            quadrant == Quadrant::Southeast && x - q == px - q && y - q == py - q)));
                        }
                    }
                }
                id
            },
        }
    }

    /// The positions of the alive cells of the node, each once.
    pub fn get_alive_cells(self, store: &Store) -> (cells: Vec<Position>)
        requires
            store.wf(),
            store.valid(self),
        ensures
            lists_alive(store, self, cells@),
        decreases store.level(self),
    {
        proof {
            store.lemma_wf();
            crate::packed::lemma_outside_dead(store.nodes(), self.at());
        }
        match store.node(self) {
            Node::Leaf { grid } => {
                proof {
                    reveal_with_fuel(two_pow, 4);
                }
                let mut alive_coords: Vec<Position> = Vec::new();
                let mut y: i64 = MIN_LVL4_COORD;
                while y <= MAX_LVL4_COORD
                    invariant
                        -8 <= y <= 8,
                        store.valid(self),
                        store.nodes()[self.at()] == (Node::Leaf { grid }),
                        forall|k: int|
                            0 <= k < alive_coords@.len() ==> -8 <= #[trigger] alive_coords@[k].x <= 7 && -8
                                <= alive_coords@[k].y < y && grid_cell(
                                grid@,
                                alive_coords@[k].x as int,
                                alive_coords@[k].y as int,
                            ),
                        forall|k: int, j: int|
                            0 <= k < j < alive_coords@.len() ==> #[trigger] alive_coords@[k].y * 16
                                + alive_coords@[k].x < #[trigger] alive_coords@[j].y * 16 + alive_coords@[j].x,
                        forall|a: int, b: int|
                            #[trigger] grid_cell(grid@, a, b) && b < y ==> has_pos(alive_coords@, a, b),
                    decreases 8 - y,
                {
                    let y_offset = (y + 8) as usize;
                    let row = grid[y_offset];
                    let mut x: i64 = MIN_LVL4_COORD;
                    while x <= MAX_LVL4_COORD
                        invariant
                            -8 <= x <= 8,
                            -8 <= y <= 7,
                            y_offset == y + 8,
                            row == grid@[y + 8],
                            forall|k: int|
                                0 <= k < alive_coords@.len() ==> -8 <= #[trigger] alive_coords@[k].x <= 7 && -8
                                    <= alive_coords@[k].y <= y && (alive_coords@[k].y == y ==> alive_coords@[k].x
                                    < x) && grid_cell(grid@, alive_coords@[k].x as int, alive_coords@[k].y as int),
                            forall|k: int, j: int|
                                0 <= k < j < alive_coords@.len() ==> #[trigger] alive_coords@[k].y * 16
                                    + alive_coords@[k].x < #[trigger] alive_coords@[j].y * 16 + alive_coords@[j].x,
                            forall|a: int, b: int|
                                #[trigger] grid_cell(grid@, a, b) && (b < y || (b == y && a < x)) ==> has_pos(
                                    alive_coords@,
                                    a,
                                    b,
                                ),
                        decreases 8 - x,
                    {
                        let x_offset = (7 - x) as u16;
                        proof {
                            lemma_bit16_mask(row, x_offset);
                        }
                        if row & (1u16 << x_offset) > 0 {
                            let p = Position { x, y };
                            proof {
                                lemma_has_pos_push(alive_coords@, p);
                            }
                            alive_coords.push(p);
                        }
                        x = x + 1;
                    }
                    y = y + 1;
                }
                proof {
                    let s = alive_coords@;
                    assert forall|k: int, j: int| 0 <= k < j < s.len() implies s[k] != s[j] by {
                        assert(s[k].y * 16 + s[k].x < s[j].y * 16 + s[j].x);
                    }
                    assert forall|x: int, y: int| #[trigger] store.cell(self, x, y) implies has_pos(s, x, y) by {
                        assert(grid_cell(grid@, x, y));
                    }
                }
                alive_coords
            },
            Node::Interior { nw, ne, sw, se, level, .. } => {
                let ghost nodes = store.nodes();
                let ghost l = level.0 as int;
                proof {
                    lemma_interior(nodes, self.at());
                    lemma_quarter(l);
                }
                let mut alive_cells: Vec<Position> = Vec::new();
                // quarter side length
                let offset = pow2_i64(level.0 - 2);
                let ghost q = offset as int;
                let nw_cells = nw.get_alive_cells(store);
                let ne_cells = ne.get_alive_cells(store);
                let sw_cells = sw.get_alive_cells(store);
                let se_cells = se.get_alive_cells(store);
                proof {
                    lemma_moved_fits(store, nw, nw_cells@, -q, -q);
                    lemma_moved_fits(store, ne, ne_cells@, q, -q);
                    lemma_moved_fits(store, sw, sw_cells@, -q, q);
                    lemma_moved_fits(store, se, se_cells@, q, q);
                }
                extend_moved(&mut alive_cells, &nw_cells, -offset, -offset);
                extend_moved(&mut alive_cells, &ne_cells, offset, -offset);
                extend_moved(&mut alive_cells, &sw_cells, -offset, offset);
                extend_moved(&mut alive_cells, &se_cells, offset, offset);
                proof {
                    lemma_gather(store, self, nw_cells@, ne_cells@, sw_cells@, se_cells@);
                }
                alive_cells
            },
        }
    }

    /// The node with the cells at the given positions, all within the node,
    /// set alive.
    pub fn set_cells_alive(self, store: &mut Store, coords: Vec<Position>) -> (id: NodeId)
        requires
            old(store).wf(),
            old(store).valid(self),
            forall|k: int|
                0 <= k < coords.len() ==> in_bounds(
                    old(store).level(self),
                    #[trigger] coords@[k].x as int,
                    coords@[k].y as int,
                ),
            old(store).pop(self) + coords.len() <= u128::MAX,
        ensures
            final(store).wf(),
            final(store).grown_from(old(store)),
            final(store).valid(id),
            final(store).level(id) == old(store).level(self),
            forall|x: int, y: int| #[trigger]
                final(store).cell(id, x, y) == (old(store).cell(self, x, y) || has_pos(coords@, x, y)),
            final(store).pop(id) <= old(store).pop(self) + coords.len(),
    {
        let ghost s0 = *store;
        let mut pairs: Vec<(i64, i64)> = Vec::new();
        let mut k: usize = 0;
        while k < coords.len()
            invariant
                k <= coords.len(),
                pairs@.len() == k,
                forall|j: int| 0 <= j < k ==> #[trigger] pairs@[j] == (coords@[j].x, coords@[j].y),
            decreases coords.len() - k,
        {
            pairs.push((coords[k].x, coords[k].y));
            k = k + 1;
        }
        let ghost p0 = pairs@;
        proof {
            store.lemma_wf();
            crate::packed::lemma_pop_bound(store.nodes(), self.at());
            crate::node::cells::lemma_coords_fit(store.level(self));
            assert forall|j: int| 0 <= j < p0.len() implies in_bounds(
                s0.level(self),
                #[trigger] p0[j].0 - 0,
                p0[j].1 - 0,
            ) by {
                assert(p0[j] == (coords@[j].x, coords@[j].y));
            }
        }
        let id = self.set_cells_alive_recursive(store, pairs.as_mut_slice(), 0, 0);
        proof {
            crate::packed::lemma_outside_dead(store.nodes(), id.at());
            crate::packed::lemma_outside_dead(s0.nodes(), self.at());
            assert forall|x: int, y: int| #[trigger]
                store.cell(id, x, y) == (s0.cell(self, x, y) || has_pos(coords@, x, y)) by {
                if has_pos(coords@, x, y) {
                    let j = choose|j: int| #![trigger coords@[j]] 0 <= j < coords@.len() && coords@[j].x == x && coords@[j].y == y;
                    assert(in_bounds(s0.level(self), coords@[j].x as int, coords@[j].y as int));
                    assert(p0[j] == (coords@[j].x, coords@[j].y));
                    assert(coords@[j].x == x && coords@[j].y == y);
                    assert(p0[j].0 == x + 0 && p0[j].1 == y + 0);
                    assert(listed(p0, x + 0, y + 0));
                }
                if in_bounds(s0.level(self), x, y) && listed(p0, x + 0, y + 0) {
                    let j = choose|j: int| 0 <= j < p0.len() && p0[j].0 == x + 0 && #[trigger] p0[j].1 == y + 0;
                    assert(p0[j] == (coords@[j].x, coords@[j].y));
                    assert(coords@[j].x == x && coords@[j].y == y);
                }
            }
        }
        id
    }

    /// Sets alive the cells at the given coordinates, moved by
    /// `(-offset_x, -offset_y)` into the coordinates of this node; the
    /// coordinates are reordered.
    fn set_cells_alive_recursive(
        self,
        store: &mut Store,
        coords: &mut [(i64, i64)],
        offset_x: i64,
        offset_y: i64,
    ) -> (id: NodeId)
        requires
            old(store).wf(),
            old(store).valid(self),
            forall|i: int|
                0 <= i < old(coords)@.len() ==> in_bounds(
                    old(store).level(self),
                    #[trigger] old(coords)@[i].0 - offset_x,
                    old(coords)@[i].1 - offset_y,
                ),
            old(store).pop(self) + old(coords)@.len() <= u128::MAX,
            i64::MIN <= offset_x + min_coord_of(old(store).level(self)),
            offset_x + max_coord_of(old(store).level(self)) <= i64::MAX,
            i64::MIN <= offset_y + min_coord_of(old(store).level(self)),
            offset_y + max_coord_of(old(store).level(self)) <= i64::MAX,
        ensures
            final(store).wf(),
            final(store).grown_from(old(store)),
            final(store).valid(id),
            final(store).level(id) == old(store).level(self),
            forall|a: int, b: int|
                in_bounds(old(store).level(self), a, b) ==> #[trigger] final(store).cell(id, a, b) == (
                old(store).cell(self, a, b) || listed(old(coords)@, a + offset_x, b + offset_y)),
            final(store).pop(id) <= old(store).pop(self) + old(coords)@.len(),
            final(coords)@.to_multiset() == old(coords)@.to_multiset(),
        decreases old(store).level(self),
    {
        let ghost s0 = *store;
        let ghost c0 = coords@;
        proof {
            store.lemma_wf();
        }
        if coords.len() == 0 {
            return self;
        }
        match store.node(self) {
            Node::Leaf { grid } => {
                proof {
                    reveal_with_fuel(two_pow, 4);
                }
                let mut new_grid = grid;
                let mut i: usize = 0;
                while i < coords.len()
                    invariant
                        0 <= i <= coords@.len(),
                        coords@ == c0,
                        forall|j: int|
                            0 <= j < c0.len() ==> -8 <= #[trigger] c0[j].0 - offset_x <= 7 && -8 <= c0[j].1
                                - offset_y <= 7,
                        forall|a: int, b: int|
                            -8 <= a <= 7 && -8 <= b <= 7 ==> #[trigger] grid_cell(new_grid@, a, b) == (grid_cell(
                                grid@,
                                a,
                                b,
                            ) || listed(c0.subrange(0, i as int), a + offset_x, b + offset_y)),
                        grid_population(new_grid@, 16) <= grid_population(grid@, 16) + i,
                    decreases coords@.len() - i,
                {
                    let (px, py) = coords[i];
                    let x = (7 - (px - offset_x)) as u16;
                    let y = ((py - offset_y) + 8) as usize;
                    let ghost before = new_grid@;
                    let row = new_grid[y] | (1u16 << x);
                    new_grid[y] = row;
                    proof {
                        assert(new_grid@ == before.update(y as int, row));
                        lemma_count16_update(before[y as int], x, row, true);
                        lemma_grid_population_update(before, y as int, row, 16);
                        let c1 = c0.subrange(0, i + 1);
                        let c2 = c0.subrange(0, i as int);
                        assert forall|a: int, b: int| -8 <= a <= 7 && -8 <= b <= 7 implies #[trigger] grid_cell(
                            new_grid@,
                            a,
                            b,
                        ) == (grid_cell(grid@, a, b) || listed(c1, a + offset_x, b + offset_y)) by {
                            assert(grid_cell(before, a, b) == (grid_cell(grid@, a, b) || listed(c2, a + offset_x, b + offset_y)));
                            if b + 8 == y {
                                lemma_bit16_update(before[y as int], x, (7 - a) as u16);
                            }
                            if listed(c1, a + offset_x, b + offset_y) {
                                let j = choose|j: int| 0 <= j < c1.len() && c1[j].0 == a + offset_x && #[trigger] c1[j].1 == b + offset_y;
                                if j < i {
                                    assert(c2[j] == c1[j]);
                                }
                            }
                            if listed(c2, a + offset_x, b + offset_y) {
                                let j = choose|j: int| 0 <= j < c2.len() && c2[j].0 == a + offset_x && #[trigger] c2[j].1 == b + offset_y;
                                assert(c1[j] == c2[j]);
                            }
                            if a + offset_x == px && b + offset_y == py {
                                assert(c1[i as int] == (px, py));
                            }
                        }
                    }
                    i = i + 1;
                }
                let id = store.create_leaf(new_grid);
                proof {
                    assert(c0.subrange(0, c0.len() as int) == c0);
                }
                id
            },
            Node::Interior { .. } => self.set_cells_alive_interior(store, coords, offset_x, offset_y),
        }
    }

    /// Sets alive cells of an interior node.
    #[verifier::spinoff_prover]
    #[verifier::rlimit(100)]
    fn set_cells_alive_interior(
        self,
        store: &mut Store,
        coords: &mut [(i64, i64)],
        offset_x: i64,
        offset_y: i64,
    ) -> (id: NodeId)
        requires
            old(store).wf(),
            old(store).valid(self),
            old(store).nodes()[self.at()] is Interior,
            forall|i: int|
                0 <= i < old(coords)@.len() ==> in_bounds(
                    old(store).level(self),
                    #[trigger] old(coords)@[i].0 - offset_x,
                    old(coords)@[i].1 - offset_y,
                ),
            old(store).pop(self) + old(coords)@.len() <= u128::MAX,
            i64::MIN <= offset_x + min_coord_of(old(store).level(self)),
            offset_x + max_coord_of(old(store).level(self)) <= i64::MAX,
            i64::MIN <= offset_y + min_coord_of(old(store).level(self)),
            offset_y + max_coord_of(old(store).level(self)) <= i64::MAX,
        ensures
            final(store).wf(),
            final(store).grown_from(old(store)),
            final(store).valid(id),
            final(store).level(id) == old(store).level(self),
            forall|a: int, b: int|
                in_bounds(old(store).level(self), a, b) ==> #[trigger] final(store).cell(id, a, b) == (
                old(store).cell(self, a, b) || listed(old(coords)@, a + offset_x, b + offset_y)),
            final(store).pop(id) <= old(store).pop(self) + old(coords)@.len(),
            final(coords)@.to_multiset() == old(coords)@.to_multiset(),
        decreases old(store).level(self), 0nat,
    {
        let ghost s0 = *store;
        let ghost n0 = s0.nodes();
        let ghost c0 = coords@;
        proof {
            store.lemma_wf();
            lemma_interior(n0, self.at());
        }
        let (nw, ne, sw, se, level) = match store.node(self) {
            Node::Interior { nw, ne, sw, se, level, .. } => (nw, ne, sw, se, level),
            Node::Leaf { .. } => (self, self, self, self, Level(4)),
        };
        let ghost l = level.0 as int;
        let vert_cutoff = partition_vert(coords, offset_y);
        let ghost c1 = coords@;
        let (north, south) = coords.split_at_mut(vert_cutoff);
        let ghost n1 = north@;
        let ghost s1 = south@;
        let horiz_cutoff = partition_horiz(north, offset_x);
        let ghost n2 = north@;
        let (northwest, northeast) = north.split_at_mut(horiz_cutoff);
        let ghost nwc = northwest@;
        let ghost nec = northeast@;
        let horiz_cutoff = partition_horiz(south, offset_x);
        let ghost s2 = south@;
        let (southwest, southeast) = south.split_at_mut(horiz_cutoff);
        let ghost swc = southwest@;
        let ghost sec = southeast@;
        // quarter side length
        let offset = pow2_i64(level.0 - 2);
        let ghost q = offset as int;
        proof {
            lemma_quarter(l);
            lemma_parts(c0, c1, n1, s1, n2, s2, nwc, nec, swc, sec, offset_x as int, offset_y as int, l, vert_cutoff as int);
        }
        let nw2 = nw.set_cells_alive_recursive(store, northwest, offset_x - offset, offset_y - offset);
        let ghost m1 = *store;
        proof {
            s0.lemma_keeps(&m1, ne);
        }
        let ne2 = ne.set_cells_alive_recursive(store, northeast, offset_x + offset, offset_y - offset);
        let ghost m2 = *store;
        proof {
            m2.lemma_grown_trans(&m1, &s0);
            s0.lemma_keeps(&m2, sw);
        }
        let sw2 = sw.set_cells_alive_recursive(store, southwest, offset_x - offset, offset_y + offset);
        let ghost m3 = *store;
        proof {
            m3.lemma_grown_trans(&m2, &s0);
            s0.lemma_keeps(&m3, se);
        }
        let se2 = se.set_cells_alive_recursive(store, southeast, offset_x + offset, offset_y + offset);
        let ghost m4 = *store;
        proof {
            m4.lemma_grown_trans(&m3, &s0);
            m1.lemma_wf();
            m2.lemma_wf();
            m3.lemma_wf();
            m1.lemma_keeps(&m4, nw2);
            m2.lemma_keeps(&m4, ne2);
            m3.lemma_keeps(&m4, sw2);
            s0.lemma_keeps(&m1, nw);
            s0.lemma_keeps(&m2, ne);
            s0.lemma_keeps(&m3, sw);
            s0.lemma_keeps(&m4, se);
            s0.lemma_keeps(&m4, self);
        }
        let id = store.create_interior(NodeTemplate { nw: nw2, ne: ne2, sw: sw2, se: se2 });
        proof {
            store.lemma_grown_trans(&m4, &s0);
            assert forall|a: int, b: int| in_bounds(l, a, b) implies #[trigger] store.cell(id, a, b) == (
                s0.cell(self, a, b) || listed(c0, a + offset_x, b + offset_y)) by {
                assert(store.cell(id, a, b) == quad_cell(m4.nodes(), nw2, ne2, sw2, se2, l, a, b));
                assert(s0.cell(self, a, b) == quad_cell(n0, nw, ne, sw, se, l, a, b));
                if a < 0 && b < 0 {
                    assert(in_bounds(l - 1, a + q, b + q));
                    assert(listed(nwc, a + q + (offset_x - q), b + q + (offset_y - q)) == listed(c0, a + offset_x, b + offset_y));
                    assert(m4.cell(nw2, a + q, b + q) == m1.cell(nw2, a + q, b + q));
                    assert(m1.cell(nw2, a + q, b + q) == (s0.cell(nw, a + q, b + q) || listed(
                        nwc,
                        a + q + (offset_x - q),
                        b + q + (offset_y - q),
                    )));
                } else if b < 0 {
                    assert(in_bounds(l - 1, a - q, b + q));
                    assert(listed(nec, a - q + (offset_x + q), b + q + (offset_y - q)) == listed(c0, a + offset_x, b + offset_y));
                    assert(m4.cell(ne2, a - q, b + q) == m2.cell(ne2, a - q, b + q));
                    assert(m2.cell(ne2, a - q, b + q) == (m1.cell(ne, a - q, b + q) || listed(
                        nec,
                        a - q + (offset_x + q),
                        b + q + (offset_y - q),
                    )));
                    assert(m1.cell(ne, a - q, b + q) == s0.cell(ne, a - q, b + q));
                } else if a < 0 {
                    assert(in_bounds(l - 1, a + q, b - q));
                    assert(listed(swc, a + q + (offset_x - q), b - q + (offset_y + q)) == listed(c0, a + offset_x, b + offset_y));
                    assert(m4.cell(sw2, a + q, b - q) == m3.cell(sw2, a + q, b - q));
                    assert(m3.cell(sw2, a + q, b - q) == (m2.cell(sw, a + q, b - q) || listed(
                        swc,
                        a + q + (offset_x - q),
                        b - q + (offset_y + q),
                    )));
                    assert(m2.cell(sw, a + q, b - q) == s0.cell(sw, a + q, b - q));
                } else {
                    assert(in_bounds(l - 1, a - q, b - q));
                    assert(listed(sec, a - q + (offset_x + q), b - q + (offset_y + q)) == listed(c0, a + offset_x, b + offset_y));
                    assert(m4.cell(se2, a - q, b - q) == (m3.cell(se, a - q, b - q) || listed(
                        sec,
                        a - q + (offset_x + q),
                        b - q + (offset_y + q),
                    )));
                    assert(m3.cell(se, a - q, b - q) == s0.cell(se, a - q, b - q));
                }
            }
        }
        proof {
            broadcast use vstd::seq_lib::lemma_multiset_commutative;

            assert(final(coords)@ == final(north)@ + final(south)@);
            assert(final(north)@ == final(northwest)@ + final(northeast)@);
            assert(final(south)@ == final(southwest)@ + final(southeast)@);
            assert(final(coords)@.to_multiset() == (nwc + nec + (swc + sec)).to_multiset());
        }
        id
    }
}

} // verus!
