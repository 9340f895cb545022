//! Listing, searching and setting many cells of a node at once.

use vstd::prelude::*;

use crate::node::cells::quarter_i64;
use crate::node::store::NodeTemplate;
use crate::node::extends;
use crate::Cell;
use crate::node::store::{b16, b8, lemma_count16, lemma_count8};
use crate::node::subregion::{east_shift, lemma_quadrant_window, shifted, west_shift};
use crate::node::{
    bit16, bit8, cell_of, in_bounds, lemma_children, lemma_quarter, lemma_stored,
    level_one_bit_index, level_two_bit_index, node_in, nodes_ok, pop_of, quad_cell, quarter,
    two_pow, Node, NodeBase, Store, LEVEL_ONE_NE_MASK, LEVEL_ONE_NW_MASK, LEVEL_ONE_SE_MASK,
    LEVEL_ONE_SW_MASK, MAX_LEVEL,
};

verus! {

/// A node without alive cells has no alive cell anywhere within it.
pub proof fn lemma_pop_zero(nodes: Seq<Node>, n: Node)
    requires
        nodes_ok(nodes),
        node_in(nodes, n),
        pop_of(nodes, n) == 0,
    ensures
        forall|x: int, y: int| in_bounds(n.level as int, x, y) ==> !#[trigger] cell_of(nodes, n, x, y),
    decreases n.level,
{
    lemma_stored(nodes, n);
    match n.base {
        NodeBase::Leaf { .. } => {},
        NodeBase::LevelOne { cells } => {
            lemma_count8(cells);
            assert forall|x: int, y: int| in_bounds(n.level as int, x, y) implies !#[trigger] cell_of(
                nodes,
                n,
                x,
                y,
            ) by {
                assert(b8(cells, 5) == 0 && b8(cells, 4) == 0 && b8(cells, 1) == 0 && b8(cells, 0) == 0);
            }
        },
        NodeBase::LevelTwo { cells, .. } => {
            lemma_count16(cells);
            reveal_with_fuel(two_pow, 2);
            assert forall|x: int, y: int| in_bounds(n.level as int, x, y) implies !#[trigger] cell_of(
                nodes,
                n,
                x,
                y,
            ) by {
                let k = level_two_bit_index(x, y);
                assert(0 <= k < 16);
                assert(b16(cells, k) == 0);
            }
        },
        NodeBase::Interior { ne_index, nw_index, se_index, sw_index, .. } => {
            lemma_children(nodes, n);
            let l = n.level as int;
            lemma_quarter(l);
            let q = quarter(l);
            let ne = nodes[ne_index as int];
            let nw = nodes[nw_index as int];
            let se = nodes[se_index as int];
            let sw = nodes[sw_index as int];
            lemma_pop_zero(nodes, ne);
            lemma_pop_zero(nodes, nw);
            lemma_pop_zero(nodes, se);
            lemma_pop_zero(nodes, sw);
            assert forall|x: int, y: int| in_bounds(l, x, y) implies !#[trigger] cell_of(
                nodes,
                n,
                x,
                y,
            ) by {
                assert(cell_of(nodes, n, x, y) == quad_cell(nodes, nw, ne, sw, se, l, x, y));
                if x < 0 && y < 0 {
                    assert(in_bounds(l - 1, x + q, y + q));
                } else if x >= 0 && y < 0 {
                    assert(in_bounds(l - 1, x - q, y + q));
                } else if x < 0 && y >= 0 {
                    assert(in_bounds(l - 1, x + q, y - q));
                } else {
                    assert(in_bounds(l - 1, x - q, y - q));
                }
            }
        },
    }
}

/// Appends `cells` to `out`, each moved by `(dx, dy)`.
fn extend_offset(out: &mut Vec<(i64, i64)>, cells: &Vec<(i64, i64)>, dx: i64, dy: i64)
    requires
        forall|j: int|
            0 <= j < cells.len() ==> i64::MIN <= #[trigger] cells@[j].0 + dx <= i64::MAX
                && i64::MIN <= cells@[j].1 + dy <= i64::MAX,
    ensures
        final(out).len() == old(out).len() + cells.len(),
        forall|i: int| 0 <= i < old(out).len() ==> #[trigger] final(out)@[i] == old(out)@[i],
        forall|j: int|
            0 <= j < cells.len() ==> #[trigger] final(out)@[old(out).len() + j] == (
                (cells@[j].0 + dx) as i64,
                (cells@[j].1 + dy) as i64,
            ),
{
    let ghost start = out.len();
    let mut j: usize = 0;
    while j < cells.len()
        invariant
            0 <= j <= cells.len(),
            out.len() == start + j,
            start == old(out).len(),
            forall|i: int| 0 <= i < start ==> #[trigger] out@[i] == old(out)@[i],
            forall|k: int|
                0 <= k < j ==> #[trigger] out@[start + k] == (
                    (cells@[k].0 + dx) as i64,
                    (cells@[k].1 + dy) as i64,
                ),
            forall|k: int|
                0 <= k < cells.len() ==> i64::MIN <= #[trigger] cells@[k].0 + dx <= i64::MAX
                    && i64::MIN <= cells@[k].1 + dy <= i64::MAX,
        decreases cells.len() - j,
    {
        let (x, y) = cells[j];
        out.push((x + dx, y + dy));
        j = j + 1;
    }
}

/// `cells` lists the alive cells of `n` at which `pred` holds, each once.
pub open spec fn lists_alive_in(
    nodes: Seq<Node>,
    n: Node,
    cells: Seq<(i64, i64)>,
    pred: spec_fn(int, int) -> bool,
) -> bool {
    &&& forall|i: int|
        0 <= i < cells.len() ==> in_bounds(n.level as int, #[trigger] cells[i].0 as int, cells[i].1 as int)
            && cell_of(nodes, n, cells[i].0 as int, cells[i].1 as int)
            && pred(cells[i].0 as int, cells[i].1 as int)
    &&& forall|x: int, y: int|
        in_bounds(n.level as int, x, y) && #[trigger] cell_of(nodes, n, x, y) && pred(x, y)
            ==> cells.contains((x as i64, y as i64))
    &&& cells.no_duplicates()
}

/// `cells` lists the alive cells of `n`, each once.
pub open spec fn lists_alive(nodes: Seq<Node>, n: Node, cells: Seq<(i64, i64)>) -> bool {
    &&& forall|i: int|
        0 <= i < cells.len() ==> in_bounds(n.level as int, #[trigger] cells[i].0 as int, cells[i].1 as int)
            && cell_of(nodes, n, cells[i].0 as int, cells[i].1 as int)
    &&& forall|x: int, y: int|
        in_bounds(n.level as int, x, y) && #[trigger] cell_of(nodes, n, x, y) ==> cells.contains(
            (x as i64, y as i64),
        )
    &&& cells.no_duplicates()
}

/// Adding an alive cell not yet listed keeps the list exact.
proof fn lemma_lists_push(
    nodes: Seq<Node>,
    n: Node,
    cells: Seq<(i64, i64)>,
    pred: spec_fn(int, int) -> bool,
    x: i64,
    y: i64,
    next: spec_fn(int, int) -> bool,
)
    requires
        lists_alive_in(nodes, n, cells, pred),
        in_bounds(n.level as int, x as int, y as int),
        cell_of(nodes, n, x as int, y as int),
        !pred(x as int, y as int),
        forall|a: int, b: int| #[trigger] next(a, b) == (pred(a, b) || (a == x && b == y)),
    ensures
        lists_alive_in(nodes, n, cells.push((x, y)), next),
{
    let s = cells.push((x, y));
    assert(s[cells.len() as int] == (x, y));
    assert forall|i: int| 0 <= i < s.len() implies in_bounds(n.level as int, #[trigger] s[i].0 as int, s[i].1 as int)
        && cell_of(nodes, n, s[i].0 as int, s[i].1 as int) && next(s[i].0 as int, s[i].1 as int) by {
        if i < cells.len() {
            assert(s[i] == cells[i]);
        }
    }
    assert forall|a: int, b: int| in_bounds(n.level as int, a, b) && #[trigger] cell_of(nodes, n, a, b)
        && next(a, b) implies s.contains((a as i64, b as i64)) by {
        if pred(a, b) {
            let j = choose|j: int| 0 <= j < cells.len() && cells[j] == (a as i64, b as i64);
            assert(s[j] == cells[j]);
        } else {
            assert(s[cells.len() as int] == (a as i64, b as i64));
        }
    }
    assert forall|i: int, k: int| 0 <= i < s.len() && 0 <= k < s.len() && i != k implies s[i] != s[k] by {
        if i < cells.len() && k < cells.len() {
            assert(s[i] == cells[i] && s[k] == cells[k]);
        } else if i < cells.len() {
            assert(s[i] == cells[i]);
            assert(pred(cells[i].0 as int, cells[i].1 as int));
        } else if k < cells.len() {
            assert(s[k] == cells[k]);
            assert(pred(cells[k].0 as int, cells[k].1 as int));
        }
    }
}

/// Passing over a dead cell keeps the list exact.
proof fn lemma_lists_skip(
    nodes: Seq<Node>,
    n: Node,
    cells: Seq<(i64, i64)>,
    pred: spec_fn(int, int) -> bool,
    x: int,
    y: int,
    next: spec_fn(int, int) -> bool,
)
    requires
        lists_alive_in(nodes, n, cells, pred),
        !(in_bounds(n.level as int, x, y) && cell_of(nodes, n, x, y)),
        forall|a: int, b: int| #[trigger] next(a, b) == (pred(a, b) || (a == x && b == y)),
    ensures
        lists_alive_in(nodes, n, cells, next),
{
}

/// A list exact for one condition is exact for any condition that agrees
/// with it on the alive cells of the node.
proof fn lemma_lists_same(
    nodes: Seq<Node>,
    n: Node,
    cells: Seq<(i64, i64)>,
    p1: spec_fn(int, int) -> bool,
    p2: spec_fn(int, int) -> bool,
)
    requires
        lists_alive_in(nodes, n, cells, p1),
        forall|a: int, b: int|
            in_bounds(n.level as int, a, b) ==> #[trigger] p1(a, b) == p2(a, b),
    ensures
        lists_alive_in(nodes, n, cells, p2),
{
    assert forall|i: int| 0 <= i < cells.len() implies in_bounds(n.level as int, #[trigger] cells[i].0 as int, cells[i].1 as int)
        && cell_of(nodes, n, cells[i].0 as int, cells[i].1 as int) && p2(cells[i].0 as int, cells[i].1 as int) by {
        assert(p1(cells[i].0 as int, cells[i].1 as int));
    }
    assert forall|x: int, y: int| in_bounds(n.level as int, x, y) && #[trigger] cell_of(nodes, n, x, y)
        && p2(x, y) implies cells.contains((x as i64, y as i64)) by {
        assert(p1(x, y));
    }
}

/// The quarter of a node fits comfortably in an `i64`.
proof fn lemma_quarter_bound(l: int)
    requires
        2 <= l <= MAX_LEVEL,
    ensures
        1 <= quarter(l) <= 0x4000_0000_0000_0000,
{
    lemma_quarter(l);
    crate::node::lemma_two_pow_monotonic((l - 2) as nat, 62);
    crate::node::cells::lemma_two_pow_62();
}

/// The cells listed in four parts, one per quadrant, each moved to the
/// coordinates of `n`, list the alive cells of `n` when each part lists the
/// alive cells of its quadrant.
proof fn lemma_alive_parts(
    nodes: Seq<Node>,
    n: Node,
    nw: Node,
    ne: Node,
    sw: Node,
    se: Node,
    c_nw: Seq<(i64, i64)>,
    c_ne: Seq<(i64, i64)>,
    c_sw: Seq<(i64, i64)>,
    c_se: Seq<(i64, i64)>,
    out: Seq<(i64, i64)>,
)
    requires
        2 <= n.level <= MAX_LEVEL,
        nw.level + 1 == n.level,
        ne.level + 1 == n.level,
        sw.level + 1 == n.level,
        se.level + 1 == n.level,
        shifted(nodes, n, nw, -quarter(n.level as int), -quarter(n.level as int)),
        shifted(nodes, n, ne, quarter(n.level as int), -quarter(n.level as int)),
        shifted(nodes, n, sw, -quarter(n.level as int), quarter(n.level as int)),
        shifted(nodes, n, se, quarter(n.level as int), quarter(n.level as int)),
        lists_alive(nodes, nw, c_nw),
        lists_alive(nodes, ne, c_ne),
        lists_alive(nodes, sw, c_sw),
        lists_alive(nodes, se, c_se),
        out.len() == c_nw.len() + c_ne.len() + c_sw.len() + c_se.len(),
        forall|j: int|
            0 <= j < c_nw.len() ==> #[trigger] out[j] == (
                (c_nw[j].0 - quarter(n.level as int)) as i64,
                (c_nw[j].1 - quarter(n.level as int)) as i64,
            ),
        forall|j: int|
            0 <= j < c_ne.len() ==> #[trigger] out[c_nw.len() + j] == (
                (c_ne[j].0 + quarter(n.level as int)) as i64,
                (c_ne[j].1 - quarter(n.level as int)) as i64,
            ),
        forall|j: int|
            0 <= j < c_sw.len() ==> #[trigger] out[c_nw.len() + c_ne.len() + j] == (
                (c_sw[j].0 - quarter(n.level as int)) as i64,
                (c_sw[j].1 + quarter(n.level as int)) as i64,
            ),
        forall|j: int|
            0 <= j < c_se.len() ==> #[trigger] out[c_nw.len() + c_ne.len() + c_sw.len() + j] == (
                (c_se[j].0 + quarter(n.level as int)) as i64,
                (c_se[j].1 + quarter(n.level as int)) as i64,
            ),
    ensures
        lists_alive(nodes, n, out),
{
    let l = n.level as int;
    let q = quarter(l);
    lemma_quarter(l);
    lemma_quarter_bound(l);
    let s1 = c_nw.len() as int;
    let s2 = s1 + c_ne.len();
    let s3 = s2 + c_sw.len();
    // where each listed cell comes from
    assert forall|i: int| 0 <= i < out.len() implies in_bounds(l, #[trigger] out[i].0 as int, out[i].1 as int)
        && cell_of(nodes, n, out[i].0 as int, out[i].1 as int)
        && (i < s1 ==> out[i].0 < 0 && out[i].1 < 0)
        && (s1 <= i < s2 ==> out[i].0 >= 0 && out[i].1 < 0)
        && (s2 <= i < s3 ==> out[i].0 < 0 && out[i].1 >= 0)
        && (s3 <= i ==> out[i].0 >= 0 && out[i].1 >= 0) by {
        if i < s1 {
            let j = i;
            let (a, b) = c_nw[j];
            assert(out[j] == ((a - q) as i64, (b - q) as i64));
            assert(in_bounds(l - 1, a as int, b as int));
            assert(cell_of(nodes, nw, a as int, b as int) == cell_of(nodes, n, a - q, b - q));
        } else if i < s2 {
            let j = i - s1;
            let (a, b) = c_ne[j];
            assert(out[s1 + j] == ((a + q) as i64, (b - q) as i64));
            assert(in_bounds(l - 1, a as int, b as int));
            assert(cell_of(nodes, ne, a as int, b as int) == cell_of(nodes, n, a + q, b - q));
        } else if i < s3 {
            let j = i - s2;
            let (a, b) = c_sw[j];
            assert(out[s2 + j] == ((a - q) as i64, (b + q) as i64));
            assert(in_bounds(l - 1, a as int, b as int));
            assert(cell_of(nodes, sw, a as int, b as int) == cell_of(nodes, n, a - q, b + q));
        } else {
            let j = i - s3;
            let (a, b) = c_se[j];
            assert(out[s3 + j] == ((a + q) as i64, (b + q) as i64));
            assert(in_bounds(l - 1, a as int, b as int));
            assert(cell_of(nodes, se, a as int, b as int) == cell_of(nodes, n, a + q, b + q));
        }
    }
    // every alive cell is listed
    assert forall|x: int, y: int| in_bounds(l, x, y) && #[trigger] cell_of(nodes, n, x, y) implies out.contains(
        (x as i64, y as i64),
    ) by {
        if x < 0 && y < 0 {
            assert(in_bounds(l - 1, x + q, y + q));
            assert(cell_of(nodes, nw, x + q, y + q) == cell_of(nodes, n, x, y));
            assert(c_nw.contains(((x + q) as i64, (y + q) as i64)));
            let j = choose|j: int| 0 <= j < c_nw.len() && c_nw[j] == ((x + q) as i64, (y + q) as i64);
            assert(out[j] == (x as i64, y as i64));
        } else if x >= 0 && y < 0 {
            assert(in_bounds(l - 1, x - q, y + q));
            assert(cell_of(nodes, ne, x - q, y + q) == cell_of(nodes, n, x, y));
            assert(c_ne.contains(((x - q) as i64, (y + q) as i64)));
            let j = choose|j: int| 0 <= j < c_ne.len() && c_ne[j] == ((x - q) as i64, (y + q) as i64);
            assert(out[s1 + j] == (x as i64, y as i64));
        } else if x < 0 && y >= 0 {
            assert(in_bounds(l - 1, x + q, y - q));
            assert(cell_of(nodes, sw, x + q, y - q) == cell_of(nodes, n, x, y));
            assert(c_sw.contains(((x + q) as i64, (y - q) as i64)));
            let j = choose|j: int| 0 <= j < c_sw.len() && c_sw[j] == ((x + q) as i64, (y - q) as i64);
            assert(out[s2 + j] == (x as i64, y as i64));
        } else {
            assert(in_bounds(l - 1, x - q, y - q));
            assert(cell_of(nodes, se, x - q, y - q) == cell_of(nodes, n, x, y));
            assert(c_se.contains(((x - q) as i64, (y - q) as i64)));
            let j = choose|j: int| 0 <= j < c_se.len() && c_se[j] == ((x - q) as i64, (y - q) as i64);
            assert(out[s3 + j] == (x as i64, y as i64));
        }
    }
    // no cell is listed twice
    assert forall|i: int, k: int| 0 <= i < out.len() && 0 <= k < out.len() && i != k implies out[i]
        != out[k] by {
        assert(in_bounds(l, out[i].0 as int, out[i].1 as int));
        assert(in_bounds(l, out[k].0 as int, out[k].1 as int));
        if i < s1 && k < s1 {
            assert(c_nw[i] != c_nw[k]);
            assert(in_bounds(l - 1, c_nw[i].0 as int, c_nw[i].1 as int));
            assert(in_bounds(l - 1, c_nw[k].0 as int, c_nw[k].1 as int));
        } else if s1 <= i < s2 && s1 <= k < s2 {
            assert(c_ne[i - s1] != c_ne[k - s1]);
            assert(in_bounds(l - 1, c_ne[i - s1].0 as int, c_ne[i - s1].1 as int));
            assert(in_bounds(l - 1, c_ne[k - s1].0 as int, c_ne[k - s1].1 as int));
            assert(out[s1 + (i - s1)] == out[i]);
            assert(out[s1 + (k - s1)] == out[k]);
        } else if s2 <= i < s3 && s2 <= k < s3 {
            assert(c_sw[i - s2] != c_sw[k - s2]);
            assert(in_bounds(l - 1, c_sw[i - s2].0 as int, c_sw[i - s2].1 as int));
            assert(in_bounds(l - 1, c_sw[k - s2].0 as int, c_sw[k - s2].1 as int));
            assert(out[s2 + (i - s2)] == out[i]);
            assert(out[s2 + (k - s2)] == out[k]);
        } else if s3 <= i && s3 <= k {
            assert(c_se[i - s3] != c_se[k - s3]);
            assert(in_bounds(l - 1, c_se[i - s3].0 as int, c_se[i - s3].1 as int));
            assert(in_bounds(l - 1, c_se[k - s3].0 as int, c_se[k - s3].1 as int));
            assert(out[s3 + (i - s3)] == out[i]);
            assert(out[s3 + (k - s3)] == out[k]);
        }
    }
}

impl Node {
    /// Returns the coordinates of the alive cells of the node, each once.
    pub fn get_alive_cells(&self, store: &Store) -> (alive_cells: Vec<(i64, i64)>)
        requires
            store.wf(),
            store.valid(*self),
        ensures
            lists_alive(store.nodes(), *self, alive_cells@),
        decreases self.level,
    {
        let ghost nodes = store.nodes();
        proof {
            lemma_stored(nodes, *self);
        }
        match self.base {
            NodeBase::Leaf { alive } => {
                if alive {
                    let v = vec![(0i64, 0i64)];
                    assert(v@[0] == (0i64, 0i64));
                    v
                } else {
                    Vec::new()
                }
            },
            NodeBase::LevelOne { cells } => {
                proof {
                    crate::node::cells::lemma_mask_bits(cells);
                    reveal_with_fuel(two_pow, 2);
                }
                let ghost p0 = |a: int, b: int| false;
                let ghost p1 = |a: int, b: int| a == 0 && b == -1;
                let ghost p2 = |a: int, b: int| (a == 0 && b == -1) || (a == -1 && b == -1);
                let ghost p3 = |a: int, b: int| (a == 0 && b == -1) || (a == -1 && b == -1) || (a == 0 && b == 0);
                let ghost p4 = |a: int, b: int| (a == 0 && b == -1) || (a == -1 && b == -1) || (a == 0 && b == 0) || (a == -1 && b == 0);
                let mut alive_cells: Vec<(i64, i64)> = Vec::with_capacity(
                    self.population(store) as usize,
                );
                assert(lists_alive_in(nodes, *self, alive_cells@, p0));
                if cells & LEVEL_ONE_NE_MASK > 0 {
                    proof { lemma_lists_push(nodes, *self, alive_cells@, p0, 0i64, -1i64, p1); }
                    alive_cells.push((0, -1));
                } else {
                    proof { lemma_lists_skip(nodes, *self, alive_cells@, p0, 0, -1, p1); }
                }
                if cells & LEVEL_ONE_NW_MASK > 0 {
                    proof { lemma_lists_push(nodes, *self, alive_cells@, p1, -1i64, -1i64, p2); }
                    alive_cells.push((-1, -1));
                } else {
                    proof { lemma_lists_skip(nodes, *self, alive_cells@, p1, -1, -1, p2); }
                }
                if cells & LEVEL_ONE_SE_MASK > 0 {
                    proof { lemma_lists_push(nodes, *self, alive_cells@, p2, 0i64, 0i64, p3); }
                    alive_cells.push((0, 0));
                } else {
                    proof { lemma_lists_skip(nodes, *self, alive_cells@, p2, 0, 0, p3); }
                }
                if cells & LEVEL_ONE_SW_MASK > 0 {
                    proof { lemma_lists_push(nodes, *self, alive_cells@, p3, -1i64, 0i64, p4); }
                    alive_cells.push((-1, 0));
                } else {
                    proof { lemma_lists_skip(nodes, *self, alive_cells@, p3, -1, 0, p4); }
                }
                proof {
                    lemma_lists_same(nodes, *self, alive_cells@, p4, |a: int, b: int| true);
                }
                alive_cells
            },
            NodeBase::LevelTwo { cells, .. } => {
                proof {
                    reveal_with_fuel(two_pow, 2);
                    lemma_lists_same(nodes, *self, Seq::empty(), |a: int, b: int| false, |a: int, b: int| a < -2);
                }
                let mut alive_cells: Vec<(i64, i64)> = Vec::with_capacity(
                    self.population(store) as usize,
                );
                let mut x: i64 = -2;
                while x <= 1
                    invariant
                        -2 <= x <= 2,
                        nodes == store.nodes(),
                        self.base == (NodeBase::LevelTwo { cells, index: crate::node::index_of(*self) }),
                        self.level == 2,
                        lists_alive_in(nodes, *self, alive_cells@, |a: int, b: int| a < x),
                    decreases 2 - x,
                {
                    let mut y: i64 = -2;
                    proof {
                        reveal_with_fuel(two_pow, 2);
                        lemma_lists_same(nodes, *self, alive_cells@, |a: int, b: int| a < x, |a: int, b: int| a < x || (a == x && b < y));
                    }
                    while y <= 1
                        invariant
                            -2 <= x <= 1,
                            -2 <= y <= 2,
                            nodes == store.nodes(),
                            self.base == (NodeBase::LevelTwo { cells, index: crate::node::index_of(*self) }),
                            self.level == 2,
                            lists_alive_in(nodes, *self, alive_cells@, |a: int, b: int| a < x || (a == x && b < y)),
                        decreases 2 - y,
                    {
                        let k: u16 = (15 - ((4 * (y + 2)) + (x + 2))) as u16;
                        let ghost pred = |a: int, b: int| a < x || (a == x && b < y);
                        let ghost next = |a: int, b: int| pred(a, b) || (a == x && b == y);
                        proof {
                            reveal_with_fuel(two_pow, 2);
                            crate::node::cells::lemma_bit16_mask(cells, k);
                            assert(k == level_two_bit_index(x as int, y as int));
                        }
                        if cells & (1u16 << k) > 0 {
                            proof {
                                lemma_lists_push(nodes, *self, alive_cells@, pred, x, y, next);
                            }
                            alive_cells.push((x, y));
                        } else {
                            proof {
                                lemma_lists_skip(nodes, *self, alive_cells@, pred, x as int, y as int, next);
                            }
                        }
                        proof {
                            reveal_with_fuel(two_pow, 2);
                            lemma_lists_same(nodes, *self, alive_cells@, next, |a: int, b: int| a < x || (a == x && b < y + 1));
                        }
                        y = y + 1;
                    }
                    proof {
                        reveal_with_fuel(two_pow, 2);
                        lemma_lists_same(nodes, *self, alive_cells@, |a: int, b: int| a < x || (a == x && b < y), |a: int, b: int| a < x + 1);
                    }
                    x = x + 1;
                }
                proof {
                    reveal_with_fuel(two_pow, 2);
                    lemma_lists_same(nodes, *self, alive_cells@, |a: int, b: int| a < x, |a: int, b: int| true);
                }
                alive_cells
            },
            NodeBase::Interior { .. } => {
                let pop = self.population(store);
                let mut alive_cells: Vec<(i64, i64)> = Vec::with_capacity(pop as usize);
                if pop > 0 {
                    let l = self.level;
                    let offset = quarter_i64(l);
                    let nw = self.nw(store);
                    let ne = self.ne(store);
                    let sw = self.sw(store);
                    let se = self.se(store);
                    let c_nw = nw.get_alive_cells(store);
                    let c_ne = ne.get_alive_cells(store);
                    let c_sw = sw.get_alive_cells(store);
                    let c_se = se.get_alive_cells(store);
                    proof {
                        lemma_quarter(l as int);
                        lemma_quarter_bound(l as int);
                        assert forall|j: int| 0 <= j < c_nw.len() implies in_bounds(l - 1, #[trigger] c_nw@[j].0 as int, c_nw@[j].1 as int) by {}
                        assert forall|j: int| 0 <= j < c_ne.len() implies in_bounds(l - 1, #[trigger] c_ne@[j].0 as int, c_ne@[j].1 as int) by {}
                        assert forall|j: int| 0 <= j < c_sw.len() implies in_bounds(l - 1, #[trigger] c_sw@[j].0 as int, c_sw@[j].1 as int) by {}
                        assert forall|j: int| 0 <= j < c_se.len() implies in_bounds(l - 1, #[trigger] c_se@[j].0 as int, c_se@[j].1 as int) by {}
                    }
                    extend_offset(&mut alive_cells, &c_nw, -offset, -offset);
                    let ghost a1 = alive_cells@;
                    extend_offset(&mut alive_cells, &c_ne, offset, -offset);
                    let ghost a2 = alive_cells@;
                    extend_offset(&mut alive_cells, &c_sw, -offset, offset);
                    let ghost a3 = alive_cells@;
                    extend_offset(&mut alive_cells, &c_se, offset, offset);
                    proof {
                        let out = alive_cells@;
                        let q = quarter(l as int);
                        assert forall|j: int| 0 <= j < c_nw.len() implies #[trigger] out[j] == (
                            (c_nw@[j].0 - q) as i64,
                            (c_nw@[j].1 - q) as i64,
                        ) by {
                            assert(a2[j] == a1[j]);
                            assert(a3[j] == a2[j]);
                            assert(out[j] == a3[j]);
                            assert(a1[0 + j] == a1[j]);
                        }
                        assert forall|j: int| 0 <= j < c_ne.len() implies #[trigger] out[c_nw.len() + j] == (
                            (c_ne@[j].0 + q) as i64,
                            (c_ne@[j].1 - q) as i64,
                        ) by {
                            assert(a3[c_nw.len() + j] == a2[c_nw.len() + j]);
                            assert(out[c_nw.len() + j] == a3[c_nw.len() + j]);
                        }
                        assert forall|j: int| 0 <= j < c_sw.len() implies #[trigger] out[c_nw.len() + c_ne.len() + j] == (
                            (c_sw@[j].0 - q) as i64,
                            (c_sw@[j].1 + q) as i64,
                        ) by {
                            assert(out[c_nw.len() + c_ne.len() + j] == a3[c_nw.len() + c_ne.len() + j]);
                        }
                        lemma_alive_parts(nodes, *self, nw, ne, sw, se, c_nw@, c_ne@, c_sw@, c_se@, out);
                    }
                } else {
                    proof {
                        lemma_pop_zero(nodes, *self);
                    }
                }
                alive_cells
            },
        }
    }
}


/// Whether `n` has an alive cell in the rectangle from `(x0, y0)` to
/// `(x1, y1)`, corners included.
pub open spec fn has_alive_in(nodes: Seq<Node>, n: Node, x0: int, y0: int, x1: int, y1: int) -> bool {
    exists|x: int, y: int|
        x0 <= x <= x1 && y0 <= y <= y1 && in_bounds(n.level as int, x, y) && #[trigger] cell_of(
            nodes,
            n,
            x,
            y,
        )
}

/// The larger of two integers.
pub open spec fn max_of(a: int, b: int) -> int {
    if a < b {
        b
    } else {
        a
    }
}

/// The smaller of two integers.
pub open spec fn min_of(a: int, b: int) -> int {
    if a < b {
        a
    } else {
        b
    }
}

impl Node {
    /// Returns whether the node has an alive cell in the rectangle from `min`
    /// to `max`, both corners included and within the node.
    pub fn contains_alive_cells(&self, store: &Store, min: (i64, i64), max: (i64, i64)) -> (found: bool)
        requires
            store.wf(),
            store.valid(*self),
            in_bounds(self.level as int, min.0 as int, min.1 as int),
            in_bounds(self.level as int, max.0 as int, max.1 as int),
            min.0 <= max.0,
            min.1 <= max.1,
        ensures
            found == has_alive_in(store.nodes(), *self, min.0 as int, min.1 as int, max.0 as int, max.1 as int),
        decreases self.level, 1nat,
    {
        let ghost nodes = store.nodes();
        proof {
            lemma_stored(nodes, *self);
        }
        if self.population(store) == 0 {
            proof {
                lemma_pop_zero(nodes, *self);
            }
            return false;
        }
        match self.base {
            NodeBase::Leaf { alive } => {
                proof {
                    if alive {
                        assert(cell_of(nodes, *self, 0, 0));
                    }
                }
                alive
            },
            NodeBase::LevelOne { cells } => {
                proof {
                    crate::node::cells::lemma_mask_bits(cells);
                    reveal_with_fuel(two_pow, 2);
                }
                let nw = min.0 < 0 && min.1 < 0 && cells & LEVEL_ONE_NW_MASK > 0;
                let ne = max.0 >= 0 && min.1 < 0 && cells & LEVEL_ONE_NE_MASK > 0;
                let sw = min.0 < 0 && max.1 >= 0 && cells & LEVEL_ONE_SW_MASK > 0;
                let se = max.0 >= 0 && max.1 >= 0 && cells & LEVEL_ONE_SE_MASK > 0;
                proof {
                    assert(nw ==> cell_of(nodes, *self, -1, -1));
                    assert(ne ==> cell_of(nodes, *self, 0, -1));
                    assert(sw ==> cell_of(nodes, *self, -1, 0));
                    assert(se ==> cell_of(nodes, *self, 0, 0));
                }
                nw || ne || sw || se
            },
            _ => {
                let ghost l = self.level as int;
                let offset = quarter_i64(self.level);
                proof {
                    lemma_quarter(l);
                    lemma_quarter_bound(l);
                }
                let found_nw = Self::contains_in_quadrant(&self.nw(store), store, min, max, -offset, -offset, Ghost(*self));
                let found_ne = Self::contains_in_quadrant(&self.ne(store), store, min, max, offset, -offset, Ghost(*self));
                let found_sw = Self::contains_in_quadrant(&self.sw(store), store, min, max, -offset, offset, Ghost(*self));
                let found_se = Self::contains_in_quadrant(&self.se(store), store, min, max, offset, offset, Ghost(*self));
                proof {
                    let q = quarter(l);
                    let (x0, y0, x1, y1) = (min.0 as int, min.1 as int, max.0 as int, max.1 as int);
                    if has_alive_in(nodes, *self, x0, y0, x1, y1) {
                        let (x, y) = choose|x: int, y: int|
                            x0 <= x <= x1 && y0 <= y <= y1 && in_bounds(l, x, y) && #[trigger] cell_of(nodes, *self, x, y);
                        if x < 0 && y < 0 {
                            assert(has_alive_in(nodes, *self, max_of(x0, -2 * q), max_of(y0, -2 * q), min_of(x1, -1), min_of(y1, -1)));
                        } else if x >= 0 && y < 0 {
                            assert(has_alive_in(nodes, *self, max_of(x0, 0), max_of(y0, -2 * q), min_of(x1, 2 * q - 1), min_of(y1, -1)));
                        } else if x < 0 && y >= 0 {
                            assert(has_alive_in(nodes, *self, max_of(x0, -2 * q), max_of(y0, 0), min_of(x1, -1), min_of(y1, 2 * q - 1)));
                        } else {
                            assert(has_alive_in(nodes, *self, max_of(x0, 0), max_of(y0, 0), min_of(x1, 2 * q - 1), min_of(y1, 2 * q - 1)));
                        }
                    }
                }
                found_nw || found_ne || found_sw || found_se
            },
        }
    }

    /// Whether the quadrant `c` of the node `n`, whose center lies at
    /// `(dx, dy)` in `n`, has an alive cell in the part of the rectangle from
    /// `min` to `max` that it covers.
    fn contains_in_quadrant(
        c: &Node,
        store: &Store,
        min: (i64, i64),
        max: (i64, i64),
        dx: i64,
        dy: i64,
        Ghost(n): Ghost<Node>,
    ) -> (found: bool)
        requires
            store.wf(),
            store.valid(*c),
            n.level == c.level + 1,
            2 <= n.level <= MAX_LEVEL,
            dx == quarter(n.level as int) || dx == -quarter(n.level as int),
            dy == quarter(n.level as int) || dy == -quarter(n.level as int),
            quarter(n.level as int) <= 0x4000_0000_0000_0000,
            shifted(store.nodes(), n, *c, dx as int, dy as int),
        ensures
            found == has_alive_in(
                store.nodes(),
                n,
                max_of(min.0 as int, dx - quarter(n.level as int)),
                max_of(min.1 as int, dy - quarter(n.level as int)),
                min_of(max.0 as int, dx + quarter(n.level as int) - 1),
                min_of(max.1 as int, dy + quarter(n.level as int) - 1),
            ),
        decreases c.level + 1, 0nat,
    {
        let ghost nodes = store.nodes();
        let ghost l = n.level as int;
        let ghost q = quarter(l);
        proof {
            lemma_quarter(l);
        }
        let offset = if dx < 0 {
            -dx
        } else {
            dx
        };
        let lo_x = if min.0 < dx - offset {
            dx - offset
        } else {
            min.0
        };
        let lo_y = if min.1 < dy - offset {
            dy - offset
        } else {
            min.1
        };
        let hi_x = if max.0 > dx - 1 + offset {
            dx - 1 + offset
        } else {
            max.0
        };
        let hi_y = if max.1 > dy - 1 + offset {
            dy - 1 + offset
        } else {
            max.1
        };
        if lo_x > hi_x || lo_y > hi_y {
            return false;
        }
        let found = c.contains_alive_cells(store, (lo_x - dx, lo_y - dy), (hi_x - dx, hi_y - dy));
        proof {
            lemma_quadrant_query(nodes, n, *c, dx as int, dy as int, lo_x as int, lo_y as int, hi_x as int, hi_y as int);
        }
        found
    }
}

/// A query on a quadrant, in its own coordinates, answers the query on the
/// part of its parent that it covers.
proof fn lemma_quadrant_query(nodes: Seq<Node>, n: Node, c: Node, dx: int, dy: int, x0: int, y0: int, x1: int, y1: int)
    requires
        n.level == c.level + 1,
        2 <= n.level <= MAX_LEVEL,
        dx == quarter(n.level as int) || dx == -quarter(n.level as int),
        dy == quarter(n.level as int) || dy == -quarter(n.level as int),
        shifted(nodes, n, c, dx, dy),
        dx - quarter(n.level as int) <= x0,
        x1 <= dx + quarter(n.level as int) - 1,
        dy - quarter(n.level as int) <= y0,
        y1 <= dy + quarter(n.level as int) - 1,
    ensures
        has_alive_in(nodes, c, x0 - dx, y0 - dy, x1 - dx, y1 - dy) == has_alive_in(nodes, n, x0, y0, x1, y1),
{
    let l = n.level as int;
    lemma_quarter(l);
    {
            if has_alive_in(nodes, c, x0 - dx, y0 - dy, x1 - dx, y1 - dy) {
                let (a, b) = choose|a: int, b: int|
                    x0 - dx <= a <= x1 - dx && y0 - dy <= b <= y1 - dy && in_bounds(l - 1, a, b)
                        && #[trigger] cell_of(nodes, c, a, b);
                assert(cell_of(nodes, n, a + dx, b + dy));
                assert(in_bounds(l, a + dx, b + dy));
            }
            if has_alive_in(nodes, n, x0, y0, x1, y1) {
                let (x, y) = choose|x: int, y: int|
                    x0 <= x <= x1 && y0 <= y <= y1 && in_bounds(l, x, y) && #[trigger] cell_of(nodes, n, x, y);
                assert(in_bounds(l - 1, x - dx, y - dy));
                assert(cell_of(nodes, c, x - dx, y - dy) == cell_of(nodes, n, x - dx + dx, y - dy + dy));
                assert(has_alive_in(nodes, c, x0 - dx, y0 - dy, x1 - dx, y1 - dy));
            }
    }
}


/// Moves the coordinates whose `x` is below `pivot` to the front, the others
/// after them, and returns how many there are.
pub fn partition_horiz(coords: &mut [(i64, i64)], pivot: i64) -> (cutoff: usize)
    ensures
        final(coords)@.len() == old(coords)@.len(),
        final(coords)@.to_multiset() == old(coords)@.to_multiset(),
        cutoff <= final(coords)@.len(),
        forall|i: int| 0 <= i < cutoff ==> #[trigger] final(coords)@[i].0 < pivot,
        forall|i: int| cutoff <= i < final(coords)@.len() ==> #[trigger] final(coords)@[i].0 >= pivot,
{
    broadcast use vstd::seq_lib::group_to_multiset_ensures, vstd::multiset::group_multiset_axioms;

    let mut next_index: usize = 0;
    let mut i: usize = 0;
    while i < coords.len()
        invariant
            next_index <= i <= coords@.len(),
            coords@.len() == old(coords)@.len(),
            coords@.to_multiset() == old(coords)@.to_multiset(),
            forall|k: int| 0 <= k < next_index ==> #[trigger] coords@[k].0 < pivot,
            forall|k: int| next_index <= k < i ==> #[trigger] coords@[k].0 >= pivot,
        decreases coords@.len() - i,
    {
        if coords[i].0 < pivot {
            let ghost s = coords@;
            let moved = coords[i];
            let other = coords[next_index];
            coords[i] = other;
            coords[next_index] = moved;
            proof {
                let s1 = s.update(i as int, other);
                vstd::seq_lib::to_multiset_update(s, i as int, other);
                vstd::seq_lib::to_multiset_update(s1, next_index as int, moved);
                assert(s1.to_multiset() == s.to_multiset().insert(other).remove(moved));
                assert(coords@ == s1.update(next_index as int, moved));
                assert(coords@.to_multiset() == s1.to_multiset().insert(moved).remove(s1[next_index as int]));
                assert(s1[next_index as int] == other);
                assert(s[i as int] == moved);
                vstd::seq_lib::to_multiset_contains(s, moved);
                let m0 = s.to_multiset();
                let m1 = m0.insert(other).remove(moved);
                assert(m1.insert(moved).remove(other) =~= m0);
                assert(coords@.to_multiset() =~= s.to_multiset());
            }
            next_index = next_index + 1;
        }
        i = i + 1;
    }
    next_index
}

/// Moves the coordinates whose `y` is below `pivot` to the front, the others
/// after them, and returns how many there are.
pub fn partition_vert(coords: &mut [(i64, i64)], pivot: i64) -> (cutoff: usize)
    ensures
        final(coords)@.len() == old(coords)@.len(),
        final(coords)@.to_multiset() == old(coords)@.to_multiset(),
        cutoff <= final(coords)@.len(),
        forall|i: int| 0 <= i < cutoff ==> #[trigger] final(coords)@[i].1 < pivot,
        forall|i: int| cutoff <= i < final(coords)@.len() ==> #[trigger] final(coords)@[i].1 >= pivot,
{
    broadcast use vstd::seq_lib::group_to_multiset_ensures, vstd::multiset::group_multiset_axioms;

    let mut next_index: usize = 0;
    let mut i: usize = 0;
    while i < coords.len()
        invariant
            next_index <= i <= coords@.len(),
            coords@.len() == old(coords)@.len(),
            coords@.to_multiset() == old(coords)@.to_multiset(),
            forall|k: int| 0 <= k < next_index ==> #[trigger] coords@[k].1 < pivot,
            forall|k: int| next_index <= k < i ==> #[trigger] coords@[k].1 >= pivot,
        decreases coords@.len() - i,
    {
        if coords[i].1 < pivot {
            let ghost s = coords@;
            let moved = coords[i];
            let other = coords[next_index];
            coords[i] = other;
            coords[next_index] = moved;
            proof {
                let s1 = s.update(i as int, other);
                vstd::seq_lib::to_multiset_update(s, i as int, other);
                vstd::seq_lib::to_multiset_update(s1, next_index as int, moved);
                assert(s1.to_multiset() == s.to_multiset().insert(other).remove(moved));
                assert(coords@ == s1.update(next_index as int, moved));
                assert(coords@.to_multiset() == s1.to_multiset().insert(moved).remove(s1[next_index as int]));
                assert(s1[next_index as int] == other);
                assert(s[i as int] == moved);
                vstd::seq_lib::to_multiset_contains(s, moved);
                let m0 = s.to_multiset();
                let m1 = m0.insert(other).remove(moved);
                assert(m1.insert(moved).remove(other) =~= m0);
                assert(coords@.to_multiset() =~= s.to_multiset());
            }
            next_index = next_index + 1;
        }
        i = i + 1;
    }
    next_index
}


/// Whether `(x, y)` is among `coords`.
pub open spec fn listed(coords: Seq<(i64, i64)>, x: int, y: int) -> bool {
    exists|i: int| 0 <= i < coords.len() && coords[i].0 == x && #[trigger] coords[i].1 == y
}

/// Reordering a list of coordinates changes nothing about which are listed.
proof fn lemma_listed_perm(s: Seq<(i64, i64)>, t: Seq<(i64, i64)>, x: int, y: int)
    requires
        s.to_multiset() == t.to_multiset(),
    ensures
        listed(s, x, y) == listed(t, x, y),
{
    if listed(s, x, y) {
        let i = choose|i: int| 0 <= i < s.len() && s[i].0 == x && #[trigger] s[i].1 == y;
        vstd::seq_lib::to_multiset_contains(s, s[i]);
        vstd::seq_lib::to_multiset_contains(t, s[i]);
        let j = choose|j: int| 0 <= j < t.len() && t[j] == s[i];
        assert(t[j].1 == y);
    }
    if listed(t, x, y) {
        let i = choose|i: int| 0 <= i < t.len() && t[i].0 == x && #[trigger] t[i].1 == y;
        vstd::seq_lib::to_multiset_contains(t, t[i]);
        vstd::seq_lib::to_multiset_contains(s, t[i]);
        let j = choose|j: int| 0 <= j < s.len() && s[j] == t[i];
        assert(s[j].1 == y);
    }
}

/// A property of every listed coordinate holds after reordering.
proof fn lemma_perm_all(s: Seq<(i64, i64)>, t: Seq<(i64, i64)>, p: spec_fn((i64, i64)) -> bool)
    requires
        s.to_multiset() == t.to_multiset(),
        forall|i: int| 0 <= i < t.len() ==> #[trigger] p(t[i]),
    ensures
        forall|i: int| 0 <= i < s.len() ==> #[trigger] p(s[i]),
{
    assert forall|i: int| 0 <= i < s.len() implies #[trigger] p(s[i]) by {
        vstd::seq_lib::to_multiset_contains(s, s[i]);
        vstd::seq_lib::to_multiset_contains(t, s[i]);
        let j = choose|j: int| 0 <= j < t.len() && t[j] == s[i];
        assert(p(t[j]));
    }
}

/// The coordinates listed in a split list are those listed in either part.
proof fn lemma_listed_split(s: Seq<(i64, i64)>, k: int, x: int, y: int)
    requires
        0 <= k <= s.len(),
    ensures
        listed(s, x, y) == (listed(s.subrange(0, k), x, y) || listed(s.subrange(k, s.len() as int), x, y)),
{
    let a = s.subrange(0, k);
    let b = s.subrange(k, s.len() as int);
    if listed(s, x, y) {
        let i = choose|i: int| 0 <= i < s.len() && s[i].0 == x && #[trigger] s[i].1 == y;
        if i < k {
            assert(a[i] == s[i]);
        } else {
            assert(b[i - k] == s[i]);
        }
    }
    if listed(a, x, y) {
        let i = choose|i: int| 0 <= i < a.len() && a[i].0 == x && #[trigger] a[i].1 == y;
        assert(s[i] == a[i]);
    }
    if listed(b, x, y) {
        let i = choose|i: int| 0 <= i < b.len() && b[i].0 == x && #[trigger] b[i].1 == y;
        assert(s[k + i] == b[i]);
    }
}

impl Node {
    /// Sets the cells at the given coordinates alive, all of which must lie
    /// within the node; the coordinates are reordered.
    pub fn set_cells_alive(&self, store: &mut Store, coords: &mut [(i64, i64)]) -> (node: Node)
        requires
            old(store).wf(),
            old(store).valid(*self),
            forall|i: int|
                0 <= i < old(coords)@.len() ==> in_bounds(
                    self.level as int,
                    #[trigger] old(coords)@[i].0 as int,
                    old(coords)@[i].1 as int,
                ),
            old(store).pop(*self) + old(coords)@.len() <= u128::MAX,
        ensures
            final(store).wf(),
            extends(old(store).nodes(), final(store).nodes()),
            final(store).valid(node),
            node.level == self.level,
            forall|a: int, b: int|
                in_bounds(self.level as int, a, b) ==> #[trigger] final(store).cell(node, a, b) == (
                old(store).cell(*self, a, b) || listed(old(coords)@, a, b)),
            final(store).pop(node) <= old(store).pop(*self) + old(coords)@.len(),
            final(coords)@.to_multiset() == old(coords)@.to_multiset(),
    {
        proof {
            lemma_stored(store.nodes(), *self);
            crate::node::cells::lemma_coords_fit(self.level as int);
        }
        self.set_cells_alive_recursive(store, coords, 0, 0)
    }

    /// Sets alive the cells at the given coordinates, moved by
    /// `(-offset_x, -offset_y)` into the coordinates of this node.
    fn set_cells_alive_recursive(
        &self,
        store: &mut Store,
        coords: &mut [(i64, i64)],
        offset_x: i64,
        offset_y: i64,
    ) -> (node: Node)
        requires
            old(store).wf(),
            old(store).valid(*self),
            forall|i: int|
                0 <= i < old(coords)@.len() ==> in_bounds(
                    self.level as int,
                    #[trigger] old(coords)@[i].0 - offset_x,
                    old(coords)@[i].1 - offset_y,
                ),
            old(store).pop(*self) + old(coords)@.len() <= u128::MAX,
            i64::MIN <= offset_x + crate::node::min_coord_of(self.level as int),
            offset_x + crate::node::max_coord_of(self.level as int) <= i64::MAX,
            i64::MIN <= offset_y + crate::node::min_coord_of(self.level as int),
            offset_y + crate::node::max_coord_of(self.level as int) <= i64::MAX,
        ensures
            final(store).wf(),
            extends(old(store).nodes(), final(store).nodes()),
            final(store).valid(node),
            node.level == self.level,
            forall|a: int, b: int|
                in_bounds(self.level as int, a, b) ==> #[trigger] final(store).cell(node, a, b) == (
                old(store).cell(*self, a, b) || listed(old(coords)@, a + offset_x, b + offset_y)),
            final(store).pop(node) <= old(store).pop(*self) + old(coords)@.len(),
            final(coords)@.to_multiset() == old(coords)@.to_multiset(),
        decreases self.level, 1nat,
    {
        let ghost n0 = store.nodes();
        let ghost c0 = coords@;
        proof {
            lemma_stored(n0, *self);
        }
        if coords.len() == 0 {
            return *self;
        }
        match self.base {
            NodeBase::Leaf { .. } => {
                proof {
                    assert(in_bounds(0, c0[0].0 - offset_x, c0[0].1 - offset_y));
                    assert(listed(c0, offset_x as int, offset_y as int));
                }
                store.create_leaf(Cell::Alive)
            },
            NodeBase::LevelOne { .. } => self.set_cells_alive_level_one(store, coords, offset_x, offset_y),
            NodeBase::LevelTwo { .. } => self.set_cells_alive_level_two(store, coords, offset_x, offset_y),
            NodeBase::Interior { .. } => self.set_cells_alive_interior(store, coords, offset_x, offset_y),
        }
    }

    /// Sets alive cells of a level one node.
    fn set_cells_alive_level_one(
        &self,
        store: &mut Store,
        coords: &mut [(i64, i64)],
        offset_x: i64,
        offset_y: i64,
    ) -> (node: Node)
        requires
            old(store).wf(),
            self.base is LevelOne,
            old(coords)@.len() > 0,
            old(store).valid(*self),
            forall|i: int|
                0 <= i < old(coords)@.len() ==> in_bounds(
                    self.level as int,
                    #[trigger] old(coords)@[i].0 - offset_x,
                    old(coords)@[i].1 - offset_y,
                ),
            old(store).pop(*self) + old(coords)@.len() <= u128::MAX,
            i64::MIN <= offset_x + crate::node::min_coord_of(self.level as int),
            offset_x + crate::node::max_coord_of(self.level as int) <= i64::MAX,
            i64::MIN <= offset_y + crate::node::min_coord_of(self.level as int),
            offset_y + crate::node::max_coord_of(self.level as int) <= i64::MAX,
        ensures
            final(store).wf(),
            extends(old(store).nodes(), final(store).nodes()),
            final(store).valid(node),
            node.level == self.level,
            forall|a: int, b: int|
                in_bounds(self.level as int, a, b) ==> #[trigger] final(store).cell(node, a, b) == (
                old(store).cell(*self, a, b) || listed(old(coords)@, a + offset_x, b + offset_y)),
            final(store).pop(node) <= old(store).pop(*self) + old(coords)@.len(),
            final(coords)@.to_multiset() == old(coords)@.to_multiset(),
        decreases self.level, 0nat,
    {
        let ghost n0 = store.nodes();
        let ghost c0 = coords@;
        proof {
            lemma_stored(n0, *self);
        }
        let cells = match self.base {
            NodeBase::LevelOne { cells } => cells,
            _ => 0,
        };
        proof {
            reveal_with_fuel(two_pow, 2);
        }
        let mut new_cells = cells;
        let mut i: usize = 0;
        while i < coords.len()
            invariant
                0 <= i <= coords@.len(),
                coords@ == c0,
                n0 == store.nodes(),
                self.base == (NodeBase::LevelOne { cells }),
                self.level == 1,
                crate::node::level_one_cells_ok(cells),
                crate::node::level_one_cells_ok(new_cells),
                forall|j: int|
                    0 <= j < c0.len() ==> in_bounds(1, #[trigger] c0[j].0 - offset_x, c0[j].1 - offset_y),
                forall|a: int, b: int|
                    in_bounds(1, a, b) ==> #[trigger] bit8(new_cells, level_one_bit_index(a, b)) == (
                    bit8(cells, level_one_bit_index(a, b)) || listed(c0.subrange(0, i as int), a + offset_x, b + offset_y)),
                crate::node::count8(new_cells, 8) <= crate::node::count8(cells, 8) + i,
            decreases coords@.len() - i,
        {
            let (x, y) = coords[i];
            proof {
                reveal_with_fuel(two_pow, 2);
                assert(in_bounds(1, c0[i as int].0 - offset_x, c0[i as int].1 - offset_y));
            }
            let mask = if x - offset_x < 0 && y - offset_y < 0 {
                LEVEL_ONE_NW_MASK
            } else if x - offset_x < 0 {
                LEVEL_ONE_SW_MASK
            } else if y - offset_y < 0 {
                LEVEL_ONE_NE_MASK
            } else {
                LEVEL_ONE_SE_MASK
            };
            let ghost before = new_cells;
            new_cells = new_cells | mask;
            proof {
                let k = level_one_bit_index(x - offset_x, y - offset_y);
                assert(mask == 1u8 << k) by {
                    assert(1u8 << 5u8 == 0x20u8 && 1u8 << 4u8 == 0x10u8 && 1u8 << 1u8 == 0x02u8 && 1u8 << 0u8 == 0x01u8) by (bit_vector);
                }
                assert(crate::node::level_one_cells_ok(new_cells)) by (bit_vector)
                    requires
                        before & 0b1100_1100u8 == 0u8,
                        k == 0 || k == 1 || k == 4 || k == 5,
                        new_cells == before | (1u8 << k),
                ;
                lemma_count8(before);
                lemma_count8(new_cells);
                crate::node::cells::lemma_bit8_update(before, k, 0);
                crate::node::cells::lemma_bit8_update(before, k, 1);
                crate::node::cells::lemma_bit8_update(before, k, 4);
                crate::node::cells::lemma_bit8_update(before, k, 5);
                assert forall|a: int, b: int| in_bounds(1, a, b) implies #[trigger] bit8(new_cells, level_one_bit_index(a, b)) == (
                    bit8(cells, level_one_bit_index(a, b)) || listed(c0.subrange(0, i + 1), a + offset_x, b + offset_y)) by {
                    lemma_listed_split(c0.subrange(0, i + 1), i as int, a + offset_x, b + offset_y);
                    assert(c0.subrange(0, i + 1).subrange(0, i as int) == c0.subrange(0, i as int));
                    let last = c0.subrange(0, i + 1).subrange(i as int, i + 1);
                    assert(last[0] == (x, y));
                    if listed(last, a + offset_x, b + offset_y) {
                        let j = choose|j: int| 0 <= j < last.len() && last[j].0 == a + offset_x && #[trigger] last[j].1 == b + offset_y;
                        assert(j == 0);
                    }
                    if a + offset_x == x && b + offset_y == y {
                        assert(last[0].1 == b + offset_y);
                    }
                }
            }
            i = i + 1;
        }
        proof {
            assert(c0.subrange(0, c0.len() as int) == c0);
        }
        store.create_level_one_from_cells(new_cells)
    }

    /// Sets alive cells of a level two node.
    fn set_cells_alive_level_two(
        &self,
        store: &mut Store,
        coords: &mut [(i64, i64)],
        offset_x: i64,
        offset_y: i64,
    ) -> (node: Node)
        requires
            old(store).wf(),
            self.base is LevelTwo,
            old(coords)@.len() > 0,
            old(store).valid(*self),
            forall|i: int|
                0 <= i < old(coords)@.len() ==> in_bounds(
                    self.level as int,
                    #[trigger] old(coords)@[i].0 - offset_x,
                    old(coords)@[i].1 - offset_y,
                ),
            old(store).pop(*self) + old(coords)@.len() <= u128::MAX,
            i64::MIN <= offset_x + crate::node::min_coord_of(self.level as int),
            offset_x + crate::node::max_coord_of(self.level as int) <= i64::MAX,
            i64::MIN <= offset_y + crate::node::min_coord_of(self.level as int),
            offset_y + crate::node::max_coord_of(self.level as int) <= i64::MAX,
        ensures
            final(store).wf(),
            extends(old(store).nodes(), final(store).nodes()),
            final(store).valid(node),
            node.level == self.level,
            forall|a: int, b: int|
                in_bounds(self.level as int, a, b) ==> #[trigger] final(store).cell(node, a, b) == (
                old(store).cell(*self, a, b) || listed(old(coords)@, a + offset_x, b + offset_y)),
            final(store).pop(node) <= old(store).pop(*self) + old(coords)@.len(),
            final(coords)@.to_multiset() == old(coords)@.to_multiset(),
        decreases self.level, 0nat,
    {
        let ghost n0 = store.nodes();
        let ghost c0 = coords@;
        proof {
            lemma_stored(n0, *self);
        }
        let cells = match self.base {
            NodeBase::LevelTwo { cells, .. } => cells,
            _ => 0,
        };
        proof {
            reveal_with_fuel(two_pow, 2);
        }
        let mut new_cells = cells;
        let mut i: usize = 0;
        while i < coords.len()
            invariant
                0 <= i <= coords@.len(),
                coords@ == c0,
                n0 == store.nodes(),
                self.base == (NodeBase::LevelTwo { cells, index: crate::node::index_of(*self) }),
                self.level == 2,
                forall|j: int|
                    0 <= j < c0.len() ==> in_bounds(2, #[trigger] c0[j].0 - offset_x, c0[j].1 - offset_y),
                forall|a: int, b: int|
                    in_bounds(2, a, b) ==> #[trigger] bit16(new_cells, level_two_bit_index(a, b)) == (
                    bit16(cells, level_two_bit_index(a, b)) || listed(c0.subrange(0, i as int), a + offset_x, b + offset_y)),
                crate::node::count16(new_cells, 16) <= crate::node::count16(cells, 16) + i,
            decreases coords@.len() - i,
        {
            let (x, y) = coords[i];
            proof {
                reveal_with_fuel(two_pow, 2);
                assert(in_bounds(2, c0[i as int].0 - offset_x, c0[i as int].1 - offset_y));
            }
            let k: u16 = (15 - ((4 * (y - offset_y + 2)) + (x - offset_x + 2))) as u16;
            let ghost before = new_cells;
            new_cells = new_cells | (1u16 << k);
            proof {
                crate::node::cells::lemma_count16_update(before, k, new_cells, true);
                assert forall|a: int, b: int| in_bounds(2, a, b) implies #[trigger] bit16(new_cells, level_two_bit_index(a, b)) == (
                    bit16(cells, level_two_bit_index(a, b)) || listed(c0.subrange(0, i + 1), a + offset_x, b + offset_y)) by {
                    crate::node::cells::lemma_bit16_update(before, k, level_two_bit_index(a, b));
                    lemma_listed_split(c0.subrange(0, i + 1), i as int, a + offset_x, b + offset_y);
                    assert(c0.subrange(0, i + 1).subrange(0, i as int) == c0.subrange(0, i as int));
                    let last = c0.subrange(0, i + 1).subrange(i as int, i + 1);
                    assert(last[0] == (x, y));
                    if listed(last, a + offset_x, b + offset_y) {
                        let j = choose|j: int| 0 <= j < last.len() && last[j].0 == a + offset_x && #[trigger] last[j].1 == b + offset_y;
                        assert(j == 0);
                    }
                    if a + offset_x == x && b + offset_y == y {
                        assert(last[0].1 == b + offset_y);
                    }
                }
            }
            i = i + 1;
        }
        proof {
            assert(c0.subrange(0, c0.len() as int) == c0);
        }
        store.create_level_two_from_cells(new_cells)
    }

    /// Sets alive cells of a node of level 3 or more.
    #[verifier::spinoff_prover]
    #[verifier::rlimit(100)]
    fn set_cells_alive_interior(
        &self,
        store: &mut Store,
        coords: &mut [(i64, i64)],
        offset_x: i64,
        offset_y: i64,
    ) -> (node: Node)
        requires
            old(store).wf(),
            self.base is Interior,
            old(coords)@.len() > 0,
            old(store).valid(*self),
            forall|i: int|
                0 <= i < old(coords)@.len() ==> in_bounds(
                    self.level as int,
                    #[trigger] old(coords)@[i].0 - offset_x,
                    old(coords)@[i].1 - offset_y,
                ),
            old(store).pop(*self) + old(coords)@.len() <= u128::MAX,
            i64::MIN <= offset_x + crate::node::min_coord_of(self.level as int),
            offset_x + crate::node::max_coord_of(self.level as int) <= i64::MAX,
            i64::MIN <= offset_y + crate::node::min_coord_of(self.level as int),
            offset_y + crate::node::max_coord_of(self.level as int) <= i64::MAX,
        ensures
            final(store).wf(),
            extends(old(store).nodes(), final(store).nodes()),
            final(store).valid(node),
            node.level == self.level,
            forall|a: int, b: int|
                in_bounds(self.level as int, a, b) ==> #[trigger] final(store).cell(node, a, b) == (
                old(store).cell(*self, a, b) || listed(old(coords)@, a + offset_x, b + offset_y)),
            final(store).pop(node) <= old(store).pop(*self) + old(coords)@.len(),
            final(coords)@.to_multiset() == old(coords)@.to_multiset(),
        decreases self.level, 0nat,
    {
        let ghost n0 = store.nodes();
        let ghost c0 = coords@;
        proof {
            lemma_stored(n0, *self);
        }
        let ghost l = self.level as int;
        let ghost in_node = |v: (i64, i64)| in_bounds(l, v.0 - offset_x, v.1 - offset_y);
        let vert_cutoff = partition_vert(coords, offset_y);
        let ghost c1 = coords@;
        let (north, south) = coords.split_at_mut(vert_cutoff);
        let ghost n1 = north@;
        let ghost s1 = south@;
        let horiz_cutoff = partition_horiz(north, offset_x);
        let ghost n2 = north@;
        let (northwest, northeast) = north.split_at_mut(horiz_cutoff);
        let ghost nwc = northwest@;
        let ghost nec = northeast@;
        let horiz_cutoff = partition_horiz(south, offset_x);
        let ghost s2 = south@;
        let (southwest, southeast) = south.split_at_mut(horiz_cutoff);
        let ghost swc = southwest@;
        let ghost sec = southeast@;
        let offset = quarter_i64(self.level);
        let ghost q = offset as int;
        proof {
            lemma_quarter(l);
            lemma_parts(c0, c1, n1, s1, n2, s2, nwc, nec, swc, sec, offset_x as int, offset_y as int, l, vert_cutoff as int);
            crate::node::subregion::lemma_quadrant_pops(n0, *self);
        }
        let nw = self.nw(store);
        let ne = self.ne(store);
        let sw = self.sw(store);
        let se = self.se(store);
        let nw2 = nw.set_cells_alive_recursive(store, northwest, offset_x - offset, offset_y - offset);
        let ghost m1 = store.nodes();
        proof {
            crate::node::lemma_extends(n0, m1, ne);
        }
        let ne2 = ne.set_cells_alive_recursive(store, northeast, offset_x + offset, offset_y - offset);
        let ghost m2 = store.nodes();
        proof {
            crate::node::lemma_extends(n0, m2, sw);
        }
        let sw2 = sw.set_cells_alive_recursive(store, southwest, offset_x - offset, offset_y + offset);
        let ghost m3 = store.nodes();
        proof {
            crate::node::lemma_extends(n0, m3, se);
        }
        let se2 = se.set_cells_alive_recursive(store, southeast, offset_x + offset, offset_y + offset);
        let ghost m4 = store.nodes();
        proof {
            assert(nodes_ok(m1) && nodes_ok(m2) && nodes_ok(m3));
            crate::node::lemma_extends(m1, m4, nw2);
            crate::node::lemma_extends(m2, m4, ne2);
            crate::node::lemma_extends(m3, m4, sw2);
            crate::node::lemma_extends(n0, m4, *self);
            crate::node::lemma_extends(n0, m1, nw);
            crate::node::lemma_extends(n0, m2, ne);
            crate::node::lemma_extends(n0, m3, sw);
            crate::node::lemma_extends(n0, m4, se);
        }
        let node = store.create_interior(NodeTemplate { ne: ne2, nw: nw2, se: se2, sw: sw2 });
        proof {
            let m5 = store.nodes();
            crate::node::lemma_extends(m4, m5, nw2);
            crate::node::lemma_extends(m4, m5, ne2);
            crate::node::lemma_extends(m4, m5, sw2);
            crate::node::lemma_extends(m4, m5, se2);
            crate::node::lemma_extends(n0, m5, *self);
            assert forall|a: int, b: int| in_bounds(l, a, b) implies #[trigger] cell_of(m5, node, a, b) == (
                cell_of(n0, *self, a, b) || listed(c0, a + offset_x, b + offset_y)) by {
                assert(cell_of(m5, node, a, b) == quad_cell(m5, nw2, ne2, sw2, se2, l, a, b));
                if a < 0 && b < 0 {
                    assert(in_bounds(l - 1, a + q, b + q));
                    assert(cell_of(n0, nw, a + q, b + q) == cell_of(n0, *self, a + q - q, b + q - q));
                    assert(listed(nwc, a + q + (offset_x - q), b + q + (offset_y - q)) == listed(c0, a + offset_x, b + offset_y));
                } else if a >= 0 && b < 0 {
                    assert(in_bounds(l - 1, a - q, b + q));
                    assert(cell_of(n0, ne, a - q, b + q) == cell_of(n0, *self, a - q + q, b + q - q));
                    assert(listed(nec, a - q + (offset_x + q), b + q + (offset_y - q)) == listed(c0, a + offset_x, b + offset_y));
                } else if a < 0 && b >= 0 {
                    assert(in_bounds(l - 1, a + q, b - q));
                    assert(cell_of(n0, sw, a + q, b - q) == cell_of(n0, *self, a + q - q, b - q + q));
                    assert(listed(swc, a + q + (offset_x - q), b - q + (offset_y + q)) == listed(c0, a + offset_x, b + offset_y));
                } else {
                    assert(in_bounds(l - 1, a - q, b - q));
                    assert(cell_of(n0, se, a - q, b - q) == cell_of(n0, *self, a - q + q, b - q + q));
                    assert(listed(sec, a - q + (offset_x + q), b - q + (offset_y + q)) == listed(c0, a + offset_x, b + offset_y));
                }
            }
        }
        proof {
            broadcast use vstd::seq_lib::lemma_multiset_commutative;

            assert(final(coords)@ == final(north)@ + final(south)@);
            assert(final(north)@ == final(northwest)@ + final(northeast)@);
            assert(final(south)@ == final(southwest)@ + final(southeast)@);
            assert(final(coords)@.to_multiset() == (nwc + nec + (swc + sec)).to_multiset());
        }
        node
    }

}


/// The four parts into which a list of coordinates is partitioned around
/// `(ox, oy)`: each lies within its quadrant of the node of level `l`
/// centered there, together they hold the coordinates of the list, and a
/// coordinate in a quadrant is listed in the list exactly when it is listed
/// in its part.
pub(crate) proof fn lemma_parts(
    c0: Seq<(i64, i64)>,
    c1: Seq<(i64, i64)>,
    n1: Seq<(i64, i64)>,
    s1: Seq<(i64, i64)>,
    n2: Seq<(i64, i64)>,
    s2: Seq<(i64, i64)>,
    nwc: Seq<(i64, i64)>,
    nec: Seq<(i64, i64)>,
    swc: Seq<(i64, i64)>,
    sec: Seq<(i64, i64)>,
    ox: int,
    oy: int,
    l: int,
    vc: int,
)
    requires
        3 <= l <= MAX_LEVEL,
        forall|i: int| 0 <= i < c0.len() ==> in_bounds(l, #[trigger] c0[i].0 - ox, c0[i].1 - oy),
        c1.to_multiset() == c0.to_multiset(),
        c1.len() == c0.len(),
        0 <= vc <= c1.len(),
        forall|i: int| 0 <= i < vc ==> #[trigger] c1[i].1 < oy,
        forall|i: int| vc <= i < c1.len() ==> #[trigger] c1[i].1 >= oy,
        n1 == c1.subrange(0, vc),
        s1 == c1.subrange(vc, c1.len() as int),
        n2.to_multiset() == n1.to_multiset(),
        n2.len() == n1.len(),
        nwc.len() <= n2.len(),
        forall|i: int| 0 <= i < nwc.len() ==> #[trigger] n2[i].0 < ox,
        forall|i: int| nwc.len() <= i < n2.len() ==> #[trigger] n2[i].0 >= ox,
        nwc == n2.subrange(0, nwc.len() as int),
        nec == n2.subrange(nwc.len() as int, n2.len() as int),
        s2.to_multiset() == s1.to_multiset(),
        s2.len() == s1.len(),
        swc.len() <= s2.len(),
        forall|i: int| 0 <= i < swc.len() ==> #[trigger] s2[i].0 < ox,
        forall|i: int| swc.len() <= i < s2.len() ==> #[trigger] s2[i].0 >= ox,
        swc == s2.subrange(0, swc.len() as int),
        sec == s2.subrange(swc.len() as int, s2.len() as int),
    ensures
        nwc.len() + nec.len() + swc.len() + sec.len() == c0.len(),
        (nwc + nec + (swc + sec)).to_multiset() == c0.to_multiset(),
        forall|i: int| 0 <= i < nwc.len() ==> in_bounds(l - 1, #[trigger] nwc[i].0 - (ox - quarter(l)), nwc[i].1 - (oy - quarter(l))),
        forall|i: int| 0 <= i < nec.len() ==> in_bounds(l - 1, #[trigger] nec[i].0 - (ox + quarter(l)), nec[i].1 - (oy - quarter(l))),
        forall|i: int| 0 <= i < swc.len() ==> in_bounds(l - 1, #[trigger] swc[i].0 - (ox - quarter(l)), swc[i].1 - (oy + quarter(l))),
        forall|i: int| 0 <= i < sec.len() ==> in_bounds(l - 1, #[trigger] sec[i].0 - (ox + quarter(l)), sec[i].1 - (oy + quarter(l))),
        forall|x: int, y: int| x < ox && y < oy ==> #[trigger] listed(nwc, x, y) == listed(c0, x, y),
        forall|x: int, y: int| x >= ox && y < oy ==> #[trigger] listed(nec, x, y) == listed(c0, x, y),
        forall|x: int, y: int| x < ox && y >= oy ==> #[trigger] listed(swc, x, y) == listed(c0, x, y),
        forall|x: int, y: int| x >= ox && y >= oy ==> #[trigger] listed(sec, x, y) == listed(c0, x, y),
{
    broadcast use vstd::seq_lib::lemma_multiset_commutative;

    lemma_quarter(l);
    let q = quarter(l);
    let p0 = |v: (i64, i64)| in_bounds(l, v.0 - ox, v.1 - oy);
    let pn = |v: (i64, i64)| in_bounds(l, v.0 - ox, v.1 - oy) && v.1 < oy;
    let ps = |v: (i64, i64)| in_bounds(l, v.0 - ox, v.1 - oy) && v.1 >= oy;
    assert forall|i: int| 0 <= i < c0.len() implies #[trigger] p0(c0[i]) by {}
    lemma_perm_all(c1, c0, p0);
    assert forall|i: int| 0 <= i < n1.len() implies #[trigger] pn(n1[i]) by {
        assert(n1[i] == c1[i]);
        assert(p0(c1[i]));
    }
    assert forall|i: int| 0 <= i < s1.len() implies #[trigger] ps(s1[i]) by {
        assert(s1[i] == c1[vc + i]);
        assert(p0(c1[vc + i]));
    }
    lemma_perm_all(n2, n1, pn);
    lemma_perm_all(s2, s1, ps);
    assert forall|i: int| 0 <= i < nwc.len() implies in_bounds(l - 1, #[trigger] nwc[i].0 - (ox - q), nwc[i].1 - (oy - q)) by {
        assert(nwc[i] == n2[i]);
        assert(pn(n2[i]));
    }
    assert forall|i: int| 0 <= i < nec.len() implies in_bounds(l - 1, #[trigger] nec[i].0 - (ox + q), nec[i].1 - (oy - q)) by {
        assert(nec[i] == n2[nwc.len() + i]);
        assert(pn(n2[nwc.len() + i]));
    }
    assert forall|i: int| 0 <= i < swc.len() implies in_bounds(l - 1, #[trigger] swc[i].0 - (ox - q), swc[i].1 - (oy + q)) by {
        assert(swc[i] == s2[i]);
        assert(ps(s2[i]));
    }
    assert forall|i: int| 0 <= i < sec.len() implies in_bounds(l - 1, #[trigger] sec[i].0 - (ox + q), sec[i].1 - (oy + q)) by {
        assert(sec[i] == s2[swc.len() + i]);
        assert(ps(s2[swc.len() + i]));
    }
    // multisets
    assert(n2 == nwc + nec);
    assert(s2 == swc + sec);
    assert(c1 == n1 + s1);
    assert((nwc + nec + (swc + sec)).to_multiset() == c0.to_multiset()) by {
        assert(nwc + nec + (swc + sec) == n2 + s2);
        assert((n2 + s2).to_multiset() == n2.to_multiset().add(s2.to_multiset()));
        assert((n1 + s1).to_multiset() == n1.to_multiset().add(s1.to_multiset()));
    }
    // listing
    assert forall|x: int, y: int| #[trigger] listed(c0, x, y) == (listed(n2, x, y) || listed(s2, x, y)) by {
        lemma_listed_perm(c0, c1, x, y);
        lemma_listed_split(c1, vc, x, y);
        lemma_listed_perm(n1, n2, x, y);
        lemma_listed_perm(s1, s2, x, y);
    }
    assert forall|x: int, y: int| x < ox && y < oy implies #[trigger] listed(nwc, x, y) == listed(c0, x, y) by {
        lemma_listed_split(n2, nwc.len() as int, x, y);
        lemma_listed_split(s2, swc.len() as int, x, y);
        assert(listed(c0, x, y) == (listed(n2, x, y) || listed(s2, x, y)));
        if listed(s2, x, y) {
            let i = choose|i: int| 0 <= i < s2.len() && s2[i].0 == x && #[trigger] s2[i].1 == y;
            assert(ps(s2[i]));
        }
        if listed(nec, x, y) {
            let i = choose|i: int| 0 <= i < nec.len() && nec[i].0 == x && #[trigger] nec[i].1 == y;
            assert(nec[i] == n2[nwc.len() + i]);
        }
    }
    assert forall|x: int, y: int| x >= ox && y < oy implies #[trigger] listed(nec, x, y) == listed(c0, x, y) by {
        lemma_listed_split(n2, nwc.len() as int, x, y);
        assert(listed(c0, x, y) == (listed(n2, x, y) || listed(s2, x, y)));
        if listed(s2, x, y) {
            let i = choose|i: int| 0 <= i < s2.len() && s2[i].0 == x && #[trigger] s2[i].1 == y;
            assert(ps(s2[i]));
        }
        if listed(nwc, x, y) {
            let i = choose|i: int| 0 <= i < nwc.len() && nwc[i].0 == x && #[trigger] nwc[i].1 == y;
            assert(nwc[i] == n2[i]);
        }
    }
    assert forall|x: int, y: int| x < ox && y >= oy implies #[trigger] listed(swc, x, y) == listed(c0, x, y) by {
        lemma_listed_split(s2, swc.len() as int, x, y);
        assert(listed(c0, x, y) == (listed(n2, x, y) || listed(s2, x, y)));
        if listed(n2, x, y) {
            let i = choose|i: int| 0 <= i < n2.len() && n2[i].0 == x && #[trigger] n2[i].1 == y;
            assert(pn(n2[i]));
        }
        if listed(sec, x, y) {
            let i = choose|i: int| 0 <= i < sec.len() && sec[i].0 == x && #[trigger] sec[i].1 == y;
            assert(sec[i] == s2[swc.len() + i]);
        }
    }
    assert forall|x: int, y: int| x >= ox && y >= oy implies #[trigger] listed(sec, x, y) == listed(c0, x, y) by {
        lemma_listed_split(s2, swc.len() as int, x, y);
        assert(listed(c0, x, y) == (listed(n2, x, y) || listed(s2, x, y)));
        if listed(n2, x, y) {
            let i = choose|i: int| 0 <= i < n2.len() && n2[i].0 == x && #[trigger] n2[i].1 == y;
            assert(pn(n2[i]));
        }
        if listed(swc, x, y) {
            let i = choose|i: int| 0 <= i < swc.len() && swc[i].0 == x && #[trigger] swc[i].1 == y;
            assert(swc[i] == s2[i]);
        }
    }
}

} // verus!
