//! Conway's Game of Life on an unbounded grid.

use vstd::prelude::*;

use crate::node::cell_sets::{has_alive_in, listed, lists_alive};
use crate::node::{
    advanced, cell_of, evolve, extends, grid_of, in_bounds, lemma_extends, lemma_stored,
    max_coord_of, min_coord_of, node_in, two_pow, Node, Store, MAX_LEVEL,
};
use crate::node::subregion::lemma_centered_corner;
use crate::rle::{cells_from, fits_from, is_pattern, units_from, Rle, RleError};
use crate::{BoundingBox, Cell, Position};

verus! {

/// The level of the root of a new grid.
const INITIAL_LEVEL: u8 = 7;

/// Conway's Game of Life.
pub struct Life {
    /// The root node of the Life grid.
    root: Node,
    /// The store.
    store: Store,
    /// What generation the Life is on.
    generation: u128,
    /// The base 2 logarithm of the number of generations a step advances.
    step_log_2: u8,
}

impl Life {
    /// The grid is well formed.
    pub closed spec fn wf(&self) -> bool {
        &&& self.store.wf()
        &&& self.store.valid(self.root)
        &&& 3 <= self.root.level <= MAX_LEVEL
        &&& self.step_log_2 <= 62
    }

    /// Whether the cell at `(x, y)` is alive.
    pub closed spec fn alive(&self, x: int, y: int) -> bool {
        in_bounds(self.root.level as int, x, y) && cell_of(self.store.nodes(), self.root, x, y)
    }

    /// The cells of the grid.
    pub open spec fn grid(&self) -> spec_fn(int, int) -> bool {
        |x: int, y: int| self.alive(x, y)
    }

    /// Whether `(x, y)` lies in the region the grid currently holds; every
    /// cell outside it is dead.
    pub closed spec fn covers(&self, x: int, y: int) -> bool {
        in_bounds(self.root.level as int, x, y)
    }

    /// The generation the grid is on.
    pub closed spec fn gen(&self) -> nat {
        self.generation as nat
    }

    /// The base 2 logarithm of the number of generations a step advances.
    pub closed spec fn log_step(&self) -> nat {
        self.step_log_2 as nat
    }

    /// The number of alive cells.
    pub closed spec fn pop(&self) -> nat {
        self.store.pop(self.root)
    }

    /// Every cell outside the region the grid holds is dead.
    pub proof fn lemma_outside_dead(&self, x: int, y: int)
        requires
            !self.covers(x, y),
        ensures
            !self.alive(x, y),
    {
    }

    /// Creates a new empty Life grid.
    pub fn new() -> (life: Self)
        ensures
            life.wf(),
            forall|x: int, y: int| !#[trigger] life.alive(x, y),
            life.gen() == 0,
            life.log_step() == 0,
            life.pop() == 0,
    {
        let mut store = Store::new();
        let root = store.create_empty(INITIAL_LEVEL);
        Self { root, store, generation: 0, step_log_2: 0 }
    }

    /// Creates a Life grid from the given RLE pattern, its northwest corner
    /// at the origin.
    pub fn from_rle_pattern(pattern: &[u8]) -> (r: Result<Self, RleError>)
        requires
            is_pattern(pattern@) ==> fits_from(units_from(pattern@, 0).0, 0, 0),
        ensures
            r is Ok <==> is_pattern(pattern@),
            r matches Err(e) ==> e == RleError::Parse,
            r matches Ok(life) ==> {
                &&& life.wf()
                &&& life.gen() == 0
                &&& life.log_step() == 0
                &&& forall|x: int, y: int| #[trigger] life.alive(x, y) ==> listed_cell(
                    cells_from(units_from(pattern@, 0).0, 0, 0),
                    x,
                    y,
                )
                &&& forall|i: int|
                    0 <= i < cells_from(units_from(pattern@, 0).0, 0, 0).len() ==> life.alive(
                        #[trigger] cells_from(units_from(pattern@, 0).0, 0, 0)[i].0,
                        cells_from(units_from(pattern@, 0).0, 0, 0)[i].1,
                    )
            },
    {
        let rle = Rle::from_pattern(pattern)?;
        Ok(Self::from_rle(&rle))
    }

    /// Creates a Life grid from the given RLE pattern, its northwest corner
    /// at the origin.
    pub fn from_rle(rle: &Rle) -> (life: Self)
        requires
            fits_from(rle.units(), 0, 0),
        ensures
            life.wf(),
            life.gen() == 0,
            life.log_step() == 0,
            forall|x: int, y: int| #[trigger] life.alive(x, y) ==> listed_cell(cells_from(rle.units(), 0, 0), x, y),
            forall|i: int|
                0 <= i < cells_from(rle.units(), 0, 0).len() ==> life.alive(
                    #[trigger] cells_from(rle.units(), 0, 0)[i].0,
                    cells_from(rle.units(), 0, 0)[i].1,
                ),
    {
        let cells = rle.alive_cells();
        let ghost spec_cells = cells_from(rle.units(), 0, 0);
        let mut alive_cells: Vec<(i64, i64)> = Vec::new();
        let mut i: usize = 0;
        while i < cells.len()
            invariant
                i <= cells@.len(),
                alive_cells@.len() == i,
                cells@.len() == spec_cells.len(),
                forall|k: int|
                    0 <= k < cells@.len() ==> #[trigger] cells@[k].0 == spec_cells[k].0
                        && cells@[k].1 == spec_cells[k].1,
                forall|k: int|
                    0 <= k < i ==> #[trigger] alive_cells@[k].0 == spec_cells[k].0
                        && alive_cells@[k].1 == spec_cells[k].1 && alive_cells@[k].0 == cells@[k].0
                        && alive_cells@[k].1 == cells@[k].1,
            decreases cells@.len() - i,
        {
            let (x, y) = cells[i];
            alive_cells.push((x as i64, y as i64));
            i = i + 1;
        }
        assert(alive_cells@.len() == spec_cells.len());
        assert(forall|k: int| 0 <= k < alive_cells@.len() ==> #[trigger] alive_cells@[k].0 == spec_cells[k].0 && alive_cells@[k].1 == spec_cells[k].1);
        let mut store = Store::new();
        let mut root = store.create_empty(INITIAL_LEVEL);
        if alive_cells.len() > 0 {
            let mut x_min: i64 = alive_cells[0].0;
            let mut x_max: i64 = alive_cells[0].0;
            let mut y_min: i64 = alive_cells[0].1;
            let mut y_max: i64 = alive_cells[0].1;
            let mut k: usize = 1;
            while k < alive_cells.len()
                invariant
                    1 <= k <= alive_cells@.len(),
                    0 <= x_min <= x_max <= u32::MAX,
                    0 <= y_min <= y_max <= u32::MAX,
                    forall|j: int|
                        0 <= j < alive_cells@.len() ==> 0 <= #[trigger] alive_cells@[j].0 <= u32::MAX
                            && 0 <= alive_cells@[j].1 <= u32::MAX,
                    forall|j: int|
                        0 <= j < k ==> x_min <= #[trigger] alive_cells@[j].0 <= x_max && y_min
                            <= alive_cells@[j].1 <= y_max,
                decreases alive_cells@.len() - k,
            {
                let (x, y) = alive_cells[k];
                if x < x_min {
                    x_min = x;
                }
                if x > x_max {
                    x_max = x;
                }
                if y < y_min {
                    y_min = y;
                }
                if y > y_max {
                    y_max = y;
                }
                k = k + 1;
            }
            while x_min < root.min_coord() || x_max > root.max_coord() || y_min < root.min_coord()
                || y_max > root.max_coord()
                invariant
                    store.wf(),
                    store.valid(root),
                    INITIAL_LEVEL <= root.level <= MAX_LEVEL,
                    store.pop(root) == 0,
                    forall|a: int, b: int| in_bounds(root.level as int, a, b) ==> !#[trigger] store.cell(root, a, b),
                    0 <= x_min <= x_max <= u32::MAX,
                    0 <= y_min <= y_max <= u32::MAX,
                decreases MAX_LEVEL - root.level,
            {
                proof {
                    if root.level >= 34 {
                        lemma_large_level_covers(root.level as int);
                    }
                }
                let ghost old_root = root;
                let ghost old_store = store;
                root = root.expand(&mut store);
                proof {
                    old_store.lemma_grows(&store, old_root);
                    assert forall|a: int, b: int| in_bounds(root.level as int, a, b) implies !#[trigger] store.cell(root, a, b) by {
                        assert(store.cell(root, a, b) == (in_bounds(old_root.level as int, a, b) && store.cell(old_root, a, b)));
                    }
                }
            }
            assert(forall|k: int| 0 <= k < alive_cells@.len() ==> #[trigger] alive_cells@[k].0 == spec_cells[k].0 && alive_cells@[k].1 == spec_cells[k].1);
            let ghost coords = alive_cells@;
            assert(forall|k: int| #![trigger coords[k]] 0 <= k < coords.len() ==> coords[k].0 == spec_cells[k].0 && coords[k].1 == spec_cells[k].1);
            let ghost empty_root = root;
            let ghost n0 = store.nodes();
            proof {
                assert forall|j: int| #![trigger coords[j]] 0 <= j < coords.len() implies in_bounds(root.level as int, coords[j].0 as int, coords[j].1 as int) by {
                    assert(x_min <= coords[j].0 <= x_max && y_min <= coords[j].1 <= y_max);
                }
            }
            root = root.set_cells_alive(&mut store, alive_cells.as_mut_slice());
            assert(forall|k: int| #![trigger coords[k]] 0 <= k < coords.len() ==> coords[k].0 == spec_cells[k].0 && coords[k].1 == spec_cells[k].1);
            proof {
                lemma_set_listed(n0, store.nodes(), empty_root, root, coords, spec_cells);
            }
        } else {
            assert(holds_cells(store.nodes(), root, spec_cells));
        }
        let ghost nodes = store.nodes();
        assert(holds_cells(nodes, root, spec_cells));
        let life = Self { root, store, generation: 0, step_log_2: 0 };
        proof {
            assert forall|x: int, y: int| #[trigger] life.alive(x, y) implies listed_cell(spec_cells, x, y) by {
                assert(in_bounds(root.level as int, x, y) && cell_of(nodes, root, x, y));
            }
            assert forall|i: int| 0 <= i < spec_cells.len() implies life.alive(#[trigger] spec_cells[i].0, spec_cells[i].1) by {
                assert(in_bounds(root.level as int, spec_cells[i].0, spec_cells[i].1));
            }
        }
        life
    }
}

/// Setting alive the listed cells of an empty node gives a node whose alive
/// cells are exactly those listed.
proof fn lemma_set_listed(
    n0: Seq<Node>,
    n1: Seq<Node>,
    empty: Node,
    root: Node,
    coords: Seq<(i64, i64)>,
    cells: Seq<(int, int)>,
)
    requires
        root.level == empty.level,
        forall|a: int, b: int| in_bounds(empty.level as int, a, b) ==> !#[trigger] cell_of(n0, empty, a, b),
        forall|a: int, b: int|
            in_bounds(empty.level as int, a, b) ==> #[trigger] cell_of(n1, root, a, b) == (cell_of(n0, empty, a, b)
                || listed(coords, a, b)),
        forall|j: int| #![trigger coords[j]] 0 <= j < coords.len() ==> in_bounds(empty.level as int, coords[j].0 as int, coords[j].1 as int),
        coords.len() == cells.len(),
        forall|k: int| #![trigger coords[k]] 0 <= k < coords.len() ==> coords[k].0 == cells[k].0 && coords[k].1 == cells[k].1,
    ensures
        holds_cells(n1, root, cells),
{
    assert forall|i: int| 0 <= i < cells.len() implies in_bounds(root.level as int, #[trigger] cells[i].0, cells[i].1)
        && cell_of(n1, root, cells[i].0, cells[i].1) by {
        assert(coords[i].0 == cells[i].0 && coords[i].1 == cells[i].1);
        assert(in_bounds(empty.level as int, coords[i].0 as int, coords[i].1 as int));
        assert(listed(coords, cells[i].0, cells[i].1));
    }
    assert forall|x: int, y: int| in_bounds(root.level as int, x, y) && #[trigger] cell_of(n1, root, x, y) implies listed_cell(cells, x, y) by {
        assert(listed(coords, x, y));
        let i = choose|i: int| 0 <= i < coords.len() && coords[i].0 == x && #[trigger] coords[i].1 == y;
        assert(coords[i].0 == cells[i].0 && coords[i].1 == cells[i].1);
        assert(cells[i] == (x, y));
    }
}

/// The alive cells of `root` are exactly the listed cells.
spec fn holds_cells(nodes: Seq<Node>, root: Node, cells: Seq<(int, int)>) -> bool {
    &&& forall|x: int, y: int|
        in_bounds(root.level as int, x, y) && #[trigger] cell_of(nodes, root, x, y) ==> listed_cell(cells, x, y)
    &&& forall|i: int|
        0 <= i < cells.len() ==> in_bounds(root.level as int, #[trigger] cells[i].0, cells[i].1)
            && cell_of(nodes, root, cells[i].0, cells[i].1)
}

impl Life {
    /// Sets the cell at the given position alive.
    pub fn set_cell_alive(&mut self, position: Position)
        requires
            old(self).wf(),
            old(self).pop() < u128::MAX,
        ensures
            final(self).wf(),
            final(self).alive(position.x as int, position.y as int),
            forall|x: int, y: int|
                !(x == position.x && y == position.y) ==> #[trigger] final(self).alive(x, y) == old(self).alive(x, y),
            final(self).gen() == old(self).gen(),
            final(self).log_step() == old(self).log_step(),
    {
        let ghost start = *self;
        while position.x < self.root.min_coord() || position.y < self.root.min_coord() || position.x
            > self.root.max_coord() || position.y > self.root.max_coord()
            invariant
                self.wf(),
                self.pop() == start.pop(),
                forall|x: int, y: int| #[trigger] self.alive(x, y) == start.alive(x, y),
                self.generation == start.generation,
                self.step_log_2 == start.step_log_2,
            decreases MAX_LEVEL - self.root.level,
        {
            proof {
                if self.root.level == MAX_LEVEL {
                    crate::node::cells::lemma_coords_fit(64);
                    crate::node::cells::lemma_level_64();
                }
            }
            self.expand_root();
        }
        let ghost before = *self;
        let ghost old_store = self.store;
        self.root = self.root.set_cell(&mut self.store, position.x, position.y, Cell::Alive);
        proof {
            old_store.lemma_grows(&self.store, before.root);
            assert forall|x: int, y: int| !(x == position.x && y == position.y) implies #[trigger] self.alive(x, y) == before.alive(x, y) by {}
        }
    }

    /// Doubles the width of the region the grid holds, keeping its cells.
    fn expand_root(&mut self)
        requires
            old(self).wf(),
            old(self).root.level < MAX_LEVEL,
        ensures
            final(self).wf(),
            final(self).root.level == old(self).root.level + 1,
            final(self).pop() == old(self).pop(),
            forall|x: int, y: int| #[trigger] final(self).alive(x, y) == old(self).alive(x, y),
            forall|x: int, y: int| old(self).covers(x, y) ==> #[trigger] final(self).covers(x, y),
            final(self).generation == old(self).generation,
            final(self).step_log_2 == old(self).step_log_2,
    {
        let ghost old_root = self.root;
        let ghost old_store = self.store;
        self.root = self.root.expand(&mut self.store);
        proof {
            old_store.lemma_grows(&self.store, old_root);
            crate::node::lemma_quarter((old_root.level + 1) as int);
            if old_root.level >= 2 {
                crate::node::lemma_quarter(old_root.level as int);
            }
            assert forall|x: int, y: int| #[trigger] self.alive(x, y) == old(self).alive(x, y) by {
                if in_bounds(old_root.level as int, x, y) {
                    assert(in_bounds(self.root.level as int, x, y));
                }
            }
        }
    }

    /// Returns the positions of the alive cells, each once.
    pub fn get_alive_cells(&self) -> (cells: Vec<Position>)
        requires
            self.wf(),
        ensures
            forall|i: int| 0 <= i < cells.len() ==> self.alive(#[trigger] cells@[i].x as int, cells@[i].y as int),
            forall|x: int, y: int| #[trigger] self.alive(x, y) ==> cells@.contains(Position { x: x as i64, y: y as i64 }),
            cells@.no_duplicates(),
    {
        let coords = self.root.get_alive_cells(&self.store);
        let mut cells: Vec<Position> = Vec::with_capacity(coords.len());
        let mut i: usize = 0;
        while i < coords.len()
            invariant
                i <= coords@.len(),
                cells@.len() == i,
                forall|k: int| #![trigger cells@[k]] 0 <= k < i ==> cells@[k].x == coords@[k].0 && cells@[k].y == coords@[k].1,
            decreases coords@.len() - i,
        {
            let (x, y) = coords[i];
            cells.push(Position::new(x, y));
            i = i + 1;
        }
        proof {
            let nodes = self.store.nodes();
            assert forall|k: int| 0 <= k < cells.len() implies self.alive(#[trigger] cells@[k].x as int, cells@[k].y as int) by {
                assert(cells@[k].x == coords@[k].0 && cells@[k].y == coords@[k].1);
                assert(in_bounds(self.root.level as int, coords@[k].0 as int, coords@[k].1 as int));
            }
            assert forall|x: int, y: int| #[trigger] self.alive(x, y) implies cells@.contains(Position { x: x as i64, y: y as i64 }) by {
                assert(coords@.contains((x as i64, y as i64)));
                let k = choose|k: int| 0 <= k < coords@.len() && coords@[k] == (x as i64, y as i64);
                assert(cells@[k].x == coords@[k].0 && cells@[k].y == coords@[k].1);
                assert(cells@[k] == Position { x: x as i64, y: y as i64 });
            }
            assert forall|a: int, b: int| 0 <= a < cells.len() && 0 <= b < cells.len() && a != b implies cells@[a] != cells@[b] by {
                assert(coords@[a] != coords@[b]);
                assert(cells@[a].x == coords@[a].0 && cells@[a].y == coords@[a].1);
                assert(cells@[b].x == coords@[b].0 && cells@[b].y == coords@[b].1);
            }
        }
        cells
    }

    /// Returns whether the grid has an alive cell in the bounding box.
    pub fn contains_alive_cells(&self, bounding_box: BoundingBox) -> (found: bool)
        requires
            self.wf(),
            bounding_box.wf(),
        ensures
            found == exists|x: int, y: int|
                bounding_box.spec_upper_left().x <= x <= bounding_box.spec_lower_right().x
                    && bounding_box.spec_upper_left().y <= y <= bounding_box.spec_lower_right().y
                    && #[trigger] self.alive(x, y),
    {
        let upper_left = bounding_box.upper_left();
        let lower_right = bounding_box.lower_right();
        let lo = self.root.min_coord();
        let hi = self.root.max_coord();
        let x0 = if upper_left.x < lo { lo } else { upper_left.x };
        let y0 = if upper_left.y < lo { lo } else { upper_left.y };
        let x1 = if lower_right.x > hi { hi } else { lower_right.x };
        let y1 = if lower_right.y > hi { hi } else { lower_right.y };
        if x0 > x1 || y0 > y1 {
            return false;
        }
        let found = self.root.contains_alive_cells(&self.store, (x0, y0), (x1, y1));
        proof {
            if found {
                let (x, y) = choose|x: int, y: int|
                    x0 <= x <= x1 && y0 <= y <= y1 && in_bounds(self.root.level as int, x, y)
                        && #[trigger] cell_of(self.store.nodes(), self.root, x, y);
                assert(self.alive(x, y));
            }
        }
        found
    }

    /// Returns the smallest box holding every alive cell, if there is one.
    pub fn bounding_box(&self) -> (bbox: Option<BoundingBox>)
        requires
            self.wf(),
        ensures
            bbox is None <==> forall|x: int, y: int| !#[trigger] self.alive(x, y),
            bbox matches Some(b) ==> {
                &&& b.wf()
                &&& forall|x: int, y: int|
                    #[trigger] self.alive(x, y) ==> b.spec_upper_left().x <= x <= b.spec_lower_right().x
                        && b.spec_upper_left().y <= y <= b.spec_lower_right().y
                &&& exists|y: int| #[trigger] self.alive(b.spec_upper_left().x as int, y)
                &&& exists|y: int| #[trigger] self.alive(b.spec_lower_right().x as int, y)
                &&& exists|x: int| #[trigger] self.alive(x, b.spec_upper_left().y as int)
                &&& exists|x: int| #[trigger] self.alive(x, b.spec_lower_right().y as int)
            },
    {
        let cells = self.get_alive_cells();
        if cells.len() == 0 {
            proof {
                assert forall|x: int, y: int| !#[trigger] self.alive(x, y) by {
                    if self.alive(x, y) {
                        assert(cells@.contains(Position { x: x as i64, y: y as i64 }));
                    }
                }
            }
            return None;
        }
        let mut x_min = cells[0].x;
        let mut x_max = cells[0].x;
        let mut y_min = cells[0].y;
        let mut y_max = cells[0].y;
        let mut i: usize = 1;
        proof {
            assert(self.alive(cells@[0].x as int, cells@[0].y as int));
        }
        while i < cells.len()
            invariant
                1 <= i <= cells@.len(),
                forall|k: int| 0 <= k < cells@.len() ==> self.alive(#[trigger] cells@[k].x as int, cells@[k].y as int),
                forall|k: int|
                    #![trigger cells@[k]]
                    0 <= k < i ==> x_min <= cells@[k].x <= x_max && y_min <= cells@[k].y <= y_max,
                exists|y: int| #[trigger] self.alive(x_min as int, y),
                exists|y: int| #[trigger] self.alive(x_max as int, y),
                exists|x: int| #[trigger] self.alive(x, y_min as int),
                exists|x: int| #[trigger] self.alive(x, y_max as int),
            decreases cells@.len() - i,
        {
            let p = cells[i];
            proof {
                assert(self.alive(cells@[i as int].x as int, cells@[i as int].y as int));
            }
            if p.x < x_min {
                x_min = p.x;
            }
            if p.x > x_max {
                x_max = p.x;
            }
            if p.y < y_min {
                y_min = p.y;
            }
            if p.y > y_max {
                y_max = p.y;
            }
            i = i + 1;
        }
        let b = BoundingBox::new(Position::new(x_min, y_min), Position::new(x_max, y_max));
        proof {
            crate::node::cells::lemma_coords_fit(self.root.level as int);
            assert forall|x: int, y: int| #[trigger] self.alive(x, y) implies x_min <= x <= x_max && y_min <= y <= y_max by {
                assert(cells@.contains(Position { x: x as i64, y: y as i64 }));
                let k = choose|k: int| 0 <= k < cells@.len() && cells@[k] == Position { x: x as i64, y: y as i64 };
                assert(x_min <= cells@[k].x <= x_max && y_min <= cells@[k].y <= y_max);
            }
            assert(self.alive(cells@[0].x as int, cells@[0].y as int));
        }
        Some(b)
    }

    /// Returns the generation the grid is on.
    pub fn generation(&self) -> (generation: u128)
        ensures
            generation == self.gen(),
    {
        self.generation
    }

    /// Returns the number of alive cells in the grid.
    pub fn population(&self) -> (population: u128)
        requires
            self.wf(),
        ensures
            population == self.pop(),
    {
        self.root.population(&self.store)
    }

    /// Returns the number of generations a step advances.
    pub fn step_size(&self) -> (size: u64)
        requires
            self.wf(),
        ensures
            size == two_pow(self.log_step()),
    {
        proof {
            crate::node::lemma_two_pow_u64(self.step_log_2 as nat);
        }
        1u64 << self.step_log_2
    }

    /// Sets the number of generations a step advances to `2^step_log_2`.
    pub fn set_step_log_2(&mut self, step_log_2: u8)
        requires
            old(self).wf(),
            step_log_2 <= 62,
        ensures
            final(self).wf(),
            final(self).log_step() == step_log_2,
            forall|x: int, y: int| #[trigger] final(self).alive(x, y) == old(self).alive(x, y),
            final(self).gen() == old(self).gen(),
    {
        self.step_log_2 = step_log_2;
    }
}

impl Life {
    /// Whether every alive cell lies in the central square a quarter as wide
    /// as the root: each quadrant of the root holds as many alive cells as
    /// its corner a quarter as wide as it that touches the center.
    fn is_centered(&self) -> (centered: bool)
        requires
            self.wf(),
            self.root.level >= INITIAL_LEVEL,
        ensures
            centered ==> forall|x: int, y: int| #[trigger] self.alive(x, y) ==> in_bounds(self.root.level - 2, x, y),
    {
        let store = &self.store;
        let ne = self.root.ne(store);
        let ne_mid = ne.sw(store);
        let ne_core = ne_mid.sw(store);
        let nw = self.root.nw(store);
        let nw_mid = nw.se(store);
        let nw_core = nw_mid.se(store);
        let se = self.root.se(store);
        let se_mid = se.nw(store);
        let se_core = se_mid.nw(store);
        let sw = self.root.sw(store);
        let sw_mid = sw.ne(store);
        let sw_core = sw_mid.ne(store);
        let centered = ne.population(store) == ne_core.population(store) && nw.population(store)
            == nw_core.population(store) && se.population(store) == se_core.population(store)
            && sw.population(store) == sw_core.population(store);
        proof {
            if centered {
                store.lemma_wf();
                let nodes = store.nodes();
                let root = self.root;
                lemma_centered_corner(nodes, root, ne, ne_mid, true, false);
                lemma_centered_corner(nodes, root, nw, nw_mid, false, false);
                lemma_centered_corner(nodes, root, se, se_mid, true, true);
                lemma_centered_corner(nodes, root, sw, sw_mid, false, true);
                assert forall|x: int, y: int| #[trigger] self.alive(x, y) implies in_bounds(root.level - 2, x, y) by {
                    assert(in_bounds(root.level as int, x, y) && cell_of(nodes, root, x, y));
                }
            }
        }
        centered
    }

    /// Expands the grid until a step fits it: its root is at least of the
    /// initial level, a step is at most a quarter of its width, and every
    /// alive cell lies in the central square a quarter as wide as the root.
    /// The root grows to level 64 at most; the alive cells are in that
    /// central square as well when they lie within `2^61` of the origin.
    fn pad(&mut self)
        requires
            old(self).wf(),
        ensures
            final(self).wf(),
            forall|x: int, y: int| #[trigger] final(self).alive(x, y) == old(self).alive(x, y),
            forall|x: int, y: int| old(self).covers(x, y) ==> #[trigger] final(self).covers(x, y),
            final(self).root.level >= INITIAL_LEVEL,
            final(self).root.level >= final(self).step_log_2 + 2,
            final(self).generation == old(self).generation,
            final(self).step_log_2 == old(self).step_log_2,
            final(self).root.level < MAX_LEVEL || (forall|x: int, y: int|
                old(self).alive(x, y) ==> in_bounds(MAX_LEVEL - 2, x, y)) ==> forall|x: int, y: int|
                #[trigger] final(self).alive(x, y) ==> in_bounds(final(self).root.level - 2, x, y),
    {
        let ghost start = *self;
        while self.root.level < MAX_LEVEL && (self.root.level < INITIAL_LEVEL || self.step_log_2
            > self.root.level - 2 || !self.is_centered())
            invariant
                self.wf(),
                forall|x: int, y: int| #[trigger] self.alive(x, y) == start.alive(x, y),
                forall|x: int, y: int| start.covers(x, y) ==> #[trigger] self.covers(x, y),
                self.generation == start.generation,
                self.step_log_2 == start.step_log_2,
            decreases MAX_LEVEL - self.root.level,
        {
            self.expand_root();
        }
    }

    /// Advances the grid by a step of `2^step_log_2` generations.
    ///
    /// The region the grid holds after the step is the central half of the
    /// padded region before it; within it every cell is as Conway's rule
    /// makes it. That region reaches at least half a step beyond every cell
    /// that was alive, when the alive cells lie within `2^61` of the origin.
    pub fn step(&mut self)
        requires
            old(self).wf(),
            old(self).gen() + two_pow(old(self).log_step()) <= u128::MAX,
        ensures
            final(self).wf(),
            final(self).gen() == old(self).gen() + two_pow(old(self).log_step()),
            final(self).log_step() == old(self).log_step(),
            forall|x: int, y: int|
                final(self).covers(x, y) ==> #[trigger] final(self).alive(x, y) == evolve(
                    old(self).grid(),
                    two_pow(old(self).log_step()) as nat,
                )(x, y),
            (forall|x: int, y: int| old(self).alive(x, y) ==> in_bounds(MAX_LEVEL - 2, x, y)) ==> forall|
                x: int,
                y: int,
                u: int,
                v: int,
            |
                #![trigger old(self).alive(x, y), final(self).covers(u, v)]
                old(self).alive(x, y) && -two_pow(old(self).log_step()) <= 2 * (u - x) <= two_pow(
                    old(self).log_step(),
                ) && -two_pow(old(self).log_step()) <= 2 * (v - y) <= two_pow(old(self).log_step())
                    ==> final(self).covers(u, v),
    {
        self.pad();
        let ghost padded = *self;
        let ghost t = two_pow(self.step_log_2 as nat) as nat;
        self.root = self.root.step(&mut self.store, self.step_log_2 + 2);
        proof {
            crate::node::lemma_two_pow_pos(self.step_log_2 as nat);
            padded.store.lemma_grows(&self.store, padded.root);
            let g = grid_of(self.store.nodes(), padded.root);
            assert(g =~= old(self).grid()) by {
                assert forall|x: int, y: int| #[trigger] g(x, y) == old(self).grid()(x, y) by {
                    assert(padded.alive(x, y) == old(self).alive(x, y));
                }
            }
            assert(3 <= self.root.level);
            let l = padded.root.level as int;
            crate::node::lemma_quarter(l);
            crate::node::lemma_quarter(l - 1);
            crate::node::lemma_two_pow_monotonic(self.step_log_2 as nat, (l - 2) as nat);
        }
        let size = self.step_size();
        self.generation = self.generation + size as u128;
        proof {
            let l = padded.root.level as int;
            if forall|x: int, y: int| old(self).alive(x, y) ==> in_bounds(MAX_LEVEL - 2, x, y) {
                assert forall|x: int, y: int, u: int, v: int|
                    #![trigger old(self).alive(x, y), self.covers(u, v)]
                    old(self).alive(x, y) && -(t as int) <= 2 * (u - x) <= t && -(t as int) <= 2 * (v - y) <= t
                        implies self.covers(u, v) by {
                    assert(padded.alive(x, y));
                    assert(in_bounds(l - 2, x, y));
                    assert(self.root.level == l - 1);
                }
            }
        }
    }
}

impl Default for Life {
    /// An empty Life grid.
    fn default() -> (life: Self)
        ensures
            life.wf(),
            forall|x: int, y: int| !#[trigger] life.alive(x, y),
            life.gen() == 0,
            life.log_step() == 0,
    {
        Self::new()
    }
}

/// Whether `(x, y)` is among the cells.
pub open spec fn listed_cell(cells: Seq<(int, int)>, x: int, y: int) -> bool {
    exists|i: int| 0 <= i < cells.len() && #[trigger] cells[i] == (x, y)
}

/// A node of level 34 or more covers every `u32` coordinate.
proof fn lemma_large_level_covers(level: int)
    requires
        34 <= level <= MAX_LEVEL,
    ensures
        min_coord_of(level) < 0,
        max_coord_of(level) > u32::MAX,
{
    crate::node::lemma_two_pow_monotonic(33, (level - 1) as nat);
    crate::node::lemma_two_pow_u64(33);
    assert((1u64 << 33u64) == 0x2_0000_0000u64) by (bit_vector);
}

} // verus!
