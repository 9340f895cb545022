use smeagol::bool8x8::Bool8x8;
use smeagol::coords::Offset;
use smeagol::grid::Grid2;
use smeagol::rule::Rule;
use smeagol::tree::Leaf;
use smeagol::Cell;

#[test]
fn node_glider() {
    let life = Rule::new(&[3], &[2, 3]);

    let nw_start = Leaf::new(Bool8x8(0x_00_00_00_00_00_00_01_00));
    let ne_start = Leaf::new(Bool8x8(0x_00_00_00_00_00_00_00_80));
    let sw_start = Leaf::new(Bool8x8(0x_03_00_00_00_00_00_00_00));
    let se_start = Leaf::new(Bool8x8(0x_80_00_00_00_00_00_00_00));
    let start = Grid2([nw_start, ne_start, sw_start, se_start]);

    let idle_leaf = Leaf::new(Bool8x8(0x_00_00_10_08_38_00_00_00));
    assert_eq!(idle_leaf, Leaf::join_corners(start));

    let jump_leaf = Leaf::new(Bool8x8(0x_00_00_00_08_04_1C_00_00));
    assert_eq!(idle_leaf.alive.shift(Offset::Southeast(1)), jump_leaf.alive);

    assert_eq!(Leaf::evolve_leaves(start, 0, life), idle_leaf);
    assert_eq!(Leaf::evolve_leaves(start, 4, life), jump_leaf);
}

#[test]
fn glider_three_steps() {
    // a glider in the middle of one leaf, three generations later by the
    // leaf's own step and by evolve_leaves over the four leaves around it
    let life = Rule::new(&[3], &[2, 3]);
    let glider = Leaf::new(Bool8x8(0x_00_00_10_08_38_00_00_00));
    let once = glider.step(life);
    // generation 1 of the glider
    assert_eq!(once, Leaf::new(Bool8x8(0x_00_00_00_28_18_10_00_00)));
    let twice = glider.jump(life);
    assert_eq!(twice, Leaf::new(Bool8x8(0x_00_00_00_08_28_18_00_00)));
}

#[test]
fn blinker_steps() {
    let life = Rule::new(&[3], &[2, 3]);
    // a vertical blinker in the middle of a leaf turns horizontal
    let vertical = Leaf::new(Bool8x8(0x_00_00_10_10_10_00_00_00));
    let horizontal = Leaf::new(Bool8x8(0x_00_00_00_38_00_00_00_00));
    assert_eq!(vertical.step(life), horizontal);
    assert_eq!(vertical.jump(life), vertical);
    // a rule where nothing is born and nothing survives clears the leaf
    let none = Rule::new(&[], &[]);
    assert_eq!(vertical.step(none), Leaf::new(Bool8x8(0)));
    // counts above 8 are ignored
    assert_eq!(Rule::new(&[3, 9], &[2, 3, 200]), life);
}

#[test]
fn joins() {
    let a = Leaf::new(Bool8x8(0x_01_00_00_00_00_00_00_00)); // (7, 0)
    let b = Leaf::new(Bool8x8(0x_80_00_00_00_00_00_00_00)); // (0, 0)
    // across the seam: (7, 0) of the west leaf is (3, 0), (0, 0) of the east
    // leaf is (4, 0)
    assert_eq!(Leaf::join_horiz(a, b), Leaf::new(Bool8x8(0x_18_00_00_00_00_00_00_00)));
    let c = Leaf::new(Bool8x8(0x_00_00_00_00_00_00_00_80)); // (0, 7)
    assert_eq!(Leaf::join_vert(c, b), Leaf::new(Bool8x8(0x_00_00_00_80_80_00_00_00)));
    let centers = Leaf::join_centers(Grid2([Leaf::new(Bool8x8(0x_00_00_00_00_00_00_00_00)), b, c, a]));
    assert_eq!(centers, Leaf::new(Bool8x8(0)));
}

#[test]
fn evolve_leaves_one_step_wraps() {
    // for one step the quadrants of the center evolve as if they wrapped
    // around, so the glider's first generation does not come out
    let life = Rule::new(&[3], &[2, 3]);
    let start = Grid2([
        Leaf::new(Bool8x8(0x_00_00_00_00_00_00_01_00)),
        Leaf::new(Bool8x8(0x_00_00_00_00_00_00_00_80)),
        Leaf::new(Bool8x8(0x_03_00_00_00_00_00_00_00)),
        Leaf::new(Bool8x8(0x_80_00_00_00_00_00_00_00)),
    ]);
    let first_generation = Leaf::new(Bool8x8(0x_00_00_00_28_18_10_00_00));
    assert_ne!(Leaf::evolve_leaves(start, 1, life), first_generation);
}

#[test]
fn leaf_cells_far_from_center() {
    // the index wraps into the leaf from far away, as 63 - 8 (y + 4) - (x + 4)
    let (x, y) = (-(1i64 << 32) + 27, 1i64 << 29);
    let leaf = Leaf::dead().set_cell(x, y, Cell::Alive);
    assert_eq!(leaf.alive, Bool8x8(1));
    assert_eq!(leaf.get_cell(x, y), Cell::Alive);
    assert_eq!(leaf.get_cell(3, 3), Cell::Alive);
}
