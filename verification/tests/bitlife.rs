use smeagol::bitlife::{do_it, LifeRule, B3S23};
use smeagol::leaf::{Leaf, LeafPart};
use smeagol::quad::Quad;

#[test]
fn life_test() {
    let mut rows = [0u16; 16];
    rows[2] = 0b00100;
    rows[3] = 0b01000;
    rows[4] = 0b01110;
    let after = B3S23.tick(B3S23.tick(B3S23.tick(B3S23.tick(rows))));
    // four generations later the glider has moved one cell diagonally
    let mut expected = [0u16; 16];
    expected[3] = 0b01000;
    expected[4] = 0b10000;
    expected[5] = 0b11100;
    assert_eq!(after, expected);
}

#[test]
fn bitlife_edges_and_blinker() {
    // a blinker turns over
    let mut rows = [0u16; 16];
    rows[7] = 0b0000_0001_1100_0000;
    let mut turned = [0u16; 16];
    turned[6] = 0b0000_0000_1000_0000;
    turned[7] = 0b0000_0000_1000_0000;
    turned[8] = 0b0000_0000_1000_0000;
    assert_eq!(do_it(rows), turned);
    assert_eq!(do_it(turned), rows);
    // a block in the corner stays: nothing outside the grid is alive
    let mut corner = [0u16; 16];
    corner[0] = 0b1100_0000_0000_0000;
    corner[1] = 0b1100_0000_0000_0000;
    assert_eq!(do_it(corner), corner);
    // a blinker cut by the east edge dies down to a pair, then nothing
    let mut cut = [0u16; 16];
    cut[5] = 0b11;
    let once = do_it(cut);
    assert_eq!(once, [0u16; 16]);
}

#[test]
fn leaf_parts() {
    let nw = LeafPart::new([1, 2, 3, 4, 5, 6, 7, 8]);
    let ne = LeafPart::new([0x80, 0, 0, 0, 0, 0, 0, 0xFF]);
    let sw = LeafPart::new([0; 8]);
    let se = LeafPart::new([9, 9, 9, 9, 9, 9, 9, 9]);
    let leaf = Leaf::from_parts(Quad { nw, ne, sw, se });
    assert_eq!(leaf.cells[0], 0x0180);
    assert_eq!(leaf.cells[7], 0x08FF);
    assert_eq!(leaf.cells[8], 0x0009);
    let parts = leaf.to_parts();
    assert_eq!(parts, Quad { nw, ne, sw, se });
    assert_eq!(leaf.population(), 13 + 9 + 16);
    assert!(!leaf.is_empty());
    assert!(Leaf::empty().is_empty());
    assert_eq!(Leaf::SIDE, 16);
    assert_eq!(Leaf::SIDE_LOG2, 4);
}

#[test]
fn leaf_center_and_step() {
    let mut rows = [0u16; 16];
    // a block at columns 7, 8 of rows 7, 8: the middle of the leaf
    rows[7] = 0b0000_0001_1000_0000;
    rows[8] = 0b0000_0001_1000_0000;
    let leaf = Leaf::new(rows);
    assert_eq!(leaf.center(), LeafPart::new([0, 0, 0, 0b0001_1000, 0b0001_1000, 0, 0, 0]));
    assert_eq!(leaf.step(&B3S23, 5), leaf);
    assert_eq!(leaf.step(&B3S23, 0), leaf);
}

#[test]
fn leaf_steps_compose() {
    let mut rows = [0u16; 16];
    rows[2] = 0b0010_0000;
    rows[3] = 0b0100_0000;
    rows[4] = 0b0111_0000;
    rows[9] = 0b0000_0111;
    let leaf = Leaf::new(rows);
    assert_eq!(leaf.step(&B3S23, 0), leaf);
    assert_eq!(leaf.step(&B3S23, 5), leaf.step(&B3S23, 2).step(&B3S23, 3));
    assert_eq!(leaf.step(&B3S23, 7), leaf.step(&B3S23, 7).step(&B3S23, 0));
    assert_ne!(leaf.step(&B3S23, 1), leaf);
}
