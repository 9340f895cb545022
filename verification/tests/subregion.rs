use smeagol::node::{Node, Store};
use smeagol::Cell;

fn with_cells(store: &mut Store, level: u8, cells: &[(i64, i64)]) -> Node {
    let mut node = store.create_empty(level);
    for &(x, y) in cells {
        node = node.set_cell(store, x, y, Cell::Alive);
    }
    node
}

const BLOCK: [(i64, i64); 4] = [(-1, -1), (-1, 0), (0, -1), (0, 0)];

#[test]
fn ne_lvl2() {
    let mut store = Store::new();
    let node = with_cells(&mut store, 2, &[(0, -1), (0, -2), (1, -1), (1, -2)]);
    let expected = with_cells(&mut store, 1, &BLOCK);
    assert_eq!(node.ne(&store), expected);
}

#[test]
fn subregion_ne() {
    let mut store = Store::new();
    let node = with_cells(&mut store, 1, &[(0, -1)]);
    let expected = store.create_leaf(Cell::Alive);
    assert_eq!(node.ne(&store), expected);
}

#[test]
fn subregion_nw() {
    let mut store = Store::new();
    let node = with_cells(&mut store, 1, &[(-1, -1)]);
    let expected = store.create_leaf(Cell::Alive);
    assert_eq!(node.nw(&store), expected);
}

#[test]
fn subregion_se() {
    let mut store = Store::new();
    let node = with_cells(&mut store, 1, &[(0, 0)]);
    let expected = store.create_leaf(Cell::Alive);
    assert_eq!(node.se(&store), expected);
}

#[test]
fn subregion_sw() {
    let mut store = Store::new();
    let node = with_cells(&mut store, 1, &[(-1, 0)]);
    let expected = store.create_leaf(Cell::Alive);
    assert_eq!(node.sw(&store), expected);
}

#[test]
fn subregion_center_subnode() {
    let mut store = Store::new();
    let node = with_cells(&mut store, 2, &BLOCK);
    let expected = with_cells(&mut store, 1, &BLOCK);
    assert_eq!(node.center_subnode(&mut store), expected);
}

#[test]
fn subregion_north_subsubnode() {
    let mut store = Store::new();
    let node = with_cells(&mut store, 3, &[(-1, -2), (-1, -3), (0, -2), (0, -3)]);
    let expected = with_cells(&mut store, 1, &BLOCK);
    assert_eq!(node.north_subsubnode(&mut store), expected);
}

#[test]
fn subregion_south_subsubnode() {
    let mut store = Store::new();
    let node = with_cells(&mut store, 3, &[(-1, 1), (-1, 2), (0, 1), (0, 2)]);
    let expected = with_cells(&mut store, 1, &BLOCK);
    assert_eq!(node.south_subsubnode(&mut store), expected);
}

#[test]
fn subregion_east_subsubnode() {
    let mut store = Store::new();
    let node = with_cells(&mut store, 3, &[(1, -1), (1, 0), (2, -1), (2, 0)]);
    let expected = with_cells(&mut store, 1, &BLOCK);
    assert_eq!(node.east_subsubnode(&mut store), expected);
}

#[test]
fn subregion_west_subsubnode() {
    let mut store = Store::new();
    let node = with_cells(&mut store, 3, &[(-2, -1), (-2, 0), (-3, -1), (-3, 0)]);
    let expected = with_cells(&mut store, 1, &BLOCK);
    assert_eq!(node.west_subsubnode(&mut store), expected);
}

#[test]
fn subregion_expand_keeps_cells() {
    let mut store = Store::new();
    let node = with_cells(&mut store, 2, &[(-2, -2), (1, 1), (0, -1)]);
    let big = node.expand(&mut store);
    assert_eq!(big.level(), 3);
    let mut cells = big.get_alive_cells(&store);
    cells.sort();
    assert_eq!(cells, vec![(-2, -2), (0, -1), (1, 1)]);
    assert_eq!(big.population(&store), 3);
}
