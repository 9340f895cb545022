use smeagol::node::cell_sets::{partition_horiz, partition_vert};
use smeagol::node::Store;
use smeagol::Cell;

#[test]
fn partition() {
    let mut coords: Vec<(i64, i64)> = vec![(1, 0), (-2, 1), (3, -2), (-1, -2), (0, 0), (-1, -1), (5, 5)];
    let pivot = 0;

    let index = partition_horiz(&mut coords, pivot);
    assert_eq!(index, 3);
    for i in 0..index {
        assert!(coords[i].0 < pivot);
    }
    for i in index..coords.len() {
        assert!(coords[i].0 >= pivot);
    }

    let index = partition_vert(&mut coords, pivot);
    assert_eq!(index, 3);
    for i in 0..index {
        assert!(coords[i].1 < pivot);
    }
    for i in index..coords.len() {
        assert!(coords[i].1 >= pivot);
    }
}

#[test]
fn contains_alive_cells() {
    let mut store = Store::new();
    let empty = store.create_empty(3);
    assert!(!empty.contains_alive_cells(
        &store,
        (empty.min_coord(), empty.min_coord()),
        (empty.max_coord(), empty.max_coord())
    ));

    for x in empty.min_coord()..=empty.max_coord() {
        for y in empty.min_coord()..=empty.max_coord() {
            let one_alive = empty.set_cell(&mut store, x, y, Cell::Alive);
            assert!(one_alive.contains_alive_cells(&store, (x, y), (x, y)));
            assert!(one_alive.contains_alive_cells(&store, (empty.min_coord(), y), (empty.max_coord(), y)));
            assert!(one_alive.contains_alive_cells(&store, (x, empty.min_coord()), (x, empty.max_coord())));
            assert!(one_alive.contains_alive_cells(
                &store,
                (empty.min_coord(), empty.min_coord()),
                (empty.max_coord(), empty.max_coord())
            ));
        }
    }
}

fn set_alive_helper(level: u8, mut coords: Vec<(i64, i64)>) {
    let mut store = Store::new();
    let empty = store.create_empty(level);
    let node = empty.set_cells_alive(&mut store, &mut coords);

    for &(x, y) in &coords {
        assert_eq!(node.get_cell(&store, x, y), Cell::Alive);
    }

    let mut alive_cells = node.get_alive_cells(&store);
    coords.sort();
    alive_cells.sort();
    assert_eq!(coords, alive_cells);
}

fn get_set_helper(level: u8) {
    let mut store = Store::new();
    let empty = store.create_empty(level);

    for x in empty.min_coord()..=empty.max_coord() {
        for y in empty.min_coord()..=empty.max_coord() {
            assert_eq!(empty.get_cell(&store, x, y), Cell::Dead);

            let one_alive = empty.set_cell(&mut store, x, y, Cell::Alive);
            assert_eq!(one_alive.get_cell(&store, x, y), Cell::Alive);

            let alive_cells = one_alive.get_alive_cells(&store);
            assert_eq!(alive_cells.len(), 1);
            assert_eq!(alive_cells[0], (x, y));

            let dead_again = one_alive.set_cell(&mut store, x, y, Cell::Dead);
            assert_eq!(dead_again.get_cell(&store, x, y), Cell::Dead);
        }
    }
}

#[test]
fn set_alive_leaf() {
    set_alive_helper(0, vec![]);
    set_alive_helper(0, vec![(0, 0)]);
}

#[test]
fn set_alive_lvl1() {
    set_alive_helper(1, vec![]);
    set_alive_helper(1, vec![(0, 0)]);
    set_alive_helper(1, vec![(-1, -1), (0, 0)]);
    set_alive_helper(1, vec![(-1, -1), (-1, 0), (0, -1), (0, 0)]);
}

#[test]
fn set_alive_lvl2() {
    set_alive_helper(2, vec![]);
    set_alive_helper(2, vec![(0, 0)]);
    set_alive_helper(2, vec![(-1, -1), (0, 0)]);
    set_alive_helper(2, vec![(-1, -1), (-1, 0), (0, -1), (0, 0)]);
    set_alive_helper(2, vec![(-2, -2), (1, 1)]);
}

#[test]
fn get_set_leaf() {
    get_set_helper(0)
}

#[test]
fn get_set_lvl1() {
    get_set_helper(1)
}

#[test]
fn get_set_lvl2() {
    get_set_helper(2)
}

#[test]
fn get_set_lvl3() {
    get_set_helper(3)
}

#[test]
fn set_alive_lvl4_population() {
    let mut store = Store::new();
    let empty = store.create_empty(4);
    let mut coords: Vec<(i64, i64)> = vec![(-8, -8), (7, 7), (0, 0), (-1, 3), (5, -6)];
    let node = empty.set_cells_alive(&mut store, &mut coords);
    assert_eq!(node.population(&store), 5);
    let mut alive = node.get_alive_cells(&store);
    alive.sort();
    coords.sort();
    assert_eq!(alive, coords);
}
