use smeagol::node::Store;
use smeagol::Cell;

#[test]
fn block() {
    let mut store = Store::new();
    let block = store.create_empty(2);
    let block = block.set_cell(&mut store, -1, -1, Cell::Alive);
    let block = block.set_cell(&mut store, -1, 0, Cell::Alive);
    let block = block.set_cell(&mut store, 0, -1, Cell::Alive);
    let block = block.set_cell(&mut store, 0, 0, Cell::Alive);

    let expected = store.create_empty(1);
    let expected = expected.set_cell(&mut store, -1, -1, Cell::Alive);
    let expected = expected.set_cell(&mut store, -1, 0, Cell::Alive);
    let expected = expected.set_cell(&mut store, 0, -1, Cell::Alive);
    let expected = expected.set_cell(&mut store, 0, 0, Cell::Alive);

    assert_eq!(block.step_level_2(&mut store), expected);
}

fn blinker_case(cells: &[(i64, i64)], expected_cells: &[(i64, i64)]) {
    let mut store = Store::new();
    let mut blinker = store.create_empty(2);
    for &(x, y) in cells {
        blinker = blinker.set_cell(&mut store, x, y, Cell::Alive);
    }
    let mut expected = store.create_empty(1);
    for &(x, y) in expected_cells {
        expected = expected.set_cell(&mut store, x, y, Cell::Alive);
    }
    assert_eq!(blinker.step_level_2(&mut store), expected);
}

#[test]
fn vert_blinker_ne() {
    blinker_case(&[(0, -2), (0, -1), (0, 0)], &[(-1, -1), (0, -1)]);
}

#[test]
fn vert_blinker_nw() {
    blinker_case(&[(-1, -2), (-1, -1), (-1, 0)], &[(-1, -1), (0, -1)]);
}

#[test]
fn vert_blinker_sw() {
    blinker_case(&[(-1, -1), (-1, 0), (-1, 1)], &[(-1, 0), (0, 0)]);
}

#[test]
fn vert_blinker_se() {
    blinker_case(&[(0, -1), (0, 0), (0, 1)], &[(-1, 0), (0, 0)]);
}

#[test]
fn evolve_se_glider() {
    let glider_cells: Vec<(i64, i64)> = vec![(-2, 0), (-1, 0), (0, 0), (0, -1), (-1, -2)];
    let offset_glider = |dx: i64, dy: i64| -> Vec<(i64, i64)> {
        glider_cells.iter().map(|&(x, y)| (x + dx, y + dy)).collect()
    };

    // jumping
    let mut store = Store::new();
    for level in 4u8..8 {
        let mut glider = store.create_empty(level);
        for &(x, y) in &glider_cells {
            glider = glider.set_cell(&mut store, x, y, Cell::Alive);
        }
        let mut expected = store.create_empty(level - 1);
        let offset = 1i64 << (level - 4);
        for (x, y) in offset_glider(offset, offset) {
            expected = expected.set_cell(&mut store, x, y, Cell::Alive);
        }
        assert_eq!(glider.jump(&mut store), expected);
    }

    // stepping
    let mut store = Store::new();
    for cutoff in 4u8..=8 {
        let mut glider = store.create_empty(8);
        for &(x, y) in &glider_cells {
            glider = glider.set_cell(&mut store, x, y, Cell::Alive);
        }
        let mut expected = store.create_empty(7);
        let offset = 1i64 << (cutoff - 4);
        for (x, y) in offset_glider(offset, offset) {
            expected = expected.set_cell(&mut store, x, y, Cell::Alive);
        }
        assert_eq!(glider.step(&mut store, cutoff), expected);
    }
}
