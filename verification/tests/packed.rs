use smeagol::node::Level;
use smeagol::packed::{NodeTemplate, Store};
use smeagol::Position;

fn get_set_helper(level: u8) {
    let mut store = Store::new();
    let empty = store.create_empty(Level(level));

    let min = empty.min_coord(&store);
    let max = empty.max_coord(&store);
    for x in min..=max {
        for y in min..=max {
            let pos = Position { x, y };
            let one_alive = empty.set_cell_alive(&mut store, pos);
            let also_one_alive = empty.set_cells_alive(&mut store, vec![pos]);
            assert_eq!(one_alive, also_one_alive);
            assert!(one_alive.get_cell(&store, pos).is_alive());
            assert_eq!(one_alive.get_alive_cells(&store), vec![pos]);
        }
    }
}

#[test]
fn get_set_get_set() {
    get_set_helper(4);
    get_set_helper(5);
}

#[test]
fn center_subnode_level_5() {
    let mut store = Store::new();

    let nw = store.create_leaf([
        0b0000_0000_0000_0000,
        0b0000_0000_0000_0000,
        0b0000_0000_0000_0000,
        0b0000_0000_0000_0000,
        0b0000_0000_0000_0000,
        0b0000_0000_0000_0000,
        0b0000_0000_0000_0000,
        0b0000_0000_0000_0000,
        0b0000_0000_1111_1111,
        0b0000_0000_1111_1111,
        0b0000_0000_1111_1111,
        0b0000_0000_1111_1111,
        0b0000_0000_1111_1111,
        0b0000_0000_1111_1111,
        0b0000_0000_1111_1111,
        0b0000_0000_1111_1111,
    ]);

    let ne = store.create_leaf([
        0b0000_0000_0000_0000,
        0b0000_0000_0000_0000,
        0b0000_0000_0000_0000,
        0b0000_0000_0000_0000,
        0b0000_0000_0000_0000,
        0b0000_0000_0000_0000,
        0b0000_0000_0000_0000,
        0b0000_0000_0000_0000,
        0b1111_1111_0000_0000,
        0b1111_1111_0000_0000,
        0b1111_1111_0000_0000,
        0b1111_1111_0000_0000,
        0b1111_1111_0000_0000,
        0b1111_1111_0000_0000,
        0b1111_1111_0000_0000,
        0b1111_1111_0000_0000,
    ]);

    let sw = store.create_leaf([
        0b0000_0000_1111_1111,
        0b0000_0000_1111_1111,
        0b0000_0000_1111_1111,
        0b0000_0000_1111_1111,
        0b0000_0000_1111_1111,
        0b0000_0000_1111_1111,
        0b0000_0000_1111_1111,
        0b0000_0000_1111_1111,
        0b0000_0000_0000_0000,
        0b0000_0000_0000_0000,
        0b0000_0000_0000_0000,
        0b0000_0000_0000_0000,
        0b0000_0000_0000_0000,
        0b0000_0000_0000_0000,
        0b0000_0000_0000_0000,
        0b0000_0000_0000_0000,
    ]);

    let se = store.create_leaf([
        0b1111_1111_0000_0000,
        0b1111_1111_0000_0000,
        0b1111_1111_0000_0000,
        0b1111_1111_0000_0000,
        0b1111_1111_0000_0000,
        0b1111_1111_0000_0000,
        0b1111_1111_0000_0000,
        0b1111_1111_0000_0000,
        0b0000_0000_0000_0000,
        0b0000_0000_0000_0000,
        0b0000_0000_0000_0000,
        0b0000_0000_0000_0000,
        0b0000_0000_0000_0000,
        0b0000_0000_0000_0000,
        0b0000_0000_0000_0000,
        0b0000_0000_0000_0000,
    ]);

    let expected_center_subnode = store.create_leaf([0b1111_1111_1111_1111; 16]);

    let level_5 = store.create_interior(NodeTemplate { nw, ne, sw, se });
    let center_subnode = level_5.center_subnode(&mut store);

    assert_eq!(center_subnode, expected_center_subnode);
}

#[test]
fn north_subsubnode_level_6() {
    let mut store = Store::new();

    let mut level_6 = store.create_empty(Level(6));
    for x in -8..8 {
        for y in -24..8 {
            level_6 = level_6.set_cell_alive(&mut store, Position { x, y });
        }
    }

    let north_subsubnode = level_6.north_subsubnode(&mut store);
    let expected_north_subsubnode = store.create_leaf([0b1111_1111_1111_1111; 16]);

    assert_eq!(north_subsubnode, expected_north_subsubnode);
}

#[test]
fn south_subsubnode_level_6() {
    let mut store = Store::new();

    let mut level_6 = store.create_empty(Level(6));
    for x in -8..8 {
        for y in 8..24 {
            level_6 = level_6.set_cell_alive(&mut store, Position { x, y });
        }
    }

    let south_subsubnode = level_6.south_subsubnode(&mut store);
    let expected_south_subsubnode = store.create_leaf([0b1111_1111_1111_1111; 16]);

    assert_eq!(south_subsubnode, expected_south_subsubnode);
}

#[test]
fn west_subsubnode_level_6() {
    let mut store = Store::new();

    let mut level_6 = store.create_empty(Level(6));
    for x in -24..-8 {
        for y in -8..8 {
            level_6 = level_6.set_cell_alive(&mut store, Position { x, y });
        }
    }

    let west_subsubnode = level_6.west_subsubnode(&mut store);
    let expected_west_subsubnode = store.create_leaf([0b1111_1111_1111_1111; 16]);

    assert_eq!(west_subsubnode, expected_west_subsubnode);
}

#[test]
fn east_subsubnode_level_6() {
    let mut store = Store::new();

    let mut level_6 = store.create_empty(Level(6));
    for x in 8..24 {
        for y in -8..8 {
            level_6 = level_6.set_cell_alive(&mut store, Position { x, y });
        }
    }

    let east_subsubnode = level_6.east_subsubnode(&mut store);
    let expected_east_subsubnode = store.create_leaf([0b1111_1111_1111_1111; 16]);

    assert_eq!(east_subsubnode, expected_east_subsubnode);
}

#[test]
fn packed_store_shares_equal_nodes() {
    let mut store = Store::new();
    let a = store.create_empty(Level(7));
    let b = store.create_empty(Level(7));
    assert_eq!(a, b);
    let leaf = store.create_leaf([0; 16]);
    let nw = a.nw(&store).nw(&store).nw(&store);
    assert_eq!(nw, leaf);
}

#[test]
fn packed_properties() {
    let mut store = Store::default();
    let leaf = store.create_leaf([0b1000_0001; 16]);
    assert_eq!(leaf.level(&store), Level(4));
    assert_eq!(leaf.population(&store), 32);
    assert_eq!(leaf.min_coord(&store), -8);
    assert_eq!(leaf.max_coord(&store), 7);
    let node = store.create_interior(NodeTemplate { nw: leaf, ne: leaf, sw: leaf, se: leaf });
    assert_eq!(node.level(&store), Level(5));
    assert_eq!(node.population(&store), 128);
    assert_eq!(node.min_coord(&store), -16);
    assert_eq!(node.max_coord(&store), 15);
}

#[test]
fn packed_expand_keeps_cells() {
    let mut store = Store::new();
    let mut node = store.create_empty(Level(5));
    let cells = vec![Position::new(-16, -16), Position::new(15, 15), Position::new(0, -1), Position::new(3, 7)];
    node = node.set_cells_alive(&mut store, cells.clone());
    let expanded = node.expand(&mut store);
    assert_eq!(expanded.level(&store), Level(6));
    assert_eq!(expanded.population(&store), 4);
    let mut alive = expanded.get_alive_cells(&store);
    alive.sort_by_key(|p| (p.y, p.x));
    let mut expected = cells;
    expected.sort_by_key(|p| (p.y, p.x));
    assert_eq!(alive, expected);
    assert!(!expanded.get_cell(&store, Position::new(-17, 0)).is_alive());
    let center = expanded.center_subnode(&mut store);
    assert_eq!(center, node);
}

#[test]
fn packed_set_cells_alive_counts_each_cell_once() {
    let mut store = Store::new();
    let empty = store.create_empty(Level(6));
    let node = empty.set_cells_alive(
        &mut store,
        vec![Position::new(1, 1), Position::new(1, 1), Position::new(-32, 31)],
    );
    assert_eq!(node.population(&store), 2);
    assert!(node.get_cell(&store, Position::new(-32, 31)).is_alive());
    assert!(!node.get_cell(&store, Position::new(31, -32)).is_alive());
}

#[test]
fn packed_store_caches() {
    let mut store = Store::new();
    let a = store.create_empty(Level(5));
    let b = store.create_empty(Level(4));
    assert_eq!(store.get_step(a), None);
    assert_eq!(store.get_jump(a), None);
    store.add_step(a, b);
    store.add_jump(a, a);
    assert_eq!(store.get_step(a), Some(b));
    assert_eq!(store.get_jump(a), Some(a));
    assert_eq!(store.get_step(b), None);
    assert_eq!(store.step_log_2(), 0);
    store.set_step_log_2(3);
    assert_eq!(store.step_log_2(), 3);
}

#[test]
fn packed_level_64_coords() {
    let mut store = Store::new();
    let top = store.create_empty(Level(64));
    assert_eq!(top.min_coord(&store), i64::MIN);
    assert_eq!(top.max_coord(&store), i64::MAX);
}
