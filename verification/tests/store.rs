use smeagol::store::{Leaf, Node, NodeKind, Position, Store};
use smeagol::Cell;

#[test]
fn store_alive_cells() {
    let empty = Leaf::new(0);
    let nw_leaf = Leaf::new(0x_80_00_00_00_00_00_00_00);
    let ne_leaf = Leaf::new(0x_01_00_00_00_00_00_00_00);
    let sw_leaf = Leaf::new(0x_00_00_00_00_00_00_00_80);
    let se_leaf = Leaf::new(0x_00_00_00_00_00_00_00_01);
    let four_corners = Leaf::new(nw_leaf.alive | ne_leaf.alive | sw_leaf.alive | se_leaf.alive);

    let no_positions: &[Position] = &[];
    assert_eq!(&*empty.alive_cells(), no_positions);
    assert_eq!(&*nw_leaf.alive_cells(), &[Position::new(-4, -4)]);
    assert_eq!(&*ne_leaf.alive_cells(), &[Position::new(3, -4)]);
    assert_eq!(&*sw_leaf.alive_cells(), &[Position::new(-4, 3)]);
    assert_eq!(&*se_leaf.alive_cells(), &[Position::new(3, 3)]);
    assert_eq!(
        &*four_corners.alive_cells(),
        &[
            Position::new(-4, -4),
            Position::new(3, -4),
            Position::new(-4, 3),
            Position::new(3, 3)
        ]
    );
}

#[test]
fn store_leaf_population_and_cells() {
    let full = Leaf::new(u64::MAX);
    assert_eq!(full.population(), 64);
    assert_eq!(full.alive_cells().len(), 64);
    assert_eq!(Leaf::new(0b1011).population(), 3);
    // inside the leaf there is no answer
    assert_eq!(full.get_cell(Position::new(0, 0)), None);
    // outside it, the bit its index names: (-5, 3) has index 8, the cell (3, 2)
    assert_eq!(Leaf::new(1 << 8).get_cell(Position::new(-5, 3)), Some(Cell::Alive));
    assert_eq!(Leaf::new(1 << 9).get_cell(Position::new(-5, 3)), Some(Cell::Dead));
}

#[test]
fn store_init_chain() {
    let mut store: Store<()> = Store::new(());
    let top = store.init();
    let mut id = top;
    let mut branches = 0;
    loop {
        match store.get_node(id).unwrap() {
            Node::Branch(branch) => {
                assert_eq!(branch.population, 0);
                assert_eq!(branch.side_len, 16);
                let children = branch.children;
                assert!(children.0.iter().all(|c| *c == children.0[0]));
                assert_eq!(Node::Branch(branch).kind(), NodeKind::Branch);
                id = children.0[0];
                branches += 1;
            }
            Node::Leaf(leaf) => {
                assert_eq!(leaf, Leaf::new(0));
                assert_eq!(Node::Leaf(leaf).population(), 0);
                break;
            }
        }
    }
    assert_eq!(branches, 61);

    let on_leaf = |n: u32, leaf: Leaf| Some(n + leaf.population() as u32);
    let on_branch = |n: u32, _: smeagol::store::Branch| Some(n + 1000);
    assert_eq!(store.visit(5, top, &on_leaf, &on_branch), Some(1005));
    assert_eq!(store.visit(5, id, &on_leaf, &on_branch), Some(5));
}
