use smeagol::bool8x8::Bool8x8;
use smeagol::grid::Grid2;
use smeagol::node::Level;
use smeagol::store::Store;
use smeagol::tree::{Branch, Children, Leaf, Node, TreeError};

#[test]
fn tree_node_level_and_population() {
    let leaf = Node::Leaf(Leaf::new(Bool8x8(0b1011)));
    assert_eq!(leaf.level(), Level(3));
    assert_eq!(leaf.population(), 3);

    let mut store: Store<()> = Store::new(());
    let id = store.init();
    let branch = Node::Branch(Branch { children: Grid2([id; 4]), level: Level(9), population: 17 });
    assert_eq!(branch.level(), Level(9));
    assert_eq!(branch.population(), 17);
}

#[test]
fn tree_classify() {
    let a = Leaf::new(Bool8x8(1));
    let b = Leaf::dead();
    let leaves = Grid2([Node::Leaf(a), Node::Leaf(b), Node::Leaf(b), Node::Leaf(a)]);
    assert_eq!(leaves.classify(), Ok(Children::Leaves(Grid2([a, b, b, a]))));

    let mut store: Store<()> = Store::new(());
    let id = store.init();
    let branch = Branch { children: Grid2([id; 4]), level: Level(4), population: 0 };
    let branches = Grid2([Node::Branch(branch); 4]);
    assert_eq!(branches.classify(), Ok(Children::Branches(Grid2([branch; 4]))));

    let mixed = Grid2([Node::Leaf(a), Node::Branch(branch), Node::Leaf(a), Node::Leaf(a)]);
    assert_eq!(mixed.classify(), Err(TreeError::Unbalanced));
}
