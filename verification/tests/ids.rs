use smeagol::grid::Grid2;
use smeagol::ids::{Branch, Gen, Idx, Node, NodeId};
use smeagol::leaf::Leaf;

#[test]
fn node_side_and_emptiness() {
    let empty_leaf = Node::Leaf(Leaf::empty());
    assert_eq!(empty_leaf.side_log2(), 4);
    assert!(empty_leaf.is_empty());

    let mut rows = [0u16; 16];
    rows[7] = 0x0100;
    let leaf = Node::Leaf(Leaf::new(rows));
    assert!(!leaf.is_empty());

    let branch = Branch {
        side_log2: 5,
        is_empty: false,
        gen: Gen(2),
        child_indices: Grid2([Idx(0), Idx(1), Idx(2), Idx(3)]),
    };
    let node = Node::Branch(branch);
    assert_eq!(node.side_log2(), 5);
    assert!(!node.is_empty());
    assert_eq!(branch.children(), Grid2([
        NodeId::new(Idx(0), Gen(2)),
        NodeId::new(Idx(1), Gen(2)),
        NodeId::new(Idx(2), Gen(2)),
        NodeId::new(Idx(3), Gen(2)),
    ]));
}
