use rbtree::rbtree::node::{RbNode, RbNodeType};

#[test]
fn fresh_node_is_a_black_sentinel() {
    let n: RbNode<u32> = RbNode::new();
    assert!(n.is_nil());
    assert!(n.is_black());
    assert!(!n.is_red());
}

#[test]
fn init_materializes_a_sentinel() {
    let mut n: RbNode<&str> = RbNode::new();
    n.init(9, "nine", RbNodeType::Red);
    assert!(!n.is_nil());
    assert!(n.is_red());
    assert!(!n.is_black());
    assert_eq!(*n.key(), 9);
    assert_eq!(*n.value(), "nine");
}

#[test]
fn recoloring_a_real_node() {
    let mut n: RbNode<u32> = RbNode::new();
    n.init(1, 10, RbNodeType::Red);
    n.set_black();
    assert!(n.is_black());
    assert!(!n.is_red());
    n.set_red();
    assert!(n.is_red());
    assert!(!n.is_black());
}

#[test]
fn uninit_reverts_a_leaf_to_a_sentinel() {
    let mut n: RbNode<u32> = RbNode::new();
    n.init(4, 40, RbNodeType::Black);
    n.uninit();
    assert!(n.is_nil());
}
