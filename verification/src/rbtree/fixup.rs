use vstd::prelude::*;

use super::node::{RawNode, RbNode, RbNodeType};

verus! {

/// Left rotation around the root of the subtree: the right child becomes the
/// new root. Keys, values and colors travel with their nodes, so the in-order
/// sequence and the stored map are unchanged.
pub(crate) fn rotate_left<V>(node: RbNode<V>) -> (res: RbNode<V>)
    requires
        node is Node,
        node.right_child() is Node,
    ensures
        res == node.spec_rotate_left(),
{
    match node {
        RbNode::Node(n) => {
            let raw = *n;
            match raw.right {
                RbNode::Node(rb) => {
                    let rraw = *rb;
                    RbNode::Node(
                        Box::new(
                            RawNode {
                                rb_node_type: rraw.rb_node_type,
                                key: rraw.key,
                                value: rraw.value,
                                left: RbNode::Node(
                                    Box::new(
                                        RawNode {
                                            rb_node_type: raw.rb_node_type,
                                            key: raw.key,
                                            value: raw.value,
                                            left: raw.left,
                                            right: rraw.left,
                                        },
                                    ),
                                ),
                                right: rraw.right,
                            },
                        ),
                    )
                },
                RbNode::Nil => unreached(),
            }
        },
        RbNode::Nil => unreached(),
    }
}

/// Right rotation around the root of the subtree: the left child becomes the
/// new root. The mirror image of `rotate_left`.
pub(crate) fn rotate_right<V>(node: RbNode<V>) -> (res: RbNode<V>)
    requires
        node is Node,
        node.left_child() is Node,
    ensures
        res == node.spec_rotate_right(),
{
    match node {
        RbNode::Node(n) => {
            let raw = *n;
            match raw.left {
                RbNode::Node(lb) => {
                    let lraw = *lb;
                    RbNode::Node(
                        Box::new(
                            RawNode {
                                rb_node_type: lraw.rb_node_type,
                                key: lraw.key,
                                value: lraw.value,
                                left: lraw.left,
                                right: RbNode::Node(
                                    Box::new(
                                        RawNode {
                                            rb_node_type: raw.rb_node_type,
                                            key: raw.key,
                                            value: raw.value,
                                            left: lraw.right,
                                            right: raw.right,
                                        },
                                    ),
                                ),
                            },
                        ),
                    )
                },
                RbNode::Nil => unreached(),
            }
        },
        RbNode::Nil => unreached(),
    }
}

/// Rebuild a node whose left subtree has just absorbed an insertion and may
/// carry one pending red-red violation at its root. Plays the grandparent of
/// the insertion fixup: recolors when the uncle (`r`) is red, otherwise turns
/// the violation into a line and rotates.
pub(crate) fn fix_ins_left<V>(
    c: RbNodeType,
    key: u64,
    value: V,
    l: RbNode<V>,
    r: RbNode<V>,
) -> (res: RbNode<V>)
    requires
        !(c is Nil),
        l.bst_ordered(),
        r.bst_ordered(),
        l.keys_lt(key),
        r.keys_gt(key),
        l.real_colored(),
        r.real_colored(),
        l.nearly_red_ok(),
        r.no_red_red(),
        c is Red ==> l.no_red_red() && !(r.node_type() is Red),
        l.balanced(),
        r.balanced(),
        l.black_height() == r.black_height(),
    ensures
        res.as_map() == l.as_map().union_prefer_right(r.as_map()).insert(key, value),
        res.bst_ordered(),
        res.real_colored(),
        res.balanced(),
        res.nearly_red_ok(),
        res.black_height() == l.black_height() + if c is Black {
            1nat
        } else {
            0nat
        },
        c is Black ==> res.no_red_red(),
        res is Node,
{
    let dirty = match &l {
        RbNode::Node(ln) => match ln.rb_node_type {
            RbNodeType::Red => ln.left.is_red() || ln.right.is_red(),
            _ => false,
        },
        RbNode::Nil => false,
    };
    proof {
        assert(dirty == (l.node_type() is Red && (l.left_child().node_type() is Red
            || l.right_child().node_type() is Red)));
    }
    if !dirty {
        let out = RbNode::Node(Box::new(RawNode { rb_node_type: c, key, value, left: l, right: r }));
        proof {
            assert(l.no_red_red());
            assert(out.as_map() =~= l.as_map().union_prefer_right(r.as_map()).insert(key, value));
        }
        out
    } else if r.is_red() {
        // Red uncle: recolor parent and uncle black, grandparent red.
        let ghost la = l;
        let ghost ra = r;
        let mut l2 = l;
        l2.set_black();
        let mut r2 = r;
        r2.set_black();
        let out = RbNode::Node(
            Box::new(
                RawNode { rb_node_type: RbNodeType::Red, key, value, left: l2, right: r2 },
            ),
        );
        proof {
            if c is Red {
                assert(la.no_red_red());
                assert(false);
            }
            la.lemma_recolored_props(RbNodeType::Black);
            ra.lemma_recolored_props(RbNodeType::Black);
            assert(l2.no_red_red() && r2.no_red_red());
            assert(out.as_map() =~= la.as_map().union_prefer_right(ra.as_map()).insert(key, value));
            assert(la.black_height() == la.left_child().black_height());
            assert(ra.black_height() == ra.left_child().black_height());
            assert(out.balanced());
            assert(out.black_height() == la.black_height() + 1);
            assert(out.bst_ordered());
            assert(out.no_red_red());
        }
        out
    } else {
        // Black uncle: straighten a zig-zag, then recolor and rotate the
        // grandparent away from the violating side.
        proof {
            if c is Red {
                assert(false);
            }
        }
        let ghost l0 = l;
        let tri = match &l {
            RbNode::Node(ln) => ln.right.is_red(),
            RbNode::Nil => false,
        };
        let l_line = if tri {
            proof {
                l0.lemma_rotate_left_props();
            }
            rotate_left(l)
        } else {
            l
        };
        proof {
            // The straightened subtree: red root, red left child, clean
            // children, and the black-height of the original.
            assert(l_line.as_map() == l0.as_map());
            assert(l_line.node_type() is Red);
            assert(l_line.left_child().node_type() is Red);
            assert(l_line.left_child().no_red_red());
            assert(l_line.right_child().no_red_red());
            assert(!(l_line.right_child().node_type() is Red));
            assert(l_line.left_child().bst_ordered() && l_line.right_child().bst_ordered());
            assert(l_line.bst_ordered());
            assert(l_line.real_colored());
            if tri {
                let ll = l0.left_child();
                let lr = l0.right_child();
                assert(ll.balanced() && lr.balanced() && ll.black_height() == lr.black_height());
                assert(lr.left_child().balanced() && lr.right_child().balanced()
                    && lr.left_child().black_height() == lr.right_child().black_height());
                assert(lr.black_height() == lr.left_child().black_height());
                assert(l_line.left_child().balanced());
                assert(l_line.left_child().black_height() == ll.black_height());
            }
            assert(l_line.balanced());
            assert(l_line.black_height() == l0.black_height());
        }
        let mut l_line = l_line;
        let ghost m = l_line;
        l_line.set_black();
        proof {
            m.lemma_recolored_props(RbNodeType::Black);
        }
        let gp = RbNode::Node(
            Box::new(
                RawNode { rb_node_type: RbNodeType::Red, key, value, left: l_line, right: r },
            ),
        );
        let out = rotate_right(gp);
        proof {
            gp.lemma_rotate_right_props();
            assert(gp.as_map() =~= l0.as_map().union_prefer_right(r.as_map()).insert(key, value));
            assert(out.right_child().no_red_red());
            assert(out.no_red_red());
            assert(out.right_child().balanced());
            assert(out.balanced());
            assert(out.real_colored());
            assert(out.black_height() == l0.black_height() + 1);
        }
        out
    }
}

/// Mirror image of `fix_ins_left`: the right subtree has just absorbed an
/// insertion and may carry one pending red-red violation at its root.
pub(crate) fn fix_ins_right<V>(
    c: RbNodeType,
    key: u64,
    value: V,
    l: RbNode<V>,
    r: RbNode<V>,
) -> (res: RbNode<V>)
    requires
        !(c is Nil),
        l.bst_ordered(),
        r.bst_ordered(),
        l.keys_lt(key),
        r.keys_gt(key),
        l.real_colored(),
        r.real_colored(),
        l.no_red_red(),
        r.nearly_red_ok(),
        c is Red ==> r.no_red_red() && !(l.node_type() is Red),
        l.balanced(),
        r.balanced(),
        l.black_height() == r.black_height(),
    ensures
        res.as_map() == l.as_map().union_prefer_right(r.as_map()).insert(key, value),
        res.bst_ordered(),
        res.real_colored(),
        res.balanced(),
        res.nearly_red_ok(),
        res.black_height() == l.black_height() + if c is Black {
            1nat
        } else {
            0nat
        },
        c is Black ==> res.no_red_red(),
        res is Node,
{
    let dirty = match &r {
        RbNode::Node(rn) => match rn.rb_node_type {
            RbNodeType::Red => rn.left.is_red() || rn.right.is_red(),
            _ => false,
        },
        RbNode::Nil => false,
    };
    proof {
        assert(dirty == (r.node_type() is Red && (r.left_child().node_type() is Red
            || r.right_child().node_type() is Red)));
    }
    if !dirty {
        let out = RbNode::Node(Box::new(RawNode { rb_node_type: c, key, value, left: l, right: r }));
        proof {
            assert(r.no_red_red());
            assert(out.as_map() =~= l.as_map().union_prefer_right(r.as_map()).insert(key, value));
        }
        out
    } else if l.is_red() {
        // Red uncle: recolor parent and uncle black, grandparent red.
        let ghost la = l;
        let ghost ra = r;
        let mut l2 = l;
        l2.set_black();
        let mut r2 = r;
        r2.set_black();
        let out = RbNode::Node(
            Box::new(
                RawNode { rb_node_type: RbNodeType::Red, key, value, left: l2, right: r2 },
            ),
        );
        proof {
            if c is Red {
                assert(ra.no_red_red());
                assert(false);
            }
            la.lemma_recolored_props(RbNodeType::Black);
            ra.lemma_recolored_props(RbNodeType::Black);
            assert(l2.no_red_red() && r2.no_red_red());
            assert(out.as_map() =~= la.as_map().union_prefer_right(ra.as_map()).insert(key, value));
            assert(la.black_height() == la.left_child().black_height());
            assert(ra.black_height() == ra.left_child().black_height());
            assert(out.balanced());
            assert(out.black_height() == la.black_height() + 1);
            assert(out.bst_ordered());
            assert(out.no_red_red());
        }
        out
    } else {
        // Black uncle: straighten a zig-zag, then recolor and rotate the
        // grandparent away from the violating side.
        proof {
            if c is Red {
                assert(false);
            }
        }
        let ghost r0 = r;
        let tri = match &r {
            RbNode::Node(rn) => rn.left.is_red(),
            RbNode::Nil => false,
        };
        let r_line = if tri {
            proof {
                r0.lemma_rotate_right_props();
            }
            rotate_right(r)
        } else {
            r
        };
        proof {
            // The straightened subtree: red root, red right child, clean
            // children, and the black-height of the original.
            assert(r_line.as_map() == r0.as_map());
            assert(r_line.node_type() is Red);
            assert(r_line.right_child().node_type() is Red);
            assert(r_line.left_child().no_red_red());
            assert(r_line.right_child().no_red_red());
            assert(!(r_line.left_child().node_type() is Red));
            assert(r_line.left_child().bst_ordered() && r_line.right_child().bst_ordered());
            assert(r_line.bst_ordered());
            assert(r_line.real_colored());
            if tri {
                let rl = r0.left_child();
                let rr = r0.right_child();
                assert(rl.balanced() && rr.balanced() && rl.black_height() == rr.black_height());
                assert(rl.left_child().balanced() && rl.right_child().balanced()
                    && rl.left_child().black_height() == rl.right_child().black_height());
                assert(rl.black_height() == rl.left_child().black_height());
                assert(r_line.right_child().balanced());
                assert(r_line.right_child().black_height() == rl.left_child().black_height());
            }
            assert(r_line.balanced());
            assert(r_line.black_height() == r0.black_height());
        }
        let mut r_line = r_line;
        let ghost m = r_line;
        r_line.set_black();
        proof {
            m.lemma_recolored_props(RbNodeType::Black);
        }
        let gp = RbNode::Node(
            Box::new(
                RawNode { rb_node_type: RbNodeType::Red, key, value, left: l, right: r_line },
            ),
        );
        let out = rotate_left(gp);
        proof {
            gp.lemma_rotate_left_props();
            assert(gp.as_map() =~= l.as_map().union_prefer_right(r0.as_map()).insert(key, value));
            assert(out.left_child().no_red_red());
            assert(out.no_red_red());
            assert(out.left_child().balanced());
            assert(out.balanced());
            assert(out.real_colored());
            assert(out.black_height() == l.black_height() + 1);
        }
        out
    }
}

/// Rebuild a node whose left subtree has just lost one unit of black-height
/// (a "double-black" deficiency). Resolves the deficiency by the sibling
/// cases of deletion rebalancing, or reports in the returned flag that the
/// whole subtree is now one black-height short.
#[verifier::rlimit(50)]
pub(crate) fn fix_del_left<V>(
    c: RbNodeType,
    key: u64,
    value: V,
    l: RbNode<V>,
    r: RbNode<V>,
) -> (res: (RbNode<V>, bool))
    requires
        !(c is Nil),
        l.bst_ordered(),
        r.bst_ordered(),
        l.keys_lt(key),
        r.keys_gt(key),
        l.real_colored(),
        r.real_colored(),
        l.no_red_red(),
        r.no_red_red(),
        !(l.node_type() is Red),
        c is Red ==> !(r.node_type() is Red),
        l.balanced(),
        r.balanced(),
        l.black_height() + 1 == r.black_height(),
    ensures
        res.0.as_map() == l.as_map().union_prefer_right(r.as_map()).insert(key, value),
        res.0.bst_ordered(),
        res.0.real_colored(),
        res.0.no_red_red(),
        res.0.balanced(),
        !res.1 ==> res.0.black_height() == r.black_height() + if c is Black {
            1nat
        } else {
            0nat
        },
        res.1 ==> res.0.black_height() + 1 == r.black_height() + if c is Black {
            1nat
        } else {
            0nat
        },
        res.1 ==> !(res.0.node_type() is Red),
        res.0.node_type() is Red ==> c is Red,
        c is Red ==> !res.1,
    decreases r,
{
    let ghost l0 = l;
    let ghost r0 = r;
    proof {
        assert(r is Node);
    }
    let rraw = match r {
        RbNode::Node(rb) => *rb,
        RbNode::Nil => unreached(),
    };
    proof {
        assert(r0.as_map() == rraw.left.as_map().union_prefer_right(rraw.right.as_map()).insert(
            rraw.key,
            rraw.value,
        ));
        assert forall|e: u64| rraw.left.as_map().dom().contains(e) implies e > key by {
            assert(r0.as_map().dom().contains(e));
        }
        assert forall|e: u64| rraw.right.as_map().dom().contains(e) implies e > key by {
            assert(r0.as_map().dom().contains(e));
        }
        assert(r0.as_map().dom().contains(rraw.key));
        assert(key < rraw.key);
        assert(forall|e: u64| l0.as_map().dom().contains(e) ==> e < rraw.key);
        assert(rraw.left.keys_lt(rraw.key));
        assert(rraw.right.keys_gt(rraw.key));
        assert(rraw.left.bst_ordered() && rraw.right.bst_ordered());
        assert(rraw.left.no_red_red() && rraw.right.no_red_red());
        assert(rraw.left.real_colored() && rraw.right.real_colored());
        assert(rraw.left.balanced() && rraw.right.balanced());
        assert(rraw.left.black_height() == rraw.right.black_height());
    }
    let s_red = match rraw.rb_node_type {
        RbNodeType::Red => true,
        _ => false,
    };
    if s_red {
        // Sibling red: the parent must be black. Rotating the parent toward
        // the deficient side gives the deficiency a black sibling, which the
        // recursive fixup resolves for good.
        proof {
            assert(c is Black);
            assert(!(rraw.left.node_type() is Red) && !(rraw.right.node_type() is Red));
            assert(rraw.left.black_height() == l0.black_height() + 1);
        }
        let (inner, d2) = fix_del_left(RbNodeType::Red, key, value, l, rraw.left);
        proof {
            assert(!d2);
        }
        let out = RbNode::Node(
            Box::new(
                RawNode {
                    rb_node_type: RbNodeType::Black,
                    key: rraw.key,
                    value: rraw.value,
                    left: inner,
                    right: rraw.right,
                },
            ),
        );
        proof {
            assert(inner.as_map() == l0.as_map().union_prefer_right(rraw.left.as_map()).insert(
                key,
                value,
            ));
            assert(out.as_map() =~= l0.as_map().union_prefer_right(r0.as_map()).insert(
                key,
                value,
            ));
            assert(inner.bst_ordered());
            assert(inner.keys_lt(rraw.key));
            assert(out.bst_ordered());
            assert(out.no_red_red());
            assert(out.real_colored());
            assert(out.balanced());
            assert(out.black_height() == r0.black_height() + 1);
        }
        (out, false)
    } else {
        let near_red = rraw.left.is_red();
        let far_red = rraw.right.is_red();
        proof {
            assert(rraw.left.black_height() == l0.black_height());
            assert(rraw.right.black_height() == l0.black_height());
        }
        if !near_red && !far_red {
            // Sibling and both its children black: recolor the sibling red.
            // A red parent absorbs the deficiency; a black parent passes it
            // up.
            let deficit = match c {
                RbNodeType::Black => true,
                _ => false,
            };
            let sib = RbNode::Node(
                Box::new(
                    RawNode {
                        rb_node_type: RbNodeType::Red,
                        key: rraw.key,
                        value: rraw.value,
                        left: rraw.left,
                        right: rraw.right,
                    },
                ),
            );
            let out = RbNode::Node(
                Box::new(
                    RawNode {
                        rb_node_type: RbNodeType::Black,
                        key,
                        value,
                        left: l,
                        right: sib,
                    },
                ),
            );
            proof {
                assert(sib.as_map() == r0.as_map());
                assert(sib.no_red_red());
                assert(sib.bst_ordered());
                assert(sib.real_colored());
                assert(sib.balanced());
                assert(sib.black_height() == l0.black_height());
                assert(sib.keys_gt(key));
                assert(out.as_map() =~= l0.as_map().union_prefer_right(r0.as_map()).insert(
                    key,
                    value,
                ));
                assert(out.bst_ordered());
                assert(out.no_red_red());
                assert(out.real_colored());
                assert(out.balanced());
                assert(out.black_height() == l0.black_height() + 1);
            }
            (out, deficit)
        } else if far_red {
            // Far child of the black sibling red: the sibling takes the
            // parent's color, parent and far child turn black, and the
            // parent rotates toward the deficient side.
            let mut sr = rraw.right;
            let ghost sr0 = sr;
            sr.set_black();
            let inner = RbNode::Node(
                Box::new(
                    RawNode {
                        rb_node_type: RbNodeType::Black,
                        key,
                        value,
                        left: l,
                        right: rraw.left,
                    },
                ),
            );
            let out = RbNode::Node(
                Box::new(
                    RawNode {
                        rb_node_type: c,
                        key: rraw.key,
                        value: rraw.value,
                        left: inner,
                        right: sr,
                    },
                ),
            );
            proof {
                sr0.lemma_recolored_props(RbNodeType::Black);
                assert(sr0.black_height() == sr0.left_child().black_height());
                assert(sr.as_map() == rraw.right.as_map());
                assert(inner.as_map() == l0.as_map().union_prefer_right(
                    rraw.left.as_map(),
                ).insert(key, value));
                assert(out.as_map() =~= l0.as_map().union_prefer_right(r0.as_map()).insert(
                    key,
                    value,
                ));
                assert(inner.bst_ordered());
                assert(inner.keys_lt(rraw.key));
                assert(sr.keys_gt(rraw.key));
                assert(out.bst_ordered());
                assert(inner.no_red_red());
                assert(out.no_red_red());
                assert(rraw.right is Node);
                assert(rraw.right.left_child().real_colored()
                    && rraw.right.right_child().real_colored());
                assert(sr.real_colored());
                assert(inner.real_colored());
                assert(out.real_colored());
                assert(inner.balanced());
                assert(out.balanced());
                assert(out.black_height() == r0.black_height() + if c is Black {
                    1nat
                } else {
                    0nat
                });
            }
            (out, false)
        } else {
            // Near child of the black sibling red, far child black: the red
            // near child becomes the subtree root, splitting the sibling.
            proof {
                assert(rraw.left is Node);
            }
            let slraw = match rraw.left {
                RbNode::Node(slb) => *slb,
                RbNode::Nil => unreached(),
            };
            proof {
                assert(r0.left_child().as_map().dom().contains(slraw.key));
                assert(r0.left_child().balanced() && r0.left_child().no_red_red());
                assert(slraw.left.black_height() == slraw.right.black_height());
            }
            let inner_l = RbNode::Node(
                Box::new(
                    RawNode {
                        rb_node_type: RbNodeType::Black,
                        key,
                        value,
                        left: l,
                        right: slraw.left,
                    },
                ),
            );
            let inner_r = RbNode::Node(
                Box::new(
                    RawNode {
                        rb_node_type: RbNodeType::Black,
                        key: rraw.key,
                        value: rraw.value,
                        left: slraw.right,
                        right: rraw.right,
                    },
                ),
            );
            let out = RbNode::Node(
                Box::new(
                    RawNode {
                        rb_node_type: c,
                        key: slraw.key,
                        value: slraw.value,
                        left: inner_l,
                        right: inner_r,
                    },
                ),
            );
            proof {
                assert(rraw.left.as_map() == slraw.left.as_map().union_prefer_right(
                    slraw.right.as_map(),
                ).insert(slraw.key, slraw.value));
                assert(rraw.left.as_map().dom().contains(slraw.key));
                assert(key < slraw.key && slraw.key < rraw.key);
                assert(slraw.left.keys_lt(slraw.key) && slraw.right.keys_gt(slraw.key));
                assert(slraw.left.bst_ordered() && slraw.right.bst_ordered());
                assert(slraw.left.no_red_red() && slraw.right.no_red_red());
                assert(slraw.left.real_colored() && slraw.right.real_colored());
                assert(slraw.left.balanced() && slraw.right.balanced());
                assert forall|e: u64| slraw.left.as_map().dom().contains(e) implies e > key && e
                    < slraw.key by {
                    assert(rraw.left.as_map().dom().contains(e));
                }
                assert forall|e: u64| slraw.right.as_map().dom().contains(e) implies e > slraw.key
                    && e < rraw.key by {
                    assert(rraw.left.as_map().dom().contains(e));
                }
                assert(forall|e: u64| rraw.right.as_map().dom().contains(e) ==> e > slraw.key);
                assert(forall|e: u64| l0.as_map().dom().contains(e) ==> e < slraw.key);
                assert(inner_l.as_map() == l0.as_map().union_prefer_right(
                    slraw.left.as_map(),
                ).insert(key, value));
                assert(inner_r.as_map() == slraw.right.as_map().union_prefer_right(
                    rraw.right.as_map(),
                ).insert(rraw.key, rraw.value));
                assert(out.as_map() =~= l0.as_map().union_prefer_right(r0.as_map()).insert(
                    key,
                    value,
                ));
                assert(inner_l.bst_ordered());
                assert(inner_r.bst_ordered());
                assert(inner_l.keys_lt(slraw.key));
                assert(inner_r.keys_gt(slraw.key));
                assert(out.bst_ordered());
                assert(inner_l.no_red_red());
                assert(inner_r.no_red_red());
                assert(out.no_red_red());
                assert(inner_l.real_colored());
                assert(inner_r.real_colored());
                assert(out.real_colored());
                assert(inner_l.balanced());
                assert(inner_r.balanced());
                assert(out.balanced());
                assert(out.black_height() == r0.black_height() + if c is Black {
                    1nat
                } else {
                    0nat
                });
            }
            (out, false)
        }
    }
}

/// Mirror image of `fix_del_left`: the right subtree has just lost one unit
/// of black-height.
#[verifier::rlimit(50)]
pub(crate) fn fix_del_right<V>(
    c: RbNodeType,
    key: u64,
    value: V,
    l: RbNode<V>,
    r: RbNode<V>,
) -> (res: (RbNode<V>, bool))
    requires
        !(c is Nil),
        l.bst_ordered(),
        r.bst_ordered(),
        l.keys_lt(key),
        r.keys_gt(key),
        l.real_colored(),
        r.real_colored(),
        l.no_red_red(),
        r.no_red_red(),
        !(r.node_type() is Red),
        c is Red ==> !(l.node_type() is Red),
        l.balanced(),
        r.balanced(),
        r.black_height() + 1 == l.black_height(),
    ensures
        res.0.as_map() == l.as_map().union_prefer_right(r.as_map()).insert(key, value),
        res.0.bst_ordered(),
        res.0.real_colored(),
        res.0.no_red_red(),
        res.0.balanced(),
        !res.1 ==> res.0.black_height() == l.black_height() + if c is Black {
            1nat
        } else {
            0nat
        },
        res.1 ==> res.0.black_height() + 1 == l.black_height() + if c is Black {
            1nat
        } else {
            0nat
        },
        res.1 ==> !(res.0.node_type() is Red),
        res.0.node_type() is Red ==> c is Red,
        c is Red ==> !res.1,
    decreases l,
{
    let ghost l0 = l;
    let ghost r0 = r;
    proof {
        assert(l is Node);
    }
    let lraw = match l {
        RbNode::Node(lb) => *lb,
        RbNode::Nil => unreached(),
    };
    proof {
        assert(l0.as_map() == lraw.left.as_map().union_prefer_right(lraw.right.as_map()).insert(
            lraw.key,
            lraw.value,
        ));
        assert forall|e: u64| lraw.left.as_map().dom().contains(e) implies e < key by {
            assert(l0.as_map().dom().contains(e));
        }
        assert forall|e: u64| lraw.right.as_map().dom().contains(e) implies e < key by {
            assert(l0.as_map().dom().contains(e));
        }
        assert(l0.as_map().dom().contains(lraw.key));
        assert(lraw.key < key);
        assert(forall|e: u64| r0.as_map().dom().contains(e) ==> e > lraw.key);
        assert(lraw.left.keys_lt(lraw.key));
        assert(lraw.right.keys_gt(lraw.key));
        assert(lraw.left.bst_ordered() && lraw.right.bst_ordered());
        assert(lraw.left.no_red_red() && lraw.right.no_red_red());
        assert(lraw.left.real_colored() && lraw.right.real_colored());
        assert(lraw.left.balanced() && lraw.right.balanced());
        assert(lraw.left.black_height() == lraw.right.black_height());
    }
    let s_red = match lraw.rb_node_type {
        RbNodeType::Red => true,
        _ => false,
    };
    if s_red {
        // Sibling red: the parent must be black. Rotating the parent toward
        // the deficient side gives the deficiency a black sibling, which the
        // recursive fixup resolves for good.
        proof {
            assert(c is Black);
            assert(!(lraw.left.node_type() is Red) && !(lraw.right.node_type() is Red));
            assert(lraw.right.black_height() == r0.black_height() + 1);
        }
        let (inner, d2) = fix_del_right(RbNodeType::Red, key, value, lraw.right, r);
        proof {
            assert(!d2);
        }
        let out = RbNode::Node(
            Box::new(
                RawNode {
                    rb_node_type: RbNodeType::Black,
                    key: lraw.key,
                    value: lraw.value,
                    left: lraw.left,
                    right: inner,
                },
            ),
        );
        proof {
            assert(inner.as_map() == lraw.right.as_map().union_prefer_right(r0.as_map()).insert(
                key,
                value,
            ));
            assert(out.as_map() =~= l0.as_map().union_prefer_right(r0.as_map()).insert(
                key,
                value,
            ));
            assert(inner.bst_ordered());
            assert(inner.keys_gt(lraw.key));
            assert(out.bst_ordered());
            assert(out.no_red_red());
            assert(out.real_colored());
            assert(out.balanced());
            assert(out.black_height() == l0.black_height() + 1);
        }
        (out, false)
    } else {
        let near_red = lraw.right.is_red();
        let far_red = lraw.left.is_red();
        proof {
            assert(lraw.left.black_height() == r0.black_height());
            assert(lraw.right.black_height() == r0.black_height());
        }
        if !near_red && !far_red {
            // Sibling and both its children black: recolor the sibling red.
            // A red parent absorbs the deficiency; a black parent passes it
            // up.
            let deficit = match c {
                RbNodeType::Black => true,
                _ => false,
            };
            let sib = RbNode::Node(
                Box::new(
                    RawNode {
                        rb_node_type: RbNodeType::Red,
                        key: lraw.key,
                        value: lraw.value,
                        left: lraw.left,
                        right: lraw.right,
                    },
                ),
            );
            let out = RbNode::Node(
                Box::new(
                    RawNode {
                        rb_node_type: RbNodeType::Black,
                        key,
                        value,
                        left: sib,
                        right: r,
                    },
                ),
            );
            proof {
                assert(sib.as_map() == l0.as_map());
                assert(sib.no_red_red());
                assert(sib.bst_ordered());
                assert(sib.real_colored());
                assert(sib.balanced());
                assert(sib.black_height() == r0.black_height());
                assert(sib.keys_lt(key));
                assert(out.as_map() =~= l0.as_map().union_prefer_right(r0.as_map()).insert(
                    key,
                    value,
                ));
                assert(out.bst_ordered());
                assert(out.no_red_red());
                assert(out.real_colored());
                assert(out.balanced());
                assert(out.black_height() == r0.black_height() + 1);
            }
            (out, deficit)
        } else if far_red {
            // Far child of the black sibling red: the sibling takes the
            // parent's color, parent and far child turn black, and the
            // parent rotates toward the deficient side.
            let mut sl = lraw.left;
            let ghost sl0 = sl;
            sl.set_black();
            let inner = RbNode::Node(
                Box::new(
                    RawNode {
                        rb_node_type: RbNodeType::Black,
                        key,
                        value,
                        left: lraw.right,
                        right: r,
                    },
                ),
            );
            let out = RbNode::Node(
                Box::new(
                    RawNode {
                        rb_node_type: c,
                        key: lraw.key,
                        value: lraw.value,
                        left: sl,
                        right: inner,
                    },
                ),
            );
            proof {
                sl0.lemma_recolored_props(RbNodeType::Black);
                assert(sl0.black_height() == sl0.left_child().black_height());
                assert(sl.as_map() == lraw.left.as_map());
                assert(inner.as_map() == lraw.right.as_map().union_prefer_right(
                    r0.as_map(),
                ).insert(key, value));
                assert(out.as_map() =~= l0.as_map().union_prefer_right(r0.as_map()).insert(
                    key,
                    value,
                ));
                assert(inner.bst_ordered());
                assert(inner.keys_gt(lraw.key));
                assert(sl.keys_lt(lraw.key));
                assert(out.bst_ordered());
                assert(inner.no_red_red());
                assert(out.no_red_red());
                assert(lraw.left is Node);
                assert(lraw.left.left_child().real_colored()
                    && lraw.left.right_child().real_colored());
                assert(sl.real_colored());
                assert(inner.real_colored());
                assert(out.real_colored());
                assert(inner.balanced());
                assert(out.balanced());
                assert(out.black_height() == l0.black_height() + if c is Black {
                    1nat
                } else {
                    0nat
                });
            }
            (out, false)
        } else {
            // Near child of the black sibling red, far child black: the red
            // near child becomes the subtree root, splitting the sibling.
            proof {
                assert(lraw.right is Node);
            }
            let srraw = match lraw.right {
                RbNode::Node(srb) => *srb,
                RbNode::Nil => unreached(),
            };
            proof {
                assert(lraw.right.as_map() == srraw.left.as_map().union_prefer_right(
                    srraw.right.as_map(),
                ).insert(srraw.key, srraw.value));
                assert(lraw.right.as_map().dom().contains(srraw.key));
                assert(lraw.key < srraw.key && srraw.key < key);
                assert(srraw.left.keys_lt(srraw.key) && srraw.right.keys_gt(srraw.key));
                assert(srraw.left.bst_ordered() && srraw.right.bst_ordered());
                assert(srraw.left.no_red_red() && srraw.right.no_red_red());
                assert(srraw.left.real_colored() && srraw.right.real_colored());
                assert(srraw.left.balanced() && srraw.right.balanced());
                assert(lraw.right.balanced() && lraw.right.no_red_red());
                assert(srraw.left.black_height() == srraw.right.black_height());
            }
            let inner_l = RbNode::Node(
                Box::new(
                    RawNode {
                        rb_node_type: RbNodeType::Black,
                        key: lraw.key,
                        value: lraw.value,
                        left: lraw.left,
                        right: srraw.left,
                    },
                ),
            );
            let inner_r = RbNode::Node(
                Box::new(
                    RawNode {
                        rb_node_type: RbNodeType::Black,
                        key,
                        value,
                        left: srraw.right,
                        right: r,
                    },
                ),
            );
            let out = RbNode::Node(
                Box::new(
                    RawNode {
                        rb_node_type: c,
                        key: srraw.key,
                        value: srraw.value,
                        left: inner_l,
                        right: inner_r,
                    },
                ),
            );
            proof {
                assert forall|e: u64| srraw.left.as_map().dom().contains(e) implies e < key && e
                    > lraw.key by {
                    assert(lraw.right.as_map().dom().contains(e));
                }
                assert forall|e: u64| srraw.right.as_map().dom().contains(e) implies e < key && e
                    > srraw.key by {
                    assert(lraw.right.as_map().dom().contains(e));
                }
                assert(forall|e: u64| lraw.left.as_map().dom().contains(e) ==> e < srraw.key);
                assert(forall|e: u64| r0.as_map().dom().contains(e) ==> e > srraw.key);
                assert(inner_l.as_map() == lraw.left.as_map().union_prefer_right(
                    srraw.left.as_map(),
                ).insert(lraw.key, lraw.value));
                assert(inner_r.as_map() == srraw.right.as_map().union_prefer_right(
                    r0.as_map(),
                ).insert(key, value));
                assert(out.as_map() =~= l0.as_map().union_prefer_right(r0.as_map()).insert(
                    key,
                    value,
                ));
                assert(inner_l.bst_ordered());
                assert(inner_r.bst_ordered());
                assert(inner_l.keys_lt(srraw.key));
                assert(inner_r.keys_gt(srraw.key));
                assert(out.bst_ordered());
                assert(inner_l.no_red_red());
                assert(inner_r.no_red_red());
                assert(out.no_red_red());
                assert(inner_l.real_colored());
                assert(inner_r.real_colored());
                assert(out.real_colored());
                assert(inner_l.balanced());
                assert(inner_r.balanced());
                assert(out.balanced());
                assert(out.black_height() == l0.black_height() + if c is Black {
                    1nat
                } else {
                    0nat
                });
            }
            (out, false)
        }
    }
}

/// Insert `key`/`value` into the subtree, returning the rebuilt subtree and
/// the previous value stored under `key`, if any. The result keeps the
/// black-height of the input and carries at most one red-red violation at its
/// root, which the caller repairs.
pub(crate) fn insert_node<V>(node: RbNode<V>, key: u64, value: V) -> (res: (RbNode<V>, Option<V>))
    requires
        node.bst_ordered(),
        node.real_colored(),
        node.no_red_red(),
        node.balanced(),
    ensures
        res.0.as_map() == node.as_map().insert(key, value),
        res.1 == if node.as_map().contains_key(key) {
            Some(node.as_map()[key])
        } else {
            None::<V>
        },
        res.0.bst_ordered(),
        res.0.real_colored(),
        res.0.balanced(),
        res.0.black_height() == node.black_height(),
        res.0.nearly_red_ok(),
        !(node.node_type() is Red) ==> res.0.no_red_red(),
        res.1 is Some ==> res.0 == node.with_value(key, value) && res.0.no_red_red(),
        res.0 is Node,
    decreases node,
{
    match node {
        RbNode::Nil => {
            let fresh = RbNode::Node(
                Box::new(
                    RawNode {
                        rb_node_type: RbNodeType::Red,
                        key,
                        value,
                        left: RbNode::Nil,
                        right: RbNode::Nil,
                    },
                ),
            );
            proof {
                assert(fresh.as_map() =~= node.as_map().insert(key, value));
            }
            (fresh, None)
        },
        RbNode::Node(n) => {
            let raw = *n;
            let c = raw.rb_node_type;
            if key == raw.key {
                let out = RbNode::Node(
                    Box::new(
                        RawNode {
                            rb_node_type: c,
                            key: raw.key,
                            value,
                            left: raw.left,
                            right: raw.right,
                        },
                    ),
                );
                proof {
                    assert(out.as_map() =~= node.as_map().insert(key, value));
                }
                (out, Some(raw.value))
            } else if key < raw.key {
                proof {
                    assert(!raw.right.as_map().dom().contains(key));
                }
                let (l2, prev) = insert_node(raw.left, key, value);
                match prev {
                    Some(prev_value) => {
                        let out = RbNode::Node(
                            Box::new(
                                RawNode {
                                    rb_node_type: c,
                                    key: raw.key,
                                    value: raw.value,
                                    left: l2,
                                    right: raw.right,
                                },
                            ),
                        );
                        proof {
                            assert(out.as_map() =~= node.as_map().insert(key, value));
                            assert(forall|e: u64| l2.as_map().dom().contains(e) ==> e < raw.key);
                        }
                        (out, Some(prev_value))
                    },
                    None => {
                        proof {
                            assert(forall|e: u64| l2.as_map().dom().contains(e) ==> e < raw.key);
                        }
                        let out = fix_ins_left(c, raw.key, raw.value, l2, raw.right);
                        proof {
                            assert(out.as_map() =~= node.as_map().insert(key, value));
                        }
                        (out, None)
                    },
                }
            } else {
                proof {
                    assert(!raw.left.as_map().dom().contains(key));
                }
                let (r2, prev) = insert_node(raw.right, key, value);
                match prev {
                    Some(prev_value) => {
                        let out = RbNode::Node(
                            Box::new(
                                RawNode {
                                    rb_node_type: c,
                                    key: raw.key,
                                    value: raw.value,
                                    left: raw.left,
                                    right: r2,
                                },
                            ),
                        );
                        proof {
                            assert(out.as_map() =~= node.as_map().insert(key, value));
                            assert(forall|e: u64| r2.as_map().dom().contains(e) ==> e > raw.key);
                        }
                        (out, Some(prev_value))
                    },
                    None => {
                        proof {
                            assert(forall|e: u64| r2.as_map().dom().contains(e) ==> e > raw.key);
                        }
                        let out = fix_ins_right(c, raw.key, raw.value, raw.left, r2);
                        proof {
                            assert(out.as_map() =~= node.as_map().insert(key, value));
                        }
                        (out, None)
                    },
                }
            }
        },
    }
}

/// Remove the minimum entry of a nonempty subtree. Returns the rebuilt
/// subtree, the removed key and value, and whether the subtree lost one unit
/// of black-height.
pub(crate) fn pop_min_node<V>(node: RbNode<V>) -> (res: (RbNode<V>, u64, V, bool))
    requires
        node is Node,
        node.bst_ordered(),
        node.real_colored(),
        node.no_red_red(),
        node.balanced(),
    ensures
        node.as_map().contains_key(res.1),
        res.2 == node.as_map()[res.1],
        forall|e: u64| node.as_map().dom().contains(e) ==> res.1 <= e,
        res.0.as_map() == node.as_map().remove(res.1),
        res.0.bst_ordered(),
        res.0.real_colored(),
        res.0.no_red_red(),
        res.0.balanced(),
        !res.3 ==> res.0.black_height() == node.black_height(),
        res.3 ==> res.0.black_height() + 1 == node.black_height(),
        res.3 ==> !(res.0.node_type() is Red),
        res.0.node_type() is Red ==> node.node_type() is Red,
    decreases node,
{
    let ghost node0 = node;
    let raw = match node {
        RbNode::Node(b) => *b,
        RbNode::Nil => unreached(),
    };
    proof {
        assert(node0.as_map() == raw.left.as_map().union_prefer_right(raw.right.as_map()).insert(
            raw.key,
            raw.value,
        ));
        assert(node0.as_map().dom().contains(raw.key));
        assert(raw.left.keys_lt(raw.key));
        assert(raw.right.keys_gt(raw.key));
        assert(raw.left.bst_ordered() && raw.right.bst_ordered());
        assert(raw.left.real_colored() && raw.right.real_colored());
        assert(raw.left.no_red_red() && raw.right.no_red_red());
        assert(raw.left.balanced() && raw.right.balanced());
        assert(raw.left.black_height() == raw.right.black_height());
    }
    match raw.left {
        RbNode::Nil => {
            // This node holds the minimum key; its right child takes its
            // place.
            proof {
                assert(raw.right.black_height() == 0);
            }
            match raw.right {
                RbNode::Node(_) => {
                    // The replacement is a red leaf; recolor it black to
                    // make up for the removed black node.
                    proof {
                        if raw.right.node_type() is Black {
                            assert(false);
                        }
                        assert(raw.right.node_type() is Red);
                        assert(raw.rb_node_type is Black);
                    }
                    let ghost r0 = raw.right;
                    let mut r2 = raw.right;
                    r2.set_black();
                    proof {
                        r0.lemma_recolored_props(RbNodeType::Black);
                        assert(r2.as_map() =~= node0.as_map().remove(raw.key));
                        assert(r0.left_child().real_colored()
                            && r0.right_child().real_colored());
                        assert(r0.left_child().no_red_red() && r0.right_child().no_red_red());
                        assert(r2.real_colored());
                        assert(r2.no_red_red());
                        assert(r2.black_height() == 1);
                        assert(node0.black_height() == 1);
                    }
                    (r2, raw.key, raw.value, false)
                },
                RbNode::Nil => {
                    let deficit = match raw.rb_node_type {
                        RbNodeType::Black => true,
                        _ => false,
                    };
                    proof {
                        assert(RbNode::<V>::Nil.as_map() =~= node0.as_map().remove(raw.key));
                    }
                    (RbNode::Nil, raw.key, raw.value, deficit)
                },
            }
        },
        RbNode::Node(_) => {
            let ghost left0 = raw.left;
            let (l2, min_key, min_value, d) = pop_min_node(raw.left);
            proof {
                assert(left0.as_map().dom().contains(min_key));
                assert(min_key < raw.key);
                assert(l2.keys_lt(raw.key));
                assert(!raw.right.as_map().dom().contains(min_key));
            }
            if d {
                let (out, d2) = fix_del_left(raw.rb_node_type, raw.key, raw.value, l2, raw.right);
                proof {
                    assert(out.as_map() =~= node0.as_map().remove(min_key));
                    assert(forall|e: u64| node0.as_map().dom().contains(e) ==> min_key <= e);
                }
                (out, min_key, min_value, d2)
            } else {
                let out = RbNode::Node(
                    Box::new(
                        RawNode {
                            rb_node_type: raw.rb_node_type,
                            key: raw.key,
                            value: raw.value,
                            left: l2,
                            right: raw.right,
                        },
                    ),
                );
                proof {
                    assert(out.as_map() =~= node0.as_map().remove(min_key));
                    assert(forall|e: u64| node0.as_map().dom().contains(e) ==> min_key <= e);
                    assert(out.bst_ordered());
                    assert(out.no_red_red());
                    assert(out.real_colored());
                    assert(out.balanced());
                }
                (out, min_key, min_value, false)
            }
        },
    }
}

/// Remove `key` from the subtree, which must contain it. Returns the rebuilt
/// subtree, the removed value, and whether the subtree lost one unit of
/// black-height. A node with two real children trades places with the
/// minimum of its right subtree, so the node physically removed always has
/// at most one real child.
pub(crate) fn remove_node<V>(node: RbNode<V>, key: u64) -> (res: (RbNode<V>, V, bool))
    requires
        node.bst_ordered(),
        node.real_colored(),
        node.no_red_red(),
        node.balanced(),
        node.as_map().contains_key(key),
    ensures
        res.0.as_map() == node.as_map().remove(key),
        res.1 == node.as_map()[key],
        res.0.bst_ordered(),
        res.0.real_colored(),
        res.0.no_red_red(),
        res.0.balanced(),
        !res.2 ==> res.0.black_height() == node.black_height(),
        res.2 ==> res.0.black_height() + 1 == node.black_height(),
        res.2 ==> !(res.0.node_type() is Red),
        res.0.node_type() is Red ==> node.node_type() is Red,
    decreases node,
{
    let ghost node0 = node;
    let raw = match node {
        RbNode::Node(b) => *b,
        RbNode::Nil => unreached(),
    };
    proof {
        assert(node0.as_map() == raw.left.as_map().union_prefer_right(raw.right.as_map()).insert(
            raw.key,
            raw.value,
        ));
        assert(node0.as_map().dom().contains(raw.key));
        assert(raw.left.keys_lt(raw.key));
        assert(raw.right.keys_gt(raw.key));
        assert(raw.left.bst_ordered() && raw.right.bst_ordered());
        assert(raw.left.real_colored() && raw.right.real_colored());
        assert(raw.left.no_red_red() && raw.right.no_red_red());
        assert(raw.left.balanced() && raw.right.balanced());
        assert(raw.left.black_height() == raw.right.black_height());
    }
    if key < raw.key {
        proof {
            assert(raw.left.as_map().dom().contains(key));
        }
        let ghost left0 = raw.left;
        let (l2, removed, d) = remove_node(raw.left, key);
        proof {
            assert(l2.keys_lt(raw.key));
            assert(node0.as_map()[key] == left0.as_map()[key]);
        }
        if d {
            let (out, d2) = fix_del_left(raw.rb_node_type, raw.key, raw.value, l2, raw.right);
            proof {
                assert(out.as_map() =~= node0.as_map().remove(key));
            }
            (out, removed, d2)
        } else {
            let out = RbNode::Node(
                Box::new(
                    RawNode {
                        rb_node_type: raw.rb_node_type,
                        key: raw.key,
                        value: raw.value,
                        left: l2,
                        right: raw.right,
                    },
                ),
            );
            proof {
                assert(out.as_map() =~= node0.as_map().remove(key));
                assert(out.bst_ordered());
                assert(out.no_red_red());
                assert(out.real_colored());
                assert(out.balanced());
            }
            (out, removed, false)
        }
    } else if key > raw.key {
        proof {
            assert(raw.right.as_map().dom().contains(key));
        }
        let ghost right0 = raw.right;
        let (r2, removed, d) = remove_node(raw.right, key);
        proof {
            assert(r2.keys_gt(raw.key));
            assert(node0.as_map()[key] == right0.as_map()[key]);
        }
        if d {
            let (out, d2) = fix_del_right(raw.rb_node_type, raw.key, raw.value, raw.left, r2);
            proof {
                assert(out.as_map() =~= node0.as_map().remove(key));
            }
            (out, removed, d2)
        } else {
            let out = RbNode::Node(
                Box::new(
                    RawNode {
                        rb_node_type: raw.rb_node_type,
                        key: raw.key,
                        value: raw.value,
                        left: raw.left,
                        right: r2,
                    },
                ),
            );
            proof {
                assert(out.as_map() =~= node0.as_map().remove(key));
                assert(out.bst_ordered());
                assert(out.no_red_red());
                assert(out.real_colored());
                assert(out.balanced());
            }
            (out, removed, false)
        }
    } else {
        // This is the node to remove.
        match raw.right {
            RbNode::Nil => {
                // At most the left child is real; by balance it is a red
                // leaf or a sentinel.
                proof {
                    assert(raw.left.black_height() == 0);
                }
                match raw.left {
                    RbNode::Node(_) => {
                        proof {
                            if raw.left.node_type() is Black {
                                assert(false);
                            }
                            assert(raw.left.node_type() is Red);
                            assert(raw.rb_node_type is Black);
                        }
                        let ghost l0 = raw.left;
                        let mut l2 = raw.left;
                        l2.set_black();
                        proof {
                            l0.lemma_recolored_props(RbNodeType::Black);
                            assert(l2.as_map() =~= node0.as_map().remove(key));
                            assert(l0.left_child().real_colored()
                                && l0.right_child().real_colored());
                            assert(l0.left_child().no_red_red()
                                && l0.right_child().no_red_red());
                            assert(l2.real_colored());
                            assert(l2.no_red_red());
                            assert(l2.black_height() == 1);
                            assert(node0.black_height() == 1);
                        }
                        (l2, raw.value, false)
                    },
                    RbNode::Nil => {
                        let deficit = match raw.rb_node_type {
                            RbNodeType::Black => true,
                            _ => false,
                        };
                        proof {
                            assert(RbNode::<V>::Nil.as_map() =~= node0.as_map().remove(key));
                        }
                        (RbNode::Nil, raw.value, deficit)
                    },
                }
            },
            RbNode::Node(_) => {
                // Two-child (or right-only) case: splice the successor, the
                // minimum of the right subtree, into this position.
                let ghost right0 = raw.right;
                let (r2, min_key, min_value, d) = pop_min_node(raw.right);
                proof {
                    assert(right0.as_map().dom().contains(min_key));
                    assert(min_key > raw.key);
                    assert(raw.left.keys_lt(min_key));
                    assert(r2.keys_gt(min_key));
                    assert(!raw.left.as_map().dom().contains(min_key));
                }
                if d {
                    let (out, d2) = fix_del_right(
                        raw.rb_node_type,
                        min_key,
                        min_value,
                        raw.left,
                        r2,
                    );
                    proof {
                        assert(out.as_map() =~= node0.as_map().remove(key));
                    }
                    (out, raw.value, d2)
                } else {
                    let out = RbNode::Node(
                        Box::new(
                            RawNode {
                                rb_node_type: raw.rb_node_type,
                                key: min_key,
                                value: min_value,
                                left: raw.left,
                                right: r2,
                            },
                        ),
                    );
                    proof {
                        assert(out.as_map() =~= node0.as_map().remove(key));
                        assert(out.bst_ordered());
                        assert(out.no_red_red());
                        assert(out.real_colored());
                        assert(out.balanced());
                    }
                    (out, raw.value, false)
                }
            },
        }
    }
}

/// Walk from the root toward `key`, comparing with the total order on keys.
/// Returns the key/value pair stored under `key`, or `None` when the walk
/// bottoms out at the sentinel position where `key` would be inserted.
pub(crate) fn find_nearest_node<'a, V>(node: &'a RbNode<V>, key: u64) -> (r: Option<
    (&'a u64, &'a V),
>)
    requires
        node.bst_ordered(),
    ensures
        match r {
            Some(kv) => node.as_map().contains_key(key) && *kv.0 == key && *kv.1
                == node.as_map()[key],
            None => !node.as_map().contains_key(key),
        },
    decreases node,
{
    match node {
        RbNode::Nil => None,
        RbNode::Node(n) => {
            if key < n.key {
                proof {
                    assert(!n.right.as_map().dom().contains(key));
                }
                find_nearest_node(&n.left, key)
            } else if key > n.key {
                proof {
                    assert(!n.left.as_map().dom().contains(key));
                }
                find_nearest_node(&n.right, key)
            } else {
                Some((&n.key, &n.value))
            }
        },
    }
}

/// Walk strictly left from `node`: the key of the last real node visited is
/// the minimum key of the subtree. Returns `None` only on a sentinel.
pub(crate) fn min_node<'a, V>(node: &'a RbNode<V>) -> (r: Option<&'a u64>)
    requires
        node.bst_ordered(),
    ensures
        match r {
            Some(k) => node.as_map().contains_key(*k) && (forall|e: u64|
                node.as_map().dom().contains(e) ==> *k <= e),
            None => node is Nil,
        },
    decreases node,
{
    match node {
        RbNode::Nil => None,
        RbNode::Node(n) => {
            let r = min_node(&n.left);
            match r {
                Some(k) => {
                    proof {
                        assert(n.left.as_map().dom().contains(*k));
                        assert(*k < n.key);
                        assert(node.as_map().dom().contains(*k));
                        assert forall|e: u64| node.as_map().dom().contains(e) implies *k <= e by {
                            if n.right.as_map().dom().contains(e) {
                                assert(e > n.key);
                            } else if !n.left.as_map().dom().contains(e) {
                                assert(e == n.key);
                            }
                        }
                    }
                    Some(k)
                },
                None => {
                    proof {
                        assert(n.left.as_map() =~= Map::<u64, V>::empty());
                        assert(node.as_map().dom().contains(n.key));
                        assert forall|e: u64| node.as_map().dom().contains(e) implies n.key
                            <= e by {
                            if n.right.as_map().dom().contains(e) {
                                assert(e > n.key);
                            } else {
                                assert(e == n.key);
                            }
                        }
                    }
                    Some(&n.key)
                },
            }
        },
    }
}

/// Walk strictly right from `node`: the key of the last real node visited is
/// the maximum key of the subtree. Returns `None` only on a sentinel.
pub(crate) fn max_node<'a, V>(node: &'a RbNode<V>) -> (r: Option<&'a u64>)
    requires
        node.bst_ordered(),
    ensures
        match r {
            Some(k) => node.as_map().contains_key(*k) && (forall|e: u64|
                node.as_map().dom().contains(e) ==> *k >= e),
            None => node is Nil,
        },
    decreases node,
{
    match node {
        RbNode::Nil => None,
        RbNode::Node(n) => {
            let r = max_node(&n.right);
            match r {
                Some(k) => {
                    proof {
                        assert(n.right.as_map().dom().contains(*k));
                        assert(*k > n.key);
                        assert(node.as_map().dom().contains(*k));
                        assert forall|e: u64| node.as_map().dom().contains(e) implies *k >= e by {
                            if n.left.as_map().dom().contains(e) {
                                assert(e < n.key);
                            } else if !n.right.as_map().dom().contains(e) {
                                assert(e == n.key);
                            }
                        }
                    }
                    Some(k)
                },
                None => {
                    proof {
                        assert(n.right.as_map() =~= Map::<u64, V>::empty());
                        assert(node.as_map().dom().contains(n.key));
                        assert forall|e: u64| node.as_map().dom().contains(e) implies n.key
                            >= e by {
                            if n.left.as_map().dom().contains(e) {
                                assert(e < n.key);
                            } else {
                                assert(e == n.key);
                            }
                        }
                    }
                    Some(&n.key)
                },
            }
        },
    }
}

/// Walk toward `key` and hand back a mutable borrow of the value stored
/// there. Writing through the borrow changes only that value: the final
/// subtree is the original with the value under `key` replaced.
pub(crate) fn get_mut_node<'a, V>(node: &'a mut RbNode<V>, key: u64) -> (r: Option<&'a mut V>)
    requires
        old(node).bst_ordered(),
    ensures
        match r {
            None => !old(node).as_map().contains_key(key) && *final(node) == *old(node),
            Some(v) => old(node).as_map().contains_key(key) && *v == old(node).as_map()[key]
                && *final(node) == old(node).with_value(key, *final(v)),
        },
    decreases *old(node),
{
    match node {
        RbNode::Nil => None,
        RbNode::Node(n) => {
            if key == n.key {
                Some(&mut n.value)
            } else if key < n.key {
                proof {
                    assert(!old(node).right_child().as_map().dom().contains(key));
                }
                get_mut_node(&mut n.left, key)
            } else {
                proof {
                    assert(!old(node).left_child().as_map().dom().contains(key));
                }
                get_mut_node(&mut n.right, key)
            }
        },
    }
}

} // verus!
