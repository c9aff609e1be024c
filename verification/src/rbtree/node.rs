use vstd::prelude::*;

verus! {

/// Color tag of a tree position. `Nil` marks a sentinel leaf: an empty
/// position that the balancing logic may treat as a black, childless node.
#[derive(Clone, Copy, Debug, PartialEq, Eq, Structural)]
pub enum RbNodeType {
    Red,
    Black,
    Nil,
}

/// Payload of a real (non-sentinel) node: its color, its key/value pair, and
/// its two owned subtrees.
#[derive(Debug)]
pub struct RawNode<V> {
    pub rb_node_type: RbNodeType,
    pub key: u64,
    pub value: V,
    pub left: RbNode<V>,
    pub right: RbNode<V>,
}

/// A subtree: either a sentinel leaf (`Nil`) or an owned real node.
///
/// Children own their subtrees, so the whole structure is a strict tree and
/// is freed child-first when dropped.
#[derive(Debug)]
pub enum RbNode<V> {
    Nil,
    Node(Box<RawNode<V>>),
}

impl<V> RbNode<V> {
    /// Color of the root position of this subtree; `Nil` for a sentinel.
    pub open spec fn node_type(self) -> RbNodeType {
        match self {
            RbNode::Nil => RbNodeType::Nil,
            RbNode::Node(n) => n.rb_node_type,
        }
    }

    /// The key/value pairs stored in this subtree, as a mathematical map.
    pub open spec fn as_map(self) -> Map<u64, V>
        decreases self,
    {
        match self {
            RbNode::Nil => Map::empty(),
            RbNode::Node(n) => n.left.as_map().union_prefer_right(n.right.as_map()).insert(
                n.key,
                n.value,
            ),
        }
    }

    /// The left subtree; a sentinel's child is a sentinel.
    pub open spec fn left_child(self) -> RbNode<V> {
        match self {
            RbNode::Nil => RbNode::Nil,
            RbNode::Node(n) => n.left,
        }
    }

    /// The right subtree; a sentinel's child is a sentinel.
    pub open spec fn right_child(self) -> RbNode<V> {
        match self {
            RbNode::Nil => RbNode::Nil,
            RbNode::Node(n) => n.right,
        }
    }

    /// Every key of this subtree is smaller than `k`.
    pub open spec fn keys_lt(self, k: u64) -> bool {
        forall|e: u64| self.as_map().dom().contains(e) ==> e < k
    }

    /// Every key of this subtree is greater than `k`.
    pub open spec fn keys_gt(self, k: u64) -> bool {
        forall|e: u64| self.as_map().dom().contains(e) ==> e > k
    }

    /// Binary-search-tree ordering: at every node, all keys of the left
    /// subtree are smaller and all keys of the right subtree are greater
    /// than the node's key.
    pub open spec fn bst_ordered(self) -> bool
        decreases self,
    {
        match self {
            RbNode::Nil => true,
            RbNode::Node(n) => {
                &&& n.left.keys_lt(n.key)
                &&& n.right.keys_gt(n.key)
                &&& n.left.bst_ordered()
                &&& n.right.bst_ordered()
            },
        }
    }

    /// Every real node carries a real color: `Nil` is reserved for sentinels.
    pub open spec fn real_colored(self) -> bool
        decreases self,
    {
        match self {
            RbNode::Nil => true,
            RbNode::Node(n) => {
                &&& !(n.rb_node_type is Nil)
                &&& n.left.real_colored()
                &&& n.right.real_colored()
            },
        }
    }

    /// No red node has a red child.
    pub open spec fn no_red_red(self) -> bool
        decreases self,
    {
        match self {
            RbNode::Nil => true,
            RbNode::Node(n) => {
                &&& (n.rb_node_type is Red ==> !(n.left.node_type() is Red) && !(
                n.right.node_type() is Red))
                &&& n.left.no_red_red()
                &&& n.right.no_red_red()
            },
        }
    }

    /// Number of black nodes on the path that always descends left.
    /// On a balanced subtree this is the black-height of every path.
    pub open spec fn black_height(self) -> nat
        decreases self,
    {
        match self {
            RbNode::Nil => 0,
            RbNode::Node(n) => n.left.black_height() + if n.rb_node_type is Black {
                1nat
            } else {
                0nat
            },
        }
    }

    /// Both children satisfy `no_red_red`; the root itself may still be a
    /// red node with at most one red child. Insertion rebalancing carries
    /// exactly one such pending violation upward.
    pub open spec fn nearly_red_ok(self) -> bool {
        match self {
            RbNode::Nil => true,
            RbNode::Node(n) => {
                &&& n.left.no_red_red()
                &&& n.right.no_red_red()
                &&& (n.rb_node_type is Red ==> !(n.left.node_type() is Red) || !(
                n.right.node_type() is Red))
            },
        }
    }

    /// The subtree rotated left around its root: the right child becomes the
    /// new root. Keys, values and colors travel with their nodes.
    pub open spec fn spec_rotate_left(self) -> RbNode<V> {
        match self {
            RbNode::Node(n) => match n.right {
                RbNode::Node(rn) => RbNode::Node(
                    Box::new(
                        RawNode {
                            rb_node_type: rn.rb_node_type,
                            key: rn.key,
                            value: rn.value,
                            left: RbNode::Node(
                                Box::new(
                                    RawNode {
                                        rb_node_type: n.rb_node_type,
                                        key: n.key,
                                        value: n.value,
                                        left: n.left,
                                        right: rn.left,
                                    },
                                ),
                            ),
                            right: rn.right,
                        },
                    ),
                ),
                RbNode::Nil => self,
            },
            RbNode::Nil => self,
        }
    }

    /// The subtree rotated right around its root: the left child becomes the
    /// new root. Keys, values and colors travel with their nodes.
    pub open spec fn spec_rotate_right(self) -> RbNode<V> {
        match self {
            RbNode::Node(n) => match n.left {
                RbNode::Node(ln) => RbNode::Node(
                    Box::new(
                        RawNode {
                            rb_node_type: ln.rb_node_type,
                            key: ln.key,
                            value: ln.value,
                            left: ln.left,
                            right: RbNode::Node(
                                Box::new(
                                    RawNode {
                                        rb_node_type: n.rb_node_type,
                                        key: n.key,
                                        value: n.value,
                                        left: ln.right,
                                        right: n.right,
                                    },
                                ),
                            ),
                        },
                    ),
                ),
                RbNode::Nil => self,
            },
            RbNode::Nil => self,
        }
    }

    /// At every node, the left and the right subtree have the same
    /// black-height.
    pub open spec fn balanced(self) -> bool
        decreases self,
    {
        match self {
            RbNode::Nil => true,
            RbNode::Node(n) => {
                &&& n.left.balanced()
                &&& n.right.balanced()
                &&& n.left.black_height() == n.right.black_height()
            },
        }
    }

    /// All structural invariants of a red-black subtree.
    pub open spec fn wf(self) -> bool {
        &&& self.bst_ordered()
        &&& self.real_colored()
        &&& self.no_red_red()
        &&& self.balanced()
    }

    /// Number of real nodes in this subtree.
    pub open spec fn count(self) -> nat
        decreases self,
    {
        match self {
            RbNode::Nil => 0,
            RbNode::Node(n) => n.left.count() + n.right.count() + 1,
        }
    }

    /// The key/value pairs of this subtree in ascending in-order sequence.
    pub open spec fn in_order(self) -> Seq<(u64, V)>
        decreases self,
    {
        match self {
            RbNode::Nil => Seq::empty(),
            RbNode::Node(n) => n.left.in_order() + seq![(n.key, n.value)] + n.right.in_order(),
        }
    }

    /// The same subtree with the root recolored.
    pub open spec fn recolored(self, c: RbNodeType) -> RbNode<V> {
        match self {
            RbNode::Nil => self,
            RbNode::Node(n) => RbNode::Node(
                Box::new(
                    RawNode {
                        rb_node_type: c,
                        key: n.key,
                        value: n.value,
                        left: n.left,
                        right: n.right,
                    },
                ),
            ),
        }
    }

    /// The same subtree with the value at `key` replaced by `value`;
    /// identical to `self` where `key` is absent from the search path.
    pub open spec fn with_value(self, key: u64, value: V) -> RbNode<V>
        decreases self,
    {
        match self {
            RbNode::Nil => self,
            RbNode::Node(n) => if key == n.key {
                RbNode::Node(
                    Box::new(
                        RawNode {
                            rb_node_type: n.rb_node_type,
                            key: n.key,
                            value,
                            left: n.left,
                            right: n.right,
                        },
                    ),
                )
            } else if key < n.key {
                RbNode::Node(
                    Box::new(
                        RawNode {
                            rb_node_type: n.rb_node_type,
                            key: n.key,
                            value: n.value,
                            left: n.left.with_value(key, value),
                            right: n.right,
                        },
                    ),
                )
            } else {
                RbNode::Node(
                    Box::new(
                        RawNode {
                            rb_node_type: n.rb_node_type,
                            key: n.key,
                            value: n.value,
                            left: n.left,
                            right: n.right.with_value(key, value),
                        },
                    ),
                )
            },
        }
    }

    /// Two subtrees have the same shape, keys and colors; only the stored
    /// values may differ.
    pub open spec fn same_shape(self, other: RbNode<V>) -> bool
        decreases self,
    {
        match (self, other) {
            (RbNode::Nil, RbNode::Nil) => true,
            (RbNode::Node(a), RbNode::Node(b)) => {
                &&& a.rb_node_type == b.rb_node_type
                &&& a.key == b.key
                &&& a.left.same_shape(b.left)
                &&& a.right.same_shape(b.right)
            },
            _ => false,
        }
    }

    /// Recoloring the root changes neither the stored map, the ordering, the
    /// children, nor the in-order sequence; only the root color and the
    /// black-height move.
    pub proof fn lemma_recolored_props(self, c: RbNodeType)
        ensures
            self.recolored(c).as_map() == self.as_map(),
            self.recolored(c).bst_ordered() == self.bst_ordered(),
            self.recolored(c).left_child() == self.left_child(),
            self.recolored(c).right_child() == self.right_child(),
            self.recolored(c).in_order() == self.in_order(),
            self.recolored(c).count() == self.count(),
            self.recolored(c).balanced() == self.balanced(),
            (self.recolored(c) is Node) == (self is Node),
            self is Node ==> self.recolored(c).node_type() == c,
            self is Node ==> self.recolored(c).black_height() == self.left_child().black_height()
                + (if c is Black {
                1nat
            } else {
                0nat
            }),
            self is Node ==> self.recolored(c).real_colored() == (!(c is Nil)
                && self.left_child().real_colored() && self.right_child().real_colored()),
            self is Node ==> self.recolored(c).no_red_red() == ((c is Red
                ==> !(self.left_child().node_type() is Red) && !(self.right_child().node_type()
                is Red)) && self.left_child().no_red_red() && self.right_child().no_red_red()),
    {
        match self {
            RbNode::Nil => {},
            RbNode::Node(n) => {},
        }
    }

    /// A right rotation of an ordered subtree keeps the stored map, the
    /// ordering, and the real coloring of every node.
    pub proof fn lemma_rotate_right_props(self)
        requires
            self is Node,
            self.left_child() is Node,
            self.bst_ordered(),
        ensures
            self.spec_rotate_right().as_map() == self.as_map(),
            self.spec_rotate_right().bst_ordered(),
            self.spec_rotate_right().in_order() == self.in_order(),
            self.real_colored() ==> self.spec_rotate_right().real_colored(),
    {
        match self {
            RbNode::Node(n) => match n.left {
                RbNode::Node(ln) => {
                    let a = ln.left.as_map();
                    let b = ln.right.as_map();
                    let c = n.right.as_map();
                    assert(n.left.bst_ordered());
                    assert(ln.right.keys_gt(ln.key));
                    assert(ln.left.keys_lt(ln.key));
                    assert(n.left.as_map().dom().contains(ln.key));
                    assert(forall|e: u64|
                        a.dom().contains(e) ==> n.left.as_map().dom().contains(e));
                    assert(forall|e: u64|
                        b.dom().contains(e) ==> n.left.as_map().dom().contains(e));
                    let rot = self.spec_rotate_right();
                    let inner = rot.right_child();
                    assert(n.left.in_order() == ln.left.in_order() + seq![(ln.key, ln.value)]
                        + ln.right.in_order());
                    assert(inner.in_order() == ln.right.in_order() + seq![(n.key, n.value)]
                        + n.right.in_order());
                    assert(rot.in_order() =~= self.in_order());
                    assert(inner.as_map() == b.union_prefer_right(c).insert(n.key, n.value));
                    assert(rot.as_map() =~= self.as_map());
                    assert forall|e: u64| inner.as_map().dom().contains(e) implies e > ln.key by {
                        assert(b.dom().contains(e) || c.dom().contains(e) || e == n.key);
                        if b.dom().contains(e) {
                            assert(ln.right.keys_gt(ln.key));
                        }
                        assert(ln.key < n.key);
                    }
                    assert(forall|e: u64| b.dom().contains(e) ==> e < n.key);
                    assert(inner.bst_ordered());
                    assert(rot.bst_ordered());
                    if self.real_colored() {
                        assert(n.left.real_colored() && n.right.real_colored());
                        assert(ln.left.real_colored() && ln.right.real_colored());
                        assert(inner.real_colored());
                        assert(rot.real_colored());
                    }
                },
                RbNode::Nil => {},
            },
            RbNode::Nil => {},
        }
    }

    /// A left rotation of an ordered subtree keeps the stored map, the
    /// ordering, and the real coloring of every node.
    pub proof fn lemma_rotate_left_props(self)
        requires
            self is Node,
            self.right_child() is Node,
            self.bst_ordered(),
        ensures
            self.spec_rotate_left().as_map() == self.as_map(),
            self.spec_rotate_left().bst_ordered(),
            self.spec_rotate_left().in_order() == self.in_order(),
            self.real_colored() ==> self.spec_rotate_left().real_colored(),
    {
        match self {
            RbNode::Node(n) => match n.right {
                RbNode::Node(rn) => {
                    let a = n.left.as_map();
                    let b = rn.left.as_map();
                    let c = rn.right.as_map();
                    assert(n.right.bst_ordered());
                    assert(rn.left.keys_lt(rn.key));
                    assert(rn.right.keys_gt(rn.key));
                    assert(n.right.as_map().dom().contains(rn.key));
                    assert(forall|e: u64|
                        b.dom().contains(e) ==> n.right.as_map().dom().contains(e));
                    assert(forall|e: u64|
                        c.dom().contains(e) ==> n.right.as_map().dom().contains(e));
                    let rot = self.spec_rotate_left();
                    let inner = rot.left_child();
                    assert(n.right.in_order() == rn.left.in_order() + seq![(rn.key, rn.value)]
                        + rn.right.in_order());
                    assert(inner.in_order() == n.left.in_order() + seq![(n.key, n.value)]
                        + rn.left.in_order());
                    assert(rot.in_order() =~= self.in_order());
                    assert(inner.as_map() == a.union_prefer_right(b).insert(n.key, n.value));
                    assert(rot.as_map() =~= self.as_map());
                    assert forall|e: u64| inner.as_map().dom().contains(e) implies e < rn.key by {
                        assert(a.dom().contains(e) || b.dom().contains(e) || e == n.key);
                        if b.dom().contains(e) {
                            assert(rn.left.keys_lt(rn.key));
                        }
                        assert(n.key < rn.key);
                    }
                    assert(forall|e: u64| b.dom().contains(e) ==> e > n.key);
                    assert(inner.bst_ordered());
                    assert(rot.bst_ordered());
                    if self.real_colored() {
                        assert(n.left.real_colored() && n.right.real_colored());
                        assert(rn.left.real_colored() && rn.right.real_colored());
                        assert(inner.real_colored());
                        assert(rot.real_colored());
                    }
                },
                RbNode::Nil => {},
            },
            RbNode::Nil => {},
        }
    }

    /// On an ordered subtree the number of real nodes equals the size of the
    /// map's domain: each key is stored exactly once.
    pub proof fn lemma_count_is_dom_len(self)
        requires
            self.bst_ordered(),
        ensures
            self.as_map().dom().finite(),
            self.as_map().dom().len() == self.count(),
        decreases self,
    {
        match self {
            RbNode::Nil => {
                assert(self.as_map().dom() =~= Set::<u64>::empty());
            },
            RbNode::Node(n) => {
                n.left.lemma_count_is_dom_len();
                n.right.lemma_count_is_dom_len();
                let lm = n.left.as_map();
                let rm = n.right.as_map();
                let u = lm.union_prefer_right(rm);
                assert(u.dom() =~= lm.dom() + rm.dom());
                vstd::set_lib::lemma_set_disjoint_lens(lm.dom(), rm.dom());
                assert(u.dom().len() == lm.dom().len() + rm.dom().len());
                vstd::set::axiom_set_insert_len(u.dom(), n.key);
                assert(self.as_map().dom() =~= u.dom().insert(n.key));
            },
        }
    }

    /// On an ordered subtree the in-order sequence lists every stored pair
    /// exactly once, in strictly increasing key order.
    pub proof fn lemma_in_order_sorted(self)
        requires
            self.bst_ordered(),
        ensures
            self.in_order().len() == self.count(),
            forall|i: int, j: int|
                0 <= i < j < self.in_order().len() ==> self.in_order()[i].0
                    < self.in_order()[j].0,
            forall|i: int|
                0 <= i < self.in_order().len() ==> self.as_map().contains_pair(
                    #[trigger] self.in_order()[i].0,
                    self.in_order()[i].1,
                ),
        decreases self,
    {
        match self {
            RbNode::Nil => {},
            RbNode::Node(n) => {
                n.left.lemma_in_order_sorted();
                n.right.lemma_in_order_sorted();
                let ls = n.left.in_order();
                let rs = n.right.in_order();
                let s = self.in_order();
                assert(s == ls + seq![(n.key, n.value)] + rs);
                assert forall|i: int| 0 <= i < s.len() implies self.as_map().contains_pair(
                    #[trigger] s[i].0,
                    s[i].1,
                ) by {
                    if i < ls.len() {
                        assert(s[i] == ls[i]);
                        assert(n.left.as_map().contains_pair(ls[i].0, ls[i].1));
                        assert(ls[i].0 < n.key);
                        assert(!n.right.as_map().dom().contains(ls[i].0));
                    } else if i == ls.len() {
                        assert(s[i] == (n.key, n.value));
                    } else {
                        assert(s[i] == rs[i - ls.len() - 1]);
                        assert(n.right.as_map().contains_pair(s[i].0, s[i].1));
                        assert(s[i].0 > n.key);
                    }
                }
                assert forall|i: int, j: int| 0 <= i < j < s.len() implies s[i].0 < s[j].0 by {
                    if i < ls.len() {
                        assert(n.left.as_map().contains_pair(ls[i].0, ls[i].1));
                        assert(s[i].0 < n.key);
                    }
                    if j > ls.len() {
                        assert(n.right.as_map().contains_pair(
                            rs[j - ls.len() - 1].0,
                            rs[j - ls.len() - 1].1,
                        ));
                        assert(s[j].0 > n.key);
                    }
                }
            },
        }
    }

    /// Replacing the value stored under a key leaves the shape, the keys and
    /// the colors of the tree untouched.
    pub proof fn lemma_with_value_same_shape(self, key: u64, value: V)
        ensures
            self.with_value(key, value).same_shape(self),
            self.with_value(key, value).count() == self.count(),
        decreases self,
    {
        match self {
            RbNode::Nil => {},
            RbNode::Node(n) => {
                n.left.lemma_with_value_same_shape(key, value);
                n.right.lemma_with_value_same_shape(key, value);
                n.left.lemma_same_shape_refl();
                n.right.lemma_same_shape_refl();
            },
        }
    }

    /// Trees of the same shape agree on every property that ignores the
    /// stored values.
    pub proof fn lemma_same_shape_props(self, other: RbNode<V>)
        requires
            self.same_shape(other),
        ensures
            self.node_type() == other.node_type(),
            self.black_height() == other.black_height(),
            self.count() == other.count(),
            self.balanced() == other.balanced(),
            self.no_red_red() == other.no_red_red(),
            self.real_colored() == other.real_colored(),
        decreases self,
    {
        match (self, other) {
            (RbNode::Node(a), RbNode::Node(b)) => {
                a.left.lemma_same_shape_props(b.left);
                a.right.lemma_same_shape_props(b.right);
            },
            _ => {},
        }
    }

    /// Replacing the value stored under a key keeps the search-tree order;
    /// on a present key it updates the map, on an absent key it is the
    /// identity.
    pub proof fn lemma_with_value_props(self, key: u64, value: V)
        requires
            self.bst_ordered(),
        ensures
            self.with_value(key, value).bst_ordered(),
            self.as_map().contains_key(key) ==> self.with_value(key, value).as_map()
                == self.as_map().insert(key, value),
            !self.as_map().contains_key(key) ==> self.with_value(key, value) == self,
        decreases self,
    {
        match self {
            RbNode::Nil => {},
            RbNode::Node(n) => {
                n.left.lemma_with_value_props(key, value);
                n.right.lemma_with_value_props(key, value);
                let w = self.with_value(key, value);
                if key == n.key {
                    assert(w.as_map() =~= self.as_map().insert(key, value));
                } else if key < n.key {
                    assert(!n.right.as_map().dom().contains(key));
                    if n.left.as_map().contains_key(key) {
                        assert(w.as_map() =~= self.as_map().insert(key, value));
                        assert(forall|e: u64|
                            n.left.with_value(key, value).as_map().dom().contains(e) ==> e
                                < n.key);
                    } else {
                        assert(w == self);
                    }
                } else {
                    assert(!n.left.as_map().dom().contains(key));
                    if n.right.as_map().contains_key(key) {
                        assert(w.as_map() =~= self.as_map().insert(key, value));
                        assert(forall|e: u64|
                            n.right.with_value(key, value).as_map().dom().contains(e) ==> e
                                > n.key);
                    } else {
                        assert(w == self);
                    }
                }
            },
        }
    }

    /// Every subtree has its own shape.
    pub proof fn lemma_same_shape_refl(self)
        ensures
            self.same_shape(self),
        decreases self,
    {
        match self {
            RbNode::Nil => {},
            RbNode::Node(n) => {
                n.left.lemma_same_shape_refl();
                n.right.lemma_same_shape_refl();
            },
        }
    }

    /// The black-height of a subtree never exceeds its node count: each
    /// level of the leftmost path holds at most one black node.
    pub proof fn lemma_black_height_le_count(self)
        ensures
            self.black_height() <= self.count(),
        decreases self,
    {
        match self {
            RbNode::Nil => {},
            RbNode::Node(n) => {
                n.left.lemma_black_height_le_count();
            },
        }
    }

    /// Create a fresh sentinel node.
    pub fn new() -> (r: Self)
        ensures
            r == RbNode::<V>::Nil,
    {
        RbNode::Nil
    }

    /// True if this position is a sentinel.
    pub fn is_nil(&self) -> (r: bool)
        ensures
            r == (*self is Nil),
    {
        match self {
            RbNode::Nil => true,
            RbNode::Node(_) => false,
        }
    }

    /// True if this position counts as black: real black nodes and
    /// sentinels alike.
    pub fn is_black(&self) -> (r: bool)
        ensures
            r == !(self.node_type() is Red),
    {
        match self {
            RbNode::Nil => true,
            RbNode::Node(n) => match n.rb_node_type {
                RbNodeType::Red => false,
                _ => true,
            },
        }
    }

    /// True if this position is a real red node.
    pub fn is_red(&self) -> (r: bool)
        ensures
            r == (self.node_type() is Red),
    {
        !self.is_black()
    }

    /// Recolor a real node black. Sentinels must never be recolored.
    pub fn set_black(&mut self)
        requires
            !(old(self).node_type() is Nil),
        ensures
            *final(self) == old(self).recolored(RbNodeType::Black),
    {
        match self {
            RbNode::Nil => {},
            RbNode::Node(n) => {
                n.rb_node_type = RbNodeType::Black;
            },
        }
    }

    /// Recolor a real node red. Sentinels must never be recolored.
    pub fn set_red(&mut self)
        requires
            !(old(self).node_type() is Nil),
        ensures
            *final(self) == old(self).recolored(RbNodeType::Red),
    {
        match self {
            RbNode::Nil => {},
            RbNode::Node(n) => {
                n.rb_node_type = RbNodeType::Red;
            },
        }
    }

    /// Borrow the key of a real node.
    pub fn key(&self) -> (r: &u64)
        requires
            !(self.node_type() is Nil),
        ensures
            match self {
                RbNode::Node(n) => *r == n.key,
                RbNode::Nil => false,
            },
    {
        match self {
            RbNode::Nil => {
                proof {
                    assert(false);
                }
                unreached()
            },
            RbNode::Node(n) => &n.key,
        }
    }

    /// Borrow the value of a real node.
    pub fn value(&self) -> (r: &V)
        requires
            !(self.node_type() is Nil),
        ensures
            match self {
                RbNode::Node(n) => *r == n.value,
                RbNode::Nil => false,
            },
    {
        match self {
            RbNode::Nil => {
                proof {
                    assert(false);
                }
                unreached()
            },
            RbNode::Node(n) => &n.value,
        }
    }

    /// Materialize a sentinel into a real node carrying `key` and `value`
    /// with the given real color; the two children are fresh sentinels.
    pub fn init(&mut self, key: u64, value: V, rb_node_type: RbNodeType)
        requires
            *old(self) is Nil,
            !(rb_node_type is Nil),
        ensures
            *final(self) == RbNode::<V>::Node(
                Box::new(
                    RawNode {
                        rb_node_type,
                        key,
                        value,
                        left: RbNode::<V>::Nil,
                        right: RbNode::<V>::Nil,
                    },
                ),
            ),
    {
        *self = RbNode::Node(
            Box::new(
                RawNode { rb_node_type, key, value, left: RbNode::Nil, right: RbNode::Nil },
            ),
        );
    }

    /// Discard a real node whose children are both sentinels, reverting the
    /// position to a sentinel. The key and the value are dropped.
    pub fn uninit(&mut self)
        requires
            !(old(self).node_type() is Nil),
            match *old(self) {
                RbNode::Node(n) => n.left is Nil && n.right is Nil,
                RbNode::Nil => false,
            },
        ensures
            *final(self) == RbNode::<V>::Nil,
    {
        *self = RbNode::Nil;
    }
}

} // verus!
