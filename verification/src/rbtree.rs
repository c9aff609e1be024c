mod fixup;
pub mod iter;
pub mod node;

use vstd::prelude::*;

pub use self::iter::IntoIter;
pub use self::iter::Iter;
pub use self::iter::IterMut;

use self::node::{RbNode, RbNodeType};

verus! {

/// A sorted map implemented with a red-black tree.
///
/// The abstract view of a tree (written `t@`) is a `Map<u64, V>`; every
/// operation is specified against that view. `well_formed` bundles the
/// red-black invariants, which every operation preserves:
/// the root is black (or the tree is empty), no red node has a red child,
/// every path from the root to a sentinel crosses the same number of black
/// nodes, the in-order key sequence is strictly increasing, and the stored
/// length equals the number of real nodes.
#[derive(Debug)]
pub struct RbTree<V> {
    root: RbNode<V>,
    len: usize,
}

impl<V> RbTree<V> {
    /// The key/value pairs of the tree, as a mathematical map.
    pub closed spec fn as_map(self) -> Map<u64, V> {
        self.root.as_map()
    }

    /// The key/value pairs of the tree in ascending key order.
    pub closed spec fn entry_seq(self) -> Seq<(u64, V)> {
        self.root.in_order()
    }

    /// The red-black invariants, together with the bookkeeping invariant
    /// that `len` counts the real nodes.
    pub closed spec fn well_formed(self) -> bool {
        &&& self.root.wf()
        &&& !(self.root.node_type() is Red)
        &&& self.len == self.root.count()
    }

    /// Two trees agree on every structural observation: shape, keys and
    /// colors of every node, and stored length. Only values may differ.
    pub closed spec fn same_structure(self, other: RbTree<V>) -> bool {
        &&& self.root.same_shape(other.root)
        &&& self.len == other.len
    }

    /// Create a new empty tree.
    pub fn new() -> (r: Self)
        ensures
            r.well_formed(),
            r@ == Map::<u64, V>::empty(),
    {
        RbTree { root: RbNode::new(), len: 0 }
    }

    /// Insert `key`/`value`. If the key was already present, its value is
    /// overwritten in place and the previous value is returned; the shape and
    /// the coloring of the tree do not change in that case. Otherwise a new
    /// node is added, the tree is rebalanced, and `None` is returned.
    pub fn insert(&mut self, key: u64, value: V) -> (prev: Option<V>)
        requires
            old(self).well_formed(),
            old(self)@.contains_key(key) || old(self)@.dom().len() < usize::MAX,
        ensures
            final(self).well_formed(),
            final(self)@ == old(self)@.insert(key, value),
            prev == if old(self)@.contains_key(key) {
                Some(old(self)@[key])
            } else {
                None::<V>
            },
            old(self)@.contains_key(key) ==> final(self).same_structure(*old(self)),
    {
        let mut root = RbNode::new();
        core::mem::swap(&mut root, &mut self.root);
        let ghost root0 = root;
        let (mut new_root, prev) = fixup::insert_node(root, key, value);
        let ghost balanced_root = new_root;
        new_root.set_black();
        proof {
            balanced_root.lemma_recolored_props(RbNodeType::Black);
            root0.lemma_count_is_dom_len();
            new_root.lemma_count_is_dom_len();
            vstd::set::axiom_set_insert_len(root0.as_map().dom(), key);
            assert(new_root.as_map().dom() =~= root0.as_map().dom().insert(key));
            assert(new_root.no_red_red());
            if root0.as_map().contains_key(key) {
                // The upsert path rebuilds the search path with the same
                // shape and colors; the final recoloring of the black root
                // is the identity.
                root0.lemma_with_value_same_shape(key, value);
                assert(balanced_root == root0.with_value(key, value));
                assert(balanced_root.node_type() == root0.node_type());
                assert(new_root == balanced_root);
                assert(new_root.same_shape(root0));
            }
        }
        self.root = new_root;
        if prev.is_none() {
            self.len = self.len + 1;
        }
        prev
    }

    /// Remove the entry stored under `key` and return the key together with
    /// its value, or `None` when the key is absent — in which case the tree
    /// is left untouched, same shape and same colors.
    pub fn remove_entry(&mut self, key: u64) -> (r: Option<(u64, V)>)
        requires
            old(self).well_formed(),
        ensures
            final(self).well_formed(),
            final(self)@ == old(self)@.remove(key),
            r == if old(self)@.contains_key(key) {
                Some((key, old(self)@[key]))
            } else {
                None::<(u64, V)>
            },
            !old(self)@.contains_key(key) ==> *final(self) == *old(self),
    {
        let found = match fixup::find_nearest_node(&self.root, key) {
            Some(_) => true,
            None => false,
        };
        if !found {
            proof {
                assert(self@ =~= self@.remove(key));
            }
            return None;
        }
        let mut root = RbNode::new();
        core::mem::swap(&mut root, &mut self.root);
        let ghost root0 = root;
        let (new_root, removed, _) = fixup::remove_node(root, key);
        proof {
            root0.lemma_count_is_dom_len();
            new_root.lemma_count_is_dom_len();
            vstd::set::axiom_set_remove_len(root0.as_map().dom(), key);
            assert(new_root.as_map().dom() =~= root0.as_map().dom().remove(key));
        }
        self.root = new_root;
        self.len = self.len - 1;
        Some((key, removed))
    }

    /// Remove the entry stored under `key` and return its value, or `None`
    /// when the key is absent — in which case the tree is left untouched.
    pub fn remove(&mut self, key: u64) -> (r: Option<V>)
        requires
            old(self).well_formed(),
        ensures
            final(self).well_formed(),
            final(self)@ == old(self)@.remove(key),
            r == if old(self)@.contains_key(key) {
                Some(old(self)@[key])
            } else {
                None::<V>
            },
            !old(self)@.contains_key(key) ==> *final(self) == *old(self),
    {
        match self.remove_entry(key) {
            Some((_, value)) => Some(value),
            None => None,
        }
    }

    /// Borrow the value stored under `key`, if any.
    pub fn get(&self, key: u64) -> (r: Option<&V>)
        requires
            self.well_formed(),
        ensures
            r == if self@.contains_key(key) {
                Some(&self@[key])
            } else {
                None::<&V>
            },
    {
        match fixup::find_nearest_node(&self.root, key) {
            Some(kv) => Some(kv.1),
            None => None,
        }
    }

    /// Borrow the key/value pair stored under `key`, if any.
    pub fn get_key_value(&self, key: u64) -> (r: Option<(&u64, &V)>)
        requires
            self.well_formed(),
        ensures
            match r {
                Some(kv) => self@.contains_key(key) && *kv.0 == key && *kv.1 == self@[key],
                None => !self@.contains_key(key),
            },
    {
        fixup::find_nearest_node(&self.root, key)
    }

    /// Borrow the value stored under `key` mutably, if any. Writing through
    /// the borrow replaces only that value: the shape, keys and colors of
    /// the tree are unchanged, and the tree stays well-formed.
    pub fn get_mut(&mut self, key: u64) -> (r: Option<&mut V>)
        requires
            old(self).well_formed(),
        ensures
            match r {
                None => !old(self)@.contains_key(key) && *final(self) == *old(self),
                Some(v) => old(self)@.contains_key(key) && *v == old(self)@[key] && final(self)@
                    == old(self)@.insert(key, *final(v)) && final(self).well_formed()
                    && final(self).same_structure(*old(self)),
            },
    {
        let ghost root0 = self.root;
        proof {
            assert forall|nv: V|
                {
                    &&& (#[trigger] root0.with_value(key, nv)).bst_ordered()
                    &&& (root0.as_map().contains_key(key) ==> root0.with_value(key, nv).as_map()
                        == root0.as_map().insert(key, nv))
                    &&& root0.with_value(key, nv).same_shape(root0)
                    &&& root0.with_value(key, nv).count() == root0.count()
                    &&& root0.with_value(key, nv).node_type() == root0.node_type()
                    &&& root0.with_value(key, nv).balanced() == root0.balanced()
                    &&& root0.with_value(key, nv).no_red_red() == root0.no_red_red()
                    &&& root0.with_value(key, nv).real_colored() == root0.real_colored()
                } by {
                root0.lemma_with_value_props(key, nv);
                root0.lemma_with_value_same_shape(key, nv);
                root0.with_value(key, nv).lemma_same_shape_props(root0);
            }
        }
        fixup::get_mut_node(&mut self.root, key)
    }

    /// True if an entry is stored under `key`.
    pub fn contains_key(&self, key: u64) -> (r: bool)
        requires
            self.well_formed(),
        ensures
            r == self@.contains_key(key),
    {
        match fixup::find_nearest_node(&self.root, key) {
            Some(_) => true,
            None => false,
        }
    }

    /// Borrow the value stored under `key`. Looking up an absent key is a
    /// caller error, ruled out by contract.
    pub fn index(&self, key: u64) -> (r: &V)
        requires
            self.well_formed(),
            self@.contains_key(key),
        ensures
            *r == self@[key],
    {
        match fixup::find_nearest_node(&self.root, key) {
            Some(kv) => kv.1,
            None => unreached(),
        }
    }

    /// Borrow the value stored under `key` mutably. Looking up an absent key
    /// is a caller error, ruled out by contract. Writing through the borrow
    /// replaces only that value; the structure of the tree is unchanged.
    pub fn index_mut(&mut self, key: u64) -> (r: &mut V)
        requires
            old(self).well_formed(),
            old(self)@.contains_key(key),
        ensures
            *r == old(self)@[key],
            final(self)@ == old(self)@.insert(key, *final(r)),
            final(self).well_formed(),
            final(self).same_structure(*old(self)),
    {
        match self.get_mut(key) {
            Some(v) => v,
            None => unreached(),
        }
    }

    /// Release every node; the tree becomes empty. Clearing an already-empty
    /// tree changes nothing.
    pub fn clear(&mut self)
        requires
            old(self).well_formed(),
        ensures
            final(self).well_formed(),
            final(self)@ == Map::<u64, V>::empty(),
            old(self)@ == Map::<u64, V>::empty() ==> *final(self) == *old(self),
    {
        if self.root.is_nil() {
            proof {
                assert(self@ =~= Map::<u64, V>::empty());
            }
            return ;
        }
        proof {
            match &self.root {
                RbNode::Node(n) => {
                    assert(self@.dom().contains(n.key));
                },
                RbNode::Nil => {},
            }
            assert(RbNode::<V>::Nil.as_map() =~= Map::<u64, V>::empty());
        }
        self.root = RbNode::new();
        self.len = 0;
    }

    /// Remove and return the entry with the smallest key, or `None` on an
    /// empty tree.
    pub fn pop_first(&mut self) -> (r: Option<(u64, V)>)
        requires
            old(self).well_formed(),
        ensures
            final(self).well_formed(),
            match r {
                None => old(self)@ == Map::<u64, V>::empty() && *final(self) == *old(self),
                Some(kv) => old(self)@.contains_key(kv.0) && kv.1 == old(self)@[kv.0] && (forall|
                    e: u64,
                |
                    old(self)@.dom().contains(e) ==> kv.0 <= e) && final(self)@ == old(
                self,
                )@.remove(kv.0),
            },
    {
        let first = match fixup::min_node(&self.root) {
            Some(k) => Some(*k),
            None => None,
        };
        match first {
            None => {
                proof {
                    assert(self@ =~= Map::<u64, V>::empty());
                }
                None
            },
            Some(k) => {
                match self.remove_entry(k) {
                    Some(kv) => Some(kv),
                    None => unreached(),
                }
            },
        }
    }

    /// Remove and return the entry with the greatest key, or `None` on an
    /// empty tree.
    pub fn pop_last(&mut self) -> (r: Option<(u64, V)>)
        requires
            old(self).well_formed(),
        ensures
            final(self).well_formed(),
            match r {
                None => old(self)@ == Map::<u64, V>::empty() && *final(self) == *old(self),
                Some(kv) => old(self)@.contains_key(kv.0) && kv.1 == old(self)@[kv.0] && (forall|
                    e: u64,
                |
                    old(self)@.dom().contains(e) ==> kv.0 >= e) && final(self)@ == old(
                self,
                )@.remove(kv.0),
            },
    {
        let last = match fixup::max_node(&self.root) {
            Some(k) => Some(*k),
            None => None,
        };
        match last {
            None => {
                proof {
                    assert(self@ =~= Map::<u64, V>::empty());
                }
                None
            },
            Some(k) => {
                match self.remove_entry(k) {
                    Some(kv) => Some(kv),
                    None => unreached(),
                }
            },
        }
    }

    /// True exactly when every node of the tree has the same number of black
    /// nodes on every path down to a sentinel (and those counts fit in
    /// `u64`): the black-height consistency check of a red-black tree.
    pub fn is_correct_rb_tree(&self) -> (r: bool)
        ensures
            r == self.black_height_consistent(),
    {
        match Self::check_rb_tree_attribute(&self.root) {
            Ok(_) => true,
            Err(_) => false,
        }
    }

    /// The property `is_correct_rb_tree` decides; always true of a
    /// well-formed tree of fewer than 2^64 black levels.
    pub closed spec fn black_height_consistent(self) -> bool {
        self.root.balanced() && self.root.black_height() <= u64::MAX
    }

    /// Recursively confirm that the left and the right subtree of every node
    /// agree on their black-height, and return the subtree's black-height.
    fn check_rb_tree_attribute(node: &RbNode<V>) -> (r: Result<u64, ()>)
        ensures
            match r {
                Ok(h) => node.balanced() && node.black_height() <= u64::MAX && h
                    == node.black_height(),
                Err(_) => !(node.balanced() && node.black_height() <= u64::MAX),
            },
        decreases node,
    {
        match node {
            RbNode::Nil => Ok(0),
            RbNode::Node(n) => {
                let left_black_count = match Self::check_rb_tree_attribute(&n.left) {
                    Ok(h) => h,
                    Err(e) => {
                        return Err(e);
                    },
                };
                let right_black_count = match Self::check_rb_tree_attribute(&n.right) {
                    Ok(h) => h,
                    Err(e) => {
                        return Err(e);
                    },
                };
                if left_black_count != right_black_count {
                    return Err(());
                }
                let self_black_count: u64 = match n.rb_node_type {
                    RbNodeType::Black => 1,
                    _ => 0,
                };
                if left_black_count > u64::MAX - self_black_count {
                    return Err(());
                }
                Ok(left_black_count + self_black_count)
            },
        }
    }

    /// Insert-then-get round trip and upsert semantics: after inserting
    /// `(key, v1)` a lookup of `key` yields `v1`; inserting `(key, v2)` on
    /// top replaces the value, the lookup then yields `v2`, and the second
    /// insert leaves the number of entries unchanged.
    pub proof fn lemma_insert_get_round_trip(self, key: u64, v1: V, v2: V)
        requires
            self.well_formed(),
        ensures
            self@.insert(key, v1)[key] == v1,
            self@.insert(key, v1).contains_key(key),
            self@.insert(key, v1).insert(key, v2)[key] == v2,
            self@.insert(key, v1).insert(key, v2).dom().len() == self@.insert(key, v1).dom().len(),
    {
        self.root.lemma_count_is_dom_len();
        vstd::set::axiom_set_insert_len(self@.dom(), key);
        assert(self@.insert(key, v1).dom() =~= self@.dom().insert(key));
        assert(self@.insert(key, v1).insert(key, v2).dom() =~= self@.dom().insert(key));
    }

    /// Remove round trip: after inserting `(key, value)`, the map holds
    /// `value` under `key` (which is what `remove` then returns); removing
    /// `key` leaves a map without the key and with exactly one entry fewer.
    pub proof fn lemma_remove_round_trip(self, key: u64, value: V)
        requires
            self.well_formed(),
        ensures
            self@.insert(key, value)[key] == value,
            !self@.insert(key, value).remove(key).contains_key(key),
            self@.insert(key, value).remove(key).dom().len() + 1 == self@.insert(
                key,
                value,
            ).dom().len(),
    {
        self.root.lemma_count_is_dom_len();
        vstd::set::axiom_set_insert_len(self@.dom(), key);
        assert(self@.insert(key, value).dom() =~= self@.dom().insert(key));
        vstd::set::axiom_set_remove_len(self@.dom().insert(key), key);
        assert(self@.insert(key, value).remove(key).dom() =~= self@.dom().insert(key).remove(key));
    }

    /// The in-order sequence of a well-formed tree is strictly increasing in
    /// its keys, holds one entry per stored key, and every entry is a stored
    /// pair of the map.
    pub proof fn lemma_entry_seq_sorted(self)
        requires
            self.well_formed(),
        ensures
            self.entry_seq().len() == self@.dom().len(),
            forall|i: int, j: int|
                0 <= i < j < self.entry_seq().len() ==> self.entry_seq()[i].0
                    < self.entry_seq()[j].0,
            forall|i: int|
                0 <= i < self.entry_seq().len() ==> self@.contains_pair(
                    #[trigger] self.entry_seq()[i].0,
                    self.entry_seq()[i].1,
                ),
    {
        self.root.lemma_in_order_sorted();
        self.root.lemma_count_is_dom_len();
    }

    /// Borrowed ascending iteration over all entries.
    pub fn iter(&self) -> (it: Iter<'_, V>)
        ensures
            it@ == self.entry_seq(),
    {
        Iter::from_root(&self.root)
    }

    /// Mutably-borrowed ascending iteration: keys stay read-only, each value
    /// is yielded as a mutable borrow, in the same order as `iter`. A yielded
    /// borrow reaches only the stored value, never a key, a color or a link.
    pub fn iter_mut(&mut self) -> (it: IterMut<'_, V>)
        ensures
            it@ == old(self).entry_seq(),
    {
        IterMut::from_root(&mut self.root)
    }

    /// Owning ascending iteration: consumes the tree, moving each key and
    /// value out as it is yielded.
    pub fn into_iter(self) -> (it: IntoIter<V>)
        ensures
            it@ == self.entry_seq(),
    {
        let RbTree { root, len: _ } = self;
        IntoIter::from_root(root)
    }

    /// Every well-formed tree whose entry count fits in `u64` passes the
    /// black-height consistency check.
    pub proof fn lemma_well_formed_checker(self)
        requires
            self.well_formed(),
            self@.dom().len() <= u64::MAX,
        ensures
            self.black_height_consistent(),
    {
        self.root.lemma_black_height_le_count();
        self.root.lemma_count_is_dom_len();
    }

    /// Number of entries in the tree.
    pub fn len(&self) -> (r: usize)
        requires
            self.well_formed(),
        ensures
            r == self@.dom().len(),
    {
        proof {
            self.root.lemma_count_is_dom_len();
        }
        self.len
    }

    /// True if the tree holds no entry.
    pub fn is_empty(&self) -> (r: bool)
        requires
            self.well_formed(),
        ensures
            r == (self@ == Map::<u64, V>::empty()),
    {
        proof {
            self.root.lemma_count_is_dom_len();
            if self.root.count() == 0 {
                assert(self@ =~= Map::<u64, V>::empty());
            } else {
                match &self.root {
                    RbNode::Nil => {},
                    RbNode::Node(n) => {
                        assert(self@.dom().contains(n.key));
                    },
                }
            }
        }
        self.len == 0
    }
}

impl<V> View for RbTree<V> {
    type V = Map<u64, V>;

    open spec fn view(&self) -> Map<u64, V> {
        self.as_map()
    }
}

} // verus!
