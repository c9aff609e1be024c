use vstd::prelude::*;

use super::node::RbNode;

verus! {

/// The entries still to be yielded by a stack of pending ancestors: the top
/// of the stack comes first, each entry followed by its right subtree.
pub open spec fn pending_entries<V>(st: Seq<(u64, V, RbNode<V>)>) -> Seq<(u64, V)>
    decreases st.len(),
{
    if st.len() == 0 {
        Seq::empty()
    } else {
        seq![(st.last().0, st.last().1)] + st.last().2.in_order() + pending_entries(
            st.drop_last(),
        )
    }
}

/// `pending_entries` for a stack of borrowed ancestors.
pub open spec fn pending_entries_ref<V>(st: Seq<(u64, &V, &RbNode<V>)>) -> Seq<(u64, V)>
    decreases st.len(),
{
    if st.len() == 0 {
        Seq::empty()
    } else {
        seq![(st.last().0, *st.last().1)] + st.last().2.in_order() + pending_entries_ref(
            st.drop_last(),
        )
    }
}

/// Owning ascending iterator: an explicit work stack stands in for the
/// recursion of an in-order walk, and each yielded entry is moved out of its
/// node as the node is freed.
pub struct IntoIter<V> {
    pub(crate) cur: RbNode<V>,
    pub(crate) stack: Vec<(u64, V, RbNode<V>)>,
}

impl<V> View for IntoIter<V> {
    type V = Seq<(u64, V)>;

    closed spec fn view(&self) -> Seq<(u64, V)> {
        self.cur.in_order() + pending_entries(self.stack@)
    }
}

impl<V> IntoIter<V> {
    /// Start an owning walk over a subtree.
    pub(crate) fn from_root(root: RbNode<V>) -> (it: Self)
        ensures
            it@ == root.in_order(),
    {
        let ghost entries = root.in_order();
        let it = IntoIter { cur: root, stack: Vec::new() };
        proof {
            assert(it@ =~= entries);
        }
        it
    }

    /// Yield the next entry in ascending key order, or `None` when the walk
    /// is exhausted.
    pub fn next(&mut self) -> (r: Option<(u64, V)>)
        ensures
            old(self)@.len() == 0 ==> r is None && final(self)@ == old(self)@,
            old(self)@.len() > 0 ==> r == Some(old(self)@[0]) && final(self)@ == old(
                self,
            )@.drop_first(),
    {
        while !self.cur.is_nil()
            invariant
                self@ == old(self)@,
            decreases self.cur,
        {
            let ghost prev_cur = self.cur;
            let ghost prev_stack = self.stack@;
            let mut cur = RbNode::new();
            core::mem::swap(&mut cur, &mut self.cur);
            match cur {
                RbNode::Nil => {
                    proof {
                        assert(false);
                    }
                },
                RbNode::Node(b) => {
                    let raw = *b;
                    self.stack.push((raw.key, raw.value, raw.right));
                    self.cur = raw.left;
                    proof {
                        assert(self.stack@.drop_last() =~= prev_stack);
                        assert(self.cur.in_order() + pending_entries(self.stack@)
                            =~= prev_cur.in_order() + pending_entries(prev_stack));
                    }
                },
            }
        }
        let popped = self.stack.pop();
        match popped {
            None => {
                proof {
                    assert(self@ =~= Seq::<(u64, V)>::empty());
                }
                None
            },
            Some(entry) => {
                let ghost prev_stack = self.stack@.push(entry);
                self.cur = entry.2;
                proof {
                    assert(prev_stack.drop_last() =~= self.stack@);
                    assert(old(self)@ =~= seq![(entry.0, entry.1)] + entry.2.in_order()
                        + pending_entries(self.stack@));
                    assert(final(self)@ =~= old(self)@.drop_first());
                }
                Some((entry.0, entry.1))
            },
        }
    }
}

/// Borrowed ascending iterator: yields each key with a reference to its
/// value, in ascending key order.
pub struct Iter<'a, V> {
    pub(crate) cur: &'a RbNode<V>,
    pub(crate) stack: Vec<(u64, &'a V, &'a RbNode<V>)>,
}

impl<'a, V> View for Iter<'a, V> {
    type V = Seq<(u64, V)>;

    closed spec fn view(&self) -> Seq<(u64, V)> {
        self.cur.in_order() + pending_entries_ref(self.stack@)
    }
}

impl<'a, V> Iter<'a, V> {
    /// Start a borrowed walk over a subtree.
    pub(crate) fn from_root(root: &'a RbNode<V>) -> (it: Self)
        ensures
            it@ == root.in_order(),
    {
        let it = Iter { cur: root, stack: Vec::new() };
        proof {
            assert(it@ =~= root.in_order());
        }
        it
    }

    /// Yield the next entry in ascending key order, or `None` when the walk
    /// is exhausted.
    pub fn next(&mut self) -> (r: Option<(u64, &'a V)>)
        ensures
            old(self)@.len() == 0 ==> r is None && final(self)@ == old(self)@,
            old(self)@.len() > 0 ==> final(self)@ == old(self)@.drop_first() && (match r {
                Some(kv) => kv.0 == old(self)@[0].0 && *kv.1 == old(self)@[0].1,
                None => false,
            }),
    {
        while !self.cur.is_nil()
            invariant
                self@ == old(self)@,
            decreases self.cur,
        {
            let ghost prev_cur = self.cur;
            let ghost prev_stack = self.stack@;
            match self.cur {
                RbNode::Nil => {
                    proof {
                        assert(false);
                    }
                },
                RbNode::Node(b) => {
                    self.stack.push((b.key, &b.value, &b.right));
                    self.cur = &b.left;
                    proof {
                        assert(self.stack@.drop_last() =~= prev_stack);
                        assert(self.cur.in_order() + pending_entries_ref(self.stack@)
                            =~= prev_cur.in_order() + pending_entries_ref(prev_stack));
                    }
                },
            }
        }
        let popped = self.stack.pop();
        match popped {
            None => {
                proof {
                    assert(self@ =~= Seq::<(u64, V)>::empty());
                }
                None
            },
            Some(entry) => {
                let ghost prev_stack = self.stack@.push(entry);
                self.cur = entry.2;
                proof {
                    assert(prev_stack.drop_last() =~= self.stack@);
                    assert(old(self)@ =~= seq![(entry.0, *entry.1)] + entry.2.in_order()
                        + pending_entries_ref(self.stack@));
                    assert(final(self)@ =~= old(self)@.drop_first());
                }
                Some((entry.0, entry.1))
            },
        }
    }
}

/// `pending_entries` for a stack of mutably borrowed ancestors.
pub open spec fn pending_entries_mut<V>(st: Seq<(u64, &mut V, &mut RbNode<V>)>) -> Seq<(u64, V)>
    decreases st.len(),
{
    if st.len() == 0 {
        Seq::empty()
    } else {
        seq![(st.last().0, *st.last().1)] + st.last().2.in_order() + pending_entries_mut(
            st.drop_last(),
        )
    }
}

/// Mutably-borrowed ascending iterator: yields each key (read-only) with a
/// mutable borrow of its value, in ascending key order. A yielded borrow
/// reaches only the stored value, never the links or colors, so writing
/// through it cannot change the structure of the tree.
pub struct IterMut<'a, V> {
    pub(crate) cur: Option<&'a mut RbNode<V>>,
    pub(crate) stack: Vec<(u64, &'a mut V, &'a mut RbNode<V>)>,
}

impl<'a, V> View for IterMut<'a, V> {
    type V = Seq<(u64, V)>;

    closed spec fn view(&self) -> Seq<(u64, V)> {
        (match self.cur {
            Some(c) => c.in_order(),
            None => Seq::empty(),
        }) + pending_entries_mut(self.stack@)
    }
}

impl<'a, V> IterMut<'a, V> {
    /// Start a mutable walk over a subtree.
    pub(crate) fn from_root(root: &'a mut RbNode<V>) -> (it: Self)
        ensures
            it@ == old(root).in_order(),
    {
        let ghost entries = root.in_order();
        let it = IterMut { cur: Some(root), stack: Vec::new() };
        proof {
            assert(it@ =~= entries);
        }
        it
    }

    /// Yield the next entry in ascending key order, or `None` when the walk
    /// is exhausted.
    pub fn next(&mut self) -> (r: Option<(u64, &'a mut V)>)
        ensures
            old(self)@.len() == 0 ==> r is None && final(self)@ == old(self)@,
            old(self)@.len() > 0 ==> final(self)@ == old(self)@.drop_first() && (match r {
                Some(kv) => kv.0 == old(self)@[0].0 && *kv.1 == old(self)@[0].1,
                None => false,
            }),
    {
        loop
            invariant_except_break
                self@ == old(self)@,
            ensures
                self@ == old(self)@,
                self.cur is None,
            decreases (match self.cur {
                Some(c) => c.count() + 1,
                None => 0nat,
            }),
        {
            let ghost prev = self@;
            let ghost prev_stack = self.stack@;
            let taken = self.cur.take();
            match taken {
                None => {
                    break ;
                },
                Some(node_ref) => {
                    match node_ref {
                        RbNode::Nil => {
                            break ;
                        },
                        RbNode::Node(n) => {
                            let raw = &mut **n;
                            self.stack.push((raw.key, &mut raw.value, &mut raw.right));
                            self.cur = Some(&mut raw.left);
                            proof {
                                assert(self.stack@.drop_last() =~= prev_stack);
                                assert(self@ =~= prev);
                            }
                        },
                    }
                },
            }
        }
        let ghost stack_before = self.stack@;
        match self.stack.pop() {
            None => {
                proof {
                    assert(self@ =~= Seq::<(u64, V)>::empty());
                }
                None
            },
            Some(entry) => {
                proof {
                    assert(entry == stack_before.last());
                    assert(old(self)@ == seq![(entry.0, *entry.1)] + entry.2.in_order()
                        + pending_entries_mut(stack_before.drop_last()));
                    assert(old(self)@[0] == (entry.0, *entry.1));
                }
                let ghost tail = entry.2.in_order() + pending_entries_mut(
                    stack_before.drop_last(),
                );
                self.cur = Some(entry.2);
                proof {
                    assert(final(self)@ =~= tail);
                    assert(final(self)@ =~= old(self)@.drop_first());
                }
                Some((entry.0, entry.1))
            },
        }
    }
}

} // verus!
