use rbtree::RbTree;

#[test]
fn new_tree_is_empty() {
    let t: RbTree<u32> = RbTree::new();
    assert_eq!(t.len(), 0);
    assert!(t.is_empty());
    assert!(t.is_correct_rb_tree());
}

#[test]
fn insert_then_get_round_trip() {
    let mut t: RbTree<&str> = RbTree::new();
    assert_eq!(t.insert(10, "ten"), None);
    assert_eq!(t.get(10), Some(&"ten"));
    assert_eq!(t.len(), 1);
    assert!(!t.is_empty());
}

#[test]
fn upsert_returns_previous_value_and_keeps_len() {
    let mut t: RbTree<&str> = RbTree::new();
    assert_eq!(t.insert(7, "first"), None);
    let len_before = t.len();
    assert_eq!(t.insert(7, "second"), Some("first"));
    assert_eq!(t.get(7), Some(&"second"));
    assert_eq!(t.len(), len_before);
}

#[test]
fn remove_round_trip() {
    let mut t: RbTree<u64> = RbTree::new();
    t.insert(3, 33);
    t.insert(1, 11);
    t.insert(5, 55);
    let len_before = t.len();
    assert_eq!(t.remove(3), Some(33));
    assert!(!t.contains_key(3));
    assert_eq!(t.len(), len_before - 1);
}

#[test]
fn remove_entry_returns_pair() {
    let mut t: RbTree<u64> = RbTree::new();
    t.insert(8, 80);
    assert_eq!(t.remove_entry(8), Some((8, 80)));
    assert_eq!(t.remove_entry(8), None);
}

#[test]
fn remove_absent_key_changes_nothing() {
    let mut t: RbTree<u64> = RbTree::new();
    for k in [4u64, 2, 6, 1, 3, 5, 7] {
        t.insert(k, k * 10);
    }
    let before: Vec<(u64, u64)> = collect_pairs(&t);
    let len_before = t.len();
    assert_eq!(t.remove(100), None);
    assert_eq!(t.len(), len_before);
    assert_eq!(collect_pairs(&t), before);
    assert!(t.is_correct_rb_tree());
}

#[test]
fn get_key_value_and_contains() {
    let mut t: RbTree<u32> = RbTree::new();
    t.insert(42, 420);
    assert_eq!(t.get_key_value(42), Some((&42, &420)));
    assert_eq!(t.get_key_value(41), None);
    assert!(t.contains_key(42));
    assert!(!t.contains_key(41));
}

#[test]
fn index_yields_the_stored_value() {
    let mut t: RbTree<&str> = RbTree::new();
    t.insert(1, "one");
    t.insert(2, "two");
    assert_eq!(*t.index(2), "two");
}

#[test]
fn clear_empties_the_tree_and_is_idempotent() {
    let mut t: RbTree<u64> = RbTree::new();
    t.clear();
    assert_eq!(t.len(), 0);
    for k in 0u64..50 {
        t.insert(k, k);
    }
    t.clear();
    assert_eq!(t.len(), 0);
    assert!(t.is_empty());
    assert_eq!(collect_pairs(&t), vec![]);
    t.clear();
    assert_eq!(t.len(), 0);
    assert!(t.is_correct_rb_tree());
}

#[test]
fn ordered_iteration_and_pops() {
    let mut t: RbTree<u64> = RbTree::new();
    for k in [5u64, 3, 8, 1, 4, 7, 9] {
        t.insert(k, k * 100);
    }
    let keys: Vec<u64> = collect_pairs(&t).into_iter().map(|kv| kv.0).collect();
    assert_eq!(keys, vec![1, 3, 4, 5, 7, 8, 9]);
    assert_eq!(t.pop_first(), Some((1, 100)));
    assert_eq!(t.pop_last(), Some((9, 900)));
    assert_eq!(t.len(), 5);
}

#[test]
fn pop_on_empty_tree() {
    let mut t: RbTree<u64> = RbTree::new();
    assert_eq!(t.pop_first(), None);
    assert_eq!(t.pop_last(), None);
}

#[test]
fn owning_iteration_moves_entries_out() {
    let mut t: RbTree<String> = RbTree::new();
    t.insert(2, String::from("b"));
    t.insert(1, String::from("a"));
    t.insert(3, String::from("c"));
    let mut it = t.into_iter();
    assert_eq!(it.next(), Some((1, String::from("a"))));
    assert_eq!(it.next(), Some((2, String::from("b"))));
    assert_eq!(it.next(), Some((3, String::from("c"))));
    assert_eq!(it.next(), None);
    assert_eq!(it.next(), None);
}

#[test]
fn borrowed_iteration_yields_references() {
    let mut t: RbTree<u64> = RbTree::new();
    for k in [20u64, 10, 30] {
        t.insert(k, k + 1);
    }
    let mut it = t.iter();
    assert_eq!(it.next(), Some((10, &11)));
    assert_eq!(it.next(), Some((20, &21)));
    assert_eq!(it.next(), Some((30, &31)));
    assert_eq!(it.next(), None);
    // The tree is still usable afterward.
    assert_eq!(t.len(), 3);
}

#[test]
fn get_mut_changes_only_the_value() {
    let mut t: RbTree<u64> = RbTree::new();
    for k in [4u64, 2, 6, 1, 3, 5, 7] {
        t.insert(k, k);
    }
    let keys_before: Vec<u64> = collect_pairs(&t).into_iter().map(|kv| kv.0).collect();
    let len_before = t.len();
    match t.get_mut(5) {
        Some(v) => {
            assert_eq!(*v, 5);
            *v = 5000;
        }
        None => panic!("key 5 must be present"),
    }
    assert_eq!(t.get(5), Some(&5000));
    assert_eq!(t.len(), len_before);
    let keys_after: Vec<u64> = collect_pairs(&t).into_iter().map(|kv| kv.0).collect();
    assert_eq!(keys_after, keys_before);
    assert!(t.is_correct_rb_tree());
    assert_eq!(t.get_mut(100).is_none(), true);
}

fn collect_pairs(t: &RbTree<u64>) -> Vec<(u64, u64)> {
    let mut out = Vec::new();
    let mut it = t.iter();
    while let Some((k, v)) = it.next() {
        out.push((k, *v));
    }
    out
}

#[test]
fn mutable_iteration_changes_only_values() {
    let mut t: RbTree<u64> = RbTree::new();
    for k in [4u64, 2, 6, 1, 3, 5, 7] {
        t.insert(k, k);
    }
    let keys_before: Vec<u64> = collect_pairs(&t).into_iter().map(|kv| kv.0).collect();
    let mut seen: Vec<u64> = Vec::new();
    let mut it = t.iter_mut();
    while let Some((k, v)) = it.next() {
        seen.push(k);
        *v += 100;
    }
    assert_eq!(seen, keys_before);
    let after = collect_pairs(&t);
    let keys_after: Vec<u64> = after.iter().map(|kv| kv.0).collect();
    assert_eq!(keys_after, keys_before);
    for (k, v) in after {
        assert_eq!(v, k + 100);
    }
    assert!(t.is_correct_rb_tree());
    assert_eq!(t.len(), keys_before.len());
}

#[test]
fn index_mut_replaces_only_the_value() {
    let mut t: RbTree<u64> = RbTree::new();
    t.insert(1, 10);
    t.insert(2, 20);
    *t.index_mut(1) = 11;
    assert_eq!(t.get(1), Some(&11));
    assert_eq!(t.get(2), Some(&20));
    assert_eq!(t.len(), 2);
}
