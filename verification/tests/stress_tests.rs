use rbtree::RbTree;

// Multiplying by an odd constant is a bijection on u64, so the keys are
// distinct and arrive in scattered order.
fn scrambled_key(i: u64) -> u64 {
    i.wrapping_mul(0x9E37_79B9_7F4A_7C15)
}

fn sorted_keys(t: &RbTree<u64>) -> Vec<u64> {
    let mut out = Vec::new();
    let mut it = t.iter();
    while let Some((k, _)) = it.next() {
        out.push(k);
    }
    out
}

fn assert_valid(t: &RbTree<u64>) {
    assert!(t.is_correct_rb_tree());
    let keys = sorted_keys(t);
    for w in keys.windows(2) {
        assert!(w[0] < w[1]);
    }
    assert_eq!(keys.len(), t.len());
}

#[test]
fn stress_small_validates_every_step() {
    const N: u64 = 800;
    let mut t: RbTree<u64> = RbTree::new();
    for i in 0..N {
        let k = scrambled_key(i);
        assert_eq!(t.insert(k, i), None);
        assert_valid(&t);
    }
    assert_eq!(t.len(), N as usize);
    // Remove in a different scattered order: i -> (i * 7919) mod N walks all
    // of 0..N because 7919 is coprime to N.
    for i in 0..N {
        let j = (i * 7919) % N;
        let k = scrambled_key(j);
        assert_eq!(t.remove(k), Some(j));
        assert_valid(&t);
    }
    assert_eq!(t.len(), 0);
    assert_eq!(sorted_keys(&t), vec![]);
}

#[test]
fn stress_ten_thousand_keys() {
    const N: u64 = 10_000;
    let mut t: RbTree<u64> = RbTree::new();
    for i in 0..N {
        let k = scrambled_key(i);
        assert_eq!(t.insert(k, i), None);
        if i % 97 == 0 {
            assert_valid(&t);
        }
    }
    assert_eq!(t.len(), N as usize);
    assert_valid(&t);
    for i in 0..N {
        let j = (i * 7919) % N;
        let k = scrambled_key(j);
        assert_eq!(t.remove(k), Some(j));
        if i % 97 == 0 {
            assert_valid(&t);
        }
    }
    assert_eq!(t.len(), 0);
    assert_eq!(sorted_keys(&t), vec![]);
    assert!(t.is_empty());
}
