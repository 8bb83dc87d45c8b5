use paxos::btree::BTree;

#[test]
fn test_insert() {
    let mut t = BTree::new();
    t.insert(10);
    t.insert(20);
    t.insert(5);
    t.insert(6);
    t.insert(12);
    t.insert(30);
    t.insert(7);
    t.insert(17);
    t.insert(40);
    t.insert(50);
    println!("{}", t.search(&123));
    println!("{}", t.search(&17));
    println!("{}", t.search(&20));
    println!("{}", t.search(&50));
    assert!(!t.search(&123));
    assert!(t.search(&17));
    assert!(t.search(&20));
    assert!(t.search(&50));
}

#[test]
fn test_delete() {
    let mut t = BTree::new();
    t.insert(1);
    t.insert(2);
    t.insert(3);
    t.insert(4);
    t.insert(5);
    t.insert(6);
    println!("{:?}", t);
    println!("{}", t.remove(&1));
    println!("{}", t.remove(&2));
    println!("{}", t.remove(&3));
    println!("{}", t.remove(&4));
    println!("{}", t.remove(&5));
    println!("{}", t.remove(&6));
    println!("{:?}", t);
    assert!(!t.search(&1));
    assert!(!t.remove(&1));
}

#[test]
fn btree_insert_returns_false_and_keeps_duplicates() {
    let mut t = BTree::new();
    assert!(!t.search(&7));
    assert!(!t.insert(7));
    assert!(!t.insert(7));
    assert!(t.search(&7));
    assert!(t.remove(&7));
    assert!(t.search(&7));
    assert!(t.remove(&7));
    assert!(!t.search(&7));
    assert!(!t.remove(&7));
}

#[test]
fn btree_holds_what_was_put_in() {
    let mut t = BTree::new();
    let mut present = std::collections::BTreeMap::new();
    let mut x: i64 = 12345;
    for step in 0..4000 {
        x = (x * 1103515245 + 12345) % 2147483648;
        let k = ((x >> 8) % 200) as i32 - 100;
        if step % 3 == 2 {
            let had = present.get(&k).copied().unwrap_or(0) > 0;
            assert_eq!(t.remove(&k), had);
            if had {
                *present.get_mut(&k).unwrap() -= 1;
            }
        } else {
            assert!(!t.insert(k));
            *present.entry(k).or_insert(0) += 1;
        }
        if step % 97 == 0 {
            for probe in -101..101 {
                assert_eq!(t.search(&probe), present.get(&probe).copied().unwrap_or(0) > 0);
            }
        }
    }
    for (k, n) in present.iter() {
        for _ in 0..*n {
            assert!(t.remove(k));
        }
        assert!(!t.search(k));
    }
    for probe in -101..101 {
        assert!(!t.search(&probe));
    }
}

#[test]
fn btree_grows_and_shrinks_in_order() {
    let mut t = BTree::new();
    for k in 0..500 {
        t.insert(k);
    }
    for k in (0..500).rev() {
        assert!(t.search(&k));
    }
    for k in (0..500).step_by(2) {
        assert!(t.remove(&k));
    }
    for k in 0..500 {
        assert_eq!(t.search(&k), k % 2 == 1);
    }
    for k in (1..500).step_by(2).rev() {
        assert!(t.remove(&k));
    }
    assert!(!t.search(&1));
    t.insert(i32::MAX);
    t.insert(i32::MIN);
    assert!(t.search(&i32::MAX));
    assert!(t.search(&i32::MIN));
}
