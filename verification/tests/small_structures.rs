use paxos::datrie::DATrie;
use paxos::rand::PseudoRand;
use paxos::ring::Ring;

#[derive(Debug, PartialEq, Eq)]
struct Num(i32);

#[test]
fn test_ring() {
    let mut ring = Ring::<Num, 3>::new();
    ring.push_back(Num(1));
    ring.push_back(Num(2));
    ring.push_back(Num(3));
    assert!(ring.is_full());
    println!("push_back 4");
    ring.push_back(Num(4));
    assert_eq!(ring.len(), 3);
    println!("pop_front");
    assert_eq!(ring.pop_front(), Some(Num(2)));
    println!("drop_front");
    assert!(ring.drop_front());
    assert_eq!(ring.len(), 1);
    assert_eq!(ring.get(0), Some(&Num(4)));
    println!("front {:?}", ring.front());
    assert_eq!(ring.get(1), None);
    println!("drop ring");
}

#[test]
fn ring_hands_out_items_in_order() {
    let mut ring = Ring::<u8, 4>::new();
    assert_eq!(ring.front(), None);
    assert_eq!(ring.pop_front(), None);
    assert!(!ring.drop_front());
    for x in 0..10u8 {
        ring.push_back(x);
    }
    let mut it = ring.iter();
    let mut seen = Vec::new();
    while let Some(x) = it.next() {
        seen.push(*x);
    }
    assert_eq!(seen, vec![6, 7, 8, 9]);
    assert_eq!(ring.front(), Some(&6));
    *ring.front_mut().unwrap() = 60;
    *ring.get_mut(3).unwrap() = 90;
    assert!(ring.get_mut(4).is_none());
    assert_eq!(ring.get(0), Some(&60));
    assert_eq!(ring.get(3), Some(&90));
    assert_eq!(ring.pop_front(), Some(60));
    assert_eq!(ring.len(), 3);
    assert!(!ring.is_full());
}

#[test]
fn ring_without_room_keeps_nothing() {
    let mut ring = Ring::<u8, 0>::new();
    assert!(ring.is_full());
    ring.push_back(1);
    assert_eq!(ring.len(), 0);
    assert_eq!(ring.front(), None);
    assert!(ring.front_mut().is_none());
    assert!(ring.iter().next().is_none());
}

#[test]
fn pseudo_rand_follows_the_recurrence() {
    let mut r = PseudoRand::new(1);
    assert_eq!(r.rand(), 1103527590);
    assert_eq!(r.rand(), 1103527590u64.wrapping_mul(1103515245).wrapping_add(12345));
    let mut z = PseudoRand::new(0);
    assert_eq!(z.rand(), 12345);
    let mut m = PseudoRand::new(u64::MAX);
    assert_eq!(m.rand(), u64::MAX.wrapping_mul(1103515245).wrapping_add(12345));
}

fn tiny_trie() -> DATrie {
    // Holds "a" and "ab": codes are byte + 1, 'a' = 98, 'b' = 99.
    let mut base = vec![0isize; 300];
    let mut check = vec![0isize; 300];
    base[0] = 1;
    // From state 1, 'a' leads to place 99, which holds state 100.
    check[99] = 1;
    base[99] = 100;
    // State 100 ends a key, and 'b' leads on to place 199, state 200.
    check[100] = 100;
    base[100] = -1;
    check[199] = 100;
    base[199] = 200;
    check[200] = 200;
    base[200] = -2;
    DATrie { base, check }
}

#[test]
fn trie_lookup_walks_the_arrays() {
    let t = tiny_trie();
    assert!(t.is_wf());
    assert!(t.contains("a"));
    assert!(t.contains("ab"));
    assert!(!t.contains(""));
    assert!(!t.contains("b"));
    assert!(!t.contains("abc"));
    assert!(!t.contains("aa"));
    assert!(!t.contains("\u{e9}"));
}

#[test]
fn malformed_tries_are_told_apart() {
    assert!(!DATrie { base: vec![], check: vec![] }.is_wf());
    assert!(!DATrie { base: vec![0], check: vec![] }.is_wf());
    assert!(!DATrie { base: vec![5], check: vec![0] }.is_wf());
    assert!(!DATrie { base: vec![-1], check: vec![0] }.is_wf());
    assert!(DATrie { base: vec![0], check: vec![0] }.is_wf());
    assert!(!DATrie { base: vec![0, 9], check: vec![0, 0] }.is_wf());
    assert!(DATrie { base: vec![0, 9], check: vec![0, 1] }.is_wf());
    assert!(DATrie { base: vec![0, 9], check: vec![0, -1] }.is_wf());
}
