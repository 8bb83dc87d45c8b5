use paxos::bfprt::bfprt;
use paxos::sort::insert_sort;
use paxos::sort::quick_sort;

#[test]
fn test_quick_sort() {
    let mut a = vec![72, 6, 57, 88, 60, 42, 83, 73, 48, 85];
    let n = a.len() - 1;
    quick_sort(&mut a, 0, n);
    assert_eq!(a, vec![6, 42, 48, 57, 60, 72, 73, 83, 85, 88]);
}

#[test]
fn test_insert_sort() {
    let mut a = vec![72, 6, 57, 88, 60, 42, 83, 73, 48, 85];
    let n = a.len() - 1;
    insert_sort(&mut a, 0, n);
    assert_eq!(a, vec![6, 42, 48, 57, 60, 72, 73, 83, 85, 88]);
}

#[test]
fn test_bfprt() {
    let mut a = vec![72, 6, 57, 88, 60, 42, 83, 73, 48, 85, 10, 14, 23];
    let n = a.len() - 1;
    bfprt(&mut a, 0, n, 6);
    insert_sort(&mut a, 0, 5);
    assert_eq!(&a[..6], &[6, 10, 14, 23, 42, 48]);
}

#[test]
fn sorts_touch_only_their_stretch() {
    let mut a = vec![9, 8, 7, 6, 5, 4, 3, 2, 1, 0];
    quick_sort(&mut a, 2, 6);
    assert_eq!(a, vec![9, 8, 3, 4, 5, 6, 7, 2, 1, 0]);
    let mut b = vec![9, 8, 7, 6, 5, 4, 3, 2, 1, 0];
    insert_sort(&mut b, 7, 9);
    assert_eq!(b, vec![9, 8, 7, 6, 5, 4, 3, 0, 1, 2]);
}

#[test]
fn sorts_leave_empty_and_single_stretches() {
    let mut a = vec![3, 1, 2];
    quick_sort(&mut a, 1, 1);
    insert_sort(&mut a, 2, 2);
    quick_sort(&mut a, 2, 0);
    insert_sort(&mut a, 2, 1);
    assert_eq!(a, vec![3, 1, 2]);
    let mut e: Vec<i32> = Vec::new();
    quick_sort(&mut e, 0, 0);
    insert_sort(&mut e, 0, 0);
    insert_sort(&mut e, usize::MAX, 0);
    assert!(e.is_empty());
}

#[test]
fn sorts_keep_duplicates_and_extremes() {
    let mut a = vec![5, i32::MAX, 5, i32::MIN, 0, 5, -1, i32::MAX];
    let n = a.len() - 1;
    quick_sort(&mut a, 0, n);
    assert_eq!(a, vec![i32::MIN, -1, 0, 5, 5, 5, i32::MAX, i32::MAX]);
    let mut b = vec![5, i32::MAX, 5, i32::MIN, 0, 5, -1, i32::MAX];
    insert_sort(&mut b, 0, n);
    assert_eq!(b, a);
}

#[test]
fn bfprt_returns_each_rank() {
    let base = vec![72, 6, 57, 88, 60, 42, 83, 73, 48, 85, 10, 14, 23, 6, 99, 1, 57];
    let mut sorted = base.clone();
    sorted.sort();
    for k in 1..=base.len() {
        let mut a = base.clone();
        let n = a.len() - 1;
        let x = bfprt(&mut a, 0, n, k);
        assert_eq!(x, sorted[k - 1]);
        assert_eq!(a[k - 1], x);
        assert!(a[..k - 1].iter().all(|y| *y <= x));
        assert!(a[k..].iter().all(|y| *y >= x));
        let mut back = a.clone();
        back.sort();
        assert_eq!(back, sorted);
    }
}

#[test]
fn bfprt_works_inside_a_stretch() {
    let mut a = vec![100, 9, 3, 7, 1, 8, -100];
    let x = bfprt(&mut a, 1, 5, 2);
    assert_eq!(x, 3);
    assert_eq!(a[0], 100);
    assert_eq!(a[6], -100);
    assert_eq!(a[2], 3);
    let mut one = vec![4];
    assert_eq!(bfprt(&mut one, 0, 0, 1), 4);
}
