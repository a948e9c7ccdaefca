use algorithms::heap::{heap_sort, rand_vec, BinaryHeap, N};

#[test]
fn heap_step_test() {
    let mut h = BinaryHeap::new();
    h.insert(1);
    assert_eq!(1, h.peek_max());
    h.insert(2);
    assert_eq!(2, h.peek_max());
    h.insert(1);
    assert_eq!(2, h.peek_max());
    h.insert(3);
    assert_eq!(3, h.peek_max());
    assert_eq!(3, h.remove_max());
    h.insert(3);
    h.insert(2);
    h.insert(5);
    assert_eq!(5, h.remove_max());
    assert_eq!(3, h.remove_max());
    assert_eq!(2, h.remove_max());
    assert_eq!(2, h.remove_max());
    assert_eq!(1, h.remove_max());
    assert_eq!(1, h.remove_max());
    assert!(h.is_empty());
}

#[test]
fn heap_gen_test() {
    let mut v = rand_vec(N - 1);
    let mut h = BinaryHeap::new();
    for e in v.iter() {
        h.insert(*e);
    }
    v.sort();
    v.reverse();
    for e in v.iter() {
        assert_eq!(*e, h.remove_max());
    }
    assert!(h.is_empty());
}

#[test]
fn heap_gen_sort_test() {
    for _ in 0..50 {
        let v = rand_vec(N - 1);
        let mut expected = v.clone();
        expected.sort();
        assert_eq!(heap_sort(v), expected);
    }
}

#[test]
fn heap_sort_takes_the_first_nine() {
    let v = vec![9, 3, 7, 1, 8, 2, 6, 4, 5, 0, 100];
    assert_eq!(heap_sort(v), vec![1, 2, 3, 4, 5, 6, 7, 8, 9]);
    assert_eq!(heap_sort(vec![5, 5, 5, 1, 1, 1, 9, 9, 9]), vec![1, 1, 1, 5, 5, 5, 9, 9, 9]);
}

#[test]
fn heap_slots() {
    let mut h = BinaryHeap::new();
    assert!(h.is_empty());
    for e in [4, 8, 15, 16, 23] {
        h.insert(e);
    }
    assert!(!h.is_empty());
    assert_eq!(h.parent(5), 2);
    assert_eq!(h.parent(4), 2);
    assert_eq!(h.parent(3), 1);
    assert_eq!(h.first_child(2), 4);
    assert_eq!(h.second_child(2), Some(5));
    assert_eq!(h.second_child(3), None);
    assert_eq!(h.first_child(1), 2);
}

#[test]
fn heap_random_numbers_stay_below_bound() {
    let v = rand_vec(30);
    assert_eq!(v.len(), 30);
    assert!(v.iter().all(|&x| x < 30));
}
