use algorithms::sort::{
    insertion, merge, merge_sort, partition, quick_sort, selection, shell, shuffle,
};
use algorithms::util::{is_sorted, rand_upto, rand_vec, reduce, swap};

const N: usize = 10;

#[test]
fn step_test() {
    let v = rand_vec(N);
    assert_eq!(vec![1, 2, 3, 4, 5, 6], merge(&vec![1, 4, 5], &vec![2, 3, 6]));
    assert_eq!(vec![1, 3, 4, 5, 6, 8], merge_sort(&vec![1, 8, 3, 4, 5, 6]));
    assert!(is_sorted(&merge_sort(&v)));
    let mut u = vec![1, 3, 5, 2, 4, 6];
    let n = u.len();
    partition(&mut u, 0, n - 1);
    assert_eq!(vec![1, 3, 5, 2, 4, 6], u);
    partition(&mut u, 1, n - 1);
    assert_eq!(vec![1, 2, 3, 5, 4, 6], u);
    partition(&mut u, 2, n - 1);
    assert_eq!(vec![1, 2, 3, 5, 4, 6], u);
    partition(&mut u, 3, n - 1);
    assert!(is_sorted(&u));
}

#[test]
fn second_step_test() {
    let mut v = vec![1, 3, 4, 4, 4, 5, 5, 0, 2, 1];
    let n = v.len();
    partition(&mut v, 0, n - 1);
    assert_eq!(v, vec![0, 1, 4, 4, 4, 5, 5, 3, 2, 1]);
    partition(&mut v, 1, n - 1);
    assert_eq!(v, vec![0, 1, 4, 4, 4, 5, 5, 3, 2, 1]);
    partition(&mut v, 2, n - 1);
    assert_eq!(v, vec![0, 1, 3, 4, 4, 1, 2, 4, 5, 5]);
    partition(&mut v, 2, 6);
    assert!(is_sorted(&v));
    // Test the whole thing
    let mut v = vec![1, 3, 4, 4, 4, 5, 5, 0, 2, 1];
    quick_sort(&mut v);
    assert!(is_sorted(&v));
}

#[test]
fn third_step() {
    let mut v = vec![9, 8, 5, 3, 1, 5, 7, 0, 4, 7];
    let n = v.len();
    assert_eq!(9, partition(&mut v, 0, n - 1));
    assert_eq!(v, vec![7, 8, 5, 3, 1, 5, 7, 0, 4, 9]);
    assert_eq!(7, partition(&mut v, 0, 8));
    assert_eq!(v, vec![0, 4, 5, 3, 1, 5, 7, 7, 8, 9]);
    assert_eq!(0, partition(&mut v, 0, 6));
    assert_eq!(v, vec![0, 4, 5, 3, 1, 5, 7, 7, 8, 9]);
    assert_eq!(3, partition(&mut v, 1, 6));
    assert_eq!(v, vec![0, 3, 1, 4, 5, 5, 7, 7, 8, 9]);
    assert_eq!(2, partition(&mut v, 1, 2));
    assert!(is_sorted(&v));
    // full
    let mut v = vec![9, 8, 5, 3, 1, 5, 7, 0, 4, 7];
    quick_sort(&mut v);
    assert!(is_sorted(&v));
}

#[test]
fn multi_test() {
    for _ in 0..100 {
        let mut v = rand_vec(N);
        quick_sort(&mut v);
        assert!(is_sorted(&v));
    }
}

#[test]
fn sort_test() {
    let a = &mut [2, 2, 8, 7, 3, 5, 3, 0, 7, 9];
    shell(a);
    assert_eq!(a, &[0, 2, 2, 3, 3, 5, 7, 7, 8, 9]);
}

#[test]
fn selection_sorts() {
    let mut a = [2, 2, 8, 7, 3, 5, 3, 0, 7, 9];
    selection(&mut a);
    assert_eq!(a, [0, 2, 2, 3, 3, 5, 7, 7, 8, 9]);
    let mut one = [4];
    selection(&mut one);
    assert_eq!(one, [4]);
}

#[test]
fn insertion_sorts() {
    let mut a = [2, 2, 8, 7, 3, 5, 3, 0, 7, 9];
    insertion(&mut a);
    assert_eq!(a, [0, 2, 2, 3, 3, 5, 7, 7, 8, 9]);
    let mut none: [usize; 0] = [];
    insertion(&mut none);
    assert_eq!(none, []);
}

#[test]
fn shell_sorts_long_input() {
    let mut v: Vec<usize> = (0..200).map(|i| (i * 7919) % 211).collect();
    let mut expected = v.clone();
    expected.sort();
    shell(&mut v);
    assert_eq!(v, expected);
    let mut none: [usize; 0] = [];
    shell(&mut none);
    assert_eq!(none, []);
}

#[test]
fn quick_sort_sorts() {
    let mut v = vec![2, 2, 8, 7, 3, 5, 3, 0, 7, 9];
    quick_sort(&mut v);
    assert_eq!(v, vec![0, 2, 2, 3, 3, 5, 7, 7, 8, 9]);
    let mut one = vec![3];
    quick_sort(&mut one);
    assert_eq!(one, vec![3]);
    let mut same = vec![5, 5, 5, 5];
    quick_sort(&mut same);
    assert_eq!(same, vec![5, 5, 5, 5]);
}

#[test]
fn merge_sort_sorts() {
    assert_eq!(merge_sort(&[7]), vec![7]);
    assert_eq!(merge_sort(&[2, 1]), vec![1, 2]);
    assert_eq!(merge_sort(&[2, 2, 8, 7, 3, 5, 3, 0, 7, 9]), vec![0, 2, 2, 3, 3, 5, 7, 7, 8, 9]);
}

#[test]
fn merge_keeps_every_element() {
    assert_eq!(merge(&[1], &[1]), vec![1, 1]);
    assert_eq!(merge(&[5, 6], &[1, 2, 3]), vec![1, 2, 3, 5, 6]);
    assert_eq!(merge(&[1, 2, 3], &[5, 6]), vec![1, 2, 3, 5, 6]);
}

#[test]
fn shuffle_rearranges() {
    let mut v: Vec<usize> = (0..50).collect();
    shuffle(&mut v);
    let mut back = v.clone();
    back.sort();
    assert_eq!(back, (0..50).collect::<Vec<usize>>());
}

#[test]
fn swap_exchanges() {
    let mut a = [1, 2, 3];
    swap(&mut a, 0, 2);
    assert_eq!(a, [3, 2, 1]);
    swap(&mut a, 1, 1);
    assert_eq!(a, [3, 2, 1]);
}

#[test]
fn random_numbers_stay_below_bound() {
    for n in 1..40 {
        for _ in 0..20 {
            assert!(rand_upto(n) < n);
        }
    }
    let v = rand_vec(25);
    assert_eq!(v.len(), 25);
    assert!(v.iter().all(|&x| x < 25));
    assert_eq!(rand_vec(0), Vec::<usize>::new());
}

#[test]
fn is_sorted_tells_order() {
    assert!(is_sorted(&[1]));
    assert!(is_sorted(&[1, 1, 2, 3]));
    assert!(!is_sorted(&[1, 3, 2]));
    assert!(!is_sorted(&[2, 1]));
}

#[test]
fn sorts_anything_that_is_ordered() {
    let mut words = vec!["pear", "apple", "fig", "apple", "kiwi"];
    quick_sort(&mut words);
    assert_eq!(words, vec!["apple", "apple", "fig", "kiwi", "pear"]);
    let mut letters = ['q', 'u', 'i', 'c', 'k'];
    insertion(&mut letters);
    assert_eq!(letters, ['c', 'i', 'k', 'q', 'u']);
    let mut pairs = [(2, 'b'), (1, 'z'), (2, 'a'), (1, 'a')];
    selection(&mut pairs);
    assert_eq!(pairs, [(1, 'a'), (1, 'z'), (2, 'a'), (2, 'b')]);
    let mut signed = [3i64, -1, 0, -7, 3];
    shell(&mut signed);
    assert_eq!(signed, [-7, -1, 0, 3, 3]);
    assert_eq!(merge_sort(&[true, false, true]), vec![false, true, true]);
    assert!(is_sorted(&["a", "b", "b"]));
    assert!(!is_sorted(&["b", "a"]));
}

#[test]
fn shuffle_of_two_exchanges_them() {
    // the only earlier position of the second element is the first
    for _ in 0..20 {
        let mut v = [1, 2];
        shuffle(&mut v);
        assert_eq!(v, [2, 1]);
    }
    let mut one = ['x'];
    shuffle(&mut one);
    assert_eq!(one, ['x']);
    let mut none: [u8; 0] = [];
    shuffle(&mut none);
    assert_eq!(none, []);
}

#[test]
fn shuffle_moves_every_element() {
    // each element joins the cycle of an earlier one, so none keeps its place
    for _ in 0..50 {
        let mut v: Vec<usize> = (0..12).collect();
        shuffle(&mut v);
        for (place, &x) in v.iter().enumerate() {
            assert_ne!(place, x);
        }
    }
}

#[test]
fn reduce_is_the_remainder() {
    assert_eq!(reduce(17, 5), 2);
    assert_eq!(reduce(4, 5), 4);
    assert_eq!(reduce(5, 5), 0);
    assert_eq!(reduce(usize::MAX, 1), 0);
    assert_eq!(reduce(usize::MAX, 10), usize::MAX % 10);
}
