use algorithms::union_find::b_quick_union;
use algorithms::union_find::pc_quick_union;
use algorithms::union_find::quick_find;
use algorithms::union_find::quick_union;
use algorithms::union_find::disjoint_set::{
    union_all, DisjointSet, PathCompressedUnion, QuickFind, QuickUnion, WeightedQuickUnion,
};
use algorithms::union_find::replay::{replay, Quartet};
use algorithms::union_find::start_sets;
use algorithms::union_find::Node;

const SCENARIO: [(usize, usize); 5] = [(4, 3), (3, 8), (6, 5), (9, 4), (2, 1)];

/// Number of pointers followed from `i` to its root.
fn depth(sets: &[Node], i: usize) -> usize {
    let mut cur = i;
    let mut steps = 0;
    loop {
        match sets[cur] {
            Node::Root(_) => return steps,
            Node::Leaf(p) => {
                cur = p;
                steps += 1;
            }
        }
    }
}

fn floor_log2(n: usize) -> usize {
    let mut k = 0;
    while (1usize << (k + 1)) <= n {
        k += 1;
    }
    k
}

/// A small deterministic generator, so that the runs can be repeated.
fn pairs(seed: u64, n: usize, count: usize) -> Vec<(usize, usize)> {
    let mut state = seed;
    let mut out = Vec::new();
    for _ in 0..count {
        state = state.wrapping_mul(6364136223846793005).wrapping_add(1442695040888963407);
        let a = ((state >> 33) as usize) % n;
        state = state.wrapping_mul(6364136223846793005).wrapping_add(1442695040888963407);
        let b = ((state >> 33) as usize) % n;
        out.push((a, b));
    }
    out
}

#[test]
fn start_sets_makes_singletons() {
    let mut sets = vec![7usize; 6];
    start_sets(&mut sets);
    assert_eq!(sets, vec![0, 1, 2, 3, 4, 5]);
}

#[test]
fn quick_find_scenario() {
    let mut sets = quick_find::new(10);
    for &(a, b) in SCENARIO.iter() {
        quick_find::union(&mut sets, a, b);
    }
    assert!(quick_find::connected(&sets, 8, 9));
    assert!(!quick_find::connected(&sets, 5, 0));
    assert!(!quick_find::connected(&sets, 7, 0));
    assert_eq!(sets, vec![0, 1, 1, 8, 8, 5, 5, 7, 8, 8]);
}

#[test]
fn quick_union_scenario() {
    let mut sets = quick_union::new(10);
    for &(a, b) in SCENARIO.iter() {
        quick_union::union(&mut sets, a, b);
    }
    assert!(quick_union::connected(&sets, 8, 9));
    assert!(!quick_union::connected(&sets, 5, 0));
    assert!(!quick_union::connected(&sets, 7, 0));
    assert_eq!(sets, vec![0, 1, 1, 8, 3, 5, 5, 7, 8, 8]);
}

#[test]
fn weighted_scenario() {
    let mut sets = b_quick_union::new(10);
    for &(a, b) in SCENARIO.iter() {
        b_quick_union::union(&mut sets, a, b);
    }
    assert!(b_quick_union::connected(&sets, 8, 9));
    assert!(!b_quick_union::connected(&sets, 5, 0));
    assert!(!b_quick_union::connected(&sets, 7, 0));
}

#[test]
fn compressed_scenario() {
    let mut sets = pc_quick_union::new(10);
    for &(a, b) in SCENARIO.iter() {
        pc_quick_union::union(&mut sets, a, b);
    }
    assert!(pc_quick_union::connected(&mut sets, 8, 9));
    assert!(!pc_quick_union::connected(&mut sets, 5, 0));
    assert!(!pc_quick_union::connected(&mut sets, 7, 0));
}

#[test]
fn fresh_structures_are_singletons() {
    assert_eq!(quick_find::new(4), vec![0, 1, 2, 3]);
    assert_eq!(quick_union::new(4), vec![0, 1, 2, 3]);
    assert_eq!(b_quick_union::new(3), vec![Node::Root(1); 3]);
    assert_eq!(pc_quick_union::new(3), vec![Node::Root(1); 3]);
}

#[test]
fn universe_of_one() {
    let find = quick_find::new(1);
    assert!(quick_find::connected(&find, 0, 0));
    let union = quick_union::new(1);
    assert!(quick_union::connected(&union, 0, 0));
    let balanced = b_quick_union::new(1);
    assert!(b_quick_union::connected(&balanced, 0, 0));
    let mut compressed = pc_quick_union::new(1);
    assert!(pc_quick_union::connected(&mut compressed, 0, 0));
}

#[test]
fn union_with_itself_changes_nothing() {
    let mut find = quick_find::new(3);
    quick_find::union(&mut find, 1, 1);
    assert_eq!(find, vec![0, 1, 2]);
    let mut union = quick_union::new(3);
    quick_union::union(&mut union, 1, 1);
    assert_eq!(union, vec![0, 1, 2]);
    let mut balanced = b_quick_union::new(3);
    b_quick_union::union(&mut balanced, 1, 1);
    assert_eq!(balanced, vec![Node::Root(1); 3]);
    let mut compressed = pc_quick_union::new(3);
    pc_quick_union::union(&mut compressed, 1, 1);
    assert_eq!(compressed, vec![Node::Root(1); 3]);
}

#[test]
fn chain_joins_ends_only_at_last_link() {
    let n = 12;
    let mut q = Quartet::new(n);
    for i in 0..n - 1 {
        assert!(!q.connected(0, n - 1));
        q.union(i, i + 1);
    }
    assert!(q.connected(0, n - 1));
    for a in 0..n {
        for b in 0..n {
            assert!(q.connected(a, b));
        }
    }
}

#[test]
fn chain_in_quick_union_grows_one_tree() {
    let mut sets = quick_union::new(5);
    for i in 0..4 {
        quick_union::union(&mut sets, i, i + 1);
    }
    assert_eq!(sets, vec![1, 2, 3, 4, 4]);
}

#[test]
fn rank_decides_who_goes_under_whom() {
    let mut sets = b_quick_union::new(4);
    // equal ranks: the first goes under the second, whose rank grows
    b_quick_union::union(&mut sets, 0, 1);
    assert_eq!(sets, vec![Node::Leaf(1), Node::Root(2), Node::Root(1), Node::Root(1)]);
    // smaller rank first: it goes under the second, no rank changes
    b_quick_union::union(&mut sets, 2, 0);
    assert_eq!(sets, vec![Node::Leaf(1), Node::Root(2), Node::Leaf(1), Node::Root(1)]);
    // larger rank first: the second goes under the first, no rank changes
    b_quick_union::union(&mut sets, 0, 3);
    assert_eq!(sets, vec![Node::Leaf(1), Node::Root(2), Node::Leaf(1), Node::Leaf(1)]);
    // already connected: nothing changes
    b_quick_union::union(&mut sets, 2, 3);
    assert_eq!(sets, vec![Node::Leaf(1), Node::Root(2), Node::Leaf(1), Node::Leaf(1)]);
}

#[test]
fn walks_are_compressed() {
    let mut sets = pc_quick_union::new(8);
    pc_quick_union::union(&mut sets, 0, 1);
    pc_quick_union::union(&mut sets, 2, 3);
    pc_quick_union::union(&mut sets, 1, 3);
    pc_quick_union::union(&mut sets, 4, 5);
    pc_quick_union::union(&mut sets, 6, 7);
    pc_quick_union::union(&mut sets, 5, 7);
    pc_quick_union::union(&mut sets, 3, 7);
    // 0 -> 1 -> 3 -> 7 is the longest walk; ranks bound it
    assert_eq!(
        sets,
        vec![
            Node::Leaf(1),
            Node::Leaf(3),
            Node::Leaf(3),
            Node::Leaf(7),
            Node::Leaf(5),
            Node::Leaf(7),
            Node::Leaf(7),
            Node::Root(4),
        ]
    );
    assert!(pc_quick_union::connected(&mut sets, 0, 4));
    // the walks from 0 and from 4 now lead straight to the root
    assert_eq!(
        sets,
        vec![
            Node::Leaf(7),
            Node::Leaf(7),
            Node::Leaf(3),
            Node::Leaf(7),
            Node::Leaf(7),
            Node::Leaf(7),
            Node::Leaf(7),
            Node::Root(4),
        ]
    );
    assert_eq!(depth(&sets, 0), 1);
    assert_eq!(depth(&sets, 2), 2);
}

#[test]
fn connected_is_an_equivalence() {
    let n = 9;
    let mut q = replay(n, &pairs(11, n, 5));
    for a in 0..n {
        assert!(q.connected(a, a));
        for b in 0..n {
            assert_eq!(q.connected(a, b), q.connected(b, a));
            for c in 0..n {
                if q.connected(a, b) && q.connected(b, c) {
                    assert!(q.connected(a, c));
                }
            }
        }
    }
}

#[test]
fn unions_never_split() {
    let n = 16;
    let script = pairs(5, n, 20);
    let mut sets = pc_quick_union::new(n);
    let mut seen: Vec<(usize, usize)> = Vec::new();
    for &(a, b) in script.iter() {
        pc_quick_union::union(&mut sets, a, b);
        for x in 0..n {
            for y in 0..n {
                if pc_quick_union::connected(&mut sets, x, y) {
                    seen.push((x, y));
                }
            }
        }
        for &(x, y) in seen.iter() {
            assert!(pc_quick_union::connected(&mut sets, x, y));
        }
    }
}

#[test]
fn union_of_connected_is_idempotent() {
    let n = 10;
    let mut find = quick_find::new(n);
    let mut balanced = b_quick_union::new(n);
    for &(a, b) in SCENARIO.iter() {
        quick_find::union(&mut find, a, b);
        b_quick_union::union(&mut balanced, a, b);
    }
    let find_before = find.clone();
    let balanced_before = balanced.clone();
    quick_find::union(&mut find, 8, 9);
    b_quick_union::union(&mut balanced, 8, 9);
    assert_eq!(find, find_before);
    assert_eq!(balanced, balanced_before);
}

#[test]
fn four_strategies_agree() {
    for seed in 0..20u64 {
        let n = 24;
        let script = pairs(seed, n, 18);
        let mut find = quick_find::new(n);
        let mut union = quick_union::new(n);
        let mut balanced = b_quick_union::new(n);
        let mut compressed = pc_quick_union::new(n);
        for &(a, b) in script.iter() {
            quick_find::union(&mut find, a, b);
            quick_union::union(&mut union, a, b);
            b_quick_union::union(&mut balanced, a, b);
            pc_quick_union::union(&mut compressed, a, b);
        }
        for a in 0..n {
            for b in 0..n {
                let expected = quick_find::connected(&find, a, b);
                assert_eq!(quick_union::connected(&union, a, b), expected);
                assert_eq!(b_quick_union::connected(&balanced, a, b), expected);
                assert_eq!(pc_quick_union::connected(&mut compressed, a, b), expected);
            }
        }
    }
}

#[test]
fn replay_connects_every_pair_it_was_given() {
    let n = 10;
    let script = pairs(3, n, 9);
    let mut q = replay(n, &script);
    for &(a, b) in script.iter() {
        assert!(quick_find::connected(&q.find.sets, a, b));
        assert!(quick_union::connected(&q.union.sets, a, b));
        assert!(b_quick_union::connected(&q.balanced.sets, a, b));
        assert!(pc_quick_union::connected(&mut q.compressed.sets, a, b));
        assert!(q.connected(a, b));
    }
}

#[test]
fn paths_stay_logarithmic() {
    for seed in 0..20u64 {
        for &n in [1usize, 2, 3, 7, 8, 33, 64].iter() {
            let script = pairs(seed, n, 3 * n);
            let mut balanced = b_quick_union::new(n);
            let mut compressed = pc_quick_union::new(n);
            for &(a, b) in script.iter() {
                b_quick_union::union(&mut balanced, a, b);
                pc_quick_union::union(&mut compressed, a, b);
                for i in 0..n {
                    assert!(depth(&balanced, i) <= floor_log2(n));
                    assert!(depth(&compressed, i) <= floor_log2(n));
                }
            }
        }
    }
}

#[test]
fn balanced_chain_of_eight_has_depth_three() {
    let mut sets = b_quick_union::new(8);
    b_quick_union::union(&mut sets, 0, 1);
    b_quick_union::union(&mut sets, 2, 3);
    b_quick_union::union(&mut sets, 4, 5);
    b_quick_union::union(&mut sets, 6, 7);
    b_quick_union::union(&mut sets, 1, 3);
    b_quick_union::union(&mut sets, 5, 7);
    b_quick_union::union(&mut sets, 3, 7);
    assert_eq!(sets[7], Node::Root(4));
    assert_eq!(depth(&sets, 0), 3);
    assert_eq!(floor_log2(8), 3);
}

/// Runs the scenario through the shared interface.
fn scenario_through_interface<S: DisjointSet>() {
    let mut set = S::new(10);
    for &(a, b) in SCENARIO.iter() {
        set.union(a, b);
    }
    assert!(set.connected(8, 9));
    assert!(!set.connected(5, 0));
    assert!(!set.connected(7, 0));
    let mut other = S::new(10);
    union_all(&mut other, &SCENARIO);
    for a in 0..10 {
        for b in 0..10 {
            assert_eq!(set.connected(a, b), other.connected(a, b));
        }
    }
}

#[test]
fn every_strategy_meets_the_interface() {
    scenario_through_interface::<QuickFind>();
    scenario_through_interface::<QuickUnion>();
    scenario_through_interface::<WeightedQuickUnion>();
    scenario_through_interface::<PathCompressedUnion>();
}

#[test]
fn interface_hands_the_work_to_its_strategy() {
    let mut find = QuickFind::new(4);
    find.union(0, 1);
    assert_eq!(find.sets, vec![1, 1, 2, 3]);
    let mut union = QuickUnion::new(4);
    union.union(0, 1);
    union.union(1, 2);
    assert_eq!(union.sets, vec![1, 2, 2, 3]);
    let mut balanced = WeightedQuickUnion::new(3);
    balanced.union(0, 1);
    assert_eq!(balanced.sets, vec![Node::Leaf(1), Node::Root(2), Node::Root(1)]);
    let mut compressed = PathCompressedUnion::new(3);
    compressed.union(0, 1);
    assert_eq!(compressed.sets, vec![Node::Leaf(1), Node::Root(2), Node::Root(1)]);
}

#[test]
fn union_all_of_nothing_changes_nothing() {
    let mut set = QuickUnion::new(3);
    union_all(&mut set, &[]);
    assert_eq!(set.sets, vec![0, 1, 2]);
}
