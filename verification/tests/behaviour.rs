use index_tree::IndexTree;

fn product(dims: &[usize]) -> usize {
    let mut total = 1;
    for d in dims {
        total *= d;
    }
    total
}

fn drive_by_hand(dims: &Vec<usize>) -> Vec<Vec<usize>> {
    let mut tree = IndexTree::new(dims, &vec![]);
    let mut seen = Vec::new();
    while tree.check() {
        seen.push(tree.get().clone());
        let _ = tree.inc();
    }
    seen
}

fn drive_by_pulls(dims: &Vec<usize>) -> Vec<Vec<usize>> {
    let mut tree = IndexTree::new(dims, &vec![]);
    let mut seen = Vec::new();
    while let Some(coord) = tree.next() {
        seen.push(coord);
    }
    seen
}

#[test]
fn zero_sizes_are_dropped() {
    let tree = IndexTree::new(&vec![2, 0, 3, 0, 2], &vec![]);
    assert_eq!(*tree.dimensions(), vec![2, 3, 2]);
    assert_eq!(*tree.get(), vec![0, 0, 0]);
    assert!(tree.check());
}

#[test]
fn skips_are_sorted_deduplicated_and_bounded() {
    let tree = IndexTree::new(&vec![2, 3, 2], &vec![0, 1, 2, 3, 4, 5]);
    assert_eq!(*tree.skips(), vec![2, 3, 4]);
    let tree = IndexTree::new(&vec![2, 3, 2], &vec![5, 0, 3, 1, 3, 2, 4, 9, 2]);
    assert_eq!(*tree.skips(), vec![2, 3, 4]);
    let tree = IndexTree::new(&vec![2, 3, 2], &vec![7, 3, 3, usize::MAX]);
    assert_eq!(*tree.skips(), vec![3]);
    let tree = IndexTree::new(&vec![2, 3, 2], &vec![4, 2]);
    assert_eq!(*tree.skips(), vec![2, 4]);
    let tree = IndexTree::new(&vec![2, 3, 2], &vec![]);
    assert_eq!(*tree.skips(), Vec::<usize>::new());
}

#[test]
fn skips_are_bounded_by_the_sanitized_shape() {
    let tree = IndexTree::new(&vec![0, 4, 0], &vec![1, 2, 3, 4]);
    assert_eq!(*tree.dimensions(), vec![4]);
    assert_eq!(*tree.skips(), vec![2]);
    let tree = IndexTree::new(&vec![0, 0], &vec![0, 1, 2, 3]);
    assert_eq!(*tree.skips(), Vec::<usize>::new());
}

#[test]
fn empty_shape_is_exhausted_by_the_first_advance() {
    let mut tree = IndexTree::new(&vec![], &vec![2]);
    assert!(tree.check());
    assert_eq!(*tree.get(), Vec::<usize>::new());
    assert_eq!(tree.inc(), Err(()));
    assert!(!tree.check());
    assert_eq!(*tree.get(), Vec::<usize>::new());
    assert_eq!(tree.inc_skip(2), Err(()));
    assert_eq!(tree.inc_skip_v(1), Err(()));
    assert!(!tree.check());

    let mut tree = IndexTree::new(&vec![0, 0], &vec![]);
    assert_eq!(*tree.dimensions(), Vec::<usize>::new());
    assert_eq!(tree.inc_skip(2), Err(()));
    assert!(!tree.check());
}

#[test]
fn empty_shape_holds_one_coordinate() {
    let mut tree = IndexTree::new(&vec![], &vec![]);
    assert_eq!(tree.next(), Some(vec![]));
    assert_eq!(tree.next(), None);
    assert_eq!(tree.next(), None);
    assert_eq!(drive_by_hand(&vec![]).len(), 1);
}

#[test]
fn carries_are_reported_on_the_full_walk() {
    let mut tree = IndexTree::new(&vec![2, 3, 2], &vec![]);
    let expected = [
        (Ok(false), [0, 0, 1]),
        (Ok(true), [0, 1, 0]),
        (Ok(false), [0, 1, 1]),
        (Ok(true), [0, 2, 0]),
        (Ok(false), [0, 2, 1]),
        (Ok(true), [1, 0, 0]),
        (Ok(false), [1, 0, 1]),
        (Ok(true), [1, 1, 0]),
        (Ok(false), [1, 1, 1]),
        (Ok(true), [1, 2, 0]),
        (Ok(false), [1, 2, 1]),
        (Err(()), [2, 0, 0]),
    ];
    for (report, coord) in expected {
        assert_eq!(tree.inc(), report);
        assert_eq!(*tree.get(), coord.to_vec());
        assert_eq!(tree.check(), report.is_ok());
    }
}

#[test]
fn single_dimension_never_carries() {
    let mut tree = IndexTree::new(&vec![3], &vec![2]);
    assert_eq!(tree.inc(), Ok(false));
    assert_eq!(tree.inc_skip(2), Ok(false));
    assert_eq!(*tree.get(), vec![2]);
    assert_eq!(tree.inc(), Err(()));
    assert_eq!(*tree.get(), vec![3]);
}

#[test]
fn dimensions_of_size_one() {
    let mut tree = IndexTree::new(&vec![1, 1, 1], &vec![]);
    assert_eq!(tree.inc(), Err(()));
    assert_eq!(*tree.get(), vec![1, 0, 0]);
    assert_eq!(drive_by_pulls(&vec![1, 1, 1]), vec![vec![0, 0, 0]]);
}

#[test]
fn walk_visits_as_many_coordinates_as_the_product() {
    let shapes: [Vec<usize>; 7] = [
        vec![3],
        vec![1, 1, 1],
        vec![2, 3, 2],
        vec![4, 1, 5],
        vec![10, 10],
        vec![2, 2, 2, 2, 2],
        vec![3, 0, 4],
    ];
    for dims in shapes {
        let kept: Vec<usize> = dims.iter().copied().filter(|d| *d > 0).collect();
        let seen = drive_by_hand(&dims);
        assert_eq!(seen.len(), product(&kept));
        for pair in seen.windows(2) {
            assert!(pair[0] < pair[1]);
        }
        for coord in &seen {
            assert_eq!(coord.len(), kept.len());
            for (c, d) in coord.iter().zip(kept.iter()) {
                assert!(c < d);
            }
        }
    }
}

#[test]
fn walk_ends_on_the_boundary_coordinate() {
    let mut tree = IndexTree::new(&vec![4, 1, 5], &vec![]);
    let mut count = 0;
    while tree.inc().is_ok() {
        count += 1;
    }
    assert_eq!(count, 19);
    assert_eq!(*tree.get(), vec![4, 0, 0]);
    assert!(!tree.check());
}

#[test]
fn pulls_match_driving_by_hand() {
    let shapes: [Vec<usize>; 5] =
        [vec![], vec![3], vec![2, 3, 2], vec![3, 2, 2], vec![1, 4, 0, 2]];
    for dims in shapes {
        assert_eq!(drive_by_pulls(&dims), drive_by_hand(&dims));
    }
}

#[test]
fn pull_after_an_advance_yields_where_it_led() {
    let mut tree = IndexTree::new(&vec![2, 3, 2], &vec![2, 3]);
    assert_eq!(tree.next(), Some(vec![0, 0, 0]));
    assert_eq!(tree.inc_skip(3), Ok(false));
    assert_eq!(tree.next(), Some(vec![0, 1, 0]));
    assert_eq!(tree.next(), Some(vec![0, 1, 1]));
    assert_eq!(tree.inc_skip(2), Ok(false));
    assert_eq!(tree.inc_skip(2), Err(()));
    assert_eq!(tree.next(), None);
}

#[test]
fn exhaustion_is_final() {
    let mut tree = IndexTree::new(&vec![2, 3, 2], &vec![2, 3, 4]);
    assert_eq!(tree.inc_skip(2), Ok(false));
    assert_eq!(tree.inc_skip(2), Err(()));
    assert_eq!(*tree.get(), vec![2, 0, 0]);
    assert!(!tree.check());

    assert_eq!(tree.inc(), Err(()));
    assert_eq!(*tree.get(), vec![2, 0, 1]);
    assert!(!tree.check());
    assert_eq!(tree.inc(), Err(()));
    assert_eq!(*tree.get(), vec![2, 1, 0]);
    assert!(!tree.check());
    assert_eq!(tree.inc_skip(3), Err(()));
    assert_eq!(*tree.get(), vec![2, 2, 0]);
    assert_eq!(tree.inc_skip_v(2), Err(()));
    assert_eq!(*tree.get(), vec![3, 0, 0]);
    assert_eq!(tree.inc_skip_v(1), Err(()));
    assert_eq!(*tree.get(), vec![4, 0, 0]);
    assert!(!tree.check());
    assert_eq!(tree.next(), None);
    assert_eq!(tree.next(), None);
    assert!(!tree.check());
}

#[test]
fn depth_two_carries_into_nothing() {
    let mut tree = IndexTree::new(&vec![2, 3, 2], &vec![0, 1, 2, 3, 4, 5]);
    assert_eq!(*tree.skips(), vec![2, 3, 4]);
    assert_eq!(tree.inc(), Ok(false));
    assert_eq!(*tree.get(), vec![0, 0, 1]);
    assert_eq!(tree.inc_skip(2), Ok(false));
    assert_eq!(*tree.get(), vec![1, 0, 0]);
}

#[test]
fn depth_advance_skips_the_rest_of_the_subtree() {
    let dims = vec![2, 3, 4];
    let at = |steps: usize| {
        let mut tree = IndexTree::new(&dims, &vec![]);
        for _ in 0..steps {
            assert!(tree.inc().is_ok());
        }
        tree
    };
    // rank 6 is [0, 1, 2]
    let mut tree = at(6);
    assert_eq!(*tree.get(), vec![0, 1, 2]);
    assert_eq!(tree.inc_skip(3), Ok(false));
    assert_eq!(*tree.get(), vec![0, 2, 0]);
    assert_eq!(tree, at(8));

    // rank 11 is [0, 2, 3], the last coordinate under position 0 = 0
    let mut tree = at(11);
    assert_eq!(*tree.get(), vec![0, 2, 3]);
    assert_eq!(tree.inc_skip(3), Ok(true));
    assert_eq!(*tree.get(), vec![1, 0, 0]);
    let mut tree = at(11);
    assert_eq!(tree.inc_skip(2), Ok(false));
    assert_eq!(*tree.get(), vec![1, 0, 0]);
    let mut tree = at(11);
    assert_eq!(tree.inc_skip(4), Ok(true));
    assert_eq!(*tree.get(), vec![1, 0, 0]);

    // from rank 13, [1, 0, 1], depth 2 leaves the space
    let mut tree = at(13);
    assert_eq!(tree.inc_skip(2), Err(()));
    assert_eq!(*tree.get(), vec![2, 0, 0]);
}

#[test]
fn depths_that_name_no_position_mean_the_innermost() {
    for depth in [0, 1, 5, 6, 100, usize::MAX] {
        let mut by_depth = IndexTree::new(&vec![2, 3, 2], &vec![2, 3, 4]);
        let mut by_inc = by_depth.clone();
        for _ in 0..13 {
            assert_eq!(by_depth.inc_skip(depth), by_inc.inc());
            assert_eq!(by_depth, by_inc);
        }
    }
}

#[test]
fn slots_without_a_depth_mean_the_innermost() {
    // two registered depths: slot 1 stands for depth 2, every other slot for
    // the innermost advance
    let fresh = IndexTree::new(&vec![2, 3, 2], &vec![3, 2]);
    assert_eq!(*fresh.skips(), vec![2, 3]);
    for slot in [0, 2, 3, 4, 17, usize::MAX] {
        let mut by_slot = fresh.clone();
        let mut by_inc = fresh.clone();
        for _ in 0..13 {
            assert_eq!(by_slot.inc_skip_v(slot), by_inc.inc());
            assert_eq!(by_slot, by_inc);
        }
    }
    let mut tree = fresh.clone();
    assert_eq!(tree.inc_skip_v(2), Ok(false));
    assert_eq!(*tree.get(), vec![0, 0, 1]);
    assert_eq!(tree.inc_skip_v(1), Ok(false));
    assert_eq!(*tree.get(), vec![1, 0, 0]);
}

#[test]
fn slots_follow_the_sorted_depths() {
    let mut tree = IndexTree::new(&vec![2, 3, 2, 2], &vec![5, 4, 3, 9, 3]);
    assert_eq!(*tree.skips(), vec![3, 4, 5]);
    assert_eq!(tree.inc_skip_v(2), Ok(false));
    assert_eq!(*tree.get(), vec![0, 0, 1, 0]);
    assert_eq!(tree.inc_skip_v(1), Ok(false));
    assert_eq!(*tree.get(), vec![0, 1, 0, 0]);
    assert_eq!(tree.inc_skip_v(3), Ok(false));
    assert_eq!(*tree.get(), vec![0, 1, 0, 1]);
    assert_eq!(tree.inc_skip_v(2), Ok(false));
    assert_eq!(*tree.get(), vec![0, 1, 1, 0]);
    assert_eq!(tree.inc_skip_v(2), Ok(true));
    assert_eq!(*tree.get(), vec![0, 2, 0, 0]);
}

#[test]
fn same_calls_lead_to_equal_counters() {
    let mut a = IndexTree::new(&vec![3, 0, 2, 4], &vec![9, 3, 2, 3]);
    let mut b = IndexTree::new(&vec![3, 0, 2, 4], &vec![9, 3, 2, 3]);
    assert_eq!(a, b);
    for step in 0..40 {
        let (ra, rb) = match step % 4 {
            0 => (a.inc(), b.inc()),
            1 => (a.inc_skip(3), b.inc_skip(3)),
            2 => (a.inc_skip_v(1), b.inc_skip_v(1)),
            _ => (a.next().ok_or(()).map(|_| false), b.next().ok_or(()).map(|_| false)),
        };
        assert_eq!(ra, rb);
        assert_eq!(a, b);
        assert_eq!(a.get(), b.get());
        assert_eq!(a.check(), b.check());
    }
    assert!(!a.check());
}

#[test]
fn different_states_are_not_equal() {
    let a = IndexTree::new(&vec![2, 3, 2], &vec![2]);
    let mut b = a.clone();
    assert_eq!(a, b);
    assert_eq!(b.inc(), Ok(false));
    assert_ne!(a, b);
    assert_ne!(a, IndexTree::new(&vec![2, 3, 2], &vec![3]));
    assert_ne!(a, IndexTree::new(&vec![2, 3, 3], &vec![2]));
    let mut pulled = a.clone();
    assert_eq!(pulled.next(), Some(vec![0, 0, 0]));
    assert_eq!(pulled.get(), a.get());
    assert_ne!(a, pulled);
}

#[test]
fn clone_is_a_counter_of_its_own() {
    let mut a = IndexTree::new(&vec![2, 2], &vec![2]);
    assert_eq!(a.inc(), Ok(false));
    let mut b = a.clone();
    assert_eq!(a, b);
    assert_eq!(b.inc(), Ok(true));
    assert_eq!(*a.get(), vec![0, 1]);
    assert_eq!(*b.get(), vec![1, 0]);
}

#[test]
fn largest_dimension_is_walked_to_its_end() {
    let mut tree = IndexTree::new(&vec![usize::MAX], &vec![]);
    assert_eq!(tree.inc_skip(2), Ok(false));
    assert_eq!(*tree.get(), vec![1]);
    assert!(tree.check());
}

#[test]
fn room_for_one_more_advance() {
    let mut tree = IndexTree::new(&vec![2, 2], &vec![]);
    assert!(tree.has_room());
    while tree.inc().is_ok() {
        assert!(tree.has_room());
    }
    assert_eq!(*tree.get(), vec![2, 0]);
    assert!(tree.has_room());
    let mut empty = IndexTree::new(&vec![], &vec![]);
    assert!(empty.has_room());
    assert_eq!(empty.inc(), Err(()));
    assert!(empty.has_room());
}
