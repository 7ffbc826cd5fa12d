use finite_topology::binary::Binary;
use finite_topology::topology::satisfies_axioms;
use finite_topology::PowerSet;

fn pattern(len: usize, value: usize) -> Binary {
    let mut counter = Binary::new(len);
    for _ in 0..value {
        assert!(counter.next().is_some());
    }
    counter
}

#[test]
fn power_set_of_no_points_is_the_empty_subset_alone() {
    let power_set = PowerSet::new(0);
    assert_eq!(power_set.cardinality(), 0);
    assert_eq!(power_set.subsets(), &vec![Vec::<usize>::new()]);
}

#[test]
fn power_set_of_one_point() {
    let power_set = PowerSet::new(1);
    assert_eq!(power_set.subsets(), &vec![vec![], vec![0]]);
}

#[test]
fn power_set_of_two_points_follows_the_counter() {
    let power_set = PowerSet::new(2);
    assert_eq!(power_set.subsets(), &vec![vec![], vec![0], vec![1], vec![0, 1]]);
}

#[test]
fn power_set_of_three_points_follows_the_counter() {
    let power_set = PowerSet::new(3);
    let expected: Vec<Vec<usize>> = vec![
        vec![],
        vec![0],
        vec![1],
        vec![0, 1],
        vec![2],
        vec![0, 2],
        vec![1, 2],
        vec![0, 1, 2],
    ];
    assert_eq!(power_set.subsets(), &expected);
}

#[test]
fn power_set_members_are_distinct_sorted_subsets() {
    for n in 0..=8usize {
        let power_set = PowerSet::new(n);
        let subsets = power_set.subsets();
        assert_eq!(subsets.len(), 1usize << n);
        let whole: Vec<usize> = (0..n).collect();
        let mut empties = 0;
        let mut wholes = 0;
        for (position, subset) in subsets.iter().enumerate() {
            assert!(subset.windows(2).all(|pair| pair[0] < pair[1]));
            assert!(subset.iter().all(|index| *index < n));
            let mut spelled = 0usize;
            for index in subset {
                spelled += 1usize << index;
            }
            assert_eq!(spelled, position);
            if subset.is_empty() {
                empties += 1;
            }
            if *subset == whole {
                wholes += 1;
            }
            for other in &subsets[..position] {
                assert_ne!(other, subset);
            }
        }
        if n == 0 {
            assert_eq!((empties, wholes), (1, 1));
            assert_eq!(subsets[0], whole);
        } else {
            assert_eq!(empties, 1);
            assert_eq!(wholes, 1);
            assert!(subsets[0].is_empty());
            assert_eq!(subsets[subsets.len() - 1], whole);
        }
    }
}

#[test]
fn largest_ground_set_has_two_to_the_fifteen_subsets() {
    let power_set = PowerSet::new(15);
    assert_eq!(power_set.cardinality(), 15);
    assert_eq!(power_set.subsets().len(), 32768);
    assert_eq!(power_set.subsets()[32767], (0..15).collect::<Vec<usize>>());
    assert_eq!(power_set.subsets()[0b100_0000_0000_0101], vec![0, 2, 14]);
}

#[test]
fn selection_takes_the_subsets_at_set_flags() {
    let power_set = PowerSet::new(2);
    assert_eq!(power_set.select(&pattern(4, 9)), vec![vec![], vec![0, 1]]);
    assert_eq!(power_set.select(&pattern(4, 6)), vec![vec![0], vec![1]]);
    assert_eq!(power_set.select(&pattern(4, 0)), Vec::<Vec<usize>>::new());
    assert_eq!(
        power_set.select(&pattern(4, 15)),
        vec![vec![], vec![0], vec![1], vec![0, 1]]
    );
}

#[test]
fn selection_with_fewer_or_more_flags_than_subsets() {
    let power_set = PowerSet::new(2);
    assert_eq!(power_set.select(&pattern(2, 3)), vec![vec![], vec![0]]);
    assert_eq!(power_set.select(&pattern(5, 16)), Vec::<Vec<usize>>::new());
    assert_eq!(power_set.select(&pattern(5, 24)), vec![vec![0, 1]]);
}

#[test]
fn no_points_give_one_topology() {
    assert_eq!(PowerSet::new(0).count_topologies(), 1);
}

#[test]
fn one_point_gives_one_topology() {
    let power_set = PowerSet::new(1);
    assert!(!power_set.is_topology(&pattern(2, 1)));
    assert!(!power_set.is_topology(&pattern(2, 2)));
    assert!(power_set.is_topology(&pattern(2, 3)));
    assert_eq!(power_set.count_topologies(), 1);
}

#[test]
fn two_points_give_four_topologies() {
    let power_set = PowerSet::new(2);
    let mut valid = Vec::new();
    for value in 1..16usize {
        if power_set.is_topology(&pattern(4, value)) {
            valid.push(value);
        }
    }
    assert_eq!(valid, vec![9, 11, 13, 15]);
    assert_eq!(power_set.count_topologies(), 4);
}

#[test]
fn three_points_give_twenty_nine_topologies() {
    assert_eq!(PowerSet::new(3).count_topologies(), 29);
}

#[test]
fn four_points_give_three_hundred_fifty_five_topologies() {
    assert_eq!(PowerSet::new(4).count_topologies(), 355);
}

#[test]
fn empty_pattern_is_no_topology() {
    assert!(!PowerSet::new(1).is_topology(&pattern(2, 0)));
    assert!(!PowerSet::new(2).is_topology(&pattern(4, 0)));
}

#[test]
fn trivial_topology_on_two_points_is_valid() {
    let candidate = vec![vec![], vec![0, 1]];
    assert!(satisfies_axioms(2, &candidate));
    assert!(PowerSet::new(2).is_topology(&pattern(4, 9)));
}

#[test]
fn candidate_without_the_whole_set_is_rejected() {
    let candidate = vec![vec![], vec![0], vec![1]];
    assert!(!satisfies_axioms(2, &candidate));
    assert!(!PowerSet::new(2).is_topology(&pattern(4, 7)));
}

#[test]
fn candidate_without_the_empty_set_is_rejected() {
    let candidate = vec![vec![0], vec![0, 1]];
    assert!(!satisfies_axioms(2, &candidate));
    assert!(!satisfies_axioms(2, &Vec::new()));
}

#[test]
fn candidate_not_closed_under_union_is_rejected() {
    let candidate = vec![vec![], vec![0], vec![1], vec![0, 1, 2]];
    assert!(!satisfies_axioms(3, &candidate));
}

#[test]
fn candidate_not_closed_under_intersection_is_rejected() {
    let candidate = vec![vec![], vec![0, 1], vec![1, 2], vec![0, 1, 2]];
    assert!(!satisfies_axioms(3, &candidate));
}

#[test]
fn chain_and_discrete_topologies_are_valid() {
    assert!(satisfies_axioms(2, &vec![vec![], vec![0], vec![0, 1]]));
    assert!(satisfies_axioms(2, &vec![vec![], vec![0], vec![1], vec![0, 1]]));
    assert!(satisfies_axioms(3, &vec![vec![], vec![1], vec![1, 2], vec![0, 1, 2]]));
    assert!(satisfies_axioms(0, &vec![vec![]]));
}

#[test]
fn members_that_are_not_in_canonical_form_break_closure() {
    assert!(!satisfies_axioms(2, &vec![vec![], vec![1, 1], vec![0, 1]]));
    assert!(!satisfies_axioms(2, &vec![vec![], vec![1, 0]]));
}

#[test]
fn order_and_repetition_of_members_do_not_matter() {
    assert!(satisfies_axioms(2, &vec![vec![0, 1], vec![0], vec![]]));
    assert!(satisfies_axioms(2, &vec![vec![], vec![], vec![0, 1], vec![0, 1]]));
}
