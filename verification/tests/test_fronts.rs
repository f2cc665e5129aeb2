use non_dominated_sort::sort::Index;
use non_dominated_sort::test_helper_domination::{Tuple, TupleDominationOrd};
use non_dominated_sort::{non_dominated_sort, DominationOrd, NonDominatedSort};
use std::cmp::Ordering;

fn worked_example() -> Vec<Tuple> {
    vec![
        Tuple(1, 2),
        Tuple(1, 2),
        Tuple(2, 1),
        Tuple(1, 3),
        Tuple(0, 2),
    ]
}

fn scattered() -> Vec<Tuple> {
    vec![
        Tuple(4, 4),
        Tuple(0, 9),
        Tuple(9, 0),
        Tuple(5, 5),
        Tuple(3, 3),
        Tuple(1, 10),
        Tuple(3, 3),
        Tuple(10, 10),
        Tuple(2, 7),
        Tuple(7, 2),
    ]
}

fn all_fronts(solutions: &[Tuple]) -> Vec<Vec<usize>> {
    NonDominatedSort::new(solutions, &TupleDominationOrd)
        .pareto_fronts()
        .iter()
        .map(|f| f.solutions_indices_only())
        .collect()
}

#[test]
fn test_worked_example_fronts() {
    let fronts = all_fronts(&worked_example());
    assert_eq!(vec![vec![2, 4], vec![0, 1], vec![3]], fronts);
}

#[test]
fn test_scattered_fronts() {
    // Position 5 is released by position 1, the first member of the first
    // front, and position 0 only by position 6.
    let fronts = all_fronts(&scattered());
    assert_eq!(
        vec![vec![1, 2, 4, 6, 8, 9], vec![5, 0], vec![3], vec![7]],
        fronts
    );
}

#[test]
fn test_every_position_is_in_exactly_one_front() {
    let solutions = scattered();
    let fronts = all_fronts(&solutions);
    let mut seen = vec![0usize; solutions.len()];
    for front in fronts.iter() {
        for &i in front.iter() {
            assert!(i < solutions.len());
            seen[i] += 1;
        }
    }
    assert_eq!(vec![1usize; solutions.len()], seen);
}

#[test]
fn test_later_front_never_dominates_earlier() {
    let solutions = scattered();
    let fronts = all_fronts(&solutions);
    for a in 0..fronts.len() {
        for b in (a + 1)..fronts.len() {
            for &i in fronts[a].iter() {
                for &j in fronts[b].iter() {
                    assert!(!TupleDominationOrd.dominates(&solutions[j], &solutions[i]));
                }
            }
        }
    }
}

#[test]
fn test_members_of_a_front_are_incomparable() {
    let solutions = scattered();
    let fronts = all_fronts(&solutions);
    for front in fronts.iter() {
        for &i in front.iter() {
            for &j in front.iter() {
                if i != j {
                    assert_eq!(
                        Ordering::Equal,
                        TupleDominationOrd.domination_ord(&solutions[i], &solutions[j])
                    );
                }
            }
        }
    }
}

#[test]
fn test_every_later_member_has_a_dominator_in_the_front_before() {
    let solutions = scattered();
    let fronts = all_fronts(&solutions);
    for b in 1..fronts.len() {
        for &j in fronts[b].iter() {
            assert!(fronts[b - 1]
                .iter()
                .any(|&i| TupleDominationOrd.dominates(&solutions[i], &solutions[j])));
        }
    }
}

#[test]
fn test_two_runs_agree() {
    let solutions = scattered();
    assert_eq!(all_fronts(&solutions), all_fronts(&solutions));
    let copy = scattered();
    assert_eq!(all_fronts(&solutions), all_fronts(&copy));
}

#[test]
fn test_release_order_is_not_index_order() {
    // Position 0 releases position 3, and position 1 releases position 2.
    let solutions = vec![Tuple(0, 10), Tuple(10, 0), Tuple(11, 1), Tuple(1, 11)];
    let fronts = all_fronts(&solutions);
    assert_eq!(vec![vec![0, 1], vec![3, 2]], fronts);
}

#[test]
fn test_no_solutions_no_fronts() {
    let solutions: Vec<Tuple> = Vec::new();
    assert_eq!(0, all_fronts(&solutions).len());
    let mut sort = NonDominatedSort::new(&solutions, &TupleDominationOrd);
    assert!(sort.next().is_none());
    let stopped = NonDominatedSort::new(&solutions, &TupleDominationOrd).pareto_fronts_stop_at(3);
    assert_eq!(0, stopped.len());
    let f0 = non_dominated_sort(&solutions, &TupleDominationOrd);
    assert_eq!(0, f0.rank());
    assert!(f0.is_empty());
    assert_eq!(0, f0.current_front_indices().len());
}

#[test]
fn test_single_solution_single_front() {
    let solutions = vec![Tuple(7, 7)];
    let fronts = NonDominatedSort::new(&solutions, &TupleDominationOrd).pareto_fronts();
    assert_eq!(1, fronts.len());
    assert_eq!(0, fronts[0].rank);
    assert_eq!(vec![0], fronts[0].solutions_indices_only());
    assert_eq!(1, fronts[0].solutions.len());
    assert_eq!(0, fronts[0].solutions[0].index);
}

#[test]
fn test_next_after_exhaustion_stays_none() {
    let solutions = worked_example();
    let mut sort = NonDominatedSort::new(&solutions, &TupleDominationOrd);
    assert!(sort.next().is_some());
    assert!(sort.next().is_some());
    assert!(sort.next().is_some());
    assert!(sort.next().is_none());
    assert!(sort.next().is_none());
    assert_eq!(0, sort.pareto_fronts().len());
}

#[test]
fn test_collecting_after_next_yields_the_rest() {
    let solutions = worked_example();
    let mut sort = NonDominatedSort::new(&solutions, &TupleDominationOrd);
    let first = sort.next().unwrap();
    assert_eq!(0, first.rank);
    let rest = sort.pareto_fronts();
    assert_eq!(2, rest.len());
    assert_eq!(1, rest[0].rank);
    assert_eq!(vec![0, 1], rest[0].solutions_indices_only());
    assert_eq!(2, rest[1].rank);
    assert_eq!(vec![3], rest[1].solutions_indices_only());
}

#[test]
fn test_stop_at_is_a_prefix_of_all_fronts() {
    let solutions = scattered();
    let full = all_fronts(&solutions);
    for k in 0..(solutions.len() + 3) {
        let part: Vec<Vec<usize>> = NonDominatedSort::new(&solutions, &TupleDominationOrd)
            .pareto_fronts_stop_at(k)
            .iter()
            .map(|f| f.solutions_indices_only())
            .collect();
        assert!(part.len() <= full.len());
        assert_eq!(full[..part.len()].to_vec(), part);
        let found: usize = part.iter().map(|f| f.len()).sum();
        if k <= solutions.len() {
            assert!(found >= k);
        } else {
            assert_eq!(full, part);
        }
        if part.len() > 1 {
            let before: usize = part[..part.len() - 1].iter().map(|f| f.len()).sum();
            assert!(before < k);
        }
    }
}

#[test]
fn test_stop_at_exact_lengths() {
    let solutions = scattered();
    let lens: Vec<usize> = (0..13)
        .map(|k| {
            NonDominatedSort::new(&solutions, &TupleDominationOrd)
                .pareto_fronts_stop_at(k)
                .len()
        })
        .collect();
    // The fronts hold 6, 2, 1 and 1 solutions.
    assert_eq!(vec![1, 1, 1, 1, 1, 1, 1, 2, 2, 3, 4, 4, 4], lens);
}

#[test]
fn test_stop_at_zero_yields_first_front() {
    let solutions = worked_example();
    let fronts = NonDominatedSort::new(&solutions, &TupleDominationOrd).pareto_fronts_stop_at(0);
    assert_eq!(1, fronts.len());
    assert_eq!(0, fronts[0].rank);
    assert_eq!(vec![2, 4], fronts[0].solutions_indices_only());
}

#[test]
fn test_stop_at_never_splits_a_front() {
    let solutions = worked_example();
    let fronts = NonDominatedSort::new(&solutions, &TupleDominationOrd).pareto_fronts_stop_at(1);
    assert_eq!(1, fronts.len());
    assert_eq!(2, fronts[0].solutions.len());
}

#[test]
fn test_stop_at_more_than_there_are() {
    let solutions = worked_example();
    let fronts = NonDominatedSort::new(&solutions, &TupleDominationOrd).pareto_fronts_stop_at(100);
    assert_eq!(3, fronts.len());
    assert_eq!(vec![3], fronts[2].solutions_indices_only());
}

#[test]
fn test_narrow_index_gives_the_same_fronts() {
    let solutions = worked_example();
    assert!(u32::check(solutions.len()));
    let f0 = non_dominated_sort::sort::non_dominated_sort::<Tuple, TupleDominationOrd, u32>(
        &solutions,
        &TupleDominationOrd,
    );
    assert_eq!(0, f0.rank());
    assert!(!f0.is_empty());
    assert_eq!(&[2u32, 4u32], f0.current_front_indices());
    let f1 = f0.next_front();
    assert_eq!(1, f1.rank());
    assert_eq!(&[0u32, 1u32], f1.current_front_indices());
    let f2 = f1.next_front();
    assert_eq!(2, f2.rank());
    assert_eq!(&[3u32], f2.current_front_indices());
    let f3 = f2.next_front();
    assert_eq!(3, f3.rank());
    assert!(f3.is_empty());
    let f4 = f3.next_front();
    assert_eq!(4, f4.rank());
    assert!(f4.is_empty());
}

#[test]
fn test_word_index_gives_the_same_fronts() {
    let solutions = scattered();
    let mut front = non_dominated_sort::sort::non_dominated_sort::<Tuple, TupleDominationOrd, usize>(
        &solutions,
        &TupleDominationOrd,
    );
    let mut narrow = non_dominated_sort::sort::non_dominated_sort::<Tuple, TupleDominationOrd, u32>(
        &solutions,
        &TupleDominationOrd,
    );
    for expected in all_fronts(&solutions).iter() {
        assert_eq!(expected.as_slice(), front.current_front_indices());
        let widened: Vec<usize> = narrow
            .current_front_indices()
            .iter()
            .map(|i| i.index())
            .collect();
        assert_eq!(expected, &widened);
        front = front.next_front();
        narrow = narrow.next_front();
    }
    assert!(front.is_empty());
    assert!(narrow.is_empty());
}

#[test]
fn test_index_check() {
    assert!(usize::check(0));
    assert!(usize::check(usize::MAX));
    assert!(u32::check(0));
    assert!(u32::check(4_294_967_295));
    if usize::MAX > 4_294_967_295 {
        assert!(!u32::check(4_294_967_296));
        assert!(!u32::check(usize::MAX));
    }
}

#[test]
fn test_index_new_and_index() {
    let a: u32 = Index::new(7);
    assert_eq!(7u32, a);
    assert_eq!(7usize, a.index());
    let b: usize = Index::new(9);
    assert_eq!(9usize, b);
    assert_eq!(9usize, b.index());
    let top: u32 = Index::new(4_294_967_295);
    assert_eq!(4_294_967_295usize, top.index());
}

#[test]
fn test_index_inc_and_dec_to_zero() {
    let mut a: u32 = 0;
    a.inc();
    assert_eq!(1, a);
    a.inc();
    assert_eq!(2, a);
    assert!(!a.dec_to_zero());
    assert_eq!(1, a);
    assert!(a.dec_to_zero());
    assert_eq!(0, a);

    let mut b: usize = 41;
    b.inc();
    assert_eq!(42, b);
    assert!(!b.dec_to_zero());
    assert_eq!(41, b);
    let mut c: usize = 1;
    assert!(c.dec_to_zero());
    assert_eq!(0, c);
}
