use non_dominated_sort::{non_dominated_sort, DominationOrd, NonDominatedSort};
use std::cmp::Ordering;

// More is better, in a single objective.
struct More;

impl DominationOrd for More {
    type Solution = u32;

    fn dominates_spec(&self, a: &u32, b: &u32) -> bool {
        a > b
    }

    fn domination_ord(&self, a: &u32, b: &u32) -> Ordering {
        b.cmp(a)
    }
}

// Rock, paper, scissors: 0 beats 1, 1 beats 2, 2 beats 0. Not a partial order.
struct Cycle;

impl DominationOrd for Cycle {
    type Solution = u8;

    fn dominates_spec(&self, a: &u8, b: &u8) -> bool {
        (*a + 1) % 3 == *b
    }

    fn domination_ord(&self, a: &u8, b: &u8) -> Ordering {
        if (*a + 1) % 3 == *b {
            Ordering::Less
        } else if (*b + 1) % 3 == *a {
            Ordering::Greater
        } else {
            Ordering::Equal
        }
    }
}

#[test]
fn test_single_objective_ranks_by_value() {
    let solutions: Vec<u32> = vec![5, 9, 5, 1, 9];
    let fronts = NonDominatedSort::new(&solutions, &More).pareto_fronts();
    assert_eq!(3, fronts.len());
    assert_eq!(0, fronts[0].rank);
    assert_eq!(vec![1, 4], fronts[0].solutions_indices_only());
    assert_eq!(1, fronts[1].rank);
    assert_eq!(vec![0, 2], fronts[1].solutions_indices_only());
    assert_eq!(2, fronts[2].rank);
    assert_eq!(vec![3], fronts[2].solutions_indices_only());
}

#[test]
fn test_default_dominates_is_less() {
    assert!(More.dominates(&7, &3));
    assert!(!More.dominates(&3, &7));
    assert!(!More.dominates(&3, &3));
}

#[test]
fn test_chain_has_one_front_per_solution() {
    let solutions: Vec<u32> = vec![1, 2, 3, 4];
    let fronts = NonDominatedSort::new(&solutions, &More).pareto_fronts();
    assert_eq!(4, fronts.len());
    assert_eq!(vec![3], fronts[0].solutions_indices_only());
    assert_eq!(vec![2], fronts[1].solutions_indices_only());
    assert_eq!(vec![1], fronts[2].solutions_indices_only());
    assert_eq!(vec![0], fronts[3].solutions_indices_only());
}

#[test]
fn test_all_tied_is_one_front_in_input_order() {
    let solutions: Vec<u32> = vec![4, 4, 4];
    let fronts = NonDominatedSort::new(&solutions, &More).pareto_fronts();
    assert_eq!(1, fronts.len());
    assert_eq!(vec![0, 1, 2], fronts[0].solutions_indices_only());
}

#[test]
fn test_shared_dominators_release_in_list_order() {
    // Positions 0 and 2 both wait for 1 and for 3. The later of these, 3,
    // releases them, in the order of its list.
    let solutions: Vec<u32> = vec![5, 9, 5, 9];
    let f0 = non_dominated_sort(&solutions, &More);
    assert_eq!(&[1, 3], f0.current_front_indices());
    let f1 = f0.next_front();
    assert_eq!(&[0, 2], f1.current_front_indices());
}

#[test]
fn test_one_front_after_the_other() {
    // Values: position 0 = 1, position 1 = 3, position 2 = 2, position 3 = 3.
    // First front: 1 and 3. Second: 2. Third: 0.
    let solutions: Vec<u32> = vec![1, 3, 2, 3];
    let f0 = non_dominated_sort(&solutions, &More);
    assert_eq!(&[1, 3], f0.current_front_indices());
    let f1 = f0.next_front();
    assert_eq!(&[2], f1.current_front_indices());
    let f2 = f1.next_front();
    assert_eq!(&[0], f2.current_front_indices());
    let f3 = f2.next_front();
    assert!(f3.is_empty());
}

#[test]
fn test_cycle_never_comes_out() {
    let solutions: Vec<u8> = vec![0, 1, 2];
    let fronts = NonDominatedSort::new(&solutions, &Cycle).pareto_fronts();
    assert_eq!(0, fronts.len());
}

#[test]
fn test_cycle_keeps_back_what_it_dominates() {
    // Position 3 holds a second 1: 0 dominates it, and 0 is in the cycle.
    let solutions: Vec<u8> = vec![0, 1, 2, 1];
    let mut sort = NonDominatedSort::new(&solutions, &Cycle);
    assert!(sort.next().is_none());
    assert!(sort.next().is_none());
}
