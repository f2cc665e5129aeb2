use non_dominated_sort::test_helper_domination::{Tuple, TupleDominationOrd};
use non_dominated_sort::DominationOrd;
use std::cmp::Ordering;

#[test]
fn test_non_domination() {
    let a = &Tuple(1, 2);
    let b = &Tuple(2, 1);

    // Non-domination due to reflexitivity
    assert_eq!(Ordering::Equal, TupleDominationOrd.domination_ord(a, a));
    assert_eq!(Ordering::Equal, TupleDominationOrd.domination_ord(b, b));

    // Non-domination
    assert_eq!(Ordering::Equal, TupleDominationOrd.domination_ord(a, b));
    assert_eq!(Ordering::Equal, TupleDominationOrd.domination_ord(b, a));
}

#[test]
fn test_domination() {
    let a = &Tuple(1, 2);
    let b = &Tuple(1, 3);
    let c = &Tuple(0, 2);

    // a < b
    assert_eq!(Ordering::Less, TupleDominationOrd.domination_ord(a, b));
    // c < a
    assert_eq!(Ordering::Less, TupleDominationOrd.domination_ord(c, a));
    // transitivity => c < b
    assert_eq!(Ordering::Less, TupleDominationOrd.domination_ord(c, b));

    // Just reverse the relation: forall a, b: a < b => b > a

    // b > a
    assert_eq!(Ordering::Greater, TupleDominationOrd.domination_ord(b, a));
    // a > c
    assert_eq!(Ordering::Greater, TupleDominationOrd.domination_ord(a, c));
    // transitivity => b > c
    assert_eq!(Ordering::Greater, TupleDominationOrd.domination_ord(b, c));
}

#[test]
fn test_dominates_follows_domination_ord() {
    let a = &Tuple(1, 2);
    let b = &Tuple(1, 3);
    let c = &Tuple(2, 1);

    assert!(TupleDominationOrd.dominates(a, b));
    assert!(!TupleDominationOrd.dominates(b, a));
    assert!(!TupleDominationOrd.dominates(a, a));
    assert!(!TupleDominationOrd.dominates(a, c));
    assert!(!TupleDominationOrd.dominates(c, a));
}

#[test]
fn test_domination_in_one_objective_only() {
    // Equal in the first objective, better in the second.
    assert_eq!(
        Ordering::Less,
        TupleDominationOrd.domination_ord(&Tuple(3, 1), &Tuple(3, 2))
    );
    // Better in the first objective, equal in the second.
    assert_eq!(
        Ordering::Less,
        TupleDominationOrd.domination_ord(&Tuple(2, 5), &Tuple(3, 5))
    );
    assert_eq!(
        Ordering::Greater,
        TupleDominationOrd.domination_ord(&Tuple(3, 2), &Tuple(3, 1))
    );
    assert_eq!(
        Ordering::Greater,
        TupleDominationOrd.domination_ord(&Tuple(3, 5), &Tuple(2, 5))
    );
    // Equal in both.
    assert_eq!(
        Ordering::Equal,
        TupleDominationOrd.domination_ord(&Tuple(3, 5), &Tuple(3, 5))
    );
}
