use lib::individual::Individual;
use lib::ordering::{objective_order, stable_order};

#[test]
fn stable_order_ascending_keeps_ties_in_place() {
    assert_eq!(stable_order(&vec![3, 1, 2, 1], false), vec![1, 3, 2, 0]);
}

#[test]
fn stable_order_descending_keeps_ties_in_place() {
    assert_eq!(stable_order(&vec![3, 1, 3, 2], true), vec![0, 2, 3, 1]);
}

#[test]
fn stable_order_empty_and_single() {
    assert!(stable_order(&vec![], false).is_empty());
    assert_eq!(stable_order(&vec![7], true), vec![0]);
}

#[test]
fn objective_order_sorts_front_positions() {
    let mut pop = vec![
        Individual::new(vec![0]),
        Individual::new(vec![0]),
        Individual::new(vec![0]),
    ];
    pop[0].fitness = vec![Some(5), Some(0)];
    pop[1].fitness = vec![Some(1), Some(9)];
    pop[2].fitness = vec![Some(3), Some(0)];
    assert_eq!(objective_order(&pop, &[2, 0, 1], 0), vec![2, 0, 1]);
    assert_eq!(objective_order(&pop, &[2, 0, 1], 1), vec![0, 1, 2]);
    assert_eq!(objective_order(&pop, &[1, 2], 0), vec![0, 1]);
    assert_eq!(objective_order(&pop, &[0, 1], 0), vec![1, 0]);
}
