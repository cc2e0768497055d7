use lib::individual::Individual;
use lib::pareto::{dominates, non_dominated_sort};

/// Order key of a float, as the application layer builds it.
fn key(x: f64) -> Option<i64> {
    if x.is_nan() {
        None
    } else {
        let b = (x + 0.0).to_bits() as i64;
        Some(if b < 0 { b ^ i64::MAX } else { b })
    }
}

fn keys(xs: &[f64]) -> Vec<Option<i64>> {
    xs.iter().map(|&x| key(x)).collect()
}

fn with_fitness(genome: Vec<i8>, fitness: &[f64]) -> Individual {
    let mut ind = Individual::new(genome);
    ind.fitness = keys(fitness);
    ind
}

#[test]
fn test_dominates() {
    assert!(dominates(&keys(&[3.0, 2.0]), &keys(&[1.0, 1.0])));
    assert!(!dominates(&keys(&[3.0, 1.0]), &keys(&[1.0, 2.0])));
    assert!(!dominates(&keys(&[1.0, 1.0]), &keys(&[1.0, 1.0])));
}

#[test]
fn test_non_dominated_sort() {
    let pop = vec![
        with_fitness(vec![1], &[3.0, 2.0]),
        with_fitness(vec![-1], &[1.0, 1.0]),
        with_fitness(vec![0], &[2.0, 3.0]),
    ];
    let fronts = non_dominated_sort(&pop);
    assert!(!fronts.is_empty());
    assert!(fronts[0].contains(&0) || fronts[0].contains(&2));
}

#[test]
fn key_order_matches_float_order() {
    let xs = [-f64::INFINITY, -2.5, -1e-300, -0.0, 0.0, 1e-300, 3.0, f64::INFINITY];
    for i in 0..xs.len() {
        for j in 0..xs.len() {
            assert_eq!(xs[i] < xs[j], key(xs[i]).unwrap() < key(xs[j]).unwrap());
        }
    }
    assert_eq!(key(0.0), Some(0));
}

#[test]
fn dominance_is_asymmetric_and_irreflexive() {
    let a = keys(&[2.0, 2.0]);
    let b = keys(&[1.0, 2.0]);
    assert!(dominates(&a, &b));
    assert!(!dominates(&b, &a));
    assert!(!dominates(&a, &a));
}

#[test]
fn dominance_ignores_unordered_values_and_extra_objectives() {
    assert!(dominates(&keys(&[f64::NAN, 2.0]), &keys(&[5.0, 1.0])));
    assert!(!dominates(&keys(&[f64::NAN]), &keys(&[1.0])));
    assert!(dominates(&keys(&[2.0]), &keys(&[1.0, 100.0])));
    assert!(!dominates(&keys(&[]), &keys(&[1.0])));
}

#[test]
fn non_dominated_sort_exact_fronts() {
    let pop = vec![
        with_fitness(vec![1], &[3.0, 2.0]),
        with_fitness(vec![-1], &[1.0, 1.0]),
        with_fitness(vec![0], &[2.0, 3.0]),
        with_fitness(vec![0], &[0.0, 0.0]),
        with_fitness(vec![0], &[1.0, 0.5]),
    ];
    let fronts = non_dominated_sort(&pop);
    assert_eq!(fronts, vec![vec![0, 2], vec![1], vec![4], vec![3]]);
}

#[test]
fn non_dominated_sort_members_of_later_fronts_have_dominators_in_previous() {
    let pop = vec![
        with_fitness(vec![0], &[1.0, 4.0]),
        with_fitness(vec![0], &[4.0, 1.0]),
        with_fitness(vec![0], &[0.5, 0.5]),
        with_fitness(vec![0], &[2.0, 2.0]),
        with_fitness(vec![0], &[3.0, 3.0]),
    ];
    let fronts = non_dominated_sort(&pop);
    assert_eq!(fronts, vec![vec![0, 1, 4], vec![3], vec![2]]);
    for k in 1..fronts.len() {
        for &x in &fronts[k] {
            assert!(fronts[k - 1].iter().any(|&j| dominates(&pop[j].fitness, &pop[x].fitness)));
        }
    }
    let mut all: Vec<usize> = fronts.concat();
    all.sort();
    assert_eq!(all, vec![0, 1, 2, 3, 4]);
}

#[test]
fn non_dominated_sort_without_objectives_gives_one_front() {
    let pop = vec![Individual::new(vec![1]), Individual::new(vec![0]), Individual::new(vec![-1])];
    assert_eq!(non_dominated_sort(&pop), vec![vec![0, 1, 2]]);
    let empty: Vec<Individual> = Vec::new();
    assert!(non_dominated_sort(&empty).is_empty());
}

#[test]
fn non_dominated_sort_equal_vectors_share_a_front() {
    let pop = vec![
        with_fitness(vec![0], &[1.0, 1.0]),
        with_fitness(vec![0], &[1.0, 1.0]),
    ];
    assert_eq!(non_dominated_sort(&pop), vec![vec![0, 1]]);
}

#[test]
fn dominance_is_transitive_on_uniform_ordered_vectors() {
    let a = keys(&[3.0, 3.0]);
    let b = keys(&[2.0, 3.0]);
    let c = keys(&[2.0, 1.0]);
    assert!(dominates(&a, &b));
    assert!(dominates(&b, &c));
    assert!(dominates(&a, &c));
}
