use lib::individual::{genome_hamming, Individual};

#[test]
fn test_individual_hamming() {
    let a = Individual::new(vec![1, 0, -1]);
    let b = Individual::new(vec![1, 1, -1]);
    assert_eq!(a.hamming_distance(&b), 1);
}

#[test]
fn new_individual_defaults() {
    let a = Individual::new(vec![1, -1]);
    assert_eq!(a.genome, vec![1, -1]);
    assert!(a.fitness.is_empty());
    assert_eq!(a.rank, 0);
    assert_eq!(a.crowding_distance, Some(0));
    assert_eq!(a.species_id, 0);
}

#[test]
fn hamming_is_symmetric_and_zero_on_self() {
    let a = Individual::new(vec![1, 0, -1, 1]);
    let b = Individual::new(vec![-1, 0, 1, 1]);
    assert_eq!(a.hamming_distance(&b), 2);
    assert_eq!(b.hamming_distance(&a), 2);
    assert_eq!(a.hamming_distance(&a), 0);
}

#[test]
fn hamming_counts_only_common_positions() {
    assert_eq!(genome_hamming(&vec![1, 1, 1, 1], &vec![0, 1]), 1);
    assert_eq!(genome_hamming(&vec![], &vec![0, 1]), 0);
}

#[test]
fn hamming_triangle_inequality_example() {
    let a = vec![1, 1, 1];
    let b = vec![1, 0, 1];
    let c = vec![0, 0, -1];
    assert!(genome_hamming(&a, &c) <= genome_hamming(&a, &b) + genome_hamming(&b, &c));
}

#[test]
fn squared_euclidean_distance_exact() {
    let a = Individual::new(vec![1, 0, -1]);
    let b = Individual::new(vec![-1, 0, 1]);
    assert_eq!(a.squared_euclidean_distance(&b), 8);
    let dist = (a.squared_euclidean_distance(&b) as f64).sqrt();
    assert!((dist - (8f64).sqrt()).abs() < 0.01);
}

#[test]
fn squared_euclidean_distance_common_prefix() {
    let a = Individual::new(vec![1, 1, 1]);
    let b = Individual::new(vec![-1]);
    assert_eq!(a.squared_euclidean_distance(&b), 4);
}

#[test]
fn squared_distance_symmetric_and_bounded_by_hamming() {
    let a = Individual::new(vec![1, 0, -1, 1, 0]);
    let b = Individual::new(vec![-1, 0, 0, 1, 1]);
    let sq = a.squared_euclidean_distance(&b);
    let h = a.hamming_distance(&b) as u128;
    assert_eq!(sq, b.squared_euclidean_distance(&a));
    assert_eq!(sq, 6);
    assert_eq!(h, 3);
    assert!(h <= sq && sq <= 4 * h);
    assert_eq!(a.squared_euclidean_distance(&a), 0);
}
