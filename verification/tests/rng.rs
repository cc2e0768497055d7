use lib::rng::{lcg_next, random_genome, LCG_INCREMENT, LCG_MULTIPLIER};

#[test]
fn test_random_genome() {
    let mut seed = 42u64;
    let g = random_genome(10, &mut seed);
    assert_eq!(g.len(), 10);
    for &v in &g {
        assert!(v == -1 || v == 0 || v == 1);
    }
}

#[test]
fn lcg_next_draws_the_next_state() {
    let mut seed = 42u64;
    let value = lcg_next(&mut seed);
    assert_eq!(value, 10481999410520546993);
    assert_eq!(seed, 10481999410520546993);
    assert_eq!(
        value,
        42u64.wrapping_mul(LCG_MULTIPLIER).wrapping_add(LCG_INCREMENT)
    );
}

#[test]
fn random_genome_exact_genes_and_seed() {
    let mut seed = 42u64;
    let g = random_genome(10, &mut seed);
    assert_eq!(g, vec![1, 1, 1, 0, 1, 1, 1, -1, 1, 0]);
    assert_eq!(seed, 457466634992928148);
}

#[test]
fn random_genome_is_deterministic_in_the_seed() {
    let mut s1 = 7u64;
    let mut s2 = 7u64;
    assert_eq!(random_genome(25, &mut s1), random_genome(25, &mut s2));
    assert_eq!(s1, s2);
}

#[test]
fn random_genome_advances_seed_once_per_gene() {
    let mut s1 = 99u64;
    let _ = random_genome(4, &mut s1);
    let mut s2 = 99u64;
    for _ in 0..4 {
        lcg_next(&mut s2);
    }
    assert_eq!(s1, s2);
}

#[test]
fn random_genome_empty() {
    let mut seed = 5u64;
    let g = random_genome(0, &mut seed);
    assert!(g.is_empty());
    assert_eq!(seed, 5);
}

#[test]
fn random_population_draws_genomes_in_sequence() {
    let mut seed = 42u64;
    let pop = lib::rng::random_population(3, 4, &mut seed);
    let mut flat_seed = 42u64;
    let flat = random_genome(12, &mut flat_seed);
    assert_eq!(pop.len(), 3);
    for k in 0..3 {
        assert_eq!(pop[k], flat[k * 4..(k + 1) * 4].to_vec());
    }
    assert_eq!(seed, flat_seed);
}

#[test]
fn random_population_empty_shapes() {
    let mut seed = 9u64;
    assert!(lib::rng::random_population(0, 5, &mut seed).is_empty());
    assert_eq!(seed, 9);
    let pop = lib::rng::random_population(2, 0, &mut seed);
    assert_eq!(pop, vec![Vec::<i8>::new(), Vec::new()]);
    assert_eq!(seed, 9);
}

#[test]
fn random_genome_concatenates() {
    let mut a = 11u64;
    let whole = random_genome(7, &mut a);
    let mut b = 11u64;
    let mut first = random_genome(3, &mut b);
    let second = random_genome(4, &mut b);
    first.extend(second);
    assert_eq!(whole, first);
    assert_eq!(a, b);
}
