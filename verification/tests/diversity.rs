use lib::diversity::{niche_distances, speciate};
use lib::individual::Individual;

#[test]
fn test_speciate() {
    let mut pop = vec![
        Individual::new(vec![1, 1, 1]),
        Individual::new(vec![1, 1, 0]),
        Individual::new(vec![-1, -1, -1]),
    ];
    let n_species = speciate(&mut pop, 2);
    assert!(n_species >= 1);
}

#[test]
fn speciate_exact_assignment() {
    let mut pop = vec![
        Individual::new(vec![1, 1, 1]),
        Individual::new(vec![1, 1, 0]),
        Individual::new(vec![-1, -1, -1]),
        Individual::new(vec![-1, -1, 0]),
        Individual::new(vec![0, 0, 0]),
    ];
    let n_species = speciate(&mut pop, 1);
    assert_eq!(n_species, 3);
    let ids: Vec<usize> = pop.iter().map(|i| i.species_id).collect();
    assert_eq!(ids, vec![0, 0, 1, 1, 2]);
}

#[test]
fn speciate_joins_first_close_representative() {
    let mut pop = vec![
        Individual::new(vec![1, 1]),
        Individual::new(vec![-1, -1]),
        Individual::new(vec![1, -1]),
    ];
    assert_eq!(speciate(&mut pop, 1), 2);
    assert_eq!(pop[2].species_id, 0);
}

#[test]
fn speciate_empty_and_large_threshold() {
    let mut empty: Vec<Individual> = Vec::new();
    assert_eq!(speciate(&mut empty, 3), 0);
    let mut pop = vec![Individual::new(vec![1, 1]), Individual::new(vec![-1, -1])];
    pop[1].rank = 4;
    assert_eq!(speciate(&mut pop, 2), 1);
    assert_eq!(pop[1].species_id, 0);
    assert_eq!(pop[1].rank, 4);
    assert_eq!(pop[1].genome, vec![-1, -1]);
}

#[test]
fn speciate_threshold_zero_separates_distinct_genomes() {
    let mut pop = vec![
        Individual::new(vec![1]),
        Individual::new(vec![0]),
        Individual::new(vec![1]),
    ];
    assert_eq!(speciate(&mut pop, 0), 2);
    let ids: Vec<usize> = pop.iter().map(|i| i.species_id).collect();
    assert_eq!(ids, vec![0, 1, 0]);
}

#[test]
fn niche_distances_exact() {
    let pop = vec![
        Individual::new(vec![1, 1, 1]),
        Individual::new(vec![1, 0, 1]),
        Individual::new(vec![-1, -1, -1]),
        Individual::new(vec![1, 1, 1]),
    ];
    assert_eq!(niche_distances(&pop, 0, 2), vec![0, 1, 0]);
    assert_eq!(niche_distances(&pop, 2, 3), vec![3, 3, 0, 3]);
    assert_eq!(niche_distances(&pop, 2, 0), vec![0]);
}

#[test]
fn niche_contains_self() {
    let pop = vec![Individual::new(vec![1]), Individual::new(vec![1])];
    let d = niche_distances(&pop, 1, 2);
    assert!(d.contains(&0));
    assert_eq!(d, vec![0, 0]);
}

#[test]
fn speciate_alternating_population() {
    let mut pop: Vec<Individual> = (0..20)
        .map(|i| Individual::new(vec![if i % 2 == 0 { 1 } else { -1 }; 5]))
        .collect();
    let n_species = speciate(&mut pop, 2);
    assert_eq!(n_species, 2);
    for (i, ind) in pop.iter().enumerate() {
        assert_eq!(ind.species_id, i % 2);
    }
}

#[test]
fn species_representatives_lie_apart() {
    let mut pop = vec![
        Individual::new(vec![1, 1, 1]),
        Individual::new(vec![1, 1, 0]),
        Individual::new(vec![-1, -1, -1]),
        Individual::new(vec![-1, -1, 0]),
        Individual::new(vec![0, 0, 0]),
    ];
    let threshold = 1;
    let n_species = speciate(&mut pop, threshold);
    let mut reps: Vec<usize> = Vec::new();
    for s in 0..n_species {
        reps.push(pop.iter().position(|ind| ind.species_id == s).unwrap());
    }
    assert_eq!(reps, vec![0, 2, 4]);
    for a in 0..reps.len() {
        for b in (a + 1)..reps.len() {
            assert!(pop[reps[b]].hamming_distance(&pop[reps[a]]) > threshold);
        }
    }
    for ind in &pop {
        assert!(ind.hamming_distance(&pop[reps[ind.species_id]]) <= threshold);
    }
}

#[test]
fn speciate_changes_only_species_ids() {
    let mut pop = vec![Individual::new(vec![1, 1]), Individual::new(vec![-1, -1])];
    pop[0].crowding_distance = Some(17);
    pop[1].crowding_distance = None;
    pop[1].fitness = vec![Some(3)];
    speciate(&mut pop, 0);
    assert_eq!(pop[0].crowding_distance, Some(17));
    assert_eq!(pop[1].crowding_distance, None);
    assert_eq!(pop[1].fitness, vec![Some(3)]);
    assert_eq!(pop[1].species_id, 1);
}
