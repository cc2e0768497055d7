use lib::individual::Individual;
use lib::nsga::{
    assign_ranks, offspring_in_bounds, pareto_front, select_survivors, selection_is_defined,
    tournament_offspring,
};
use lib::pareto::non_dominated_sort;

fn member(genome: Vec<i8>, rank: usize, crowding: Option<i64>) -> Individual {
    let mut ind = Individual::new(genome);
    ind.rank = rank;
    ind.crowding_distance = crowding;
    ind
}

#[test]
fn tournament_offspring_exact() {
    let pop = vec![
        member(vec![1, 1, 1], 1, Some(0)),
        member(vec![-1, -1, -1], 0, Some(5)),
        member(vec![0, 0, 0], 0, Some(3)),
    ];
    let mut seed = 7u64;
    assert!(offspring_in_bounds(&pop, 3, 3, seed));
    let children = tournament_offspring(&pop, 3, 3, &mut seed);
    assert_eq!(children, vec![vec![0, 0, 0], vec![0, -1, -1], vec![-1, -1, -1]]);
    assert_eq!(seed, 10314390376128247603);
    for child in &children {
        for &g in child {
            assert!((-1..=1).contains(&g));
        }
    }
}

#[test]
fn tournament_offspring_empty_generation() {
    let pop: Vec<Individual> = Vec::new();
    let mut seed = 3u64;
    assert!(offspring_in_bounds(&pop, 0, 0, seed));
    assert!(tournament_offspring(&pop, 0, 0, &mut seed).is_empty());
    assert_eq!(seed, 3);
}

#[test]
fn offspring_out_of_bounds_detected() {
    let pop = vec![member(vec![1, 1, 1], 0, Some(0))];
    assert!(!offspring_in_bounds(&pop, 3, 3, 7));
    assert!(!offspring_in_bounds(&pop, 1, 0, 7));
    let short = vec![member(vec![1], 0, Some(0))];
    assert!(!offspring_in_bounds(&short, 1, 1000, 7));
}

#[test]
fn assign_ranks_by_front() {
    let mut pop = vec![
        member(vec![0], 9, None),
        member(vec![0], 9, None),
        member(vec![0], 9, None),
        member(vec![0], 9, None),
    ];
    assign_ranks(&mut pop, &vec![vec![2], vec![0, 3]]);
    let ranks: Vec<usize> = pop.iter().map(|i| i.rank).collect();
    assert_eq!(ranks, vec![1, 9, 0, 1]);
}

#[test]
fn pareto_front_lists_rank_zero() {
    let pop = vec![
        member(vec![0], 0, None),
        member(vec![0], 2, None),
        member(vec![0], 0, None),
    ];
    assert_eq!(pareto_front(&pop), vec![0, 2]);
}

#[test]
fn select_survivors_whole_fronts_then_crowding() {
    let pop = vec![
        member(vec![0], 0, Some(1)),
        member(vec![0], 0, Some(9)),
        member(vec![0], 1, Some(4)),
        member(vec![0], 1, Some(7)),
        member(vec![0], 1, Some(4)),
    ];
    let fronts = vec![vec![0, 1], vec![2, 3, 4]];
    assert!(selection_is_defined(&pop, &fronts, 4));
    assert_eq!(select_survivors(&pop, &fronts, 4), vec![0, 1, 3, 2]);
    assert_eq!(select_survivors(&pop, &fronts, 2), vec![0, 1]);
    assert_eq!(select_survivors(&pop, &fronts, 9), vec![0, 1, 2, 3, 4]);
    assert_eq!(select_survivors(&pop, &fronts, 1), vec![1]);
    assert_eq!(select_survivors(&pop, &fronts, 0), Vec::<usize>::new());
}

#[test]
fn selection_undefined_on_unordered_crowding() {
    let pop = vec![
        member(vec![0], 0, Some(1)),
        member(vec![0], 0, None),
        member(vec![0], 0, Some(2)),
    ];
    assert!(!selection_is_defined(&pop, &vec![vec![0, 1, 2]], 2));
    assert!(selection_is_defined(&pop, &vec![vec![0], vec![1, 2]], 1));
    assert!(selection_is_defined(&pop, &vec![vec![0, 2], vec![1]], 2));
}

#[test]
fn generation_keeps_population_size() {
    let mut pop = Vec::new();
    for i in 0..8i64 {
        let mut ind = Individual::new(vec![0, 1]);
        ind.fitness = vec![Some(i % 3), Some((7 - i) % 4)];
        pop.push(ind);
    }
    let fronts = non_dominated_sort(&pop);
    assign_ranks(&mut pop, &fronts);
    assert!(selection_is_defined(&pop, &fronts, 4));
    let survivors = select_survivors(&pop, &fronts, 4);
    assert_eq!(survivors.len(), 4);
    assert!(survivors.iter().any(|&i| pop[i].rank == 0 && fronts[0].contains(&i)));
}

#[test]
fn assign_ranks_keeps_crowding() {
    let mut pop = vec![member(vec![0], 5, Some(11)), member(vec![0], 5, None)];
    assign_ranks(&mut pop, &vec![vec![1], vec![0]]);
    assert_eq!(pop[0].rank, 1);
    assert_eq!(pop[1].rank, 0);
    assert_eq!(pop[0].crowding_distance, Some(11));
    assert_eq!(pop[1].crowding_distance, None);
}

#[test]
fn one_generation_orders_survivors_by_rank_and_keeps_lineage() {
    let pop_size = 6;
    let genome_len = 4;
    let mut seed = 42u64;
    let genomes = lib::rng::random_population(pop_size, genome_len, &mut seed);
    let fitness_of = |g: &Vec<i8>| -> Vec<Option<i64>> {
        let sum: i64 = g.iter().map(|&v| v as i64).sum();
        let ones = g.iter().filter(|&&v| v == 1).count() as i64;
        vec![Some(sum), Some(ones - (g[0] as i64))]
    };
    let parents: Vec<Individual> = genomes
        .into_iter()
        .map(|g| {
            let mut ind = Individual::new(g);
            ind.fitness = fitness_of(&ind.genome);
            ind
        })
        .collect();
    assert!(offspring_in_bounds(&parents, pop_size, genome_len, seed));
    let children = tournament_offspring(&parents, pop_size, genome_len, &mut seed);
    let mut combined: Vec<Individual> = Vec::new();
    for p in &parents {
        let mut ind = Individual::new(p.genome.clone());
        ind.fitness = p.fitness.clone();
        combined.push(ind);
    }
    for c in &children {
        let mut ind = Individual::new(c.clone());
        ind.fitness = fitness_of(c);
        combined.push(ind);
    }
    let fronts = non_dominated_sort(&combined);
    assign_ranks(&mut combined, &fronts);
    assert!(selection_is_defined(&combined, &fronts, pop_size));
    let survivors = select_survivors(&combined, &fronts, pop_size);
    assert_eq!(survivors.len(), pop_size);
    assert_eq!(combined[survivors[0]].rank, 0);
    for w in survivors.windows(2) {
        assert!(combined[w[0]].rank <= combined[w[1]].rank);
    }
    for &x in &survivors {
        let g = &combined[x].genome;
        assert!(parents.iter().any(|p| p.genome.len() == g.len()
            && p.genome.iter().zip(g.iter()).filter(|(a, b)| a != b).count() <= 1));
    }
}

#[test]
fn generation_pipeline_ranks_and_selects() {
    let scored = |genome: Vec<i8>, f: [i64; 2]| {
        let mut ind = Individual::new(genome);
        ind.fitness = vec![Some(f[0]), Some(f[1])];
        ind
    };
    let parents = vec![scored(vec![1, 0], [1, 1]), scored(vec![0, 1], [3, 0])];
    let children = vec![scored(vec![1, 1], [2, 2]), scored(vec![-1, 0], [0, 0])];
    let (mut combined, fronts) = lib::nsga::rank_generation(parents, children);
    assert_eq!(fronts, vec![vec![1, 2], vec![0], vec![3]]);
    let ranks: Vec<usize> = combined.iter().map(|i| i.rank).collect();
    assert_eq!(ranks, vec![1, 0, 0, 2]);
    assert_eq!(combined[2].genome, vec![1, 1]);
    for (i, c) in [Some(0), Some(5), Some(9), Some(0)].iter().enumerate() {
        combined[i].crowding_distance = *c;
    }
    assert!(selection_is_defined(&combined, &fronts, 2));
    assert_eq!(lib::nsga::select_next_generation(&combined, &fronts, 2), vec![1, 2]);
    assert_eq!(lib::nsga::select_next_generation(&combined, &fronts, 3), vec![1, 2, 0]);
    assert_eq!(lib::nsga::select_next_generation(&combined, &fronts, 1), vec![2]);
}
