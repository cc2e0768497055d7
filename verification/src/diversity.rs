//! Diversity management: leader-based speciation and the niche neighbourhoods that
//! fitness sharing weighs.
use vstd::prelude::*;
use crate::individual::{Individual, hamming, lemma_hamming_self_zero};

verus! {

/// Individual `i` lies within `threshold` (Hamming distance) of individual `r`.
pub open spec fn within(pop: Seq<Individual>, threshold: usize, i: int, r: int) -> bool {
    hamming(pop[i].genome@, pop[r].genome@) <= threshold
}

/// The species representatives after the first `k` individuals have been considered:
/// an individual founds a new species when it is not within `threshold` of any earlier
/// representative.
pub open spec fn leaders(pop: Seq<Individual>, threshold: usize, k: nat) -> Seq<usize>
    decreases k,
{
    if k == 0 {
        seq![]
    } else {
        let prev = leaders(pop, threshold, (k - 1) as nat);
        if exists|s: int| 0 <= s < prev.len() && within(pop, threshold, k - 1, #[trigger] prev[s] as int) {
            prev
        } else {
            prev.push((k - 1) as usize)
        }
    }
}

/// Species `s` is the species of individual `i`: the first representative (known when `i`
/// is considered) that `i` lies within `threshold` of is the `s`-th.
pub open spec fn species_of(pop: Seq<Individual>, threshold: usize, i: int, s: int) -> bool {
    let reps = leaders(pop, threshold, (i + 1) as nat);
    &&& 0 <= s < reps.len()
    &&& within(pop, threshold, i, reps[s] as int)
    &&& forall|t: int| 0 <= t < s ==> !within(pop, threshold, i, #[trigger] reps[t] as int)
}

proof fn lemma_leaders_facts(pop: Seq<Individual>, threshold: usize, k: nat)
    ensures
        leaders(pop, threshold, k).len() <= k,
        k > 0 ==> leaders(pop, threshold, k).len() >= 1,
        forall|s: int|
            0 <= s < leaders(pop, threshold, k).len() ==> #[trigger] leaders(pop, threshold, k)[s] < k,
    decreases k,
{
    if k > 0 {
        lemma_leaders_facts(pop, threshold, (k - 1) as nat);
    }
}

/// Species representatives lie more than `threshold` apart: a later representative is not
/// within `threshold` of an earlier one.
pub proof fn lemma_representatives_apart(pop: Seq<Individual>, threshold: usize, k: nat, s: int, t: int)
    requires
        k <= usize::MAX,
        0 <= s < t < leaders(pop, threshold, k).len(),
    ensures
        !within(pop, threshold, leaders(pop, threshold, k)[t] as int, leaders(pop, threshold, k)[s] as int),
    decreases k,
{
    if k > 0 {
        let cur = leaders(pop, threshold, k);
        let prev = leaders(pop, threshold, (k - 1) as nat);
        if t < prev.len() {
            lemma_representatives_apart(pop, threshold, (k - 1) as nat, s, t);
            if cur != prev {
                assert(cur == prev.push((k - 1) as usize));
                assert(cur[t] == prev[t]);
                assert(cur[s] == prev[s]);
            }
        } else {
            assert(cur != prev);
            assert(!exists|s: int| 0 <= s < prev.len() && within(pop, threshold, k - 1, #[trigger] prev[s] as int));
            assert(cur[t] == k - 1);
            assert(cur[s] == prev[s]);
            assert(!within(pop, threshold, k - 1, prev[s] as int));
        }
    }
}

/// With at least one individual there is at least one species, and never more species
/// than individuals.
pub proof fn lemma_species_count_bounds(pop: Seq<Individual>, threshold: usize, n: nat)
    ensures
        leaders(pop, threshold, n).len() <= n,
        n > 0 ==> leaders(pop, threshold, n).len() >= 1,
{
    lemma_leaders_facts(pop, threshold, n);
}

/// Assigns every individual to a species and returns the number of species.
///
/// The first individual founds species 0. Each later individual joins the species of the
/// first representative it lies within `threshold` of (Hamming distance); when there is
/// none it founds a new species and becomes its representative.
pub fn speciate(population: &mut [Individual], threshold: usize) -> (n_species: usize)
    ensures
        final(population)@.len() == old(population)@.len(),
        n_species == leaders(old(population)@, threshold, old(population)@.len() as nat).len(),
        forall|i: int|
            0 <= i < old(population)@.len() ==> species_of(
                old(population)@,
                threshold,
                i,
                #[trigger] final(population)@[i].species_id as int,
            ),
        forall|i: int|
            0 <= i < old(population)@.len() ==> #[trigger] final(population)@[i].genome@ == old(
                population,
            )@[i].genome@,
        forall|i: int|
            0 <= i < old(population)@.len() ==> #[trigger] final(population)@[i].fitness@ == old(
                population,
            )@[i].fitness@,
        forall|i: int|
            0 <= i < old(population)@.len() ==> #[trigger] final(population)@[i].rank == old(
                population,
            )@[i].rank,
        forall|i: int|
            0 <= i < old(population)@.len() ==> #[trigger] final(population)@[i].crowding_distance
                == old(population)@[i].crowding_distance,
{
    let ghost pop0 = population@;
    let n = population.len();
    if n == 0 {
        return 0;
    }
    let mut reps: Vec<usize> = Vec::new();
    reps.push(0);
    population[0].species_id = 0;
    proof {
        lemma_hamming_self_zero(pop0[0].genome@);
        assert(leaders(pop0, threshold, 0) =~= seq![]);
        assert(reps@ =~= leaders(pop0, threshold, 1));
    }
    let mut i: usize = 1;
    while i < n
        invariant
            n == pop0.len(),
            population@.len() == n,
            1 <= i <= n,
            reps@ == leaders(pop0, threshold, i as nat),
            forall|s: int| 0 <= s < reps@.len() ==> #[trigger] reps@[s] < i,
            forall|s: int|
                0 <= s < reps@.len() ==> population@[#[trigger] reps@[s] as int].species_id == s,
            forall|j: int|
                0 <= j < i ==> species_of(pop0, threshold, j, #[trigger] population@[j].species_id as int),
            forall|j: int| 0 <= j < n ==> #[trigger] population@[j].genome@ == pop0[j].genome@,
            forall|j: int| 0 <= j < n ==> #[trigger] population@[j].fitness@ == pop0[j].fitness@,
            forall|j: int| 0 <= j < n ==> #[trigger] population@[j].rank == pop0[j].rank,
            forall|j: int|
                0 <= j < n ==> #[trigger] population@[j].crowding_distance == pop0[j].crowding_distance,
        decreases n - i,
    {
        proof {
            lemma_leaders_facts(pop0, threshold, i as nat);
        }
        let mut assigned = false;
        let mut q: usize = 0;
        while q < reps.len()
            invariant_except_break
                !assigned,
            invariant
                n == pop0.len(),
                population@.len() == n,
                1 <= i < n,
                reps@ == leaders(pop0, threshold, i as nat),
                forall|s: int| 0 <= s < reps@.len() ==> #[trigger] reps@[s] < i,
                forall|j: int| 0 <= j < n ==> #[trigger] population@[j].genome@ == pop0[j].genome@,
                q <= reps@.len(),
                forall|t: int| 0 <= t < q ==> !within(pop0, threshold, i as int, #[trigger] reps@[t] as int),
            ensures
                q <= reps@.len(),
                forall|t: int| 0 <= t < q ==> !within(pop0, threshold, i as int, #[trigger] reps@[t] as int),
                assigned ==> q < reps@.len() && within(pop0, threshold, i as int, reps@[q as int] as int),
                !assigned ==> q == reps@.len(),
            decreases reps@.len() - q,
        {
            let rep_idx = reps[q];
            let dist = population[i].hamming_distance(&population[rep_idx]);
            if dist <= threshold {
                assigned = true;
                break;
            }
            q = q + 1;
        }
        let ghost prev_pop = population@;
        if assigned {
            let rep_idx = reps[q];
            let sid = population[rep_idx].species_id;
            population[i].species_id = sid;
            proof {
                assert(exists|s: int| 0 <= s < reps@.len() && within(pop0, threshold, i as int, #[trigger] reps@[s] as int));
                assert(leaders(pop0, threshold, (i + 1) as nat) == reps@);
            }
        } else {
            let new_species = reps.len();
            population[i].species_id = new_species;
            reps.push(i);
            proof {
                lemma_hamming_self_zero(pop0[i as int].genome@);
                let prev = leaders(pop0, threshold, i as nat);
                assert(!exists|s: int| 0 <= s < prev.len() && within(pop0, threshold, i as int, #[trigger] prev[s] as int));
                assert(leaders(pop0, threshold, (i + 1) as nat) == prev.push(i));
            }
        }
        proof {
            assert forall|j: int| 0 <= j < i implies species_of(pop0, threshold, j, #[trigger] population@[j].species_id as int) by {
                assert(population@[j].species_id == prev_pop[j].species_id);
            }
            assert(species_of(pop0, threshold, i as int, population@[i as int].species_id as int));
        }
        i = i + 1;
    }
    reps.len()
}

/// The Hamming distances from individual `i` to each individual `j < hi`, in order of `j`,
/// keeping only those within `sigma_share`.
pub open spec fn niche_upto(pop: Seq<Individual>, i: int, sigma_share: usize, hi: int) -> Seq<usize>
    decreases hi,
{
    if hi <= 0 {
        seq![]
    } else {
        let prev = niche_upto(pop, i, sigma_share, hi - 1);
        let d = hamming(pop[i].genome@, pop[hi - 1].genome@);
        if d <= sigma_share {
            prev.push(d as usize)
        } else {
            prev
        }
    }
}

/// The neighbourhood that fitness sharing weighs for individual `i`: the Hamming distance
/// to every individual of the population (itself included), in population order, that
/// lies within `sigma_share`.
pub fn niche_distances(population: &[Individual], i: usize, sigma_share: usize) -> (dists: Vec<usize>)
    requires
        i < population@.len(),
    ensures
        dists@ == niche_upto(population@, i as int, sigma_share, population@.len() as int),
{
    let n = population.len();
    let mut dists: Vec<usize> = Vec::new();
    let mut j: usize = 0;
    while j < n
        invariant
            n == population@.len(),
            i < n,
            j <= n,
            dists@ == niche_upto(population@, i as int, sigma_share, j as int),
        decreases n - j,
    {
        let dist = population[i].hamming_distance(&population[j]);
        if dist <= sigma_share {
            dists.push(dist);
        }
        j = j + 1;
    }
    dists
}

/// Every individual lies in its own niche, at distance 0.
pub proof fn lemma_niche_contains_self(pop: Seq<Individual>, i: int, sigma_share: usize, hi: int)
    requires
        0 <= i < hi,
    ensures
        niche_upto(pop, i, sigma_share, hi).contains(0),
    decreases hi,
{
    if i < hi - 1 {
        lemma_niche_contains_self(pop, i, sigma_share, hi - 1);
        let prev = niche_upto(pop, i, sigma_share, hi - 1);
        let w = choose|w: int| 0 <= w < prev.len() && prev[w] == 0;
        let cur = niche_upto(pop, i, sigma_share, hi);
        assert(cur[w] == 0);
    } else {
        lemma_hamming_self_zero(pop[i].genome@);
        let prev = niche_upto(pop, i, sigma_share, hi - 1);
        assert(niche_upto(pop, i, sigma_share, hi)[prev.len() as int] == 0);
    }
}

} // verus!
