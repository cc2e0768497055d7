//! The integer side of an NSGA-II generation: tournament selection with point mutation,
//! rank assignment from the fronts, survivor selection, and the Pareto front.
use vstd::prelude::*;
use crate::individual::Individual;
use crate::rng::{lcg_iter, lcg_next};
use crate::ordering::{is_stable_order, stable_order};
use crate::pareto::{
    key_lt, key_less, lemma_deep_view_rows, is_nondominated_sorting, uniform_ordered_fitness,
    front_ok, ready, in_some_front, lemma_fronts_disjoint, lemma_fronts_cover_population, dom_at,
    lemma_dominators_in_earlier_fronts, non_dominated_sort, lemma_sorting_reads_fitness,
};
use vstd::set_lib::{set_int_range, lemma_int_range};

verus! {

/// The `k`-th value drawn from `seed` (the first draw is `k == 1`).
pub open spec fn draw(seed: u64, k: nat) -> u64 {
    lcg_iter(seed, k)
}

/// First contestant of the tournament for child `c`.
pub open spec fn contestant_a(seed: u64, c: nat, pop_size: usize) -> usize {
    ((draw(seed, 4 * c + 1) as usize) % pop_size) as usize
}

/// Second contestant of the tournament for child `c`.
pub open spec fn contestant_b(seed: u64, c: nat, pop_size: usize) -> usize {
    ((draw(seed, 4 * c + 2) as usize) % pop_size) as usize
}

/// The tournament winner for child `c`: the contestant of lower rank; on equal ranks the
/// one of larger crowding distance; otherwise the first.
pub open spec fn tournament_parent(pop: Seq<Individual>, seed: u64, c: nat, pop_size: usize) -> usize {
    let a = contestant_a(seed, c, pop_size);
    let b = contestant_b(seed, c, pop_size);
    if pop[a as int].rank < pop[b as int].rank {
        a
    } else if pop[b as int].rank < pop[a as int].rank {
        b
    } else if key_lt(pop[a as int].crowding_distance, pop[b as int].crowding_distance) {
        b
    } else {
        a
    }
}

/// The gene position that child `c` mutates.
pub open spec fn mutation_pos(seed: u64, c: nat, genome_len: usize) -> usize {
    ((draw(seed, 4 * c + 3) as usize) % genome_len) as usize
}

/// The gene that a drawn value writes: its low byte read as a signed number, reduced
/// modulo 3 into {0, 1, 2}, minus one, so always one of -1, 0, +1.
pub open spec fn mutation_gene(value: u64) -> i8 {
    (((value as i8) as int) % 3 - 1) as i8
}

/// Child `c`: a copy of its tournament winner's genome with one gene overwritten.
pub open spec fn child_genome(
    pop: Seq<Individual>,
    seed: u64,
    c: nat,
    pop_size: usize,
    genome_len: usize,
) -> Seq<i8> {
    pop[tournament_parent(pop, seed, c, pop_size) as int].genome@.update(
        mutation_pos(seed, c, genome_len) as int,
        mutation_gene(draw(seed, 4 * c + 4)),
    )
}

/// Every tournament and mutation of a generation stays within the population and the
/// winners' genomes.
pub open spec fn offspring_defined(pop: Seq<Individual>, pop_size: usize, genome_len: usize, seed: u64) -> bool {
    pop_size == 0 || (genome_len > 0 && forall|c: nat|
        c < pop_size ==> {
            &&& #[trigger] contestant_a(seed, c, pop_size) < pop.len()
            &&& contestant_b(seed, c, pop_size) < pop.len()
            &&& mutation_pos(seed, c, genome_len) < pop[tournament_parent(pop, seed, c, pop_size) as int].genome@.len()
        })
}

/// The winner of a binary tournament between contestants `a` and `b`: lower rank first,
/// then larger crowding distance, then `a`.
fn crowded_winner(ind_a: &Individual, ind_b: &Individual, a: usize, b: usize) -> (w: usize)
    ensures
        w == if ind_a.rank < ind_b.rank {
            a
        } else if ind_b.rank < ind_a.rank {
            b
        } else if key_lt(ind_a.crowding_distance, ind_b.crowding_distance) {
            b
        } else {
            a
        },
{
    if ind_a.rank < ind_b.rank {
        a
    } else if ind_b.rank < ind_a.rank {
        b
    } else if key_less(ind_a.crowding_distance, ind_b.crowding_distance) {
        b
    } else {
        a
    }
}

/// Whether a generation's tournaments and mutations stay in bounds for this population,
/// generation parameters and seed.
pub fn offspring_in_bounds(population: &[Individual], pop_size: usize, genome_len: usize, seed: u64) -> (ok: bool)
    ensures
        ok == offspring_defined(population@, pop_size, genome_len, seed),
{
    if pop_size == 0 {
        return true;
    }
    if genome_len == 0 {
        return false;
    }
    let ghost pop = population@;
    let mut s = seed;
    let mut c: usize = 0;
    while c < pop_size
        invariant
            pop == population@,
            pop_size > 0,
            genome_len > 0,
            c <= pop_size,
            s == lcg_iter(seed, 4 * c as nat),
            forall|d: nat|
                d < c ==> {
                    &&& #[trigger] contestant_a(seed, d, pop_size) < pop.len()
                    &&& contestant_b(seed, d, pop_size) < pop.len()
                    &&& mutation_pos(seed, d, genome_len) < pop[tournament_parent(pop, seed, d, pop_size) as int].genome@.len()
                },
        decreases pop_size - c,
    {
        let ghost cn = c as nat;
        let a = (lcg_next(&mut s) as usize) % pop_size;
        let b = (lcg_next(&mut s) as usize) % pop_size;
        assert(a == contestant_a(seed, cn, pop_size));
        assert(b == contestant_b(seed, cn, pop_size));
        if a >= population.len() || b >= population.len() {
            return false;
        }
        let parent_idx = crowded_winner(&population[a], &population[b], a, b);
        let pos = (lcg_next(&mut s) as usize) % genome_len;
        assert(pos == mutation_pos(seed, cn, genome_len));
        if pos >= population[parent_idx].genome.len() {
            return false;
        }
        let _ = lcg_next(&mut s);
        assert(s == lcg_iter(seed, 4 * (c + 1) as nat));
        c = c + 1;
    }
    true
}

/// Breeds `pop_size` children by binary tournament on rank followed by a one-gene
/// mutation, drawing four values per child from `seed`: the two contestants, the
/// position, and the new gene.
pub fn tournament_offspring(population: &[Individual], pop_size: usize, genome_len: usize, seed: &mut u64) -> (children: Vec<Vec<i8>>)
    requires
        offspring_defined(population@, pop_size, genome_len, *old(seed)),
    ensures
        children@.len() == pop_size,
        forall|c: int|
            0 <= c < pop_size ==> #[trigger] children@[c]@ == child_genome(
                population@,
                *old(seed),
                c as nat,
                pop_size,
                genome_len,
            ),
        *final(seed) == lcg_iter(*old(seed), 4 * pop_size as nat),
        forall|c: int|
            0 <= c < pop_size ==> bred_by_tournament(
                population@,
                *old(seed),
                c as nat,
                pop_size,
                genome_len,
                #[trigger] children@[c]@,
            ),
{
    let ghost seed0 = *seed;
    let ghost pop = population@;
    let mut children: Vec<Vec<i8>> = Vec::new();
    let mut c: usize = 0;
    while c < pop_size
        invariant
            pop == population@,
            offspring_defined(pop, pop_size, genome_len, seed0),
            c <= pop_size,
            *seed == lcg_iter(seed0, 4 * c as nat),
            children@.len() == c,
            forall|d: int|
                0 <= d < c ==> #[trigger] children@[d]@ == child_genome(pop, seed0, d as nat, pop_size, genome_len),
        decreases pop_size - c,
    {
        let ghost cn = c as nat;
        assert(contestant_a(seed0, cn, pop_size) < pop.len());
        let a = (lcg_next(seed) as usize) % pop_size;
        let b = (lcg_next(seed) as usize) % pop_size;
        assert(a == contestant_a(seed0, cn, pop_size));
        assert(b == contestant_b(seed0, cn, pop_size));
        let parent_idx = crowded_winner(&population[a], &population[b], a, b);
        let mut child = population[parent_idx].genome.clone();
        assert(child@ =~= pop[parent_idx as int].genome@);
        let pos = (lcg_next(seed) as usize) % genome_len;
        assert(pos == mutation_pos(seed0, cn, genome_len));
        let value = lcg_next(seed);
        let byte = value as i8;
        let rem = byte % 3;
        let gene: i8 = if rem < 0 {
            rem + 3 - 1
        } else {
            rem - 1
        };
        assert(gene == mutation_gene(draw(seed0, 4 * cn + 4)));
        child.set(pos, gene);
        children.push(child);
        assert(*seed == lcg_iter(seed0, 4 * (c + 1) as nat));
        c = c + 1;
    }
    proof {
        assert forall|d: int| 0 <= d < pop_size implies bred_by_tournament(
            pop,
            seed0,
            d as nat,
            pop_size,
            genome_len,
            #[trigger] children@[d]@,
        ) by {
            lemma_breeding_law(pop, seed0, d as nat, pop_size, genome_len);
        }
    }
    children
}

/// The rank that individual `i` holds after the first `k` fronts have been assigned:
/// the index of the last of them that holds `i`, or `old_rank` when none does.
pub open spec fn rank_after(fronts: Seq<Seq<usize>>, i: usize, old_rank: usize, k: int) -> usize
    decreases k,
{
    if k <= 0 {
        old_rank
    } else if fronts[k - 1].contains(i) {
        (k - 1) as usize
    } else {
        rank_after(fronts, i, old_rank, k - 1)
    }
}

/// `a` and `b` agree in every field but the rank.
pub open spec fn same_except_rank(a: Individual, b: Individual) -> bool {
    &&& a.genome@ == b.genome@
    &&& a.fitness@ == b.fitness@
    &&& a.crowding_distance == b.crowding_distance
    &&& a.species_id == b.species_id
}

/// Gives every member of front `r` rank `r`.
pub fn assign_ranks(population: &mut [Individual], fronts: &Vec<Vec<usize>>)
    requires
        forall|r: int, p: int|
            0 <= r < fronts@.len() && 0 <= p < fronts@[r]@.len() ==> #[trigger] fronts@[r]@[p]
                < old(population)@.len(),
    ensures
        final(population)@.len() == old(population)@.len(),
        forall|i: int|
            0 <= i < old(population)@.len() ==> #[trigger] final(population)@[i].rank == rank_after(
                fronts.deep_view(),
                i as usize,
                old(population)@[i].rank,
                fronts@.len() as int,
            ),
        forall|i: int|
            0 <= i < old(population)@.len() ==> same_except_rank(
                #[trigger] final(population)@[i],
                old(population)@[i],
            ),
{
    let ghost pop0 = population@;
    let ghost fv = fronts.deep_view();
    proof {
        lemma_deep_view_rows(*fronts);
    }
    let n = population.len();
    let mut r: usize = 0;
    while r < fronts.len()
        invariant
            n == pop0.len(),
            population@.len() == n,
            fv == fronts.deep_view(),
            fv.len() == fronts@.len(),
            forall|k: int| 0 <= k < fronts@.len() ==> #[trigger] fv[k] == fronts@[k]@,
            forall|q: int, p: int|
                0 <= q < fronts@.len() && 0 <= p < fronts@[q]@.len() ==> #[trigger] fronts@[q]@[p] < n,
            r <= fronts@.len(),
            forall|i: int| 0 <= i < n ==> #[trigger] population@[i].rank == rank_after(fv, i as usize, pop0[i].rank, r as int),
            forall|i: int| 0 <= i < n ==> same_except_rank(#[trigger] population@[i], pop0[i]),
        decreases fronts@.len() - r,
    {
        let front = &fronts[r];
        let mut u: usize = 0;
        while u < front.len()
            invariant
                n == pop0.len(),
                population@.len() == n,
                front@ == fronts@[r as int]@,
                front@ == fv[r as int],
                r < fronts@.len(),
                forall|p: int| 0 <= p < front@.len() ==> #[trigger] front@[p] < n,
                u <= front@.len(),
                forall|i: int|
                    0 <= i < n ==> #[trigger] population@[i].rank == if exists|w: int|
                        0 <= w < u && front@[w] == i as usize {
                        r
                    } else {
                        rank_after(fv, i as usize, pop0[i].rank, r as int)
                    },
                forall|i: int| 0 <= i < n ==> same_except_rank(#[trigger] population@[i], pop0[i]),
            decreases front@.len() - u,
        {
            let idx = front[u];
            assert(front@[u as int] < n);
            let ghost before = population@;
            population[idx].rank = r;
            proof {
                assert forall|i: int| 0 <= i < n implies {
                    &&& same_except_rank(#[trigger] population@[i], pop0[i])
                    &&& population@[i].rank == if exists|w: int| 0 <= w < u + 1 && front@[w] == i as usize {
                        r
                    } else {
                        rank_after(fv, i as usize, pop0[i].rank, r as int)
                    }
                } by {
                    if i == idx {
                        assert(same_except_rank(population@[i], before[i]));
                        assert(front@[u as int] == i as usize);
                    } else {
                        assert(population@[i] == before[i]);
                        if exists|w: int| 0 <= w < u + 1 && front@[w] == i as usize {
                            let w = choose|w: int| 0 <= w < u + 1 && front@[w] == i as usize;
                            assert(w != u);
                        }
                    }
                }
            }
            u = u + 1;
        }
        proof {
            assert forall|i: int| 0 <= i < n implies #[trigger] population@[i].rank == rank_after(
                fv,
                i as usize,
                pop0[i].rank,
                r + 1,
            ) by {
                if fv[r as int].contains(i as usize) {
                    let w = choose|w: int| 0 <= w < front@.len() && front@[w] == i as usize;
                    assert(exists|w: int| 0 <= w < front@.len() && front@[w] == i as usize);
                } else {
                    if exists|w: int| 0 <= w < front@.len() && front@[w] == i as usize {
                        let w = choose|w: int| 0 <= w < front@.len() && front@[w] == i as usize;
                        assert(fv[r as int].contains(i as usize));
                    }
                }
            }
        }
        r = r + 1;
    }
}

/// Indices of the individuals of rank 0, in increasing order.
pub fn pareto_front(population: &[Individual]) -> (members: Vec<usize>)
    ensures
        forall|a: int, b: int| 0 <= a < b < members@.len() ==> members@[a] < members@[b],
        forall|i: usize| #[trigger] members@.contains(i) <==> (i < population@.len()
            && population@[i as int].rank == 0),
{
    let n = population.len();
    let mut members: Vec<usize> = Vec::new();
    let mut i: usize = 0;
    while i < n
        invariant
            n == population@.len(),
            i <= n,
            forall|a: int, b: int| 0 <= a < b < members@.len() ==> members@[a] < members@[b],
            forall|a: int| 0 <= a < members@.len() ==> #[trigger] members@[a] < i,
            forall|x: usize| #[trigger] members@.contains(x) <==> (x < i && population@[x as int].rank == 0),
        decreases n - i,
    {
        let ghost before = members@;
        if population[i].rank == 0 {
            members.push(i);
            proof {
                assert forall|x: usize| #[trigger] members@.contains(x) <==> (before.contains(x) || x == i) by {
                    if members@.contains(x) {
                        let w = choose|w: int| 0 <= w < members@.len() && members@[w] == x;
                        if w < before.len() {
                            assert(before[w] == x);
                        }
                    }
                    if before.contains(x) {
                        let w = choose|w: int| 0 <= w < before.len() && before[w] == x;
                        assert(members@[w] == x);
                    }
                    if x == i {
                        assert(members@[before.len() as int] == x);
                    }
                }
            }
        }
        i = i + 1;
    }
    members
}

/// Total number of indices in the first `k` fronts.
pub open spec fn total_len(fronts: Seq<Seq<usize>>, k: int) -> int
    decreases k,
{
    if k <= 0 {
        0
    } else {
        total_len(fronts, k - 1) + fronts[k - 1].len()
    }
}

/// The first `k` fronts, one after another.
pub open spec fn flatten_upto(fronts: Seq<Seq<usize>>, k: int) -> Seq<usize>
    decreases k,
{
    if k <= 0 {
        seq![]
    } else {
        flatten_upto(fronts, k - 1) + fronts[k - 1]
    }
}

/// Starting from front `k`, how many leading fronts fit whole into `pop_size` places.
pub open spec fn fitting(fronts: Seq<Seq<usize>>, pop_size: usize, k: int) -> int
    decreases fronts.len() - k,
{
    if 0 <= k < fronts.len() && total_len(fronts, k + 1) <= pop_size {
        fitting(fronts, pop_size, k + 1)
    } else {
        k
    }
}

/// The number of leading fronts that survive whole.
pub open spec fn full_fronts(fronts: Seq<Seq<usize>>, pop_size: usize) -> int {
    fitting(fronts, pop_size, 0)
}

/// The front that survives only in part, ordered by crowding distance: the first front that
/// does not fit, provided the places were not already filled exactly.
pub open spec fn truncated_front(fronts: Seq<Seq<usize>>, pop_size: usize) -> Option<int> {
    let k = full_fronts(fronts, pop_size);
    if k < fronts.len() && (k == 0 || total_len(fronts, k) < pop_size) {
        Some(k)
    } else {
        None
    }
}

/// The crowding keys of a population, by index.
pub open spec fn crowding_of(pop: Seq<Individual>) -> Seq<Option<i64>> {
    Seq::new(pop.len(), |i: int| pop[i].crowding_distance)
}

/// The crowding keys of the members of `front`, by position.
pub open spec fn crowding_keys(front: Seq<usize>, crowding: Seq<Option<i64>>) -> Seq<i64> {
    Seq::new(front.len(), |p: int| crowding[front[p] as int]->0)
}

/// Survivor selection can order the partly surviving front: when it has two members or
/// more, each has an ordered crowding key.
pub open spec fn selection_defined(fronts: Seq<Seq<usize>>, crowding: Seq<Option<i64>>, pop_size: usize) -> bool {
    match truncated_front(fronts, pop_size) {
        Some(t) => fronts[t].len() >= 2 ==> forall|p: int|
            0 <= p < fronts[t].len() ==> {
                &&& #[trigger] fronts[t][p] < crowding.len()
                &&& crowding[fronts[t][p] as int] is Some
            },
        None => true,
    }
}

/// `selected` keeps the leading fronts that fit whole, in order, then fills the remaining
/// places with the members of the next front in stable order of decreasing crowding key.
pub open spec fn is_survivor_selection(
    fronts: Seq<Seq<usize>>,
    crowding: Seq<Option<i64>>,
    pop_size: usize,
    selected: Seq<usize>,
) -> bool {
    match truncated_front(fronts, pop_size) {
        None => selected == flatten_upto(fronts, full_fronts(fronts, pop_size)),
        Some(t) => exists|order: Seq<usize>|
            is_stable_order(crowding_keys(fronts[t], crowding), true, order) && selected
                == flatten_upto(fronts, t) + order.take(pop_size - total_len(fronts, t)).map_values(
                |p: usize| fronts[t][p as int],
            ),
    }
}

proof fn lemma_total_len_nonneg(fronts: Seq<Seq<usize>>, k: int)
    ensures
        total_len(fronts, k) >= 0,
        flatten_upto(fronts, k).len() == total_len(fronts, k),
    decreases k,
{
    if k > 0 {
        lemma_total_len_nonneg(fronts, k - 1);
    }
}

proof fn lemma_total_len_mono(fronts: Seq<Seq<usize>>, a: int, b: int)
    requires
        0 <= a <= b,
    ensures
        total_len(fronts, a) <= total_len(fronts, b),
    decreases b - a,
{
    if a < b {
        lemma_total_len_mono(fronts, a, b - 1);
    }
}

proof fn lemma_fitting_bounds(fronts: Seq<Seq<usize>>, pop_size: usize, k: int)
    requires
        0 <= k <= fronts.len(),
        total_len(fronts, k) <= pop_size,
    ensures
        k <= fitting(fronts, pop_size, k) <= fronts.len(),
        total_len(fronts, fitting(fronts, pop_size, k)) <= pop_size,
        fitting(fronts, pop_size, k) < fronts.len() ==> total_len(
            fronts,
            fitting(fronts, pop_size, k) + 1,
        ) > pop_size,
    decreases fronts.len() - k,
{
    if k < fronts.len() && total_len(fronts, k + 1) <= pop_size {
        lemma_fitting_bounds(fronts, pop_size, k + 1);
    }
}

proof fn lemma_fitting_saturated(fronts: Seq<Seq<usize>>, pop_size: usize, k: int)
    requires
        0 <= k <= fronts.len(),
        total_len(fronts, k) == pop_size,
    ensures
        k <= fitting(fronts, pop_size, k) <= fronts.len(),
        total_len(fronts, fitting(fronts, pop_size, k)) == pop_size,
        flatten_upto(fronts, fitting(fronts, pop_size, k)) == flatten_upto(fronts, k),
    decreases fronts.len() - k,
{
    if k < fronts.len() && total_len(fronts, k + 1) <= pop_size {
        assert(fronts[k].len() == 0);
        assert(flatten_upto(fronts, k + 1) =~= flatten_upto(fronts, k));
        lemma_fitting_saturated(fronts, pop_size, k + 1);
    }
}

/// Selects the survivors of a generation among the individuals the fronts index.
///
/// Whole fronts are kept, in order, while they fit into `pop_size` places; the first
/// front that does not fit is ordered by decreasing crowding key (stable on ties) and
/// fills the remaining places.
pub fn select_survivors(population: &[Individual], fronts: &Vec<Vec<usize>>, pop_size: usize) -> (selected: Vec<usize>)
    requires
        selection_defined(fronts.deep_view(), crowding_of(population@), pop_size),
    ensures
        is_survivor_selection(fronts.deep_view(), crowding_of(population@), pop_size, selected@),
        forall|t: int|
            truncated_front(fronts.deep_view(), pop_size) == Some(t) ==> #[trigger] keeps_most_isolated(
                fronts.deep_view(),
                crowding_of(population@),
                pop_size,
                selected@,
                t,
            ),
{
    let ghost crowding = crowding_of(population@);
    let ghost fv = fronts.deep_view();
    proof {
        lemma_deep_view_rows(*fronts);
    }
    let mut selected: Vec<usize> = Vec::new();
    let mut f: usize = 0;
    while f < fronts.len()
        invariant
            fv == fronts.deep_view(),
            fv.len() == fronts@.len(),
            forall|k: int| 0 <= k < fronts@.len() ==> #[trigger] fv[k] == fronts@[k]@,
            crowding == crowding_of(population@),
            selection_defined(fv, crowding, pop_size),
            f <= fronts@.len(),
            selected@ == flatten_upto(fv, f as int),
            selected@.len() == total_len(fv, f as int),
            total_len(fv, f as int) <= pop_size,
            fitting(fv, pop_size, 0) == fitting(fv, pop_size, f as int),
            f == 0 || total_len(fv, f as int) < pop_size,
        decreases fronts@.len() - f,
    {
        let front = &fronts[f];
        assert(front@ == fv[f as int]);
        if front.len() <= pop_size - selected.len() {
            let ghost base = selected@;
            let mut u: usize = 0;
            while u < front.len()
                invariant
                    front@ == fv[f as int],
                    u <= front@.len(),
                    selected@ == base + front@.take(u as int),
                decreases front@.len() - u,
            {
                selected.push(front[u]);
                assert(front@.take(u + 1) == front@.take(u as int).push(front@[u as int]));
                u = u + 1;
            }
            assert(front@.take(front@.len() as int) == front@);
            assert(selected@ == flatten_upto(fv, f + 1));
            f = f + 1;
            if selected.len() >= pop_size {
                proof {
                    lemma_fitting_saturated(fv, pop_size, f as int);
                    lemma_total_len_nonneg(fv, f as int);
                }
                return selected;
            }
        } else {
            proof {
                lemma_total_len_nonneg(fv, f as int);
                assert(fitting(fv, pop_size, f as int) == f);
                assert(truncated_front(fv, pop_size) == Some(f as int));
            }
            let remaining = pop_size - selected.len();
            let ghost keys = crowding_keys(fv[f as int], crowding);
            let mut order: Vec<usize> = Vec::new();
            if front.len() <= 1 {
                order.push(0);
                proof {
                    assert(front@.len() == 1);
                    assert(keys.len() == 1);
                    assert(order@[0] == 0);
                    assert forall|q: usize| q < keys.len() implies #[trigger] order@.contains(q) by {
                        assert(order@[0] == q);
                    }
                }
                assert(is_stable_order(keys, true, order@));
            } else {
                let mut key_vec: Vec<i64> = Vec::new();
                let mut p: usize = 0;
                while p < front.len()
                    invariant
                        front@ == fv[f as int],
                        front@.len() >= 2,
                        keys == crowding_keys(fv[f as int], crowding),
                        crowding == crowding_of(population@),
                        forall|q: int|
                            0 <= q < front@.len() ==> {
                                &&& #[trigger] front@[q] < crowding.len()
                                &&& crowding[front@[q] as int] is Some
                            },
                        p <= front@.len(),
                        key_vec@.len() == p,
                        forall|q: int| 0 <= q < p ==> #[trigger] key_vec@[q] == keys[q],
                    decreases front@.len() - p,
                {
                    assert(front@[p as int] < crowding.len());
                    match population[front[p]].crowding_distance {
                        Some(k) => key_vec.push(k),
                        None => {
                            assert(false);
                            key_vec.push(0);
                        },
                    }
                    p = p + 1;
                }
                assert(key_vec@ =~= keys);
                order = stable_order(&key_vec, true);
            }
            let ghost base = selected@;
            let mut a: usize = 0;
            while a < remaining
                invariant
                    front@ == fv[f as int],
                    is_stable_order(keys, true, order@),
                    keys.len() == front@.len(),
                    remaining < front@.len(),
                    a <= remaining,
                    selected@ == base + order@.take(a as int).map_values(|p: usize| fv[f as int][p as int]),
                decreases remaining - a,
            {
                assert(order@[a as int] < keys.len());
                selected.push(front[order[a]]);
                assert(order@.take(a + 1).map_values(|p: usize| fv[f as int][p as int]) =~= order@.take(
                    a as int,
                ).map_values(|p: usize| fv[f as int][p as int]).push(fv[f as int][order@[a as int] as int]));
                a = a + 1;
            }
            assert(is_survivor_selection(fv, crowding, pop_size, selected@));
            proof {
                lemma_truncated_front_keeps_most_isolated(fv, crowding, pop_size, selected@, f as int);
            }
            return selected;
        }
    }
    proof {
        lemma_total_len_nonneg(fv, f as int);
    }
    selected
}

/// Whether survivor selection can order the partly surviving front of this population.
pub fn selection_is_defined(population: &[Individual], fronts: &Vec<Vec<usize>>, pop_size: usize) -> (ok: bool)
    ensures
        ok == selection_defined(fronts.deep_view(), crowding_of(population@), pop_size),
{
    let ghost fv = fronts.deep_view();
    let ghost crowding = crowding_of(population@);
    proof {
        lemma_deep_view_rows(*fronts);
    }
    let mut total: usize = 0;
    let mut f: usize = 0;
    while f < fronts.len()
        invariant
            fv == fronts.deep_view(),
            fv.len() == fronts@.len(),
            forall|k: int| 0 <= k < fronts@.len() ==> #[trigger] fv[k] == fronts@[k]@,
            crowding == crowding_of(population@),
            f <= fronts@.len(),
            total == total_len(fv, f as int),
            total <= pop_size,
            fitting(fv, pop_size, 0) == fitting(fv, pop_size, f as int),
            f == 0 || total < pop_size,
        decreases fronts@.len() - f,
    {
        let front = &fronts[f];
        assert(front@ == fv[f as int]);
        if front.len() <= pop_size - total {
            total = total + front.len();
            f = f + 1;
            if total >= pop_size {
                proof {
                    lemma_fitting_saturated(fv, pop_size, f as int);
                }
                return true;
            }
        } else {
            proof {
                lemma_total_len_nonneg(fv, f as int);
                assert(fitting(fv, pop_size, f as int) == f);
                assert(truncated_front(fv, pop_size) == Some(f as int));
            }
            if front.len() < 2 {
                return true;
            }
            let mut p: usize = 0;
            while p < front.len()
                invariant
                    front@ == fv[f as int],
                    crowding == crowding_of(population@),
                    truncated_front(fv, pop_size) == Some(f as int),
                    fv == fronts.deep_view(),
                    front@.len() >= 2,
                    p <= front@.len(),
                    forall|q: int|
                        0 <= q < p ==> {
                            &&& #[trigger] front@[q] < crowding.len()
                            &&& crowding[front@[q] as int] is Some
                        },
                decreases front@.len() - p,
            {
                let idx = front[p];
                if idx >= population.len() {
                    assert(!(fv[f as int][p as int] < crowding.len()));
                    return false;
                }
                if population[idx].crowding_distance.is_none() {
                    assert(fv[f as int][p as int] < crowding.len());
                    assert(!(crowding[fv[f as int][p as int] as int] is Some));
                    return false;
                }
                p = p + 1;
            }
            return true;
        }
    }
    proof {
        lemma_total_len_nonneg(fv, f as int);
    }
    true
}

/// Survivor selection keeps `pop_size` individuals, or every indexed one when the fronts
/// hold fewer.
pub proof fn lemma_selection_size(
    fronts: Seq<Seq<usize>>,
    crowding: Seq<Option<i64>>,
    pop_size: usize,
    selected: Seq<usize>,
)
    requires
        is_survivor_selection(fronts, crowding, pop_size, selected),
    ensures
        selected.len() == if pop_size <= total_len(fronts, fronts.len() as int) {
            pop_size as int
        } else {
            total_len(fronts, fronts.len() as int)
        },
{
    let n = fronts.len() as int;
    lemma_fitting_bounds(fronts, pop_size, 0);
    let k = full_fronts(fronts, pop_size);
    lemma_total_len_nonneg(fronts, k);
    match truncated_front(fronts, pop_size) {
        Some(t) => {
            assert(t == k);
            let order = choose|order: Seq<usize>|
                is_stable_order(crowding_keys(fronts[t], crowding), true, order) && selected
                    == flatten_upto(fronts, t) + order.take(pop_size - total_len(fronts, t)).map_values(
                    |p: usize| fronts[t][p as int],
                );
            lemma_total_len_mono(fronts, t + 1, n);
            assert(order.len() == fronts[t].len());
        },
        None => {
            if k < n {
                lemma_total_len_mono(fronts, k + 1, n);
            }
        },
    }
}

/// Every genome holds only genes -1, 0 and +1.
pub open spec fn all_ternary(pop: Seq<Individual>) -> bool {
    forall|i: int, k: int|
        0 <= i < pop.len() && 0 <= k < pop[i].genome@.len() ==> -1 <= #[trigger] pop[i].genome@[k] <= 1
}

/// Offspring of ternary parents are ternary.
pub proof fn lemma_offspring_ternary(
    pop: Seq<Individual>,
    seed: u64,
    c: nat,
    pop_size: usize,
    genome_len: usize,
    k: int,
)
    requires
        all_ternary(pop),
        offspring_defined(pop, pop_size, genome_len, seed),
        c < pop_size,
        0 <= k < child_genome(pop, seed, c, pop_size, genome_len).len(),
    ensures
        -1 <= child_genome(pop, seed, c, pop_size, genome_len)[k] <= 1,
{
    let parent = tournament_parent(pop, seed, c, pop_size);
    assert(contestant_a(seed, c, pop_size) < pop.len());
    let pos = mutation_pos(seed, c, genome_len);
    if k != pos {
        assert(child_genome(pop, seed, c, pop_size, genome_len)[k] == pop[parent as int].genome@[k]);
    }
}

/// The fronts of a population whose objectives are uniform and ordered index every
/// individual exactly once, so their sizes add up to the population size.
pub proof fn lemma_fronts_total(pop: Seq<Individual>, fronts: Seq<Seq<usize>>)
    requires
        is_nondominated_sorting(pop, fronts),
        uniform_ordered_fitness(pop),
        pop.len() <= usize::MAX,
    ensures
        total_len(fronts, fronts.len() as int) == pop.len(),
{
    let n = fronts.len() as int;
    lemma_flatten_facts(pop, fronts, n);
    let s = flatten_upto(fronts, n);
    let t = s.map_values(|x: usize| x as int);
    assert(t.no_duplicates()) by {
        assert forall|a: int, b: int| 0 <= a < t.len() && 0 <= b < t.len() && a != b implies t[a] != t[b] by {
            assert(s[a] != s[b]);
        }
    }
    t.unique_seq_to_set();
    assert forall|v: int| #[trigger] t.to_set().contains(v) <==> set_int_range(0, pop.len() as int).contains(v) by {
        if t.to_set().contains(v) {
            let w = choose|w: int| 0 <= w < t.len() && t[w] == v;
            assert(s.contains(s[w]));
        }
        if 0 <= v < pop.len() {
            let x = v as usize;
            lemma_fronts_cover_population(pop, fronts, x);
            let k = choose|k: int| 0 <= k < fronts.len() && #[trigger] fronts[k].contains(x);
            lemma_in_flatten(fronts, k, n, x);
            let w = choose|w: int| 0 <= w < s.len() && s[w] == x;
            assert(t[w] == v);
        }
    }
    assert(t.to_set() =~= set_int_range(0, pop.len() as int));
    lemma_int_range(0, pop.len() as int);
    lemma_total_len_nonneg(fronts, n);
}

proof fn lemma_in_flatten(fronts: Seq<Seq<usize>>, k: int, m: int, x: usize)
    requires
        0 <= k < m <= fronts.len(),
        fronts[k].contains(x),
    ensures
        flatten_upto(fronts, m).contains(x),
    decreases m,
{
    let prev = flatten_upto(fronts, m - 1);
    let cur = flatten_upto(fronts, m);
    if k < m - 1 {
        lemma_in_flatten(fronts, k, m - 1, x);
        let w = choose|w: int| 0 <= w < prev.len() && prev[w] == x;
        assert(cur[w] == x);
    } else {
        let w = choose|w: int| 0 <= w < fronts[k].len() && fronts[k][w] == x;
        assert(cur[prev.len() + w] == x);
    }
}

proof fn lemma_flatten_facts(pop: Seq<Individual>, fronts: Seq<Seq<usize>>, m: int)
    requires
        is_nondominated_sorting(pop, fronts),
        0 <= m <= fronts.len(),
    ensures
        flatten_upto(fronts, m).no_duplicates(),
        forall|x: usize| #[trigger] flatten_upto(fronts, m).contains(x) ==> exists|k: int|
            0 <= k < m && #[trigger] fronts[k].contains(x),
        forall|w: int| 0 <= w < flatten_upto(fronts, m).len() ==> #[trigger] flatten_upto(fronts, m)[w] < pop.len(),
    decreases m,
{
    if m > 0 {
        lemma_flatten_facts(pop, fronts, m - 1);
        let prev = flatten_upto(fronts, m - 1);
        let f = fronts[m - 1];
        let cur = flatten_upto(fronts, m);
        assert(front_ok(pop, fronts, m - 1));
        assert(f.no_duplicates()) by {
            assert forall|a: int, b: int| 0 <= a < f.len() && 0 <= b < f.len() && a != b implies f[a] != f[b] by {
                if a < b {
                    assert(f[a] < f[b]);
                } else {
                    assert(f[b] < f[a]);
                }
            }
        }
        assert forall|a: int, b: int| 0 <= a < prev.len() && 0 <= b < f.len() implies prev[a] != f[b] by {
            assert(prev.contains(prev[a]));
            let k = choose|k: int| 0 <= k < m - 1 && #[trigger] fronts[k].contains(prev[a]);
            assert(f.contains(f[b]));
            if prev[a] == f[b] {
                lemma_fronts_disjoint(pop, fronts, k, m - 1, f[b]);
            }
        }
        vstd::seq_lib::lemma_no_dup_in_concat(prev, f);
        assert forall|x: usize| #[trigger] cur.contains(x) implies exists|k: int|
            0 <= k < m && #[trigger] fronts[k].contains(x) by {
            let w = choose|w: int| 0 <= w < cur.len() && cur[w] == x;
            if w < prev.len() {
                assert(prev[w] == x);
                assert(prev.contains(x));
                let k = choose|k: int| 0 <= k < m - 1 && #[trigger] fronts[k].contains(x);
                assert(fronts[k].contains(x));
            } else {
                assert(f[w - prev.len()] == x);
                assert(fronts[m - 1].contains(x));
            }
        }
        assert forall|w: int| 0 <= w < cur.len() implies #[trigger] cur[w] < pop.len() by {
            if w < prev.len() {
                assert(cur[w] == prev[w]);
            } else {
                let x = f[w - prev.len()];
                assert(cur[w] == x);
                assert(f.contains(x));
                assert(ready(pop, fronts, m - 1, x));
            }
        }
    }
}

/// One NSGA-II generation keeps the population size: when parents and offspring together
/// number at least `pop_size`, all have the same number of ordered objectives, and the
/// survivors are selected from their non-dominated sorting, exactly `pop_size` survive.
pub proof fn lemma_generation_keeps_size(
    combined: Seq<Individual>,
    fronts: Seq<Seq<usize>>,
    pop_size: usize,
    selected: Seq<usize>,
)
    requires
        combined.len() <= usize::MAX,
        pop_size <= combined.len(),
        uniform_ordered_fitness(combined),
        is_nondominated_sorting(combined, fronts),
        is_survivor_selection(fronts, crowding_of(combined), pop_size, selected),
    ensures
        selected.len() == pop_size,
{
    lemma_fronts_total(combined, fronts);
    lemma_selection_size(fronts, crowding_of(combined), pop_size, selected);
}

proof fn lemma_flatten_starts_with_first(fronts: Seq<Seq<usize>>, m: int)
    requires
        1 <= m <= fronts.len(),
        fronts[0].len() > 0,
    ensures
        flatten_upto(fronts, m).len() > 0,
        flatten_upto(fronts, m)[0] == fronts[0][0],
    decreases m,
{
    if m > 1 {
        lemma_flatten_starts_with_first(fronts, m - 1);
    } else {
        assert(flatten_upto(fronts, 0) =~= seq![]);
    }
}

proof fn lemma_rank_of_first_front(pop: Seq<Individual>, fronts: Seq<Seq<usize>>, x: usize, old_rank: usize, k: int)
    requires
        is_nondominated_sorting(pop, fronts),
        1 <= k <= fronts.len(),
        fronts[0].contains(x),
    ensures
        rank_after(fronts, x, old_rank, k) == 0,
    decreases k,
{
    if k > 1 {
        lemma_fronts_disjoint(pop, fronts, 0, k - 1, x);
        lemma_rank_of_first_front(pop, fronts, x, old_rank, k - 1);
    }
}

/// After a generation the population keeps a Pareto-optimal member: when the individuals
/// all have the same number of ordered objectives and at least one place is to be filled,
/// some survivor lies in the first front, and rank assignment gives it rank 0.
pub proof fn lemma_survivors_keep_first_front(
    combined: Seq<Individual>,
    fronts: Seq<Seq<usize>>,
    pop_size: usize,
    selected: Seq<usize>,
    old_rank: usize,
)
    requires
        combined.len() <= usize::MAX,
        combined.len() > 0,
        pop_size > 0,
        uniform_ordered_fitness(combined),
        is_nondominated_sorting(combined, fronts),
        is_survivor_selection(fronts, crowding_of(combined), pop_size, selected),
    ensures
        exists|a: int|
            0 <= a < selected.len() && #[trigger] fronts[0].contains(selected[a]) && rank_after(
                fronts,
                selected[a],
                old_rank,
                fronts.len() as int,
            ) == 0,
{
    lemma_fronts_cover_population(combined, fronts, 0);
    assert(fronts.len() > 0);
    assert(front_ok(combined, fronts, 0));
    assert(fronts[0].len() > 0);
    lemma_fitting_bounds(fronts, pop_size, 0);
    let k = full_fronts(fronts, pop_size);
    match truncated_front(fronts, pop_size) {
        Some(t) => {
            let order = choose|order: Seq<usize>|
                is_stable_order(crowding_keys(fronts[t], crowding_of(combined)), true, order) && selected
                    == flatten_upto(fronts, t) + order.take(pop_size - total_len(fronts, t)).map_values(
                    |p: usize| fronts[t][p as int],
                );
            if t == 0 {
                assert(flatten_upto(fronts, 0) =~= seq![]);
                assert(total_len(fronts, 0) == 0);
                assert(order.len() == fronts[0].len());
                assert(order[0] < fronts[0].len());
                assert(selected[0] == fronts[0][order[0] as int]);
                assert(fronts[0].contains(selected[0]));
                lemma_rank_of_first_front(combined, fronts, selected[0], old_rank, fronts.len() as int);
            } else {
                lemma_flatten_starts_with_first(fronts, t);
                assert(selected[0] == fronts[0][0]);
                assert(fronts[0].contains(selected[0]));
                lemma_rank_of_first_front(combined, fronts, selected[0], old_rank, fronts.len() as int);
            }
        },
        None => {
            assert(k >= 1);
            lemma_flatten_starts_with_first(fronts, k);
            assert(selected[0] == fronts[0][0]);
            assert(fronts[0].contains(selected[0]));
            lemma_rank_of_first_front(combined, fronts, selected[0], old_rank, fronts.len() as int);
        },
    }
}

proof fn lemma_flatten_position(fronts: Seq<Seq<usize>>, m: int, w: int)
    requires
        0 <= m <= fronts.len(),
        0 <= w < flatten_upto(fronts, m).len(),
    ensures
        exists|k: int|
            0 <= k < m && total_len(fronts, k) <= w < total_len(fronts, k + 1)
                && #[trigger] fronts[k].contains(flatten_upto(fronts, m)[w]),
    decreases m,
{
    lemma_total_len_nonneg(fronts, m - 1);
    let prev = flatten_upto(fronts, m - 1);
    let cur = flatten_upto(fronts, m);
    if w < prev.len() {
        lemma_flatten_position(fronts, m - 1, w);
        assert(cur[w] == prev[w]);
    } else {
        let j = w - prev.len();
        assert(cur[w] == fronts[m - 1][j]);
        assert(fronts[m - 1].contains(cur[w]));
        assert(total_len(fronts, m - 1) <= w < total_len(fronts, m));
    }
}

/// Every survivor stands in a front `k`, at a position between the sizes of the first `k`
/// and the first `k + 1` fronts.
proof fn lemma_survivor_front(
    fronts: Seq<Seq<usize>>,
    crowding: Seq<Option<i64>>,
    pop_size: usize,
    selected: Seq<usize>,
    a: int,
)
    requires
        is_survivor_selection(fronts, crowding, pop_size, selected),
        0 <= a < selected.len(),
    ensures
        exists|k: int|
            0 <= k < fronts.len() && total_len(fronts, k) <= a < total_len(fronts, k + 1)
                && #[trigger] fronts[k].contains(selected[a]),
{
    lemma_fitting_bounds(fronts, pop_size, 0);
    let k = full_fronts(fronts, pop_size);
    match truncated_front(fronts, pop_size) {
        Some(t) => {
            let order = choose|order: Seq<usize>|
                is_stable_order(crowding_keys(fronts[t], crowding), true, order) && selected
                    == flatten_upto(fronts, t) + order.take(pop_size - total_len(fronts, t)).map_values(
                    |p: usize| fronts[t][p as int],
                );
            lemma_total_len_nonneg(fronts, t);
            let base = flatten_upto(fronts, t);
            if a < base.len() {
                assert(selected[a] == base[a]);
                lemma_flatten_position(fronts, t, a);
                let k2 = choose|k2: int|
                    0 <= k2 < t && total_len(fronts, k2) <= a < total_len(fronts, k2 + 1)
                        && #[trigger] fronts[k2].contains(base[a]);
                assert(fronts[k2].contains(selected[a]));
            } else {
                let j = a - base.len();
                assert(order.len() == fronts[t].len());
                assert(order[j] < fronts[t].len());
                assert(selected[a] == fronts[t][order[j] as int]);
                assert(fronts[t].contains(selected[a]));
                assert(total_len(fronts, t) <= a < total_len(fronts, t + 1));
            }
        },
        None => {
            lemma_total_len_nonneg(fronts, k);
            lemma_flatten_position(fronts, k, a);
        },
    }
}

/// The rank that rank assignment gives a member of front `k` is `k`.
pub proof fn lemma_rank_is_front(pop: Seq<Individual>, fronts: Seq<Seq<usize>>, x: usize, old_rank: usize, k: int, m: int)
    requires
        is_nondominated_sorting(pop, fronts),
        fronts.len() <= usize::MAX,
        0 <= k < m <= fronts.len(),
        fronts[k].contains(x),
    ensures
        rank_after(fronts, x, old_rank, m) == k,
    decreases m,
{
    if m > k + 1 {
        lemma_fronts_disjoint(pop, fronts, k, m - 1, x);
        lemma_rank_is_front(pop, fronts, x, old_rank, k, m - 1);
    }
}

/// The front that holds survivor `a`, at a position between the sizes of the fronts before
/// it and of those up to it.
spec fn survivor_front_index(fronts: Seq<Seq<usize>>, selected: Seq<usize>, a: int) -> int {
    choose|k: int|
        0 <= k < fronts.len() && total_len(fronts, k) <= a < total_len(fronts, k + 1)
            && #[trigger] fronts[k].contains(selected[a])
}

/// After one generation the survivors are ordered by rank: ranks never decrease along the
/// survivors, the first survivor has rank 0, and a survivor that dominates another has the
/// lower rank. Here `ranked` is the combined population after rank assignment.
pub proof fn lemma_survivor_ranks(
    combined: Seq<Individual>,
    ranked: Seq<Individual>,
    fronts: Seq<Seq<usize>>,
    pop_size: usize,
    selected: Seq<usize>,
)
    requires
        fronts.len() <= usize::MAX,
        is_nondominated_sorting(combined, fronts),
        ranked.len() == combined.len(),
        forall|i: usize|
            i < combined.len() ==> #[trigger] ranked[i as int].rank == rank_after(
                fronts,
                i,
                combined[i as int].rank,
                fronts.len() as int,
            ),
        forall|i: int| 0 <= i < combined.len() ==> #[trigger] ranked[i].fitness@ == combined[i].fitness@,
        is_survivor_selection(fronts, crowding_of(ranked), pop_size, selected),
    ensures
        forall|a: int| 0 <= a < selected.len() ==> #[trigger] selected[a] < combined.len(),
        forall|a: int, b: int|
            0 <= a < b < selected.len() ==> ranked[selected[a] as int].rank <= ranked[selected[b] as int].rank,
        selected.len() > 0 ==> ranked[selected[0] as int].rank == 0,
        forall|a: int, b: int|
            0 <= a < selected.len() && 0 <= b < selected.len() && dom_at(ranked, selected[a], selected[b])
                ==> ranked[selected[a] as int].rank < ranked[selected[b] as int].rank,
{
    let n = fronts.len() as int;
    let crowd = crowding_of(ranked);
    assert forall|a: int| 0 <= a < selected.len() implies {
        let k = #[trigger] survivor_front_index(fronts, selected, a);
        &&& 0 <= k < fronts.len()
        &&& total_len(fronts, k) <= a < total_len(fronts, k + 1)
        &&& fronts[k].contains(selected[a])
        &&& selected[a] < combined.len()
        &&& ranked[selected[a] as int].rank == k
    } by {
        lemma_survivor_front(fronts, crowd, pop_size, selected, a);
        let k = survivor_front_index(fronts, selected, a);
        assert(front_ok(combined, fronts, k));
        assert(ready(combined, fronts, k, selected[a]));
        lemma_rank_is_front(combined, fronts, selected[a], combined[selected[a] as int].rank, k, n);
    }
    assert forall|a: int| 0 <= a < selected.len() implies #[trigger] selected[a] < combined.len() by {
        assert(survivor_front_index(fronts, selected, a) >= 0);
    }
    assert forall|a: int, b: int| 0 <= a < b < selected.len() implies ranked[selected[a] as int].rank
        <= ranked[selected[b] as int].rank by {
        let ka = survivor_front_index(fronts, selected, a);
        let kb = survivor_front_index(fronts, selected, b);
        if ka > kb {
            lemma_total_len_mono(fronts, kb + 1, ka);
        }
    }
    if selected.len() > 0 {
        let k0 = survivor_front_index(fronts, selected, 0);
        if k0 > 0 {
            assert(front_ok(combined, fronts, 0));
            lemma_total_len_mono(fronts, 1, k0);
            lemma_total_len_nonneg(fronts, 0);
        }
    }
    assert forall|a: int, b: int|
        0 <= a < selected.len() && 0 <= b < selected.len() && dom_at(ranked, selected[a], selected[b])
            implies ranked[selected[a] as int].rank < ranked[selected[b] as int].rank by {
        let x = selected[a];
        let y = selected[b];
        let ka = survivor_front_index(fronts, selected, a);
        let kb = survivor_front_index(fronts, selected, b);
        assert(ranked[x as int].fitness@ == combined[x as int].fitness@);
        assert(ranked[y as int].fitness@ == combined[y as int].fitness@);
        assert(dom_at(combined, x, y));
        lemma_dominators_in_earlier_fronts(combined, fronts, kb, y, x);
        if ka >= kb {
            assert(fronts[ka].contains(x));
        }
    }
}

/// `child` is `parent` with at most one gene changed.
pub open spec fn one_gene_mutant(child: Seq<i8>, parent: Seq<i8>) -> bool {
    exists|pos: int| #![trigger child[pos]] 0 <= pos < parent.len() && child == parent.update(pos, child[pos])
}

/// After one generation every survivor is a parent, unchanged, or a child whose genome is
/// a parent's genome with at most one gene changed. `combined` holds the parents' genomes
/// followed by the children that `tournament_offspring` breeds from them.
pub proof fn lemma_survivors_descend_from_parents(
    parents: Seq<Individual>,
    seed: u64,
    pop_size: usize,
    genome_len: usize,
    children: Seq<Seq<i8>>,
    combined: Seq<Individual>,
    fronts: Seq<Seq<usize>>,
    selected: Seq<usize>,
)
    requires
        offspring_defined(parents, pop_size, genome_len, seed),
        children.len() == pop_size,
        forall|c: int| 0 <= c < pop_size ==> #[trigger] children[c] == child_genome(parents, seed, c as nat, pop_size, genome_len),
        combined.len() == parents.len() + pop_size,
        forall|i: int| 0 <= i < parents.len() ==> #[trigger] combined[i].genome@ == parents[i].genome@,
        forall|c: int| 0 <= c < pop_size ==> #[trigger] combined[parents.len() + c].genome@ == children[c],
        is_nondominated_sorting(combined, fronts),
        is_survivor_selection(fronts, crowding_of(combined), pop_size, selected),
    ensures
        forall|a: int| 0 <= a < selected.len() ==> #[trigger] selected[a] < combined.len(),
        forall|a: int|
            0 <= a < selected.len() ==> (selected[a] < parents.len() && #[trigger] combined[selected[a] as int].genome@
                == parents[selected[a] as int].genome@) || exists|p: int|
                0 <= p < parents.len() && one_gene_mutant(combined[selected[a] as int].genome@, #[trigger] parents[p].genome@),
{
    assert forall|a: int| 0 <= a < selected.len() implies #[trigger] selected[a] < combined.len()
        && ((selected[a] < parents.len() && combined[selected[a] as int].genome@
        == parents[selected[a] as int].genome@) || exists|p: int|
        0 <= p < parents.len() && one_gene_mutant(combined[selected[a] as int].genome@, #[trigger] parents[p].genome@)) by {
        lemma_survivor_front(fronts, crowding_of(combined), pop_size, selected, a);
        let k = choose|k: int|
            0 <= k < fronts.len() && total_len(fronts, k) <= a < total_len(fronts, k + 1)
                && #[trigger] fronts[k].contains(selected[a]);
        assert(front_ok(combined, fronts, k));
        assert(ready(combined, fronts, k, selected[a]));
        let x = selected[a] as int;
        if x >= parents.len() {
            let c = x - parents.len();
            assert(combined[parents.len() + c].genome@ == children[c]);
            let cn = c as nat;
            assert(contestant_a(seed, cn, pop_size) < parents.len());
            let p = tournament_parent(parents, seed, cn, pop_size) as int;
            let pos = mutation_pos(seed, cn, genome_len) as int;
            assert(0 <= pos < parents[p].genome@.len());
            let child = combined[x].genome@;
            assert(child == child_genome(parents, seed, cn, pop_size, genome_len));
            assert(child[pos] == mutation_gene(draw(seed, 4 * cn + 4)));
            assert(child == parents[p].genome@.update(pos, child[pos]));
            assert(one_gene_mutant(child, parents[p].genome@));
        }
    }
}

/// Every member of front `k` has rank `k`.
pub open spec fn ranked_by_fronts(pop: Seq<Individual>, fronts: Seq<Seq<usize>>) -> bool {
    forall|k: int, x: usize| 0 <= k < fronts.len() && #[trigger] fronts[k].contains(x) ==> pop[x as int].rank == k
}

proof fn lemma_rank_after_absent(fronts: Seq<Seq<usize>>, x: usize, old_rank: usize, m: int)
    requires
        forall|k: int| 0 <= k < m ==> !(#[trigger] fronts[k].contains(x)),
    ensures
        rank_after(fronts, x, old_rank, m) == old_rank,
    decreases m,
{
    if m > 0 {
        lemma_rank_after_absent(fronts, x, old_rank, m - 1);
    }
}

/// The first half of an NSGA-II generation: the parents followed by the scored children,
/// sorted into Pareto fronts, with every member of front `r` given rank `r`.
pub fn rank_generation(parents: Vec<Individual>, children: Vec<Individual>) -> (res: (Vec<Individual>, Vec<Vec<usize>>))
    ensures
        res.0@.len() == parents@.len() + children@.len(),
        forall|i: int| 0 <= i < parents@.len() ==> same_except_rank(#[trigger] res.0@[i], parents@[i]),
        forall|c: int|
            0 <= c < children@.len() ==> same_except_rank(#[trigger] res.0@[parents@.len() + c], children@[c]),
        is_nondominated_sorting(res.0@, res.1.deep_view()),
        ranked_by_fronts(res.0@, res.1.deep_view()),
        forall|i: int|
            0 <= i < res.0@.len() ==> #[trigger] res.0@[i].rank == rank_after(
                res.1.deep_view(),
                i as usize,
                (parents@ + children@)[i].rank,
                res.1@.len() as int,
            ),
{
    let ghost both = parents@ + children@;
    let mut combined = parents;
    let mut rest = children;
    combined.append(&mut rest);
    assert(combined@ == both);
    let fronts = non_dominated_sort(&combined);
    let ghost fv = fronts.deep_view();
    proof {
        lemma_deep_view_rows(fronts);
        assert forall|r: int, p: int| 0 <= r < fronts@.len() && 0 <= p < fronts@[r]@.len() implies #[trigger] fronts@[r]@[p]
            < combined@.len() by {
            assert(fv[r] == fronts@[r]@);
            assert(front_ok(combined@, fv, r));
            assert(fv[r].contains(fv[r][p]));
        }
    }
    let ghost unranked = combined@;
    assign_ranks(combined.as_mut_slice(), &fronts);
    let nf = fronts.len();
    proof {
        assert forall|i: int| 0 <= i < unranked.len() implies #[trigger] unranked[i].fitness@ == combined@[i].fitness@ by {
            assert(same_except_rank(combined@[i], unranked[i]));
        }
        lemma_sorting_reads_fitness(unranked, combined@, fv);
        assert forall|k: int, x: usize| 0 <= k < fv.len() && #[trigger] fv[k].contains(x) implies combined@[x as int].rank == k by {
            assert(front_ok(combined@, fv, k));
            assert(ready(combined@, fv, k, x));
            lemma_rank_is_front(combined@, fv, x, unranked[x as int].rank, k, nf as int);
        }
    }
    (combined, fronts)
}

/// The second half of an NSGA-II generation: the survivors, selected from sorted and
/// ranked individuals carrying their crowding keys. Their ranks never decrease, the first
/// has rank 0, a survivor that dominates another has the lower rank, and with uniform,
/// ordered objectives exactly `pop_size` survive whenever there are that many.
pub fn select_next_generation(combined: &[Individual], fronts: &Vec<Vec<usize>>, pop_size: usize) -> (selected: Vec<usize>)
    requires
        is_nondominated_sorting(combined@, fronts.deep_view()),
        ranked_by_fronts(combined@, fronts.deep_view()),
        selection_defined(fronts.deep_view(), crowding_of(combined@), pop_size),
    ensures
        is_survivor_selection(fronts.deep_view(), crowding_of(combined@), pop_size, selected@),
        forall|a: int| 0 <= a < selected@.len() ==> #[trigger] selected@[a] < combined@.len(),
        forall|a: int, b: int|
            0 <= a < b < selected@.len() ==> combined@[selected@[a] as int].rank <= combined@[selected@[b] as int].rank,
        selected@.len() > 0 ==> combined@[selected@[0] as int].rank == 0,
        forall|a: int, b: int|
            0 <= a < selected@.len() && 0 <= b < selected@.len() && dom_at(combined@, selected@[a], selected@[b])
                ==> combined@[selected@[a] as int].rank < combined@[selected@[b] as int].rank,
        uniform_ordered_fitness(combined@) && pop_size <= combined@.len() ==> selected@.len() == pop_size,
        forall|t: int|
            truncated_front(fronts.deep_view(), pop_size) == Some(t) ==> #[trigger] keeps_most_isolated(
                fronts.deep_view(),
                crowding_of(combined@),
                pop_size,
                selected@,
                t,
            ),
{
    let selected = select_survivors(combined, fronts, pop_size);
    let nf = fronts.len();
    let n = combined.len();
    proof {
        let fv = fronts.deep_view();
        lemma_deep_view_rows(*fronts);
        let pop = combined@;
        assert forall|i: usize| i < pop.len() implies #[trigger] pop[i as int].rank == rank_after(
            fv,
            i,
            pop[i as int].rank,
            fv.len() as int,
        ) by {
            if exists|k: int| 0 <= k < fv.len() && #[trigger] fv[k].contains(i) {
                let k = choose|k: int| 0 <= k < fv.len() && #[trigger] fv[k].contains(i);
                lemma_rank_is_front(pop, fv, i, pop[i as int].rank, k, nf as int);
            } else {
                lemma_rank_after_absent(fv, i, pop[i as int].rank, fv.len() as int);
            }
        }
        lemma_survivor_ranks(pop, pop, fv, pop_size, selected@);
        if uniform_ordered_fitness(pop) && pop_size <= pop.len() {
            lemma_generation_keeps_size(pop, fv, pop_size, selected@);
        }
    }
    selected
}

/// `g` is what breeding child `c` must give, stated over the raw draws from `seed`: the
/// draws `4c+1` and `4c+2` pick contestants `a` and `b`; the winner `w` is one of them, its
/// rank is no larger than either's, on equal ranks its crowding key is not below the
/// other's, and when ranks and crowding keys tie it is `a`. `g` is `w`'s genome with the
/// gene at the position picked by draw `4c+3` replaced by the low byte of draw `4c+4`,
/// read as a signed number, modulo 3, minus one: the byte remainders 0, 1 and 2 write
/// -1, 0 and +1.
pub open spec fn bred_by_tournament(
    pop: Seq<Individual>,
    seed: u64,
    c: nat,
    pop_size: usize,
    genome_len: usize,
    g: Seq<i8>,
) -> bool {
    let a = ((lcg_iter(seed, 4 * c + 1) as usize) % pop_size) as int;
    let b = ((lcg_iter(seed, 4 * c + 2) as usize) % pop_size) as int;
    let pos = ((lcg_iter(seed, 4 * c + 3) as usize) % genome_len) as int;
    let byte = (lcg_iter(seed, 4 * c + 4) as i8) as int;
    exists|w: int|
        {
            &&& (w == a || w == b)
            &&& 0 <= w < pop.len()
            &&& pop[w].rank <= pop[a].rank
            &&& pop[w].rank <= pop[b].rank
            &&& (pop[a].rank == pop[b].rank ==> !key_lt(pop[w].crowding_distance, pop[a].crowding_distance)
                && !key_lt(pop[w].crowding_distance, pop[b].crowding_distance))
            &&& (pop[a].rank == pop[b].rank && !key_lt(pop[a].crowding_distance, pop[b].crowding_distance)
                && !key_lt(pop[b].crowding_distance, pop[a].crowding_distance) ==> w == a)
            &&& g.len() == #[trigger] pop[w].genome@.len()
            &&& 0 <= pos < g.len()
            &&& (forall|k: int| 0 <= k < g.len() && k != pos ==> g[k] == pop[w].genome@[k])
            &&& g[pos] as int == byte % 3 - 1
        }
}

/// Every child that breeding gives is bred by tournament and one-gene mutation as
/// `bred_by_tournament` states.
pub proof fn lemma_breeding_law(pop: Seq<Individual>, seed: u64, c: nat, pop_size: usize, genome_len: usize)
    requires
        offspring_defined(pop, pop_size, genome_len, seed),
        c < pop_size,
    ensures
        bred_by_tournament(pop, seed, c, pop_size, genome_len, child_genome(pop, seed, c, pop_size, genome_len)),
{
    let a = contestant_a(seed, c, pop_size) as int;
    let b = contestant_b(seed, c, pop_size) as int;
    assert(a < pop.len() && b < pop.len());
    let w = tournament_parent(pop, seed, c, pop_size) as int;
    let pos = mutation_pos(seed, c, genome_len) as int;
    let g = child_genome(pop, seed, c, pop_size, genome_len);
    let byte = (lcg_iter(seed, 4 * c + 4) as i8) as int;
    assert(0 <= pos < pop[w].genome@.len());
    assert(g[pos] as int == byte % 3 - 1);
    assert(pop[w].genome@.len() == g.len());
    assert(w == a || w == b);
}

/// The survivors from the partly surviving front `t` are its members of largest crowding
/// key: all places are filled, the leading fronts survive whole, every later survivor is a
/// member of front `t`, no member of front `t` left out has a larger key than such a
/// survivor, and on equal keys the survivor stands earlier in the front; these survivors
/// come in order of decreasing key, equal keys in front order.
pub open spec fn keeps_most_isolated(
    fronts: Seq<Seq<usize>>,
    crowding: Seq<Option<i64>>,
    pop_size: usize,
    selected: Seq<usize>,
    t: int,
) -> bool {
    &&& selected.len() == pop_size
    &&& selected.take(total_len(fronts, t)) == flatten_upto(fronts, t)
    &&& forall|i: int| total_len(fronts, t) <= i < selected.len() ==> #[trigger] fronts[t].contains(selected[i])
    &&& forall|i: int, q: int|
        #![trigger selected[i], fronts[t][q]]
        total_len(fronts, t) <= i < selected.len() && 0 <= q < fronts[t].len() && (forall|i2: int|
            total_len(fronts, t) <= i2 < selected.len() ==> #[trigger] selected[i2] != fronts[t][q])
            ==> {
            &&& !key_lt(crowding[selected[i] as int], crowding[fronts[t][q] as int])
            &&& (crowding[selected[i] as int] == crowding[fronts[t][q] as int] ==> exists|p: int|
                0 <= p < q && #[trigger] fronts[t][p] == selected[i])
        }
    &&& forall|i: int, j: int|
        #![trigger selected[i], selected[j]]
        total_len(fronts, t) <= i < j < selected.len() ==> {
            &&& !key_lt(crowding[selected[i] as int], crowding[selected[j] as int])
            &&& (crowding[selected[i] as int] == crowding[selected[j] as int] ==> exists|p: int, q: int|
                0 <= p < q < fronts[t].len() && #[trigger] fronts[t][p] == selected[i] && #[trigger] fronts[t][q]
                    == selected[j])
        }
}

/// Survivor selection keeps, from the partly surviving front, its most isolated members.
pub proof fn lemma_truncated_front_keeps_most_isolated(
    fronts: Seq<Seq<usize>>,
    crowding: Seq<Option<i64>>,
    pop_size: usize,
    selected: Seq<usize>,
    t: int,
)
    requires
        is_survivor_selection(fronts, crowding, pop_size, selected),
        selection_defined(fronts, crowding, pop_size),
        truncated_front(fronts, pop_size) == Some(t),
        fronts[t].len() <= usize::MAX,
    ensures
        keeps_most_isolated(fronts, crowding, pop_size, selected, t),
{
    lemma_fitting_bounds(fronts, pop_size, 0);
    lemma_total_len_nonneg(fronts, t);
    lemma_total_len_nonneg(fronts, t + 1);
    let base = flatten_upto(fronts, t);
    let r = pop_size - total_len(fronts, t);
    let keys = crowding_keys(fronts[t], crowding);
    let order = choose|order: Seq<usize>|
        is_stable_order(keys, true, order) && selected == base + order.take(r).map_values(
            |p: usize| fronts[t][p as int],
        );
    assert(order.len() == fronts[t].len());
    assert(0 <= r < fronts[t].len());
    assert(selected.len() == pop_size);
    assert(selected.take(total_len(fronts, t)) =~= base);
    assert forall|i: int| total_len(fronts, t) <= i < selected.len() implies #[trigger] fronts[t].contains(selected[i]) by {
        let j = i - total_len(fronts, t);
        assert(selected[i] == fronts[t][order[j] as int]);
        assert(order[j] < fronts[t].len());
    }
    assert forall|i: int, q: int|
        #![trigger selected[i], fronts[t][q]]
        total_len(fronts, t) <= i < selected.len() && 0 <= q < fronts[t].len() && (forall|i2: int|
            total_len(fronts, t) <= i2 < selected.len() ==> #[trigger] selected[i2] != fronts[t][q])
            implies {
            &&& !key_lt(crowding[selected[i] as int], crowding[fronts[t][q] as int])
            &&& (crowding[selected[i] as int] == crowding[fronts[t][q] as int] ==> exists|p: int|
                0 <= p < q && #[trigger] fronts[t][p] == selected[i])
        } by {
        let j = i - total_len(fronts, t);
        let p = order[j];
        let tail = order.take(r).map_values(|p: usize| fronts[t][p as int]);
        assert(selected == base + tail);
        assert(selected[i] == tail[j]);
        assert(selected[i] == fronts[t][p as int]);
        assert(order.contains(q as usize));
        let m = choose|m: int| 0 <= m < order.len() && order[m] == q as usize;
        if m < r {
            assert(tail[m] == fronts[t][q]);
            assert(selected[total_len(fronts, t) + m] == tail[m]);
            assert(selected[total_len(fronts, t) + m] == fronts[t][q]);
        }
        assert(m >= r);
        assert(j < m);
        assert(crate::ordering::precedes(keys, true, order[j], order[m]));
        assert(fronts[t].len() >= 2);
        assert(fronts[t][p as int] < crowding.len() && crowding[fronts[t][p as int] as int] is Some);
        assert(fronts[t][q] < crowding.len() && crowding[fronts[t][q] as int] is Some);
        assert(keys[p as int] == crowding[fronts[t][p as int] as int]->0);
        assert(keys[q] == crowding[fronts[t][q] as int]->0);
        if crowding[selected[i] as int] == crowding[fronts[t][q] as int] {
            assert(p < q);
            assert(0 <= p < q && fronts[t][p as int] == selected[i]);
        }
    }
    assert forall|i: int, j: int|
        #![trigger selected[i], selected[j]]
        total_len(fronts, t) <= i < j < selected.len() implies {
            &&& !key_lt(crowding[selected[i] as int], crowding[selected[j] as int])
            &&& (crowding[selected[i] as int] == crowding[selected[j] as int] ==> exists|p: int, q: int|
                0 <= p < q < fronts[t].len() && #[trigger] fronts[t][p] == selected[i] && #[trigger] fronts[t][q]
                    == selected[j])
        } by {
        let ji = i - total_len(fronts, t);
        let jj = j - total_len(fronts, t);
        let tail = order.take(r).map_values(|p: usize| fronts[t][p as int]);
        assert(selected == base + tail);
        let p = order[ji];
        let q = order[jj];
        assert(selected[i] == tail[ji] && tail[ji] == fronts[t][p as int]);
        assert(selected[j] == tail[jj] && tail[jj] == fronts[t][q as int]);
        assert(crate::ordering::precedes(keys, true, p, q));
        assert(p < fronts[t].len() && q < fronts[t].len());
        assert(fronts[t].len() >= 2);
        assert(fronts[t][p as int] < crowding.len() && crowding[fronts[t][p as int] as int] is Some);
        assert(fronts[t][q as int] < crowding.len() && crowding[fronts[t][q as int] as int] is Some);
        assert(keys[p as int] == crowding[fronts[t][p as int] as int]->0);
        assert(keys[q as int] == crowding[fronts[t][q as int] as int]->0);
        if crowding[selected[i] as int] == crowding[selected[j] as int] {
            assert(p < q);
            assert(0 <= p < q < fronts[t].len() && fronts[t][p as int] == selected[i] && fronts[t][q as int] == selected[j]);
        }
    }
}

} // verus!
