//! The linear congruential generator that drives every random choice,
//! and random ternary genomes drawn from it.
use vstd::prelude::*;

verus! {

/// Multiplier of the generator (Knuth's MMIX constant).
pub const LCG_MULTIPLIER: u64 = 6364136223846793005;

/// Increment of the generator.
pub const LCG_INCREMENT: u64 = 1442695040888963407;

/// One step of the generator: `s * LCG_MULTIPLIER + LCG_INCREMENT` modulo 2^64.
pub open spec fn lcg_step(s: u64) -> u64 {
    s.wrapping_mul(LCG_MULTIPLIER).wrapping_add(LCG_INCREMENT)
}

/// The state after `n` steps from `s`; `lcg_iter(s, k)` is also the `k`-th value drawn.
pub open spec fn lcg_iter(s: u64, n: nat) -> u64
    decreases n,
{
    if n == 0 {
        s
    } else {
        lcg_step(lcg_iter(s, (n - 1) as nat))
    }
}

/// The gene that a drawn value gives: `value % 3 - 1`.
pub open spec fn gene_of(value: u64) -> i8 {
    ((value % 3) as int - 1) as i8
}

/// The genome of `len` genes drawn from `seed`: gene `i` comes from the `(i + 1)`-th value.
pub open spec fn genome_from(seed: u64, len: nat) -> Seq<i8> {
    Seq::new(len, |i: int| gene_of(lcg_iter(seed, (i + 1) as nat)))
}

/// Advances the generator by one step and returns the new state, which is the value drawn.
pub fn lcg_next(seed: &mut u64) -> (value: u64)
    ensures
        *final(seed) == lcg_step(*old(seed)),
        value == *final(seed),
{
    *seed = seed.wrapping_mul(LCG_MULTIPLIER).wrapping_add(LCG_INCREMENT);
    *seed
}

/// A random ternary genome of `len` genes; gene `i` comes from the `(i + 1)`-th value drawn.
pub fn random_genome(len: usize, seed: &mut u64) -> (genome: Vec<i8>)
    ensures
        genome@ == genome_from(*old(seed), len as nat),
        genome@.len() == len,
        forall|i: int| 0 <= i < len ==> #[trigger] genome@[i] == gene_of(lcg_iter(*old(seed), (i + 1) as nat)),
        forall|i: int| 0 <= i < len ==> -1 <= #[trigger] genome@[i] <= 1,
        *final(seed) == lcg_iter(*old(seed), len as nat),
{
    let ghost start = *seed;
    let mut genome: Vec<i8> = Vec::with_capacity(len);
    let mut k: usize = 0;
    while k < len
        invariant
            k <= len,
            genome@.len() == k,
            *seed == lcg_iter(start, k as nat),
            forall|i: int| 0 <= i < k ==> #[trigger] genome@[i] == gene_of(lcg_iter(start, (i + 1) as nat)),
        decreases len - k,
    {
        let value = lcg_next(seed);
        let gene: i8 = (value % 3) as i8 - 1;
        genome.push(gene);
        k = k + 1;
    }
    assert(genome@ =~= genome_from(start, len as nat));
    genome
}

/// Stepping `a` times and then `b` times is stepping `a + b` times.
pub proof fn lemma_lcg_iter_add(s: u64, a: nat, b: nat)
    ensures
        lcg_iter(lcg_iter(s, a), b) == lcg_iter(s, a + b),
    decreases b,
{
    if b > 0 {
        lemma_lcg_iter_add(s, a, (b - 1) as nat);
    }
}

/// A seeded population of `pop_size` random ternary genomes of `genome_len` genes each,
/// drawn one after another from the same generator: gene `i` of genome `k` comes from the
/// `(k * genome_len + i + 1)`-th value drawn.
pub fn random_population(pop_size: usize, genome_len: usize, seed: &mut u64) -> (g: Vec<Vec<i8>>)
    ensures
        g@.len() == pop_size,
        forall|k: int| 0 <= k < pop_size ==> (#[trigger] g@[k])@.len() == genome_len,
        forall|k: int, i: int|
            0 <= k < pop_size && 0 <= i < genome_len ==> #[trigger] g@[k]@[i] == gene_of(
                lcg_iter(*old(seed), (k * genome_len + i + 1) as nat),
            ),
        *final(seed) == lcg_iter(*old(seed), (pop_size * genome_len) as nat),
{
    let ghost start = *seed;
    let mut g: Vec<Vec<i8>> = Vec::new();
    let mut k: usize = 0;
    while k < pop_size
        invariant
            k <= pop_size,
            g@.len() == k,
            *seed == lcg_iter(start, (k * genome_len) as nat),
            forall|q: int| 0 <= q < k ==> (#[trigger] g@[q])@.len() == genome_len,
            forall|q: int, i: int|
                0 <= q < k && 0 <= i < genome_len ==> #[trigger] g@[q]@[i] == gene_of(
                    lcg_iter(start, (q * genome_len + i + 1) as nat),
                ),
        decreases pop_size - k,
    {
        let ghost before = *seed;
        let genome = random_genome(genome_len, seed);
        proof {
            assert(k * genome_len + genome_len == (k + 1) * genome_len) by (nonlinear_arith);
            assert(k * genome_len >= 0) by (nonlinear_arith);
            lemma_lcg_iter_add(start, (k * genome_len) as nat, genome_len as nat);
            assert forall|i: int| 0 <= i < genome_len implies #[trigger] genome@[i] == gene_of(
                lcg_iter(start, (k * genome_len + i + 1) as nat),
            ) by {
                lemma_lcg_iter_add(start, (k * genome_len) as nat, (i + 1) as nat);
            }
        }
        g.push(genome);
        k = k + 1;
    }
    proof {
        assert(pop_size * genome_len >= 0) by (nonlinear_arith);
    }
    g
}

/// A genome of `m + n` genes is the genome of `m` genes followed by the genome of `n`
/// genes drawn next.
pub proof fn lemma_genome_concat(seed: u64, m: nat, n: nat)
    ensures
        genome_from(seed, m + n) == genome_from(seed, m) + genome_from(lcg_iter(seed, m), n),
{
    let whole = genome_from(seed, m + n);
    let parts = genome_from(seed, m) + genome_from(lcg_iter(seed, m), n);
    assert forall|i: int| 0 <= i < m + n implies whole[i] == parts[i] by {
        if i >= m {
            lemma_lcg_iter_add(seed, m, (i - m + 1) as nat);
        }
    }
    assert(whole =~= parts);
}

} // verus!
