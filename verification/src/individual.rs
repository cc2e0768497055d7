//! Individuals of a population and the distances between their genomes.
use vstd::prelude::*;

verus! {

/// An individual of the population.
///
/// Objective values and the crowding distance are held as order keys: `Some(k)` stands
/// for a value whose order among the others is the order of the integers `k` (a zero
/// value has key 0); `None` stands for a value that compares neither below nor above any
/// other value.
pub struct Individual {
    pub genome: Vec<i8>,
    pub fitness: Vec<Option<i64>>,
    pub rank: usize,
    pub crowding_distance: Option<i64>,
    pub species_id: usize,
}

/// Number of positions that the two genomes share (the shorter length).
pub open spec fn common_len(a: Seq<i8>, b: Seq<i8>) -> nat {
    if a.len() <= b.len() {
        a.len()
    } else {
        b.len()
    }
}

/// Number of positions below `k` at which `a` and `b` differ.
pub open spec fn hamming_upto(a: Seq<i8>, b: Seq<i8>, k: nat) -> nat
    decreases k,
{
    if k == 0 {
        0
    } else {
        hamming_upto(a, b, (k - 1) as nat) + if a[k - 1] != b[k - 1] {
            1nat
        } else {
            0nat
        }
    }
}

/// Hamming distance over the positions that both genomes have.
pub open spec fn hamming(a: Seq<i8>, b: Seq<i8>) -> nat {
    hamming_upto(a, b, common_len(a, b))
}

/// Sum of squared gene differences over the positions below `k`.
pub open spec fn squared_upto(a: Seq<i8>, b: Seq<i8>, k: nat) -> nat
    decreases k,
{
    if k == 0 {
        0
    } else {
        squared_upto(a, b, (k - 1) as nat) + ((a[k - 1] - b[k - 1]) * (a[k - 1] - b[k - 1])) as nat
    }
}

/// Squared Euclidean distance over the positions that both genomes have.
pub open spec fn squared_distance(a: Seq<i8>, b: Seq<i8>) -> nat {
    squared_upto(a, b, common_len(a, b))
}

proof fn lemma_hamming_upto_bound(a: Seq<i8>, b: Seq<i8>, k: nat)
    ensures
        hamming_upto(a, b, k) <= k,
    decreases k,
{
    if k > 0 {
        lemma_hamming_upto_bound(a, b, (k - 1) as nat);
    }
}

proof fn lemma_squared_upto_bound(a: Seq<i8>, b: Seq<i8>, k: nat)
    ensures
        squared_upto(a, b, k) <= k * 65536,
    decreases k,
{
    if k > 0 {
        lemma_squared_upto_bound(a, b, (k - 1) as nat);
        let d = a[k - 1] - b[k - 1];
        assert(-256 < d < 256);
        assert(0 <= d * d <= 65536) by (nonlinear_arith)
            requires
                -256 < d < 256,
        ;
        assert(squared_upto(a, b, k) == squared_upto(a, b, (k - 1) as nat) + (d * d) as nat);
    }
}

impl Individual {
    /// A new individual with the given genome, no fitness values, rank 0, crowding
    /// distance 0 and species 0.
    pub fn new(genome: Vec<i8>) -> (ind: Individual)
        ensures
            ind.genome@ == genome@,
            ind.fitness@.len() == 0,
            ind.rank == 0,
            ind.crowding_distance == Some(0i64),
            ind.species_id == 0,
    {
        Individual { genome, fitness: Vec::new(), rank: 0, crowding_distance: Some(0), species_id: 0 }
    }

    /// Number of positions, among those both genomes have, at which the genes differ.
    pub fn hamming_distance(&self, other: &Individual) -> (d: usize)
        ensures
            d == hamming(self.genome@, other.genome@),
    {
        genome_hamming(&self.genome, &other.genome)
    }

    /// Sum of the squared gene differences over the positions both genomes have;
    /// the Euclidean distance is its square root.
    pub fn squared_euclidean_distance(&self, other: &Individual) -> (d: u128)
        ensures
            d == squared_distance(self.genome@, other.genome@),
    {
        let a = &self.genome;
        let b = &other.genome;
        let n: usize = if a.len() <= b.len() {
            a.len()
        } else {
            b.len()
        };
        let mut sum: u128 = 0;
        let mut k: usize = 0;
        while k < n
            invariant
                n == common_len(a@, b@),
                k <= n,
                sum == squared_upto(a@, b@, k as nat),
            decreases n - k,
        {
            proof {
                lemma_squared_upto_bound(a@, b@, (k + 1) as nat);
            }
            let d: i32 = a[k] as i32 - b[k] as i32;
            assert(0 <= d * d <= 65536) by (nonlinear_arith)
                requires
                    -256 < d < 256,
            ;
            let sq: u128 = (d * d) as u128;
            assert(squared_upto(a@, b@, (k + 1) as nat) == sum + sq);
            sum = sum + sq;
            k = k + 1;
        }
        sum
    }
}

/// Hamming distance between two genomes over their common positions.
pub fn genome_hamming(a: &Vec<i8>, b: &Vec<i8>) -> (d: usize)
    ensures
        d == hamming(a@, b@),
{
    let n: usize = if a.len() <= b.len() {
        a.len()
    } else {
        b.len()
    };
    let mut count: usize = 0;
    let mut k: usize = 0;
    while k < n
        invariant
            n == common_len(a@, b@),
            k <= n,
            count == hamming_upto(a@, b@, k as nat),
        decreases n - k,
    {
        proof {
            lemma_hamming_upto_bound(a@, b@, k as nat);
        }
        if a[k] != b[k] {
            count = count + 1;
        }
        k = k + 1;
    }
    count
}

proof fn lemma_hamming_upto_symmetric(a: Seq<i8>, b: Seq<i8>, k: nat)
    ensures
        hamming_upto(a, b, k) == hamming_upto(b, a, k),
    decreases k,
{
    if k > 0 {
        lemma_hamming_upto_symmetric(a, b, (k - 1) as nat);
    }
}

proof fn lemma_hamming_upto_self(a: Seq<i8>, k: nat)
    ensures
        hamming_upto(a, a, k) == 0,
    decreases k,
{
    if k > 0 {
        lemma_hamming_upto_self(a, (k - 1) as nat);
    }
}

proof fn lemma_hamming_upto_triangle(a: Seq<i8>, b: Seq<i8>, c: Seq<i8>, k: nat)
    ensures
        hamming_upto(a, c, k) <= hamming_upto(a, b, k) + hamming_upto(b, c, k),
    decreases k,
{
    if k > 0 {
        lemma_hamming_upto_triangle(a, b, c, (k - 1) as nat);
    }
}

/// The Hamming distance is symmetric.
pub proof fn lemma_hamming_symmetric(a: Seq<i8>, b: Seq<i8>)
    ensures
        hamming(a, b) == hamming(b, a),
{
    lemma_hamming_upto_symmetric(a, b, common_len(a, b));
}

/// A genome is at Hamming distance 0 from itself.
pub proof fn lemma_hamming_self_zero(a: Seq<i8>)
    ensures
        hamming(a, a) == 0,
{
    lemma_hamming_upto_self(a, a.len());
}

/// The Hamming distance never exceeds the number of common positions.
pub proof fn lemma_hamming_bounded(a: Seq<i8>, b: Seq<i8>)
    ensures
        hamming(a, b) <= common_len(a, b),
{
    lemma_hamming_upto_bound(a, b, common_len(a, b));
}

/// Among genomes of one length the Hamming distance obeys the triangle inequality.
pub proof fn lemma_hamming_triangle(a: Seq<i8>, b: Seq<i8>, c: Seq<i8>)
    requires
        a.len() == b.len(),
        b.len() == c.len(),
    ensures
        hamming(a, c) <= hamming(a, b) + hamming(b, c),
{
    lemma_hamming_upto_triangle(a, b, c, a.len());
}

proof fn lemma_squared_upto_symmetric(a: Seq<i8>, b: Seq<i8>, k: nat)
    ensures
        squared_upto(a, b, k) == squared_upto(b, a, k),
    decreases k,
{
    if k > 0 {
        lemma_squared_upto_symmetric(a, b, (k - 1) as nat);
        let x = a[k - 1] - b[k - 1];
        assert(x * x == (-x) * (-x)) by (nonlinear_arith);
    }
}

proof fn lemma_squared_upto_vs_hamming(a: Seq<i8>, b: Seq<i8>, k: nat)
    ensures
        hamming_upto(a, b, k) <= squared_upto(a, b, k),
        squared_upto(a, b, k) <= 65536 * hamming_upto(a, b, k),
    decreases k,
{
    if k > 0 {
        lemma_squared_upto_vs_hamming(a, b, (k - 1) as nat);
        let x = a[k - 1] - b[k - 1];
        assert(-256 < x < 256);
        assert(x != 0 ==> 1 <= x * x <= 65536) by (nonlinear_arith)
            requires
                -256 < x < 256,
        ;
        assert(x == 0 ==> x * x == 0);
    }
}

proof fn lemma_squared_upto_ternary(a: Seq<i8>, b: Seq<i8>, k: nat)
    requires
        k <= a.len(),
        k <= b.len(),
        forall|i: int| 0 <= i < a.len() ==> -1 <= #[trigger] a[i] <= 1,
        forall|i: int| 0 <= i < b.len() ==> -1 <= #[trigger] b[i] <= 1,
    ensures
        squared_upto(a, b, k) <= 4 * hamming_upto(a, b, k),
    decreases k,
{
    if k > 0 {
        lemma_squared_upto_ternary(a, b, (k - 1) as nat);
        let x = a[k - 1] - b[k - 1];
        assert(-2 <= x <= 2);
        assert(0 <= x * x <= 4 && (x == 0 ==> x * x == 0)) by (nonlinear_arith)
            requires
                -2 <= x <= 2,
        ;
        assert(squared_upto(a, b, k) == squared_upto(a, b, (k - 1) as nat) + (x * x) as nat);
    }
}

/// The squared Euclidean distance is symmetric.
pub proof fn lemma_squared_distance_symmetric(a: Seq<i8>, b: Seq<i8>)
    ensures
        squared_distance(a, b) == squared_distance(b, a),
{
    lemma_squared_upto_symmetric(a, b, common_len(a, b));
}

/// The squared Euclidean distance is at least the Hamming distance, and is 0 exactly when
/// the Hamming distance is 0 (the genomes agree on their common positions).
pub proof fn lemma_squared_distance_vs_hamming(a: Seq<i8>, b: Seq<i8>)
    ensures
        hamming(a, b) <= squared_distance(a, b),
        squared_distance(a, b) == 0 <==> hamming(a, b) == 0,
{
    lemma_squared_upto_vs_hamming(a, b, common_len(a, b));
}

/// Between ternary genomes every differing gene adds 1 or 4 to the squared distance:
/// `hamming <= squared <= 4 * hamming`.
pub proof fn lemma_squared_distance_ternary_bounds(a: Seq<i8>, b: Seq<i8>)
    requires
        forall|i: int| 0 <= i < a.len() ==> -1 <= #[trigger] a[i] <= 1,
        forall|i: int| 0 <= i < b.len() ==> -1 <= #[trigger] b[i] <= 1,
    ensures
        hamming(a, b) <= squared_distance(a, b) <= 4 * hamming(a, b),
{
    lemma_squared_upto_vs_hamming(a, b, common_len(a, b));
    lemma_squared_upto_ternary(a, b, common_len(a, b));
}

} // verus!
