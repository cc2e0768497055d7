//! Pareto dominance between objective vectors and non-dominated sorting into fronts.
use vstd::prelude::*;
use crate::individual::Individual;

verus! {

/// `a` orders strictly below `b`; a `None` key orders against nothing.
pub open spec fn key_lt(a: Option<i64>, b: Option<i64>) -> bool {
    match (a, b) {
        (Some(x), Some(y)) => x < y,
        _ => false,
    }
}

/// Number of objectives that two vectors share (the shorter length).
pub open spec fn shared_len(a: Seq<Option<i64>>, b: Seq<Option<i64>>) -> int {
    if a.len() <= b.len() {
        a.len() as int
    } else {
        b.len() as int
    }
}

/// `a` dominates `b` (maximisation): over the shared objectives `a` is nowhere
/// below `b` and somewhere above it.
pub open spec fn dominates_spec(a: Seq<Option<i64>>, b: Seq<Option<i64>>) -> bool {
    &&& forall|k: int| 0 <= k < shared_len(a, b) ==> !key_lt(#[trigger] a[k], b[k])
    &&& exists|k: int| 0 <= k < shared_len(a, b) && key_lt(#[trigger] b[k], a[k])
}

/// Individual `i` of `pop` dominates individual `j`.
pub open spec fn dom_at(pop: Seq<Individual>, i: usize, j: usize) -> bool {
    dominates_spec(pop[i as int].fitness@, pop[j as int].fitness@)
}

/// Index `x` stands in one of the first `k` fronts.
pub open spec fn in_some_front(fronts: Seq<Seq<usize>>, k: int, x: usize) -> bool {
    exists|l: int| 0 <= l < k && #[trigger] fronts[l].contains(x)
}

/// Index `x` is not in the first `k` fronts, and every individual that dominates it is.
pub open spec fn ready(pop: Seq<Individual>, fronts: Seq<Seq<usize>>, k: int, x: usize) -> bool {
    &&& x < pop.len()
    &&& !in_some_front(fronts, k, x)
    &&& forall|j: usize| j < pop.len() && #[trigger] dom_at(pop, j, x) ==> in_some_front(fronts, k, j)
}

/// Front `k` is non-empty and lists, in increasing order, exactly the indices that are ready
/// once the fronts before it are taken.
pub open spec fn front_ok(pop: Seq<Individual>, fronts: Seq<Seq<usize>>, k: int) -> bool {
    &&& fronts[k].len() > 0
    &&& forall|a: int, b: int| 0 <= a < b < fronts[k].len() ==> fronts[k][a] < fronts[k][b]
    &&& forall|x: usize| #[trigger] fronts[k].contains(x) <==> ready(pop, fronts, k, x)
}

/// `fronts` is the non-dominated sorting of `pop`: each front holds the individuals all of
/// whose dominators lie in earlier fronts, and the fronts stop when no individual is left
/// whose dominators have all been placed.
pub open spec fn is_nondominated_sorting(pop: Seq<Individual>, fronts: Seq<Seq<usize>>) -> bool {
    &&& forall|k: int| 0 <= k < fronts.len() ==> front_ok(pop, fronts, k)
    &&& forall|x: usize| !ready(pop, fronts, fronts.len() as int, x)
}

/// Number of dominators of `x` among the indices below `hi` that are not yet assigned.
spec fn open_dominators(pop: Seq<Individual>, assigned: Seq<bool>, x: usize, hi: int) -> nat
    decreases hi,
{
    if hi <= 0 {
        0
    } else {
        open_dominators(pop, assigned, x, hi - 1) + if dom_at(pop, (hi - 1) as usize, x)
            && !assigned[hi - 1] {
            1nat
        } else {
            0nat
        }
    }
}

/// Number of `false` entries below `hi`.
spec fn num_false(s: Seq<bool>, hi: int) -> nat
    decreases hi,
{
    if hi <= 0 {
        0
    } else {
        num_false(s, hi - 1) + if !s[hi - 1] {
            1nat
        } else {
            0nat
        }
    }
}

/// No objective vector dominates itself.
pub proof fn lemma_dominance_irreflexive(a: Seq<Option<i64>>)
    ensures
        !dominates_spec(a, a),
{
    if dominates_spec(a, a) {
        let k = choose|k: int| 0 <= k < shared_len(a, a) && key_lt(#[trigger] a[k], a[k]);
        assert(!key_lt(a[k], a[k]));
    }
}

/// Dominance is asymmetric: two vectors never dominate each other.
pub proof fn lemma_dominance_asymmetric(a: Seq<Option<i64>>, b: Seq<Option<i64>>)
    ensures
        !(dominates_spec(a, b) && dominates_spec(b, a)),
{
    if dominates_spec(a, b) && dominates_spec(b, a) {
        let k = choose|k: int| 0 <= k < shared_len(a, b) && key_lt(#[trigger] b[k], a[k]);
        assert(shared_len(a, b) == shared_len(b, a));
        assert(!key_lt(b[k], a[k]));
    }
}

/// Among vectors of one length with every objective ordered, dominance is transitive.
pub proof fn lemma_dominance_transitive(a: Seq<Option<i64>>, b: Seq<Option<i64>>, c: Seq<Option<i64>>)
    requires
        a.len() == b.len(),
        b.len() == c.len(),
        forall|k: int| 0 <= k < a.len() ==> (#[trigger] a[k]) is Some,
        forall|k: int| 0 <= k < b.len() ==> (#[trigger] b[k]) is Some,
        forall|k: int| 0 <= k < c.len() ==> (#[trigger] c[k]) is Some,
        dominates_spec(a, b),
        dominates_spec(b, c),
    ensures
        dominates_spec(a, c),
{
    assert forall|k: int| 0 <= k < shared_len(a, c) implies !key_lt(#[trigger] a[k], c[k]) by {
        assert(!key_lt(a[k], b[k]));
        assert(!key_lt(b[k], c[k]));
        assert(b[k] is Some);
    }
    let k = choose|k: int| 0 <= k < shared_len(b, c) && key_lt(#[trigger] c[k], b[k]);
    assert(!key_lt(a[k], b[k]));
    assert(a[k] is Some && b[k] is Some && c[k] is Some);
    assert(key_lt(c[k], a[k]));
}

/// Whether key `a` orders strictly below key `b`.
pub(crate) fn key_less(a: Option<i64>, b: Option<i64>) -> (r: bool)
    ensures
        r == key_lt(a, b),
{
    match (a, b) {
        (Some(x), Some(y)) => x < y,
        _ => false,
    }
}

/// Whether objective vector `a` dominates `b` (maximisation, over the shared objectives).
pub fn dominates(a: &[Option<i64>], b: &[Option<i64>]) -> (r: bool)
    ensures
        r == dominates_spec(a@, b@),
{
    let n: usize = if a.len() <= b.len() {
        a.len()
    } else {
        b.len()
    };
    let mut better = false;
    let mut k: usize = 0;
    while k < n
        invariant
            n == shared_len(a@, b@),
            k <= n,
            forall|t: int| 0 <= t < k ==> !key_lt(#[trigger] a@[t], b@[t]),
            better == exists|t: int| 0 <= t < k && key_lt(#[trigger] b@[t], a@[t]),
        decreases n - k,
    {
        if key_less(a[k], b[k]) {
            assert(key_lt(a@[k as int], b@[k as int]));
            return false;
        }
        if key_less(b[k], a[k]) {
            better = true;
        }
        proof {
            if better {
                if key_lt(b@[k as int], a@[k as int]) {
                    assert(0 <= k < k + 1 && key_lt(b@[k as int], a@[k as int]));
                }
            }
        }
        k = k + 1;
    }
    better
}

proof fn lemma_open_bound(pop: Seq<Individual>, assigned: Seq<bool>, x: usize, hi: int)
    requires
        hi >= 0,
    ensures
        open_dominators(pop, assigned, x, hi) <= hi,
    decreases hi,
{
    if hi > 0 {
        lemma_open_bound(pop, assigned, x, hi - 1);
    }
}

proof fn lemma_open_zero(pop: Seq<Individual>, assigned: Seq<bool>, x: usize, hi: int)
    requires
        0 <= hi <= usize::MAX,
    ensures
        open_dominators(pop, assigned, x, hi) == 0 <==> (forall|j: usize|
            j < hi && #[trigger] dom_at(pop, j, x) ==> assigned[j as int]),
    decreases hi,
{
    if hi > 0 {
        lemma_open_zero(pop, assigned, x, hi - 1);
        if open_dominators(pop, assigned, x, hi) == 0 {
            assert forall|j: usize| j < hi && #[trigger] dom_at(pop, j, x) implies assigned[j as int] by {
                if j < hi - 1 {
                } else {
                    assert(j == hi - 1);
                }
            }
        }
        if forall|j: usize| j < hi && #[trigger] dom_at(pop, j, x) ==> assigned[j as int] {
            assert(forall|j: usize| j < hi - 1 && #[trigger] dom_at(pop, j, x) ==> assigned[j as int]);
            let last = (hi - 1) as usize;
            assert(dom_at(pop, last, x) ==> assigned[hi - 1]);
        }
    }
}

proof fn lemma_open_update(pop: Seq<Individual>, assigned: Seq<bool>, a: usize, x: usize, hi: int)
    requires
        0 <= hi <= assigned.len(),
        a < assigned.len(),
        !assigned[a as int],
    ensures
        open_dominators(pop, assigned.update(a as int, true), x, hi) + (if a < hi && dom_at(
            pop,
            a,
            x,
        ) {
            1nat
        } else {
            0nat
        }) == open_dominators(pop, assigned, x, hi),
    decreases hi,
{
    if hi > 0 {
        lemma_open_update(pop, assigned, a, x, hi - 1);
        let upd = assigned.update(a as int, true);
        if hi - 1 == a {
            assert(upd[hi - 1]);
        } else {
            assert(upd[hi - 1] == assigned[hi - 1]);
        }
    }
}

proof fn lemma_open_self(pop: Seq<Individual>, assigned: Seq<bool>, x: usize)
    ensures
        open_dominators(pop, assigned, x, x as int + 1) == open_dominators(pop, assigned, x, x as int),
{
    lemma_dominance_irreflexive(pop[x as int].fitness@);
}

proof fn lemma_num_false_update(s: Seq<bool>, a: usize, hi: int)
    requires
        0 <= a < hi <= s.len(),
        !s[a as int],
    ensures
        num_false(s.update(a as int, true), hi) + 1 == num_false(s, hi),
    decreases hi,
{
    let upd = s.update(a as int, true);
    if hi - 1 == a {
        lemma_num_false_frame(s, upd, hi - 1);
    } else {
        lemma_num_false_update(s, a, hi - 1);
        assert(upd[hi - 1] == s[hi - 1]);
    }
}

proof fn lemma_num_false_frame(s: Seq<bool>, t: Seq<bool>, hi: int)
    requires
        forall|j: int| 0 <= j < hi ==> s[j] == t[j],
    ensures
        num_false(s, hi) == num_false(t, hi),
    decreases hi,
{
    if hi > 0 {
        lemma_num_false_frame(s, t, hi - 1);
    }
}

proof fn lemma_push_keeps_fronts(pop: Seq<Individual>, fronts: Seq<Seq<usize>>, f: Seq<usize>)
    ensures
        forall|k: int, x: usize|
            0 <= k <= fronts.len() ==> (in_some_front(fronts.push(f), k, x) == in_some_front(
                fronts,
                k,
                x,
            )),
        forall|k: int, x: usize|
            0 <= k <= fronts.len() ==> (ready(pop, fronts.push(f), k, x) == ready(pop, fronts, k, x)),
        forall|k: int| 0 <= k < fronts.len() ==> front_ok(pop, fronts, k) ==> front_ok(pop, fronts.push(f), k),
        forall|x: usize|
            in_some_front(fronts.push(f), fronts.len() as int + 1, x) == (in_some_front(
                fronts,
                fronts.len() as int,
                x,
            ) || f.contains(x)),
{
    let g = fronts.push(f);
    assert forall|k: int, x: usize| 0 <= k <= fronts.len() implies (in_some_front(g, k, x)
        == in_some_front(fronts, k, x)) by {
        if in_some_front(g, k, x) {
            let l = choose|l: int| 0 <= l < k && #[trigger] g[l].contains(x);
            assert(g[l] == fronts[l]);
        }
        if in_some_front(fronts, k, x) {
            let l = choose|l: int| 0 <= l < k && #[trigger] fronts[l].contains(x);
            assert(g[l] == fronts[l]);
        }
    }
    assert forall|x: usize| in_some_front(g, fronts.len() as int + 1, x) == (in_some_front(
        fronts,
        fronts.len() as int,
        x,
    ) || f.contains(x)) by {
        if in_some_front(g, fronts.len() as int + 1, x) {
            let l = choose|l: int| 0 <= l < fronts.len() + 1 && #[trigger] g[l].contains(x);
            if l < fronts.len() {
                assert(g[l] == fronts[l]);
            } else {
                assert(g[l] == f);
            }
        }
        if in_some_front(fronts, fronts.len() as int, x) {
            let l = choose|l: int| 0 <= l < fronts.len() && #[trigger] fronts[l].contains(x);
            assert(g[l] == fronts[l]);
        }
        if f.contains(x) {
            assert(g[fronts.len() as int] == f);
        }
    }
    assert forall|k: int, x: usize| 0 <= k <= fronts.len() implies (ready(pop, g, k, x) == ready(
        pop,
        fronts,
        k,
        x,
    )) by {
        assert(in_some_front(g, k, x) == in_some_front(fronts, k, x));
        assert forall|j: usize| true implies in_some_front(g, k, j) == in_some_front(fronts, k, j) by {
        }
    }
    assert forall|k: int| 0 <= k < fronts.len() && front_ok(pop, fronts, k) implies front_ok(
        pop,
        g,
        k,
    ) by {
        assert(g[k] == fronts[k]);
        assert forall|x: usize| #[trigger] g[k].contains(x) <==> ready(pop, g, k, x) by {
            assert(ready(pop, g, k, x) == ready(pop, fronts, k, x));
        }
    }
}

/// Whether a pair of indices has already been compared when the pair scan stands at
/// outer index `i` and inner index `j`.
spec fn pair_scanned(i: usize, j: usize, x: usize, y: usize) -> bool {
    x < i || y < i || (x == i && y < j) || (y == i && x < j)
}

proof fn lemma_push_no_duplicates(s: Seq<usize>, v: usize)
    requires
        s.no_duplicates(),
        !s.contains(v),
    ensures
        s.push(v).no_duplicates(),
{
    let t = s.push(v);
    assert forall|a: int, b: int| 0 <= a < t.len() && 0 <= b < t.len() && a != b implies t[a]
        != t[b] by {
        if a < s.len() && b < s.len() {
            assert(t[a] == s[a] && t[b] == s[b]);
        } else if a < s.len() {
            assert(t[a] == s[a]);
        } else if b < s.len() {
            assert(t[b] == s[b]);
        }
    }
}

/// A vector of index rows, viewed deeply, is the sequence of the rows' views.
pub proof fn lemma_deep_view_rows(v: Vec<Vec<usize>>)
    ensures
        v.deep_view().len() == v@.len(),
        forall|k: int| 0 <= k < v@.len() ==> #[trigger] v.deep_view()[k] == v@[k]@,
{
    assert forall|k: int| 0 <= k < v@.len() implies #[trigger] v.deep_view()[k] == v@[k]@ by {
        assert(v@[k].deep_view() =~= v@[k]@);
    }
}

spec fn all_open(n: nat) -> Seq<bool> {
    Seq::new(n, |i: int| false)
}

/// Counts, for every individual, its dominators, and lists, for every individual,
/// the individuals it dominates.
fn domination_tables(population: &[Individual]) -> (res: (Vec<usize>, Vec<Vec<usize>>))
    ensures
        res.0@.len() == population@.len(),
        res.1@.len() == population@.len(),
        forall|x: usize|
            x < population@.len() ==> #[trigger] res.0@[x as int] == open_dominators(
                population@,
                all_open(population@.len()),
                x,
                population@.len() as int,
            ),
        forall|x: usize, y: usize|
            x < population@.len() ==> (#[trigger] res.1@[x as int]@.contains(y) <==> (y
                < population@.len() && dom_at(population@, x, y))),
        forall|x: usize| x < population@.len() ==> #[trigger] res.1@[x as int]@.no_duplicates(),
{
    let n = population.len();
    let ghost pop = population@;
    let ghost gz = all_open(n as nat);
    let mut count: Vec<usize> = Vec::new();
    let mut dominated_by: Vec<Vec<usize>> = Vec::new();
    let mut k: usize = 0;
    while k < n
        invariant
            k <= n,
            count@.len() == k,
            dominated_by@.len() == k,
            forall|x: int| 0 <= x < k ==> #[trigger] count@[x] == 0,
            forall|x: int| 0 <= x < k ==> #[trigger] dominated_by@[x]@.len() == 0,
        decreases n - k,
    {
        count.push(0);
        dominated_by.push(Vec::new());
        k = k + 1;
    }
    let mut i: usize = 0;
    while i < n
        invariant
            n == pop.len(),
            pop == population@,
            gz == all_open(n as nat),
            i <= n,
            count@.len() == n,
            dominated_by@.len() == n,
            forall|x: usize|
                x < n ==> #[trigger] count@[x as int] == if x < i {
                    open_dominators(pop, gz, x, n as int)
                } else {
                    open_dominators(pop, gz, x, i as int)
                },
            forall|x: usize, y: usize|
                x < n ==> (#[trigger] dominated_by@[x as int]@.contains(y) <==> (y < n && dom_at(
                    pop,
                    x,
                    y,
                ) && (x < i || y < i))),
            forall|x: usize| x < n ==> #[trigger] dominated_by@[x as int]@.no_duplicates(),
        decreases n - i,
    {
        proof {
            lemma_open_self(pop, gz, i);
        }
        let mut j: usize = i + 1;
        while j < n
            invariant
                n == pop.len(),
                pop == population@,
                gz == all_open(n as nat),
                i < n,
                i + 1 <= j <= n,
                count@.len() == n,
                dominated_by@.len() == n,
                forall|x: usize|
                    x < n ==> #[trigger] count@[x as int] == if x < i {
                        open_dominators(pop, gz, x, n as int)
                    } else if x == i {
                        open_dominators(pop, gz, x, j as int)
                    } else if x < j {
                        open_dominators(pop, gz, x, i + 1)
                    } else {
                        open_dominators(pop, gz, x, i as int)
                    },
                forall|x: usize, y: usize|
                    x < n ==> (#[trigger] dominated_by@[x as int]@.contains(y) <==> (y < n
                        && dom_at(pop, x, y) && pair_scanned(i, j, x, y))),
                forall|x: usize| x < n ==> #[trigger] dominated_by@[x as int]@.no_duplicates(),
            decreases n - j,
        {
            let dom = dominates(population[i].fitness.as_slice(), population[j].fitness.as_slice());
            let dom_rev = dominates(
                population[j].fitness.as_slice(),
                population[i].fitness.as_slice(),
            );
            proof {
                lemma_dominance_asymmetric(pop[i as int].fitness@, pop[j as int].fitness@);
                lemma_open_bound(pop, gz, j, i as int);
                lemma_open_bound(pop, gz, i, j as int);
                assert(!dominated_by@[i as int]@.contains(j));
                assert(!dominated_by@[j as int]@.contains(i));
            }
            let ghost before = dominated_by@;
            if dom {
                dominated_by[i].push(j);
                count.set(j, count[j] + 1);
                proof {
                    lemma_push_no_duplicates(before[i as int]@, j);
                    assert forall|y: usize| #[trigger]
                        dominated_by@[i as int]@.contains(y) <==> (before[i as int]@.contains(y)
                            || y == j) by {
                        if dominated_by@[i as int]@.contains(y) {
                            let w = choose|w: int|
                                0 <= w < dominated_by@[i as int]@.len()
                                    && dominated_by@[i as int]@[w] == y;
                            if w < before[i as int]@.len() {
                                assert(before[i as int]@[w] == y);
                            }
                        }
                        if before[i as int]@.contains(y) {
                            let w = choose|w: int|
                                0 <= w < before[i as int]@.len() && before[i as int]@[w] == y;
                            assert(dominated_by@[i as int]@[w] == y);
                        }
                        if y == j {
                            assert(dominated_by@[i as int]@[before[i as int]@.len() as int] == y);
                        }
                    }
                }
            } else if dom_rev {
                dominated_by[j].push(i);
                count.set(i, count[i] + 1);
                proof {
                    lemma_push_no_duplicates(before[j as int]@, i);
                    assert forall|y: usize| #[trigger]
                        dominated_by@[j as int]@.contains(y) <==> (before[j as int]@.contains(y)
                            || y == i) by {
                        if dominated_by@[j as int]@.contains(y) {
                            let w = choose|w: int|
                                0 <= w < dominated_by@[j as int]@.len()
                                    && dominated_by@[j as int]@[w] == y;
                            if w < before[j as int]@.len() {
                                assert(before[j as int]@[w] == y);
                            }
                        }
                        if before[j as int]@.contains(y) {
                            let w = choose|w: int|
                                0 <= w < before[j as int]@.len() && before[j as int]@[w] == y;
                            assert(dominated_by@[j as int]@[w] == y);
                        }
                        if y == i {
                            assert(dominated_by@[j as int]@[before[j as int]@.len() as int] == y);
                        }
                    }
                }
            }
            j = j + 1;
        }
        i = i + 1;
    }
    (count, dominated_by)
}

/// With `assigned` marking exactly the indices in the fronts so far, an index is ready
/// exactly when it is unassigned and none of its dominators is unassigned.
proof fn lemma_ready_iff(
    pop: Seq<Individual>,
    fronts: Seq<Seq<usize>>,
    assigned: Seq<bool>,
    x: usize,
)
    requires
        pop.len() <= usize::MAX,
        assigned.len() == pop.len(),
        x < pop.len(),
        forall|y: usize| y < pop.len() ==> #[trigger] assigned[y as int] == in_some_front(
            fronts,
            fronts.len() as int,
            y,
        ),
    ensures
        ready(pop, fronts, fronts.len() as int, x) <==> (!assigned[x as int] && open_dominators(
            pop,
            assigned,
            x,
            pop.len() as int,
        ) == 0),
{
    lemma_open_zero(pop, assigned, x, pop.len() as int);
    let k = fronts.len() as int;
    if ready(pop, fronts, k, x) {
        assert forall|j: usize| j < pop.len() && #[trigger] dom_at(pop, j, x) implies assigned[j as int] by {
            assert(in_some_front(fronts, k, j));
        }
    }
    if !assigned[x as int] && open_dominators(pop, assigned, x, pop.len() as int) == 0 {
        assert forall|j: usize| j < pop.len() && #[trigger] dom_at(pop, j, x) implies in_some_front(
            fronts,
            k,
            j,
        ) by {
            assert(assigned[j as int]);
        }
    }
}

/// Sorts the population into Pareto fronts (the non-dominated sorting of NSGA-II).
///
/// Front 0 lists the individuals that no other individual dominates; each further front
/// lists the individuals all of whose dominators lie in earlier fronts. Indices within a
/// front are increasing. Individuals without objectives dominate nobody, so when no
/// individual has objectives every index stands in the first front.
pub fn non_dominated_sort(population: &[Individual]) -> (fronts: Vec<Vec<usize>>)
    ensures
        is_nondominated_sorting(population@, fronts.deep_view()),
{
    let n = population.len();
    let ghost pop = population@;
    let (mut count, dominated_by) = domination_tables(population);
    let mut assigned: Vec<bool> = Vec::new();
    let mut k: usize = 0;
    while k < n
        invariant
            k <= n,
            assigned@.len() == k,
            forall|x: int| 0 <= x < k ==> !(#[trigger] assigned@[x]),
        decreases n - k,
    {
        assigned.push(false);
        k = k + 1;
    }
    assert(assigned@ =~= all_open(n as nat));
    let mut fronts: Vec<Vec<usize>> = Vec::new();
    let ghost mut gf: Seq<Seq<usize>> = Seq::empty();
    loop
        invariant
            n == pop.len(),
            pop == population@,
            count@.len() == n,
            assigned@.len() == n,
            dominated_by@.len() == n,
            forall|x: usize| x < n ==> #[trigger] assigned@[x as int] == in_some_front(
                gf,
                gf.len() as int,
                x,
            ),
            forall|x: usize| x < n ==> #[trigger] count@[x as int] == open_dominators(
                pop,
                assigned@,
                x,
                n as int,
            ),
            forall|x: usize, y: usize|
                x < n ==> (#[trigger] dominated_by@[x as int]@.contains(y) <==> (y < n && dom_at(
                    pop,
                    x,
                    y,
                ))),
            forall|x: usize| x < n ==> #[trigger] dominated_by@[x as int]@.no_duplicates(),
            forall|k: int| 0 <= k < gf.len() ==> front_ok(pop, gf, k),
            fronts@.len() == gf.len(),
            forall|k: int| 0 <= k < gf.len() ==> #[trigger] fronts@[k]@ == gf[k],
        ensures
            forall|k: int| 0 <= k < gf.len() ==> front_ok(pop, gf, k),
            forall|x: usize| !ready(pop, gf, gf.len() as int, x),
            fronts@.len() == gf.len(),
            forall|k: int| 0 <= k < gf.len() ==> #[trigger] fronts@[k]@ == gf[k],
        decreases num_false(assigned@, n as int),
    {
        // Collect the unassigned individuals that have no unassigned dominator.
        let mut front: Vec<usize> = Vec::new();
        let mut i: usize = 0;
        while i < n
            invariant
                n == pop.len(),
                pop == population@,
                i <= n,
                count@.len() == n,
                assigned@.len() == n,
                forall|x: usize| x < n ==> #[trigger] assigned@[x as int] == in_some_front(
                    gf,
                    gf.len() as int,
                    x,
                ),
                forall|x: usize| x < n ==> #[trigger] count@[x as int] == open_dominators(
                    pop,
                    assigned@,
                    x,
                    n as int,
                ),
                forall|a: int, b: int| 0 <= a < b < front@.len() ==> front@[a] < front@[b],
                forall|a: int| 0 <= a < front@.len() ==> #[trigger] front@[a] < i,
                forall|x: usize| #[trigger]
                    front@.contains(x) <==> (x < i && ready(pop, gf, gf.len() as int, x)),
            decreases n - i,
        {
            proof {
                lemma_ready_iff(pop, gf, assigned@, i);
            }
            let ghost old_front = front@;
            if !assigned[i] && count[i] == 0 {
                front.push(i);
                proof {
                    assert forall|x: usize| #[trigger] front@.contains(x) <==> (old_front.contains(x)
                        || x == i) by {
                        if front@.contains(x) {
                            let w = choose|w: int| 0 <= w < front@.len() && front@[w] == x;
                            if w < old_front.len() {
                                assert(old_front[w] == x);
                            }
                        }
                        if old_front.contains(x) {
                            let w = choose|w: int| 0 <= w < old_front.len() && old_front[w] == x;
                            assert(front@[w] == x);
                        }
                        if x == i {
                            assert(front@[old_front.len() as int] == x);
                        }
                    }
                }
            }
            i = i + 1;
        }
        if front.len() == 0 {
            proof {
                assert forall|x: usize| !ready(pop, gf, gf.len() as int, x) by {
                    if ready(pop, gf, gf.len() as int, x) {
                        assert(front@.contains(x));
                    }
                }
            }
            break ;
        }
        // Assign the front, and release the individuals its members dominate.

        let ghost asg0 = assigned@;
        proof {
            assert forall|a: int| 0 <= a < front@.len() implies #[trigger] front@[a] < n
                && !asg0[front@[a] as int] by {
                assert(front@.contains(front@[a]));
            }
        }
        let mut t: usize = 0;
        while t < front.len()
            invariant
                n == pop.len(),
                pop == population@,
                count@.len() == n,
                assigned@.len() == n,
                asg0.len() == n,
                dominated_by@.len() == n,
                t <= front@.len(),
                forall|x: usize| x < n ==> #[trigger] assigned@[x as int] == (asg0[x as int] || exists|s: int|
                    0 <= s < t && front@[s] == x),
                forall|x: usize| x < n ==> #[trigger] count@[x as int] == open_dominators(
                    pop,
                    assigned@,
                    x,
                    n as int,
                ),
                num_false(assigned@, n as int) + t == num_false(asg0, n as int),
                forall|a: int, b: int| 0 <= a < b < front@.len() ==> front@[a] < front@[b],
                forall|a: int| 0 <= a < front@.len() ==> #[trigger] front@[a] < n && !asg0[front@[a] as int],
                forall|x: usize, y: usize|
                    x < n ==> (#[trigger] dominated_by@[x as int]@.contains(y) <==> (y < n
                        && dom_at(pop, x, y))),
                forall|x: usize| x < n ==> #[trigger] dominated_by@[x as int]@.no_duplicates(),
            decreases front@.len() - t,
        {
            let a = front[t];
            proof {
                assert(!asg0[a as int]);
                assert(!(exists|s: int| 0 <= s < t && front@[s] == a)) by {
                    if exists|s: int| 0 <= s < t && front@[s] == a {
                        let s = choose|s: int| 0 <= s < t && front@[s] == a;
                        assert(front@[s] < front@[t as int]);
                    }
                }
                assert(!assigned@[a as int]);
                lemma_num_false_update(assigned@, a, n as int);
                assert forall|x: usize| x < n implies open_dominators(
                    pop,
                    assigned@.update(a as int, true),
                    x,
                    n as int,
                ) + (if dom_at(pop, a, x) {
                    1nat
                } else {
                    0nat
                }) == open_dominators(pop, assigned@, x, n as int) by {
                    lemma_open_update(pop, assigned@, a, x, n as int);
                }
            }
            let ghost before = assigned@;
            assigned.set(a, true);
            proof {
                assert forall|x: usize| x < n implies #[trigger] assigned@[x as int] == (asg0[x as int]
                    || exists|s: int| 0 <= s < t + 1 && front@[s] == x) by {
                    if x == a {
                        assert(front@[t as int] == x);
                    } else {
                        assert(assigned@[x as int] == before[x as int]);
                        if exists|s: int| 0 <= s < t + 1 && front@[s] == x {
                            let s = choose|s: int| 0 <= s < t + 1 && front@[s] == x;
                            assert(s < t);
                        }
                    }
                }
            }
            let row = &dominated_by[a];
            proof {
                assert forall|x: usize| x < n implies #[trigger] count@[x as int] == open_dominators(
                    pop,
                    assigned@,
                    x,
                    n as int,
                ) + (if exists|w: int| 0 <= w < row@.len() && row@[w] == x {
                    1nat
                } else {
                    0nat
                }) by {
                    if dom_at(pop, a, x) {
                        assert(row@.contains(x));
                    } else {
                        assert(!row@.contains(x));
                    }
                }
            }
            let mut u: usize = 0;
            while u < row.len()
                invariant
                    n == pop.len(),
                    count@.len() == n,
                    row@ == dominated_by@[a as int]@,
                    a < n,
                    row@.no_duplicates(),
                    forall|y: usize| #[trigger] row@.contains(y) <==> (y < n && dom_at(pop, a, y)),
                    u <= row@.len(),
                    forall|x: usize| x < n ==> #[trigger] count@[x as int] == open_dominators(
                        pop,
                        assigned@,
                        x,
                        n as int,
                    ) + (if exists|w: int| u <= w < row@.len() && row@[w] == x {
                        1nat
                    } else {
                        0nat
                    }),
                decreases row@.len() - u,
            {
                let x = row[u];
                proof {
                    assert(row@.contains(x));
                    assert(exists|w: int| u <= w < row@.len() && row@[w] == x);
                }
                let ghost old_count = count@;
                count.set(x, count[x].saturating_sub(1));
                proof {
                    assert forall|y: usize| y < n implies #[trigger] count@[y as int] == open_dominators(
                        pop,
                        assigned@,
                        y,
                        n as int,
                    ) + (if exists|w: int| u + 1 <= w < row@.len() && row@[w] == y {
                        1nat
                    } else {
                        0nat
                    }) by {
                        if y == x {
                            assert(!exists|w: int| u + 1 <= w < row@.len() && row@[w] == y);
                        } else {
                            assert(count@[y as int] == old_count[y as int]);
                            if exists|w: int| u <= w < row@.len() && row@[w] == y {
                                let w = choose|w: int| u <= w < row@.len() && row@[w] == y;
                                assert(w != u);
                            }
                        }
                    }
                }
                u = u + 1;
            }
            t = t + 1;
        }
        proof {
            lemma_push_keeps_fronts(pop, gf, front@);
            assert forall|x: usize| x < n implies #[trigger] assigned@[x as int] == in_some_front(
                gf.push(front@),
                gf.len() as int + 1,
                x,
            ) by {
                if exists|s: int| 0 <= s < front@.len() && front@[s] == x {
                    let s = choose|s: int| 0 <= s < front@.len() && front@[s] == x;
                    assert(front@.contains(x));
                }
                if front@.contains(x) {
                    let s = choose|s: int| 0 <= s < front@.len() && front@[s] == x;
                    assert(front@[s] == x);
                }
            }
            let g2 = gf.push(front@);
            assert(g2[gf.len() as int] == front@);
            assert forall|x: usize| #[trigger] g2[gf.len() as int].contains(x) <==> ready(
                pop,
                g2,
                gf.len() as int,
                x,
            ) by {
                if front@.contains(x) {
                    let w = choose|w: int| 0 <= w < front@.len() && front@[w] == x;
                    assert(front@[w] < n);
                }
            }
            assert(front_ok(pop, g2, gf.len() as int));
            assert forall|k: int| 0 <= k < g2.len() implies front_ok(pop, g2, k) by {
                if k < gf.len() {
                    assert(front_ok(pop, gf, k));
                }
            }
            gf = g2;
        }
        fronts.push(front);
    }
    proof {
        lemma_deep_view_rows(fronts);
        assert(fronts.deep_view() =~= gf);
    }
    fronts
}

/// No index stands in two fronts.
pub proof fn lemma_fronts_disjoint(pop: Seq<Individual>, fronts: Seq<Seq<usize>>, k: int, l: int, x: usize)
    requires
        is_nondominated_sorting(pop, fronts),
        0 <= k < l < fronts.len(),
    ensures
        !(fronts[k].contains(x) && fronts[l].contains(x)),
{
    assert(front_ok(pop, fronts, l));
    if fronts[l].contains(x) {
        assert(ready(pop, fronts, l, x));
        if fronts[k].contains(x) {
            assert(in_some_front(fronts, l, x));
        }
    }
}

/// The first front is the Pareto set: an index is in it exactly when no individual
/// dominates it.
pub proof fn lemma_first_front_is_pareto_set(pop: Seq<Individual>, fronts: Seq<Seq<usize>>, x: usize)
    requires
        is_nondominated_sorting(pop, fronts),
        x < pop.len(),
    ensures
        (forall|j: usize| j < pop.len() ==> !dom_at(pop, j, x)) <==> (fronts.len() > 0
            && fronts[0].contains(x)),
{
    assert(!in_some_front(fronts, 0, x));
    if forall|j: usize| j < pop.len() ==> !dom_at(pop, j, x) {
        assert(ready(pop, fronts, 0, x));
        if fronts.len() == 0 {
            assert(!ready(pop, fronts, fronts.len() as int, x));
        } else {
            assert(front_ok(pop, fronts, 0));
        }
    }
    if fronts.len() > 0 && fronts[0].contains(x) {
        assert(front_ok(pop, fronts, 0));
        assert(ready(pop, fronts, 0, x));
        assert forall|j: usize| j < pop.len() implies !dom_at(pop, j, x) by {
            if dom_at(pop, j, x) {
                assert(in_some_front(fronts, 0, j));
            }
        }
    }
}

/// Whatever dominates a member of front `k` stands in a front before `k`; in particular
/// no member of a front is dominated by a member of the same or a later front.
pub proof fn lemma_dominators_in_earlier_fronts(
    pop: Seq<Individual>,
    fronts: Seq<Seq<usize>>,
    k: int,
    x: usize,
    j: usize,
)
    requires
        is_nondominated_sorting(pop, fronts),
        0 <= k < fronts.len(),
        fronts[k].contains(x),
        j < pop.len(),
        dom_at(pop, j, x),
    ensures
        exists|l: int| 0 <= l < k && #[trigger] fronts[l].contains(j),
        forall|l: int| k <= l < fronts.len() ==> !(#[trigger] fronts[l].contains(j)),
{
    assert(front_ok(pop, fronts, k));
    assert(ready(pop, fronts, k, x));
    assert(in_some_front(fronts, k, j));
    let l0 = choose|l: int| 0 <= l < k && #[trigger] fronts[l].contains(j);
    assert forall|l: int| k <= l < fronts.len() implies !(#[trigger] fronts[l].contains(j)) by {
        lemma_fronts_disjoint(pop, fronts, l0, l, j);
    }
}

/// Every member of a front after the first is dominated by some member of the front
/// just before it.
pub proof fn lemma_dominated_by_previous_front(
    pop: Seq<Individual>,
    fronts: Seq<Seq<usize>>,
    k: int,
    x: usize,
)
    requires
        is_nondominated_sorting(pop, fronts),
        0 < k < fronts.len(),
        fronts[k].contains(x),
    ensures
        exists|j: usize| #[trigger] fronts[k - 1].contains(j) && dom_at(pop, j, x),
{
    assert(front_ok(pop, fronts, k));
    assert(front_ok(pop, fronts, k - 1));
    assert(ready(pop, fronts, k, x));
    assert(!in_some_front(fronts, k, x));
    assert(!fronts[k - 1].contains(x));
    assert(!ready(pop, fronts, k - 1, x));
    assert(!in_some_front(fronts, k - 1, x)) by {
        if in_some_front(fronts, k - 1, x) {
            let l = choose|l: int| 0 <= l < k - 1 && #[trigger] fronts[l].contains(x);
            assert(in_some_front(fronts, k, x));
        }
    }
    let j = choose|j: usize|
        j < pop.len() && #[trigger] dom_at(pop, j, x) && !in_some_front(fronts, k - 1, j);
    assert(in_some_front(fronts, k, j));
    let l = choose|l: int| 0 <= l < k && #[trigger] fronts[l].contains(j);
    if l < k - 1 {
        assert(in_some_front(fronts, k - 1, j));
    }
    assert(fronts[k - 1].contains(j) && dom_at(pop, j, x));
}

/// Every individual has the same number of objectives, and every objective value is ordered.
pub open spec fn uniform_ordered_fitness(pop: Seq<Individual>) -> bool {
    &&& forall|i: int| 0 <= i < pop.len() ==> #[trigger] pop[i].fitness@.len() == pop[0].fitness@.len()
    &&& forall|i: int, k: int|
        0 <= i < pop.len() && 0 <= k < pop[i].fitness@.len() ==> (#[trigger] pop[i].fitness@[k]) is Some
}

/// Number of indices below `hi` that individual `u` dominates.
spec fn num_dominated(pop: Seq<Individual>, u: usize, hi: int) -> nat
    decreases hi,
{
    if hi <= 0 {
        0
    } else {
        num_dominated(pop, u, hi - 1) + if dom_at(pop, u, (hi - 1) as usize) {
            1nat
        } else {
            0nat
        }
    }
}

proof fn lemma_num_dominated_bound(pop: Seq<Individual>, u: usize, hi: int)
    requires
        hi >= 0,
    ensures
        num_dominated(pop, u, hi) <= hi,
    decreases hi,
{
    if hi > 0 {
        lemma_num_dominated_bound(pop, u, hi - 1);
    }
}

proof fn lemma_dominator_dominates_more(pop: Seq<Individual>, y: usize, x: usize, hi: int)
    requires
        0 <= hi <= pop.len() <= usize::MAX,
        x < pop.len(),
        y < pop.len(),
        uniform_ordered_fitness(pop),
        dom_at(pop, y, x),
    ensures
        num_dominated(pop, y, hi) >= num_dominated(pop, x, hi) + (if x < hi {
            1int
        } else {
            0int
        }),
    decreases hi,
{
    if hi > 0 {
        lemma_dominator_dominates_more(pop, y, x, hi - 1);
        let v = (hi - 1) as usize;
        lemma_dominance_irreflexive(pop[x as int].fitness@);
        if dom_at(pop, x, v) {
            let a = pop[y as int].fitness@;
            let b = pop[x as int].fitness@;
            let c = pop[v as int].fitness@;
            assert(a.len() == pop[0].fitness@.len());
            assert(b.len() == pop[0].fitness@.len());
            assert(c.len() == pop[0].fitness@.len());
            assert forall|k: int| 0 <= k < a.len() implies (#[trigger] a[k]) is Some by {
                assert(pop[y as int].fitness@[k] is Some);
            }
            assert forall|k: int| 0 <= k < b.len() implies (#[trigger] b[k]) is Some by {
                assert(pop[x as int].fitness@[k] is Some);
            }
            assert forall|k: int| 0 <= k < c.len() implies (#[trigger] c[k]) is Some by {
                assert(pop[v as int].fitness@[k] is Some);
            }
            lemma_dominance_transitive(a, b, c);
        }
    }
}

proof fn lemma_unplaced_chain(pop: Seq<Individual>, fronts: Seq<Seq<usize>>, x: usize, steps: nat)
    requires
        is_nondominated_sorting(pop, fronts),
        uniform_ordered_fitness(pop),
        pop.len() <= usize::MAX,
        x < pop.len(),
        !in_some_front(fronts, fronts.len() as int, x),
    ensures
        exists|u: usize|
            u < pop.len() && !in_some_front(fronts, fronts.len() as int, u) && #[trigger] num_dominated(
                pop,
                u,
                pop.len() as int,
            ) >= num_dominated(pop, x, pop.len() as int) + steps,
    decreases steps,
{
    let n = pop.len() as int;
    if steps == 0 {
        assert(num_dominated(pop, x, n) >= num_dominated(pop, x, n) + steps);
    } else {
        assert(!ready(pop, fronts, fronts.len() as int, x));
        let j = choose|j: usize|
            j < pop.len() && #[trigger] dom_at(pop, j, x) && !in_some_front(
                fronts,
                fronts.len() as int,
                j,
            );
        lemma_dominator_dominates_more(pop, j, x, n);
        lemma_unplaced_chain(pop, fronts, j, (steps - 1) as nat);
        let u = choose|u: usize|
            u < pop.len() && !in_some_front(fronts, fronts.len() as int, u) && #[trigger] num_dominated(
                pop,
                u,
                n,
            ) >= num_dominated(pop, j, n) + (steps - 1) as nat;
        assert(num_dominated(pop, u, n) >= num_dominated(pop, x, n) + steps);
    }
}

/// When every individual has the same number of objectives and every objective value is
/// ordered, the fronts cover the whole population.
pub proof fn lemma_fronts_cover_population(pop: Seq<Individual>, fronts: Seq<Seq<usize>>, x: usize)
    requires
        is_nondominated_sorting(pop, fronts),
        uniform_ordered_fitness(pop),
        pop.len() <= usize::MAX,
        x < pop.len(),
    ensures
        exists|k: int| 0 <= k < fronts.len() && #[trigger] fronts[k].contains(x),
{
    if !in_some_front(fronts, fronts.len() as int, x) {
        let n = pop.len() as int;
        lemma_unplaced_chain(pop, fronts, x, (n + 1) as nat);
        let u = choose|u: usize|
            u < pop.len() && !in_some_front(fronts, fronts.len() as int, u) && #[trigger] num_dominated(
                pop,
                u,
                n,
            ) >= num_dominated(pop, x, n) + (n + 1) as nat;
        lemma_num_dominated_bound(pop, u, n);
    }
}

proof fn lemma_increasing_agree_upto(a: Seq<usize>, b: Seq<usize>, i: int)
    requires
        forall|p: int, q: int| 0 <= p < q < a.len() ==> a[p] < a[q],
        forall|p: int, q: int| 0 <= p < q < b.len() ==> b[p] < b[q],
        forall|x: usize| a.contains(x) <==> b.contains(x),
        0 <= i <= a.len(),
        i <= b.len(),
    ensures
        forall|c: int| 0 <= c < i ==> a[c] == b[c],
    decreases i,
{
    if i > 0 {
        lemma_increasing_agree_upto(a, b, i - 1);
        let j = i - 1;
        let x = a[j];
        let y = b[j];
        if x != y {
            assert(a.contains(x));
            let c = choose|c: int| 0 <= c < b.len() && b[c] == x;
            assert(b.contains(y));
            let d = choose|d: int| 0 <= d < a.len() && a[d] == y;
            if c < j {
                assert(a[c] == x);
                assert(a[c] < a[j]);
            }
            if d < j {
                assert(b[d] == y);
                assert(b[d] < b[j]);
            }
            if c > j {
                assert(b[j] < b[c]);
                if d > j {
                    assert(a[j] < a[d]);
                }
            }
        }
    }
}

/// Two strictly increasing sequences with the same elements are equal.
proof fn lemma_increasing_unique(a: Seq<usize>, b: Seq<usize>)
    requires
        forall|p: int, q: int| 0 <= p < q < a.len() ==> a[p] < a[q],
        forall|p: int, q: int| 0 <= p < q < b.len() ==> b[p] < b[q],
        forall|x: usize| a.contains(x) <==> b.contains(x),
    ensures
        a == b,
{
    if a.len() <= b.len() {
        lemma_increasing_agree_upto(a, b, a.len() as int);
        if a.len() < b.len() {
            let x = b[a.len() as int];
            assert(b.contains(x));
            let c = choose|c: int| 0 <= c < a.len() && a[c] == x;
            assert(b[c] == x);
            assert(b[c] < b[a.len() as int]);
        }
    } else {
        lemma_increasing_agree_upto(a, b, b.len() as int);
        let x = a[b.len() as int];
        assert(a.contains(x));
        let c = choose|c: int| 0 <= c < b.len() && b[c] == x;
        assert(a[c] == x);
        assert(a[c] < a[b.len() as int]);
    }
    assert(a =~= b);
}

proof fn lemma_same_prefix_same_ready(
    pop: Seq<Individual>,
    f1: Seq<Seq<usize>>,
    f2: Seq<Seq<usize>>,
    k: int,
)
    requires
        0 <= k <= f1.len(),
        k <= f2.len(),
        forall|l: int| 0 <= l < k ==> f1[l] == f2[l],
    ensures
        forall|x: usize| ready(pop, f1, k, x) == ready(pop, f2, k, x),
{
    assert forall|x: usize| in_some_front(f1, k, x) == in_some_front(f2, k, x) by {
        if in_some_front(f1, k, x) {
            let l = choose|l: int| 0 <= l < k && #[trigger] f1[l].contains(x);
            assert(f2[l] == f1[l]);
        }
        if in_some_front(f2, k, x) {
            let l = choose|l: int| 0 <= l < k && #[trigger] f2[l].contains(x);
            assert(f2[l] == f1[l]);
        }
    }
}

proof fn lemma_sortings_agree_upto(pop: Seq<Individual>, f1: Seq<Seq<usize>>, f2: Seq<Seq<usize>>, k: int)
    requires
        is_nondominated_sorting(pop, f1),
        is_nondominated_sorting(pop, f2),
        0 <= k <= f1.len(),
        k <= f2.len(),
    ensures
        forall|l: int| 0 <= l < k ==> f1[l] == f2[l],
    decreases k,
{
    if k > 0 {
        lemma_sortings_agree_upto(pop, f1, f2, k - 1);
        lemma_same_prefix_same_ready(pop, f1, f2, k - 1);
        assert(front_ok(pop, f1, k - 1));
        assert(front_ok(pop, f2, k - 1));
        assert forall|x: usize| #[trigger] f1[k - 1].contains(x) <==> f2[k - 1].contains(x) by {
            assert(ready(pop, f1, k - 1, x) == ready(pop, f2, k - 1, x));
        }
        lemma_increasing_unique(f1[k - 1], f2[k - 1]);
    }
}

/// The non-dominated sorting of a population is unique.
pub proof fn lemma_nondominated_sorting_unique(pop: Seq<Individual>, f1: Seq<Seq<usize>>, f2: Seq<Seq<usize>>)
    requires
        is_nondominated_sorting(pop, f1),
        is_nondominated_sorting(pop, f2),
    ensures
        f1 == f2,
{
    if f1.len() < f2.len() {
        let m = f1.len() as int;
        lemma_sortings_agree_upto(pop, f1, f2, m);
        lemma_same_prefix_same_ready(pop, f1, f2, m);
        assert(front_ok(pop, f2, m));
        let x = f2[m][0];
        assert(f2[m].contains(x));
        assert(!ready(pop, f1, m, x));
    } else if f2.len() < f1.len() {
        let m = f2.len() as int;
        lemma_sortings_agree_upto(pop, f1, f2, m);
        lemma_same_prefix_same_ready(pop, f1, f2, m);
        assert(front_ok(pop, f1, m));
        let x = f1[m][0];
        assert(f1[m].contains(x));
        assert(!ready(pop, f2, m, x));
    } else {
        lemma_sortings_agree_upto(pop, f1, f2, f1.len() as int);
        assert(f1 =~= f2);
    }
}

/// When no individual dominates another (for instance when no individual has objectives),
/// a non-empty population forms a single front holding every index.
pub proof fn lemma_mutually_nondominated_single_front(pop: Seq<Individual>, fronts: Seq<Seq<usize>>)
    requires
        is_nondominated_sorting(pop, fronts),
        pop.len() > 0,
        forall|i: usize, j: usize| i < pop.len() && j < pop.len() ==> !dom_at(pop, i, j),
    ensures
        fronts.len() == 1,
        forall|x: usize| #[trigger] fronts[0].contains(x) <==> x < pop.len(),
{
    assert(!in_some_front(fronts, 0, 0usize));
    assert(ready(pop, fronts, 0, 0usize));
    assert(fronts.len() > 0);
    assert(front_ok(pop, fronts, 0));
    assert forall|x: usize| #[trigger] fronts[0].contains(x) <==> x < pop.len() by {
        if x < pop.len() {
            assert(!in_some_front(fronts, 0, x));
            assert(ready(pop, fronts, 0, x));
        }
    }
    if fronts.len() > 1 {
        assert(front_ok(pop, fronts, 1));
        let x = fronts[1][0];
        assert(fronts[1].contains(x));
        assert(ready(pop, fronts, 1, x));
        assert(fronts[0].contains(x));
        assert(in_some_front(fronts, 1, x));
    }
}

/// An objective vector without objectives neither dominates nor is dominated.
pub proof fn lemma_no_objectives_no_dominance(a: Seq<Option<i64>>, b: Seq<Option<i64>>)
    requires
        a.len() == 0 || b.len() == 0,
    ensures
        !dominates_spec(a, b),
{
}

/// Non-dominated sorting reads only the fitness: two populations with the same fitness,
/// index by index, have the same sortings.
pub proof fn lemma_sorting_reads_fitness(p1: Seq<Individual>, p2: Seq<Individual>, fronts: Seq<Seq<usize>>)
    requires
        p1.len() == p2.len(),
        forall|i: int| 0 <= i < p1.len() ==> #[trigger] p1[i].fitness@ == p2[i].fitness@,
        is_nondominated_sorting(p1, fronts),
    ensures
        is_nondominated_sorting(p2, fronts),
{
    assert forall|i: usize, j: usize| i < p1.len() && j < p1.len() implies dom_at(p1, i, j) == dom_at(p2, i, j) by {
        assert(p1[i as int].fitness@ == p2[i as int].fitness@);
        assert(p1[j as int].fitness@ == p2[j as int].fitness@);
    }
    assert forall|k: int, x: usize| 0 <= k <= fronts.len() implies ready(p1, fronts, k, x) == ready(p2, fronts, k, x) by {
        if x < p1.len() {
            assert forall|j: usize| j < p1.len() implies dom_at(p1, j, x) == dom_at(p2, j, x) by {}
        }
    }
    assert forall|k: int| 0 <= k < fronts.len() implies front_ok(p2, fronts, k) by {
        assert(front_ok(p1, fronts, k));
        assert forall|x: usize| #[trigger] fronts[k].contains(x) <==> ready(p2, fronts, k, x) by {
            assert(ready(p1, fronts, k, x) == ready(p2, fronts, k, x));
        }
    }
    assert forall|x: usize| !ready(p2, fronts, fronts.len() as int, x) by {
        assert(!ready(p1, fronts, fronts.len() as int, x));
    }
}

} // verus!
