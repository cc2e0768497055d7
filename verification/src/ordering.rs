//! Stable orderings of positions by integer keys, and the order of a front along one objective.
use vstd::prelude::*;
use crate::individual::Individual;

verus! {

/// Position `p` comes before position `q` when ordering by `keys` (ascending, or descending
/// when `descending`), equal keys keeping the order of their positions.
pub open spec fn precedes(keys: Seq<i64>, descending: bool, p: usize, q: usize) -> bool {
    if keys[p as int] == keys[q as int] {
        p < q
    } else if descending {
        keys[p as int] > keys[q as int]
    } else {
        keys[p as int] < keys[q as int]
    }
}

/// `order` lists every position of `keys` once, in the stable order by key.
pub open spec fn is_stable_order(keys: Seq<i64>, descending: bool, order: Seq<usize>) -> bool {
    &&& order.len() == keys.len()
    &&& forall|a: int| 0 <= a < order.len() ==> #[trigger] order[a] < keys.len()
    &&& forall|p: usize| p < keys.len() ==> #[trigger] order.contains(p)
    &&& forall|a: int, b: int| 0 <= a < b < order.len() ==> precedes(keys, descending, order[a], order[b])
}

proof fn lemma_stable_orders_agree_upto(
    keys: Seq<i64>,
    descending: bool,
    o1: Seq<usize>,
    o2: Seq<usize>,
    a: int,
)
    requires
        is_stable_order(keys, descending, o1),
        is_stable_order(keys, descending, o2),
        0 <= a <= o1.len(),
    ensures
        forall|c: int| 0 <= c < a ==> o1[c] == o2[c],
    decreases a,
{
    if a > 0 {
        lemma_stable_orders_agree_upto(keys, descending, o1, o2, a - 1);
        let i = a - 1;
        let x = o1[i];
        let y = o2[i];
        if x != y {
            assert(o1.contains(y));
            let b = choose|b: int| 0 <= b < o1.len() && o1[b] == y;
            if b < i {
                assert(o2[b] == y);
                assert(precedes(keys, descending, o2[b], o2[i]));
            }
            assert(o2.contains(x));
            let c = choose|c: int| 0 <= c < o2.len() && o2[c] == x;
            if c < i {
                assert(o1[c] == x);
                assert(precedes(keys, descending, o1[c], o1[i]));
            }
            assert(precedes(keys, descending, o1[i], o1[b]));
            assert(precedes(keys, descending, o2[i], o2[c]));
        }
    }
}

/// The stable order of positions by key is unique.
pub proof fn lemma_stable_order_unique(keys: Seq<i64>, descending: bool, o1: Seq<usize>, o2: Seq<usize>)
    requires
        is_stable_order(keys, descending, o1),
        is_stable_order(keys, descending, o2),
    ensures
        o1 == o2,
{
    lemma_stable_orders_agree_upto(keys, descending, o1, o2, o1.len() as int);
    assert(o1 =~= o2);
}

proof fn lemma_precedes_order(keys: Seq<i64>, descending: bool, x: usize, y: usize, z: usize)
    ensures
        !precedes(keys, descending, x, x),
        x != y ==> (precedes(keys, descending, x, y) || precedes(keys, descending, y, x)),
        !(precedes(keys, descending, x, y) && precedes(keys, descending, y, x)),
        precedes(keys, descending, x, y) && precedes(keys, descending, y, z) ==> precedes(
            keys,
            descending,
            x,
            z,
        ),
{
}

fn precedes_exec(keys: &Vec<i64>, descending: bool, p: usize, q: usize) -> (r: bool)
    requires
        p < keys@.len(),
        q < keys@.len(),
    ensures
        r == precedes(keys@, descending, p, q),
{
    let kp = keys[p];
    let kq = keys[q];
    if kp == kq {
        p < q
    } else if descending {
        kp > kq
    } else {
        kp < kq
    }
}

/// The positions of `keys` in stable order by key: ascending, or descending when
/// `descending`; equal keys keep the order of their positions.
pub fn stable_order(keys: &Vec<i64>, descending: bool) -> (order: Vec<usize>)
    ensures
        is_stable_order(keys@, descending, order@),
{
    let m = keys.len();
    let mut order: Vec<usize> = Vec::new();
    let mut p: usize = 0;
    while p < m
        invariant
            m == keys@.len(),
            p <= m,
            order@.len() == p,
            forall|a: int| 0 <= a < order@.len() ==> #[trigger] order@[a] < p,
            forall|q: usize| q < p ==> #[trigger] order@.contains(q),
            forall|a: int, b: int|
                0 <= a < b < order@.len() ==> precedes(keys@, descending, order@[a], order@[b]),
        decreases m - p,
    {
        let mut pos: usize = 0;
        while pos < order.len()
            invariant
                m == keys@.len(),
                p < m,
                order@.len() == p,
                forall|a: int| 0 <= a < order@.len() ==> #[trigger] order@[a] < p,
                pos <= order@.len(),
                forall|a: int| 0 <= a < pos ==> precedes(keys@, descending, #[trigger] order@[a], p),
            ensures
                pos <= order@.len(),
                forall|a: int| 0 <= a < pos ==> precedes(keys@, descending, #[trigger] order@[a], p),
                pos < order@.len() ==> !precedes(keys@, descending, order@[pos as int], p),
            decreases order@.len() - pos,
        {
            if !precedes_exec(keys, descending, order[pos], p) {
                break;
            }
            pos = pos + 1;
        }
        let ghost old_order = order@;
        proof {
            if pos < old_order.len() {
                lemma_precedes_order(keys@, descending, old_order[pos as int], p, p);
                assert(precedes(keys@, descending, p, old_order[pos as int]));
                assert forall|a: int| pos <= a < old_order.len() implies precedes(
                    keys@,
                    descending,
                    p,
                    #[trigger] old_order[a],
                ) by {
                    if a > pos {
                        lemma_precedes_order(keys@, descending, p, old_order[pos as int], old_order[a]);
                    }
                }
            }
        }
        order.insert(pos, p);
        proof {
            assert(order@ == old_order.insert(pos as int, p));
            assert forall|a: int, b: int| 0 <= a < b < order@.len() implies precedes(
                keys@,
                descending,
                order@[a],
                order@[b],
            ) by {
                if b < pos {
                    assert(order@[a] == old_order[a] && order@[b] == old_order[b]);
                } else if b == pos {
                    assert(order@[a] == old_order[a]);
                } else if a < pos {
                    assert(order@[a] == old_order[a] && order@[b] == old_order[b - 1]);
                    lemma_precedes_order(keys@, descending, old_order[a], p, old_order[b - 1]);
                } else if a == pos {
                    assert(order@[b] == old_order[b - 1]);
                } else {
                    assert(order@[a] == old_order[a - 1] && order@[b] == old_order[b - 1]);
                }
            }
            assert forall|q: usize| q < p + 1 implies #[trigger] order@.contains(q) by {
                if q == p {
                    assert(order@[pos as int] == p);
                } else {
                    assert(old_order.contains(q));
                    let w = choose|w: int| 0 <= w < old_order.len() && old_order[w] == q;
                    if w < pos {
                        assert(order@[w] == q);
                    } else {
                        assert(order@[w + 1] == q);
                    }
                }
            }
            assert forall|a: int| 0 <= a < order@.len() implies #[trigger] order@[a] < p + 1 by {
                if a < pos {
                    assert(order@[a] == old_order[a]);
                } else if a > pos {
                    assert(order@[a] == old_order[a - 1]);
                }
            }
        }
        p = p + 1;
    }
    order
}

/// The keys of the members of `front` along objective `obj`.
pub open spec fn objective_keys(pop: Seq<Individual>, front: Seq<usize>, obj: int) -> Seq<i64> {
    Seq::new(front.len(), |p: int| pop[front[p] as int].fitness@[obj]->0)
}

/// The positions of the members of `front` in stable ascending order of objective `obj`,
/// as crowding distance walks them.
pub fn objective_order(population: &[Individual], front: &[usize], obj: usize) -> (order: Vec<usize>)
    requires
        forall|p: int|
            0 <= p < front@.len() ==> {
                &&& #[trigger] front@[p] < population@.len()
                &&& obj < population@[front@[p] as int].fitness@.len()
                &&& population@[front@[p] as int].fitness@[obj as int] is Some
            },
    ensures
        is_stable_order(objective_keys(population@, front@, obj as int), false, order@),
{
    let mut keys: Vec<i64> = Vec::new();
    let mut p: usize = 0;
    while p < front.len()
        invariant
            p <= front@.len(),
            keys@.len() == p,
            forall|q: int|
                0 <= q < front@.len() ==> {
                    &&& #[trigger] front@[q] < population@.len()
                    &&& obj < population@[front@[q] as int].fitness@.len()
                    &&& population@[front@[q] as int].fitness@[obj as int] is Some
                },
            forall|q: int| 0 <= q < p ==> #[trigger] keys@[q] == objective_keys(population@, front@, obj as int)[q],
        decreases front@.len() - p,
    {
        let idx = front[p];
        assert(front@[p as int] < population@.len());
        let value = population[idx].fitness[obj];
        match value {
            Some(k) => keys.push(k),
            None => {
                assert(false);
                keys.push(0);
            },
        }
        p = p + 1;
    }
    assert(keys@ =~= objective_keys(population@, front@, obj as int));
    stable_order(&keys, false)
}

} // verus!
