//! The balancing engine: how many whole pies of each kind to bake, and how
//! many pieces of each kind every participant gets.

use vstd::prelude::*;
use vstd::arithmetic::div_mod::lemma_fundamental_div_mod;
use crate::kinds::{Distribution, PizzaAmount, PizzaKindArray};
use crate::orders::{clamped, Order};
use crate::penalty::{
    calculate_cost, cost, distribution_ints, lemma_exact_allocation_costs_nothing, penalty_lt,
    request_ints, Penalty, TotalPenalty,
};

verus! {

/// The kinds that mask `m` (a number below 8) selects: bit `k` selects kind `k`.
pub open spec fn mask_bits(m: int) -> Seq<bool> {
    seq![m % 2 == 1, (m / 2) % 2 == 1, (m / 4) % 2 == 1]
}

/// One slot moved by one piece, up or down, if it is selected.
pub open spec fn step(v: int, on: bool, up: bool) -> int {
    if !on {
        v
    } else if up {
        v + 1
    } else {
        v - 1
    }
}

/// An allocation after moving each selected slot by one piece in its kind's direction.
pub open spec fn shift(a: Seq<int>, offset: Seq<bool>, adds: Seq<bool>) -> Seq<int> {
    seq![
        step(a[0], offset[0], adds[0]),
        step(a[1], offset[1], adds[1]),
        step(a[2], offset[2], adds[2]),
    ]
}

pub open spec fn slot_movable(
    offset: Seq<bool>,
    adds: Seq<bool>,
    deltas: Seq<u64>,
    a: Seq<int>,
    k: int,
) -> bool {
    offset[k] ==> deltas[k] != 0 && (adds[k] || a[k] > 0)
}

/// A move may be made: it selects some kind, only kinds with pieces left to
/// move, and takes no slot below zero.
pub open spec fn admissible(offset: Seq<bool>, adds: Seq<bool>, deltas: Seq<u64>, a: Seq<int>) -> bool {
    &&& offset[0] || offset[1] || offset[2]
    &&& slot_movable(offset, adds, deltas, a, 0)
    &&& slot_movable(offset, adds, deltas, a, 1)
    &&& slot_movable(offset, adds, deltas, a, 2)
}

/// The penalty of the allocation `a` after the move `offset`.
pub open spec fn move_cost(request: Order, a: Seq<int>, offset: Seq<bool>, adds: Seq<bool>) -> Option<
    int,
> {
    cost(request_ints(request.amounts), shift(a, offset, adds), clamped(request.preference as int))
}

/// A move of one participant: the kinds it touches and the penalty of the
/// allocation it leads to.
#[derive(Clone, Copy)]
struct QueueElement {
    offset: PizzaKindArray<bool>,
    penalty: u128,
}

fn apply_offset(a: Distribution, offset: PizzaKindArray<bool>, adds: PizzaKindArray<bool>) -> (r:
    Distribution)
    requires
        forall|k: int|
            0 <= k < 3 && #[trigger] offset@[k] ==> (if adds@[k] {
                a@[k] < u64::MAX
            } else {
                a@[k] > 0
            }),
    ensures
        distribution_ints(r) == shift(distribution_ints(a), offset@, adds@),
{
    let mut r = a;
    let mut k: usize = 0;
    while k < 3
        invariant
            k <= 3,
            forall|j: int| 0 <= j < k ==> r@[j] as int == step(a@[j] as int, offset@[j], adds@[j]),
            forall|j: int| k <= j < 3 ==> r@[j] == a@[j],
            forall|j: int|
                0 <= j < 3 && #[trigger] offset@[j] ==> (if adds@[j] {
                    a@[j] < u64::MAX
                } else {
                    a@[j] > 0
                }),
        decreases 3 - k,
    {
        assert(r@[k as int] == a@[k as int]);
        if offset.0[k] {
            assert(offset@[k as int]);
            if adds.0[k] {
                r.0[k] = r.0[k] + 1;
            } else {
                r.0[k] = r.0[k] - 1;
            }
        }
        k = k + 1;
    }
    assert(distribution_ints(r) =~= shift(distribution_ints(a), offset@, adds@));
    r
}

fn mask_of(m: u8) -> (r: PizzaKindArray<bool>)
    requires
        m < 8,
    ensures
        r@ == mask_bits(m as int),
{
    let r = PizzaKindArray([m % 2 == 1, (m / 2) % 2 == 1, (m / 4) % 2 == 1]);
    assert(r@ =~= mask_bits(m as int));
    r
}

fn is_admissible(
    offset: PizzaKindArray<bool>,
    adds: PizzaKindArray<bool>,
    deltas: PizzaKindArray<u64>,
    a: Distribution,
) -> (r: bool)
    ensures
        r == admissible(offset@, adds@, deltas@, distribution_ints(a)),
{
    let mut k: usize = 0;
    while k < 3
        invariant
            k <= 3,
            forall|j: int|
                0 <= j < k ==> slot_movable(offset@, adds@, deltas@, distribution_ints(a), j),
        decreases 3 - k,
    {
        if offset.0[k] && (deltas.0[k] == 0 || (!adds.0[k] && a.0[k] == 0)) {
            return false;
        }
        k = k + 1;
    }
    offset.0[0] || offset.0[1] || offset.0[2]
}

/// The first mask, in increasing order, whose move is admissible and has the
/// least finite penalty; none when every admissible move is unbounded.
fn best_offset(
    adds: PizzaKindArray<bool>,
    deltas: PizzaKindArray<u64>,
    request: &Order,
    assigned: Distribution,
) -> (r: Option<QueueElement>)
    requires
        forall|k: int| 0 <= k < 3 ==> assigned@[k] < u64::MAX,
    ensures
        r matches Some(e) ==> exists|m: int|
            1 <= m < 8 && e.offset@ == mask_bits(m) && best_mask(
                adds@,
                deltas@,
                *request,
                distribution_ints(assigned),
                m,
                e.penalty as int,
            ),
        r is None ==> forall|m: int|
            1 <= m < 8 && admissible(mask_bits(m), adds@, deltas@, distribution_ints(assigned))
                ==> move_cost(*request, distribution_ints(assigned), mask_bits(m), adds@) is None,
{
    let ghost a = distribution_ints(assigned);
    let mut best: Option<QueueElement> = None;
    let ghost mut best_m: int = 0;
    let mut idx: u8 = 1;
    while idx < 8
        invariant
            1 <= idx <= 8,
            forall|k: int| 0 <= k < 3 ==> assigned@[k] < u64::MAX,
            a == distribution_ints(assigned),
            best is None ==> forall|m: int|
                1 <= m < idx && admissible(mask_bits(m), adds@, deltas@, a) ==> move_cost(
                    *request,
                    a,
                    mask_bits(m),
                    adds@,
                ) is None,
            best matches Some(e) ==> {
                &&& 1 <= best_m < idx
                &&& e.offset@ == mask_bits(best_m)
                &&& admissible(mask_bits(best_m), adds@, deltas@, a)
                &&& move_cost(*request, a, mask_bits(best_m), adds@) == Some(e.penalty as int)
                &&& forall|m: int|
                    1 <= m < idx && admissible(mask_bits(m), adds@, deltas@, a) ==> !penalty_lt(
                        move_cost(*request, a, mask_bits(m), adds@),
                        Some(e.penalty as int),
                    )
                &&& forall|m: int|
                    1 <= m < best_m && admissible(mask_bits(m), adds@, deltas@, a) ==> move_cost(
                        *request,
                        a,
                        mask_bits(m),
                        adds@,
                    ) != Some(e.penalty as int)
            },
        decreases 8 - idx,
    {
        let offset = mask_of(idx);
        if is_admissible(offset, adds, deltas, assigned) {
            let copy = apply_offset(assigned, offset, adds);
            let pen = calculate_cost(request, copy);
            match pen {
                Penalty::Finite(p) => {
                    let better = match best {
                        None => true,
                        Some(e) => p < e.penalty,
                    };
                    if better {
                        best = Some(QueueElement { offset, penalty: p });
                        proof {
                            best_m = idx as int;
                        }
                    }
                },
                Penalty::Infinite => {},
            }
        }
        idx = idx + 1;
    }
    best
}

/// Mask `m` is admissible, its move has the finite penalty `p`, no admissible
/// mask has a smaller one, and no earlier admissible mask has the same one.
pub open spec fn best_mask(
    adds: Seq<bool>,
    deltas: Seq<u64>,
    request: Order,
    a: Seq<int>,
    m: int,
    p: int,
) -> bool {
    &&& admissible(mask_bits(m), adds, deltas, a)
    &&& move_cost(request, a, mask_bits(m), adds) == Some(p)
    &&& forall|m2: int|
        1 <= m2 < 8 && admissible(mask_bits(m2), adds, deltas, a) ==> !penalty_lt(
            move_cost(request, a, mask_bits(m2), adds),
            Some(p),
        )
    &&& forall|m2: int|
        1 <= m2 < m && admissible(mask_bits(m2), adds, deltas, a) ==> move_cost(
            request,
            a,
            mask_bits(m2),
            adds,
        ) != Some(p)
}

/// The sum of slot `k` over all allocations.
pub open spec fn column_sum(d: Seq<Distribution>, k: int) -> int
    decreases d.len(),
{
    if d.len() == 0 {
        0
    } else {
        column_sum(d.drop_last(), k) + d.last()@[k]
    }
}

/// The sum of slot `k` over all requests.
pub open spec fn request_column(orders: Seq<Order>, k: int) -> int
    decreases orders.len(),
{
    if orders.len() == 0 {
        0
    } else {
        request_column(orders.drop_last(), k) + orders.last().amounts@[k]
    }
}

proof fn lemma_column_update(d: Seq<Distribution>, i: int, v: Distribution, k: int)
    requires
        0 <= i < d.len(),
    ensures
        column_sum(d.update(i, v), k) == column_sum(d, k) - d[i]@[k] + v@[k],
    decreases d.len(),
{
    let u = d.update(i, v);
    if i == d.len() - 1 {
        assert(u.drop_last() =~= d.drop_last());
    } else {
        assert(u.drop_last() =~= d.drop_last().update(i, v));
        lemma_column_update(d.drop_last(), i, v, k);
    }
}

pub open spec fn delta_sum(d: Seq<u64>) -> int {
    d[0] + d[1] + d[2]
}

/// An entry whose move touches a kind with no pieces left to move.
spec fn stale(e: QueueElement, deltas: Seq<u64>) -> bool {
    touches_empty(e.offset@, deltas)
}

spec fn entry_weight(o: Option<QueueElement>, deltas: Seq<u64>) -> nat {
    match o {
        None => 0,
        Some(e) => if stale(e, deltas) {
            2
        } else {
            1
        },
    }
}

spec fn weight(q: Seq<Option<QueueElement>>, deltas: Seq<u64>) -> nat
    decreases q.len(),
{
    if q.len() == 0 {
        0
    } else {
        weight(q.drop_last(), deltas) + entry_weight(q.last(), deltas)
    }
}

proof fn lemma_weight_update(q: Seq<Option<QueueElement>>, i: int, v: Option<QueueElement>, deltas: Seq<u64>)
    requires
        0 <= i < q.len(),
    ensures
        weight(q.update(i, v), deltas) == weight(q, deltas) - entry_weight(q[i], deltas) + entry_weight(v, deltas),
    decreases q.len(),
{
    let u = q.update(i, v);
    if i == q.len() - 1 {
        assert(u.drop_last() =~= q.drop_last());
    } else {
        assert(u.drop_last() =~= q.drop_last().update(i, v));
        lemma_weight_update(q.drop_last(), i, v, deltas);
    }
}

proof fn lemma_weight_bound(q: Seq<Option<QueueElement>>, deltas: Seq<u64>)
    ensures
        weight(q, deltas) <= 2 * q.len(),
    decreases q.len(),
{
    if q.len() > 0 {
        lemma_weight_bound(q.drop_last(), deltas);
    }
}

/// A queued move that is still consistent with the participant's allocation `a`.
spec fn entry_ok(o: Option<QueueElement>, request: Order, a: Seq<int>, adds: Seq<bool>) -> bool {
    o matches Some(e) ==> {
        &&& e.offset@[0] || e.offset@[1] || e.offset@[2]
        &&& forall|k: int| 0 <= k < 3 && #[trigger] e.offset@[k] ==> adds[k] || a[k] > 0
        &&& move_cost(request, a, e.offset@, adds) == Some(e.penalty as int)
    }
}

/// Slot `k` of `a` moved from the request `r` only in the direction `up`, by
/// at most `moved` pieces.
pub open spec fn moved_within(r: int, a: int, up: bool, moved: int) -> bool {
    if up {
        r <= a <= r + moved
    } else {
        r - moved <= a <= r
    }
}

/// Entry `e` at index `i` is popped no later than entry `o` at index `j`.
spec fn precedes(e: QueueElement, i: int, o: Option<QueueElement>, j: int) -> bool {
    o matches Some(f) ==> e.penalty < f.penalty || (e.penalty == f.penalty && i <= j)
}

/// The queued move with the least penalty, the lowest index among equals.
fn pop_best(queue: &Vec<Option<QueueElement>>) -> (r: Option<usize>)
    ensures
        r matches Some(i) ==> {
            &&& i < queue@.len()
            &&& queue@[i as int] matches Some(e) && forall|j: int|
                0 <= j < queue@.len() ==> precedes(e, i as int, #[trigger] queue@[j], j)
        },
        r is None ==> forall|j: int| 0 <= j < queue@.len() ==> queue@[j] is None,
        r matches Some(i) ==> pop_index(queue@.map_values(|o| move_model(o))) == Some(i as int),
        r is None ==> pop_index(queue@.map_values(|o| move_model(o))) is None,
{
    let mut best: Option<usize> = None;
    let mut j: usize = 0;
    while j < queue.len()
        invariant
            j <= queue@.len(),
            best matches Some(i) ==> {
                &&& i < j
                &&& queue@[i as int] matches Some(e) && forall|l: int|
                    0 <= l < j ==> precedes(e, i as int, #[trigger] queue@[l], l)
            },
            best is None ==> forall|l: int| 0 <= l < j ==> queue@[l] is None,
        decreases queue@.len() - j,
    {
        match queue[j] {
            Some(f) => {
                match best {
                    None => {
                        best = Some(j);
                    },
                    Some(i) => {
                        let e = queue[i].unwrap();
                        if f.penalty < e.penalty {
                            best = Some(j);
                        }
                    },
                }
            },
            None => {},
        }
        j = j + 1;
    }
    proof {
        reveal(pop_index);
        let q = queue@.map_values(|o| move_model(o));
        if let Some(i) = best {
            assert forall|l: int| 0 <= l < q.len() implies (#[trigger] q[l] matches Some(f) ==> q[i as int].unwrap().1 < f.1 || (
                q[i as int].unwrap().1 == f.1 && i <= l)) by {
                assert(precedes(queue@[i as int].unwrap(), i as int, queue@[l], l));
            }
            assert(pops_first(q, i as int));
            let c = choose|c: int| pops_first(q, c);
            lemma_pops_first_unique(q, i as int, c);
        } else {
            if exists|c: int| pops_first(q, c) {
                let c = choose|c: int| pops_first(q, c);
                assert(queue@[c] is None);
            }
        }
    }
    best
}

/// What one rounding candidate hands back: an allocation per request, each
/// column moved by exactly its delta in its kind's direction, every slot
/// moved only in that direction, and every participant at a finite penalty.
pub open spec fn candidate_valid(
    requests: Seq<Order>,
    adds: Seq<bool>,
    deltas0: Seq<u64>,
    d: Seq<Distribution>,
) -> bool {
    &&& d.len() == requests.len()
    &&& forall|k: int|
        0 <= k < 3 ==> #[trigger] column_sum(d, k) == request_column(requests, k) + (if adds[k] {
            deltas0[k] as int
        } else {
            -(deltas0[k] as int)
        })
    &&& forall|i: int, k: int|
        0 <= i < d.len() && 0 <= k < 3 ==> moved_within(
            requests[i].amounts@[k] as int,
            #[trigger] d[i]@[k] as int,
            adds[k],
            deltas0[k] as int,
        )
    &&& forall|i: int|
        0 <= i < d.len() ==> cost(
            request_ints(requests[i].amounts),
            distribution_ints(#[trigger] d[i]),
            clamped(requests[i].preference as int),
        ) is Some
}

fn widen(a: PizzaKindArray<u32>) -> (r: Distribution)
    ensures
        distribution_ints(r) == request_ints(a),
{
    let r = PizzaKindArray([a.0[0] as u64, a.0[1] as u64, a.0[2] as u64]);
    assert(distribution_ints(r) =~= request_ints(a));
    r
}

proof fn lemma_fresh_entry(
    adds: Seq<bool>,
    deltas: Seq<u64>,
    request: Order,
    a: Seq<int>,
    o: Option<QueueElement>,
)
    requires
        o matches Some(e) ==> exists|m: int|
            1 <= m < 8 && e.offset@ == mask_bits(m) && best_mask(
                adds,
                deltas,
                request,
                a,
                m,
                e.penalty as int,
            ),
    ensures
        entry_ok(o, request, a, adds),
        o matches Some(e) ==> !stale(e, deltas),
{
    if let Some(e) = o {
        let m = choose|m: int|
            1 <= m < 8 && e.offset@ == mask_bits(m) && best_mask(
                adds,
                deltas,
                request,
                a,
                m,
                e.penalty as int,
            );
        assert(slot_movable(e.offset@, adds, deltas, a, 0));
        assert(slot_movable(e.offset@, adds, deltas, a, 1));
        assert(slot_movable(e.offset@, adds, deltas, a, 2));
    }
}

/// The allocations of a descent: columns moved by what was taken from the
/// deltas, slots moved only in their kind's direction, penalties finite.
spec fn alloc_inv(
    requests: Seq<Order>,
    adds: Seq<bool>,
    deltas0: Seq<u64>,
    next: Seq<Distribution>,
    deltas: Seq<u64>,
) -> bool {
    &&& next.len() == requests.len()
    &&& forall|k: int| 0 <= k < 3 ==> #[trigger] deltas[k] <= deltas0[k] <= u32::MAX
    &&& forall|k: int|
        0 <= k < 3 ==> #[trigger] column_sum(next, k) == request_column(requests, k) + (if adds[k] {
            deltas0[k] - deltas[k]
        } else {
            deltas[k] - deltas0[k]
        })
    &&& forall|j: int, k: int|
        0 <= j < next.len() && 0 <= k < 3 ==> moved_within(
            requests[j].amounts@[k] as int,
            #[trigger] next[j]@[k] as int,
            adds[k],
            deltas0[k] - deltas[k],
        )
    &&& forall|j: int|
        0 <= j < next.len() ==> cost(
            request_ints(requests[j].amounts),
            distribution_ints(#[trigger] next[j]),
            clamped(requests[j].preference as int),
        ) is Some
}

/// One queued move, at most, per participant, consistent with its allocation.
spec fn queue_inv(
    requests: Seq<Order>,
    adds: Seq<bool>,
    next: Seq<Distribution>,
    queue: Seq<Option<QueueElement>>,
) -> bool {
    &&& queue.len() == requests.len()
    &&& forall|j: int|
        0 <= j < queue.len() ==> entry_ok(
            #[trigger] queue[j],
            requests[j],
            distribution_ints(next[j]),
            adds,
        )
}

spec fn descent_inv(
    requests: Seq<Order>,
    adds: Seq<bool>,
    deltas0: Seq<u64>,
    next: Seq<Distribution>,
    queue: Seq<Option<QueueElement>>,
    deltas: Seq<u64>,
) -> bool {
    alloc_inv(requests, adds, deltas0, next, deltas) && queue_inv(requests, adds, next, queue)
}

/// The descent state that exec values stand for.
spec fn model_of(
    next: Seq<Distribution>,
    queue: Seq<Option<QueueElement>>,
    deltas: Seq<u64>,
    pen: TotalPenalty,
) -> DescentModel {
    DescentModel {
        next: next.map_values(|d: Distribution| distribution_ints(d)),
        queue: queue.map_values(|o: Option<QueueElement>| move_model(o)),
        deltas: deltas,
        worst: pen.worst@.unwrap(),
        sum: pen.average@.unwrap(),
    }
}

spec fn measure(queue: Seq<Option<QueueElement>>, deltas: Seq<u64>) -> int {
    delta_sum(deltas) * (2 * queue.len() + 1) + weight(queue, deltas)
}

/// Every allocation starts at its request, with its best move queued.
fn seed(requests: &Vec<Order>, adds: PizzaKindArray<bool>, deltas0: PizzaKindArray<u64>) -> (r: (
    Vec<Distribution>,
    Vec<Option<QueueElement>>,
))
    requires
        forall|k: int| 0 <= k < 3 ==> deltas0@[k] <= u32::MAX,
    ensures
        descent_inv(requests@, adds@, deltas0@, r.0@, r.1@, deltas0@),
        forall|j: int|
            0 <= j < r.0@.len() ==> distribution_ints(#[trigger] r.0@[j]) == request_ints(
                requests@[j].amounts,
            ),
        r.0@.map_values(|d| distribution_ints(d)) == seed_model(requests@, adds@, deltas0@).next,
        r.1@.map_values(|o| move_model(o)) == seed_model(requests@, adds@, deltas0@).queue,
{
    let n = requests.len();
    let mut next: Vec<Distribution> = Vec::new();
    let mut queue: Vec<Option<QueueElement>> = Vec::new();
    let mut i: usize = 0;
    while i < n
        invariant
            n == requests@.len(),
            i <= n,
            next@.len() == i,
            queue@.len() == i,
            forall|j: int|
                0 <= j < i ==> distribution_ints(#[trigger] next@[j]) == request_ints(
                    requests@[j].amounts,
                ),
            forall|j: int|
                0 <= j < i ==> entry_ok(
                    #[trigger] queue@[j],
                    requests@[j],
                    distribution_ints(next@[j]),
                    adds@,
                ),
            forall|j: int|
                0 <= j < i ==> move_model(#[trigger] queue@[j]) == best_move(
                    adds@,
                    deltas0@,
                    requests@[j],
                    request_ints(requests@[j].amounts),
                ),
            forall|k: int|
                0 <= k < 3 ==> #[trigger] column_sum(next@, k) == request_column(
                    requests@.take(i as int),
                    k,
                ),
        decreases n - i,
    {
        let a = widen(requests[i].amounts);
        let e = best_offset(adds, deltas0, &requests[i], a);
        proof {
            lemma_fresh_entry(adds@, deltas0@, requests@[i as int], distribution_ints(a), e);
            lemma_best_offset_model(adds@, deltas0@, requests@[i as int], distribution_ints(a), e);
        }
        let ghost prev = next@;
        next.push(a);
        queue.push(e);
        proof {
            assert(next@.drop_last() =~= prev);
            assert(requests@.take(i + 1).drop_last() =~= requests@.take(i as int));
            assert forall|k: int| 0 <= k < 3 implies #[trigger] column_sum(next@, k)
                == request_column(requests@.take(i + 1), k) by {
                assert(column_sum(next@, k) == column_sum(prev, k) + a@[k]);
                assert(request_column(requests@.take(i + 1), k) == request_column(
                    requests@.take(i as int),
                    k,
                ) + requests@[i as int].amounts@[k]);
                assert(a@[k] == requests@[i as int].amounts@[k]) by {
                    assert(distribution_ints(a)[k] == request_ints(requests@[i as int].amounts)[k]);
                }
            }
        }
        i = i + 1;
    }
    proof {
        assert(requests@.take(n as int) =~= requests@);
        assert forall|j: int| 0 <= j < n implies cost(
            request_ints(requests@[j].amounts),
            distribution_ints(#[trigger] next@[j]),
            clamped(requests@[j].preference as int),
        ) is Some by {
            lemma_exact_allocation_costs_nothing(
                request_ints(requests@[j].amounts),
                clamped(requests@[j].preference as int),
            );
        }
        assert forall|j: int, k: int| 0 <= j < n && 0 <= k < 3 implies moved_within(
            requests@[j].amounts@[k] as int,
            #[trigger] next@[j]@[k] as int,
            adds@[k],
            deltas0@[k] - deltas0@[k],
        ) by {
            assert(distribution_ints(next@[j])[k] == request_ints(requests@[j].amounts)[k]);
        }
        let sm = seed_model(requests@, adds@, deltas0@);
        assert(next@.map_values(|d| distribution_ints(d)) =~= sm.next);
        assert(queue@.map_values(|o| move_model(o)) =~= sm.queue);
    }
    (next, queue)
}

/// Makes the move `e` of participant `i`: one piece per selected kind.
fn apply_move(
    requests: &Vec<Order>,
    adds: PizzaKindArray<bool>,
    deltas0: PizzaKindArray<u64>,
    next: &mut Vec<Distribution>,
    deltas: &mut PizzaKindArray<u64>,
    pen: &mut TotalPenalty,
    i: usize,
    e: QueueElement,
)
    requires
        i < old(next)@.len(),
        alloc_inv(requests@, adds@, deltas0@, old(next)@, old(deltas)@),
        entry_ok(Some(e), requests@[i as int], distribution_ints(old(next)@[i as int]), adds@),
        !stale(e, old(deltas)@),
        old(pen).worst@ is Some,
        old(pen).average@ is Some,
    ensures
        final(next)@ == old(next)@.update(i as int, final(next)@[i as int]),
        distribution_ints(final(next)@[i as int]) == shift(
            distribution_ints(old(next)@[i as int]),
            e.offset@,
            adds@,
        ),
        final(deltas)@ == seq![
            taken(old(deltas)@[0], e.offset@[0]),
            taken(old(deltas)@[1], e.offset@[1]),
            taken(old(deltas)@[2], e.offset@[2]),
        ],
        final(pen).worst@ == Some(
            if old(pen).worst@.unwrap() < e.penalty {
                e.penalty as int
            } else {
                old(pen).worst@.unwrap()
            },
        ),
        final(pen).average@ == Some(sum_after(old(pen).average@.unwrap(), e.penalty as int, count_on(e.offset@))),
        alloc_inv(requests@, adds@, deltas0@, final(next)@, final(deltas)@),
        delta_sum(final(deltas)@) < delta_sum(old(deltas)@),
        final(pen).worst@ is Some,
        final(pen).average@ is Some,
{
    let old_a = next[i];
    proof {
        assert forall|k: int| 0 <= k < 3 && #[trigger] e.offset@[k] implies (if adds@[k] {
            old_a@[k] < u64::MAX
        } else {
            old_a@[k] > 0
        }) by {
            assert(moved_within(
                requests@[i as int].amounts@[k] as int,
                next@[i as int]@[k] as int,
                adds@[k],
                deltas0@[k] - deltas@[k],
            ));
        }
    }
    let new_a = apply_offset(old_a, e.offset, adds);
    let ghost prev = next@;
    let ghost d_before = deltas@;
    let ghost m0 = pen.average@.unwrap();
    let ghost w0 = pen.worst@.unwrap();
    let ghost p = e.penalty as int;
    assert(e.offset@[0] || e.offset@[1] || e.offset@[2]);
    assert(sum_after(m0, p, 0) == m0);
    next.set(i, new_a);
    if e.offset.0[0] {
        deltas.0[0] = deltas.0[0] - 1;
        pen.add(e.penalty);
    }
    let ghost c0: int = if e.offset@[0] {
        1
    } else {
        0
    };
    assert(pen.average@ == Some(sum_after(m0, p, c0)));
    if e.offset.0[1] {
        deltas.0[1] = deltas.0[1] - 1;
        pen.add(e.penalty);
    }
    let ghost c1: int = c0 + if e.offset@[1] {
        1int
    } else {
        0
    };
    assert(pen.average@ == Some(sum_after(m0, p, c1)));
    if e.offset.0[2] {
        deltas.0[2] = deltas.0[2] - 1;
        pen.add(e.penalty);
    }
    let ghost c2: int = c1 + if e.offset@[2] {
        1int
    } else {
        0
    };
    assert(pen.average@ == Some(sum_after(m0, p, c2)));
    assert(c2 == count_on(e.offset@));
    assert(pen.worst@ == Some(if w0 < p { p } else { w0 }));
    assert(deltas@ =~= seq![
        taken(d_before[0], e.offset@[0]),
        taken(d_before[1], e.offset@[1]),
        taken(d_before[2], e.offset@[2]),
    ]);
    proof {
        assert forall|k: int| 0 <= k < 3 implies new_a@[k] as int == step(
            old_a@[k] as int,
            e.offset@[k],
            adds@[k],
        ) && deltas@[k] == d_before[k] - (if e.offset@[k] {
            1int
        } else {
            0
        }) by {
            assert(distribution_ints(new_a)[k] == shift(distribution_ints(old_a), e.offset@, adds@)[k]);
        }
        assert forall|k: int| 0 <= k < 3 implies #[trigger] column_sum(next@, k) == request_column(
            requests@,
            k,
        ) + (if adds@[k] {
            deltas0@[k] - deltas@[k]
        } else {
            deltas@[k] - deltas0@[k]
        }) by {
            lemma_column_update(prev, i as int, new_a, k);
            assert(column_sum(prev, k) == request_column(requests@, k) + (if adds@[k] {
                deltas0@[k] - d_before[k]
            } else {
                d_before[k] - deltas0@[k]
            }));
        }
        assert forall|j: int, k: int| 0 <= j < next@.len() && 0 <= k < 3 implies moved_within(
            requests@[j].amounts@[k] as int,
            #[trigger] next@[j]@[k] as int,
            adds@[k],
            deltas0@[k] - deltas@[k],
        ) by {
            assert(moved_within(
                requests@[j].amounts@[k] as int,
                prev[j]@[k] as int,
                adds@[k],
                deltas0@[k] - d_before[k],
            ));
        }
        assert(distribution_ints(new_a) == shift(distribution_ints(old_a), e.offset@, adds@));
        assert forall|j: int| 0 <= j < next@.len() implies cost(
            request_ints(requests@[j].amounts),
            distribution_ints(#[trigger] next@[j]),
            clamped(requests@[j].preference as int),
        ) is Some by {
            if j != i {
                assert(next@[j] == prev[j]);
            }
        }
        assert(next@ =~= prev.update(i as int, next@[i as int]));
    }
}

/// One step of the descent: pop the cheapest queued move, make it unless it
/// touches a kind with no pieces left to move, and queue the participant's
/// next best move. False when the queue is empty.
fn descend_once(
    requests: &Vec<Order>,
    adds: PizzaKindArray<bool>,
    deltas0: PizzaKindArray<u64>,
    next: &mut Vec<Distribution>,
    queue: &mut Vec<Option<QueueElement>>,
    deltas: &mut PizzaKindArray<u64>,
    pen: &mut TotalPenalty,
) -> (progress: bool)
    requires
        descent_inv(requests@, adds@, deltas0@, old(next)@, old(queue)@, old(deltas)@),
        old(pen).worst@ is Some,
        old(pen).average@ is Some,
    ensures
        progress ==> descent_inv(requests@, adds@, deltas0@, final(next)@, final(queue)@, final(deltas)@),
        progress ==> measure(final(queue)@, final(deltas)@) < measure(old(queue)@, old(deltas)@),
        progress ==> descent_step(
            requests@,
            adds@,
            model_of(old(next)@, old(queue)@, old(deltas)@, *old(pen)),
        ) == Some(model_of(final(next)@, final(queue)@, final(deltas)@, *final(pen))),
        !progress ==> descent_step(
            requests@,
            adds@,
            model_of(old(next)@, old(queue)@, old(deltas)@, *old(pen)),
        ) is None,
        final(pen).worst@ is Some,
        final(pen).average@ is Some,
{
    reveal(descent_step);
    let ghost m0 = model_of(next@, queue@, deltas@, *pen);
    let popped = pop_best(queue);
    let i = match popped {
        None => {
            return false;
        },
        Some(i) => i,
    };
    let e = queue[i].unwrap();
    let stale_now = (e.offset.0[0] && deltas.0[0] == 0) || (e.offset.0[1] && deltas.0[1] == 0) || (
    e.offset.0[2] && deltas.0[2] == 0);
    assert(m0.queue[i as int] == move_model(queue@[i as int]));
    assert(stale_now == touches_empty(e.offset@, deltas@));
    let ghost q_before = queue@;
    let ghost d_before = deltas@;
    let ghost next_before = next@;
    let ghost n = q_before.len();
    proof {
        assert(entry_ok(q_before[i as int], requests@[i as int], distribution_ints(next@[i as int]), adds@));
        lemma_weight_update(q_before, i as int, None, d_before);
    }
    queue.set(i, None);
    if !stale_now {
        apply_move(requests, adds, deltas0, next, deltas, pen, i, e);
    }
    let cur = next[i];
    proof {
        assert forall|k: int| 0 <= k < 3 implies cur@[k] < u64::MAX by {
            assert(moved_within(
                requests@[i as int].amounts@[k] as int,
                next@[i as int]@[k] as int,
                adds@[k],
                deltas0@[k] - deltas@[k],
            ));
        }
    }
    let ghost t = if stale_now {
        m0
    } else {
        make_move(adds@, m0, i as int, e.offset@, e.penalty as int)
    };
    proof {
        let nm = next@.map_values(|d: Distribution| distribution_ints(d));
        assert(nm =~= t.next) by {
            if !stale_now {
                assert forall|j: int| 0 <= j < next@.len() implies #[trigger] nm[j] == t.next[j] by {
                    if j != i {
                        assert(next@[j] == next_before[j]);
                    }
                }
            }
        }
        assert(deltas@ == t.deltas);
        assert(pen.worst@ == Some(t.worst));
        assert(pen.average@ == Some(t.sum));
    }
    let fresh = best_offset(adds, *deltas, &requests[i], cur);
    proof {
        lemma_fresh_entry(adds@, deltas@, requests@[i as int], distribution_ints(cur), fresh);
        lemma_weight_update(queue@, i as int, fresh, deltas@);
        lemma_best_offset_model(adds@, deltas@, requests@[i as int], distribution_ints(cur), fresh);
        assert(t.next[i as int] == distribution_ints(cur));
    }
    let ghost q_mid = queue@;
    queue.set(i, fresh);
    proof {
        assert forall|j: int| 0 <= j < queue@.len() implies entry_ok(
            #[trigger] queue@[j],
            requests@[j],
            distribution_ints(next@[j]),
            adds@,
        ) by {
            if j != i {
                assert(queue@[j] == q_before[j]);
                assert(next@[j] == next_before[j]);
            }
        }
        lemma_weight_bound(queue@, deltas@);
        let w = weight(queue@, deltas@);
        let ds = delta_sum(deltas@);
        let m1 = model_of(next@, queue@, deltas@, *pen);
        assert(m1.queue =~= t.queue.update(
            i as int,
            best_move(adds@, t.deltas, requests@[i as int], t.next[i as int]),
        ));
        assert(m1 == DescentModel {
            queue: t.queue.update(i as int, best_move(adds@, t.deltas, requests@[i as int], t.next[i as int])),
            ..t
        });
        if !stale_now {
            let db = delta_sum(d_before);
            let wb = weight(q_before, d_before);
            assert(measure(q_before, d_before) == db * (2 * n + 1) + wb);
            assert(ds * (2 * n + 1) + w < db * (2 * n + 1) + wb) by (nonlinear_arith)
                requires
                    w <= 2 * n,
                    db >= ds + 1,
                    wb >= 0,
                    ds >= 0,
            ;
        }
    }
    true
}

/// Greedy descent for one rounding candidate: starting from the requests,
/// repeatedly make the cheapest queued move until every delta is used up.
/// None when the moves run out first.
fn run_candidate(
    requests: &Vec<Order>,
    adds: PizzaKindArray<bool>,
    deltas0: PizzaKindArray<u64>,
) -> (r: Option<(TotalPenalty, Vec<Distribution>)>)
    requires
        forall|k: int| 0 <= k < 3 ==> deltas0@[k] <= u32::MAX,
    ensures
        r matches Some((pen, d)) ==> {
            &&& candidate_valid(requests@, adds@, deltas0@, d@)
            &&& pen.worst@ is Some
            &&& pen.average@ is Some
        },
        delta_sum(deltas0@) == 0 ==> (r matches Some((pen, d)) && pen.worst@ == Some(0int)
            && pen.average@ == Some(0int) && forall|j: int|
            0 <= j < d@.len() ==> distribution_ints(#[trigger] d@[j]) == request_ints(
                requests@[j].amounts,
            )),
        r matches Some((pen, d)) ==> (candidate_outcome(requests@, adds@, deltas0@) matches Some(m)
            && m.next == d@.map_values(|x: Distribution| distribution_ints(x)) && pen.worst@ == Some(
            m.worst,
        ) && pen.average@ == Some(m.sum)),
        r is None ==> candidate_outcome(requests@, adds@, deltas0@) is None,
{
    let (mut next, mut queue) = seed(requests, adds, deltas0);
    let ghost start = next@;
    let mut deltas = deltas0;
    let mut pen = TotalPenalty::zero();
    let ghost mut fuel: nat = descent_fuel(requests@, deltas0@);
    proof {
        reveal(candidate_outcome);
        let n = requests@.len() as int;
        let ds = delta_sum(deltas0@);
        lemma_weight_bound(queue@, deltas@);
        let w = weight(queue@, deltas@);
        assert(ds * (2 * n + 1) + w < (ds + 1) * (2 * n + 1)) by (nonlinear_arith)
            requires
                w <= 2 * n,
                ds >= 0,
                n >= 0,
        ;
        assert(model_of(next@, queue@, deltas@, pen) == seed_model(requests@, adds@, deltas0@));
    }
    while deltas.0[0] != 0 || deltas.0[1] != 0 || deltas.0[2] != 0
        invariant
            descent_inv(requests@, adds@, deltas0@, next@, queue@, deltas@),
            pen.worst@ is Some,
            pen.average@ is Some,
            delta_sum(deltas0@) == 0 ==> next@ == start && pen.worst@ == Some(0int)
                && pen.average@ == Some(0int),
            forall|j: int|
                0 <= j < start.len() ==> distribution_ints(#[trigger] start[j]) == request_ints(
                    requests@[j].amounts,
                ),
            descent_run(requests@, adds@, model_of(next@, queue@, deltas@, pen), fuel)
                == candidate_outcome(requests@, adds@, deltas0@),
            fuel > measure(queue@, deltas@),
        decreases measure(queue@, deltas@),
    {
        proof {
            assert(delta_sum(deltas@) * (2 * queue@.len() + 1) >= 0) by (nonlinear_arith)
                requires
                    delta_sum(deltas@) >= 0,
            ;
            assert(delta_sum(deltas@) != 0);
        }
        let ghost before = model_of(next@, queue@, deltas@, pen);
        proof {
            reveal(descent_run);
        }
        if !descend_once(requests, adds, deltas0, &mut next, &mut queue, &mut deltas, &mut pen) {
            assert(descent_run(requests@, adds@, before, fuel) is None);
            return None;
        }
        proof {
            fuel = (fuel - 1) as nat;
        }
    }
    proof {
        reveal(descent_run);
        assert(deltas@ =~= seq![0u64, 0u64, 0u64]);
    }
    Some((pen, next))
}

/// The total demand of kind `k` rounded to whole pies: the pieces to move
/// for the candidate that rounds it up (`up`) or down.
pub open spec fn rounding_delta(total: int, up: bool, pieces_per_whole: int) -> int {
    if up {
        pieces_per_whole - total % pieces_per_whole
    } else {
        total % pieces_per_whole
    }
}

fn kind_totals(requests: &Vec<Order>) -> (t: PizzaKindArray<u64>)
    requires
        requests@.len() <= u32::MAX,
    ensures
        forall|k: int| 0 <= k < 3 ==> #[trigger] t@[k] == request_column(requests@, k),
        forall|k: int| 0 <= k < 3 ==> #[trigger] t@[k] < u64::MAX,
{
    let mut t: PizzaKindArray<u64> = PizzaKindArray([0, 0, 0]);
    let mut i: usize = 0;
    while i < requests.len()
        invariant
            i <= requests@.len() <= u32::MAX,
            forall|k: int|
                0 <= k < 3 ==> #[trigger] t@[k] == request_column(requests@.take(i as int), k),
            forall|k: int| 0 <= k < 3 ==> #[trigger] t@[k] <= i * (u32::MAX as int),
        decreases requests@.len() - i,
    {
        let a = requests[i].amounts;
        proof {
            assert(requests@.take(i + 1).drop_last() =~= requests@.take(i as int));
            lemma_mul_bound(i as int + 1, u32::MAX as int);
            assert forall|j: int| 0 <= j < 3 implies #[trigger] request_column(requests@.take(i + 1), j)
                == request_column(requests@.take(i as int), j) + a@[j] by {
                assert(requests@.take(i + 1).last() == requests@[i as int]);
            }
        }
        let mut k: usize = 0;
        while k < 3
            invariant
                k <= 3,
                i < requests@.len() <= u32::MAX,
                a == requests@[i as int].amounts,
                (i + 1) * (u32::MAX as int) <= u64::MAX,
                forall|j: int|
                    0 <= j < 3 ==> #[trigger] request_column(requests@.take(i + 1), j)
                        == request_column(requests@.take(i as int), j) + a@[j],
                forall|j: int|
                    0 <= j < k ==> #[trigger] t@[j] == request_column(requests@.take(i + 1), j),
                forall|j: int|
                    k <= j < 3 ==> #[trigger] t@[j] == request_column(requests@.take(i as int), j),
                forall|j: int| 0 <= j < k ==> #[trigger] t@[j] <= (i + 1) * (u32::MAX as int),
                forall|j: int| k <= j < 3 ==> #[trigger] t@[j] <= i * (u32::MAX as int),
            decreases 3 - k,
        {
            assert(t@[k as int] <= i * (u32::MAX as int));
            assert(a@[k as int] <= u32::MAX);
            assert(i * (u32::MAX as int) + u32::MAX == (i + 1) * (u32::MAX as int)) by (nonlinear_arith);
            t.0[k] = t.0[k] + a.0[k] as u64;
            k = k + 1;
        }
        i = i + 1;
    }
    assert(requests@.take(requests@.len() as int) =~= requests@);
    proof {
        let n = requests@.len() as int;
        assert(n * (u32::MAX as int) <= (u32::MAX as int) * (u32::MAX as int)) by (nonlinear_arith)
            requires
                0 <= n <= u32::MAX,
        ;
    }
    t
}

proof fn lemma_mul_bound(i: int, m: int)
    requires
        0 <= i <= u32::MAX,
        m == u32::MAX,
    ensures
        i * m <= u64::MAX,
{
    assert(i * m <= u32::MAX * u32::MAX) by (nonlinear_arith)
        requires
            0 <= i <= u32::MAX,
            m == u32::MAX,
    ;
}

fn rounding_deltas(totals: PizzaKindArray<u64>, adds: PizzaKindArray<bool>, ppw: u64) -> (r: Option<
    PizzaKindArray<u64>,
>)
    requires
        ppw > 0,
    ensures
        r is None <==> exists|k: int| 0 <= k < 3 && adds@[k] && #[trigger] (totals@[k] % ppw) == 0,
        r matches Some(d) ==> forall|k: int|
            0 <= k < 3 ==> #[trigger] d@[k] == rounding_delta(totals@[k] as int, adds@[k], ppw as int),
{
    let mut d: PizzaKindArray<u64> = PizzaKindArray([0, 0, 0]);
    let mut k: usize = 0;
    while k < 3
        invariant
            k <= 3,
            ppw > 0,
            forall|j: int| 0 <= j < k ==> !(adds@[j] && #[trigger] (totals@[j] % ppw) == 0),
            forall|j: int|
                0 <= j < k ==> #[trigger] d@[j] == rounding_delta(totals@[j] as int, adds@[j], ppw as int),
        decreases 3 - k,
    {
        let rem = totals.0[k] % ppw;
        let ghost prev = d@;
        if adds.0[k] {
            if rem == 0 {
                assert(adds@[k as int] && (totals@[k as int] % ppw) == 0);
                return None;
            }
            d.0[k] = ppw - rem;
        } else {
            d.0[k] = rem;
        }
        assert(d@[k as int] == rounding_delta(totals@[k as int] as int, adds@[k as int], ppw as int));
        assert forall|j: int| 0 <= j < k implies #[trigger] d@[j] == prev[j] by {}
        k = k + 1;
    }
    Some(d)
}

/// A queued move as the descent sees it: the kinds it touches and its penalty.
pub type MoveModel = Option<(Seq<bool>, int)>;

/// The move that `best_mask` singles out for allocation `a`, if any.
#[verifier::opaque]
pub open spec fn best_move(adds: Seq<bool>, deltas: Seq<u64>, request: Order, a: Seq<int>) -> MoveModel {
    if exists|m: int, p: int| 1 <= m < 8 && best_mask(adds, deltas, request, a, m, p) {
        let (m, p) = choose|m: int, p: int| 1 <= m < 8 && best_mask(adds, deltas, request, a, m, p);
        Some((mask_bits(m), p))
    } else {
        None
    }
}

proof fn lemma_best_mask_unique(
    adds: Seq<bool>,
    deltas: Seq<u64>,
    request: Order,
    a: Seq<int>,
    m1: int,
    p1: int,
    m2: int,
    p2: int,
)
    requires
        1 <= m1 < 8,
        1 <= m2 < 8,
        best_mask(adds, deltas, request, a, m1, p1),
        best_mask(adds, deltas, request, a, m2, p2),
    ensures
        m1 == m2,
        p1 == p2,
{
    assert(!penalty_lt(move_cost(request, a, mask_bits(m2), adds), Some(p1)));
    assert(!penalty_lt(move_cost(request, a, mask_bits(m1), adds), Some(p2)));
}

/// A queued move without its exec representation.
spec fn move_model(o: Option<QueueElement>) -> MoveModel {
    match o {
        Some(e) => Some((e.offset@, e.penalty as int)),
        None => None,
    }
}

proof fn lemma_best_offset_model(
    adds: Seq<bool>,
    deltas: Seq<u64>,
    request: Order,
    a: Seq<int>,
    o: Option<QueueElement>,
)
    requires
        o matches Some(e) ==> exists|m: int|
            1 <= m < 8 && e.offset@ == mask_bits(m) && best_mask(
                adds,
                deltas,
                request,
                a,
                m,
                e.penalty as int,
            ),
        o is None ==> forall|m: int|
            1 <= m < 8 && admissible(mask_bits(m), adds, deltas, a) ==> move_cost(
                request,
                a,
                mask_bits(m),
                adds,
            ) is None,
    ensures
        move_model(o) == best_move(adds, deltas, request, a),
{
    reveal(best_move);
    if let Some(e) = o {
        let m = choose|m: int|
            1 <= m < 8 && e.offset@ == mask_bits(m) && best_mask(
                adds,
                deltas,
                request,
                a,
                m,
                e.penalty as int,
            );
        assert(best_mask(adds, deltas, request, a, m, e.penalty as int));
        let (m2, p2) = choose|m: int, p: int| 1 <= m < 8 && best_mask(adds, deltas, request, a, m, p);
        lemma_best_mask_unique(adds, deltas, request, a, m, e.penalty as int, m2, p2);
    } else {
        if exists|m: int, p: int| 1 <= m < 8 && best_mask(adds, deltas, request, a, m, p) {
            let (m2, p2) = choose|m: int, p: int| 1 <= m < 8 && best_mask(adds, deltas, request, a, m, p);
            assert(admissible(mask_bits(m2), adds, deltas, a));
        }
    }
}

/// The queued move that is popped next: the least penalty, the lowest index
/// among equals.
pub open spec fn pops_first(q: Seq<MoveModel>, i: int) -> bool {
    &&& 0 <= i < q.len()
    &&& q[i] is Some
    &&& forall|j: int|
        0 <= j < q.len() ==> (#[trigger] q[j] matches Some(f) ==> q[i].unwrap().1 < f.1 || (
        q[i].unwrap().1 == f.1 && i <= j))
}

#[verifier::opaque]
pub open spec fn pop_index(q: Seq<MoveModel>) -> Option<int> {
    if exists|i: int| pops_first(q, i) {
        Some(choose|i: int| pops_first(q, i))
    } else {
        None
    }
}

proof fn lemma_pops_first_unique(q: Seq<MoveModel>, i: int, j: int)
    requires
        pops_first(q, i),
        pops_first(q, j),
    ensures
        i == j,
{
    assert(q[j] matches Some(f) ==> q[i].unwrap().1 < f.1 || (q[i].unwrap().1 == f.1 && i <= j));
    assert(q[i] matches Some(f) ==> q[j].unwrap().1 < f.1 || (q[j].unwrap().1 == f.1 && j <= i));
}

/// The state of a descent: allocations, queued moves, pieces still to move
/// per kind, and the penalty pair so far (worst move, sum of moves).
pub struct DescentModel {
    pub next: Seq<Seq<int>>,
    pub queue: Seq<MoveModel>,
    pub deltas: Seq<u64>,
    pub worst: int,
    pub sum: int,
}

pub open spec fn touches_empty(offset: Seq<bool>, deltas: Seq<u64>) -> bool {
    (offset[0] && deltas[0] == 0) || (offset[1] && deltas[1] == 0) || (offset[2] && deltas[2] == 0)
}

pub open spec fn taken(d: u64, on: bool) -> u64 {
    if on {
        (d - 1) as u64
    } else {
        d
    }
}

pub open spec fn saturating_sum(m: int, p: int) -> int {
    if m + p > u128::MAX {
        u128::MAX as int
    } else {
        m + p
    }
}

pub open spec fn count_on(offset: Seq<bool>) -> int {
    (if offset[0] {
        1int
    } else {
        0
    }) + (if offset[1] {
        1int
    } else {
        0
    }) + (if offset[2] {
        1int
    } else {
        0
    })
}

/// The running sum after `c` moves of penalty `p`, saturating.
pub open spec fn sum_after(m: int, p: int, c: int) -> int
    decreases c,
{
    if c <= 0 {
        m
    } else {
        saturating_sum(sum_after(m, p, c - 1), p)
    }
}

/// Makes move `(offset, p)` of participant `i`: one piece per selected kind.
pub open spec fn make_move(adds: Seq<bool>, s: DescentModel, i: int, offset: Seq<bool>, p: int) -> DescentModel {
    DescentModel {
        next: s.next.update(i, shift(s.next[i], offset, adds)),
        queue: s.queue,
        deltas: seq![
            taken(s.deltas[0], offset[0]),
            taken(s.deltas[1], offset[1]),
            taken(s.deltas[2], offset[2]),
        ],
        worst: if s.worst < p {
            p
        } else {
            s.worst
        },
        sum: sum_after(s.sum, p, count_on(offset)),
    }
}

/// One step of the descent: pop the next move, make it unless it touches a
/// kind with nothing left to move, and queue the participant's new best move.
/// None when no move is queued.
#[verifier::opaque]
pub open spec fn descent_step(requests: Seq<Order>, adds: Seq<bool>, s: DescentModel) -> Option<DescentModel> {
    match pop_index(s.queue) {
        None => None,
        Some(i) => {
            let (offset, p) = s.queue[i].unwrap();
            let t = if touches_empty(offset, s.deltas) {
                s
            } else {
                make_move(adds, s, i, offset, p)
            };
            Some(DescentModel { queue: t.queue.update(i, best_move(adds, t.deltas, requests[i], t.next[i])), ..t })
        },
    }
}

/// Runs the descent for at most `fuel` steps; None when the moves run out
/// (or the fuel does) before every delta is used up.
#[verifier::opaque]
pub open spec fn descent_run(requests: Seq<Order>, adds: Seq<bool>, s: DescentModel, fuel: nat) -> Option<DescentModel>
    decreases fuel,
{
    if delta_sum(s.deltas) == 0 {
        Some(s)
    } else if fuel == 0 {
        None
    } else {
        match descent_step(requests, adds, s) {
            None => None,
            Some(t) => descent_run(requests, adds, t, (fuel - 1) as nat),
        }
    }
}

/// The start of a descent: every allocation at its request, with its best move queued.
pub open spec fn seed_model(requests: Seq<Order>, adds: Seq<bool>, deltas0: Seq<u64>) -> DescentModel {
    DescentModel {
        next: Seq::new(requests.len(), |j: int| request_ints(requests[j].amounts)),
        queue: Seq::new(
            requests.len(),
            |j: int| best_move(adds, deltas0, requests[j], request_ints(requests[j].amounts)),
        ),
        deltas: deltas0,
        worst: 0,
        sum: 0,
    }
}

/// Enough steps for any descent to finish: every step either uses up a piece
/// or retires a stale move.
pub open spec fn descent_fuel(requests: Seq<Order>, deltas0: Seq<u64>) -> nat {
    ((delta_sum(deltas0) + 1) * (2 * requests.len() + 1)) as nat
}

/// What the descent for the rounding `adds` ends in.
#[verifier::opaque]
pub open spec fn candidate_outcome(requests: Seq<Order>, adds: Seq<bool>, deltas0: Seq<u64>) -> Option<DescentModel> {
    descent_run(requests, adds, seed_model(requests, adds, deltas0), descent_fuel(requests, deltas0))
}

/// The pieces to move per kind for the candidate of mask `m` (bit `k` set:
/// kind `k` rounds up); none when it rounds up a kind whose total already
/// fills whole pies.
pub open spec fn rounding_of(requests: Seq<Order>, pieces_per_whole: int, m: int) -> Option<Seq<u64>> {
    let adds = mask_bits(m);
    if exists|k: int| 0 <= k < 3 && adds[k] && #[trigger] request_column(requests, k) % pieces_per_whole == 0 {
        None
    } else {
        Some(
            seq![
                rounding_delta(request_column(requests, 0), adds[0], pieces_per_whole) as u64,
                rounding_delta(request_column(requests, 1), adds[1], pieces_per_whole) as u64,
                rounding_delta(request_column(requests, 2), adds[2], pieces_per_whole) as u64,
            ],
        )
    }
}

/// Where the descent for the candidate of mask `m` ends, if it completes.
pub open spec fn candidate_at(requests: Seq<Order>, pieces_per_whole: int, m: int) -> Option<DescentModel> {
    match rounding_of(requests, pieces_per_whole, m) {
        None => None,
        Some(d) => candidate_outcome(requests, mask_bits(m), d),
    }
}

/// The finite pair `(w1, s1)` ranks strictly before `(w2, s2)`: a smaller
/// weighted total `9 * worst + sum` (saturating), or an equal one and a
/// smaller sum.
pub open spec fn pair_before(w1: int, s1: int, w2: int, s2: int) -> bool {
    let t1 = if 9 * w1 + s1 > u128::MAX {
        u128::MAX as int
    } else {
        9 * w1 + s1
    };
    let t2 = if 9 * w2 + s2 > u128::MAX {
        u128::MAX as int
    } else {
        9 * w2 + s2
    };
    t1 < t2 || (t1 == t2 && s1 < s2)
}

/// The winning candidate among masks `0 .. n`: each completed candidate in
/// turn replaces the one kept so far only if its pair ranks strictly before,
/// so the earliest candidate with the best pair wins.
pub open spec fn selection(requests: Seq<Order>, pieces_per_whole: int, n: int) -> Option<(int, DescentModel)>
    decreases n,
{
    if n <= 0 {
        None
    } else {
        let prev = selection(requests, pieces_per_whole, n - 1);
        match candidate_at(requests, pieces_per_whole, n - 1) {
            None => prev,
            Some(c) => match prev {
                None => Some((n - 1, c)),
                Some((pm, ps)) => if pair_before(c.worst, c.sum, ps.worst, ps.sum) {
                    Some((n - 1, c))
                } else {
                    prev
                },
            },
        }
    }
}

/// The balancing engine's result for `requests` at `pieces_per_whole`.
pub open spec fn balanced(
    pieces_per_whole: int,
    requests: Seq<Order>,
    penalty: TotalPenalty,
    config: Seq<PizzaAmount>,
    distributions: Seq<Distribution>,
    valid: bool,
) -> bool {
    &&& distributions.len() == requests.len()
    &&& valid == (penalty.worst@ is Some)
    &&& valid ==> {
        &&& penalty.average@ is Some
        &&& forall|k: int|
            0 <= k < 3 ==> {
                let t = request_column(requests, k);
                ||| #[trigger] config[k] == t / pieces_per_whole
                ||| t % pieces_per_whole != 0 && config[k] == t / pieces_per_whole + 1
            }
        &&& forall|k: int|
            0 <= k < 3 ==> #[trigger] column_sum(distributions, k) == pieces_per_whole * config[k]
        &&& forall|i: int, k: int|
            0 <= i < requests.len() && 0 <= k < 3 ==> {
                let t = request_column(requests, k);
                let r = requests[i].amounts@[k] as int;
                let a = #[trigger] distributions[i]@[k] as int;
                &&& pieces_per_whole * config[k] >= t ==> a >= r
                &&& pieces_per_whole * config[k] <= t ==> a <= r
                &&& a - r < pieces_per_whole
                &&& r - a < pieces_per_whole
            }
        &&& forall|i: int|
            0 <= i < requests.len() ==> cost(
                request_ints(requests[i].amounts),
                distribution_ints(#[trigger] distributions[i]),
                clamped(requests[i].preference as int),
            ) is Some
    }
    &&& !valid ==> {
        &&& penalty.average@ is None
        &&& forall|k: int| 0 <= k < 3 ==> #[trigger] config[k] == 0
        &&& forall|i: int, k: int|
            0 <= i < requests.len() && 0 <= k < 3 ==> #[trigger] distributions[i]@[k] == 0
    }
    &&& (forall|k: int| 0 <= k < 3 ==> #[trigger] request_column(requests, k) % pieces_per_whole == 0)
        ==> {
        &&& valid
        &&& penalty.worst@ == Some(0int)
        &&& penalty.average@ == Some(0int)
        &&& forall|k: int|
            0 <= k < 3 ==> #[trigger] config[k] == request_column(requests, k) / pieces_per_whole
        &&& forall|i: int|
            0 <= i < requests.len() ==> distribution_ints(#[trigger] distributions[i])
                == request_ints(requests[i].amounts)
    }
}

/// Rounding total `t` up (`up`) or down to whole pies of `ppw` pieces: the
/// pies, and the column sum after moving the rounding delta, agree.
proof fn lemma_rounding(t: int, up: bool, ppw: int)
    requires
        t >= 0,
        ppw > 0,
        up ==> t % ppw != 0,
    ensures
        ({
            let c = t / ppw + (if up {
                1int
            } else {
                0
            });
            let d = rounding_delta(t, up, ppw);
            &&& 0 <= d < ppw
            &&& (if up {
                t + d
            } else {
                t - d
            }) == ppw * c
            &&& up ==> ppw * c > t
            &&& !up ==> ppw * c <= t
            &&& !up && t % ppw == 0 ==> d == 0
        }),
{
    lemma_fundamental_div_mod(t, ppw);
    assert(ppw * (t / ppw + 1) == ppw * (t / ppw) + ppw) by (nonlinear_arith);
}

fn zero_distributions(n: usize) -> (r: Vec<Distribution>)
    ensures
        r@.len() == n,
        forall|i: int, k: int| 0 <= i < n && 0 <= k < 3 ==> #[trigger] r@[i]@[k] == 0,
{
    let mut r: Vec<Distribution> = Vec::new();
    let mut i: usize = 0;
    while i < n
        invariant
            i <= n,
            r@.len() == i,
            forall|j: int, k: int| 0 <= j < i && 0 <= k < 3 ==> #[trigger] r@[j]@[k] == 0,
        decreases n - i,
    {
        r.push(PizzaKindArray([0, 0, 0]));
        i = i + 1;
    }
    r
}

/// Every kind's total demand fills whole pies.
pub open spec fn all_divisible(requests: Seq<Order>, pieces_per_whole: int) -> bool {
    forall|k: int| 0 <= k < 3 ==> #[trigger] request_column(requests, k) % pieces_per_whole == 0
}

/// What the search has found after the candidates of masks `0 .. idx`.
spec fn best_inv(
    requests: Seq<Order>,
    totals: Seq<u64>,
    ppw: u64,
    idx: int,
    pen: TotalPenalty,
    d: Seq<Distribution>,
    adds: Seq<bool>,
    deltas: Seq<u64>,
) -> bool {
    &&& 0 < ppw <= u32::MAX
    &&& forall|k: int| 0 <= k < 3 ==> #[trigger] totals[k] == request_column(requests, k)
    &&& forall|k: int| 0 <= k < 3 ==> #[trigger] totals[k] < u64::MAX
    &&& pen.worst@ is None ==> pen.average@ is None
    &&& pen.worst@ is Some ==> {
        &&& pen.average@ is Some
        &&& candidate_valid(requests, adds, deltas, d)
        &&& forall|k: int|
            0 <= k < 3 ==> #[trigger] deltas[k] == rounding_delta(totals[k] as int, adds[k], ppw as int)
        &&& forall|k: int| 0 <= k < 3 && #[trigger] adds[k] ==> totals[k] % ppw != 0
    }
    &&& all_divisible(requests, ppw as int) && idx >= 1 ==> {
        &&& pen.worst@ == Some(0int)
        &&& pen.average@ == Some(0int)
        &&& adds == seq![false, false, false]
        &&& forall|j: int|
            0 <= j < d.len() ==> distribution_ints(#[trigger] d[j]) == request_ints(requests[j].amounts)
    }
    &&& (match selection(requests, ppw as int, idx) {
        None => pen.worst@ is None,
        Some((m, c)) => {
            &&& 0 <= m < 8
            &&& pen.worst@ == Some(c.worst)
            &&& pen.average@ == Some(c.sum)
            &&& adds == mask_bits(m)
            &&& d.map_values(|x: Distribution| distribution_ints(x)) == c.next
        },
    })
}

/// Runs the candidate of mask `idx` and keeps it if it beats the best so far.
fn consider_candidate(
    requests: &Vec<Order>,
    totals: PizzaKindArray<u64>,
    ppw: u64,
    idx: u8,
    best_pen: &mut TotalPenalty,
    best_d: &mut Vec<Distribution>,
    best_adds: &mut PizzaKindArray<bool>,
    best_deltas: &mut PizzaKindArray<u64>,
)
    requires
        idx < 8,
        best_inv(
            requests@,
            totals@,
            ppw,
            idx as int,
            *old(best_pen),
            old(best_d)@,
            old(best_adds)@,
            old(best_deltas)@,
        ),
    ensures
        best_inv(
            requests@,
            totals@,
            ppw,
            idx + 1,
            *final(best_pen),
            final(best_d)@,
            final(best_adds)@,
            final(best_deltas)@,
        ),
{
    let adds = mask_of(idx);
    proof {
        if idx >= 1 {
            assert(adds@[0] || adds@[1] || adds@[2]);
            if all_divisible(requests@, ppw as int) {
                if adds@[0] {
                    assert(adds@[0] && (totals@[0] % ppw) == 0);
                } else if adds@[1] {
                    assert(adds@[1] && (totals@[1] % ppw) == 0);
                } else {
                    assert(adds@[2] && (totals@[2] % ppw) == 0);
                }
            }
        }
    }
    let rounding = rounding_deltas(totals, adds, ppw);
    proof {
        match rounding {
            None => {
                let k = choose|k: int| 0 <= k < 3 && adds@[k] && #[trigger] (totals@[k] % ppw) == 0;
                assert(request_column(requests@, k) % (ppw as int) == 0);
                assert(rounding_of(requests@, ppw as int, idx as int) is None);
            },
            Some(d) => {
                assert forall|k: int| 0 <= k < 3 && adds@[k] implies #[trigger] request_column(
                    requests@,
                    k,
                ) % (ppw as int) != 0 by {
                    assert(!(adds@[k] && (totals@[k] % ppw) == 0));
                }
                assert(d@ =~= rounding_of(requests@, ppw as int, idx as int).unwrap());
                assert forall|k: int| 0 <= k < 3 implies #[trigger] d@[k] <= u32::MAX by {
                    lemma_rounding(totals@[k] as int, adds@[k], ppw as int);
                }
            },
        }
    }
    match rounding {
        None => {},
        Some(deltas) => {
            proof {
                if idx == 0 && all_divisible(requests@, ppw as int) {
                    assert(adds@ =~= seq![false, false, false]);
                    assert(totals@[0] % ppw == 0 && totals@[1] % ppw == 0 && totals@[2] % ppw == 0);
                    assert(deltas@[0] == 0 && deltas@[1] == 0 && deltas@[2] == 0);
                }
            }
            match run_candidate(requests, adds, deltas) {
                None => {},
                Some(found) => {
                    let (pen, d) = found;
                    if pen.is_better_than(best_pen) {
                        *best_pen = pen;
                        *best_d = d;
                        *best_adds = adds;
                        *best_deltas = deltas;
                    }
                },
            }
        },
    }
}

/// Turns the winning candidate into the engine's result.
fn finish(
    requests: &Vec<Order>,
    totals: PizzaKindArray<u64>,
    ppw: u64,
    best_pen: TotalPenalty,
    best_d: Vec<Distribution>,
    best_adds: PizzaKindArray<bool>,
    best_deltas: PizzaKindArray<u64>,
) -> (r: (TotalPenalty, PizzaKindArray<PizzaAmount>, Vec<Distribution>, bool))
    requires
        best_inv(requests@, totals@, ppw, 8, best_pen, best_d@, best_adds@, best_deltas@),
    ensures
        balanced(ppw as int, requests@, r.0, r.1@, r.2@, r.3),
        (match selection(requests@, ppw as int, 8) {
            None => !r.3,
            Some((m, c)) => {
                &&& r.3
                &&& r.0.worst@ == Some(c.worst)
                &&& r.0.average@ == Some(c.sum)
                &&& r.2@.map_values(|x: Distribution| distribution_ints(x)) == c.next
                &&& forall|k: int|
                    0 <= k < 3 ==> #[trigger] r.1@[k] == request_column(requests@, k) / (ppw as int) + (
                    if mask_bits(m)[k] {
                        1int
                    } else {
                        0
                    })
            },
        }),
{
    let n = requests.len();
    assert(totals.0[0] / ppw <= totals.0[0] && totals.0[1] / ppw <= totals.0[1] && totals.0[2] / ppw
        <= totals.0[2]);
    if best_pen.worst.is_infinite() {
        let zeros = zero_distributions(n);
        let config = PizzaKindArray([0u64, 0, 0]);
        return (best_pen, config, zeros, false);
    }
    let c0 = totals.0[0] / ppw + if best_adds.0[0] {
        1u64
    } else {
        0
    };
    let c1 = totals.0[1] / ppw + if best_adds.0[1] {
        1u64
    } else {
        0
    };
    let c2 = totals.0[2] / ppw + if best_adds.0[2] {
        1u64
    } else {
        0
    };
    let config = PizzaKindArray([c0, c1, c2]);
    proof {
        assert forall|k: int| 0 <= k < 3 implies {
            let t = request_column(requests@, k);
            &&& #[trigger] column_sum(best_d@, k) == ppw * config@[k]
            &&& (config@[k] == t / (ppw as int) || t % (ppw as int) != 0 && config@[k] == t / (ppw as int) + 1)
            &&& (best_adds@[k] ==> ppw * config@[k] > t)
            &&& (!best_adds@[k] ==> ppw * config@[k] <= t)
            &&& (!best_adds@[k] && t % (ppw as int) == 0 ==> best_deltas@[k] == 0)
            &&& config@[k] == t / (ppw as int) + (if best_adds@[k] {
                1int
            } else {
                0
            })
        } by {
            lemma_rounding(totals@[k] as int, best_adds@[k], ppw as int);
        }
        assert forall|i: int, k: int| 0 <= i < requests@.len() && 0 <= k < 3 implies {
            let t = request_column(requests@, k);
            let r = requests@[i].amounts@[k] as int;
            let a = #[trigger] best_d@[i]@[k] as int;
            &&& ppw * config@[k] >= t ==> a >= r
            &&& ppw * config@[k] <= t ==> a <= r
            &&& a - r < ppw
            &&& r - a < ppw
        } by {
            lemma_rounding(totals@[k] as int, best_adds@[k], ppw as int);
            assert(moved_within(
                requests@[i].amounts@[k] as int,
                best_d@[i]@[k] as int,
                best_adds@[k],
                best_deltas@[k] as int,
            ));
        }
    }
    (best_pen, config, best_d, true)
}

/// The balancing engine. Every way of rounding each kind's total demand up
/// or down to whole pies is a candidate; for each, a greedy descent moves
/// pieces from the requests toward the rounded totals. The candidate with the
/// best penalty pair wins, the earliest among equals. When no candidate can
/// be completed, the result is marked invalid and is all zeros.
pub fn get_best(pieces_per_whole: u32, requests: &Vec<Order>) -> (r: (
    TotalPenalty,
    PizzaKindArray<PizzaAmount>,
    Vec<Distribution>,
    bool,
))
    requires
        pieces_per_whole > 0,
        requests@.len() <= u32::MAX,
    ensures
        balanced(pieces_per_whole as int, requests@, r.0, r.1@, r.2@, r.3),
        (match selection(requests@, pieces_per_whole as int, 8) {
            None => !r.3,
            Some((m, c)) => {
                &&& r.3
                &&& r.0.worst@ == Some(c.worst)
                &&& r.0.average@ == Some(c.sum)
                &&& r.2@.map_values(|x: Distribution| distribution_ints(x)) == c.next
                &&& forall|k: int|
                    0 <= k < 3 ==> #[trigger] r.1@[k] == request_column(requests@, k)
                        / (pieces_per_whole as int) + (if mask_bits(m)[k] {
                        1int
                    } else {
                        0
                    })
            },
        }),
{
    let ppw = pieces_per_whole as u64;
    let totals = kind_totals(requests);
    let mut best_pen = TotalPenalty::unbounded();
    let mut best_d: Vec<Distribution> = Vec::new();
    let mut best_adds = PizzaKindArray([false, false, false]);
    let mut best_deltas = PizzaKindArray([0u64, 0, 0]);
    let mut idx: u8 = 0;
    while idx < 8
        invariant
            idx <= 8,
            best_inv(requests@, totals@, ppw, idx as int, best_pen, best_d@, best_adds@, best_deltas@),
        decreases 8 - idx,
    {
        consider_candidate(
            requests,
            totals,
            ppw,
            idx,
            &mut best_pen,
            &mut best_d,
            &mut best_adds,
            &mut best_deltas,
        );
        idx = idx + 1;
    }
    finish(requests, totals, ppw, best_pen, best_d, best_adds, best_deltas)
}
} // verus!
