//! The graph's own order of consumers first: it suits wherever any order does.
use vstd::prelude::*;
use crate::flow::Flow;
use crate::graph::Plan;
use crate::laws::legal::occurs;
use crate::laws::order::earlier;
use crate::laws::order::no_repeats;
use crate::order::consumers_order;
use crate::order::next_ready;
use crate::order::ready;
use crate::order::settled;
use crate::order::suiting;

verus! {

/// The number of nodes that have not been placed.
pub open spec fn unplaced(placed: Seq<bool>) -> nat
    decreases placed.len(),
{
    if placed.len() == 0 {
        0
    } else {
        unplaced(placed.drop_last()) + if placed.last() {
            0nat
        } else {
            1nat
        }
    }
}

/// Node `t` is among the first `upto` of `order`.
pub open spec fn among(order: Seq<usize>, upto: int, t: int) -> bool {
    exists|j: int| 0 <= j < upto && j < order.len() && #[trigger] order[j] == t
}

/// What holds of the nodes placed so far and the order they were placed
/// in: the order lists just the placed nodes, none twice, and every node
/// after the nodes it feeds.
pub open spec fn in_place(flows: Seq<Flow>, placed: Seq<bool>, order: Seq<usize>) -> bool {
    &&& forall|j: int| 0 <= j < order.len() ==> (#[trigger] order[j]) < placed.len() && placed[order[j] as int]
    &&& forall|x: int| 0 <= x < placed.len() && #[trigger] placed[x] ==> among(order, order.len() as int, x)
    &&& no_repeats(order)
    &&& forall|j: int, i: int|
        0 <= j < order.len() && 0 <= i < flows.len() && (#[trigger] flows[i]).source == #[trigger] order[j]
            ==> among(order, j, flows[i].target as int)
}

/// Every flow joins two nodes below `bound`.
pub open spec fn within_bound(flows: Seq<Flow>, bound: int) -> bool {
    forall|i: int| 0 <= i < flows.len() ==> (#[trigger] flows[i]).source < bound && flows[i].target < bound
}

/// Where no node is unplaced, all are placed; where one is, the number is
/// positive.
pub proof fn lemma_unplaced(placed: Seq<bool>, x: int)
    requires
        0 <= x < placed.len(),
    ensures
        unplaced(placed) == 0 ==> placed[x],
        !placed[x] ==> unplaced(placed) > 0,
    decreases placed.len(),
{
    if x < placed.len() - 1 {
        lemma_unplaced(placed.drop_last(), x);
    }
}

/// Placing a node leaves one fewer unplaced.
pub proof fn lemma_unplaced_update(placed: Seq<bool>, x: int)
    requires
        0 <= x < placed.len(),
        !placed[x],
    ensures
        unplaced(placed.update(x, true)) == unplaced(placed) - 1,
    decreases placed.len(),
{
    let after = placed.update(x, true);
    if x == placed.len() - 1 {
        assert(after.drop_last() =~= placed.drop_last());
    } else {
        lemma_unplaced_update(placed.drop_last(), x);
        assert(after.drop_last() =~= placed.drop_last().update(x, true));
    }
}

/// At the outset every node is unplaced.
pub proof fn lemma_unplaced_all(count: nat)
    ensures
        unplaced(Seq::new(count, |x: int| false)) == count,
    decreases count,
{
    if count > 0 {
        lemma_unplaced_all((count - 1) as nat);
        assert(Seq::new(count, |x: int| false).drop_last() =~= Seq::new(
            (count - 1) as nat,
            |x: int| false,
        ));
    }
}

/// The node found next is unplaced and feeds placed nodes only; where
/// none is found, there is no such node at `from` or above.
pub proof fn lemma_next_ready(flows: Seq<Flow>, placed: Seq<bool>, from: int)
    requires
        0 <= from,
    ensures
        match next_ready(flows, placed, from) {
            Some(x) => from <= x < placed.len() && !placed[x] && ready(flows, placed, x),
            None => forall|x: int| from <= x < placed.len() ==> placed[x] || !ready(flows, placed, x),
        },
    decreases placed.len() - from,
{
    if from < placed.len() && !(!placed[from] && ready(flows, placed, from)) {
        lemma_next_ready(flows, placed, from + 1);
    }
}

/// The first entry at `at` or above of an order that is unplaced.
pub proof fn lemma_first_unplaced(order: Seq<usize>, placed: Seq<bool>, at: int, last: int) -> (j: int)
    requires
        0 <= at <= last < order.len(),
        forall|i: int| 0 <= i < order.len() ==> (#[trigger] order[i]) < placed.len(),
        forall|i: int| 0 <= i < at ==> placed[(#[trigger] order[i]) as int],
        !placed[order[last] as int],
    ensures
        0 <= j <= last,
        !placed[order[j] as int],
        forall|i: int| 0 <= i < j ==> placed[(#[trigger] order[i]) as int],
    decreases last - at,
{
    if !placed[order[at] as int] {
        at
    } else {
        lemma_first_unplaced(order, placed, at + 1, last)
    }
}

/// Where some order suits the plan and a node is unplaced, some unplaced
/// node feeds placed nodes only.
pub proof fn lemma_some_node_is_ready(plan: Plan, some: Seq<usize>, placed: Seq<bool>, x: int)
    requires
        suiting(plan, some),
        placed.len() == plan.stations.len(),
        0 <= x < placed.len(),
        !placed[x],
    ensures
        next_ready(plan.flows, placed, 0) is Some,
{
    assert(occurs(some, x));
    let last = choose|j: int| 0 <= j < some.len() && #[trigger] some[j] == x;
    let j = lemma_first_unplaced(some, placed, 0, last);
    let y = some[j] as int;
    assert(ready(plan.flows, placed, y)) by {
        assert forall|i: int| 0 <= i < plan.flows.len() && (#[trigger] plan.flows[i]).source
            == y implies plan.flows[i].target < placed.len() && placed[plan.flows[i].target as int] by {
            let t = plan.flows[i].target as int;
            assert(occurs(some, y));
            assert(earlier(some, t, y));
            let (ja, jb) = choose|ja: int, jb: int|
                0 <= ja < jb < some.len() && #[trigger] some[ja] == t && #[trigger] some[jb] == y;
            if jb < j {
                assert(some[jb] != some[j]);
            } else if j < jb {
                assert(some[j] != some[jb]);
            }
            assert(placed[some[ja] as int]);
        }
    }
    lemma_next_ready(plan.flows, placed, 0);
}

/// Once every node is placed, the order they were placed in suits.
pub proof fn lemma_all_placed_suits(plan: Plan, placed: Seq<bool>, order: Seq<usize>)
    requires
        within_bound(plan.flows, plan.stations.len() as int),
        placed.len() == plan.stations.len(),
        in_place(plan.flows, placed, order),
        forall|x: int| 0 <= x < placed.len() ==> placed[x],
    ensures
        suiting(plan, order),
{
    assert forall|n: int| 0 <= n < plan.stations.len() implies #[trigger] occurs(order, n) by {
        assert(placed[n]);
        assert(among(order, order.len() as int, n));
    }
    assert forall|i: int| 0 <= i < plan.flows.len() implies (#[trigger] plan.flows[i]).source
        != plan.flows[i].target && (occurs(order, plan.flows[i].source as int) ==> earlier(
        order,
        plan.flows[i].target as int,
        plan.flows[i].source as int,
    )) by {
        let s = plan.flows[i].source as int;
        let t = plan.flows[i].target as int;
        assert(placed[s]);
        assert(among(order, order.len() as int, s));
        let js = choose|j: int| 0 <= j < order.len() && j < order.len() && #[trigger] order[j] == s;
        assert(among(order, js, t));
        let jt = choose|j: int| 0 <= j < js && j < order.len() && #[trigger] order[j] == t;
        assert(order[jt] != order[js]);
        assert(order[jt] == t && order[js] == s);
    }
}

/// Placing the node found next keeps the order in place.
pub proof fn lemma_placing_keeps_in_place(flows: Seq<Flow>, placed: Seq<bool>, order: Seq<usize>, x: int)
    requires
        in_place(flows, placed, order),
        0 <= x < placed.len(),
        x <= usize::MAX,
        !placed[x],
        ready(flows, placed, x),
    ensures
        in_place(flows, placed.update(x, true), order.push(x as usize)),
{
    let placed2 = placed.update(x, true);
    let order2 = order.push(x as usize);
    let last = order.len() as int;
    assert forall|y: int| 0 <= y < placed2.len() && #[trigger] placed2[y] implies among(
        order2,
        order2.len() as int,
        y,
    ) by {
        if y == x {
            assert(order2[last] == x);
        } else {
            assert(placed[y]);
            let j = choose|j: int| 0 <= j < order.len() && j < order.len() && #[trigger] order[j] == y;
            assert(order2[j] == y);
        }
    }
    assert(no_repeats(order2)) by {
        assert forall|i: int, j: int| 0 <= i < j < order2.len() implies order2[i] != order2[j] by {
            if j == last {
                assert(placed[order[i] as int]);
            } else {
                assert(order[i] != order[j]);
            }
        }
    }
    assert forall|j: int, i: int|
        0 <= j < order2.len() && 0 <= i < flows.len() && (#[trigger] flows[i]).source
            == #[trigger] order2[j] implies among(order2, j, flows[i].target as int) by {
        let t = flows[i].target as int;
        if j == last {
            assert(placed[t]);
            assert(among(order, order.len() as int, t));
            let k = choose|k: int| 0 <= k < order.len() && k < order.len() && #[trigger] order[k] == t;
            assert(order2[k] == t);
        } else {
            assert(order[j] == order2[j]);
            assert(among(order, j, t));
            let k = choose|k: int| 0 <= k < j && k < order.len() && #[trigger] order[k] == t;
            assert(order2[k] == t);
        }
    }
    assert forall|j: int| 0 <= j < order2.len() implies (#[trigger] order2[j]) < placed2.len()
        && placed2[order2[j] as int] by {
        if j < last {
            assert(order[j] == order2[j]);
        }
    }
}

/// While a node is unplaced, some unplaced node feeds placed nodes only.
pub open spec fn lively(plan: Plan) -> bool {
    forall|placed: Seq<bool>, x: int|
        placed.len() == plan.stations.len() && 0 <= x < placed.len() && !#[trigger] placed[x]
            ==> next_ready(plan.flows, placed, 0) is Some
}

/// In a lively plan, placing node after node places them all, in an
/// order that suits.
pub proof fn lemma_settled_suits(plan: Plan, placed: Seq<bool>, order: Seq<usize>, rounds: nat)
    requires
        within_bound(plan.flows, plan.stations.len() as int),
        plan.stations.len() <= usize::MAX,
        lively(plan),
        placed.len() == plan.stations.len(),
        in_place(plan.flows, placed, order),
        rounds == unplaced(placed),
    ensures
        suiting(plan, settled(plan.flows, placed, order, rounds)),
    decreases rounds,
{
    lemma_next_ready(plan.flows, placed, 0);
    if rounds == 0 || next_ready(plan.flows, placed, 0) is None {
        assert forall|x: int| 0 <= x < placed.len() implies placed[x] by {
            lemma_unplaced(placed, x);
        }
        lemma_all_placed_suits(plan, placed, order);
    } else {
        let x = next_ready(plan.flows, placed, 0).unwrap();
        lemma_placing_keeps_in_place(plan.flows, placed, order, x);
        lemma_unplaced_update(placed, x);
        lemma_settled_suits(plan, placed.update(x, true), order.push(x as usize), (rounds - 1) as nat);
    }
}

/// Where any order of the plan's nodes puts every consumer before its
/// producers, the plan's own order of consumers first does.
pub proof fn law_consumers_order_suits(plan: Plan, some: Seq<usize>)
    requires
        within_bound(plan.flows, plan.stations.len() as int),
        plan.stations.len() <= usize::MAX,
        suiting(plan, some),
    ensures
        suiting(plan, consumers_order(plan)),
{
    assert forall|placed: Seq<bool>, x: int|
        placed.len() == plan.stations.len() && 0 <= x < placed.len() && !#[trigger] placed[x] implies next_ready(
        plan.flows,
        placed,
        0,
    ) is Some by {
        lemma_some_node_is_ready(plan, some, placed, x);
    }
    let placed = Seq::new(plan.stations.len(), |x: int| false);
    lemma_unplaced_all(plan.stations.len());
    lemma_settled_suits(plan, placed, Seq::empty(), plan.stations.len());
}

/// Every flow of the plan runs downhill by `height`: from a node to a
/// lower one. A plan with such heights has no circle.
pub open spec fn downhill(plan: Plan, height: spec_fn(int) -> nat) -> bool {
    forall|i: int|
        0 <= i < plan.flows.len() ==> height((#[trigger] plan.flows[i]).target as int) < height(
            plan.flows[i].source as int,
        )
}

/// From an unplaced node of a downhill plan, following flows to unplaced
/// nodes ends at an unplaced node that feeds placed nodes only.
pub proof fn lemma_descent_ends(plan: Plan, height: spec_fn(int) -> nat, placed: Seq<bool>, x: int)
    requires
        within_bound(plan.flows, plan.stations.len() as int),
        downhill(plan, height),
        placed.len() == plan.stations.len(),
        0 <= x < placed.len(),
        !placed[x],
    ensures
        next_ready(plan.flows, placed, 0) is Some,
    decreases height(x),
{
    lemma_next_ready(plan.flows, placed, 0);
    if !ready(plan.flows, placed, x) {
        let i = choose|i: int|
            0 <= i < plan.flows.len() && (#[trigger] plan.flows[i]).source == x && !(plan.flows[i].target
                < placed.len() && placed[plan.flows[i].target as int]);
        lemma_descent_ends(plan, height, placed, plan.flows[i].target as int);
    }
}

/// A plan without a circle has an order that puts every consumer before
/// its producers: its own order of consumers first.
pub proof fn law_downhill_plan_is_ordered(plan: Plan, height: spec_fn(int) -> nat)
    requires
        within_bound(plan.flows, plan.stations.len() as int),
        plan.stations.len() <= usize::MAX,
        downhill(plan, height),
    ensures
        suiting(plan, consumers_order(plan)),
{
    assert forall|placed: Seq<bool>, x: int|
        placed.len() == plan.stations.len() && 0 <= x < placed.len() && !#[trigger] placed[x] implies next_ready(
        plan.flows,
        placed,
        0,
    ) is Some by {
        lemma_descent_ends(plan, height, placed, x);
    }
    let placed = Seq::new(plan.stations.len(), |x: int| false);
    lemma_unplaced_all(plan.stations.len());
    lemma_settled_suits(plan, placed, Seq::empty(), plan.stations.len());
}

} // verus!
