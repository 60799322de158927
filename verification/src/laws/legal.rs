//! What legalizing a plan promises.
use vstd::prelude::*;
use crate::catalog::Item;
use crate::catalog::Rate;
use crate::catalog::Recipe;
use crate::catalog::Station;
use crate::catalog::rates_positive;
use crate::flow::Flow;
use crate::flow::total_out;
use crate::graph::INDEX_LIMIT;
use crate::graph::Plan;
use crate::graph::PlanError;
use crate::laws::split::copies;
use crate::laws::split::law_split_keeps_output;
use crate::laws::split::law_split_within_capacity;
use crate::laws::split::no_self_loop;
use crate::laws::split::overloaded;
use crate::laws::split::pieces;
use crate::legalize::capacity;
use crate::legalize::equipped;
use crate::legalize::instance;
use crate::legalize::leaving;
use crate::legalize::legal;
use crate::legalize::legalized_along;
use crate::legalize::lemma_leaving_each;
use crate::legalize::nourished;
use crate::legalize::recipe_at;
use crate::legalize::served;
use crate::legalize::shipped;
use crate::legalize::split;
use crate::legalize::stripped;
use crate::legalize::within;
use crate::lemmas::machines::not_feeding;
use crate::lemmas::machines::taking;
use crate::lemmas::serving::carried_over;
use crate::lemmas::serving::lemma_served_each;
use crate::slicing::ascending;
use crate::slicing::each;
use crate::slicing::filled;
use crate::slicing::lemma_ascending_each;
use crate::slicing::lemma_sliced_each;
use crate::slicing::sliced;

verus! {

/// Shipping succeeds only where the list stays within the limit.
pub proof fn lemma_shipped_fits(flows: Seq<Flow>, inst: int, taken: Seq<Flow>)
    requires
        flows.len() <= INDEX_LIMIT,
        shipped(flows, inst, taken) is Ok,
    ensures
        shipped(flows, inst, taken).unwrap().len() <= INDEX_LIMIT,
    decreases taken.len(),
{
    if taken.len() > 0 {
        lemma_shipped_fits(flows, inst, taken.drop_last());
    }
}

/// Feeding succeeds only where the list stays within the limit.
pub proof fn lemma_nourished_len(
    flows: Seq<Flow>,
    n: int,
    inst: int,
    inputs: Seq<(Item, Rate)>,
    cap: Rate,
    amount: Rate,
    from: int,
)
    requires
        flows.len() <= INDEX_LIMIT,
        0 <= from <= flows.len(),
        nourished(flows, n, inst, inputs, cap, amount, from) is Ok,
    ensures
        flows.len() <= nourished(flows, n, inst, inputs, cap, amount, from).unwrap().len()
            <= INDEX_LIMIT,
    decreases flows.len() - from,
{
    if from < flows.len() {
        lemma_nourished_len(flows, n, inst, inputs, cap, amount, from + 1);
    }
}

/// Equipping a machine succeeds only where the list stays within the limit.
pub proof fn lemma_equipped_fits(
    inputs: Seq<(Item, Rate)>,
    cap: Rate,
    n: int,
    inst: int,
    flows: Seq<Flow>,
    stack: Seq<Flow>,
)
    requires
        flows.len() <= INDEX_LIMIT,
        equipped(inputs, cap, n, inst, flows, stack) is Ok,
    ensures
        equipped(inputs, cap, n, inst, flows, stack).unwrap().len() <= INDEX_LIMIT,
{
    let taken = filled(stack, cap).taken;
    lemma_shipped_fits(flows, inst, taken);
    lemma_nourished_len(
        shipped(flows, inst, taken).unwrap(),
        n,
        inst,
        inputs,
        cap,
        taking(stack, cap),
        0,
    );
}

/// Serving the machines succeeds only where the list stays within the limit.
pub proof fn lemma_served_fits(
    inputs: Seq<(Item, Rate)>,
    cap: Rate,
    n: int,
    first_new: int,
    reps: int,
    flows: Seq<Flow>,
    stack: Seq<Flow>,
    k: int,
)
    requires
        0 <= k <= reps,
        flows.len() <= INDEX_LIMIT,
        served(inputs, cap, n, first_new, reps, flows, stack, k) is Ok,
    ensures
        served(inputs, cap, n, first_new, reps, flows, stack, k).unwrap().len() <= INDEX_LIMIT,
    decreases reps - k,
{
    if k < reps {
        let inst = instance(n, first_new, reps, k);
        lemma_equipped_fits(inputs, cap, n, inst, flows, stack);
        lemma_served_fits(
            inputs,
            cap,
            n,
            first_new,
            reps,
            equipped(inputs, cap, n, inst, flows, stack).unwrap(),
            filled(stack, cap).rest,
            k + 1,
        );
    }
}

/// A split keeps the plan well formed.
pub proof fn lemma_split_wf(recipes: Seq<Recipe>, plan: Plan, n: int)
    requires
        rates_positive(recipes),
        plan.wf(recipes),
        split(recipes, plan, n) is Ok,
    ensures
        split(recipes, plan, n).unwrap().wf(recipes),
        plan.stations.len() <= split(recipes, plan, n).unwrap().stations.len(),
        forall|x: int|
            0 <= x < plan.stations.len() ==> #[trigger] split(recipes, plan, n).unwrap().stations[x]
                == plan.stations[x],
        forall|x: int|
            plan.stations.len() <= x < split(recipes, plan, n).unwrap().stations.len()
                ==> #[trigger] split(recipes, plan, n).unwrap().stations[x] == plan.stations[n],
        !overloaded(recipes, plan, n) ==> split(recipes, plan, n).unwrap() == plan,
{
    if overloaded(recipes, plan, n) {
        let r = plan.stations[n]->Maker_0 as int;
        assert(plan.stations[n] == Station::Maker(r as usize));
        let cap = capacity(recipes, plan, n);
        let reps = copies(recipes, plan, n);
        let first_new = plan.stations.len() as int;
        let bound = first_new + reps - 1;
        crate::rate::lemma_div_up(total_out(plan.flows, n), cap as int);
        assert(reps >= 2) by (nonlinear_arith)
            requires
                total_out(plan.flows, n) <= reps * cap,
                total_out(plan.flows, n) > cap,
                cap > 0,
        ;
        let after = split(recipes, plan, n).unwrap();
        let ok = |f: Flow| f.source < bound && f.target < bound;
        assert(each(plan.flows, ok));
        crate::lemmas::accounting::lemma_stripped_each(plan.flows, n, 0, ok);
        crate::lemmas::accounting::lemma_stripped_prefix(plan.flows, n, 0);
        lemma_leaving_each(plan.flows, n, 0, ok);
        lemma_sliced_each(leaving(plan.flows, n), cap, ok);
        lemma_ascending_each(sliced(leaving(plan.flows, n), cap), ok);
        let s = stripped(plan.flows, n);
        let p = pieces(recipes, plan, n);
        let inputs = recipe_at(recipes, plan, n).inputs@;
        assert(carried_over(n, first_new, reps, ok, ok));
        lemma_served_each(inputs, cap, n, first_new, reps, s, p, 0, ok, ok);
        lemma_served_fits(inputs, cap, n, first_new, reps, s, p, 0);
        assert forall|i: int| 0 <= i < after.flows.len() implies (#[trigger] after.flows[i]).source
            < after.stations.len() && after.flows[i].target < after.stations.len() by {
            assert(ok(after.flows[i]));
        }
        assert(after.stations =~= plan.stations + Seq::new(
            (reps - 1) as nat,
            |k: int| Station::Maker(r as usize),
        ));
    }
}

/// A node that puts out exactly what one machine can, or less, is not
/// split: the plan stays as it is.
pub proof fn law_within_capacity_is_kept(recipes: Seq<Recipe>, plan: Plan, n: int)
    requires
        within(recipes, plan, n),
    ensures
        split(recipes, plan, n) == Ok::<Plan, PlanError>(plan),
{
}

/// Legalizing a legal plan changes nothing, whatever the order in which
/// the nodes are looked at.
pub proof fn law_legal_is_fixed(recipes: Seq<Recipe>, plan: Plan, order: Seq<usize>, from: int)
    requires
        legal(recipes, plan),
    ensures
        legalized_along(recipes, plan, order, from) == Ok::<Plan, PlanError>(plan),
    decreases order.len() - from,
{
    if 0 <= from < order.len() {
        assert(within(recipes, plan, order[from] as int));
        law_legal_is_fixed(recipes, plan, order, from + 1);
    }
}

/// The nodes that are dealt with once node `n` of `plan` has been made
/// legal, giving `next`: those dealt with before, the node itself, and
/// the machines made for it.
pub open spec fn dealt_with(done: Set<int>, plan: Plan, next: Plan, n: int) -> Set<int> {
    Set::new(|x: int| done.contains(x) || x == n || plan.stations.len() <= x < next.stations.len())
}

/// The nodes `order[from]`, `order[from + 1]`, ... are looked at in an
/// order that suits legalization: whenever a node is split, no flow leaves
/// it only to enter it again, and none of the nodes dealt with before
/// feeds it.
pub open spec fn orderly(
    recipes: Seq<Recipe>,
    plan: Plan,
    order: Seq<usize>,
    from: int,
    done: Set<int>,
) -> bool
    decreases order.len() - from,
{
    if from < 0 || from >= order.len() {
        true
    } else {
        let n = order[from] as int;
        &&& overloaded(recipes, plan, n) ==> no_self_loop(plan.flows, n) && forall|m: int|
            done.contains(m) ==> #[trigger] not_feeding(plan.flows, n, m)
        &&& match split(recipes, plan, n) {
            Err(_) => true,
            Ok(next) => orderly(recipes, next, order, from + 1, dealt_with(done, plan, next, n)),
        }
    }
}

/// Legalizing in a suitable order leaves every node that was dealt with
/// within capacity: the nodes looked at, and the machines made on the way.
pub proof fn law_legalized_within_capacity(
    recipes: Seq<Recipe>,
    plan: Plan,
    order: Seq<usize>,
    from: int,
    done: Set<int>,
    m: int,
)
    requires
        rates_positive(recipes),
        plan.wf(recipes),
        0 <= from <= order.len(),
        orderly(recipes, plan, order, from, done),
        forall|x: int| done.contains(x) ==> within(recipes, plan, x),
        legalized_along(recipes, plan, order, from) is Ok,
        done.contains(m) || (exists|j: int| from <= j < order.len() && order[j] == m)
            || plan.stations.len() <= m,
    ensures
        within(recipes, legalized_along(recipes, plan, order, from).unwrap(), m),
    decreases order.len() - from,
{
    if from < order.len() {
        let n = order[from] as int;
        let next = split(recipes, plan, n).unwrap();
        let then = dealt_with(done, plan, next, n);
        lemma_split_wf(recipes, plan, n);
        assert forall|x: int| then.contains(x) implies within(recipes, next, x) by {
            if 0 <= x < next.stations.len() && next.stations[x] is Maker {
                if overloaded(recipes, plan, n) {
                    if x == n || plan.stations.len() <= x {
                        law_split_within_capacity(recipes, plan, n, x);
                    } else {
                        assert(done.contains(x));
                        assert(not_feeding(plan.flows, n, x));
                        assert(within(recipes, plan, x));
                        law_split_keeps_output(recipes, plan, n, x);
                    }
                } else {
                    if x == n {
                    } else {
                        assert(done.contains(x));
                        assert(within(recipes, plan, x));
                    }
                }
            }
        }
        if done.contains(m) || m == n || plan.stations.len() <= m < next.stations.len() {
            assert(then.contains(m));
        } else if plan.stations.len() <= m {
        } else {
            let j = choose|j: int| from <= j < order.len() && order[j] == m;
            assert(from + 1 <= j);
        }
        law_legalized_within_capacity(recipes, next, order, from + 1, then, m);
    }
}

/// Node `n` occurs in `order`.
pub open spec fn occurs(order: Seq<usize>, n: int) -> bool {
    exists|j: int| 0 <= j < order.len() && #[trigger] order[j] == n
}

/// Every node of the plan occurs in `order`.
pub open spec fn covers(order: Seq<usize>, plan: Plan) -> bool {
    forall|n: int| 0 <= n < plan.stations.len() ==> #[trigger] occurs(order, n)
}

/// Legalizing in a suitable order that leaves out no node makes the plan
/// legal: no node but the sink puts out more than one machine of its
/// recipe can.
pub proof fn law_legalized_is_legal(recipes: Seq<Recipe>, plan: Plan, order: Seq<usize>)
    requires
        rates_positive(recipes),
        plan.wf(recipes),
        orderly(recipes, plan, order, 0, Set::empty()),
        covers(order, plan),
        legalized_along(recipes, plan, order, 0) is Ok,
    ensures
        legal(recipes, legalized_along(recipes, plan, order, 0).unwrap()),
{
    let after = legalized_along(recipes, plan, order, 0).unwrap();
    assert forall|m: int| within(recipes, after, m) by {
        if 0 <= m {
            if m < plan.stations.len() {
                assert(occurs(order, m));
            }
            law_legalized_within_capacity(recipes, plan, order, 0, Set::empty(), m);
        }
    }
}

/// Legalizing twice is legalizing once: after a legalization in a
/// suitable order that leaves out no node, legalizing again, in whatever
/// order, changes nothing.
pub proof fn law_legalize_idempotent(
    recipes: Seq<Recipe>,
    plan: Plan,
    order: Seq<usize>,
    again: Seq<usize>,
)
    requires
        rates_positive(recipes),
        plan.wf(recipes),
        orderly(recipes, plan, order, 0, Set::empty()),
        covers(order, plan),
        legalized_along(recipes, plan, order, 0) is Ok,
    ensures
        legalized_along(recipes, legalized_along(recipes, plan, order, 0).unwrap(), again, 0)
            == legalized_along(recipes, plan, order, 0),
{
    law_legalized_is_legal(recipes, plan, order);
    law_legal_is_fixed(recipes, legalized_along(recipes, plan, order, 0).unwrap(), again, 0);
}

/// The error is one that a split can fail with: the graph is full, a rate
/// is out of range, or an input is foreign.
pub open spec fn of_a_split(e: PlanError) -> bool {
    e == PlanError::GraphFull || e == PlanError::RateOverflow || e == PlanError::ForeignInput
}

/// Shipping fails only where the graph is full.
pub proof fn lemma_shipped_error(flows: Seq<Flow>, inst: int, taken: Seq<Flow>)
    ensures
        shipped(flows, inst, taken) matches Err(e) ==> of_a_split(e),
    decreases taken.len(),
{
    if taken.len() > 0 {
        lemma_shipped_error(flows, inst, taken.drop_last());
    }
}

/// Feeding fails only where the graph is full or a rate is out of range.
pub proof fn lemma_nourished_error(
    flows: Seq<Flow>,
    n: int,
    inst: int,
    inputs: Seq<(Item, Rate)>,
    cap: Rate,
    amount: Rate,
    from: int,
)
    ensures
        nourished(flows, n, inst, inputs, cap, amount, from) matches Err(e) ==> of_a_split(e),
    decreases flows.len() - from,
{
    if 0 <= from < flows.len() {
        lemma_nourished_error(flows, n, inst, inputs, cap, amount, from + 1);
    }
}

/// Serving the machines fails only as a split can fail.
pub proof fn lemma_served_error(
    inputs: Seq<(Item, Rate)>,
    cap: Rate,
    n: int,
    first_new: int,
    reps: int,
    flows: Seq<Flow>,
    stack: Seq<Flow>,
    k: int,
)
    ensures
        served(inputs, cap, n, first_new, reps, flows, stack, k) matches Err(e) ==> of_a_split(e),
    decreases reps - k,
{
    if 0 <= k < reps {
        let inst = instance(n, first_new, reps, k);
        let taken = filled(stack, cap).taken;
        lemma_shipped_error(flows, inst, taken);
        if let Ok(with_outputs) = shipped(flows, inst, taken) {
            lemma_nourished_error(with_outputs, n, inst, inputs, cap, taking(stack, cap), 0);
        }
        if let Ok(next) = equipped(inputs, cap, n, inst, flows, stack) {
            lemma_served_error(inputs, cap, n, first_new, reps, next, filled(stack, cap).rest, k + 1);
        }
    }
}

/// Legalizing along an order fails only as a split can fail: not for
/// want of order.
pub proof fn lemma_legalized_along_error(
    recipes: Seq<Recipe>,
    plan: Plan,
    order: Seq<usize>,
    from: int,
)
    ensures
        legalized_along(recipes, plan, order, from) matches Err(e) ==> of_a_split(e),
    decreases order.len() - from,
{
    if 0 <= from < order.len() {
        let n = order[from] as int;
        if 0 <= n < plan.stations.len() {
            if let Station::Maker(r) = plan.stations[n] {
                lemma_served_error(
                    recipes[r as int].inputs@,
                    recipes[r as int].output_rate,
                    n,
                    plan.stations.len() as int,
                    crate::rate::machines(total_out(plan.flows, n), recipes[r as int].output_rate),
                    stripped(plan.flows, n),
                    ascending(sliced(leaving(plan.flows, n), recipes[r as int].output_rate)),
                    0,
                );
            }
        }
        if let Ok(next) = split(recipes, plan, n) {
            lemma_legalized_along_error(recipes, next, order, from + 1);
        }
    }
}

} // verus!
