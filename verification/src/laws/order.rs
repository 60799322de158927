//! Orders that suit legalization: consumers before their producers.
use vstd::prelude::*;
use crate::catalog::Item;
use crate::catalog::Rate;
use crate::catalog::Recipe;
use crate::catalog::rates_positive;
use crate::flow::Flow;
use crate::graph::Plan;
use crate::laws::conservation::all_tight;
use crate::laws::conservation::law_legalized_conserves;
use crate::laws::conservation::lemma_split_keeps_tight;
use crate::laws::conservation::made_by;
use crate::laws::conservation::steady;
use crate::laws::conservation::tight;
use crate::laws::inspection::all_in_step;
use crate::laws::inspection::distinct_items;
use crate::laws::inspection::fed_once;
use crate::laws::inspection::law_legalized_in_step;
use crate::laws::inspection::well_wired;
use crate::laws::legal::covers;
use crate::laws::legal::dealt_with;
use crate::laws::legal::law_legalize_idempotent;
use crate::laws::legal::law_legalized_is_legal;
use crate::laws::legal::lemma_split_wf;
use crate::laws::legal::occurs;
use crate::laws::legal::orderly;
use crate::laws::split::lemma_split_keeps_feeders;
use crate::laws::split::no_self_loop;
use crate::laws::split::overloaded;
use crate::legalize::legal;
use crate::legalize::legalized_along;
use crate::legalize::split;
use crate::lemmas::feeding::feeders;
use crate::lemmas::machines::not_feeding;
use crate::lemmas::routes::joins;
use crate::lemmas::routes::lemma_split_routed;
use crate::lemmas::routes::on_route;

verus! {

/// No node occurs twice in `order`.
pub open spec fn no_repeats(order: Seq<usize>) -> bool {
    forall|i: int, j: int| 0 <= i < j < order.len() ==> order[i] != order[j]
}

/// Node `a` occurs in `order` before an occurrence of node `b`.
pub open spec fn earlier(order: Seq<usize>, a: int, b: int) -> bool {
    exists|ja: int, jb: int|
        0 <= ja < jb < order.len() && #[trigger] order[ja] == a && #[trigger] order[jb] == b
}

/// `order` lists nodes of the plan, none twice, and every consumer before
/// its producers: where it lists the source of a flow, it lists the target
/// earlier. No flow leaves a node only to enter it again.
pub open spec fn consumers_first(plan: Plan, order: Seq<usize>) -> bool {
    &&& no_repeats(order)
    &&& forall|j: int| 0 <= j < order.len() ==> (#[trigger] order[j]) < plan.stations.len()
    &&& forall|i: int| 0 <= i < plan.flows.len() ==> (#[trigger] plan.flows[i]).source != plan.flows[i].target
    &&& forall|i: int|
        0 <= i < plan.flows.len() && occurs(order, (#[trigger] plan.flows[i]).source as int) ==> earlier(
            order,
            plan.flows[i].target as int,
            plan.flows[i].source as int,
        )
}

/// Node `x` is among the first `upto` of `order`.
pub open spec fn visited(order: Seq<usize>, upto: int, x: int) -> bool {
    exists|j: int| 0 <= j < upto && j < order.len() && #[trigger] order[j] == x
}

/// Node `x` has been dealt with once the first `upto` nodes of `order`
/// have been made legal, which has turned the plan `origin` into `plan`:
/// it is one of those nodes or a machine made for one.
pub open spec fn done_at(origin: Plan, order: Seq<usize>, upto: int, plan: Plan, x: int) -> bool {
    visited(order, upto, x) || origin.stations.len() <= x < plan.stations.len()
}

/// The nodes that have been dealt with.
pub open spec fn done_set(origin: Plan, order: Seq<usize>, upto: int, plan: Plan) -> Set<int> {
    Set::new(|x: int| done_at(origin, order, upto, plan, x))
}

/// What holds of the flow `g` of `plan` while a plan is legalized
/// consumers first: it joins two different nodes; where its source has
/// been dealt with, so has its target; and where its target has not, the
/// plan at the outset joined the same nodes.
pub open spec fn flow_on_course(origin: Plan, order: Seq<usize>, upto: int, plan: Plan, g: Flow) -> bool {
    &&& g.source != g.target
    &&& done_at(origin, order, upto, plan, g.source as int) ==> done_at(
        origin,
        order,
        upto,
        plan,
        g.target as int,
    )
    &&& !done_at(origin, order, upto, plan, g.target as int) ==> joins(
        origin.flows,
        g.source as int,
        g.target as int,
    )
}

/// The plan `plan` is what legalizing the first `upto` nodes of `order`
/// consumers first may have made of the plan `origin`.
pub open spec fn on_course(origin: Plan, order: Seq<usize>, upto: int, plan: Plan) -> bool {
    &&& origin.stations.len() <= plan.stations.len()
    &&& forall|i: int|
        0 <= i < plan.flows.len() ==> flow_on_course(origin, order, upto, plan, #[trigger] plan.flows[i])
}

/// The node that is looked at next has not been dealt with.
pub proof fn lemma_next_is_new(origin: Plan, order: Seq<usize>, upto: int, plan: Plan)
    requires
        consumers_first(origin, order),
        0 <= upto < order.len(),
    ensures
        !done_at(origin, order, upto, plan, order[upto] as int),
{
    if visited(order, upto, order[upto] as int) {
        let j = choose|j: int| 0 <= j < upto && j < order.len() && #[trigger] order[j] == order[upto];
        assert(order[j] != order[upto]);
    }
}

/// Every node that the node looked at next feeds has been dealt with.
pub proof fn lemma_consumers_are_done(origin: Plan, order: Seq<usize>, upto: int, plan: Plan, i: int)
    requires
        consumers_first(origin, order),
        0 <= upto < order.len(),
        on_course(origin, order, upto, plan),
        0 <= i < plan.flows.len(),
        plan.flows[i].source == order[upto],
    ensures
        done_at(origin, order, upto, plan, plan.flows[i].target as int),
{
    let g = plan.flows[i];
    let n = order[upto] as int;
    assert(flow_on_course(origin, order, upto, plan, g));
    if !done_at(origin, order, upto, plan, g.target as int) {
        let k = choose|k: int|
            0 <= k < origin.flows.len() && (#[trigger] origin.flows[k]).source == g.source
                && origin.flows[k].target == g.target;
        assert(occurs(order, n)) by {
            assert(order[upto] == n);
        }
        assert(earlier(order, g.target as int, n));
        let (ja, jb) = choose|ja: int, jb: int|
            0 <= ja < jb < order.len() && #[trigger] order[ja] == g.target && #[trigger] order[jb] == n;
        if jb < upto {
            assert(order[jb] != order[upto]);
        } else if jb > upto {
            assert(order[upto] != order[jb]);
        }
        assert(order[ja] == g.target);
        assert(visited(order, upto, g.target as int));
    }
}

/// One more node dealt with leaves the plan on course.
pub proof fn lemma_step_stays_on_course(
    recipes: Seq<Recipe>,
    origin: Plan,
    order: Seq<usize>,
    upto: int,
    plan: Plan,
)
    requires
        rates_positive(recipes),
        plan.wf(recipes),
        consumers_first(origin, order),
        0 <= upto < order.len(),
        on_course(origin, order, upto, plan),
        split(recipes, plan, order[upto] as int) is Ok,
    ensures
        on_course(origin, order, upto + 1, split(recipes, plan, order[upto] as int).unwrap()),
        split(recipes, plan, order[upto] as int).unwrap().wf(recipes),
        dealt_with(
            done_set(origin, order, upto, plan),
            plan,
            split(recipes, plan, order[upto] as int).unwrap(),
            order[upto] as int,
        ) == done_set(origin, order, upto + 1, split(recipes, plan, order[upto] as int).unwrap()),
{
    let n = order[upto] as int;
    let next = split(recipes, plan, n).unwrap();
    lemma_split_wf(recipes, plan, n);
    lemma_next_is_new(origin, order, upto, plan);
    // Who has been dealt with after the step.
    assert forall|x: int|
        done_at(origin, order, upto + 1, next, x) == (done_at(origin, order, upto, plan, x) || x == n
            || plan.stations.len() <= x < next.stations.len()) by {
        if visited(order, upto + 1, x) {
            let j = choose|j: int| 0 <= j < upto + 1 && j < order.len() && #[trigger] order[j] == x;
            if j < upto {
                assert(visited(order, upto, x));
            }
        }
        if visited(order, upto, x) {
            let j = choose|j: int| 0 <= j < upto && j < order.len() && #[trigger] order[j] == x;
            assert(visited(order, upto + 1, x));
        }
        if x == n {
            assert(order[upto] == x);
            assert(visited(order, upto + 1, x));
        }
    }
    assert(dealt_with(done_set(origin, order, upto, plan), plan, next, n) =~= done_set(
        origin,
        order,
        upto + 1,
        next,
    ));
    if overloaded(recipes, plan, n) {
        assert(no_self_loop(plan.flows, n)) by {
            assert forall|i: int| 0 <= i < plan.flows.len() implies !((#[trigger] plan.flows[i]).source
                == n && plan.flows[i].target == n) by {
                assert(flow_on_course(origin, order, upto, plan, plan.flows[i]));
            }
        }
        lemma_split_routed(recipes, plan, n);
        let first_new = plan.stations.len() as int;
        assert forall|i: int| 0 <= i < next.flows.len() implies flow_on_course(
            origin,
            order,
            upto + 1,
            next,
            #[trigger] next.flows[i],
        ) by {
            let g = next.flows[i];
            assert(on_route(plan.flows, n, first_new, g));
            assert(g.source < next.stations.len() && g.target < next.stations.len());
            if g.source != n && g.source < first_new && g.target < first_new && joins(
                plan.flows,
                g.source as int,
                g.target as int,
            ) {
                let k = choose|k: int|
                    0 <= k < plan.flows.len() && (#[trigger] plan.flows[k]).source == g.source
                        && plan.flows[k].target == g.target;
                assert(flow_on_course(origin, order, upto, plan, plan.flows[k]));
            } else if (g.source == n || g.source >= first_new) && g.target < first_new && g.target
                != n && joins(plan.flows, n, g.target as int) {
                let k = choose|k: int|
                    0 <= k < plan.flows.len() && (#[trigger] plan.flows[k]).source == n
                        && plan.flows[k].target == g.target;
                lemma_consumers_are_done(origin, order, upto, plan, k);
            } else {
            }
        }
    } else {
        assert forall|i: int| 0 <= i < next.flows.len() implies flow_on_course(
            origin,
            order,
            upto + 1,
            next,
            #[trigger] next.flows[i],
        ) by {
            let g = next.flows[i];
            assert(flow_on_course(origin, order, upto, plan, g));
            if g.source == n {
                lemma_consumers_are_done(origin, order, upto, plan, i);
            }
        }
    }
}

/// A plan on course is legalized in a suitable order from there on.
pub proof fn lemma_course_is_orderly(
    recipes: Seq<Recipe>,
    origin: Plan,
    order: Seq<usize>,
    upto: int,
    plan: Plan,
)
    requires
        rates_positive(recipes),
        plan.wf(recipes),
        consumers_first(origin, order),
        0 <= upto <= order.len(),
        on_course(origin, order, upto, plan),
    ensures
        orderly(recipes, plan, order, upto, done_set(origin, order, upto, plan)),
    decreases order.len() - upto,
{
    if upto < order.len() {
        let n = order[upto] as int;
        let done = done_set(origin, order, upto, plan);
        lemma_next_is_new(origin, order, upto, plan);
        if overloaded(recipes, plan, n) {
            assert forall|i: int| 0 <= i < plan.flows.len() implies !((#[trigger] plan.flows[i]).source
                == n && plan.flows[i].target == n) by {
                assert(flow_on_course(origin, order, upto, plan, plan.flows[i]));
            }
            assert forall|m: int| done.contains(m) implies #[trigger] not_feeding(plan.flows, n, m) by {
                assert forall|i: int| 0 <= i < plan.flows.len() && (#[trigger] plan.flows[i]).target
                    == n implies plan.flows[i].source != m by {
                    assert(flow_on_course(origin, order, upto, plan, plan.flows[i]));
                }
            }
        }
        if split(recipes, plan, n) is Ok {
            let next = split(recipes, plan, n).unwrap();
            lemma_step_stays_on_course(recipes, origin, order, upto, plan);
            lemma_course_is_orderly(recipes, origin, order, upto + 1, next);
        }
    }
}

/// Consumers first is a suitable order.
pub proof fn lemma_consumers_first_is_orderly(recipes: Seq<Recipe>, plan: Plan, order: Seq<usize>)
    requires
        rates_positive(recipes),
        plan.wf(recipes),
        consumers_first(plan, order),
    ensures
        orderly(recipes, plan, order, 0, Set::empty()),
{
    assert forall|i: int| 0 <= i < plan.flows.len() implies flow_on_course(
        plan,
        order,
        0,
        plan,
        #[trigger] plan.flows[i],
    ) by {
        let g = plan.flows[i];
        assert(joins(plan.flows, g.source as int, g.target as int));
    }
    lemma_course_is_orderly(recipes, plan, order, 0, plan);
    assert(done_set(plan, order, 0, plan) =~= Set::<int>::empty());
}

/// Capacity bound: legalizing a plan consumers first, leaving out no
/// node, makes it legal. No node but the sink puts out more than one
/// machine of its recipe can.
pub proof fn law_consumers_first_is_legal(recipes: Seq<Recipe>, plan: Plan, order: Seq<usize>)
    requires
        rates_positive(recipes),
        plan.wf(recipes),
        consumers_first(plan, order),
        covers(order, plan),
        legalized_along(recipes, plan, order, 0) is Ok,
    ensures
        legal(recipes, legalized_along(recipes, plan, order, 0).unwrap()),
{
    lemma_consumers_first_is_orderly(recipes, plan, order);
    law_legalized_is_legal(recipes, plan, order);
}

/// Idempotence: after legalizing a plan consumers first, leaving out no
/// node, legalizing it again, in whatever order, changes nothing.
pub proof fn law_consumers_first_idempotent(
    recipes: Seq<Recipe>,
    plan: Plan,
    order: Seq<usize>,
    again: Seq<usize>,
)
    requires
        rates_positive(recipes),
        plan.wf(recipes),
        consumers_first(plan, order),
        covers(order, plan),
        legalized_along(recipes, plan, order, 0) is Ok,
    ensures
        legalized_along(recipes, legalized_along(recipes, plan, order, 0).unwrap(), again, 0)
            == legalized_along(recipes, plan, order, 0),
{
    lemma_consumers_first_is_orderly(recipes, plan, order);
    law_legalize_idempotent(recipes, plan, order, again);
}

/// No recipe lists an item twice among its inputs.
pub open spec fn inputs_distinct(recipes: Seq<Recipe>) -> bool {
    forall|r: int| 0 <= r < recipes.len() ==> distinct_items((#[trigger] recipes[r]).inputs@)
}

/// No item enters a node of the plan on more than one flow.
pub open spec fn all_fed_once(plan: Plan) -> bool {
    forall|u: int| #[trigger] fed_once(plan.flows, u)
}

/// No item enters a node on more than one flow, among the nodes that
/// have not been dealt with.
pub open spec fn fresh_fed_once(origin: Plan, order: Seq<usize>, upto: int, plan: Plan) -> bool {
    forall|u: int|
        0 <= u < origin.stations.len() && !done_at(origin, order, upto, plan, u) ==> #[trigger] fed_once(
            plan.flows,
            u,
        )
}

/// A plan on course, whose nodes not yet dealt with are fed each item by
/// one flow at most, is wired well for every split to come.
pub proof fn lemma_course_is_well_wired(
    recipes: Seq<Recipe>,
    origin: Plan,
    order: Seq<usize>,
    upto: int,
    plan: Plan,
)
    requires
        rates_positive(recipes),
        inputs_distinct(recipes),
        plan.wf(recipes),
        consumers_first(origin, order),
        0 <= upto <= order.len(),
        on_course(origin, order, upto, plan),
        fresh_fed_once(origin, order, upto, plan),
    ensures
        well_wired(recipes, plan, order, upto),
    decreases order.len() - upto,
{
    if upto < order.len() {
        let n = order[upto] as int;
        lemma_next_is_new(origin, order, upto, plan);
        assert(no_self_loop(plan.flows, n)) by {
            assert forall|i: int| 0 <= i < plan.flows.len() implies !((#[trigger] plan.flows[i]).source
                == n && plan.flows[i].target == n) by {
                assert(flow_on_course(origin, order, upto, plan, plan.flows[i]));
            }
        }
        assert(fed_once(plan.flows, n));
        if split(recipes, plan, n) is Ok {
            let next = split(recipes, plan, n).unwrap();
            lemma_step_stays_on_course(recipes, origin, order, upto, plan);
            lemma_split_wf(recipes, plan, n);
            assert forall|u: int|
                0 <= u < origin.stations.len() && !done_at(
                    origin,
                    order,
                    upto + 1,
                    next,
                    u,
                ) implies #[trigger] fed_once(next.flows, u) by {
                assert(done_set(origin, order, upto + 1, next).contains(u) == done_at(
                    origin,
                    order,
                    upto + 1,
                    next,
                    u,
                ));
                assert(dealt_with(done_set(origin, order, upto, plan), plan, next, n).contains(u)
                    == (done_at(origin, order, upto, plan, u) || u == n || plan.stations.len() <= u
                    < next.stations.len()));
                assert(!done_at(origin, order, upto, plan, u) && u != n);
                assert(fed_once(plan.flows, u));
                assert(not_feeding(plan.flows, u, n)) by {
                    assert forall|i: int| 0 <= i < plan.flows.len() && (#[trigger] plan.flows[i]).target
                        == u implies plan.flows[i].source != n by {
                        if plan.flows[i].source == n {
                            lemma_consumers_are_done(origin, order, upto, plan, i);
                        }
                    }
                }
                assert forall|item: Item| #[trigger] feeders(next.flows, u, item) <= 1 by {
                    lemma_split_keeps_feeders(recipes, plan, n, u, item);
                    assert(feeders(plan.flows, u, item) <= 1);
                }
            }
            lemma_course_is_well_wired(recipes, origin, order, upto + 1, next);
        }
    }
}

/// Utilization consistency: legalizing a plan consumers first keeps every
/// node fed evenly. Where no recipe lists an item twice, no item enters a
/// node on two flows, and every node is in step to within some tolerance
/// of one rate unit or more, every node is in step after legalization,
/// the new machines too.
pub proof fn law_consumers_first_stays_in_step(
    recipes: Seq<Recipe>,
    plan: Plan,
    order: Seq<usize>,
    tolerance: Rate,
)
    requires
        rates_positive(recipes),
        inputs_distinct(recipes),
        plan.wf(recipes),
        consumers_first(plan, order),
        all_fed_once(plan),
        tolerance >= 1,
        all_in_step(recipes, plan, tolerance),
        legalized_along(recipes, plan, order, 0) is Ok,
    ensures
        all_in_step(recipes, legalized_along(recipes, plan, order, 0).unwrap(), tolerance),
{
    assert forall|i: int| 0 <= i < plan.flows.len() implies flow_on_course(
        plan,
        order,
        0,
        plan,
        #[trigger] plan.flows[i],
    ) by {
        let g = plan.flows[i];
        assert(joins(plan.flows, g.source as int, g.target as int));
    }
    lemma_course_is_well_wired(recipes, plan, order, 0, plan);
    law_legalized_in_step(recipes, plan, order, 0, tolerance);
}

/// Every machine that has not been dealt with is fed exactly what its
/// output calls for.
pub open spec fn fresh_tight(
    recipes: Seq<Recipe>,
    origin: Plan,
    order: Seq<usize>,
    upto: int,
    plan: Plan,
) -> bool {
    forall|u: int|
        0 <= u < origin.stations.len() && plan.stations[u] is Maker && !done_at(
            origin,
            order,
            upto,
            plan,
            u,
        ) ==> #[trigger] tight(recipes, plan, u)
}

/// A plan on course, whose machines not yet dealt with are fed exactly
/// what their output calls for, is fed so at every split to come.
pub proof fn lemma_course_is_steady(
    recipes: Seq<Recipe>,
    origin: Plan,
    order: Seq<usize>,
    upto: int,
    plan: Plan,
)
    requires
        rates_positive(recipes),
        plan.wf(recipes),
        consumers_first(origin, order),
        0 <= upto <= order.len(),
        on_course(origin, order, upto, plan),
        fresh_tight(recipes, origin, order, upto, plan),
    ensures
        steady(recipes, plan, order, upto),
    decreases order.len() - upto,
{
    if upto < order.len() {
        let n = order[upto] as int;
        lemma_next_is_new(origin, order, upto, plan);
        assert(no_self_loop(plan.flows, n)) by {
            assert forall|i: int| 0 <= i < plan.flows.len() implies !((#[trigger] plan.flows[i]).source
                == n && plan.flows[i].target == n) by {
                assert(flow_on_course(origin, order, upto, plan, plan.flows[i]));
            }
        }
        if overloaded(recipes, plan, n) {
            assert(tight(recipes, plan, n));
        }
        if split(recipes, plan, n) is Ok {
            let next = split(recipes, plan, n).unwrap();
            lemma_step_stays_on_course(recipes, origin, order, upto, plan);
            lemma_split_wf(recipes, plan, n);
            assert forall|u: int|
                0 <= u < origin.stations.len() && next.stations[u] is Maker && !done_at(
                    origin,
                    order,
                    upto + 1,
                    next,
                    u,
                ) implies #[trigger] tight(recipes, next, u) by {
                assert(done_set(origin, order, upto + 1, next).contains(u) == done_at(
                    origin,
                    order,
                    upto + 1,
                    next,
                    u,
                ));
                assert(dealt_with(done_set(origin, order, upto, plan), plan, next, n).contains(u)
                    == (done_at(origin, order, upto, plan, u) || u == n || plan.stations.len() <= u
                    < next.stations.len()));
                assert(!done_at(origin, order, upto, plan, u) && u != n);
                assert(tight(recipes, plan, u));
                assert(not_feeding(plan.flows, u, n)) by {
                    assert forall|i: int| 0 <= i < plan.flows.len() && (#[trigger] plan.flows[i]).target
                        == u implies plan.flows[i].source != n by {
                        if plan.flows[i].source == n {
                            lemma_consumers_are_done(origin, order, upto, plan, i);
                        }
                    }
                }
                lemma_split_keeps_tight(recipes, plan, n, u);
            }
            lemma_course_is_steady(recipes, origin, order, upto + 1, next);
        }
    }
}

/// Flow conservation: legalizing a plan consumers first, in which every
/// machine is fed exactly what its output calls for, leaves what every
/// recipe makes, over all its machines, what it was.
pub proof fn law_consumers_first_conserves(
    recipes: Seq<Recipe>,
    plan: Plan,
    order: Seq<usize>,
    q: int,
)
    requires
        rates_positive(recipes),
        plan.wf(recipes),
        consumers_first(plan, order),
        all_tight(recipes, plan),
        legalized_along(recipes, plan, order, 0) is Ok,
        0 <= q <= usize::MAX,
    ensures
        made_by(legalized_along(recipes, plan, order, 0).unwrap(), q) == made_by(plan, q),
{
    assert forall|i: int| 0 <= i < plan.flows.len() implies flow_on_course(
        plan,
        order,
        0,
        plan,
        #[trigger] plan.flows[i],
    ) by {
        let g = plan.flows[i];
        assert(joins(plan.flows, g.source as int, g.target as int));
    }
    lemma_course_is_steady(recipes, plan, order, 0, plan);
    law_legalized_conserves(recipes, plan, order, 0, q);
}

} // verus!
