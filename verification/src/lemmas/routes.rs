//! Where the flows of a split plan run: along the routes of the plan
//! before, with the machines standing in for the split node.
use vstd::prelude::*;
use crate::catalog::Recipe;
use crate::catalog::rates_positive;
use crate::flow::Flow;
use crate::graph::Plan;
use crate::laws::split::copies;
use crate::laws::split::lemma_split_setting;
use crate::laws::split::no_self_loop;
use crate::laws::split::overloaded;
use crate::laws::split::pieces;
use crate::legalize::capacity;
use crate::legalize::leaving;
use crate::legalize::lemma_leaving_each;
use crate::legalize::recipe_at;
use crate::legalize::split;
use crate::legalize::stripped;
use crate::lemmas::accounting::lemma_stripped_each;
use crate::lemmas::serving::carried_over;
use crate::lemmas::serving::lemma_served_each;
use crate::slicing::blind_to_rate;
use crate::slicing::each;
use crate::slicing::lemma_ascending_each;
use crate::slicing::lemma_sliced_each;
use crate::slicing::sliced;

verus! {

/// Some flow of the list runs from `a` to `b`.
pub open spec fn joins(flows: Seq<Flow>, a: int, b: int) -> bool {
    exists|i: int| 0 <= i < flows.len() && (#[trigger] flows[i]).source == a && flows[i].target == b
}

/// The flow `g` runs along a route of `before`, a plan of `first_new`
/// nodes in which node `n` is split: it joins two nodes that were joined
/// and does not leave `n`; or it leaves a machine for a node that `n` fed;
/// or it enters a new machine from a node that fed `n`.
pub open spec fn on_route(before: Seq<Flow>, n: int, first_new: int, g: Flow) -> bool {
    ||| g.source != n && g.source < first_new && g.target < first_new && joins(
        before,
        g.source as int,
        g.target as int,
    )
    ||| (g.source == n || g.source >= first_new) && g.target < first_new && g.target != n && joins(
        before,
        n,
        g.target as int,
    )
    ||| g.target >= first_new && g.source < first_new && g.source != n && joins(
        before,
        g.source as int,
        n,
    )
}

/// Every flow of the list runs along a route of `before`.
pub open spec fn routed(flows: Seq<Flow>, before: Seq<Flow>, n: int, first_new: int) -> bool {
    forall|i: int| 0 <= i < flows.len() ==> on_route(before, n, first_new, #[trigger] flows[i])
}

/// After a split of an overloaded node, every flow runs along a route of
/// the plan before.
pub proof fn lemma_split_routed(recipes: Seq<Recipe>, plan: Plan, n: int)
    requires
        rates_positive(recipes),
        plan.wf(recipes),
        overloaded(recipes, plan, n),
        no_self_loop(plan.flows, n),
        split(recipes, plan, n) is Ok,
    ensures
        routed(split(recipes, plan, n).unwrap().flows, plan.flows, n, plan.stations.len() as int),
{
    lemma_split_setting(recipes, plan, n);
    let cap = capacity(recipes, plan, n);
    let reps = copies(recipes, plan, n);
    let first_new = plan.stations.len() as int;
    let s = stripped(plan.flows, n);
    let p = pieces(recipes, plan, n);
    let before = plan.flows;
    let known = |g: Flow| joins(before, g.source as int, g.target as int);
    assert(each(before, known));
    lemma_stripped_each(before, n, 0, known);
    assert forall|i: int| 0 <= i < s.len() implies on_route(before, n, first_new, #[trigger] s[i]) by {
        assert(known(s[i]));
    }
    let went = |f: Flow| f.target < first_new && f.target != n && joins(before, n, f.target as int);
    assert(blind_to_rate(went));
    lemma_leaving_each(before, n, 0, went);
    lemma_sliced_each(leaving(before, n), cap, went);
    lemma_ascending_each(sliced(leaving(before, n), cap), went);
    let ok = |g: Flow| on_route(before, n, first_new, g);
    assert(carried_over(n, first_new, reps, ok, went));
    lemma_served_each(recipe_at(recipes, plan, n).inputs@, cap, n, first_new, reps, s, p, 0, ok, went);
    let after = split(recipes, plan, n).unwrap();
    assert forall|i: int| 0 <= i < after.flows.len() implies on_route(
        before,
        n,
        first_new,
        #[trigger] after.flows[i],
    ) by {
        assert(ok(after.flows[i]));
    }
}

} // verus!
