//! From desired outputs to a legal plan, in one step.
use vstd::prelude::*;
use crate::catalog::Catalog;
use crate::catalog::Item;
use crate::catalog::Rate;
use crate::catalog::Recipe;
use crate::catalog::in_order;
use crate::expand::expanded;
use crate::expand::recipes_to_make;
use crate::graph::Plan;
use crate::graph::PlanError;
use crate::graph::ProductionGraph;
use crate::graph::walks_into;
use crate::laws::conservation::all_tight;
use crate::laws::conservation::made_by;
use crate::laws::inspection::all_in_step;
use crate::laws::order::inputs_distinct;
use crate::legalize::legal;
use crate::legalize::legalized;
use crate::legalize::sink_search;

verus! {

/// The legal plan that makes the desired outputs: the plan that
/// expansion builds, legalized. It is a function of the recipes and the
/// desired outputs alone.
pub open spec fn planned(recipes: Seq<Recipe>, desired: Seq<(Item, Rate)>) -> Result<Plan, PlanError> {
    match expanded(recipes, desired) {
        Err(e) => Err(e),
        Ok(plan) => if legal(recipes, plan) {
            Ok(plan)
        } else {
            legalized(recipes, plan, sink_search(walks_into(plan), plan))
        },
    }
}

/// Builds the plan that makes the desired outputs and makes it legal.
///
/// The same catalog and the same desired outputs give the same plan,
/// node for node and flow for flow, however often it is asked for. Over
/// a catalog that lists every recipe after the makers of its inputs, no
/// plan is refused for a cycle or for want of an order.
///
/// Legalizing keeps what expansion built: every recipe makes, over all
/// its machines, what its one node made, where expansion fed every node
/// exactly what its output calls for; and every node is fed as evenly as
/// expansion fed it, to within the same tolerance, the new machines too.
pub fn plan_for(catalog: Catalog, outputs: &[(Item, Rate)]) -> (r: Result<ProductionGraph, PlanError>)
    requires
        catalog.wf(),
    ensures
        match planned(catalog@, outputs@) {
            Ok(plan) => r matches Ok(g) && g@ == plan && g.wf() && g.recipes() == catalog@ && legal(
                catalog@,
                plan,
            ),
            Err(e) => r matches Err(x) && x == e,
        },
        in_order(catalog@) ==> (r matches Err(e) ==> e != PlanError::Cycle && e
            != PlanError::Unordered),
        r is Ok && all_tight(catalog@, expanded(catalog@, outputs@).unwrap()) ==> forall|q: int|
            0 <= q <= usize::MAX ==> #[trigger] made_by(r.unwrap()@, q) == made_by(
                expanded(catalog@, outputs@).unwrap(),
                q,
            ),
        r is Ok && inputs_distinct(catalog@) ==> forall|tolerance: Rate|
            tolerance >= 1 && #[trigger] all_in_step(
                catalog@,
                expanded(catalog@, outputs@).unwrap(),
                tolerance,
            ) ==> all_in_step(catalog@, r.unwrap()@, tolerance),
{
    let mut g = match recipes_to_make(catalog, outputs) {
        Err(e) => {
            return Err(e);
        },
        Ok(g) => g,
    };
    match g.legalize() {
        Err(e) => Err(e),
        Ok(()) => Ok(g),
    }
}

} // verus!
