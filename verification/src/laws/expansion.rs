//! What expansion promises of a catalog without cycles.
use vstd::prelude::*;
use crate::catalog::Item;
use crate::catalog::Rate;
use crate::catalog::Recipe;
use crate::catalog::Station;
use crate::catalog::in_order;
use crate::catalog::lemma_producer_from;
use crate::catalog::producer;
use crate::expand::demanded;
use crate::expand::expanded;
use crate::expand::expanded_from;
use crate::expand::fed;
use crate::expand::flow_from;
use crate::expand::lemma_station_from;
use crate::expand::placed;
use crate::expand::simple;
use crate::expand::supplied;
use crate::expand::unique;
use crate::expand::wired;
use crate::flow::Flow;
use crate::flow::Tally;
use crate::flow::counts;
use crate::flow::lemma_count_at_most_one;
use crate::graph::INDEX_LIMIT;
use crate::graph::Plan;
use crate::graph::PlanError;
use crate::laws::inspection::carries;
use crate::laws::inspection::fed_once;
use crate::laws::placing::law_downhill_plan_is_ordered;
use crate::legalize::recipe_at;
use crate::lemmas::feeding::feeders;
use crate::lemmas::feeding::lemma_feeders_count;
use crate::order::consumers_order;
use crate::order::suiting;
use crate::rate::scaled;

verus! {

/// `rank` gives every recipe a number below the number of recipes, and
/// the recipe that makes an input a smaller number than the recipe that
/// consumes it. In a catalog with such a ranking no chain of recipes
/// feeds on itself.
pub open spec fn ranked(recipes: Seq<Recipe>, rank: Seq<nat>) -> bool {
    &&& rank.len() == recipes.len()
    &&& forall|r: int| 0 <= r < recipes.len() ==> (#[trigger] rank[r]) < recipes.len()
    &&& forall|r: int, k: int|
        0 <= r < recipes.len() && 0 <= k < recipes[r].inputs@.len() ==> match producer(
            recipes,
            (#[trigger] recipes[r].inputs@[k]).0,
        ) {
            Some(p) => rank[p] < rank[r],
            None => true,
        }
}

/// The ranking that gives every recipe its position in the list.
pub open spec fn positions(recipes: Seq<Recipe>) -> Seq<nat> {
    Seq::new(recipes.len(), |r: int| r as nat)
}

/// A catalog listed in order is ranked by the positions of its recipes.
pub proof fn lemma_in_order_is_ranked(recipes: Seq<Recipe>)
    requires
        in_order(recipes),
    ensures
        ranked(recipes, positions(recipes)),
{
    let rank = positions(recipes);
    assert forall|r: int, k: int|
        0 <= r < recipes.len() && 0 <= k < recipes[r].inputs@.len() implies match producer(
        recipes,
        (#[trigger] recipes[r].inputs@[k]).0,
    ) {
        Some(p) => rank[p] < rank[r],
        None => true,
    } by {
        lemma_producer_from(recipes, recipes[r].inputs@[k].0, 0);
    }
}

/// A demand whose budget exceeds the rank of the recipe that meets it
/// never runs out of budget.
pub proof fn lemma_demanded_within_budget(
    recipes: Seq<Recipe>,
    rank: Seq<nat>,
    plan: Plan,
    consumer: int,
    item: Item,
    rate: Rate,
    budget: nat,
)
    requires
        ranked(recipes, rank),
        producer(recipes, item) matches Some(r) ==> rank[r] < budget,
    ensures
        demanded(recipes, plan, consumer, item, rate, budget) != Err::<Plan, PlanError>(
            PlanError::Cycle,
        ),
    decreases budget, 0nat,
{
    lemma_producer_from(recipes, item, 0);
    if let Some(r) = producer(recipes, item) {
        if let Ok((with_node, node)) = placed(plan, Station::Maker(r as usize)) {
            if let Ok(with_flow) = fed(with_node, node, consumer, item, rate) {
                lemma_supplied_within_budget(
                    recipes,
                    rank,
                    with_flow,
                    node,
                    r,
                    rate,
                    recipes[r].inputs@.len(),
                    (budget - 1) as nat,
                );
            }
        }
    }
}

/// Asking for the inputs of a recipe whose rank the budget reaches never
/// runs out of budget.
pub proof fn lemma_supplied_within_budget(
    recipes: Seq<Recipe>,
    rank: Seq<nat>,
    plan: Plan,
    node: int,
    r: int,
    rate: Rate,
    upto: nat,
    budget: nat,
)
    requires
        ranked(recipes, rank),
        0 <= r < recipes.len(),
        upto <= recipes[r].inputs@.len(),
        rank[r] <= budget,
    ensures
        supplied(recipes, plan, node, r, rate, upto, budget) != Err::<Plan, PlanError>(
            PlanError::Cycle,
        ),
    decreases budget, upto,
{
    if upto > 0 {
        let input = recipes[r].inputs@[upto - 1];
        let asked = scaled(rate, input.1, recipes[r].output_rate);
        if asked <= u64::MAX {
            lemma_demanded_within_budget(recipes, rank, plan, node, input.0, asked as Rate, budget);
            if let Ok(next) = demanded(recipes, plan, node, input.0, asked as Rate, budget) {
                lemma_supplied_within_budget(recipes, rank, next, node, r, rate, (upto - 1) as nat, budget);
            }
        }
    }
}

/// Asking the sink for the desired outputs from index `from` on never
/// runs out of budget over a ranked catalog.
pub proof fn lemma_expanded_within_budget(
    recipes: Seq<Recipe>,
    rank: Seq<nat>,
    plan: Plan,
    desired: Seq<(Item, Rate)>,
    from: int,
)
    requires
        ranked(recipes, rank),
        0 <= from,
    ensures
        expanded_from(recipes, plan, desired, from) != Err::<Plan, PlanError>(PlanError::Cycle),
    decreases desired.len() - from,
{
    if from < desired.len() {
        if let Ok((with_sink, sink)) = placed(plan, Station::Sink) {
            lemma_producer_from(recipes, desired[from].0, 0);
            lemma_demanded_within_budget(
                recipes,
                rank,
                with_sink,
                sink,
                desired[from].0,
                desired[from].1,
                recipes.len(),
            );
            if let Ok(next) = demanded(
                recipes,
                with_sink,
                sink,
                desired[from].0,
                desired[from].1,
                recipes.len(),
            ) {
                lemma_expanded_within_budget(recipes, rank, next, desired, from + 1);
            }
        }
    }
}

/// Expansion over a catalog without cycles never gives up for a cycle.
pub proof fn law_ranked_catalog_has_no_cycle(
    recipes: Seq<Recipe>,
    rank: Seq<nat>,
    desired: Seq<(Item, Rate)>,
)
    requires
        ranked(recipes, rank),
    ensures
        expanded(recipes, desired) != Err::<Plan, PlanError>(PlanError::Cycle),
{
    lemma_expanded_within_budget(
        recipes,
        rank,
        Plan { stations: Seq::empty(), flows: Seq::empty() },
        desired,
        0,
    );
}

/// In a plan as expansion builds it, no item enters a node on two flows:
/// every item has one maker, every maker one node, and every two nodes
/// one flow at most.
pub proof fn law_expanded_is_fed_once(recipes: Seq<Recipe>, plan: Plan, u: int)
    requires
        wired(recipes, plan),
        simple(plan.flows),
        unique(plan.stations),
    ensures
        fed_once(plan.flows, u),
{
    assert forall|item: Item| #[trigger] feeders(plan.flows, u, item) <= 1 by {
        let tally = Tally::Entering(u, item);
        assert forall|i: int, j: int| 0 <= i < j < plan.flows.len() implies !(counts(
            #[trigger] plan.flows[i],
            tally,
        ) && counts(#[trigger] plan.flows[j], tally)) by {
            let f = plan.flows[i];
            let g = plan.flows[j];
            if counts(f, tally) && counts(g, tally) {
                assert(plan.stations[f.source as int] == plan.stations[g.source as int]);
                if f.source < g.source {
                    assert(plan.stations[f.source as int] != plan.stations[g.source as int]);
                } else if g.source < f.source {
                    assert(plan.stations[g.source as int] != plan.stations[f.source as int]);
                }
            }
        }
        lemma_count_at_most_one(plan.flows, tally);
        lemma_feeders_count(plan.flows, u, item, 0);
        assert(plan.flows.take(0) =~= Seq::<Flow>::empty());
    }
}

/// In a plan as expansion builds it, every flow that leaves a machine
/// carries the output of its recipe.
pub proof fn law_expanded_carries_outputs(recipes: Seq<Recipe>, plan: Plan, n: int)
    requires
        recipes.len() <= usize::MAX,
        wired(recipes, plan),
        0 <= n < plan.stations.len(),
        plan.stations[n] is Maker,
    ensures
        carries(plan.flows, n, recipe_at(recipes, plan, n).output),
{
    assert forall|i: int| 0 <= i < plan.flows.len() && (#[trigger] plan.flows[i]).source
        == n implies plan.flows[i].item == recipe_at(recipes, plan, n).output by {
        lemma_producer_from(recipes, plan.flows[i].item, 0);
    }
}

/// Every flow of the plan runs uphill: it leaves a machine, and it enters
/// the sink or a machine whose recipe has a higher rank. A plan whose
/// flows all run uphill has no cycle.
pub open spec fn layered(recipes: Seq<Recipe>, rank: Seq<nat>, plan: Plan) -> bool {
    forall|i: int|
        0 <= i < plan.flows.len() ==> uphill(
            recipes,
            rank,
            plan.stations,
            (#[trigger] plan.flows[i]).source as int,
            plan.flows[i].target as int,
        )
}

/// A flow from node `source` to node `target` would run uphill.
pub open spec fn uphill(
    recipes: Seq<Recipe>,
    rank: Seq<nat>,
    stations: Seq<Station>,
    source: int,
    target: int,
) -> bool {
    &&& 0 <= source < stations.len()
    &&& 0 <= target < stations.len()
    &&& stations[source] matches Station::Maker(p) && p < recipes.len() && match stations[target] {
        Station::Sink => true,
        Station::Maker(r) => r < recipes.len() && rank[p as int] < rank[r as int],
    }
}

/// Node `consumer` may ask for `item`: it is the sink, or a machine whose
/// recipe ranks above the recipe that makes the item.
pub open spec fn may_ask(
    recipes: Seq<Recipe>,
    rank: Seq<nat>,
    stations: Seq<Station>,
    consumer: int,
    item: Item,
) -> bool {
    &&& 0 <= consumer < stations.len()
    &&& match stations[consumer] {
        Station::Sink => true,
        Station::Maker(r) => r < recipes.len() && (producer(recipes, item) matches Some(p) ==> rank[p]
            < rank[r as int]),
    }
}

/// The later plan has the nodes of the earlier one, and maybe more.
pub open spec fn grown(earlier: Plan, later: Plan) -> bool {
    &&& earlier.stations.len() <= later.stations.len()
    &&& forall|x: int| 0 <= x < earlier.stations.len() ==> later.stations[x] == earlier.stations[x]
}

/// A demand over a ranked catalog keeps the flows running uphill.
pub proof fn lemma_demanded_layered(
    recipes: Seq<Recipe>,
    rank: Seq<nat>,
    plan: Plan,
    consumer: int,
    item: Item,
    rate: Rate,
    budget: nat,
)
    requires
        ranked(recipes, rank),
        recipes.len() <= usize::MAX,
        layered(recipes, rank, plan),
        plan.stations.len() <= INDEX_LIMIT,
        may_ask(recipes, rank, plan.stations, consumer, item),
        demanded(recipes, plan, consumer, item, rate, budget) is Ok,
    ensures
        layered(recipes, rank, demanded(recipes, plan, consumer, item, rate, budget).unwrap()),
        grown(plan, demanded(recipes, plan, consumer, item, rate, budget).unwrap()),
        demanded(recipes, plan, consumer, item, rate, budget).unwrap().stations.len() <= INDEX_LIMIT,
    decreases budget, 0nat,
{
    lemma_producer_from(recipes, item, 0);
    if let Some(r) = producer(recipes, item) {
        let station = Station::Maker(r as usize);
        lemma_station_from(plan.stations, station, 0);
        let (with_node, node) = placed(plan, station).unwrap();
        assert(with_node.stations[node] == station);
        assert(grown(plan, with_node));
        assert(uphill(recipes, rank, with_node.stations, node, consumer));
        assert(layered(recipes, rank, with_node)) by {
            assert forall|i: int| 0 <= i < with_node.flows.len() implies uphill(
                recipes,
                rank,
                with_node.stations,
                (#[trigger] with_node.flows[i]).source as int,
                with_node.flows[i].target as int,
            ) by {
                assert(with_node.flows[i] == plan.flows[i]);
            }
        }
        let with_flow = fed(with_node, node, consumer, item, rate).unwrap();
        lemma_flow_from(with_node.flows, node, consumer, 0);
        assert(layered(recipes, rank, with_flow)) by {
            assert forall|i: int| 0 <= i < with_flow.flows.len() implies uphill(
                recipes,
                rank,
                with_flow.stations,
                (#[trigger] with_flow.flows[i]).source as int,
                with_flow.flows[i].target as int,
            ) by {
                if i < with_node.flows.len() && with_flow.flows[i] == with_node.flows[i] {
                    assert(uphill(
                        recipes,
                        rank,
                        with_node.stations,
                        with_node.flows[i].source as int,
                        with_node.flows[i].target as int,
                    ));
                }
            }
        }
        lemma_supplied_layered(
            recipes,
            rank,
            with_flow,
            node,
            r,
            rate,
            recipes[r].inputs@.len(),
            (budget - 1) as nat,
        );
    }
}

/// The first flow found between two nodes joins them.
pub proof fn lemma_flow_from(flows: Seq<Flow>, source: int, target: int, from: int)
    requires
        0 <= from,
    ensures
        flow_from(flows, source, target, from) matches Some(e) ==> from <= e < flows.len()
            && flows[e].source == source && flows[e].target == target,
    decreases flows.len() - from,
{
    if from < flows.len() && !(flows[from].source == source && flows[from].target == target) {
        lemma_flow_from(flows, source, target, from + 1);
    }
}

/// Asking for the inputs of a recipe over a ranked catalog keeps the
/// flows running uphill.
pub proof fn lemma_supplied_layered(
    recipes: Seq<Recipe>,
    rank: Seq<nat>,
    plan: Plan,
    node: int,
    r: int,
    rate: Rate,
    upto: nat,
    budget: nat,
)
    requires
        ranked(recipes, rank),
        recipes.len() <= usize::MAX,
        layered(recipes, rank, plan),
        plan.stations.len() <= INDEX_LIMIT,
        0 <= r < recipes.len(),
        upto <= recipes[r].inputs@.len(),
        0 <= node < plan.stations.len(),
        plan.stations[node] == Station::Maker(r as usize),
        supplied(recipes, plan, node, r, rate, upto, budget) is Ok,
    ensures
        layered(recipes, rank, supplied(recipes, plan, node, r, rate, upto, budget).unwrap()),
        grown(plan, supplied(recipes, plan, node, r, rate, upto, budget).unwrap()),
        supplied(recipes, plan, node, r, rate, upto, budget).unwrap().stations.len() <= INDEX_LIMIT,
    decreases budget, upto,
{
    if upto > 0 {
        let input = recipes[r].inputs@[upto - 1];
        let asked = scaled(rate, input.1, recipes[r].output_rate);
        lemma_demanded_layered(recipes, rank, plan, node, input.0, asked as Rate, budget);
        let next = demanded(recipes, plan, node, input.0, asked as Rate, budget).unwrap();
        lemma_supplied_layered(recipes, rank, next, node, r, rate, (upto - 1) as nat, budget);
    }
}

/// Asking the sink for the desired outputs over a ranked catalog keeps
/// the flows running uphill.
pub proof fn lemma_expanded_layered(
    recipes: Seq<Recipe>,
    rank: Seq<nat>,
    plan: Plan,
    desired: Seq<(Item, Rate)>,
    from: int,
)
    requires
        ranked(recipes, rank),
        recipes.len() <= usize::MAX,
        layered(recipes, rank, plan),
        plan.stations.len() <= INDEX_LIMIT,
        0 <= from,
        expanded_from(recipes, plan, desired, from) is Ok,
    ensures
        layered(recipes, rank, expanded_from(recipes, plan, desired, from).unwrap()),
    decreases desired.len() - from,
{
    if from < desired.len() {
        lemma_station_from(plan.stations, Station::Sink, 0);
        let (with_sink, sink) = placed(plan, Station::Sink).unwrap();
        assert(with_sink.stations[sink] == Station::Sink);
        assert(layered(recipes, rank, with_sink)) by {
            assert forall|i: int| 0 <= i < with_sink.flows.len() implies uphill(
                recipes,
                rank,
                with_sink.stations,
                (#[trigger] with_sink.flows[i]).source as int,
                with_sink.flows[i].target as int,
            ) by {
                assert(with_sink.flows[i] == plan.flows[i]);
            }
        }
        lemma_demanded_layered(
            recipes,
            rank,
            with_sink,
            sink,
            desired[from].0,
            desired[from].1,
            recipes.len(),
        );
        let next = demanded(recipes, with_sink, sink, desired[from].0, desired[from].1, recipes.len()).unwrap();
        lemma_expanded_layered(recipes, rank, next, desired, from + 1);
    }
}

/// Expansion over a catalog without cycles builds a plan without cycles:
/// every flow leaves a machine for the sink or for a machine whose recipe
/// has a higher rank, so that no flow leaves a node only to enter it again.
pub proof fn law_ranked_expansion_is_layered(
    recipes: Seq<Recipe>,
    rank: Seq<nat>,
    desired: Seq<(Item, Rate)>,
)
    requires
        ranked(recipes, rank),
        recipes.len() <= usize::MAX,
        expanded(recipes, desired) is Ok,
    ensures
        layered(recipes, rank, expanded(recipes, desired).unwrap()),
        forall|i: int|
            0 <= i < expanded(recipes, desired).unwrap().flows.len() ==> (#[trigger] expanded(
                recipes,
                desired,
            ).unwrap().flows[i]).source != expanded(recipes, desired).unwrap().flows[i].target,
{
    let empty = Plan { stations: Seq::empty(), flows: Seq::empty() };
    lemma_expanded_layered(recipes, rank, empty, desired, 0);
    let plan = expanded(recipes, desired).unwrap();
    assert forall|i: int| 0 <= i < plan.flows.len() implies (#[trigger] plan.flows[i]).source
        != plan.flows[i].target by {
        assert(uphill(
            recipes,
            rank,
            plan.stations,
            plan.flows[i].source as int,
            plan.flows[i].target as int,
        ));
    }
}

/// How high a node of a layered plan stands above the sink: the sink at
/// nought, a machine the higher the lower its recipe ranks.
pub open spec fn height_of(recipes: Seq<Recipe>, rank: Seq<nat>, plan: Plan) -> spec_fn(int) -> nat {
    |x: int|
        if 0 <= x < plan.stations.len() {
            match plan.stations[x] {
                Station::Sink => 0nat,
                Station::Maker(r) => if r < recipes.len() && rank[r as int] < recipes.len() {
                    (recipes.len() - rank[r as int]) as nat
                } else {
                    0nat
                },
            }
        } else {
            0nat
        }
}

/// A plan whose flows all run uphill by rank has an order that puts
/// every consumer before its producers: its own order of consumers first.
pub proof fn law_layered_plan_is_ordered(recipes: Seq<Recipe>, rank: Seq<nat>, plan: Plan)
    requires
        ranked(recipes, rank),
        layered(recipes, rank, plan),
        plan.stations.len() <= usize::MAX,
    ensures
        suiting(plan, consumers_order(plan)),
{
    let height = height_of(recipes, rank, plan);
    assert forall|i: int| 0 <= i < plan.flows.len() implies height(
        (#[trigger] plan.flows[i]).target as int,
    ) < height(plan.flows[i].source as int) && plan.flows[i].source < plan.stations.len()
        && plan.flows[i].target < plan.stations.len() by {
        assert(uphill(
            recipes,
            rank,
            plan.stations,
            plan.flows[i].source as int,
            plan.flows[i].target as int,
        ));
    }
    law_downhill_plan_is_ordered(plan, height);
}

/// The error is one that expansion can fail with: a cycle, a rate out of
/// range, or a full graph.
pub open spec fn of_an_expansion(e: PlanError) -> bool {
    e == PlanError::Cycle || e == PlanError::RateOverflow || e == PlanError::GraphFull
}

/// A demand fails only as expansion can fail.
pub proof fn lemma_demanded_error(
    recipes: Seq<Recipe>,
    plan: Plan,
    consumer: int,
    item: Item,
    rate: Rate,
    budget: nat,
)
    ensures
        demanded(recipes, plan, consumer, item, rate, budget) matches Err(e) ==> of_an_expansion(e),
    decreases budget, 0nat,
{
    if let Some(r) = producer(recipes, item) {
        if budget > 0 {
            if let Ok((with_node, node)) = placed(plan, Station::Maker(r as usize)) {
                if let Ok(with_flow) = fed(with_node, node, consumer, item, rate) {
                    lemma_supplied_error(
                        recipes,
                        with_flow,
                        node,
                        r,
                        rate,
                        recipes[r].inputs@.len(),
                        (budget - 1) as nat,
                    );
                }
            }
        }
    }
}

/// Asking for the inputs of a recipe fails only as expansion can fail.
pub proof fn lemma_supplied_error(
    recipes: Seq<Recipe>,
    plan: Plan,
    node: int,
    r: int,
    rate: Rate,
    upto: nat,
    budget: nat,
)
    ensures
        supplied(recipes, plan, node, r, rate, upto, budget) matches Err(e) ==> of_an_expansion(e),
    decreases budget, upto,
{
    if upto > 0 {
        let input = recipes[r].inputs@[upto - 1];
        let asked = scaled(rate, input.1, recipes[r].output_rate);
        if asked <= u64::MAX {
            lemma_demanded_error(recipes, plan, node, input.0, asked as Rate, budget);
            if let Ok(next) = demanded(recipes, plan, node, input.0, asked as Rate, budget) {
                lemma_supplied_error(recipes, next, node, r, rate, (upto - 1) as nat, budget);
            }
        }
    }
}

/// Expansion fails only for a cycle, a rate out of range, or a full graph.
pub proof fn lemma_expanded_error(
    recipes: Seq<Recipe>,
    plan: Plan,
    desired: Seq<(Item, Rate)>,
    from: int,
)
    ensures
        expanded_from(recipes, plan, desired, from) matches Err(e) ==> of_an_expansion(e),
    decreases desired.len() - from,
{
    if 0 <= from < desired.len() {
        if let Ok((with_sink, sink)) = placed(plan, Station::Sink) {
            lemma_demanded_error(recipes, with_sink, sink, desired[from].0, desired[from].1, recipes.len());
            if let Ok(next) = demanded(
                recipes,
                with_sink,
                sink,
                desired[from].0,
                desired[from].1,
                recipes.len(),
            ) {
                lemma_expanded_error(recipes, next, desired, from + 1);
            }
        }
    }
}

} // verus!
