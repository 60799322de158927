//! Demand expansion: from desired output rates back to raw inputs.
use vstd::prelude::*;
use std::collections::HashMap;
use crate::catalog::Catalog;
use crate::catalog::Item;
use crate::catalog::Rate;
use crate::catalog::Recipe;
use crate::catalog::Station;
use crate::catalog::in_order;
use crate::catalog::producer;
use crate::flow::Flow;
use crate::graph::INDEX_LIMIT;
use crate::graph::Plan;
use crate::graph::PlanError;
use crate::graph::ProductionGraph;
use crate::graph::station_from;
use crate::laws::expansion::law_expanded_is_fed_once;
use crate::laws::expansion::law_layered_plan_is_ordered;
use crate::laws::expansion::law_ranked_catalog_has_no_cycle;
use crate::laws::expansion::law_ranked_expansion_is_layered;
use crate::laws::expansion::layered;
use crate::laws::expansion::lemma_expanded_error;
use crate::laws::expansion::lemma_in_order_is_ranked;
use crate::laws::expansion::of_an_expansion;
use crate::laws::expansion::positions;
use crate::laws::inspection::fed_once;
use crate::laws::order::all_fed_once;
use crate::order::consumers_order;
use crate::order::suiting;
use crate::rate::scale_up;
use crate::rate::scaled;

verus! {

/// The index of the first flow at or after `from` that runs from `source`
/// to `target`.
pub open spec fn flow_from(flows: Seq<Flow>, source: int, target: int, from: int) -> Option<int>
    decreases flows.len() - from,
{
    if from < 0 || from >= flows.len() {
        None
    } else if flows[from].source == source && flows[from].target == target {
        Some(from)
    } else {
        flow_from(flows, source, target, from + 1)
    }
}

/// No two flows join the same nodes in the same direction.
pub open spec fn simple(flows: Seq<Flow>) -> bool {
    forall|i: int, j: int|
        0 <= i < j < flows.len() ==> !((#[trigger] flows[i]).source == (#[trigger] flows[j]).source
            && flows[i].target == flows[j].target)
}

/// No station has two nodes.
pub open spec fn unique(stations: Seq<Station>) -> bool {
    forall|i: int, j: int| 0 <= i < j < stations.len() ==> stations[i] != stations[j]
}

/// Every flow leaves the node of the recipe that makes its item.
pub open spec fn wired(recipes: Seq<Recipe>, plan: Plan) -> bool {
    forall|i: int|
        0 <= i < plan.flows.len() ==> (#[trigger] plan.flows[i]).source < plan.stations.len()
            && producer(recipes, plan.flows[i].item) is Some && plan.stations[plan.flows[i].source as int]
            == Station::Maker(producer(recipes, plan.flows[i].item).unwrap() as usize)
}

/// The first node found for a station stands for it; where none is found,
/// no node does.
pub proof fn lemma_station_from(stations: Seq<Station>, station: Station, from: int)
    requires
        0 <= from,
    ensures
        match station_from(stations, station, from) {
            Some(n) => from <= n < stations.len() && stations[n] == station,
            None => forall|i: int| from <= i < stations.len() ==> stations[i] != station,
        },
    decreases stations.len() - from,
{
    if from < stations.len() && stations[from] != station {
        lemma_station_from(stations, station, from + 1);
    }
}

/// The plan with a node for `station`, and that node's index: the first
/// node that stands for it already, or else a new one.
pub open spec fn placed(plan: Plan, station: Station) -> Result<(Plan, int), PlanError> {
    match station_from(plan.stations, station, 0) {
        Some(n) => Ok((plan, n)),
        None => if plan.stations.len() >= INDEX_LIMIT {
            Err(PlanError::GraphFull)
        } else {
            Ok(
                (
                    Plan { stations: plan.stations.push(station), flows: plan.flows },
                    plan.stations.len() as int,
                ),
            )
        },
    }
}

/// The plan with `rate` of `item` more flowing from `source` to `target`:
/// added to the flow that joins them already, or else as a new flow.
pub open spec fn fed(plan: Plan, source: int, target: int, item: Item, rate: Rate) -> Result<
    Plan,
    PlanError,
> {
    match flow_from(plan.flows, source, target, 0) {
        Some(e) => if plan.flows[e].rate + rate > u64::MAX {
            Err(PlanError::RateOverflow)
        } else {
            Ok(
                Plan {
                    stations: plan.stations,
                    flows: plan.flows.update(
                        e,
                        Flow {
                            source: source as usize,
                            target: target as usize,
                            item,
                            rate: (plan.flows[e].rate + rate) as Rate,
                        },
                    ),
                },
            )
        },
        None => if plan.flows.len() >= INDEX_LIMIT {
            Err(PlanError::GraphFull)
        } else {
            Ok(
                Plan {
                    stations: plan.stations,
                    flows: plan.flows.push(
                        Flow { source: source as usize, target: target as usize, item, rate },
                    ),
                },
            )
        },
    }
}

/// The plan after node `consumer` has asked for `rate` of `item`.
///
/// An item that no recipe makes is a raw good: the demand ends there.
/// Otherwise the first recipe that makes it gets a node, shared by all who
/// ask for that recipe; the flow from that node to the consumer grows by
/// `rate`; and the node asks for each of its own inputs in proportion, last
/// input first. `budget` is the number of recipes that a chain of demands
/// may still pass through: a chain that needs more feeds on itself.
pub open spec fn demanded(
    recipes: Seq<Recipe>,
    plan: Plan,
    consumer: int,
    item: Item,
    rate: Rate,
    budget: nat,
) -> Result<Plan, PlanError>
    decreases budget, 0nat,
{
    match producer(recipes, item) {
        None => Ok(plan),
        Some(r) => if budget == 0 {
            Err(PlanError::Cycle)
        } else {
            match placed(plan, Station::Maker(r as usize)) {
                Err(e) => Err(e),
                Ok((with_node, node)) => match fed(with_node, node, consumer, item, rate) {
                    Err(e) => Err(e),
                    Ok(with_flow) => supplied(
                        recipes,
                        with_flow,
                        node,
                        r,
                        rate,
                        recipes[r].inputs@.len(),
                        (budget - 1) as nat,
                    ),
                },
            }
        },
    }
}

/// The plan after node `node`, which runs recipe `r` to put out `rate`
/// more, has asked for the first `upto` of its inputs, the last of them
/// first.
pub open spec fn supplied(
    recipes: Seq<Recipe>,
    plan: Plan,
    node: int,
    r: int,
    rate: Rate,
    upto: nat,
    budget: nat,
) -> Result<Plan, PlanError>
    decreases budget, upto,
{
    if upto == 0 {
        Ok(plan)
    } else {
        let input = recipes[r].inputs@[upto - 1];
        let asked = scaled(rate, input.1, recipes[r].output_rate);
        if asked > u64::MAX {
            Err(PlanError::RateOverflow)
        } else {
            match demanded(recipes, plan, node, input.0, asked as Rate, budget) {
                Err(e) => Err(e),
                Ok(next) => supplied(recipes, next, node, r, rate, (upto - 1) as nat, budget),
            }
        }
    }
}

/// The plan after the desired outputs from index `from` on have been asked
/// of the sink, one after another.
pub open spec fn expanded_from(
    recipes: Seq<Recipe>,
    plan: Plan,
    desired: Seq<(Item, Rate)>,
    from: int,
) -> Result<Plan, PlanError>
    decreases desired.len() - from,
{
    if from < 0 || from >= desired.len() {
        Ok(plan)
    } else {
        match placed(plan, Station::Sink) {
            Err(e) => Err(e),
            Ok((with_sink, sink)) => match demanded(
                recipes,
                with_sink,
                sink,
                desired[from].0,
                desired[from].1,
                recipes.len(),
            ) {
                Err(e) => Err(e),
                Ok(next) => expanded_from(recipes, next, desired, from + 1),
            },
        }
    }
}

/// The plan that makes the desired outputs, or the reason why there is none.
pub open spec fn expanded(recipes: Seq<Recipe>, desired: Seq<(Item, Rate)>) -> Result<
    Plan,
    PlanError,
> {
    expanded_from(recipes, Plan { stations: Seq::empty(), flows: Seq::empty() }, desired, 0)
}

/// Among flows of which no two join the same nodes, a flow that joins two
/// nodes is the first that does.
pub proof fn lemma_simple_flow_is_first(flows: Seq<Flow>, e: int, from: int)
    requires
        simple(flows),
        0 <= from <= e < flows.len(),
    ensures
        flow_from(flows, flows[e].source as int, flows[e].target as int, from) == Some(e),
    decreases e - from,
{
    if from < e {
        lemma_simple_flow_is_first(flows, e, from + 1);
    }
}

/// Where no flow joins two nodes, none is found.
pub proof fn lemma_no_flow(flows: Seq<Flow>, source: int, target: int, from: int)
    requires
        0 <= from,
        forall|i: int|
            0 <= i < flows.len() ==> !((#[trigger] flows[i]).source == source && flows[i].target
                == target),
    ensures
        flow_from(flows, source, target, from) is None,
    decreases flows.len() - from,
{
    if from < flows.len() {
        lemma_no_flow(flows, source, target, from + 1);
    }
}

/// The nodes placed so far, by what they stand for: the sink, and the
/// node of each recipe by the recipe's index.
pub struct Placed {
    sink: Option<usize>,
    makers: HashMap<usize, usize>,
}

impl Placed {
    /// The record names, for every station, the first node that stands
    /// for it, and no node where none does.
    pub closed spec fn agrees(&self, stations: Seq<Station>) -> bool {
        &&& match self.sink {
            Some(n) => station_from(stations, Station::Sink, 0) == Some(n as int),
            None => station_from(stations, Station::Sink, 0) is None,
        }
        &&& forall|r: usize|
            #[trigger] self.makers@.contains_key(r) ==> station_from(stations, Station::Maker(r), 0)
                == Some(self.makers@[r] as int)
        &&& forall|r: usize|
            (#[trigger] station_from(stations, Station::Maker(r), 0)) is Some
                ==> self.makers@.contains_key(r)
    }

    /// The record of a graph without nodes.
    pub fn new() -> (p: Placed)
        ensures
            p.agrees(Seq::empty()),
    {
        broadcast use vstd::std_specs::hash::group_hash_axioms;

        Placed { sink: None, makers: HashMap::new() }
    }

    /// The node placed for `station`, if there is one.
    fn find(&self, station: Station) -> (r: Option<usize>)
        ensures
            forall|stations: Seq<Station>|
                #[trigger] self.agrees(stations) ==> match station_from(stations, station, 0) {
                    Some(n) => r == Some(n as usize) && 0 <= n <= usize::MAX,
                    None => r is None,
                },
    {
        broadcast use vstd::std_specs::hash::group_hash_axioms;

        match station {
            Station::Sink => self.sink,
            Station::Maker(r) => match self.makers.get(&r) {
                Some(n) => Some(*n),
                None => None,
            },
        }
    }

    /// Records that node `n`, the last of `stations`, stands for
    /// `station`, for which no node stood.
    fn record(&mut self, station: Station, n: usize, Ghost(stations): Ghost<Seq<Station>>)
        requires
            old(self).agrees(stations),
            station_from(stations, station, 0) is None,
            n == stations.len(),
        ensures
            final(self).agrees(stations.push(station)),
    {
        broadcast use vstd::std_specs::hash::group_hash_axioms;

        proof {
            lemma_station_push(stations, station, Station::Sink, 0);
            assert forall|r: usize|
                #[trigger] station_from(stations.push(station), Station::Maker(r), 0) == if station_from(
                    stations,
                    Station::Maker(r),
                    0,
                ) is Some {
                    station_from(stations, Station::Maker(r), 0)
                } else if station == Station::Maker(r) {
                    Some(stations.len() as int)
                } else {
                    None
                } by {
                lemma_station_push(stations, station, Station::Maker(r), 0);
            }
        }
        match station {
            Station::Sink => {
                self.sink = Some(n);
            },
            Station::Maker(r) => {
                self.makers.insert(r, n);
            },
        }
    }
}

/// The first node for a station in a list with one node more: the one it
/// had, or else the new node where that stands for the station.
pub proof fn lemma_station_push(stations: Seq<Station>, new: Station, station: Station, from: int)
    requires
        0 <= from <= stations.len(),
    ensures
        station_from(stations.push(new), station, from) == if station_from(stations, station, from)
            is Some {
            station_from(stations, station, from)
        } else if new == station {
            Some(stations.len() as int)
        } else {
            None
        },
    decreases stations.len() - from,
{
    let longer = stations.push(new);
    if from < stations.len() {
        assert(longer[from] == stations[from]);
        if stations[from] != station {
            lemma_station_push(stations, new, station, from + 1);
        }
    } else {
        assert(longer[from] == new);
        assert(station_from(longer, station, from + 1) is None);
    }
}

impl ProductionGraph {
    /// Finds the node that stands for `station` in the record of the nodes
    /// placed, or adds one.
    pub fn place(&mut self, known: &mut Placed, station: Station) -> (r: Result<usize, PlanError>)
        requires
            old(self).wf(),
            old(known).agrees(old(self)@.stations),
            station matches Station::Maker(i) ==> i < old(self).recipes().len(),
        ensures
            final(self).wf(),
            final(self).recipes() == old(self).recipes(),
            final(known).agrees(final(self)@.stations),
            match placed(old(self)@, station) {
                Ok((plan, n)) => r matches Ok(x) && x == n && final(self)@ == plan && n
                    < plan.stations.len(),
                Err(e) => r == Err::<usize, PlanError>(e) && final(self)@ == old(self)@,
            },
            final(self)@.flows == old(self)@.flows,
            old(self)@.stations.len() <= final(self)@.stations.len(),
            forall|i: int|
                0 <= i < old(self)@.stations.len() ==> final(self)@.stations[i] == old(
                    self,
                )@.stations[i],
            r matches Ok(x) ==> final(self)@.stations[x as int] == station,
            unique(old(self)@.stations) ==> unique(final(self)@.stations),
            old(self).fresh() ==> final(self).fresh(),
    {
        proof {
            lemma_station_from(self@.stations, station, 0);
        }
        match known.find(station) {
            Some(n) => Ok(n),
            None => {
                let ghost stations = self@.stations;
                match self.add_station(station) {
                    Some(n) => {
                        known.record(station, n, Ghost(stations));
                        Ok(n)
                    },
                    None => Err(PlanError::GraphFull),
                }
            },
        }
    }

    /// Lets `rate` of `item` more flow from `source` to `target`.
    pub fn feed(&mut self, source: usize, target: usize, item: Item, rate: Rate) -> (r: Result<
        (),
        PlanError,
    >)
        requires
            old(self).wf(),
            simple(old(self)@.flows),
            source < old(self)@.stations.len(),
            target < old(self)@.stations.len(),
        ensures
            final(self).wf(),
            final(self).recipes() == old(self).recipes(),
            final(self)@.stations == old(self)@.stations,
            simple(final(self)@.flows),
            match fed(old(self)@, source as int, target as int, item, rate) {
                Ok(plan) => r is Ok && final(self)@ == plan,
                Err(e) => r == Err::<(), PlanError>(e) && final(self)@ == old(self)@,
            },
            wired(old(self).recipes(), old(self)@) && producer(old(self).recipes(), item) is Some
                && old(self)@.stations[source as int] == Station::Maker(
                producer(old(self).recipes(), item).unwrap() as usize,
            ) ==> wired(final(self).recipes(), final(self)@),
            old(self).fresh() ==> final(self).fresh(),
    {
        match self.find_flow(source, target) {
            Some(e) => {
                proof {
                    lemma_simple_flow_is_first(self@.flows, e as int, 0);
                }
                let had = self.flow(e).unwrap();
                if had.rate > u64::MAX - rate {
                    return Err(PlanError::RateOverflow);
                }
                self.set_flow(e, item, had.rate + rate);
                Ok(())
            },
            None => {
                proof {
                    lemma_no_flow(self@.flows, source as int, target as int, 0);
                }
                match self.add_flow(source, target, item, rate) {
                    Some(_) => Ok(()),
                    None => Err(PlanError::GraphFull),
                }
            },
        }
    }

    /// Lets node `consumer` ask for `rate` of `item`, and the makers of
    /// that item for their inputs in turn.
    pub fn demand(
        &mut self,
        known: &mut Placed,
        consumer: usize,
        item: Item,
        rate: Rate,
        budget: usize,
    ) -> (r: Result<
        (),
        PlanError,
    >)
        requires
            old(self).wf(),
            old(known).agrees(old(self)@.stations),
            simple(old(self)@.flows),
            consumer < old(self)@.stations.len(),
        ensures
            final(self).wf(),
            r is Ok ==> final(known).agrees(final(self)@.stations),
            final(self).recipes() == old(self).recipes(),
            old(self)@.stations.len() <= final(self)@.stations.len(),
            match demanded(old(self).recipes(), old(self)@, consumer as int, item, rate, budget as nat) {
                Ok(plan) => r is Ok && final(self)@ == plan && simple(plan.flows),
                Err(e) => r == Err::<(), PlanError>(e),
            },
            forall|i: int|
                0 <= i < old(self)@.stations.len() ==> final(self)@.stations[i] == old(
                    self,
                )@.stations[i],
            unique(old(self)@.stations) ==> unique(final(self)@.stations),
            wired(old(self).recipes(), old(self)@) ==> wired(final(self).recipes(), final(self)@),
            old(self).fresh() ==> final(self).fresh(),
        decreases budget, 0nat,
    {
        let r = match self.catalog().producer(item) {
            None => {
                return Ok(());
            },
            Some(r) => r,
        };
        if budget == 0 {
            return Err(PlanError::Cycle);
        }
        let node = match self.place(known, Station::Maker(r)) {
            Err(e) => {
                return Err(e);
            },
            Ok(node) => node,
        };
        match self.feed(node, consumer, item, rate) {
            Err(e) => {
                return Err(e);
            },
            Ok(()) => {},
        }
        let upto = self.catalog().recipe(r).inputs.len();
        self.supply(known, node, r, rate, upto, budget - 1)
    }

    /// Lets node `node`, which runs recipe `r` to put out `rate` more, ask
    /// for the first `upto` of its inputs, the last of them first.
    pub fn supply(
        &mut self,
        known: &mut Placed,
        node: usize,
        r: usize,
        rate: Rate,
        upto: usize,
        budget: usize,
    ) -> (res:
        Result<(), PlanError>)
        requires
            old(self).wf(),
            old(known).agrees(old(self)@.stations),
            simple(old(self)@.flows),
            node < old(self)@.stations.len(),
            r < old(self).recipes().len(),
            upto <= old(self).recipes()[r as int].inputs@.len(),
        ensures
            final(self).wf(),
            res is Ok ==> final(known).agrees(final(self)@.stations),
            final(self).recipes() == old(self).recipes(),
            old(self)@.stations.len() <= final(self)@.stations.len(),
            match supplied(
                old(self).recipes(),
                old(self)@,
                node as int,
                r as int,
                rate,
                upto as nat,
                budget as nat,
            ) {
                Ok(plan) => res is Ok && final(self)@ == plan && simple(plan.flows),
                Err(e) => res == Err::<(), PlanError>(e),
            },
            forall|i: int|
                0 <= i < old(self)@.stations.len() ==> final(self)@.stations[i] == old(
                    self,
                )@.stations[i],
            unique(old(self)@.stations) ==> unique(final(self)@.stations),
            wired(old(self).recipes(), old(self)@) ==> wired(final(self).recipes(), final(self)@),
            old(self).fresh() ==> final(self).fresh(),
        decreases budget, upto,
    {
        if upto == 0 {
            return Ok(());
        }
        let recipe = self.catalog().recipe(r);
        let input = recipe.inputs[upto - 1];
        let asked = match scale_up(rate, input.1, recipe.output_rate) {
            None => {
                return Err(PlanError::RateOverflow);
            },
            Some(asked) => asked,
        };
        match self.demand(known, node, input.0, asked, budget) {
            Err(e) => {
                return Err(e);
            },
            Ok(()) => {},
        }
        self.supply(known, node, r, rate, upto - 1, budget)
    }
}

/// Builds the plan that makes the desired outputs.
///
/// All final demand flows into one sink. Each recipe that the plan uses has
/// one node, however often it is asked for, and no two flows join the same
/// two nodes, so that no item enters a node on two flows. Over a catalog
/// that lists every recipe after the makers of
/// its inputs, no chain of demands is taken for a cycle, and the plan has
/// none: every flow runs from a recipe to the sink or to a recipe listed
/// later, so that the plan's own order of consumers first suits it.
pub fn recipes_to_make(catalog: Catalog, outputs: &[(Item, Rate)]) -> (r: Result<
    ProductionGraph,
    PlanError,
>)
    requires
        catalog.wf(),
    ensures
        match expanded(catalog@, outputs@) {
            Ok(plan) => r matches Ok(g) && g@ == plan && g.wf() && g.recipes() == catalog@ && simple(
                plan.flows,
            ) && unique(plan.stations) && wired(catalog@, plan) && all_fed_once(plan) && g.fresh(),
            Err(e) => r matches Err(x) && x == e,
        },
        r matches Err(e) ==> of_an_expansion(e),
        in_order(catalog@) ==> match r {
            Ok(g) => layered(catalog@, positions(catalog@), g@) && suiting(g@, consumers_order(g@)),
            Err(e) => e != PlanError::Cycle,
        },
{
    let budget = catalog.len();
    proof {
        lemma_expanded_error(
            catalog@,
            Plan { stations: Seq::empty(), flows: Seq::empty() },
            outputs@,
            0,
        );
        if in_order(catalog@) {
            lemma_in_order_is_ranked(catalog@);
            law_ranked_catalog_has_no_cycle(catalog@, positions(catalog@), outputs@);
            if expanded(catalog@, outputs@) is Ok {
                law_ranked_expansion_is_layered(catalog@, positions(catalog@), outputs@);
            }
        }
    }
    let mut g = ProductionGraph::new(catalog);
    let mut known = Placed::new();
    let mut i: usize = 0;
    while i < outputs.len()
        invariant
            i <= outputs.len(),
            g.wf(),
            g.recipes() == catalog@,
            known.agrees(g@.stations),
            g.fresh(),
            budget == catalog@.len(),
            simple(g@.flows),
            unique(g@.stations),
            wired(catalog@, g@),
            expanded(catalog@, outputs@) == expanded_from(catalog@, g@, outputs@, i as int),
            in_order(catalog@) ==> match expanded(catalog@, outputs@) {
                Ok(plan) => layered(catalog@, positions(catalog@), plan),
                Err(e) => e != PlanError::Cycle,
            },
            expanded(catalog@, outputs@) matches Err(e) ==> of_an_expansion(e),
        decreases outputs.len() - i,
    {
        let sink = match g.place(&mut known, Station::Sink) {
            Err(e) => {
                return Err(e);
            },
            Ok(sink) => sink,
        };
        match g.demand(&mut known, sink, outputs[i].0, outputs[i].1, budget) {
            Err(e) => {
                return Err(e);
            },
            Ok(()) => {},
        }
        i += 1;
    }
    proof {
        assert forall|u: int| #[trigger] fed_once(g@.flows, u) by {
            law_expanded_is_fed_once(catalog@, g@, u);
        }
        if in_order(catalog@) {
            lemma_in_order_is_ranked(catalog@);
            law_layered_plan_is_ordered(catalog@, positions(catalog@), g@);
        }
    }
    Ok(g)
}

} // verus!
