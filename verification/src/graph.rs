//! The production graph: machines as nodes, flows as edges.
use vstd::prelude::*;
use crate::catalog::Catalog;
use crate::catalog::Item;
use crate::catalog::Rate;
use crate::catalog::Recipe;
use crate::catalog::Station;
use crate::catalog::rates_positive;
use crate::flow::Flow;
use crate::flow::Tally;
use crate::flow::counts;
use crate::flow::lemma_sum_bounds;
use crate::flow::loose_ends;
use crate::flow::sum;
use crate::flow::swap_removed;
use crate::flow::total_in;
use crate::flow::total_out;
use crate::store::Store;
use crate::store::customers_of;
use crate::store::feeders_of;
use crate::store::flows_of;
use crate::store::search_order;
use crate::store::stations_of;
use crate::store::store_add_edge;
use crate::store::store_add_node;
use crate::store::store_downstream;
use crate::store::store_edge_count;
use crate::store::store_find_edge;
use crate::store::store_flow;
use crate::store::store_new;
use crate::store::store_node_count;
use crate::store::store_remove_edge;
use crate::store::store_set_weight;
use crate::store::store_sinks;
use crate::store::store_sources;
use crate::store::store_station;
use crate::store::store_upstream;

verus! {

/// The most nodes, and the most edges, that a plan can hold.
pub const INDEX_LIMIT: usize = 0xffff_ffff;

/// What a plan holds: its nodes by index, and its flows by edge index.
pub struct Plan {
    pub stations: Seq<Station>,
    pub flows: Seq<Flow>,
}

/// Why a plan could not be built or changed.
#[derive(Clone, Copy, Debug, PartialEq, Eq, Structural)]
pub enum PlanError {
    /// A chain of recipes feeds on itself.
    Cycle,
    /// A rate does not fit the range of rate units.
    RateOverflow,
    /// The plan would need more nodes or edges than it can hold.
    GraphFull,
    /// A flow enters a machine whose recipe does not consume its item.
    ForeignInput,
    /// No order of the nodes puts every consumer before its producers.
    Unordered,
}

impl Plan {
    /// The plan fits its container and a catalog of `recipes`: every flow
    /// joins two of its nodes, and every machine runs a listed recipe.
    pub open spec fn wf(self, recipes: Seq<Recipe>) -> bool {
        &&& self.stations.len() <= INDEX_LIMIT
        &&& self.flows.len() <= INDEX_LIMIT
        &&& forall|i: int|
            0 <= i < self.flows.len() ==> (#[trigger] self.flows[i]).source < self.stations.len()
                && self.flows[i].target < self.stations.len()
        &&& forall|n: int|
            0 <= n < self.stations.len() ==> match #[trigger] self.stations[n] {
                Station::Sink => true,
                Station::Maker(r) => r < recipes.len(),
            }
    }

    /// The total rate that leaves node `n`.
    pub open spec fn total_out(self, n: int) -> int {
        total_out(self.flows, n)
    }

    /// The total rate of `item` that enters node `n`.
    pub open spec fn total_in(self, n: int, item: Item) -> int {
        total_in(self.flows, n, item)
    }
}

/// The sum that counts what leaves node `n` (`leaving`) or what carries
/// `item` into it (otherwise).
pub open spec fn tally_for(leaving: bool, n: usize, item: Item) -> Tally {
    if leaving {
        Tally::Leaving(n as int)
    } else {
        Tally::Entering(n as int, item)
    }
}

/// The nodes that send flows to node `n`, the source of the flow with the
/// highest index first.
pub open spec fn walk_into(flows: Seq<Flow>, n: int) -> Seq<int>
    decreases flows.len(),
{
    if flows.len() == 0 {
        Seq::empty()
    } else if flows.last().target == n {
        seq![flows.last().source as int] + walk_into(flows.drop_last(), n)
    } else {
        walk_into(flows.drop_last(), n)
    }
}

/// The nodes that node `n` sends flows to, the target of the flow with
/// the highest index first.
pub open spec fn walk_from(flows: Seq<Flow>, n: int) -> Seq<int>
    decreases flows.len(),
{
    if flows.len() == 0 {
        Seq::empty()
    } else if flows.last().source == n {
        seq![flows.last().target as int] + walk_from(flows.drop_last(), n)
    } else {
        walk_from(flows.drop_last(), n)
    }
}

/// For each node of the plan, the nodes that feed it, latest flow first.
pub open spec fn walks_into(plan: Plan) -> Seq<Seq<int>> {
    Seq::new(plan.stations.len(), |n: int| walk_into(plan.flows, n))
}

/// For each node of the plan, the nodes that it feeds, latest flow first.
pub open spec fn walks_from(plan: Plan) -> Seq<Seq<int>> {
    Seq::new(plan.stations.len(), |n: int| walk_from(plan.flows, n))
}

/// A flow that neither enters nor leaves a node does not show in its walks.
pub proof fn lemma_walks_of_stranger(flows: Seq<Flow>, n: int)
    requires
        forall|i: int| 0 <= i < flows.len() ==> (#[trigger] flows[i]).source != n && flows[i].target != n,
    ensures
        walk_into(flows, n) == Seq::<int>::empty(),
        walk_from(flows, n) == Seq::<int>::empty(),
    decreases flows.len(),
{
    if flows.len() > 0 {
        lemma_walks_of_stranger(flows.drop_last(), n);
    }
}

/// Another item or rate on a flow changes no walk.
pub proof fn lemma_walks_of_update(flows: Seq<Flow>, at: int, f: Flow, n: int)
    requires
        0 <= at < flows.len(),
        f.source == flows[at].source,
        f.target == flows[at].target,
    ensures
        walk_into(flows.update(at, f), n) == walk_into(flows, n),
        walk_from(flows.update(at, f), n) == walk_from(flows, n),
    decreases flows.len(),
{
    let updated = flows.update(at, f);
    if at == flows.len() - 1 {
        assert(updated.drop_last() =~= flows.drop_last());
    } else {
        lemma_walks_of_update(flows.drop_last(), at, f, n);
        assert(updated.drop_last() =~= flows.drop_last().update(at, f));
    }
}

/// The index of the first node at or after `from` that stands for `station`.
pub open spec fn station_from(stations: Seq<Station>, station: Station, from: int) -> Option<int>
    decreases stations.len() - from,
{
    if from < 0 || from >= stations.len() {
        None
    } else if stations[from] == station {
        Some(from)
    } else {
        station_from(stations, station, from + 1)
    }
}

/// A directed multigraph of machines and the flows between them, together
/// with the catalog whose recipes the machines run.
pub struct ProductionGraph {
    catalog: Catalog,
    graph: Store,
}

impl ProductionGraph {
    /// The nodes and flows of the graph.
    pub closed spec fn view(&self) -> Plan {
        Plan { stations: stations_of(self.graph), flows: flows_of(self.graph) }
    }

    /// The recipes of the graph's catalog.
    pub closed spec fn recipes(&self) -> Seq<Recipe> {
        self.catalog@
    }

    /// The container that holds the graph.
    pub closed spec fn store(&self) -> Store {
        self.graph
    }

    /// For each node, the nodes that feed it, in the order in which a
    /// search walks them.
    pub closed spec fn feeders(&self) -> Seq<Seq<int>> {
        feeders_of(self.graph)
    }

    /// For each node, the nodes that it feeds, in the order in which a
    /// search walks them.
    pub closed spec fn customers(&self) -> Seq<Seq<int>> {
        customers_of(self.graph)
    }

    /// No flow has been taken out of the graph since it was made, so
    /// that a search walks the neighbours of a node by falling index of
    /// their flows.
    pub open spec fn fresh(&self) -> bool {
        self.feeders() == walks_into(self@) && self.customers() == walks_from(self@)
    }

    /// The graph's invariant.
    pub open spec fn wf(&self) -> bool {
        &&& rates_positive(self.recipes())
        &&& self@.wf(self.recipes())
    }

    /// An empty graph over `catalog`.
    pub fn new(catalog: Catalog) -> (g: ProductionGraph)
        requires
            catalog.wf(),
        ensures
            g.wf(),
            g.recipes() == catalog@,
            g@ == (Plan { stations: Seq::empty(), flows: Seq::empty() }),
            g.fresh(),
    {
        let g = ProductionGraph { catalog, graph: store_new() };
        proof {
            assert(walks_into(g@) =~= Seq::<Seq<int>>::empty());
            assert(walks_from(g@) =~= Seq::<Seq<int>>::empty());
        }
        g
    }

    /// The catalog whose recipes the machines run.
    pub fn catalog(&self) -> (c: &Catalog)
        ensures
            c@ == self.recipes(),
    {
        &self.catalog
    }

    /// The container that holds the graph, for rendering.
    pub fn as_graph(&self) -> (s: &Store)
        ensures
            *s == self.store(),
    {
        &self.graph
    }

    /// The number of nodes.
    pub fn node_count(&self) -> (n: usize)
        ensures
            n == self@.stations.len(),
    {
        store_node_count(&self.graph)
    }

    /// The number of flows.
    pub fn edge_count(&self) -> (n: usize)
        ensures
            n == self@.flows.len(),
    {
        store_edge_count(&self.graph)
    }

    /// What node `n` stands for, if there is such a node.
    pub fn station(&self, n: usize) -> (s: Option<Station>)
        requires
            self.wf(),
        ensures
            s == if n < self@.stations.len() {
                Some(self@.stations[n as int])
            } else {
                None
            },
    {
        if n < store_node_count(&self.graph) {
            Some(store_station(&self.graph, n))
        } else {
            None
        }
    }

    /// The flow with edge index `e`, if there is such an edge.
    pub fn flow(&self, e: usize) -> (f: Option<Flow>)
        ensures
            f == if e < self@.flows.len() {
                Some(self@.flows[e as int])
            } else {
                None
            },
    {
        if e < store_edge_count(&self.graph) {
            Some(store_flow(&self.graph, e))
        } else {
            None
        }
    }

    /// Adds a node. Nothing is added, and nothing returned, where the
    /// station names a recipe that the catalog lacks or the graph is full.
    pub fn add_station(&mut self, station: Station) -> (r: Option<usize>)
        requires
            old(self).wf(),
        ensures
            final(self).wf(),
            final(self).recipes() == old(self).recipes(),
            final(self)@.flows == old(self)@.flows,
            r is Some <==> old(self)@.stations.len() < INDEX_LIMIT && (station matches Station::Maker(i)
                ==> i < old(self).recipes().len()),
            r matches Some(n) ==> n == old(self)@.stations.len() && final(self)@.stations == old(
                self,
            )@.stations.push(station),
            r is None ==> final(self)@ == old(self)@,
            old(self).fresh() ==> final(self).fresh(),
    {
        let listed = match station {
            Station::Sink => true,
            Station::Maker(i) => i < self.catalog.len(),
        };
        if !listed || store_node_count(&self.graph) >= INDEX_LIMIT {
            return None;
        }
        let n = store_add_node(&mut self.graph, station);
        proof {
            if old(self).fresh() {
                lemma_walks_of_stranger(self@.flows, n as int);
                assert(walks_into(self@) =~= walks_into(old(self)@).push(Seq::empty()));
                assert(walks_from(self@) =~= walks_from(old(self)@).push(Seq::empty()));
            }
        }
        Some(n)
    }

    /// Adds a flow. Nothing is added, and nothing returned, where an
    /// endpoint is missing or the graph is full.
    pub fn add_flow(&mut self, source: usize, target: usize, item: Item, rate: Rate) -> (r: Option<usize>)
        requires
            old(self).wf(),
        ensures
            final(self).wf(),
            final(self).recipes() == old(self).recipes(),
            final(self)@.stations == old(self)@.stations,
            r is Some <==> source < old(self)@.stations.len() && target < old(self)@.stations.len()
                && old(self)@.flows.len() < INDEX_LIMIT,
            r matches Some(e) ==> e == old(self)@.flows.len() && final(self)@.flows == old(
                self,
            )@.flows.push((Flow { source, target, item, rate })),
            r is None ==> final(self)@ == old(self)@,
            old(self).fresh() ==> final(self).fresh(),
    {
        let nodes = store_node_count(&self.graph);
        if source >= nodes || target >= nodes || store_edge_count(&self.graph) >= INDEX_LIMIT {
            return None;
        }
        let e = store_add_edge(&mut self.graph, source, target, item, rate);
        proof {
            if old(self).fresh() {
                assert(self@.flows.drop_last() =~= old(self)@.flows);
                assert(walks_into(self@) =~= walks_into(old(self)@).update(
                    target as int,
                    seq![source as int] + walks_into(old(self)@)[target as int],
                ));
                assert(walks_from(self@) =~= walks_from(old(self)@).update(
                    source as int,
                    seq![target as int] + walks_from(old(self)@)[source as int],
                ));
            }
        }
        Some(e)
    }

    /// Some flow from `source` to `target`, if there is one.
    pub fn find_flow(&self, source: usize, target: usize) -> (r: Option<usize>)
        requires
            self.wf(),
        ensures
            match r {
                Some(e) => e < self@.flows.len() && self@.flows[e as int].source == source
                    && self@.flows[e as int].target == target,
                None => forall|i: int|
                    0 <= i < self@.flows.len() ==> !((#[trigger] self@.flows[i]).source == source
                        && self@.flows[i].target == target),
            },
    {
        let nodes = store_node_count(&self.graph);
        if source >= nodes || target >= nodes {
            return None;
        }
        store_find_edge(&self.graph, source, target)
    }

    /// Gives the flow with edge index `e` another item and rate. Returns
    /// whether there is such an edge; nothing changes where there is none.
    pub fn set_flow(&mut self, e: usize, item: Item, rate: Rate) -> (done: bool)
        requires
            old(self).wf(),
        ensures
            final(self).wf(),
            final(self).recipes() == old(self).recipes(),
            final(self)@.stations == old(self)@.stations,
            done <==> e < old(self)@.flows.len(),
            done ==> final(self)@.flows == old(self)@.flows.update(
                e as int,
                (Flow {
                    source: old(self)@.flows[e as int].source,
                    target: old(self)@.flows[e as int].target,
                    item,
                    rate,
                }),
            ),
            !done ==> final(self)@ == old(self)@,
            old(self).fresh() ==> final(self).fresh(),
    {
        if e >= store_edge_count(&self.graph) {
            return false;
        }
        store_set_weight(&mut self.graph, e, item, rate);
        proof {
            if old(self).fresh() {
                assert forall|n: int| 0 <= n < self@.stations.len() implies walk_into(self@.flows, n)
                    == walk_into(old(self)@.flows, n) && walk_from(self@.flows, n) == walk_from(
                    old(self)@.flows,
                    n,
                ) by {
                    lemma_walks_of_update(old(self)@.flows, e as int, self@.flows[e as int], n);
                }
                assert(walks_into(self@) =~= walks_into(old(self)@));
                assert(walks_from(self@) =~= walks_from(old(self)@));
            }
        }
        true
    }

    /// Takes the flow with edge index `e` out and returns it. The last flow
    /// takes over its index. Nothing changes where there is no such edge.
    pub fn remove_flow(&mut self, e: usize) -> (r: Option<Flow>)
        requires
            old(self).wf(),
        ensures
            final(self).wf(),
            final(self).recipes() == old(self).recipes(),
            final(self)@.stations == old(self)@.stations,
            r is Some <==> e < old(self)@.flows.len(),
            r matches Some(f) ==> f == old(self)@.flows[e as int] && final(self)@.flows
                == swap_removed(old(self)@.flows, e as int),
            r is None ==> final(self)@ == old(self)@,
    {
        if e >= store_edge_count(&self.graph) {
            return None;
        }
        let f = store_flow(&self.graph, e);
        store_remove_edge(&mut self.graph, e);
        Some(f)
    }

    /// The nodes that no flow leaves, by rising index.
    pub fn sinks(&self) -> (r: Vec<usize>)
        ensures
            r@ == loose_ends(self@.flows, self@.stations.len() as int, true),
    {
        store_sinks(&self.graph)
    }

    /// The nodes that no flow enters, by rising index.
    pub fn sources(&self) -> (r: Vec<usize>)
        ensures
            r@ == loose_ends(self@.flows, self@.stations.len() as int, false),
    {
        store_sources(&self.graph)
    }

    /// The nodes that a breadth-first search from `start` against the
    /// flows hands out: `start` first, none twice. Empty where there is
    /// no node `start`.
    pub fn upstream(&self, start: usize) -> (order: Vec<usize>)
        requires
            self.wf(),
        ensures
            order@ == if start < self@.stations.len() {
                search_order(self.feeders(), start as int)
            } else {
                Seq::empty()
            },
            forall|k: int| 0 <= k < order@.len() ==> (#[trigger] order@[k]) < self@.stations.len(),
            start < self@.stations.len() ==> order@.len() > 0 && order@[0] == start,
            forall|j: int, k: int| 0 <= j < k < order@.len() ==> order@[j] != order@[k],
    {
        if start >= store_node_count(&self.graph) {
            return Vec::new();
        }
        store_upstream(&self.graph, start)
    }

    /// The nodes that a breadth-first search from `start` along the flows
    /// hands out: `start` first, none twice. Empty where there is no node
    /// `start`.
    pub fn downstream(&self, start: usize) -> (order: Vec<usize>)
        requires
            self.wf(),
        ensures
            order@ == if start < self@.stations.len() {
                search_order(self.customers(), start as int)
            } else {
                Seq::empty()
            },
            forall|k: int| 0 <= k < order@.len() ==> (#[trigger] order@[k]) < self@.stations.len(),
            start < self@.stations.len() ==> order@.len() > 0 && order@[0] == start,
            forall|j: int, k: int| 0 <= j < k < order@.len() ==> order@[j] != order@[k],
    {
        if start >= store_node_count(&self.graph) {
            return Vec::new();
        }
        store_downstream(&self.graph, start)
    }

    /// The first node that stands for `station`.
    pub fn find_station(&self, station: Station) -> (r: Option<usize>)
        requires
            self.wf(),
        ensures
            r is Some <==> station_from(self@.stations, station, 0) is Some,
            r matches Some(n) ==> station_from(self@.stations, station, 0) == Some(n as int) && n
                < self@.stations.len(),
    {
        let count = store_node_count(&self.graph);
        let mut n: usize = 0;
        while n < count
            invariant
                self.wf(),
                count == self@.stations.len(),
                n <= count,
                station_from(self@.stations, station, 0) == station_from(
                    self@.stations,
                    station,
                    n as int,
                ),
            decreases count - n,
        {
            if store_station(&self.graph, n) == station {
                return Some(n);
            }
            n += 1;
        }
        None
    }

    /// The sum of the rates of the flows that leave node `n` (`leaving`)
    /// or that carry `item` into it (otherwise).
    fn tally_rates(&self, leaving: bool, n: usize, item: Item) -> (t: u128)
        requires
            self.wf(),
        ensures
            t == sum(self@.flows, tally_for(leaving, n, item)),
    {
        let ghost tally = tally_for(leaving, n, item);
        let count = store_edge_count(&self.graph);
        let mut t: u128 = 0;
        let mut i: usize = 0;
        while i < count
            invariant
                self.wf(),
                count == self@.flows.len(),
                i <= count,
                tally == tally_for(leaving, n, item),
                t == sum(self@.flows.take(i as int), tally),
            decreases count - i,
        {
            let f = store_flow(&self.graph, i);
            proof {
                lemma_sum_bounds(self@.flows.take(i as int), tally);
                assert(i * u64::MAX <= INDEX_LIMIT * u64::MAX) by (nonlinear_arith)
                    requires
                        i <= INDEX_LIMIT,
                ;
                assert(self@.flows.take(i + 1).drop_last() =~= self@.flows.take(i as int));
            }
            let hit = if leaving {
                f.source == n
            } else {
                f.target == n && f.item == item
            };
            if hit {
                t = t + f.rate as u128;
            }
            i += 1;
        }
        proof {
            assert(self@.flows.take(count as int) =~= self@.flows);
        }
        t
    }

    /// The total rate that leaves node `n`.
    pub fn total_out(&self, n: usize) -> (t: u128)
        requires
            self.wf(),
        ensures
            t == self@.total_out(n as int),
    {
        self.tally_rates(true, n, Item::Any)
    }

    /// The total rate of `item` that enters node `n`.
    pub fn total_in(&self, n: usize, item: Item) -> (t: u128)
        requires
            self.wf(),
        ensures
            t == self@.total_in(n as int, item),
    {
        self.tally_rates(false, n, item)
    }
}

} // verus!
