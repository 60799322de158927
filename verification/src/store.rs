//! The graph container that holds a plan, and what is assumed of it.
//!
//! Plans live in a `petgraph::Graph`. Nothing in this file is proved: each
//! function states, over the sequences below, what the container's source
//! shows of the call it makes.
use vstd::prelude::*;
use petgraph::Directed;
use petgraph::Direction;
use petgraph::graph::EdgeIndex;
use petgraph::graph::Graph;
use petgraph::graph::NodeIndex;
use petgraph::visit::Bfs;
use petgraph::visit::Reversed;
use crate::catalog::Item;
use crate::catalog::Rate;
use crate::catalog::Station;
use crate::flow::Flow;
use crate::flow::loose_ends;
use crate::flow::swap_removed;

verus! {

/// `petgraph::graph::Graph`, taken as it is: the verifier sees nothing
/// inside it.
#[verifier::external_type_specification]
#[verifier::external_body]
#[verifier::reject_recursive_types(N)]
#[verifier::reject_recursive_types(E)]
#[verifier::reject_recursive_types(Ty)]
#[verifier::reject_recursive_types(Ix)]
pub struct ExGraph<N, E, Ty, Ix>(Graph<N, E, Ty, Ix>);

/// `petgraph::Directed`, the marker of graphs whose edges have a direction.
#[verifier::external_type_specification]
#[verifier::external_body]
pub struct ExDirected(Directed);

/// The container that plans are kept in.
pub type Store = Graph<Station, (Item, Rate)>;

/// The node weights of the graph, by node index.
pub uninterp spec fn stations_of(g: Store) -> Seq<Station>;

/// The edges of the graph, by edge index.
pub uninterp spec fn flows_of(g: Store) -> Seq<Flow>;

/// For each node, by node index, the nodes that send it an edge, in the
/// order in which the graph walks its incoming edges.
pub uninterp spec fn feeders_of(g: Store) -> Seq<Seq<int>>;

/// For each node, by node index, the nodes that it sends an edge, in the
/// order in which the graph walks its outgoing edges.
pub uninterp spec fn customers_of(g: Store) -> Seq<Seq<int>>;

/// The order in which a breadth-first search, begun at `start`, hands out
/// the nodes of a graph in which node `n` has the neighbours
/// `neighbours[n]`, to be walked in that order.
pub uninterp spec fn search_order(neighbours: Seq<Seq<int>>, start: int) -> Seq<usize>;

/// `Graph::new`: a directed graph without nodes or edges.
#[verifier::external_body]
pub(crate) fn store_new() -> (g: Store)
    ensures
        stations_of(g) == Seq::<Station>::empty(),
        flows_of(g) == Seq::<Flow>::empty(),
        feeders_of(g) == Seq::<Seq<int>>::empty(),
        customers_of(g) == Seq::<Seq<int>>::empty(),
{
    Graph::new()
}

/// `Graph::node_count`: the number of nodes.
#[verifier::external_body]
pub(crate) fn store_node_count(g: &Store) -> (n: usize)
    ensures
        n == stations_of(*g).len(),
{
    g.node_count()
}

/// `Graph::edge_count`: the number of edges.
#[verifier::external_body]
pub(crate) fn store_edge_count(g: &Store) -> (n: usize)
    ensures
        n == flows_of(*g).len(),
{
    g.edge_count()
}

/// `Graph::add_node`: appends a node with the given weight and returns its
/// index, the former node count. Edges stay as they are, and the new node
/// has no neighbours. The call panics once the node count has reached the
/// largest 32-bit index.
#[verifier::external_body]
pub(crate) fn store_add_node(g: &mut Store, station: Station) -> (n: usize)
    requires
        stations_of(*old(g)).len() < u32::MAX,
    ensures
        n == stations_of(*old(g)).len(),
        stations_of(*final(g)) == stations_of(*old(g)).push(station),
        flows_of(*final(g)) == flows_of(*old(g)),
        feeders_of(*final(g)) == feeders_of(*old(g)).push(Seq::empty()),
        customers_of(*final(g)) == customers_of(*old(g)).push(Seq::empty()),
{
    g.add_node(station).index()
}

/// `Graph::add_edge`: appends an edge from `source` to `target` and returns
/// its index, the former edge count. Nodes and the other edges stay as they
/// are. The new edge is the first to be walked among the outgoing edges of
/// `source` and among the incoming edges of `target`. The call panics on a
/// missing endpoint, and once the edge count has reached the largest
/// 32-bit index.
#[verifier::external_body]
pub(crate) fn store_add_edge(g: &mut Store, source: usize, target: usize, item: Item, rate: Rate) -> (e: usize)
    requires
        source < stations_of(*old(g)).len(),
        target < stations_of(*old(g)).len(),
        stations_of(*old(g)).len() <= u32::MAX,
        flows_of(*old(g)).len() < u32::MAX,
    ensures
        e == flows_of(*old(g)).len(),
        stations_of(*final(g)) == stations_of(*old(g)),
        flows_of(*final(g)) == flows_of(*old(g)).push((Flow { source, target, item, rate })),
        feeders_of(*final(g)) == feeders_of(*old(g)).update(
            target as int,
            seq![source as int] + feeders_of(*old(g))[target as int],
        ),
        customers_of(*final(g)) == customers_of(*old(g)).update(
            source as int,
            seq![target as int] + customers_of(*old(g))[source as int],
        ),
{
    g.add_edge(NodeIndex::new(source), NodeIndex::new(target), (item, rate)).index()
}

/// `Graph::find_edge`: the index of some edge from `source` to `target`, or
/// nothing where no edge joins them in that direction.
#[verifier::external_body]
pub(crate) fn store_find_edge(g: &Store, source: usize, target: usize) -> (r: Option<usize>)
    requires
        source <= u32::MAX,
        target <= u32::MAX,
    ensures
        match r {
            Some(e) => e < flows_of(*g).len() && flows_of(*g)[e as int].source == source
                && flows_of(*g)[e as int].target == target,
            None => forall|i: int|
                0 <= i < flows_of(*g).len() ==> !((#[trigger] flows_of(*g)[i]).source == source
                    && flows_of(*g)[i].target == target),
        },
{
    match g.find_edge(NodeIndex::new(source), NodeIndex::new(target)) {
        Some(e) => Some(e.index()),
        None => None,
    }
}

/// `Graph::remove_edge`: takes the edge with index `e` out. The last edge
/// takes over its index; every other edge keeps its own. Nodes stay as they
/// are. Nothing is said of the order in which neighbours are walked
/// afterwards.
#[verifier::external_body]
pub(crate) fn store_remove_edge(g: &mut Store, e: usize)
    requires
        e < flows_of(*old(g)).len(),
        flows_of(*old(g)).len() <= u32::MAX,
    ensures
        stations_of(*final(g)) == stations_of(*old(g)),
        flows_of(*final(g)) == swap_removed(flows_of(*old(g)), e as int),
{
    g.remove_edge(EdgeIndex::new(e));
}

/// Indexing by `NodeIndex`: the weight of node `n`. It panics on a missing node.
#[verifier::external_body]
pub(crate) fn store_station(g: &Store, n: usize) -> (s: Station)
    requires
        n < stations_of(*g).len(),
        stations_of(*g).len() <= u32::MAX,
    ensures
        s == stations_of(*g)[n as int],
{
    g[NodeIndex::new(n)]
}

/// `Graph::raw_edges`: the edge with index `e`, with its endpoints and weight.
#[verifier::external_body]
pub(crate) fn store_flow(g: &Store, e: usize) -> (f: Flow)
    requires
        e < flows_of(*g).len(),
    ensures
        f == flows_of(*g)[e as int],
{
    let edge = &g.raw_edges()[e];
    Flow {
        source: edge.source().index(),
        target: edge.target().index(),
        item: edge.weight.0,
        rate: edge.weight.1,
    }
}

/// Indexing mutably by `EdgeIndex`: replaces the weight of edge `e` and
/// leaves its endpoints, the other edges, the nodes and the order in which
/// neighbours are walked as they are. It panics on a missing edge.
#[verifier::external_body]
pub(crate) fn store_set_weight(g: &mut Store, e: usize, item: Item, rate: Rate)
    requires
        e < flows_of(*old(g)).len(),
        flows_of(*old(g)).len() <= u32::MAX,
    ensures
        stations_of(*final(g)) == stations_of(*old(g)),
        flows_of(*final(g)) == flows_of(*old(g)).update(
            e as int,
            (Flow {
                source: flows_of(*old(g))[e as int].source,
                target: flows_of(*old(g))[e as int].target,
                item,
                rate,
            }),
        ),
        feeders_of(*final(g)) == feeders_of(*old(g)),
        customers_of(*final(g)) == customers_of(*old(g)),
{
    g[EdgeIndex::new(e)] = (item, rate);
}

/// `Graph::externals(Outgoing)`: the nodes that no edge leaves, by rising index.
#[verifier::external_body]
pub(crate) fn store_sinks(g: &Store) -> (r: Vec<usize>)
    ensures
        r@ == loose_ends(flows_of(*g), stations_of(*g).len() as int, true),
{
    let mut r = Vec::new();
    for n in g.externals(Direction::Outgoing) {
        r.push(n.index());
    }
    r
}

/// `Graph::externals(Incoming)`: the nodes that no edge enters, by rising index.
#[verifier::external_body]
pub(crate) fn store_sources(g: &Store) -> (r: Vec<usize>)
    ensures
        r@ == loose_ends(flows_of(*g), stations_of(*g).len() as int, false),
{
    let mut r = Vec::new();
    for n in g.externals(Direction::Incoming) {
        r.push(n.index());
    }
    r
}

/// `Bfs` over `Reversed`: the nodes that a breadth-first search from `start`
/// against the direction of the edges hands out, in its order: `start`
/// first, each a node of the graph, none twice. The search walks, at each
/// node, the nodes that send it an edge. Creating the search panics on a
/// missing start node.
#[verifier::external_body]
pub(crate) fn store_upstream(g: &Store, start: usize) -> (order: Vec<usize>)
    requires
        start < stations_of(*g).len(),
        stations_of(*g).len() <= u32::MAX,
    ensures
        order@ == search_order(feeders_of(*g), start as int),
        order@.len() > 0 && order@[0] == start,
        forall|k: int| 0 <= k < order@.len() ==> (#[trigger] order@[k]) < stations_of(*g).len(),
        forall|j: int, k: int| 0 <= j < k < order@.len() ==> order@[j] != order@[k],
{
    let mut bfs = Bfs::new(Reversed(g), NodeIndex::new(start));
    let mut order = Vec::new();
    while let Some(n) = bfs.next(Reversed(g)) {
        order.push(n.index());
    }
    order
}

/// `Bfs`: the nodes that a breadth-first search from `start` along the
/// edges hands out, in its order: `start` first, each a node of the graph,
/// none twice. The search walks, at each node, the nodes that it sends an
/// edge. Creating the search panics on a missing start node.
#[verifier::external_body]
pub(crate) fn store_downstream(g: &Store, start: usize) -> (order: Vec<usize>)
    requires
        start < stations_of(*g).len(),
        stations_of(*g).len() <= u32::MAX,
    ensures
        order@ == search_order(customers_of(*g), start as int),
        order@.len() > 0 && order@[0] == start,
        forall|k: int| 0 <= k < order@.len() ==> (#[trigger] order@[k]) < stations_of(*g).len(),
        forall|j: int, k: int| 0 <= j < k < order@.len() ==> order@[j] != order@[k],
{
    let mut bfs = Bfs::new(g, NodeIndex::new(start));
    let mut order = Vec::new();
    while let Some(n) = bfs.next(g) {
        order.push(n.index());
    }
    order
}

} // verus!
