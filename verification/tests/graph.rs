use factory_plan::catalog::{Catalog, Item, Machine, Recipe, Station};
use factory_plan::flow::Flow;
use factory_plan::graph::ProductionGraph;

fn tiny_catalog() -> Catalog {
    Catalog::new(vec![
        Recipe { inputs: vec![], machine: Machine::IronMinerMk1, output: Item::IronOre, output_rate: 60 },
        Recipe {
            inputs: vec![(Item::IronOre, 30)],
            machine: Machine::Smelter,
            output: Item::IronIngot,
            output_rate: 30,
        },
    ])
    .unwrap()
}

/// sink 0, smelter 1, miner 2, miner 3; the miners feed the smelter, the
/// smelter feeds the sink.
fn diamond() -> ProductionGraph {
    let mut g = ProductionGraph::new(tiny_catalog());
    g.add_station(Station::Sink).unwrap();
    g.add_station(Station::Maker(1)).unwrap();
    g.add_station(Station::Maker(0)).unwrap();
    g.add_station(Station::Maker(0)).unwrap();
    g.add_flow(1, 0, Item::IronIngot, 20).unwrap();
    g.add_flow(2, 1, Item::IronOre, 12).unwrap();
    g.add_flow(3, 1, Item::IronOre, 8).unwrap();
    g
}

#[test]
fn new_graph_is_empty() {
    let g = ProductionGraph::new(tiny_catalog());
    assert_eq!(g.node_count(), 0);
    assert_eq!(g.edge_count(), 0);
    assert_eq!(g.catalog().len(), 2);
    assert_eq!(g.as_graph().node_count(), 0);
    assert_eq!(g.station(0), None);
    assert_eq!(g.flow(0), None);
    assert!(g.sinks().is_empty());
    assert!(g.sources().is_empty());
}

#[test]
fn add_station_and_flow() {
    let mut g = ProductionGraph::new(tiny_catalog());
    let sink = g.add_station(Station::Sink).unwrap();
    let miner = g.add_station(Station::Maker(0)).unwrap();
    assert_eq!((sink, miner), (0, 1));
    assert_eq!(g.add_station(Station::Maker(2)), None);
    assert_eq!(g.add_flow(miner, sink, Item::IronOre, 45), Some(0));
    assert_eq!(g.add_flow(miner, 7, Item::IronOre, 45), None);
    assert_eq!(g.add_flow(7, sink, Item::IronOre, 45), None);
    assert_eq!(g.node_count(), 2);
    assert_eq!(g.edge_count(), 1);
    assert_eq!(g.station(0), Some(Station::Sink));
    assert_eq!(g.station(1), Some(Station::Maker(0)));
    assert_eq!(g.station(2), None);
    assert_eq!(g.flow(0), Some(Flow { source: 1, target: 0, item: Item::IronOre, rate: 45 }));
    assert_eq!(g.flow(1), None);
    assert_eq!(g.total_out(miner), 45);
    assert_eq!(g.total_out(sink), 0);
    assert_eq!(g.total_in(sink, Item::IronOre), 45);
    assert_eq!(g.total_in(sink, Item::IronRod), 0);
    assert_eq!(g.as_graph().edge_count(), 1);
}

#[test]
fn totals_add_up_parallel_flows() {
    let mut g = diamond();
    g.add_flow(2, 1, Item::IronOre, 5).unwrap();
    assert_eq!(g.total_out(2), 17);
    assert_eq!(g.total_in(1, Item::IronOre), 25);
    assert_eq!(g.total_in(1, Item::IronIngot), 0);
}

#[test]
fn find_station_gives_the_first() {
    let g = diamond();
    assert_eq!(g.find_station(Station::Sink), Some(0));
    assert_eq!(g.find_station(Station::Maker(0)), Some(2));
    assert_eq!(g.find_station(Station::Maker(1)), Some(1));
    assert_eq!(ProductionGraph::new(tiny_catalog()).find_station(Station::Sink), None);
}

#[test]
fn find_flow_follows_direction() {
    let g = diamond();
    assert_eq!(g.find_flow(1, 0), Some(0));
    assert_eq!(g.find_flow(3, 1), Some(2));
    assert_eq!(g.find_flow(0, 1), None);
    assert_eq!(g.find_flow(2, 3), None);
    assert_eq!(g.find_flow(9, 1), None);
}

#[test]
fn set_flow_keeps_the_endpoints() {
    let mut g = diamond();
    assert!(g.set_flow(1, Item::Coal, 99));
    assert_eq!(g.flow(1), Some(Flow { source: 2, target: 1, item: Item::Coal, rate: 99 }));
    assert_eq!(g.flow(0), Some(Flow { source: 1, target: 0, item: Item::IronIngot, rate: 20 }));
    assert!(!g.set_flow(3, Item::Coal, 1));
    assert_eq!(g.edge_count(), 3);
}

#[test]
fn remove_flow_moves_the_last_into_the_gap() {
    let mut g = diamond();
    assert_eq!(g.remove_flow(0), Some(Flow { source: 1, target: 0, item: Item::IronIngot, rate: 20 }));
    assert_eq!(g.edge_count(), 2);
    assert_eq!(g.flow(0), Some(Flow { source: 3, target: 1, item: Item::IronOre, rate: 8 }));
    assert_eq!(g.flow(1), Some(Flow { source: 2, target: 1, item: Item::IronOre, rate: 12 }));
    assert_eq!(g.remove_flow(1), Some(Flow { source: 2, target: 1, item: Item::IronOre, rate: 12 }));
    assert_eq!(g.flow(0), Some(Flow { source: 3, target: 1, item: Item::IronOre, rate: 8 }));
    assert_eq!(g.remove_flow(1), None);
    assert_eq!(g.edge_count(), 1);
    assert_eq!(g.node_count(), 4);
}

#[test]
fn sinks_and_sources_by_rising_index() {
    let mut g = diamond();
    assert_eq!(g.sinks(), vec![0]);
    assert_eq!(g.sources(), vec![2, 3]);
    g.add_station(Station::Sink).unwrap();
    assert_eq!(g.sinks(), vec![0, 4]);
    assert_eq!(g.sources(), vec![2, 3, 4]);
    g.remove_flow(0).unwrap();
    assert_eq!(g.sinks(), vec![0, 1, 4]);
    assert_eq!(g.sources(), vec![0, 2, 3, 4]);
}

#[test]
fn upstream_and_downstream_searches() {
    let g = diamond();
    let up = g.upstream(0);
    assert_eq!(up.len(), 4);
    assert_eq!(&up[..2], &[0, 1]);
    assert!(up.contains(&2) && up.contains(&3));
    assert_eq!(g.upstream(2), vec![2]);
    assert_eq!(g.downstream(2), vec![2, 1, 0]);
    assert_eq!(g.downstream(0), vec![0]);
    assert!(g.upstream(4).is_empty());
    assert!(g.downstream(4).is_empty());
    assert_eq!(g.sink_traversal(), up);
    let seen = g.inspection_order();
    assert_eq!(seen, vec![2, 1, 0, 3, 1, 0]);
}

#[test]
fn an_order_suits_when_consumers_come_first() {
    let g = diamond();
    assert!(g.suits(&vec![0, 1, 2, 3]));
    assert!(g.suits(&vec![0, 1, 3, 2]));
    assert!(g.suits(&g.sink_traversal()));
    // A producer before its consumer.
    assert!(!g.suits(&vec![0, 2, 1, 3]));
    // A node left out, a node twice, no node.
    assert!(!g.suits(&vec![0, 1, 2]));
    assert!(!g.suits(&vec![0, 1, 2, 3, 2]));
    assert!(!g.suits(&vec![0, 1, 2, 3, 4]));
    let mut looped = diamond();
    looped.add_flow(1, 1, Item::IronIngot, 1).unwrap();
    assert!(!looped.suits(&vec![0, 1, 2, 3]));
    assert!(ProductionGraph::new(tiny_catalog()).suits(&vec![]));
}
