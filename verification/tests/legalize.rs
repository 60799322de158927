use factory_plan::catalog::{Catalog, Item, Machine, Rate, Recipe, Station};
use factory_plan::expand::{recipes_to_make, Placed};
use factory_plan::flow::Flow;
use factory_plan::graph::{PlanError, ProductionGraph};
use factory_plan::verify::Fault;

fn recipe(machine: Machine, inputs: Vec<(Item, Rate)>, output: Item, output_rate: Rate) -> Recipe {
    Recipe { inputs, machine, output, output_rate }
}

/// copper 0, wire 1 (15 copper to 45 wire), cable 2 (30 wire to 15 cable).
fn wire_catalog() -> Catalog {
    Catalog::new(vec![
        recipe(Machine::CopperMinerMk1, vec![], Item::CopperIngot, 60),
        recipe(Machine::Constructor, vec![(Item::CopperIngot, 15)], Item::Wire, 45),
        recipe(Machine::Constructor, vec![(Item::Wire, 30)], Item::Cable, 15),
    ])
    .unwrap()
}

fn flows_of(g: &ProductionGraph) -> Vec<Flow> {
    (0..g.edge_count()).map(|e| g.flow(e).unwrap()).collect()
}

fn flow(source: usize, target: usize, item: Item, rate: Rate) -> Flow {
    Flow { source, target, item, rate }
}

/// sink 0, cable 1, wire 2, copper 3: 45 cable and 90 wire for the sink.
fn wire_and_cable() -> ProductionGraph {
    recipes_to_make(wire_catalog(), &[(Item::Cable, 45), (Item::Wire, 90)]).unwrap()
}

#[test]
fn expansion_of_wire_and_cable() {
    let g = wire_and_cable();
    assert_eq!(
        flows_of(&g),
        vec![
            flow(1, 0, Item::Cable, 45),
            flow(2, 1, Item::Wire, 90),
            flow(3, 2, Item::CopperIngot, 60),
            flow(2, 0, Item::Wire, 90),
        ]
    );
    assert_eq!(g.station(1), Some(Station::Maker(2)));
    assert_eq!(g.station(2), Some(Station::Maker(1)));
    assert_eq!(g.station(3), Some(Station::Maker(0)));
}

#[test]
fn place_finds_or_adds() {
    let mut g = ProductionGraph::new(wire_catalog());
    let mut known = Placed::new();
    assert_eq!(g.place(&mut known, Station::Sink), Ok(0));
    assert_eq!(g.place(&mut known, Station::Maker(1)), Ok(1));
    assert_eq!(g.place(&mut known, Station::Maker(0)), Ok(2));
    assert_eq!(g.place(&mut known, Station::Sink), Ok(0));
    assert_eq!(g.place(&mut known, Station::Maker(1)), Ok(1));
    assert_eq!(g.place(&mut known, Station::Maker(0)), Ok(2));
    assert_eq!(g.node_count(), 3);
}

#[test]
fn feed_adds_to_the_flow_that_is_there() {
    let mut g = ProductionGraph::new(wire_catalog());
    let mut known = Placed::new();
    g.place(&mut known, Station::Sink).unwrap();
    g.place(&mut known, Station::Maker(1)).unwrap();
    assert_eq!(g.feed(1, 0, Item::Wire, 10), Ok(()));
    assert_eq!(g.feed(1, 0, Item::Wire, 5), Ok(()));
    assert_eq!(flows_of(&g), vec![flow(1, 0, Item::Wire, 15)]);
    assert_eq!(g.feed(1, 0, Item::Wire, u64::MAX - 14), Err(PlanError::RateOverflow));
    assert_eq!(flows_of(&g), vec![flow(1, 0, Item::Wire, 15)]);
    assert_eq!(g.feed(1, 0, Item::Wire, u64::MAX - 15), Ok(()));
    assert_eq!(flows_of(&g), vec![flow(1, 0, Item::Wire, u64::MAX)]);
}

#[test]
fn demand_asks_the_whole_chain() {
    let mut g = ProductionGraph::new(wire_catalog());
    let mut known = Placed::new();
    let sink = g.place(&mut known, Station::Sink).unwrap();
    assert_eq!(g.demand(&mut known, sink, Item::Cable, 15, 3), Ok(()));
    assert_eq!(
        flows_of(&g),
        vec![flow(1, 0, Item::Cable, 15), flow(2, 1, Item::Wire, 30), flow(3, 2, Item::CopperIngot, 10)]
    );
    // Three recipes deep takes a budget of three.
    let mut g = ProductionGraph::new(wire_catalog());
    let mut known = Placed::new();
    let sink = g.place(&mut known, Station::Sink).unwrap();
    assert_eq!(g.demand(&mut known, sink, Item::Cable, 15, 2), Err(PlanError::Cycle));
    let mut g = ProductionGraph::new(wire_catalog());
    let mut known = Placed::new();
    let sink = g.place(&mut known, Station::Sink).unwrap();
    assert_eq!(g.demand(&mut known, sink, Item::Coal, 15, 0), Ok(()));
    assert_eq!(g.edge_count(), 0);
}

#[test]
fn supply_asks_the_last_input_first() {
    let catalog = Catalog::new(vec![
        recipe(Machine::OilPump, vec![], Item::Coal, 60),
        recipe(Machine::IronMinerMk1, vec![], Item::IronOre, 60),
        recipe(Machine::Foundry, vec![(Item::Coal, 45), (Item::IronOre, 45)], Item::SteelIngot, 30),
    ])
    .unwrap();
    let mut g = ProductionGraph::new(catalog);
    let mut known = Placed::new();
    let foundry = g.place(&mut known, Station::Maker(2)).unwrap();
    assert_eq!(g.supply(&mut known, foundry, 2, 20, 2, 3), Ok(()));
    assert_eq!(g.station(1), Some(Station::Maker(1)));
    assert_eq!(g.station(2), Some(Station::Maker(0)));
    assert_eq!(flows_of(&g), vec![flow(1, 0, Item::IronOre, 30), flow(2, 0, Item::Coal, 30)]);
}

#[test]
fn take_outgoing_takes_the_highest_index_first() {
    let mut g = wire_and_cable();
    let taken = g.take_outgoing(2);
    assert_eq!(taken, vec![flow(2, 0, Item::Wire, 90), flow(2, 1, Item::Wire, 90)]);
    assert_eq!(flows_of(&g), vec![flow(1, 0, Item::Cable, 45), flow(3, 2, Item::CopperIngot, 60)]);
    assert!(g.take_outgoing(0).is_empty());
    assert_eq!(g.edge_count(), 2);
}

#[test]
fn ship_and_nourish_equip_a_machine() {
    let mut g = wire_and_cable();
    let extra = g.add_station(Station::Maker(2)).unwrap();
    assert_eq!(g.ship(extra, &vec![flow(1, 0, Item::Cable, 15)]), Ok(()));
    assert_eq!(g.flow(4), Some(flow(extra, 0, Item::Cable, 15)));
    assert_eq!(g.nourish(1, extra, 2, 15), Ok(()));
    assert_eq!(g.flow(5), Some(flow(2, extra, Item::Wire, 30)));
    // Feeding the node itself changes its flows in place.
    assert_eq!(g.nourish(1, 1, 2, 5), Ok(()));
    assert_eq!(g.flow(1), Some(flow(2, 1, Item::Wire, 10)));
    assert_eq!(g.edge_count(), 6);
}

#[test]
fn split_node_makes_one_machine_per_capacity() {
    let mut g = wire_and_cable();
    assert_eq!(g.split_node(1), Ok(()));
    assert_eq!(g.node_count(), 6);
    assert_eq!(g.station(4), Some(Station::Maker(2)));
    assert_eq!(g.station(5), Some(Station::Maker(2)));
    assert_eq!(
        flows_of(&g),
        vec![
            flow(2, 0, Item::Wire, 90),
            flow(2, 1, Item::Wire, 30),
            flow(3, 2, Item::CopperIngot, 60),
            flow(4, 0, Item::Cable, 15),
            flow(2, 4, Item::Wire, 30),
            flow(5, 0, Item::Cable, 15),
            flow(2, 5, Item::Wire, 30),
            flow(1, 0, Item::Cable, 15),
        ]
    );
    // The sink, a node within capacity and no node at all stay as they are.
    let before = flows_of(&g);
    assert_eq!(g.split_node(0), Ok(()));
    assert_eq!(g.split_node(4), Ok(()));
    assert_eq!(g.split_node(3), Ok(()));
    assert_eq!(g.split_node(77), Ok(()));
    assert_eq!(flows_of(&g), before);
    assert_eq!(g.node_count(), 6);
}

#[test]
fn split_node_cuts_pieces_across_machines() {
    // 100 wire in flows of 70 and 30 from machines of 45.
    let mut g = ProductionGraph::new(wire_catalog());
    g.add_station(Station::Sink).unwrap();
    g.add_station(Station::Sink).unwrap();
    let wire = g.add_station(Station::Maker(1)).unwrap();
    let copper = g.add_station(Station::Maker(0)).unwrap();
    g.add_flow(wire, 0, Item::Wire, 70).unwrap();
    g.add_flow(wire, 1, Item::Wire, 30).unwrap();
    g.add_flow(copper, wire, Item::CopperIngot, 34).unwrap();
    assert_eq!(g.split_node(wire), Ok(()));
    assert_eq!(g.node_count(), 6);
    // Pieces by rising rate: 25 and 30 and 45; the largest goes first.
    assert_eq!(
        flows_of(&g),
        vec![
            flow(copper, wire, Item::CopperIngot, 4),
            flow(4, 0, Item::Wire, 45),
            flow(copper, 4, Item::CopperIngot, 15),
            flow(5, 1, Item::Wire, 30),
            flow(5, 0, Item::Wire, 15),
            flow(copper, 5, Item::CopperIngot, 15),
            flow(wire, 0, Item::Wire, 10),
        ]
    );
}

#[test]
fn legalize_along_passes_over_what_is_no_node() {
    let mut g = wire_and_cable();
    assert_eq!(g.legalize_along(&vec![9, 0, 1, 9]), Ok(()));
    assert_eq!(g.node_count(), 6);
    let mut g = wire_and_cable();
    assert_eq!(g.legalize_along(&vec![]), Ok(()));
    assert_eq!(g.node_count(), 4);
}

// The search from the sink hands out the cable maker before the wire
// maker that feeds it, and consumers first makes a legal plan.
#[test]
fn consumers_first_makes_a_legal_plan() {
    let mut g = wire_and_cable();
    let order = g.sink_traversal();
    assert_eq!(order, vec![0, 2, 1, 3]);
    assert!(!g.suits(&order));
    let order = vec![0, 1, 2, 3];
    assert!(g.suits(&order));
    assert!(!g.is_legal());
    assert_eq!(g.legalize_along(&order), Ok(()));
    assert!(g.is_legal());
    for n in 0..g.node_count() {
        if let Some(Station::Maker(r)) = g.station(n) {
            assert!(g.total_out(n) <= g.catalog().recipe(r).output_rate as u128);
        }
    }
    assert_eq!(g.verify_spec(0), Ok(()));
    let before = flows_of(&g);
    assert_eq!(g.legalize(), Ok(()));
    assert_eq!(flows_of(&g), before);
}

// Producers first does not: the wire makers are fed to the machines of
// the cable maker once each, and nobody looks at them again.
#[test]
fn producers_first_leaves_machines_overdrawn() {
    let mut g = wire_and_cable();
    assert_eq!(g.legalize_along(&vec![0, 2, 1, 3]), Ok(()));
    let worst = (0..g.node_count())
        .filter(|&n| g.station(n) == Some(Station::Maker(1)))
        .map(|n| g.total_out(n))
        .max()
        .unwrap();
    assert!(worst > 45);
    assert!(!g.is_legal());
    let found = g.verify_spec(0).unwrap_err();
    assert_eq!(found.fault, Fault::CapacityExceeded);
}

#[test]
fn legalize_reports_a_foreign_input_before_it_changes_anything() {
    let mut g = wire_and_cable();
    g.add_flow(3, 1, Item::CopperIngot, 1).unwrap();
    let before = flows_of(&g);
    assert_eq!(g.split_node(1), Err(PlanError::ForeignInput));
    assert_eq!(flows_of(&g), before);
    assert_eq!(g.node_count(), 4);
}

// Seven of an input for fifteen of the output. Asked for 1 and for 16, the
// maker is promised 1 + 8 of the input, each demand rounded up. Split into
// machines that put out 15 and 2, it needs 7 + 1: the rounding is done once
// for each machine, and the producer sends one unit less than before.
#[test]
fn rounding_is_done_once_for_each_machine() {
    let catalog = Catalog::new(vec![
        recipe(Machine::IronMinerMk1, vec![], Item::IronOre, 60),
        recipe(Machine::Smelter, vec![(Item::IronOre, 7)], Item::IronIngot, 15),
    ])
    .unwrap();
    let mut g = recipes_to_make(catalog, &[(Item::IronIngot, 1), (Item::IronIngot, 16)]).unwrap();
    assert_eq!(g.total_in(1, Item::IronOre), 9);
    assert_eq!(g.total_out(2), 9);
    assert!(g.suits(&g.sink_traversal()));
    assert_eq!(g.legalize(), Ok(()));
    assert!(g.is_legal());
    assert_eq!(g.node_count(), 4);
    assert_eq!(g.total_out(3) + g.total_out(1), 17);
    assert_eq!(g.total_in(3, Item::IronOre) + g.total_in(1, Item::IronOre), 8);
    assert_eq!(g.total_out(2), 8);
    assert_eq!(g.verify_spec(1), Ok(()));
}

// The search from the sink hands out the wire maker before the cable
// maker that it feeds. That order does not suit, and the graph's own
// order of consumers first is taken in its place.
#[test]
fn legalize_takes_an_order_that_suits() {
    let mut g = wire_and_cable();
    assert!(!g.suits(&g.sink_traversal()));
    assert_eq!(g.consumers_order(), vec![0, 1, 2, 3]);
    assert!(g.suits(&g.consumers_order()));
    assert_eq!(g.legalize(), Ok(()));
    assert!(g.is_legal());
    assert_eq!(g.verify_spec(0), Ok(()));
    let wire: Vec<u128> = (0..g.node_count())
        .filter(|&n| g.station(n) == Some(Station::Maker(1)))
        .map(|n| g.total_out(n))
        .collect();
    assert_eq!(wire.len(), 4);
    assert!(wire.iter().all(|&out| out == 45));
    let nodes = g.node_count();
    let before = flows_of(&g);
    assert_eq!(g.legalize(), Ok(()));
    assert_eq!(g.node_count(), nodes);
    assert_eq!(flows_of(&g), before);
}

#[test]
fn consumers_order_places_the_least_index_first() {
    let mut g = ProductionGraph::new(wire_catalog());
    assert!(g.consumers_order().is_empty());
    // 0 feeds 2, 1 feeds 2, 2 feeds 3; 4 stands alone.
    for _ in 0..5 {
        g.add_station(Station::Maker(0)).unwrap();
    }
    g.add_flow(0, 2, Item::Wire, 1).unwrap();
    g.add_flow(1, 2, Item::Wire, 1).unwrap();
    g.add_flow(2, 3, Item::Wire, 1).unwrap();
    assert_eq!(g.consumers_order(), vec![3, 2, 0, 1, 4]);
    assert!(g.suits(&g.consumers_order()));
}

// Two overdrawn machines that feed each other: no order puts each after
// the other, and nothing is changed.
#[test]
fn legalize_refuses_flows_in_a_circle() {
    let mut g = ProductionGraph::new(wire_catalog());
    g.add_station(Station::Sink).unwrap();
    g.add_station(Station::Maker(1)).unwrap();
    g.add_station(Station::Maker(2)).unwrap();
    g.add_flow(1, 2, Item::Wire, 90).unwrap();
    g.add_flow(2, 1, Item::Cable, 30).unwrap();
    g.add_flow(2, 0, Item::Cable, 30).unwrap();
    assert_eq!(g.consumers_order(), vec![0]);
    let before = flows_of(&g);
    assert_eq!(g.legalize(), Err(PlanError::Unordered));
    assert_eq!(flows_of(&g), before);
    assert_eq!(g.node_count(), 3);
    // A legal graph stays as it is, circle or not.
    g.set_flow(0, Item::Wire, 45);
    g.set_flow(1, Item::Cable, 5);
    g.set_flow(2, Item::Cable, 5);
    assert!(g.is_legal());
    assert_eq!(g.legalize(), Ok(()));
    assert_eq!(g.edge_count(), 3);
}
