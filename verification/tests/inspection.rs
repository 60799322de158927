use factory_plan::catalog::{Catalog, Item, Machine, Recipe, Station};
use factory_plan::graph::ProductionGraph;
use factory_plan::verify::{Fault, Violation};

fn catalog() -> Catalog {
    Catalog::new(vec![
        Recipe { inputs: vec![], machine: Machine::IronMinerMk1, output: Item::IronOre, output_rate: 60 },
        Recipe { inputs: vec![], machine: Machine::OilPump, output: Item::Coal, output_rate: 60 },
        Recipe {
            inputs: vec![(Item::Coal, 45), (Item::IronOre, 45)],
            machine: Machine::Foundry,
            output: Item::SteelIngot,
            output_rate: 30,
        },
    ])
    .unwrap()
}

/// sink 0, foundry 1, coal 2, ore 3; the foundry gets `coal` and `ore`
/// and puts out `steel`.
fn foundry(coal: u64, ore: u64, steel: u64) -> ProductionGraph {
    let mut g = ProductionGraph::new(catalog());
    g.add_station(Station::Sink).unwrap();
    g.add_station(Station::Maker(2)).unwrap();
    g.add_station(Station::Maker(1)).unwrap();
    g.add_station(Station::Maker(0)).unwrap();
    g.add_flow(1, 0, Item::SteelIngot, steel).unwrap();
    g.add_flow(2, 1, Item::Coal, coal).unwrap();
    g.add_flow(3, 1, Item::IronOre, ore).unwrap();
    g
}

fn at(node: usize, fault: Fault) -> Result<(), Violation> {
    Err(Violation { node, fault })
}

#[test]
fn a_sound_plan_passes() {
    let g = foundry(45, 45, 30);
    assert_eq!(g.verify_spec(0), Ok(()));
    assert_eq!(g.check_node(0, 0), None);
    assert_eq!(g.check_node(1, 0), None);
    // Fed for less than full speed, and asked for no more.
    assert_eq!(foundry(30, 30, 20).verify_spec(0), Ok(()));
    assert_eq!(foundry(30, 30, 10).verify_spec(0), Ok(()));
}

#[test]
fn uneven_inputs_are_found() {
    let g = foundry(45, 30, 20);
    assert_eq!(g.verify_spec(0), at(1, Fault::UnevenUtilization));
    assert_eq!(g.check_node(1, 0), Some(Fault::UnevenUtilization));
    // 31 * 45 - 30 * 45 = 45, which is one unit of tolerance.
    assert_eq!(foundry(31, 30, 20).verify_spec(0), at(1, Fault::UnevenUtilization));
    assert_eq!(foundry(31, 30, 20).verify_spec(1), Ok(()));
    assert_eq!(foundry(32, 30, 20).verify_spec(1), at(1, Fault::UnevenUtilization));
}

#[test]
fn too_much_output_is_found() {
    // 30 of 45 feed two thirds of 30, which is 20.
    assert_eq!(foundry(30, 30, 21).verify_spec(0), at(1, Fault::CapacityExceeded));
    // A machine without inputs puts out no more than it can.
    let mut g = foundry(45, 45, 30);
    g.add_flow(2, 0, Item::Coal, 16).unwrap();
    assert_eq!(g.verify_spec(0), at(2, Fault::CapacityExceeded));
    assert_eq!(g.check_node(2, 0), Some(Fault::CapacityExceeded));
    assert_eq!(g.check_node(3, 0), None);
}

#[test]
fn a_machine_fed_beyond_full_speed_may_put_out_more() {
    assert_eq!(foundry(90, 90, 60).check_node(1, 0), None);
    assert_eq!(foundry(90, 90, 61).check_node(1, 0), Some(Fault::CapacityExceeded));
    // The pumps that feed it are overdrawn themselves.
    assert_eq!(foundry(90, 90, 60).verify_spec(0), at(2, Fault::CapacityExceeded));
}

#[test]
fn a_wrong_output_is_found() {
    let mut g = foundry(45, 45, 20);
    g.add_flow(1, 0, Item::IronRod, 10).unwrap();
    assert_eq!(g.verify_spec(0), at(1, Fault::ItemMismatch));
    assert!(g.has_mismatch(1, Item::SteelIngot));
    assert!(!g.has_mismatch(2, Item::Coal));
}

#[test]
fn an_unknown_input_is_found() {
    let mut g = foundry(45, 45, 30);
    g.add_flow(3, 1, Item::Limestone, 1).unwrap();
    assert_eq!(g.verify_spec(0), at(1, Fault::UnknownInput));
    assert!(g.has_foreign_input(1, 2));
    assert!(!g.has_foreign_input(2, 2));
    assert!(!foundry(45, 45, 30).has_foreign_input(1, 2));
}

#[test]
fn totals_out_of_range_are_found() {
    let mut g = foundry(45, 45, 30);
    g.add_flow(1, 0, Item::SteelIngot, u64::MAX).unwrap();
    assert_eq!(g.check_node(1, 0), Some(Fault::RateOverflow));
    let mut g = foundry(u64::MAX, 45, 30);
    g.add_flow(2, 1, Item::Coal, 1).unwrap();
    assert_eq!(g.check_node(1, 0), Some(Fault::RateOverflow));
}

#[test]
fn an_input_that_is_not_fed_is_not_compared() {
    let mut g = foundry(45, 30, 20);
    assert_eq!(g.check_node(1, 0), Some(Fault::UnevenUtilization));
    g.remove_flow(2).unwrap();
    assert!(g.fed_with(1, Item::Coal));
    assert!(!g.fed_with(1, Item::IronOre));
    assert_eq!(g.check_node(1, 0), None);
    g.set_flow(0, Item::SteelIngot, 31);
    assert_eq!(g.check_node(1, 0), Some(Fault::CapacityExceeded));
}

#[test]
fn the_first_violation_in_order_is_reported() {
    let mut g = foundry(45, 30, 20);
    g.add_flow(2, 0, Item::Coal, 60).unwrap();
    assert_eq!(g.verify_along(&vec![0, 2, 1], 0), at(2, Fault::CapacityExceeded));
    assert_eq!(g.verify_along(&vec![0, 1, 2], 0), at(1, Fault::UnevenUtilization));
    assert_eq!(g.verify_along(&vec![0, 3, 17], 0), Ok(()));
    assert_eq!(g.verify_along(&vec![], 0), Ok(()));
    // The search from the sources reaches the coal pump first.
    assert_eq!(g.verify_spec(0), at(2, Fault::CapacityExceeded));
}

#[test]
fn the_sink_has_no_limit() {
    let mut g = ProductionGraph::new(catalog());
    g.add_station(Station::Sink).unwrap();
    g.add_station(Station::Sink).unwrap();
    g.add_flow(0, 1, Item::Coal, u64::MAX).unwrap();
    g.add_flow(0, 1, Item::Coal, u64::MAX).unwrap();
    assert_eq!(g.verify_spec(0), Ok(()));
    assert_eq!(g.legalize(), Ok(()));
    assert_eq!(g.node_count(), 2);
}
