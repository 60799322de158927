use factory_plan::catalog::{Catalog, Item, Machine, Rate, Recipe, Station};
use factory_plan::expand::recipes_to_make;
use factory_plan::flow::Flow;
use factory_plan::graph::{PlanError, ProductionGraph};
use factory_plan::plan::plan_for;
use factory_plan::standard::{recipes, standard_catalog};
use factory_plan::verify::{Fault, Violation};

fn recipe(machine: Machine, inputs: Vec<(Item, Rate)>, output: Item, output_rate: Rate) -> Recipe {
    Recipe { inputs, machine, output, output_rate }
}

fn iron_catalog() -> Catalog {
    Catalog::new(vec![
        recipe(Machine::IronMinerMk1, vec![], Item::IronOre, 60),
        recipe(Machine::Smelter, vec![(Item::IronOre, 30)], Item::IronIngot, 30),
        recipe(Machine::Constructor, vec![(Item::IronIngot, 15)], Item::IronRod, 15),
    ])
    .unwrap()
}

fn count_makers(g: &ProductionGraph, recipe: usize) -> usize {
    (0..g.node_count()).filter(|&n| g.station(n) == Some(Station::Maker(recipe))).count()
}

fn all_flows(g: &ProductionGraph) -> Vec<Flow> {
    (0..g.edge_count()).map(|e| g.flow(e).unwrap()).collect()
}

fn total_out_of_recipe(g: &ProductionGraph, recipe: usize) -> u128 {
    (0..g.node_count())
        .filter(|&n| g.station(n) == Some(Station::Maker(recipe)))
        .map(|n| g.total_out(n))
        .sum()
}

#[test]
fn expansion_builds_one_node_per_recipe() {
    let g = recipes_to_make(iron_catalog(), &[(Item::IronRod, 60)]).unwrap();
    assert_eq!(g.node_count(), 4);
    assert_eq!(g.station(0), Some(Station::Sink));
    assert_eq!(g.station(1), Some(Station::Maker(2)));
    assert_eq!(g.station(2), Some(Station::Maker(1)));
    assert_eq!(g.station(3), Some(Station::Maker(0)));
    assert_eq!(
        all_flows(&g),
        vec![
            Flow { source: 1, target: 0, item: Item::IronRod, rate: 60 },
            Flow { source: 2, target: 1, item: Item::IronIngot, rate: 60 },
            Flow { source: 3, target: 2, item: Item::IronOre, rate: 60 },
        ]
    );
}

#[test]
fn expansion_of_nothing_is_empty() {
    let g = recipes_to_make(iron_catalog(), &[]).unwrap();
    assert_eq!(g.node_count(), 0);
    assert_eq!(g.edge_count(), 0);
}

#[test]
fn expansion_accumulates_repeated_demand() {
    let g = recipes_to_make(iron_catalog(), &[(Item::IronRod, 10), (Item::IronRod, 5), (Item::IronIngot, 7)])
        .unwrap();
    assert_eq!(g.node_count(), 4);
    assert_eq!(g.edge_count(), 4);
    assert_eq!(g.total_in(0, Item::IronRod), 15);
    assert_eq!(g.total_in(0, Item::IronIngot), 7);
    // The smelter feeds the constructor and the sink.
    assert_eq!(g.total_out(2), 22);
    assert_eq!(g.total_out(3), 22);
}

#[test]
fn expansion_drops_demand_for_raw_goods() {
    let g = recipes_to_make(iron_catalog(), &[(Item::Coal, 10)]).unwrap();
    assert_eq!(g.node_count(), 1);
    assert_eq!(g.station(0), Some(Station::Sink));
    assert_eq!(g.edge_count(), 0);
}

#[test]
fn expansion_uses_the_first_recipe_listed() {
    let catalog = Catalog::new(vec![
        recipe(Machine::IronMinerMk1, vec![], Item::IronOre, 60),
        recipe(Machine::IronMinerMk2, vec![], Item::IronOre, 120),
    ])
    .unwrap();
    assert_eq!(catalog.producer(Item::IronOre), Some(0));
    assert_eq!(catalog.producer(Item::Coal), None);
    let g = recipes_to_make(catalog, &[(Item::IronOre, 90)]).unwrap();
    assert_eq!(g.node_count(), 2);
    assert_eq!(g.station(1), Some(Station::Maker(0)));
}

#[test]
fn expansion_rounds_input_demand_up() {
    let catalog = Catalog::new(vec![
        recipe(Machine::Constructor, vec![], Item::IronRod, 15),
        recipe(Machine::Constructor, vec![(Item::IronRod, 15)], Item::Screw, 90),
    ])
    .unwrap();
    let g = recipes_to_make(catalog, &[(Item::Screw, 100)]).unwrap();
    // 100 * 15 / 90 = 16.66..., so 17 are asked for.
    assert_eq!(g.total_in(1, Item::IronRod), 17);
}

#[test]
fn expansion_refuses_recipes_that_feed_on_themselves() {
    let catalog = Catalog::new(vec![
        recipe(Machine::Constructor, vec![(Item::Screw, 1)], Item::IronRod, 1),
        recipe(Machine::Constructor, vec![(Item::IronRod, 1)], Item::Screw, 1),
    ])
    .unwrap();
    assert_eq!(recipes_to_make(catalog, &[(Item::Screw, 1)]).err(), Some(PlanError::Cycle));
}

#[test]
fn expansion_reports_rates_out_of_range() {
    let catalog = Catalog::new(vec![
        recipe(Machine::Constructor, vec![], Item::IronRod, 1),
        recipe(Machine::Constructor, vec![(Item::IronRod, 3)], Item::Screw, 1),
    ])
    .unwrap();
    assert_eq!(recipes_to_make(catalog, &[(Item::Screw, u64::MAX)]).err(), Some(PlanError::RateOverflow));
    let catalog = Catalog::new(vec![recipe(Machine::Constructor, vec![], Item::IronRod, 1)]).unwrap();
    assert_eq!(
        recipes_to_make(catalog, &[(Item::IronRod, u64::MAX), (Item::IronRod, 1)]).err(),
        Some(PlanError::RateOverflow)
    );
}

#[test]
fn catalog_refuses_a_recipe_without_output() {
    assert!(Catalog::new(vec![recipe(Machine::Smelter, vec![], Item::IronIngot, 0)]).is_none());
    assert!(Catalog::new(vec![]).is_some());
    let c = iron_catalog();
    assert_eq!(c.len(), 3);
    assert_eq!(c.recipe(1).output, Item::IronIngot);
    assert!(c.get(3).is_none());
    assert_eq!(c.get(2).unwrap().input_rate(Item::IronIngot), Some(15));
    assert_eq!(c.get(2).unwrap().input_rate(Item::IronOre), None);
}

#[test]
fn catalog_knows_whether_it_is_listed_in_order() {
    assert!(standard_catalog().listed_in_order());
    assert!(iron_catalog().listed_in_order());
    assert!(Catalog::new(vec![]).unwrap().listed_in_order());
    // The rod maker before the smelter that feeds it.
    let backwards = Catalog::new(vec![
        recipe(Machine::Constructor, vec![(Item::IronIngot, 15)], Item::IronRod, 15),
        recipe(Machine::Smelter, vec![(Item::IronOre, 30)], Item::IronIngot, 30),
    ])
    .unwrap();
    assert!(!backwards.listed_in_order());
    assert!(recipes_to_make(backwards, &[(Item::IronRod, 15)]).is_ok());
    // A recipe that consumes what it makes.
    let looped =
        Catalog::new(vec![recipe(Machine::Constructor, vec![(Item::Wire, 1)], Item::Wire, 2)]).unwrap();
    assert!(!looped.listed_in_order());
    assert_eq!(recipes_to_make(looped, &[(Item::Wire, 1)]).err(), Some(PlanError::Cycle));
}

#[test]
fn standard_catalog_lists_its_recipes() {
    let table = recipes();
    assert_eq!(table.len(), 38);
    assert!(table.iter().all(|r| r.output_rate > 0));
    assert!(table.iter().all(|r| r.machine != Machine::Storage));
    let c = standard_catalog();
    assert_eq!(c.producer(Item::IronOre), Some(0));
    assert_eq!(c.producer(Item::Biomass), Some(14));
    assert_eq!(c.producer(Item::AILimiter), Some(37));
    assert_eq!(c.producer(Item::Any), None);
    assert_eq!(c.recipe(23).inputs, vec![(Item::FlowerPetals, 37_500)]);
}

// Miner 60 ore; smelter 30 ore to 30 ingots; constructor 15 ingots to 15
// rods. Sixty rods take four constructors, two smelters and one miner.
#[test]
fn saturated_chain_splits_without_fragments() {
    let mut g = recipes_to_make(iron_catalog(), &[(Item::IronRod, 60)]).unwrap();
    assert!(g.suits(&g.sink_traversal()));
    assert_eq!(g.legalize(), Ok(()));
    assert_eq!(count_makers(&g, 2), 4);
    assert_eq!(count_makers(&g, 1), 2);
    assert_eq!(count_makers(&g, 0), 1);
    assert_eq!(g.node_count(), 8);
    for n in 0..g.node_count() {
        match g.station(n).unwrap() {
            Station::Sink => assert_eq!(g.total_out(n), 0),
            Station::Maker(0) => assert_eq!(g.total_out(n), 60),
            Station::Maker(1) => assert_eq!(g.total_out(n), 30),
            Station::Maker(_) => assert_eq!(g.total_out(n), 15),
        }
    }
    assert_eq!(g.total_in(0, Item::IronRod), 60);
    assert!(g.is_legal());
    assert_eq!(g.verify_spec(0), Ok(()));
}

// Thirty cables from constructors that turn 15 wire into 15 cable: two
// cable constructors, and one wire constructor with 15 of its 45 unused.
#[test]
fn fragment_fits_one_upstream_machine() {
    let catalog = Catalog::new(vec![
        recipe(Machine::Constructor, vec![(Item::CopperIngot, 15)], Item::Wire, 45),
        recipe(Machine::Constructor, vec![(Item::Wire, 15)], Item::Cable, 15),
    ])
    .unwrap();
    let mut g = recipes_to_make(catalog, &[(Item::Cable, 30)]).unwrap();
    assert_eq!(g.legalize(), Ok(()));
    assert_eq!(count_makers(&g, 1), 2);
    assert_eq!(count_makers(&g, 0), 1);
    let wire = (0..g.node_count()).find(|&n| g.station(n) == Some(Station::Maker(0))).unwrap();
    assert_eq!(g.total_out(wire), 30);
    for f in all_flows(&g) {
        assert!(f.rate > 0);
        if f.source == wire {
            assert_eq!(f.rate, 15);
            assert_eq!(g.station(f.target), Some(Station::Maker(1)));
        }
    }
    assert_eq!(g.verify_spec(0), Ok(()));
}

// The same with the cable recipe of the built-in catalog, which takes 30
// wire for 15 cable: the two cable constructors ask for 60 wire, which
// takes two wire constructors, one full and one at a third.
#[test]
fn fragment_with_the_standard_cable_recipe() {
    let mut g = recipes_to_make(standard_catalog(), &[(Item::Cable, 30_000)]).unwrap();
    assert_eq!(g.legalize(), Ok(()));
    let cable = g.catalog().producer(Item::Cable).unwrap();
    let wire = g.catalog().producer(Item::Wire).unwrap();
    assert_eq!(count_makers(&g, cable), 2);
    assert_eq!(count_makers(&g, wire), 2);
    assert_eq!(total_out_of_recipe(&g, wire), 60_000);
    let mut outs: Vec<u128> = (0..g.node_count())
        .filter(|&n| g.station(n) == Some(Station::Maker(wire)))
        .map(|n| g.total_out(n))
        .collect();
    outs.sort();
    assert_eq!(outs, vec![15_000, 45_000]);
    assert_eq!(g.verify_spec(0), Ok(()));
}

#[test]
fn output_equal_to_capacity_is_not_split() {
    let mut g = recipes_to_make(iron_catalog(), &[(Item::IronRod, 15)]).unwrap();
    let before = all_flows(&g);
    assert_eq!(g.legalize(), Ok(()));
    assert_eq!(g.node_count(), 4);
    assert_eq!(all_flows(&g), before);
    let mut g = recipes_to_make(iron_catalog(), &[(Item::IronRod, 16)]).unwrap();
    assert_eq!(g.legalize(), Ok(()));
    assert_eq!(count_makers(&g, 2), 2);
}

#[test]
fn legalize_twice_changes_nothing_more() {
    let desired = [(Item::IronRod, 60_000), (Item::IronPlate, 60_000), (Item::Wire, 90_000), (Item::Cable, 45_000)];
    let mut g = recipes_to_make(standard_catalog(), &desired).unwrap();
    assert_eq!(g.legalize(), Ok(()));
    let nodes = g.node_count();
    let flows = all_flows(&g);
    assert_eq!(g.legalize(), Ok(()));
    assert_eq!(g.node_count(), nodes);
    assert_eq!(all_flows(&g), flows);
}

#[test]
fn legalize_keeps_every_total() {
    let desired = [(Item::IronRod, 60_000), (Item::IronPlate, 60_000), (Item::Wire, 90_000), (Item::Cable, 45_000)];
    let mut g = recipes_to_make(standard_catalog(), &desired).unwrap();
    let recipes = g.catalog().len();
    let before: Vec<u128> = (0..recipes).map(|r| total_out_of_recipe(&g, r)).collect();
    assert_eq!(g.legalize(), Ok(()));
    let after: Vec<u128> = (0..recipes).map(|r| total_out_of_recipe(&g, r)).collect();
    assert_eq!(before, after);
    for n in 0..g.node_count() {
        if let Some(Station::Maker(r)) = g.station(n) {
            assert!(g.total_out(n) <= g.catalog().recipe(r).output_rate as u128);
        }
    }
    assert_eq!(g.verify_spec(0), Ok(()));
}

#[test]
fn legalize_is_repeatable() {
    let desired = [(Item::Motor, 7_000), (Item::ReinforcedIronPlate, 9_000)];
    let mut a = recipes_to_make(standard_catalog(), &desired).unwrap();
    let mut b = recipes_to_make(standard_catalog(), &desired).unwrap();
    assert_eq!(a.legalize(), Ok(()));
    assert_eq!(b.legalize(), Ok(()));
    assert_eq!(a.node_count(), b.node_count());
    assert_eq!(all_flows(&a), all_flows(&b));
    for n in 0..a.node_count() {
        assert_eq!(a.station(n), b.station(n));
    }
}

#[test]
fn legalize_reports_a_foreign_input() {
    let mut g = ProductionGraph::new(iron_catalog());
    let sink = g.add_station(Station::Sink).unwrap();
    let rods = g.add_station(Station::Maker(2)).unwrap();
    let miner = g.add_station(Station::Maker(0)).unwrap();
    g.add_flow(rods, sink, Item::IronRod, 40).unwrap();
    g.add_flow(miner, rods, Item::IronOre, 40).unwrap();
    assert_eq!(g.legalize(), Err(PlanError::ForeignInput));
    assert_eq!(g.verify_spec(0), Err(Violation { node: rods, fault: Fault::UnknownInput }));
}

// The same catalog and the same desired outputs give the same plan, and
// the plan is the one that expansion and legalization give one after
// the other.
#[test]
fn plan_for_gives_the_same_plan_every_time() {
    let desired = [(Item::Cable, 45_000), (Item::Wire, 90_000), (Item::IronRod, 60_000)];
    let a = plan_for(standard_catalog(), &desired).unwrap();
    let b = plan_for(standard_catalog(), &desired).unwrap();
    let mut c = recipes_to_make(standard_catalog(), &desired).unwrap();
    assert_eq!(c.legalize(), Ok(()));
    assert!(a.is_legal());
    assert_eq!(a.node_count(), b.node_count());
    assert_eq!(a.node_count(), c.node_count());
    for n in 0..a.node_count() {
        assert_eq!(a.station(n), b.station(n));
        assert_eq!(a.station(n), c.station(n));
    }
    assert_eq!(all_flows(&a), all_flows(&b));
    assert_eq!(all_flows(&a), all_flows(&c));
    assert_eq!(a.verify_spec(0), Ok(()));
}

#[test]
fn plan_for_hands_on_what_expansion_refuses() {
    let looped =
        Catalog::new(vec![recipe(Machine::Constructor, vec![(Item::Wire, 1)], Item::Wire, 2)]).unwrap();
    assert_eq!(plan_for(looped, &[(Item::Wire, 1)]).err(), Some(PlanError::Cycle));
    let g = plan_for(iron_catalog(), &[]).unwrap();
    assert_eq!(g.node_count(), 0);
}

// The search walks the feeders of a node latest flow first.
#[test]
fn search_walks_the_latest_flow_first() {
    let g = recipes_to_make(
        standard_catalog(),
        &[(Item::IronRod, 1_000), (Item::IronPlate, 1_000), (Item::Wire, 1_000), (Item::Cable, 1_000)],
    )
    .unwrap();
    let order = g.sink_traversal();
    assert_eq!(g.station(order[0]), Some(Station::Sink));
    let first_four: Vec<_> = order[1..5]
        .iter()
        .map(|&n| match g.station(n) {
            Some(Station::Maker(r)) => g.catalog().recipe(r).output,
            _ => Item::Any,
        })
        .collect();
    assert_eq!(first_four, vec![Item::Cable, Item::Wire, Item::IronPlate, Item::IronRod]);
    assert!(g.suits(&order));
}
