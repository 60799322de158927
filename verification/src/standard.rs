//! The built-in catalog.
use vstd::prelude::*;
use crate::catalog::Catalog;
use crate::catalog::Item;
use crate::catalog::Machine;
use crate::catalog::Rate;
use crate::catalog::Recipe;
use crate::catalog::in_order;
use crate::catalog::lemma_producer_from;
use crate::catalog::producer;
use crate::catalog::producer_from;
use crate::catalog::rates_positive;
use crate::laws::inspection::distinct_items;
use crate::laws::order::inputs_distinct;

verus! {

/// Every recipe consumes each of its inputs at a positive rate.
pub open spec fn inputs_positive(recipes: Seq<Recipe>) -> bool {
    forall|r: int, k: int|
        0 <= r < recipes.len() && 0 <= k < recipes[r].inputs@.len() ==> (#[trigger] recipes[r].inputs@[k]).1
            > 0
}

/// No recipe runs on the store, and none makes or consumes the wildcard
/// item: the sink is a station of its own, not a recipe.
pub open spec fn plain(recipes: Seq<Recipe>) -> bool {
    &&& forall|r: int|
        0 <= r < recipes.len() ==> (#[trigger] recipes[r]).machine != Machine::Storage && recipes[r].output
            != Item::Any
    &&& forall|r: int, k: int|
        0 <= r < recipes.len() && 0 <= k < recipes[r].inputs@.len() ==> (#[trigger] recipes[r].inputs@[k]).0
            != Item::Any
}

/// `item` is among the inputs.
pub open spec fn listed(inputs: Seq<(Item, Rate)>, item: Item) -> bool {
    exists|k: int| 0 <= k < inputs.len() && (#[trigger] inputs[k]).0 == item
}

/// Some recipe consumes `item`.
#[verifier::opaque]
pub open spec fn uses(recipes: Seq<Recipe>, item: Item) -> bool {
    exists|r: int| 0 <= r < recipes.len() && listed((#[trigger] recipes[r]).inputs@, item)
}

/// The recipe with index `at` runs on `machine` and turns `inputs` into
/// `output_rate` of `output`.
pub open spec fn holds(
    recipes: Seq<Recipe>,
    at: int,
    machine: Machine,
    inputs: Seq<(Item, Rate)>,
    output: Item,
    output_rate: Rate,
) -> bool {
    &&& 0 <= at < recipes.len()
    &&& recipes[at].machine == machine
    &&& recipes[at].inputs@ =~= inputs
    &&& recipes[at].output == output
    &&& recipes[at].output_rate == output_rate
}

/// What holds of a table while it is built: rates are positive, no
/// recipe lists an input twice, none is the store's, and every input is a
/// raw good or made by a recipe listed earlier.
pub open spec fn sound(recipes: Seq<Recipe>) -> bool {
    &&& rates_positive(recipes)
    &&& inputs_positive(recipes)
    &&& inputs_distinct(recipes)
    &&& plain(recipes)
    &&& in_order(recipes)
}

/// The table is sound. The definition is kept out of sight while the
/// table is built.
#[verifier::opaque]
pub open spec fn built(recipes: Seq<Recipe>) -> bool {
    sound(recipes)
}

/// The maker of an item in a list with one recipe more: the one it had,
/// or else the new recipe where that makes the item.
pub proof fn lemma_producer_push(recipes: Seq<Recipe>, new: Recipe, item: Item, from: int)
    requires
        0 <= from <= recipes.len(),
    ensures
        producer_from(recipes.push(new), item, from) == if producer_from(recipes, item, from) is Some {
            producer_from(recipes, item, from)
        } else if new.output == item {
            Some(recipes.len() as int)
        } else {
            None
        },
    decreases recipes.len() - from,
{
    let longer = recipes.push(new);
    if from < recipes.len() {
        assert(longer[from] == recipes[from]);
        if recipes[from].output != item {
            lemma_producer_push(recipes, new, item, from + 1);
        }
    } else {
        assert(longer[from] == new);
        assert(producer_from(longer, item, from + 1) is None);
    }
}

/// Appends a recipe to the table.
fn list(table: &mut Vec<Recipe>, machine: Machine, inputs: Vec<(Item, Rate)>, output: Item, output_rate: Rate)
    requires
        built(old(table)@),
        output_rate > 0,
        machine != Machine::Storage,
        output != Item::Any,
        forall|k: int|
            0 <= k < inputs@.len() ==> (#[trigger] inputs@[k]).1 > 0 && inputs@[k].0 != Item::Any
                && inputs@[k].0 != output,
        distinct_items(inputs@),
        producer(old(table)@, output) is Some || !uses(old(table)@, output),
    ensures
        built(final(table)@),
        final(table)@.len() == old(table)@.len() + 1,
        forall|i: int| 0 <= i < old(table)@.len() ==> final(table)@[i] == old(table)@[i],
        holds(final(table)@, old(table)@.len() as int, machine, inputs@, output, output_rate),
        forall|item: Item|
            #[trigger] producer(final(table)@, item) == if producer(old(table)@, item) is Some {
                producer(old(table)@, item)
            } else if item == output {
                Some(old(table)@.len() as int)
            } else {
                None
            },
        forall|item: Item|
            #[trigger] uses(final(table)@, item) == (uses(old(table)@, item) || listed(inputs@, item)),
{
    let ghost before = table@;
    let ghost taken = inputs@;
    table.push(Recipe { inputs, machine, output, output_rate });
    proof {
        reveal(built);
        reveal(uses);
        let after = table@;
        let at = before.len() as int;
        assert(after == before.push(after[at]));
        assert forall|item: Item|
            #[trigger] producer(after, item) == if producer(before, item) is Some {
                producer(before, item)
            } else if item == output {
                Some(at)
            } else {
                None
            } by {
            lemma_producer_push(before, after[at], item, 0);
        }
        assert forall|item: Item| #[trigger] uses(after, item) == (uses(before, item) || listed(
            taken,
            item,
        )) by {
            if uses(before, item) {
                let r = choose|r: int| 0 <= r < before.len() && listed((#[trigger] before[r]).inputs@, item);
                assert(after[r] == before[r]);
            }
            if listed(taken, item) {
                assert(listed(after[at].inputs@, item));
            }
            if uses(after, item) {
                let r = choose|r: int| 0 <= r < after.len() && listed((#[trigger] after[r]).inputs@, item);
                if r < at {
                    assert(after[r] == before[r]);
                }
            }
        }
        assert(in_order(after)) by {
            assert forall|r: int, k: int|
                0 <= r < after.len() && 0 <= k < after[r].inputs@.len() implies match producer(
                after,
                (#[trigger] after[r].inputs@[k]).0,
            ) {
                Some(p) => p < r,
                None => true,
            } by {
                let item = after[r].inputs@[k].0;
                lemma_producer_from(before, item, 0);
                if r < at {
                    assert(after[r] == before[r]);
                    let _ = before[r].inputs@[k];
                    if producer(before, item) is None {
                        assert(listed(before[r].inputs@, item));
                        assert(uses(before, item));
                    }
                }
            }
        }
        assert(rates_positive(after)) by {
            assert forall|i: int| 0 <= i < after.len() implies (#[trigger] after[i]).output_rate > 0 by {
                if i < at {
                    assert(after[i] == before[i]);
                }
            }
        }
        assert(inputs_positive(after)) by {
            assert forall|r: int, k: int|
                0 <= r < after.len() && 0 <= k < after[r].inputs@.len() implies (#[trigger] after[r].inputs@[k]).1
                > 0 by {
                if r < at {
                    assert(after[r] == before[r]);
                    let _ = before[r].inputs@[k];
                }
            }
        }
        assert(inputs_distinct(after)) by {
            assert forall|r: int| 0 <= r < after.len() implies distinct_items(
                (#[trigger] after[r]).inputs@,
            ) by {
                if r < at {
                    assert(after[r] == before[r]);
                }
            }
        }
        assert(plain(after)) by {
            assert forall|r: int| 0 <= r < after.len() implies (#[trigger] after[r]).machine
                != Machine::Storage && after[r].output != Item::Any by {
                if r < at {
                    assert(after[r] == before[r]);
                }
            }
            assert forall|r: int, k: int|
                0 <= r < after.len() && 0 <= k < after[r].inputs@.len() implies (#[trigger] after[r].inputs@[k]).0
                != Item::Any by {
                if r < at {
                    assert(after[r] == before[r]);
                    let _ = before[r].inputs@[k];
                }
            }
        }
    }
}

/// The built-in table, entry by entry.
pub open spec fn entries(recipes: Seq<Recipe>) -> bool {
    &&& recipes.len() == 38
    &&& holds(recipes, 0, Machine::IronMinerMk1, Seq::empty(), Item::IronOre, 60_000)
    &&& holds(recipes, 1, Machine::CopperMinerMk1, Seq::empty(), Item::CopperOre, 60_000)
    &&& holds(recipes, 2, Machine::CateriumMinerMk1, Seq::empty(), Item::CateriumOre, 60_000)
    &&& holds(recipes, 3, Machine::IronMinerMk2, Seq::empty(), Item::IronOre, 120_000)
    &&& holds(recipes, 4, Machine::CopperMinerMk2, Seq::empty(), Item::CopperOre, 120_000)
    &&& holds(recipes, 5, Machine::CateriumMinerMk2, Seq::empty(), Item::CateriumOre, 120_000)
    &&& holds(recipes, 6, Machine::Smelter, seq![(Item::IronOre, 30_000u64)], Item::IronIngot, 30_000)
    &&& holds(recipes, 7, Machine::Smelter, seq![(Item::CopperOre, 30_000u64)], Item::CopperIngot, 30_000)
    &&& holds(recipes, 8, Machine::Smelter, seq![(Item::CateriumOre, 60_000u64)], Item::CateriumIngot, 15_000)
    &&& holds(recipes, 9, Machine::Foundry, seq![(Item::Coal, 45_000u64), (Item::IronOre, 45_000u64)], Item::SteelIngot, 30_000)
    &&& holds(recipes, 10, Machine::Constructor, seq![(Item::IronIngot, 30_000u64)], Item::IronPlate, 15_000)
    &&& holds(recipes, 11, Machine::Constructor, seq![(Item::IronIngot, 15_000u64)], Item::IronRod, 15_000)
    &&& holds(recipes, 12, Machine::Constructor, seq![(Item::CopperIngot, 15_000u64)], Item::Wire, 45_000)
    &&& holds(recipes, 13, Machine::Constructor, seq![(Item::Wire, 30_000u64)], Item::Cable, 15_000)
    &&& holds(recipes, 14, Machine::Constructor, seq![(Item::Leaves, 150_000u64)], Item::Biomass, 90_000)
    &&& holds(recipes, 15, Machine::Constructor, seq![(Item::Limestone, 45_000u64)], Item::Concrete, 15_000)
    &&& holds(recipes, 16, Machine::Constructor, seq![(Item::IronRod, 15_000u64)], Item::Screw, 90_000)
    &&& holds(recipes, 17, Machine::Constructor, seq![(Item::Wood, 75_000u64)], Item::Biomass, 375_000)
    &&& holds(recipes, 18, Machine::Constructor, seq![(Item::GreenPowerSlug, 6_000u64)], Item::PowerShard, 6_000)
    &&& holds(recipes, 19, Machine::Constructor, seq![(Item::Biomass, 60_000u64)], Item::Biofuel, 30_000)
    &&& holds(recipes, 20, Machine::Constructor, seq![(Item::SteelIngot, 30_000u64)], Item::SteelBeam, 10_000)
    &&& holds(recipes, 21, Machine::Constructor, seq![(Item::SteelIngot, 15_000u64)], Item::SteelPipe, 15_000)
    &&& holds(recipes, 22, Machine::Constructor, seq![(Item::Mycelia, 150_000u64)], Item::Biomass, 150_000)
    &&& holds(recipes, 23, Machine::Constructor, seq![(Item::FlowerPetals, 37_500u64)], Item::ColorCartridge, 75_000)
    &&& holds(recipes, 24, Machine::Constructor, seq![(Item::IronRod, 15_000u64)], Item::SpikedRebar, 15_000)
    &&& holds(recipes, 25, Machine::Constructor, seq![(Item::AlienCarapace, 15_000u64)], Item::Biomass, 1_500_000)
    &&& holds(recipes, 26, Machine::Constructor, seq![(Item::YellowPowerSlug, 4_000u64)], Item::PowerShard, 8_000)
    &&& holds(recipes, 27, Machine::Constructor, seq![(Item::CateriumIngot, 15_000u64)], Item::Quickwire, 60_000)
    &&& holds(recipes, 28, Machine::Constructor, seq![(Item::PurplePowerSlug, 3_000u64)], Item::PowerShard, 15_000)
    &&& holds(recipes, 29, Machine::Assembler, seq![(Item::IronPlate, 20_000u64), (Item::Screw, 120_000u64)], Item::ReinforcedIronPlate, 5_000)
    &&& holds(recipes, 30, Machine::Assembler, seq![(Item::IronRod, 18_000u64), (Item::Screw, 132_000u64)], Item::Rotor, 6_000)
    &&& holds(recipes, 31, Machine::Assembler, seq![(Item::ReinforcedIronPlate, 12_000u64), (Item::IronRod, 24_000u64)], Item::ModularFrame, 4_000)
    &&& holds(recipes, 32, Machine::Assembler, seq![(Item::SteelBeam, 16_000u64), (Item::Concrete, 20_000u64)], Item::EncasedIndustrialBeam, 4_000)
    &&& holds(recipes, 33, Machine::Assembler, seq![(Item::SteelPipe, 18_000u64), (Item::Wire, 60_000u64)], Item::Stator, 6_000)
    &&& holds(recipes, 34, Machine::Assembler, seq![(Item::Rotor, 10_000u64), (Item::Stator, 10_000u64)], Item::Motor, 5_000)
    &&& holds(recipes, 35, Machine::Assembler, seq![(Item::Mycelia, 15_000u64), (Item::Leaves, 30_000u64)], Item::Fabric, 15_000)
    &&& holds(recipes, 36, Machine::Assembler, seq![(Item::Wire, 60_000u64), (Item::Plastic, 30_000u64)], Item::CircuitBoard, 5_000)
    &&& holds(recipes, 37, Machine::Assembler, seq![(Item::CircuitBoard, 5_000u64), (Item::Quickwire, 90_000u64)], Item::AILimiter, 5_000)
}

/// What the built-in table holds: its entries; that rates are positive,
/// that no recipe lists an input twice or is the store's, and that every
/// input is a raw good or made by a recipe listed earlier; and, of the goods that plans for iron
/// rods, plates, wire and cable rest on, which recipe is the first to
/// make each, and that coal is a raw good.
pub open spec fn standard(recipes: Seq<Recipe>) -> bool {
    &&& entries(recipes)
    &&& sound(recipes)
    &&& producer(recipes, Item::IronOre) == Some(0int)
    &&& producer(recipes, Item::CopperOre) == Some(1int)
    &&& producer(recipes, Item::IronIngot) == Some(6int)
    &&& producer(recipes, Item::CopperIngot) == Some(7int)
    &&& producer(recipes, Item::IronPlate) == Some(10int)
    &&& producer(recipes, Item::IronRod) == Some(11int)
    &&& producer(recipes, Item::Wire) == Some(12int)
    &&& producer(recipes, Item::Cable) == Some(13int)
    &&& producer(recipes, Item::Coal) is None
}

/// The recipes of the built-in catalog, in thousandths of an item per
/// minute. Where two recipes make the same item, the earlier one is used.
/// Every recipe is listed after the makers of its inputs. The sink is no
/// recipe: it is a station of its own.
#[verifier::rlimit(100)]
pub fn recipes() -> (table: Vec<Recipe>)
    ensures
        standard(table@),
{
    let mut t: Vec<Recipe> = Vec::new();
    proof {
        assert(built(t@)) by {
            reveal(built);
        }
        assert(forall|item: Item| !(#[trigger] uses(t@, item))) by {
            reveal(uses);
        }
    }
    list(&mut t, Machine::IronMinerMk1, vec![], Item::IronOre, 60_000);
    list(&mut t, Machine::CopperMinerMk1, vec![], Item::CopperOre, 60_000);
    list(&mut t, Machine::CateriumMinerMk1, vec![], Item::CateriumOre, 60_000);
    list(&mut t, Machine::IronMinerMk2, vec![], Item::IronOre, 120_000);
    list(&mut t, Machine::CopperMinerMk2, vec![], Item::CopperOre, 120_000);
    list(&mut t, Machine::CateriumMinerMk2, vec![], Item::CateriumOre, 120_000);
    list(&mut t, Machine::Smelter, vec![(Item::IronOre, 30_000)], Item::IronIngot, 30_000);
    list(&mut t, Machine::Smelter, vec![(Item::CopperOre, 30_000)], Item::CopperIngot, 30_000);
    list(&mut t, Machine::Smelter, vec![(Item::CateriumOre, 60_000)], Item::CateriumIngot, 15_000);
    list(
        &mut t,
        Machine::Foundry,
        vec![(Item::Coal, 45_000), (Item::IronOre, 45_000)],
        Item::SteelIngot,
        30_000,
    );
    list(&mut t, Machine::Constructor, vec![(Item::IronIngot, 30_000)], Item::IronPlate, 15_000);
    list(&mut t, Machine::Constructor, vec![(Item::IronIngot, 15_000)], Item::IronRod, 15_000);
    list(&mut t, Machine::Constructor, vec![(Item::CopperIngot, 15_000)], Item::Wire, 45_000);
    list(&mut t, Machine::Constructor, vec![(Item::Wire, 30_000)], Item::Cable, 15_000);
    list(&mut t, Machine::Constructor, vec![(Item::Leaves, 150_000)], Item::Biomass, 90_000);
    list(&mut t, Machine::Constructor, vec![(Item::Limestone, 45_000)], Item::Concrete, 15_000);
    list(&mut t, Machine::Constructor, vec![(Item::IronRod, 15_000)], Item::Screw, 90_000);
    list(&mut t, Machine::Constructor, vec![(Item::Wood, 75_000)], Item::Biomass, 375_000);
    list(&mut t, Machine::Constructor, vec![(Item::GreenPowerSlug, 6_000)], Item::PowerShard, 6_000);
    list(&mut t, Machine::Constructor, vec![(Item::Biomass, 60_000)], Item::Biofuel, 30_000);
    list(&mut t, Machine::Constructor, vec![(Item::SteelIngot, 30_000)], Item::SteelBeam, 10_000);
    list(&mut t, Machine::Constructor, vec![(Item::SteelIngot, 15_000)], Item::SteelPipe, 15_000);
    list(&mut t, Machine::Constructor, vec![(Item::Mycelia, 150_000)], Item::Biomass, 150_000);
    list(
        &mut t,
        Machine::Constructor,
        vec![(Item::FlowerPetals, 37_500)],
        Item::ColorCartridge,
        75_000,
    );
    list(&mut t, Machine::Constructor, vec![(Item::IronRod, 15_000)], Item::SpikedRebar, 15_000);
    list(&mut t, Machine::Constructor, vec![(Item::AlienCarapace, 15_000)], Item::Biomass, 1_500_000);
    list(&mut t, Machine::Constructor, vec![(Item::YellowPowerSlug, 4_000)], Item::PowerShard, 8_000);
    list(&mut t, Machine::Constructor, vec![(Item::CateriumIngot, 15_000)], Item::Quickwire, 60_000);
    list(&mut t, Machine::Constructor, vec![(Item::PurplePowerSlug, 3_000)], Item::PowerShard, 15_000);
    list(
        &mut t,
        Machine::Assembler,
        vec![(Item::IronPlate, 20_000), (Item::Screw, 120_000)],
        Item::ReinforcedIronPlate,
        5_000,
    );
    list(
        &mut t,
        Machine::Assembler,
        vec![(Item::IronRod, 18_000), (Item::Screw, 132_000)],
        Item::Rotor,
        6_000,
    );
    list(
        &mut t,
        Machine::Assembler,
        vec![(Item::ReinforcedIronPlate, 12_000), (Item::IronRod, 24_000)],
        Item::ModularFrame,
        4_000,
    );
    list(
        &mut t,
        Machine::Assembler,
        vec![(Item::SteelBeam, 16_000), (Item::Concrete, 20_000)],
        Item::EncasedIndustrialBeam,
        4_000,
    );
    list(
        &mut t,
        Machine::Assembler,
        vec![(Item::SteelPipe, 18_000), (Item::Wire, 60_000)],
        Item::Stator,
        6_000,
    );
    list(
        &mut t,
        Machine::Assembler,
        vec![(Item::Rotor, 10_000), (Item::Stator, 10_000)],
        Item::Motor,
        5_000,
    );
    list(
        &mut t,
        Machine::Assembler,
        vec![(Item::Mycelia, 15_000), (Item::Leaves, 30_000)],
        Item::Fabric,
        15_000,
    );
    list(
        &mut t,
        Machine::Assembler,
        vec![(Item::Wire, 60_000), (Item::Plastic, 30_000)],
        Item::CircuitBoard,
        5_000,
    );
    list(
        &mut t,
        Machine::Assembler,
        vec![(Item::CircuitBoard, 5_000), (Item::Quickwire, 90_000)],
        Item::AILimiter,
        5_000,
    );
    proof {
        assert(sound(t@)) by {
            reveal(built);
        }
    }
    t
}

/// The built-in catalog.
pub fn standard_catalog() -> (c: Catalog)
    ensures
        c.wf(),
        standard(c@),
{
    let checked = Catalog::new(recipes());
    checked.unwrap()
}

} // verus!
