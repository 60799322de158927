//! Goods, machines, recipes and the catalog that lists them.
use vstd::prelude::*;

verus! {

/// A flow of goods per time window, in whole rate units.
///
/// The unit is the catalog author's choice; the built-in catalog counts
/// thousandths of an item per minute.
pub type Rate = u64;

/// Rate units per item per minute in the built-in catalog.
pub const UNITS_PER_ITEM: Rate = 1000;

/// A good that recipes consume and produce.
#[derive(Clone, Copy, Debug, PartialEq, Eq, Hash, Structural)]
pub enum Item {
    AILimiter,
    AlienCarapace,
    Any,
    Biofuel,
    Biomass,
    Cable,
    CateriumIngot,
    CateriumOre,
    CircuitBoard,
    Coal,
    ColorCartridge,
    Computer,
    Concrete,
    CopperIngot,
    CopperOre,
    CrudeOil,
    EncasedIndustrialBeam,
    Fabric,
    Filter,
    FlowerPetals,
    Fuel,
    GreenPowerSlug,
    HeavyModularFrame,
    HighSpeedConnector,
    IronIngot,
    IronOre,
    IronPlate,
    IronRod,
    Leaves,
    Limestone,
    ModularFrame,
    Motor,
    Mycelia,
    Plastic,
    PowerShard,
    PurplePowerSlug,
    Quickwire,
    ReinforcedIronPlate,
    Rotor,
    Rubber,
    Screw,
    SpikedRebar,
    Stator,
    SteelBeam,
    SteelIngot,
    SteelPipe,
    Supercomputer,
    Wire,
    Wood,
    YellowPowerSlug,
}

/// A kind of machine. It names the machine only; rates belong to recipes.
#[derive(Clone, Copy, Debug, PartialEq, Eq, Hash, Structural)]
pub enum Machine {
    Assembler,
    CateriumMinerMk1,
    CateriumMinerMk2,
    Constructor,
    CopperMinerMk1,
    CopperMinerMk2,
    Foundry,
    IronMinerMk1,
    IronMinerMk2,
    Manufacturer,
    OilPump,
    OilRefinery,
    Smelter,
    Storage,
}

/// A rule that turns fixed input rates into one output rate on one machine.
#[derive(Debug)]
pub struct Recipe {
    /// What one machine consumes at full speed, in listed order.
    pub inputs: Vec<(Item, Rate)>,
    pub machine: Machine,
    pub output: Item,
    /// What one machine produces at full speed.
    pub output_rate: Rate,
}

/// What a node of a production graph stands for.
#[derive(Clone, Copy, Debug, PartialEq, Eq, Hash, Structural)]
pub enum Station {
    /// The terminal store that swallows all final demand. It has no capacity limit.
    Sink,
    /// One machine running the catalog's recipe with this index.
    Maker(usize),
}

/// The index of the first recipe at or after `from` that produces `item`.
pub open spec fn producer_from(recipes: Seq<Recipe>, item: Item, from: int) -> Option<int>
    decreases recipes.len() - from,
{
    if from < 0 || from >= recipes.len() {
        None
    } else if recipes[from].output == item {
        Some(from)
    } else {
        producer_from(recipes, item, from + 1)
    }
}

/// The recipe that makes `item`: the first one listed with that output.
pub open spec fn producer(recipes: Seq<Recipe>, item: Item) -> Option<int> {
    producer_from(recipes, item, 0)
}

/// The rate at which a recipe with these inputs consumes `item` at full
/// speed, going by the entries at index `from` and above: that of the
/// first entry naming it.
pub open spec fn need_from(inputs: Seq<(Item, Rate)>, item: Item, from: int) -> Option<Rate>
    decreases inputs.len() - from,
{
    if from < 0 || from >= inputs.len() {
        None
    } else if inputs[from].0 == item {
        Some(inputs[from].1)
    } else {
        need_from(inputs, item, from + 1)
    }
}

/// The rate at which a recipe with these inputs consumes `item` at full
/// speed: that of the first input entry naming it.
pub open spec fn need(inputs: Seq<(Item, Rate)>, item: Item) -> Option<Rate> {
    need_from(inputs, item, 0)
}

/// Every input of every recipe is a raw good or made by a recipe listed
/// earlier. A catalog listed in this order has no cycle.
pub open spec fn in_order(recipes: Seq<Recipe>) -> bool {
    forall|r: int, k: int|
        0 <= r < recipes.len() && 0 <= k < recipes[r].inputs@.len() ==> match producer(
            recipes,
            (#[trigger] recipes[r].inputs@[k]).0,
        ) {
            Some(p) => p < r,
            None => true,
        }
}

/// Every recipe produces at a positive rate.
pub open spec fn rates_positive(recipes: Seq<Recipe>) -> bool {
    forall|i: int| 0 <= i < recipes.len() ==> (#[trigger] recipes[i]).output_rate > 0
}

impl Recipe {
    /// The full-speed rate at which this recipe consumes `item`, if it does.
    pub fn input_rate(&self, item: Item) -> (r: Option<Rate>)
        ensures
            r == need(self.inputs@, item),
    {
        let mut i: usize = 0;
        while i < self.inputs.len()
            invariant
                i <= self.inputs.len(),
                need(self.inputs@, item) == need_from(self.inputs@, item, i as int),
            decreases self.inputs.len() - i,
        {
            if self.inputs[i].0 == item {
                return Some(self.inputs[i].1);
            }
            i += 1;
        }
        None
    }
}

/// An ordered list of recipes, each with a positive output rate.
///
/// The order matters: where several recipes make the same item, the first
/// one listed is the one that plans use.
pub struct Catalog {
    recipes: Vec<Recipe>,
}

impl Catalog {
    /// The recipes in listed order.
    pub closed spec fn view(&self) -> Seq<Recipe> {
        self.recipes@
    }

    /// The catalog's invariant.
    pub open spec fn wf(&self) -> bool {
        rates_positive(self@)
    }

    /// Builds a catalog, refusing a list in which some recipe produces nothing.
    pub fn new(recipes: Vec<Recipe>) -> (r: Option<Catalog>)
        ensures
            r is Some <==> rates_positive(recipes@),
            r matches Some(c) ==> c@ == recipes@ && c.wf(),
    {
        let mut i: usize = 0;
        while i < recipes.len()
            invariant
                i <= recipes.len(),
                forall|j: int| 0 <= j < i ==> (#[trigger] recipes@[j]).output_rate > 0,
            decreases recipes.len() - i,
        {
            if recipes[i].output_rate == 0 {
                return None;
            }
            i += 1;
        }
        Some(Catalog { recipes })
    }

    /// The number of recipes.
    pub fn len(&self) -> (n: usize)
        ensures
            n == self@.len(),
    {
        self.recipes.len()
    }

    /// The recipe with index `i`.
    pub fn recipe(&self, i: usize) -> (r: &Recipe)
        requires
            i < self@.len(),
        ensures
            *r == self@[i as int],
    {
        &self.recipes[i]
    }

    /// The recipe with index `i`, or nothing where the catalog is shorter.
    pub fn get(&self, i: usize) -> (r: Option<&Recipe>)
        ensures
            r is Some <==> i < self@.len(),
            r matches Some(x) ==> *x == self@[i as int],
    {
        if i < self.recipes.len() {
            Some(&self.recipes[i])
        } else {
            None
        }
    }

    /// Whether every input of every recipe is a raw good or made by a
    /// recipe listed earlier.
    pub fn listed_in_order(&self) -> (r: bool)
        ensures
            r == in_order(self@),
    {
        let mut at: usize = 0;
        while at < self.recipes.len()
            invariant
                at <= self.recipes.len(),
                forall|r: int, k: int|
                    0 <= r < at && 0 <= k < self@[r].inputs@.len() ==> match producer(
                        self@,
                        (#[trigger] self@[r].inputs@[k]).0,
                    ) {
                        Some(p) => p < r,
                        None => true,
                    },
            decreases self.recipes.len() - at,
        {
            let mut k: usize = 0;
            while k < self.recipes[at].inputs.len()
                invariant
                    at < self.recipes.len(),
                    k <= self@[at as int].inputs@.len(),
                    forall|j: int|
                        0 <= j < k ==> match producer(self@, (#[trigger] self@[at as int].inputs@[j]).0) {
                            Some(p) => p < at,
                            None => true,
                        },
                decreases self.recipes[at as int].inputs@.len() - k,
            {
                match self.producer(self.recipes[at].inputs[k].0) {
                    Some(p) => {
                        if p >= at {
                            assert(!in_order(self@)) by {
                                let input = self@[at as int].inputs@[k as int];
                            }
                            return false;
                        }
                    },
                    None => {},
                }
                k += 1;
            }
            at += 1;
        }
        true
    }

    /// The index of the recipe that makes `item`: the first match in listed order.
    pub fn producer(&self, item: Item) -> (r: Option<usize>)
        ensures
            r is Some <==> producer(self@, item) is Some,
            r matches Some(i) ==> producer(self@, item) == Some(i as int) && i < self@.len()
                && self@[i as int].output == item && forall|j: int|
                0 <= j < i ==> (#[trigger] self@[j]).output != item,
            r is None ==> forall|j: int| 0 <= j < self@.len() ==> (#[trigger] self@[j]).output != item,
    {
        let mut i: usize = 0;
        while i < self.recipes.len()
            invariant
                i <= self.recipes.len(),
                producer(self@, item) == producer_from(self@, item, i as int),
            decreases self.recipes.len() - i,
        {
            if self.recipes[i].output == item {
                proof {
                    lemma_producer_from(self@, item, 0);
                }
                return Some(i);
            }
            i += 1;
        }
        proof {
            lemma_producer_from(self@, item, 0);
        }
        None
    }
}

/// A producer, where there is one, is a valid index of a recipe with that
/// output, and no earlier recipe has it.
pub proof fn lemma_producer_from(recipes: Seq<Recipe>, item: Item, from: int)
    requires
        0 <= from,
    ensures
        match producer_from(recipes, item, from) {
            Some(i) => from <= i < recipes.len() && recipes[i].output == item && forall|j: int|
                from <= j < i ==> (#[trigger] recipes[j]).output != item,
            None => forall|j: int| from <= j < recipes.len() ==> (#[trigger] recipes[j]).output != item,
        },
    decreases recipes.len() - from,
{
    if from < recipes.len() && recipes[from].output != item {
        lemma_producer_from(recipes, item, from + 1);
    }
}

} // verus!
