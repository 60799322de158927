//! The inspection: an independent pass over a plan that says whether every
//! machine is fed evenly and asked for no more than it is fed for.
use vstd::prelude::*;
use crate::catalog::Item;
use crate::catalog::Rate;
use crate::catalog::Recipe;
use crate::catalog::Station;
use crate::flow::Flow;
use crate::flow::loose_ends;
use crate::flow::total_in;
use crate::flow::total_out;
use crate::graph::Plan;
use crate::graph::ProductionGraph;
use crate::legalize::foreign;
use crate::legalize::lemma_loose_ends_are_nodes;
use crate::store::search_order;

verus! {

/// What is wrong at a node.
#[derive(Clone, Copy, Debug, PartialEq, Eq, Structural)]
pub enum Fault {
    /// A flow into the machine carries an item that its recipe does not consume.
    UnknownInput,
    /// What enters or leaves the machine is more than rate units can count.
    RateOverflow,
    /// The machine is fed well on one input and poorly on another.
    UnevenUtilization,
    /// A flow out of the machine carries something other than its recipe's output.
    ItemMismatch,
    /// The machine puts out more than its inputs feed it for.
    CapacityExceeded,
}

/// A node that breaks a rule, and the rule it breaks.
#[derive(Clone, Copy, Debug, PartialEq, Eq, Structural)]
pub struct Violation {
    pub node: usize,
    pub fault: Fault,
}

/// Some flow carries `item` into node `n`.
pub open spec fn is_fed(flows: Seq<Flow>, n: int, item: Item) -> bool {
    exists|i: int| 0 <= i < flows.len() && (#[trigger] flows[i]).target == n && flows[i].item == item
}

/// Two inputs are out of step: at full speed the machine takes `need_a`
/// of the one and `need_b` of the other, it gets `in_a` and `in_b`, and
/// these differ from the same share of the two needs by more than `tolerance`
/// rate units.
pub open spec fn out_of_step(in_a: int, need_a: int, in_b: int, need_b: int, tolerance: int) -> bool {
    let slack = tolerance * (if need_a >= need_b {
        need_a
    } else {
        need_b
    });
    in_a * need_b - in_b * need_a > slack || in_b * need_a - in_a * need_b > slack
}

/// Some input of the list is fed more than rate units can count.
pub open spec fn overfed(flows: Seq<Flow>, n: int, inputs: Seq<(Item, Rate)>) -> bool {
    exists|k: int| 0 <= k < inputs.len() && total_in(flows, n, (#[trigger] inputs[k]).0) > u64::MAX
}

/// Two inputs that node `n` is fed are out of step.
pub open spec fn uneven(flows: Seq<Flow>, n: int, inputs: Seq<(Item, Rate)>, tolerance: Rate) -> bool {
    exists|a: int, b: int|
        0 <= a < b < inputs.len() && is_fed(flows, n, (#[trigger] inputs[a]).0) && is_fed(
            flows,
            n,
            (#[trigger] inputs[b]).0,
        ) && out_of_step(
            total_in(flows, n, inputs[a].0),
            inputs[a].1 as int,
            total_in(flows, n, inputs[b].0),
            inputs[b].1 as int,
            tolerance as int,
        )
}

/// Some flow out of node `n` carries something other than `output`.
pub open spec fn mismatched(flows: Seq<Flow>, n: int, output: Item) -> bool {
    exists|i: int| 0 <= i < flows.len() && (#[trigger] flows[i]).source == n && flows[i].item != output
}

/// None of the inputs is fed to node `n`.
pub open spec fn unfed(flows: Seq<Flow>, n: int, inputs: Seq<(Item, Rate)>) -> bool {
    forall|k: int| 0 <= k < inputs.len() ==> !is_fed(flows, n, (#[trigger] inputs[k]).0)
}

/// Node `n` puts out more than its share: more than `cap` times the
/// share of its full need that some input is fed at; or, where it is fed
/// nothing, more than `cap`.
pub open spec fn overdrawn(flows: Seq<Flow>, n: int, inputs: Seq<(Item, Rate)>, cap: Rate) -> bool {
    ||| exists|k: int|
        0 <= k < inputs.len() && is_fed(flows, n, (#[trigger] inputs[k]).0) && total_out(flows, n)
            * inputs[k].1 > total_in(flows, n, inputs[k].0) * cap
    ||| unfed(flows, n, inputs) && total_out(flows, n) > cap
}

/// What is wrong at node `n`, if anything. The sink is never wrong.
pub open spec fn fault_at(recipes: Seq<Recipe>, plan: Plan, n: int, tolerance: Rate) -> Option<Fault> {
    match plan.stations[n] {
        Station::Sink => None,
        Station::Maker(r) => {
            let recipe = recipes[r as int];
            if foreign(plan.flows, n, recipe.inputs@) {
                Some(Fault::UnknownInput)
            } else if total_out(plan.flows, n) > u64::MAX || overfed(plan.flows, n, recipe.inputs@) {
                Some(Fault::RateOverflow)
            } else if uneven(plan.flows, n, recipe.inputs@, tolerance) {
                Some(Fault::UnevenUtilization)
            } else if mismatched(plan.flows, n, recipe.output) {
                Some(Fault::ItemMismatch)
            } else if overdrawn(plan.flows, n, recipe.inputs@, recipe.output_rate) {
                Some(Fault::CapacityExceeded)
            } else {
                None
            }
        },
    }
}

/// The first violation among the nodes `order[from]`, `order[from + 1]`, ...
/// What is no node of the plan is passed over.
pub open spec fn first_violation(
    recipes: Seq<Recipe>,
    plan: Plan,
    order: Seq<usize>,
    tolerance: Rate,
    from: int,
) -> Option<Violation>
    decreases order.len() - from,
{
    if from < 0 || from >= order.len() {
        None
    } else if order[from] < plan.stations.len() && fault_at(
        recipes,
        plan,
        order[from] as int,
        tolerance,
    ) is Some {
        Some(
            Violation {
                node: order[from],
                fault: fault_at(recipes, plan, order[from] as int, tolerance).unwrap(),
            },
        )
    } else {
        first_violation(recipes, plan, order, tolerance, from + 1)
    }
}

/// The nodes that the inspection looks at, in its order: for each node that
/// no flow enters, by rising index, the nodes that it feeds, nearest first.
pub open spec fn inspection(customers: Seq<Seq<int>>, sources: Seq<usize>, from: int) -> Seq<usize>
    decreases sources.len() - from,
{
    if from < 0 || from >= sources.len() {
        Seq::empty()
    } else {
        search_order(customers, sources[from] as int) + inspection(customers, sources, from + 1)
    }
}

/// `intake` says of each input whether node `n` is fed it, and at what
/// total rate.
pub open spec fn fits(flows: Seq<Flow>, n: int, inputs: Seq<(Item, Rate)>, intake: Seq<(bool, Rate)>) -> bool {
    &&& intake.len() == inputs.len()
    &&& forall|k: int|
        0 <= k < intake.len() ==> (#[trigger] intake[k]).0 == is_fed(flows, n, inputs[k].0)
            && intake[k].1 == total_in(flows, n, inputs[k].0)
}

/// Whether two inputs are out of step.
pub fn is_out_of_step(in_a: Rate, need_a: Rate, in_b: Rate, need_b: Rate, tolerance: Rate) -> (r: bool)
    ensures
        r == out_of_step(in_a as int, need_a as int, in_b as int, need_b as int, tolerance as int),
{
    proof {
        assert(0 <= in_a * need_b <= u64::MAX * u64::MAX) by (nonlinear_arith)
            requires
                0 <= in_a <= u64::MAX,
                0 <= need_b <= u64::MAX,
        ;
        assert(0 <= in_b * need_a <= u64::MAX * u64::MAX) by (nonlinear_arith)
            requires
                0 <= in_b <= u64::MAX,
                0 <= need_a <= u64::MAX,
        ;
        assert(0 <= tolerance * need_a <= u64::MAX * u64::MAX) by (nonlinear_arith)
            requires
                0 <= tolerance <= u64::MAX,
                0 <= need_a <= u64::MAX,
        ;
        assert(0 <= tolerance * need_b <= u64::MAX * u64::MAX) by (nonlinear_arith)
            requires
                0 <= tolerance <= u64::MAX,
                0 <= need_b <= u64::MAX,
        ;
    }
    let larger: Rate = if need_a >= need_b {
        need_a
    } else {
        need_b
    };
    let slack: u128 = tolerance as u128 * larger as u128;
    let left: u128 = in_a as u128 * need_b as u128;
    let right: u128 = in_b as u128 * need_a as u128;
    if left > right {
        left - right > slack
    } else {
        right - left > slack
    }
}

impl ProductionGraph {
    /// Whether some flow carries `item` into node `n`.
    pub fn fed_with(&self, n: usize, item: Item) -> (r: bool)
        requires
            self.wf(),
        ensures
            r == is_fed(self@.flows, n as int, item),
    {
        let count = self.edge_count();
        let mut i: usize = 0;
        while i < count
            invariant
                count == self@.flows.len(),
                i <= count,
                forall|k: int|
                    0 <= k < i ==> !((#[trigger] self@.flows[k]).target == n && self@.flows[k].item
                        == item),
            decreases count - i,
        {
            let f = self.flow(i).unwrap();
            if f.target == n && f.item == item {
                return true;
            }
            i += 1;
        }
        false
    }

    /// Whether some flow out of node `n` carries something other than `output`.
    pub fn has_mismatch(&self, n: usize, output: Item) -> (r: bool)
        requires
            self.wf(),
        ensures
            r == mismatched(self@.flows, n as int, output),
    {
        let count = self.edge_count();
        let mut i: usize = 0;
        while i < count
            invariant
                count == self@.flows.len(),
                i <= count,
                forall|k: int|
                    0 <= k < i ==> !((#[trigger] self@.flows[k]).source == n && self@.flows[k].item
                        != output),
            decreases count - i,
        {
            let f = self.flow(i).unwrap();
            if f.source == n && f.item != output {
                return true;
            }
            i += 1;
        }
        false
    }

    /// For each input of recipe `r`, whether node `n` is fed it and at
    /// what total rate; nothing where some total is more than rate units
    /// can count.
    pub(crate) fn intake(&self, n: usize, r: usize) -> (res: Option<Vec<(bool, Rate)>>)
        requires
            self.wf(),
            r < self.recipes().len(),
        ensures
            res is None <==> overfed(self@.flows, n as int, self.recipes()[r as int].inputs@),
            res matches Some(v) ==> fits(self@.flows, n as int, self.recipes()[r as int].inputs@, v@),
    {
        let ghost inputs = self.recipes()[r as int].inputs@;
        let count = self.catalog().recipe(r).inputs.len();
        let mut v: Vec<(bool, Rate)> = Vec::new();
        let mut k: usize = 0;
        while k < count
            invariant
                self.wf(),
                r < self.recipes().len(),
                inputs == self.recipes()[r as int].inputs@,
                count == inputs.len(),
                k <= count,
                v@.len() == k,
                forall|j: int|
                    0 <= j < k ==> (#[trigger] v@[j]).0 == is_fed(self@.flows, n as int, inputs[j].0)
                        && v@[j].1 == total_in(self@.flows, n as int, inputs[j].0),
            decreases count - k,
        {
            let item = self.catalog().recipe(r).inputs[k].0;
            let total = self.total_in(n, item);
            if total > u64::MAX as u128 {
                return None;
            }
            let fed = self.fed_with(n, item);
            v.push((fed, total as Rate));
            k += 1;
        }
        proof {
            assert forall|j: int| 0 <= j < inputs.len() implies total_in(
                self@.flows,
                n as int,
                (#[trigger] inputs[j]).0,
            ) <= u64::MAX by {
                let _ = v@[j];
            }
        }
        Some(v)
    }

    /// Whether two inputs that node `n` is fed are out of step, given
    /// what `intake` found of each input of recipe `r`.
    pub(crate) fn is_uneven(&self, n: usize, r: usize, intake: &Vec<(bool, Rate)>, tolerance: Rate) -> (res:
        bool)
        requires
            self.wf(),
            r < self.recipes().len(),
            fits(self@.flows, n as int, self.recipes()[r as int].inputs@, intake@),
        ensures
            res == uneven(self@.flows, n as int, self.recipes()[r as int].inputs@, tolerance),
    {
        let ghost inputs = self.recipes()[r as int].inputs@;
        let ghost flows = self@.flows;
        let recipe = self.catalog().recipe(r);
        let count = recipe.inputs.len();
        let mut b: usize = 0;
        while b < count
            invariant
                recipe.inputs@ == inputs,
                inputs == self.recipes()[r as int].inputs@,
                flows == self@.flows,
                count == inputs.len(),
                b <= count,
                fits(flows, n as int, inputs, intake@),
                forall|x: int, y: int|
                    0 <= x < y < b ==> !(is_fed(flows, n as int, (#[trigger] inputs[x]).0) && is_fed(
                        flows,
                        n as int,
                        (#[trigger] inputs[y]).0,
                    ) && out_of_step(
                        total_in(flows, n as int, inputs[x].0),
                        inputs[x].1 as int,
                        total_in(flows, n as int, inputs[y].0),
                        inputs[y].1 as int,
                        tolerance as int,
                    )),
            decreases count - b,
        {
            let mut a: usize = 0;
            while a < b
                invariant
                    recipe.inputs@ == inputs,
                    inputs == self.recipes()[r as int].inputs@,
                    flows == self@.flows,
                    count == inputs.len(),
                    a <= b < count,
                    fits(flows, n as int, inputs, intake@),
                    forall|x: int|
                        0 <= x < a ==> !(is_fed(flows, n as int, (#[trigger] inputs[x]).0) && is_fed(
                            flows,
                            n as int,
                            inputs[b as int].0,
                        ) && out_of_step(
                            total_in(flows, n as int, inputs[x].0),
                            inputs[x].1 as int,
                            total_in(flows, n as int, inputs[b as int].0),
                            inputs[b as int].1 as int,
                            tolerance as int,
                        )),
                decreases b - a,
            {
                proof {
                    let _ = intake@[a as int];
                    let _ = intake@[b as int];
                }
                if intake[a].0 && intake[b].0 && is_out_of_step(
                    intake[a].1,
                    recipe.inputs[a].1,
                    intake[b].1,
                    recipe.inputs[b].1,
                    tolerance,
                ) {
                    assert(is_fed(flows, n as int, inputs[a as int].0));
                    assert(is_fed(flows, n as int, inputs[b as int].0));
                    return true;
                }
                a += 1;
            }
            b += 1;
        }
        false
    }

    /// Whether node `n` puts out more than its inputs feed it for, given
    /// what `intake` found of each input of recipe `r`.
    pub(crate) fn is_overdrawn(&self, n: usize, r: usize, intake: &Vec<(bool, Rate)>, out: Rate) -> (res:
        bool)
        requires
            self.wf(),
            r < self.recipes().len(),
            fits(self@.flows, n as int, self.recipes()[r as int].inputs@, intake@),
            out == total_out(self@.flows, n as int),
        ensures
            res == overdrawn(
                self@.flows,
                n as int,
                self.recipes()[r as int].inputs@,
                self.recipes()[r as int].output_rate,
            ),
    {
        let ghost inputs = self.recipes()[r as int].inputs@;
        let ghost flows = self@.flows;
        let recipe = self.catalog().recipe(r);
        let count = recipe.inputs.len();
        let cap = recipe.output_rate;
        let mut any_fed = false;
        let mut k: usize = 0;
        while k < count
            invariant
                recipe.inputs@ == inputs,
                inputs == self.recipes()[r as int].inputs@,
                cap == self.recipes()[r as int].output_rate,
                flows == self@.flows,
                count == inputs.len(),
                k <= count,
                out == total_out(flows, n as int),
                fits(flows, n as int, inputs, intake@),
                any_fed <==> exists|j: int| 0 <= j < k && is_fed(flows, n as int, (#[trigger] inputs[j]).0),
                forall|j: int|
                    0 <= j < k ==> !(is_fed(flows, n as int, (#[trigger] inputs[j]).0) && total_out(
                        flows,
                        n as int,
                    ) * inputs[j].1 > total_in(flows, n as int, inputs[j].0) * cap),
            decreases count - k,
        {
            proof {
                let _ = intake@[k as int];
            }
            if intake[k].0 {
                any_fed = true;
                proof {
                    assert(0 <= out * recipe.inputs@[k as int].1 <= u64::MAX * u64::MAX)
                        by (nonlinear_arith)
                        requires
                            0 <= out <= u64::MAX,
                            0 <= recipe.inputs@[k as int].1 <= u64::MAX,
                    ;
                    assert(0 <= intake@[k as int].1 * cap <= u64::MAX * u64::MAX) by (nonlinear_arith)
                        requires
                            0 <= intake@[k as int].1 <= u64::MAX,
                            0 <= cap <= u64::MAX,
                    ;
                }
                if out as u128 * recipe.inputs[k].1 as u128 > intake[k].1 as u128 * cap as u128 {
                    assert(is_fed(flows, n as int, inputs[k as int].0));
                    return true;
                }
            }
            k += 1;
        }
        if any_fed {
            let ghost j = choose|j: int| 0 <= j < count && is_fed(flows, n as int, (#[trigger] inputs[j]).0);
            assert(!unfed(flows, n as int, inputs));
            false
        } else {
            assert(unfed(flows, n as int, inputs));
            out > cap
        }
    }

    /// What is wrong at node `n`, if anything.
    pub fn check_node(&self, n: usize, tolerance: Rate) -> (res: Option<Fault>)
        requires
            self.wf(),
            n < self@.stations.len(),
        ensures
            res == fault_at(self.recipes(), self@, n as int, tolerance),
    {
        let r = match self.station(n) {
            None => {
                return None;
            },
            Some(Station::Sink) => {
                return None;
            },
            Some(Station::Maker(r)) => r,
        };
        if self.has_foreign_input(n, r) {
            return Some(Fault::UnknownInput);
        }
        let out = self.total_out(n);
        if out > u64::MAX as u128 {
            return Some(Fault::RateOverflow);
        }
        let intake = match self.intake(n, r) {
            None => {
                return Some(Fault::RateOverflow);
            },
            Some(intake) => intake,
        };
        if self.is_uneven(n, r, &intake, tolerance) {
            return Some(Fault::UnevenUtilization);
        }
        if self.has_mismatch(n, self.catalog().recipe(r).output) {
            return Some(Fault::ItemMismatch);
        }
        if self.is_overdrawn(n, r, &intake, out as Rate) {
            return Some(Fault::CapacityExceeded);
        }
        None
    }

    /// Checks the nodes of `order`, one after another, and returns the
    /// first violation. What is no node of the graph is passed over.
    pub fn verify_along(&self, order: &Vec<usize>, tolerance: Rate) -> (res: Result<(), Violation>)
        requires
            self.wf(),
        ensures
            match first_violation(self.recipes(), self@, order@, tolerance, 0) {
                None => res is Ok,
                Some(v) => res == Err::<(), Violation>(v),
            },
    {
        let nodes = self.node_count();
        let mut i: usize = 0;
        while i < order.len()
            invariant
                self.wf(),
                nodes == self@.stations.len(),
                i <= order.len(),
                first_violation(self.recipes(), self@, order@, tolerance, 0) == first_violation(
                    self.recipes(),
                    self@,
                    order@,
                    tolerance,
                    i as int,
                ),
            decreases order.len() - i,
        {
            let n = order[i];
            if n < nodes {
                match self.check_node(n, tolerance) {
                    Some(fault) => {
                        return Err(Violation { node: n, fault });
                    },
                    None => {},
                }
            }
            i += 1;
        }
        Ok(())
    }

    /// The nodes that the inspection looks at, in its order: for each node
    /// that no flow enters, the nodes that it feeds, nearest first.
    pub fn inspection_order(&self) -> (order: Vec<usize>)
        requires
            self.wf(),
        ensures
            order@ == inspection(
                self.customers(),
                loose_ends(self@.flows, self@.stations.len() as int, false),
                0,
            ),
    {
        let sources = self.sources();
        let mut order: Vec<usize> = Vec::new();
        let mut i: usize = sources.len();
        while i > 0
            invariant
                self.wf(),
                i <= sources.len(),
                sources@ == loose_ends(self@.flows, self@.stations.len() as int, false),
                order@ == inspection(self.customers(), sources@, i as int),
            decreases i,
        {
            i -= 1;
            proof {
                lemma_loose_ends_are_nodes(self@.flows, self@.stations.len() as int, false, i as int);
            }
            let mut reach = self.downstream(sources[i]);
            reach.append(&mut order);
            order = reach;
        }
        order
    }

    /// Checks every machine that a source feeds, the nearest first, and
    /// returns the first violation: an input that the recipe does not
    /// consume, a total beyond the range of rate units, inputs fed out of
    /// step by more than `tolerance` rate units, an output that is not
    /// the recipe's, or more output than the inputs feed the machine for.
    pub fn verify_spec(&self, tolerance: Rate) -> (res: Result<(), Violation>)
        requires
            self.wf(),
        ensures
            match first_violation(
                self.recipes(),
                self@,
                inspection(
                    self.customers(),
                    loose_ends(self@.flows, self@.stations.len() as int, false),
                    0,
                ),
                tolerance,
                0,
            ) {
                None => res is Ok,
                Some(v) => res == Err::<(), Violation>(v),
            },
    {
        let order = self.inspection_order();
        self.verify_along(&order, tolerance)
    }
}

} // verus!
