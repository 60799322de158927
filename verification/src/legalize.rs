//! Legalization: no machine is asked for more than it can put out.
use vstd::prelude::*;
use crate::catalog::Item;
use crate::catalog::Rate;
use crate::catalog::Recipe;
use crate::catalog::Station;
use crate::catalog::need;
use crate::flow::Flow;
use crate::flow::Tally;
use crate::flow::lemma_sum_bounds;
use crate::flow::loose_ends;
use crate::flow::swap_removed;
use crate::flow::total_out;
use crate::graph::INDEX_LIMIT;
use crate::graph::Plan;
use crate::graph::PlanError;
use crate::graph::ProductionGraph;
use crate::laws::conservation::all_tight;
use crate::laws::conservation::made_by;
use crate::laws::inspection::all_in_step;
use crate::laws::legal::law_legal_is_fixed;
use crate::laws::legal::lemma_legalized_along_error;
use crate::laws::legal::of_a_split;
use crate::laws::order::all_fed_once;
use crate::laws::order::inputs_distinct;
use crate::laws::order::law_consumers_first_conserves;
use crate::laws::order::law_consumers_first_is_legal;
use crate::laws::order::law_consumers_first_stays_in_step;
use crate::laws::placing::law_consumers_order_suits;
use crate::order::consumers_order;
use crate::order::suiting;
use crate::rate::machines;
use crate::rate::machines_for;
use crate::rate::scale_up;
use crate::rate::scaled;
use crate::slicing::ascending;
use crate::slicing::blind_to_rate;
use crate::slicing::each;
use crate::slicing::fill_machine;
use crate::slicing::filled;
use crate::slicing::lemma_ascending_each;
use crate::slicing::lemma_filled_each;
use crate::slicing::lemma_filled_room;
use crate::slicing::lemma_sliced_each;
use crate::slicing::slice_flows;
use crate::slicing::sliced;
use crate::slicing::sort_ascending;
use crate::store::search_order;

verus! {

/// The flows at index `from` and above that leave node `n`, highest index first.
pub open spec fn leaving_from(flows: Seq<Flow>, n: int, from: int) -> Seq<Flow>
    decreases flows.len() - from,
{
    if from < 0 || from >= flows.len() {
        Seq::empty()
    } else if flows[from].source == n {
        leaving_from(flows, n, from + 1).push(flows[from])
    } else {
        leaving_from(flows, n, from + 1)
    }
}

/// The flows that leave node `n`, highest index first.
pub open spec fn leaving(flows: Seq<Flow>, n: int) -> Seq<Flow> {
    leaving_from(flows, n, 0)
}

/// The list after the flows at index `from` and above that leave node `n`
/// have been taken out, highest index first.
pub open spec fn stripped_from(flows: Seq<Flow>, n: int, from: int) -> Seq<Flow>
    decreases flows.len() - from,
{
    if from < 0 || from >= flows.len() {
        flows
    } else if flows[from].source == n {
        swap_removed(stripped_from(flows, n, from + 1), from)
    } else {
        stripped_from(flows, n, from + 1)
    }
}

/// The list after all flows that leave node `n` have been taken out.
pub open spec fn stripped(flows: Seq<Flow>, n: int) -> Seq<Flow> {
    stripped_from(flows, n, 0)
}

/// Some flow into node `n` carries an item that a recipe with these
/// inputs does not consume.
pub open spec fn foreign(flows: Seq<Flow>, n: int, inputs: Seq<(Item, Rate)>) -> bool {
    exists|i: int|
        0 <= i < flows.len() && (#[trigger] flows[i]).target == n && need(inputs, flows[i].item)
            is None
}

/// The list after the pieces `taken` have been added as flows that leave
/// node `inst`, in their order.
pub open spec fn shipped(flows: Seq<Flow>, inst: int, taken: Seq<Flow>) -> Result<
    Seq<Flow>,
    PlanError,
>
    decreases taken.len(),
{
    if taken.len() == 0 {
        Ok(flows)
    } else {
        match shipped(flows, inst, taken.drop_last()) {
            Err(e) => Err(e),
            Ok(sofar) => if sofar.len() >= INDEX_LIMIT {
                Err(PlanError::GraphFull)
            } else {
                Ok(
                    sofar.push(
                        Flow {
                            source: inst as usize,
                            target: taken.last().target,
                            item: taken.last().item,
                            rate: taken.last().rate,
                        },
                    ),
                )
            },
        }
    }
}

/// What a machine that puts out `amount` of a capacity of `cap` needs of
/// `item`, by a recipe with these inputs.
pub open spec fn share(inputs: Seq<(Item, Rate)>, item: Item, amount: Rate, cap: Rate) -> int {
    match need(inputs, item) {
        Some(full) => scaled(amount, full, cap),
        None => 0,
    }
}

/// The list after machine `inst`, which puts out `amount`, has been given
/// its inputs: for each flow of `flows` at index `from` and above that
/// enters node `n`, highest index first, a flow of the same item from the
/// same producer, at the rate that `amount` calls for. Where `inst` is `n`
/// itself the flow is changed in place.
pub open spec fn nourished(
    flows: Seq<Flow>,
    n: int,
    inst: int,
    inputs: Seq<(Item, Rate)>,
    cap: Rate,
    amount: Rate,
    from: int,
) -> Result<Seq<Flow>, PlanError>
    decreases flows.len() - from,
{
    if from < 0 || from >= flows.len() {
        Ok(flows)
    } else {
        match nourished(flows, n, inst, inputs, cap, amount, from + 1) {
            Err(e) => Err(e),
            Ok(sofar) => if flows[from].target != n {
                Ok(sofar)
            } else {
                let rate = share(inputs, flows[from].item, amount, cap);
                if rate > u64::MAX {
                    Err(PlanError::RateOverflow)
                } else if inst == n {
                    Ok(
                        sofar.update(
                            from,
                            Flow {
                                source: flows[from].source,
                                target: flows[from].target,
                                item: flows[from].item,
                                rate: rate as Rate,
                            },
                        ),
                    )
                } else if sofar.len() >= INDEX_LIMIT {
                    Err(PlanError::GraphFull)
                } else {
                    Ok(
                        sofar.push(
                            Flow {
                                source: flows[from].source,
                                target: inst as usize,
                                item: flows[from].item,
                                rate: rate as Rate,
                            },
                        ),
                    )
                }
            },
        }
    }
}

/// The node that is machine number `k` of `reps`: the new nodes come
/// first, from `first_new` on, and the split node `n` itself is the last.
pub open spec fn instance(n: int, first_new: int, reps: int, k: int) -> int {
    if k < reps - 1 {
        first_new + k
    } else {
        n
    }
}

/// The list after machine `inst` has taken pieces off the stack, up to the
/// capacity `cap`, and been given the inputs for what it took.
pub open spec fn equipped(
    inputs: Seq<(Item, Rate)>,
    cap: Rate,
    n: int,
    inst: int,
    flows: Seq<Flow>,
    stack: Seq<Flow>,
) -> Result<Seq<Flow>, PlanError> {
    let filling = filled(stack, cap);
    match shipped(flows, inst, filling.taken) {
        Err(e) => Err(e),
        Ok(with_outputs) => nourished(
            with_outputs,
            n,
            inst,
            inputs,
            cap,
            (cap - filling.room) as Rate,
            0,
        ),
    }
}

/// The list after machines number `k` and above have been equipped, one
/// after another, each from the stack that the one before it left.
pub open spec fn served(
    inputs: Seq<(Item, Rate)>,
    cap: Rate,
    n: int,
    first_new: int,
    reps: int,
    flows: Seq<Flow>,
    stack: Seq<Flow>,
    k: int,
) -> Result<Seq<Flow>, PlanError>
    decreases reps - k,
{
    if k < 0 || k >= reps {
        Ok(flows)
    } else {
        match equipped(inputs, cap, n, instance(n, first_new, reps, k), flows, stack) {
            Err(e) => Err(e),
            Ok(next) => served(
                inputs,
                cap,
                n,
                first_new,
                reps,
                next,
                filled(stack, cap).rest,
                k + 1,
            ),
        }
    }
}

/// The plan after node `n` has been made legal.
///
/// Nothing changes where `n` is no node, is the sink, or puts out no more
/// than one machine of its recipe can. Otherwise the node becomes as many
/// machines as its output takes: new nodes with the same recipe, and the
/// node itself as the last. Its outgoing flows are cut into pieces of at
/// most one machine's output, sorted by rising rate, and handed out from
/// the largest down, machine by machine; each machine is fed by every
/// producer that fed the node, in proportion to what it puts out.
pub open spec fn split(recipes: Seq<Recipe>, plan: Plan, n: int) -> Result<Plan, PlanError> {
    if n < 0 || n >= plan.stations.len() {
        Ok(plan)
    } else {
        match plan.stations[n] {
            Station::Sink => Ok(plan),
            Station::Maker(r) => {
                let cap = recipes[r as int].output_rate;
                let inputs = recipes[r as int].inputs@;
                let total = total_out(plan.flows, n);
                if total <= cap {
                    Ok(plan)
                } else if foreign(plan.flows, n, inputs) {
                    Err(PlanError::ForeignInput)
                } else {
                    let reps = machines(total, cap);
                    if plan.stations.len() + reps - 1 > INDEX_LIMIT {
                        Err(PlanError::GraphFull)
                    } else {
                        let stations = plan.stations + Seq::new(
                            (reps - 1) as nat,
                            |k: int| Station::Maker(r),
                        );
                        let stack = ascending(sliced(leaving(plan.flows, n), cap));
                        match served(
                            inputs,
                            cap,
                            n,
                            plan.stations.len() as int,
                            reps,
                            stripped(plan.flows, n),
                            stack,
                            0,
                        ) {
                            Err(e) => Err(e),
                            Ok(flows) => Ok(Plan { stations, flows }),
                        }
                    }
                }
            },
        }
    }
}

/// The plan after the nodes `order[from]`, `order[from + 1]`, ... have been
/// made legal one after another.
pub open spec fn legalized_along(recipes: Seq<Recipe>, plan: Plan, order: Seq<usize>, from: int) -> Result<
    Plan,
    PlanError,
>
    decreases order.len() - from,
{
    if from < 0 || from >= order.len() {
        Ok(plan)
    } else {
        match split(recipes, plan, order[from] as int) {
            Err(e) => Err(e),
            Ok(next) => legalized_along(recipes, next, order, from + 1),
        }
    }
}

/// The recipe that node `n` runs.
pub open spec fn recipe_at(recipes: Seq<Recipe>, plan: Plan, n: int) -> Recipe {
    recipes[plan.stations[n]->Maker_0 as int]
}

/// What one machine of the recipe of node `n` can put out.
pub open spec fn capacity(recipes: Seq<Recipe>, plan: Plan, n: int) -> Rate {
    recipe_at(recipes, plan, n).output_rate
}

/// Node `m` puts out no more than one machine of its recipe can. The sink
/// has no limit.
pub open spec fn within(recipes: Seq<Recipe>, plan: Plan, m: int) -> bool {
    0 <= m < plan.stations.len() && plan.stations[m] is Maker ==> total_out(plan.flows, m)
        <= capacity(recipes, plan, m)
}

/// No node of the plan puts out more than one machine of its recipe can.
pub open spec fn legal(recipes: Seq<Recipe>, plan: Plan) -> bool {
    forall|m: int| within(recipes, plan, m)
}

/// What the search from the sinks of the plan hands out, where each node
/// has the given feeders, to be walked in the given order.
pub open spec fn sink_search(feeders: Seq<Seq<int>>, plan: Plan) -> Seq<usize> {
    traversal(feeders, loose_ends(plan.flows, plan.stations.len() as int, true), 0)
}

/// The order along which a plan is legalized, where `search` is what the
/// search from its sinks hands out: that, where it suits, and else the
/// plan's own order of consumers first.
pub open spec fn chosen_order(plan: Plan, search: Seq<usize>) -> Seq<usize> {
    if suiting(plan, search) {
        search
    } else {
        consumers_order(plan)
    }
}

/// The plan legalized along the order chosen for it, or the reason why
/// it is not: no order was found that suits, or a split failed.
pub open spec fn legalized(recipes: Seq<Recipe>, plan: Plan, search: Seq<usize>) -> Result<
    Plan,
    PlanError,
> {
    if suiting(plan, chosen_order(plan, search)) {
        legalized_along(recipes, plan, chosen_order(plan, search), 0)
    } else {
        Err(PlanError::Unordered)
    }
}

/// The nodes that `legalize` looks at, in its order: for each node that no
/// flow leaves, by rising index, the nodes that feed it, nearest first.
pub open spec fn traversal(feeders: Seq<Seq<int>>, sinks: Seq<usize>, from: int) -> Seq<usize>
    decreases sinks.len() - from,
{
    if from < 0 || from >= sinks.len() {
        Seq::empty()
    } else {
        search_order(feeders, sinks[from] as int) + traversal(feeders, sinks, from + 1)
    }
}

/// The flows that leave `n` at index `from` and above do leave `n`.
pub proof fn lemma_leaving_each(flows: Seq<Flow>, n: int, from: int, ok: spec_fn(Flow) -> bool)
    requires
        forall|i: int| 0 <= i < flows.len() && (#[trigger] flows[i]).source == n ==> ok(flows[i]),
    ensures
        each(leaving_from(flows, n, from), ok),
    decreases flows.len() - from,
{
    if 0 <= from < flows.len() {
        lemma_leaving_each(flows, n, from + 1, ok);
    }
}

impl ProductionGraph {
    /// Takes out every flow that leaves node `n` and returns them, highest
    /// edge index first.
    pub fn take_outgoing(&mut self, n: usize) -> (taken: Vec<Flow>)
        requires
            old(self).wf(),
        ensures
            final(self).wf(),
            final(self).recipes() == old(self).recipes(),
            final(self)@.stations == old(self)@.stations,
            final(self)@.flows == stripped(old(self)@.flows, n as int),
            taken@ == leaving(old(self)@.flows, n as int),
    {
        let mut taken: Vec<Flow> = Vec::new();
        let mut j: usize = self.edge_count();
        while j > 0
            invariant
                self.wf(),
                self.recipes() == old(self).recipes(),
                self@.stations == old(self)@.stations,
                j <= old(self)@.flows.len(),
                j <= self@.flows.len(),
                forall|i: int| 0 <= i < j ==> self@.flows[i] == old(self)@.flows[i],
                self@.flows == stripped_from(old(self)@.flows, n as int, j as int),
                taken@ == leaving_from(old(self)@.flows, n as int, j as int),
            decreases j,
        {
            j -= 1;
            let f = self.flow(j).unwrap();
            if f.source == n {
                taken.push(f);
                self.remove_flow(j);
            }
        }
        taken
    }

    /// Whether some flow into node `n` carries an item that recipe `r`
    /// does not consume.
    pub fn has_foreign_input(&self, n: usize, r: usize) -> (found: bool)
        requires
            self.wf(),
            r < self.recipes().len(),
        ensures
            found == foreign(self@.flows, n as int, self.recipes()[r as int].inputs@),
    {
        let count = self.edge_count();
        let mut i: usize = 0;
        while i < count
            invariant
                self.wf(),
                r < self.recipes().len(),
                count == self@.flows.len(),
                i <= count,
                forall|k: int|
                    0 <= k < i ==> !((#[trigger] self@.flows[k]).target == n && need(
                        self.recipes()[r as int].inputs@,
                        self@.flows[k].item,
                    ) is None),
            decreases count - i,
        {
            let f = self.flow(i).unwrap();
            if f.target == n && self.catalog().recipe(r).input_rate(f.item).is_none() {
                return true;
            }
            i += 1;
        }
        false
    }

    /// Adds the pieces `taken` as flows that leave node `inst`.
    pub fn ship(&mut self, inst: usize, taken: &Vec<Flow>) -> (r: Result<(), PlanError>)
        requires
            old(self).wf(),
            inst < old(self)@.stations.len(),
            forall|i: int| 0 <= i < taken@.len() ==> (#[trigger] taken@[i]).target < old(
                self,
            )@.stations.len(),
        ensures
            final(self).wf(),
            final(self).recipes() == old(self).recipes(),
            final(self)@.stations == old(self)@.stations,
            match shipped(old(self)@.flows, inst as int, taken@) {
                Ok(flows) => r is Ok && final(self)@.flows == flows,
                Err(e) => r == Err::<(), PlanError>(e),
            },
    {
        let mut i: usize = 0;
        while i < taken.len()
            invariant
                self.wf(),
                self.recipes() == old(self).recipes(),
                self@.stations == old(self)@.stations,
                inst < self@.stations.len(),
                forall|i: int| 0 <= i < taken@.len() ==> (#[trigger] taken@[i]).target
                    < self@.stations.len(),
                i <= taken.len(),
                shipped(old(self)@.flows, inst as int, taken@.take(i as int)) == Ok::<
                    Seq<Flow>,
                    PlanError,
                >(self@.flows),
            decreases taken.len() - i,
        {
            let piece = taken[i];
            proof {
                assert(taken@.take(i + 1).drop_last() =~= taken@.take(i as int));
            }
            match self.add_flow(inst, piece.target, piece.item, piece.rate) {
                None => {
                    proof {
                        lemma_shipped_prefix(old(self)@.flows, inst as int, taken@, i + 1);
                    }
                    return Err(PlanError::GraphFull);
                },
                Some(_) => {},
            }
            i += 1;
        }
        proof {
            assert(taken@.take(taken.len() as int) =~= taken@);
        }
        Ok(())
    }

    /// Gives machine `inst`, which puts out `amount`, its inputs: one flow
    /// for each flow that enters node `n`, from the same producer.
    pub fn nourish(&mut self, n: usize, inst: usize, r: usize, amount: Rate) -> (res: Result<
        (),
        PlanError,
    >)
        requires
            old(self).wf(),
            inst < old(self)@.stations.len(),
            r < old(self).recipes().len(),
        ensures
            final(self).wf(),
            final(self).recipes() == old(self).recipes(),
            final(self)@.stations == old(self)@.stations,
            match nourished(
                old(self)@.flows,
                n as int,
                inst as int,
                old(self).recipes()[r as int].inputs@,
                old(self).recipes()[r as int].output_rate,
                amount,
                0,
            ) {
                Ok(flows) => res is Ok && final(self)@.flows == flows,
                Err(e) => res == Err::<(), PlanError>(e),
            },
    {
        let ghost inputs = self.recipes()[r as int].inputs@;
        let cap = self.catalog().recipe(r).output_rate;
        let mut j: usize = self.edge_count();
        while j > 0
            invariant
                self.wf(),
                self.recipes() == old(self).recipes(),
                self@.stations == old(self)@.stations,
                inst < self@.stations.len(),
                r < self.recipes().len(),
                inputs == self.recipes()[r as int].inputs@,
                cap == self.recipes()[r as int].output_rate,
                j <= old(self)@.flows.len(),
                old(self)@.flows.len() <= self@.flows.len(),
                forall|i: int| 0 <= i < j ==> self@.flows[i] == old(self)@.flows[i],
                nourished(old(self)@.flows, n as int, inst as int, inputs, cap, amount, j as int)
                    == Ok::<Seq<Flow>, PlanError>(self@.flows),
            decreases j,
        {
            j -= 1;
            let f = self.flow(j).unwrap();
            if f.target == n {
                let rate = match self.catalog().recipe(r).input_rate(f.item) {
                    None => 0,
                    Some(full) => match scale_up(amount, full, cap) {
                        None => {
                            proof {
                                lemma_nourished_fails(
                                    old(self)@.flows,
                                    n as int,
                                    inst as int,
                                    inputs,
                                    cap,
                                    amount,
                                    j as int,
                                );
                            }
                            return Err(PlanError::RateOverflow);
                        },
                        Some(rate) => rate,
                    },
                };
                if inst == n {
                    self.set_flow(j, f.item, rate);
                } else {
                    match self.add_flow(f.source, inst, f.item, rate) {
                        None => {
                            proof {
                                lemma_nourished_fails(
                                    old(self)@.flows,
                                    n as int,
                                    inst as int,
                                    inputs,
                                    cap,
                                    amount,
                                    j as int,
                                );
                            }
                            return Err(PlanError::GraphFull);
                        },
                        Some(_) => {},
                    }
                }
            }
        }
        Ok(())
    }
}

impl ProductionGraph {
    /// Makes node `n` legal: where it puts out more than one machine of
    /// its recipe can, it becomes as many machines as it takes.
    pub fn split_node(&mut self, n: usize) -> (res: Result<(), PlanError>)
        requires
            old(self).wf(),
        ensures
            final(self).wf(),
            final(self).recipes() == old(self).recipes(),
            old(self)@.stations.len() <= final(self)@.stations.len(),
            match split(old(self).recipes(), old(self)@, n as int) {
                Ok(plan) => res is Ok && final(self)@ == plan,
                Err(e) => res == Err::<(), PlanError>(e),
            },
    {
        let r = match self.station(n) {
            None => {
                return Ok(());
            },
            Some(Station::Sink) => {
                return Ok(());
            },
            Some(Station::Maker(r)) => r,
        };
        let cap = self.catalog().recipe(r).output_rate;
        let total = self.total_out(n);
        if total <= cap as u128 {
            return Ok(());
        }
        if self.has_foreign_input(n, r) {
            return Err(PlanError::ForeignInput);
        }
        proof {
            lemma_sum_bounds(self@.flows, Tally::Leaving(n as int));
            assert(self@.flows.len() * u64::MAX <= INDEX_LIMIT * u64::MAX) by (nonlinear_arith)
                requires
                    self@.flows.len() <= INDEX_LIMIT,
            ;
        }
        let reps = machines_for(total, cap);
        let first_new = self.node_count();
        if reps - 1 > (INDEX_LIMIT - first_new) as u128 {
            return Err(PlanError::GraphFull);
        }
        let extra: usize = (reps - 1) as usize;
        let ghost inputs = self.recipes()[r as int].inputs@;
        let mut k: usize = 0;
        while k < extra
            invariant
                self.wf(),
                self.recipes() == old(self).recipes(),
                r < self.recipes().len(),
                self@.flows == old(self)@.flows,
                k <= extra,
                first_new + extra <= INDEX_LIMIT,
                first_new == old(self)@.stations.len(),
                self@.stations == old(self)@.stations + Seq::new(k as nat, |i: int| Station::Maker(r)),
            decreases extra - k,
        {
            let ghost before = self@.stations;
            self.add_station(Station::Maker(r));
            proof {
                assert(self@.stations =~= old(self)@.stations + Seq::new(
                    (k + 1) as nat,
                    |i: int| Station::Maker(r),
                ));
            }
            k += 1;
        }
        let ghost stations = self@.stations;
        let ghost bound = stations.len() as int;
        let ghost ok = |f: Flow| f.target < bound;
        let taken = self.take_outgoing(n);
        let pieces = slice_flows(&taken, cap);
        let mut stack = sort_ascending(&pieces);
        proof {
            assert(blind_to_rate(ok));
            lemma_leaving_each(old(self)@.flows, n as int, 0, ok);
            lemma_sliced_each(taken@, cap, ok);
            lemma_ascending_each(pieces@, ok);
        }
        let ghost stack0 = stack@;
        let ghost flows0 = self@.flows;
        let machines: usize = extra + 1;
        let mut k: usize = 0;
        while k < machines
            invariant
                self.wf(),
                old(self)@.stations.len() <= stations.len(),
                split(old(self).recipes(), old(self)@, n as int) == match served(
                    inputs,
                    cap,
                    n as int,
                    first_new as int,
                    machines as int,
                    flows0,
                    stack0,
                    0,
                ) {
                    Err(e) => Err::<Plan, PlanError>(e),
                    Ok(flows) => Ok::<Plan, PlanError>((Plan { stations, flows })),
                },
                self.recipes() == old(self).recipes(),
                r < self.recipes().len(),
                inputs == self.recipes()[r as int].inputs@,
                cap == self.recipes()[r as int].output_rate,
                self@.stations == stations,
                bound == stations.len(),
                ok == |f: Flow| f.target < bound,
                n < first_new,
                first_new + extra == stations.len(),
                machines == extra + 1,
                k <= machines,
                each(stack@, ok),
                served(inputs, cap, n as int, first_new as int, machines as int, flows0, stack0, 0)
                    == served(
                    inputs,
                    cap,
                    n as int,
                    first_new as int,
                    machines as int,
                    self@.flows,
                    stack@,
                    k as int,
                ),
            decreases machines - k,
        {
            let inst = if k < extra {
                first_new + k
            } else {
                n
            };
            proof {
                assert(blind_to_rate(ok));
                lemma_filled_each(stack@, cap, ok);
                lemma_filled_room(stack@, cap);
            }
            let (taken, room) = fill_machine(&mut stack, cap);
            match self.ship(inst, &taken) {
                Err(e) => {
                    return Err(e);
                },
                Ok(()) => {},
            }
            match self.nourish(n, inst, r, cap - room) {
                Err(e) => {
                    return Err(e);
                },
                Ok(()) => {},
            }
            k += 1;
        }
        Ok(())
    }

    /// Makes the nodes of `order` legal, one after another. What is no
    /// node of the graph is passed over.
    ///
    /// Where `order` lists every node once, consumers before their
    /// producers, the graph is legal afterwards; every recipe makes, over
    /// all its machines, what it made, where every machine was fed exactly
    /// what its output calls for; and every node that was fed evenly still
    /// is, the new machines too. A graph that is legal already stays as it
    /// is.
    pub fn legalize_along(&mut self, order: &Vec<usize>) -> (res: Result<(), PlanError>)
        requires
            old(self).wf(),
        ensures
            final(self).wf(),
            final(self).recipes() == old(self).recipes(),
            match legalized_along(old(self).recipes(), old(self)@, order@, 0) {
                Ok(plan) => res is Ok && final(self)@ == plan,
                Err(e) => res == Err::<(), PlanError>(e),
            },
            res is Ok && suiting(old(self)@, order@) ==> legal(final(self).recipes(), final(self)@),
            legal(old(self).recipes(), old(self)@) ==> res is Ok && final(self)@ == old(self)@,
            res is Ok && suiting(old(self)@, order@) && all_tight(old(self).recipes(), old(self)@)
                ==> forall|q: int|
                0 <= q <= usize::MAX ==> #[trigger] made_by(final(self)@, q) == made_by(old(self)@, q),
            res is Ok && suiting(old(self)@, order@) && inputs_distinct(old(self).recipes())
                && all_fed_once(old(self)@) ==> forall|tolerance: Rate|
                tolerance >= 1 && #[trigger] all_in_step(old(self).recipes(), old(self)@, tolerance)
                    ==> all_in_step(final(self).recipes(), final(self)@, tolerance),
    {
        proof {
            if legal(self.recipes(), self@) {
                law_legal_is_fixed(self.recipes(), self@, order@, 0);
            }
        }
        let mut i: usize = 0;
        while i < order.len()
            invariant
                self.wf(),
                self.recipes() == old(self).recipes(),
                i <= order.len(),
                legalized_along(old(self).recipes(), old(self)@, order@, 0) == legalized_along(
                    self.recipes(),
                    self@,
                    order@,
                    i as int,
                ),
                legal(old(self).recipes(), old(self)@) ==> legalized_along(
                    old(self).recipes(),
                    old(self)@,
                    order@,
                    0,
                ) == Ok::<Plan, PlanError>(old(self)@),
            decreases order.len() - i,
        {
            match self.split_node(order[i]) {
                Err(e) => {
                    return Err(e);
                },
                Ok(()) => {},
            }
            i += 1;
        }
        proof {
            if suiting(old(self)@, order@) {
                law_consumers_first_is_legal(old(self).recipes(), old(self)@, order@);
                if all_tight(old(self).recipes(), old(self)@) {
                    assert forall|q: int| 0 <= q <= usize::MAX implies #[trigger] made_by(self@, q)
                        == made_by(old(self)@, q) by {
                        law_consumers_first_conserves(old(self).recipes(), old(self)@, order@, q);
                    }
                }
                if inputs_distinct(old(self).recipes()) && all_fed_once(old(self)@) {
                    assert forall|tolerance: Rate|
                        tolerance >= 1 && #[trigger] all_in_step(
                            old(self).recipes(),
                            old(self)@,
                            tolerance,
                        ) implies all_in_step(self.recipes(), self@, tolerance) by {
                        law_consumers_first_stays_in_step(
                            old(self).recipes(),
                            old(self)@,
                            order@,
                            tolerance,
                        );
                    }
                }
            }
        }
        Ok(())
    }

    /// Whether no node but the sink puts out more than one machine of its
    /// recipe can.
    pub fn is_legal(&self) -> (r: bool)
        requires
            self.wf(),
        ensures
            r == legal(self.recipes(), self@),
    {
        let nodes = self.node_count();
        let mut n: usize = 0;
        while n < nodes
            invariant
                self.wf(),
                nodes == self@.stations.len(),
                n <= nodes,
                forall|m: int| 0 <= m < n ==> within(self.recipes(), self@, m),
            decreases nodes - n,
        {
            match self.station(n) {
                Some(Station::Maker(r)) => {
                    if self.total_out(n) > self.catalog().recipe(r).output_rate as u128 {
                        assert(!within(self.recipes(), self@, n as int));
                        return false;
                    }
                },
                _ => {},
            }
            n += 1;
        }
        true
    }

    /// The nodes that `legalize` looks at, in its order: for each node
    /// that no flow leaves, the nodes that feed it, nearest first.
    pub fn sink_traversal(&self) -> (order: Vec<usize>)
        requires
            self.wf(),
        ensures
            order@ == traversal(
                self.feeders(),
                loose_ends(self@.flows, self@.stations.len() as int, true),
                0,
            ),
            forall|k: int| 0 <= k < order@.len() ==> (#[trigger] order@[k]) < self@.stations.len(),
    {
        let sinks = self.sinks();
        let mut order: Vec<usize> = Vec::new();
        let mut i: usize = sinks.len();
        while i > 0
            invariant
                self.wf(),
                i <= sinks.len(),
                sinks@ == loose_ends(self@.flows, self@.stations.len() as int, true),
                order@ == traversal(self.feeders(), sinks@, i as int),
                forall|k: int| 0 <= k < order@.len() ==> (#[trigger] order@[k])
                    < self@.stations.len(),
            decreases i,
        {
            i -= 1;
            proof {
                lemma_loose_ends_are_nodes(self@.flows, self@.stations.len() as int, true, i as int);
            }
            let mut reach = self.upstream(sinks[i]);
            reach.append(&mut order);
            order = reach;
        }
        order
    }

    /// Makes the graph legal: no node but the sink puts out more than one
    /// machine of its recipe can.
    ///
    /// A graph that is legal already stays as it is. Otherwise the nodes
    /// are looked at one after another and split where they put out too
    /// much. The order is fixed before anything changes: that of the
    /// search from the sinks against the flows, nearest first, where it
    /// lists every node once and consumers before their producers, and
    /// else `consumers_order`. Where no order at all puts every consumer
    /// before its producers, because flows run in a circle, nothing is
    /// changed and `Unordered` is returned.
    ///
    /// Legalizing conserves flow: every recipe makes, over all its
    /// machines, what it made, where every machine was fed exactly what its
    /// output calls for. And it keeps the feeding even: every node that was
    /// fed evenly still is, the new machines too.
    pub fn legalize(&mut self) -> (res: Result<(), PlanError>)
        requires
            old(self).wf(),
        ensures
            final(self).wf(),
            final(self).recipes() == old(self).recipes(),
            res is Ok ==> legal(final(self).recipes(), final(self)@),
            legal(old(self).recipes(), old(self)@) ==> res is Ok && final(self)@ == old(self)@,
            !legal(old(self).recipes(), old(self)@) ==> match legalized(
                old(self).recipes(),
                old(self)@,
                sink_search(old(self).feeders(), old(self)@),
            ) {
                Ok(plan) => res is Ok && final(self)@ == plan,
                Err(e) => res == Err::<(), PlanError>(e),
            },
            res == Err::<(), PlanError>(PlanError::Unordered) <==> !legal(
                old(self).recipes(),
                old(self)@,
            ) && forall|order: Seq<usize>| !#[trigger] suiting(old(self)@, order),
            res == Err::<(), PlanError>(PlanError::Unordered) ==> final(self)@ == old(self)@,
            res matches Err(e) ==> e == PlanError::Unordered || of_a_split(e),
            res is Ok && all_tight(old(self).recipes(), old(self)@) ==> forall|q: int|
                0 <= q <= usize::MAX ==> #[trigger] made_by(final(self)@, q) == made_by(old(self)@, q),
            res is Ok && inputs_distinct(old(self).recipes()) && all_fed_once(old(self)@)
                ==> forall|tolerance: Rate|
                tolerance >= 1 && #[trigger] all_in_step(old(self).recipes(), old(self)@, tolerance)
                    ==> all_in_step(final(self).recipes(), final(self)@, tolerance),
    {
        if self.is_legal() {
            return Ok(());
        }
        let mut order = self.sink_traversal();
        if !self.suits(&order) {
            order = self.consumers_order();
            if !self.suits(&order) {
                proof {
                    assert forall|some: Seq<usize>| !#[trigger] suiting(self@, some) by {
                        if suiting(self@, some) {
                            law_consumers_order_suits(self@, some);
                        }
                    }
                }
                return Err(PlanError::Unordered);
            }
        }
        proof {
            lemma_legalized_along_error(self.recipes(), self@, order@, 0);
            assert(suiting(self@, order@));
        }
        self.legalize_along(&order)
    }
}

/// Loose ends are nodes.
pub proof fn lemma_loose_ends_are_nodes(flows: Seq<Flow>, upto: int, outgoing: bool, k: int)
    requires
        0 <= k < loose_ends(flows, upto, outgoing).len(),
    ensures
        0 <= loose_ends(flows, upto, outgoing)[k] < upto,
    decreases upto,
{
    if upto > 0 {
        let below = loose_ends(flows, upto - 1, outgoing);
        if k < below.len() {
            lemma_loose_ends_are_nodes(flows, upto - 1, outgoing, k);
        }
    }
}

/// Where shipping a first part of the pieces fails, shipping all of them
/// fails the same way.
pub proof fn lemma_shipped_prefix(flows: Seq<Flow>, inst: int, taken: Seq<Flow>, upto: int)
    requires
        0 <= upto <= taken.len(),
        shipped(flows, inst, taken.take(upto)) is Err,
    ensures
        shipped(flows, inst, taken) == shipped(flows, inst, taken.take(upto)),
    decreases taken.len() - upto,
{
    if upto < taken.len() {
        assert(taken.take(upto + 1).drop_last() =~= taken.take(upto));
        lemma_shipped_prefix(flows, inst, taken, upto + 1);
    } else {
        assert(taken.take(upto) =~= taken);
    }
}

/// Where feeding a machine fails at some flow, it fails the same way
/// whatever the flows below that one are.
pub proof fn lemma_nourished_fails(
    flows: Seq<Flow>,
    n: int,
    inst: int,
    inputs: Seq<(Item, Rate)>,
    cap: Rate,
    amount: Rate,
    from: int,
)
    requires
        0 <= from < flows.len(),
        nourished(flows, n, inst, inputs, cap, amount, from) is Err,
    ensures
        nourished(flows, n, inst, inputs, cap, amount, 0) == nourished(
            flows,
            n,
            inst,
            inputs,
            cap,
            amount,
            from,
        ),
    decreases from,
{
    if from > 0 {
        lemma_nourished_fails(flows, n, inst, inputs, cap, amount, from - 1);
    }
}

} // verus!
