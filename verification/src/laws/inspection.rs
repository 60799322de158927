//! What the inspection finds of the machines that a split makes.
use vstd::prelude::*;
use crate::catalog::Item;
use crate::catalog::Rate;
use crate::catalog::Recipe;
use crate::catalog::need;
use crate::catalog::need_from;
use crate::catalog::rates_positive;
use crate::flow::Flow;
use crate::flow::Tally;
use crate::flow::lemma_count_positive;
use crate::flow::total_in;
use crate::flow::total_out;
use crate::graph::Plan;
use crate::laws::legal::lemma_split_wf;
use crate::laws::split::copies;
use crate::laws::split::law_split_feeds_machines;
use crate::laws::split::law_split_keeps_intake;
use crate::laws::split::lemma_split_setting;
use crate::laws::split::made_for;
use crate::laws::split::no_self_loop;
use crate::laws::split::overloaded;
use crate::laws::split::pieces;
use crate::legalize::capacity;
use crate::legalize::foreign;
use crate::legalize::legalized_along;
use crate::legalize::recipe_at;
use crate::legalize::share;
use crate::legalize::split;
use crate::legalize::stripped;
use crate::lemmas::accounting::lemma_stripped_each;
use crate::lemmas::feeding::feeders;
use crate::lemmas::feeding::lemma_feeders_count;
use crate::lemmas::serving::carried_over;
use crate::lemmas::serving::goods;
use crate::lemmas::serving::lemma_served_each;
use crate::lemmas::serving::lemma_served_tidy;
use crate::lemmas::serving::machine_of;
use crate::lemmas::serving::tidy;
use crate::rate::lemma_scaled_covers;
use crate::rate::lemma_scaled_in_step;
use crate::rate::scaled;
use crate::slicing::blind_to_rate;
use crate::slicing::each;
use crate::slicing::lemma_ascending_each;
use crate::slicing::lemma_sliced_each;
use crate::slicing::sliced;
use crate::verify::fault_at;
use crate::verify::is_fed;
use crate::verify::mismatched;
use crate::verify::out_of_step;
use crate::verify::overdrawn;
use crate::verify::overfed;
use crate::verify::uneven;
use crate::verify::unfed;

verus! {

/// No item is listed twice among the inputs.
pub open spec fn distinct_items(inputs: Seq<(Item, Rate)>) -> bool {
    forall|a: int, b: int|
        0 <= a < b < inputs.len() ==> (#[trigger] inputs[a]).0 != (#[trigger] inputs[b]).0
}

/// Every flow that leaves node `n` carries `output`.
pub open spec fn carries(flows: Seq<Flow>, n: int, output: Item) -> bool {
    forall|i: int| 0 <= i < flows.len() && (#[trigger] flows[i]).source == n ==> flows[i].item == output
}

/// No item enters node `n` on more than one flow.
pub open spec fn fed_once(flows: Seq<Flow>, n: int) -> bool {
    forall|item: Item| #[trigger] feeders(flows, n, item) <= 1
}

/// Among inputs that list no item twice, the need of a listed item is
/// the rate it is listed with.
pub proof fn lemma_need_of_listed(inputs: Seq<(Item, Rate)>, k: int, from: int)
    requires
        distinct_items(inputs),
        0 <= from <= k < inputs.len(),
    ensures
        need_from(inputs, inputs[k].0, from) == Some(inputs[k].1),
    decreases k - from,
{
    if from < k {
        lemma_need_of_listed(inputs, k, from + 1);
    }
}

/// What the inspection looks at on the input side of a machine that a split
/// has made: nothing foreign comes in, and every listed input is fed its
/// share, by one flow or not at all.
pub proof fn lemma_split_machine_fed(recipes: Seq<Recipe>, plan: Plan, n: int, x: int)
    requires
        rates_positive(recipes),
        plan.wf(recipes),
        overloaded(recipes, plan, n),
        no_self_loop(plan.flows, n),
        fed_once(plan.flows, n),
        distinct_items(recipe_at(recipes, plan, n).inputs@),
        split(recipes, plan, n) is Ok,
        made_for(plan, split(recipes, plan, n).unwrap(), n, x),
    ensures
        split(recipes, plan, n).unwrap().stations[x] == plan.stations[n],
        0 <= total_out(split(recipes, plan, n).unwrap().flows, x) <= capacity(recipes, plan, n),
        !foreign(split(recipes, plan, n).unwrap().flows, x, recipe_at(recipes, plan, n).inputs@),
        forall|k: int|
            0 <= k < recipe_at(recipes, plan, n).inputs@.len() ==> {
                let item = (#[trigger] recipe_at(recipes, plan, n).inputs@[k]).0;
                let full = recipe_at(recipes, plan, n).inputs@[k].1;
                let flows = split(recipes, plan, n).unwrap().flows;
                let share = scaled(total_out(flows, x) as Rate, full, capacity(recipes, plan, n));
                &&& 0 <= share <= full
                &&& total_in(flows, x, item) == 0 || total_in(flows, x, item) == share
                &&& is_fed(flows, x, item) ==> total_in(flows, x, item) == share
            },
{
    lemma_split_setting(recipes, plan, n);
    let after = split(recipes, plan, n).unwrap();
    let recipe = recipe_at(recipes, plan, n);
    let inputs = recipe.inputs@;
    let cap = capacity(recipes, plan, n);
    let reps = copies(recipes, plan, n);
    let first_new = plan.stations.len() as int;
    let s = stripped(plan.flows, n);
    let p = pieces(recipes, plan, n);
    let out = total_out(after.flows, x);
    assert(machine_of(n, first_new, reps, x));
    law_split_feeds_machines(recipes, plan, n, x, recipe.output);
    // The flows into the machines carry what the flows into the node carried.
    let wanted = |item: Item| need(inputs, item) is Some && feeders(plan.flows, n, item) >= 1;
    let made = |item: Item| true;
    assert(tidy(s, n, first_new, reps, made, wanted)) by {
        let ok = |f: Flow| f.target == n ==> wanted(f.item);
        assert forall|i: int| 0 <= i < plan.flows.len() implies ok(#[trigger] plan.flows[i]) by {
            let f = plan.flows[i];
            if f.target == n {
                lemma_feeders_count(plan.flows, n, f.item, 0);
                assert(plan.flows.take(0) =~= Seq::<Flow>::empty());
                lemma_count_positive(plan.flows, Tally::Entering(n, f.item), i);
            }
        }
        lemma_stripped_each(plan.flows, n, 0, ok);
        assert forall|i: int| 0 <= i < s.len() implies (machine_of(
            n,
            first_new,
            reps,
            (#[trigger] s[i]).source as int,
        ) ==> s[i].rate > 0 && made(s[i].item)) && (machine_of(
            n,
            first_new,
            reps,
            s[i].target as int,
        ) ==> wanted(s[i].item)) by {
            assert(ok(s[i]));
        }
    }
    lemma_served_tidy(inputs, cap, n, first_new, reps, s, p, 0, made, wanted);
    let flows = after.flows;
    assert(tidy(flows, n, first_new, reps, made, wanted));
    assert(!foreign(flows, x, inputs)) by {
        if foreign(flows, x, inputs) {
            let i = choose|i: int|
                0 <= i < flows.len() && (#[trigger] flows[i]).target == x && need(
                    inputs,
                    flows[i].item,
                ) is None;
            assert(wanted(flows[i].item));
        }
    }
    assert forall|k: int| 0 <= k < inputs.len() implies {
        let item = (#[trigger] inputs[k]).0;
        let full = inputs[k].1;
        let share = scaled(out as Rate, full, cap);
        &&& 0 <= share <= full
        &&& total_in(flows, x, item) == 0 || total_in(flows, x, item) == share
        &&& is_fed(flows, x, item) ==> total_in(flows, x, item) == share
    } by {
        let item = inputs[k].0;
        law_split_feeds_machines(recipes, plan, n, x, item);
        lemma_need_of_listed(inputs, k, 0);
        lemma_scaled_covers(out as Rate, inputs[k].1, cap);
        let sc = scaled(out as Rate, inputs[k].1, cap);
        let f = feeders(plan.flows, n, item);
        assert(f <= 1);
        assert(f * sc == 0 || f * sc == sc) by (nonlinear_arith)
            requires
                0 <= f <= 1,
        ;
        if is_fed(flows, x, item) {
            let i = choose|i: int|
                0 <= i < flows.len() && (#[trigger] flows[i]).target == x && flows[i].item == item;
            assert(wanted(flows[i].item));
            assert(f * sc == sc) by (nonlinear_arith)
                requires
                    f == 1,
            ;
        }
    }
}

/// Utilization consistency: after a split, every machine of the split
/// node is fed evenly, to within one rate unit per input.
pub proof fn law_split_machines_in_step(recipes: Seq<Recipe>, plan: Plan, n: int, x: int)
    requires
        rates_positive(recipes),
        plan.wf(recipes),
        overloaded(recipes, plan, n),
        no_self_loop(plan.flows, n),
        fed_once(plan.flows, n),
        distinct_items(recipe_at(recipes, plan, n).inputs@),
        split(recipes, plan, n) is Ok,
        made_for(plan, split(recipes, plan, n).unwrap(), n, x),
    ensures
        !uneven(split(recipes, plan, n).unwrap().flows, x, recipe_at(recipes, plan, n).inputs@, 1),
{
    lemma_split_machine_fed(recipes, plan, n, x);
    let flows = split(recipes, plan, n).unwrap().flows;
    let inputs = recipe_at(recipes, plan, n).inputs@;
    let cap = capacity(recipes, plan, n);
    let out = total_out(flows, x);
    if uneven(flows, x, inputs, 1) {
        let (a, b) = choose|a: int, b: int|
            0 <= a < b < inputs.len() && is_fed(flows, x, (#[trigger] inputs[a]).0) && is_fed(
                flows,
                x,
                (#[trigger] inputs[b]).0,
            ) && out_of_step(
                total_in(flows, x, inputs[a].0),
                inputs[a].1 as int,
                total_in(flows, x, inputs[b].0),
                inputs[b].1 as int,
                1,
            );
        lemma_scaled_in_step(out as Rate, cap, inputs[a].1, inputs[b].1);
        lemma_scaled_in_step(out as Rate, cap, inputs[b].1, inputs[a].1);
    }
}

/// After a split of a soundly wired node, the inspection finds nothing
/// wrong at any machine of the node, with a tolerance of one rate unit:
/// each machine is fed what its recipe consumes, evenly, and for no less
/// than it puts out, and it puts out its recipe's output.
pub proof fn law_split_machines_pass(recipes: Seq<Recipe>, plan: Plan, n: int, x: int)
    requires
        rates_positive(recipes),
        plan.wf(recipes),
        overloaded(recipes, plan, n),
        no_self_loop(plan.flows, n),
        carries(plan.flows, n, recipe_at(recipes, plan, n).output),
        fed_once(plan.flows, n),
        distinct_items(recipe_at(recipes, plan, n).inputs@),
        split(recipes, plan, n) is Ok,
        made_for(plan, split(recipes, plan, n).unwrap(), n, x),
    ensures
        fault_at(recipes, split(recipes, plan, n).unwrap(), x, 1) is None,
{
    lemma_split_setting(recipes, plan, n);
    lemma_split_machine_fed(recipes, plan, n, x);
    law_split_machines_in_step(recipes, plan, n, x);
    let after = split(recipes, plan, n).unwrap();
    let recipe = recipe_at(recipes, plan, n);
    let inputs = recipe.inputs@;
    let output = recipe.output;
    let cap = capacity(recipes, plan, n);
    let reps = copies(recipes, plan, n);
    let first_new = plan.stations.len() as int;
    let s = stripped(plan.flows, n);
    let p = pieces(recipes, plan, n);
    let flows = after.flows;
    let out = total_out(flows, x);
    assert(machine_of(n, first_new, reps, x));
    // Nothing but the output goes out.
    let wanted = |item: Item| true;
    let made = |item: Item| item == output;
    assert(tidy(s, n, first_new, reps, made, wanted));
    assert(goods(p, made)) by {
        let same = |f: Flow| f.item == output;
        assert(blind_to_rate(same));
        crate::legalize::lemma_leaving_each(plan.flows, n, 0, same);
        lemma_sliced_each(crate::legalize::leaving(plan.flows, n), cap, same);
        lemma_ascending_each(sliced(crate::legalize::leaving(plan.flows, n), cap), same);
        assert forall|i: int| 0 <= i < p.len() implies (#[trigger] p[i]).rate > 0 && made(p[i].item) by {
            assert(same(p[i]));
        }
    }
    lemma_served_tidy(inputs, cap, n, first_new, reps, s, p, 0, made, wanted);
    assert(tidy(flows, n, first_new, reps, made, wanted));
    assert(!mismatched(flows, x, output)) by {
        if mismatched(flows, x, output) {
            let i = choose|i: int|
                0 <= i < flows.len() && (#[trigger] flows[i]).source == x && flows[i].item != output;
            assert(made(flows[i].item));
        }
    }
    assert(!overfed(flows, x, inputs)) by {
        if overfed(flows, x, inputs) {
            let k = choose|k: int|
                0 <= k < inputs.len() && total_in(flows, x, (#[trigger] inputs[k]).0) > u64::MAX;
        }
    }
    assert(!overdrawn(flows, x, inputs, cap)) by {
        if overdrawn(flows, x, inputs, cap) {
            if unfed(flows, x, inputs) && total_out(flows, x) > cap {
            } else {
                let k = choose|k: int|
                    0 <= k < inputs.len() && is_fed(flows, x, (#[trigger] inputs[k]).0) && total_out(
                        flows,
                        x,
                    ) * inputs[k].1 > total_in(flows, x, inputs[k].0) * cap;
                lemma_scaled_covers(out as Rate, inputs[k].1, cap);
            }
        }
    }
}

/// A larger tolerance finds no more inputs out of step.
pub proof fn lemma_uneven_relaxes(
    flows: Seq<Flow>,
    x: int,
    inputs: Seq<(Item, Rate)>,
    small: Rate,
    large: Rate,
)
    requires
        small <= large,
        uneven(flows, x, inputs, large),
    ensures
        uneven(flows, x, inputs, small),
{
    let (a, b) = choose|a: int, b: int|
        0 <= a < b < inputs.len() && is_fed(flows, x, (#[trigger] inputs[a]).0) && is_fed(
            flows,
            x,
            (#[trigger] inputs[b]).0,
        ) && out_of_step(
            total_in(flows, x, inputs[a].0),
            inputs[a].1 as int,
            total_in(flows, x, inputs[b].0),
            inputs[b].1 as int,
            large as int,
        );
    let longer = if inputs[a].1 >= inputs[b].1 {
        inputs[a].1
    } else {
        inputs[b].1
    };
    assert(small * longer <= large * longer) by (nonlinear_arith)
        requires
            small <= large,
            0 <= longer,
    ;
    assert(out_of_step(
        total_in(flows, x, inputs[a].0),
        inputs[a].1 as int,
        total_in(flows, x, inputs[b].0),
        inputs[b].1 as int,
        small as int,
    ));
}

/// After a split, a node that is none of the machines is fed no item
/// that it was not fed before.
pub proof fn lemma_split_fed_before(recipes: Seq<Recipe>, plan: Plan, n: int, x: int, item: Item)
    requires
        rates_positive(recipes),
        plan.wf(recipes),
        overloaded(recipes, plan, n),
        no_self_loop(plan.flows, n),
        split(recipes, plan, n) is Ok,
        0 <= x < plan.stations.len(),
        x != n,
        is_fed(split(recipes, plan, n).unwrap().flows, x, item),
    ensures
        is_fed(plan.flows, x, item),
{
    lemma_split_setting(recipes, plan, n);
    let after = split(recipes, plan, n).unwrap();
    let cap = capacity(recipes, plan, n);
    let reps = copies(recipes, plan, n);
    let first_new = plan.stations.len() as int;
    let s = stripped(plan.flows, n);
    let p = pieces(recipes, plan, n);
    let before = plan.flows;
    let ok = |g: Flow| g.target != n && g.target < first_new ==> is_fed(before, g.target as int, g.item);
    let ok_piece = |q: Flow| q.target < first_new && q.target != n && is_fed(before, q.target as int, q.item);
    assert(carried_over(n, first_new, reps, ok, ok_piece));
    assert(each(before, ok));
    lemma_stripped_each(before, n, 0, ok);
    let was = |q: Flow| is_fed(before, q.target as int, q.item);
    assert(blind_to_rate(was));
    crate::legalize::lemma_leaving_each(before, n, 0, was);
    lemma_sliced_each(crate::legalize::leaving(before, n), cap, was);
    lemma_ascending_each(sliced(crate::legalize::leaving(before, n), cap), was);
    assert forall|i: int| 0 <= i < p.len() implies ok_piece(#[trigger] p[i]) by {
        assert(was(p[i]));
    }
    lemma_served_each(recipe_at(recipes, plan, n).inputs@, cap, n, first_new, reps, s, p, 0, ok, ok_piece);
    let i = choose|i: int|
        0 <= i < after.flows.len() && (#[trigger] after.flows[i]).target == x && after.flows[i].item
            == item;
    assert(ok(after.flows[i]));
}

/// Node `x` is fed evenly, to within `tolerance` rate units per input.
/// The sink is.
pub open spec fn in_step(recipes: Seq<Recipe>, plan: Plan, x: int, tolerance: Rate) -> bool {
    0 <= x < plan.stations.len() && plan.stations[x] is Maker ==> !uneven(
        plan.flows,
        x,
        recipe_at(recipes, plan, x).inputs@,
        tolerance,
    )
}

/// Every node of the plan is fed evenly, to within `tolerance` rate units
/// per input.
pub open spec fn all_in_step(recipes: Seq<Recipe>, plan: Plan, tolerance: Rate) -> bool {
    forall|x: int| in_step(recipes, plan, x, tolerance)
}

/// Node `n` is wired so that a split keeps its machines in step: no flow
/// leaves it only to enter it again, no item enters it on two flows, and
/// its recipe lists no item twice.
pub open spec fn splittable(recipes: Seq<Recipe>, plan: Plan, n: int) -> bool {
    &&& no_self_loop(plan.flows, n)
    &&& fed_once(plan.flows, n)
    &&& distinct_items(recipe_at(recipes, plan, n).inputs@)
}

/// A split keeps every node in step that was in step.
pub proof fn law_split_keeps_in_step(
    recipes: Seq<Recipe>,
    plan: Plan,
    n: int,
    tolerance: Rate,
    x: int,
)
    requires
        rates_positive(recipes),
        plan.wf(recipes),
        overloaded(recipes, plan, n) ==> splittable(recipes, plan, n),
        split(recipes, plan, n) is Ok,
        tolerance >= 1,
        all_in_step(recipes, plan, tolerance),
    ensures
        in_step(recipes, split(recipes, plan, n).unwrap(), x, tolerance),
{
    let after = split(recipes, plan, n).unwrap();
    lemma_split_wf(recipes, plan, n);
    if overloaded(recipes, plan, n) && 0 <= x < after.stations.len() && after.stations[x] is Maker {
        if made_for(plan, after, n, x) {
            law_split_machines_in_step(recipes, plan, n, x);
            lemma_split_machine_fed(recipes, plan, n, x);
            let inputs = recipe_at(recipes, plan, n).inputs@;
            assert(recipe_at(recipes, after, x).inputs@ == inputs);
            if uneven(after.flows, x, inputs, tolerance) {
                lemma_uneven_relaxes(after.flows, x, inputs, 1, tolerance);
            }
        } else {
            let inputs = recipe_at(recipes, plan, x).inputs@;
            assert(in_step(recipes, plan, x, tolerance));
            if uneven(after.flows, x, inputs, tolerance) {
                let (a, b) = choose|a: int, b: int|
                    0 <= a < b < inputs.len() && is_fed(after.flows, x, (#[trigger] inputs[a]).0)
                        && is_fed(after.flows, x, (#[trigger] inputs[b]).0) && out_of_step(
                        total_in(after.flows, x, inputs[a].0),
                        inputs[a].1 as int,
                        total_in(after.flows, x, inputs[b].0),
                        inputs[b].1 as int,
                        tolerance as int,
                    );
                lemma_split_fed_before(recipes, plan, n, x, inputs[a].0);
                lemma_split_fed_before(recipes, plan, n, x, inputs[b].0);
                law_split_keeps_intake(recipes, plan, n, x, inputs[a].0);
                law_split_keeps_intake(recipes, plan, n, x, inputs[b].0);
                assert(uneven(plan.flows, x, inputs, tolerance));
            }
        }
    } else {
        assert(in_step(recipes, plan, x, tolerance));
    }
}

/// Whenever one of the nodes `order[from]`, `order[from + 1]`, ... is
/// split, it is wired so that a split keeps its machines in step.
pub open spec fn well_wired(recipes: Seq<Recipe>, plan: Plan, order: Seq<usize>, from: int) -> bool
    decreases order.len() - from,
{
    if from < 0 || from >= order.len() {
        true
    } else {
        let n = order[from] as int;
        &&& overloaded(recipes, plan, n) ==> splittable(recipes, plan, n)
        &&& match split(recipes, plan, n) {
            Err(_) => true,
            Ok(next) => well_wired(recipes, next, order, from + 1),
        }
    }
}

/// Utilization consistency: legalization keeps every node fed evenly. In
/// a plan whose nodes are all in step to within some tolerance of one
/// rate unit or more, they all are after legalization, the new machines
/// too.
pub proof fn law_legalized_in_step(
    recipes: Seq<Recipe>,
    plan: Plan,
    order: Seq<usize>,
    from: int,
    tolerance: Rate,
)
    requires
        rates_positive(recipes),
        plan.wf(recipes),
        0 <= from <= order.len(),
        well_wired(recipes, plan, order, from),
        tolerance >= 1,
        all_in_step(recipes, plan, tolerance),
        legalized_along(recipes, plan, order, from) is Ok,
    ensures
        all_in_step(recipes, legalized_along(recipes, plan, order, from).unwrap(), tolerance),
    decreases order.len() - from,
{
    if from < order.len() {
        let n = order[from] as int;
        let next = split(recipes, plan, n).unwrap();
        lemma_split_wf(recipes, plan, n);
        assert forall|x: int| in_step(recipes, next, x, tolerance) by {
            law_split_keeps_in_step(recipes, plan, n, tolerance, x);
        }
        law_legalized_in_step(recipes, next, order, from + 1, tolerance);
    }
}

} // verus!
