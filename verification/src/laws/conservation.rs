//! Flow conservation: what every recipe makes, over all its machines,
//! stays what it was.
use vstd::prelude::*;
use crate::catalog::Item;
use crate::catalog::Rate;
use crate::catalog::Recipe;
use crate::catalog::Station;
use crate::catalog::need;
use crate::catalog::rates_positive;
use crate::flow::Flow;
use crate::flow::Tally;
use crate::flow::lemma_sum_none;
use crate::flow::sum;
use crate::flow::total;
use crate::flow::total_out;
use crate::graph::Plan;
use crate::laws::legal::lemma_split_wf;
use crate::laws::split::copies;
use crate::laws::split::law_split_conserves_output;
use crate::laws::split::lemma_split_setting;
use crate::laws::split::lemma_split_sums;
use crate::laws::split::made_for;
use crate::laws::split::no_self_loop;
use crate::laws::split::overloaded;
use crate::laws::split::pieces;
use crate::legalize::capacity;
use crate::legalize::leaving;
use crate::legalize::legalized_along;
use crate::legalize::recipe_at;
use crate::legalize::split;
use crate::legalize::stripped;
use crate::lemmas::accounting::lemma_ascending_sum;
use crate::lemmas::accounting::lemma_leaving_source;
use crate::lemmas::accounting::lemma_sliced_sum;
use crate::lemmas::accounting::lemma_stripped_each;
use crate::lemmas::serving::output_from;
use crate::lemmas::upstream::lemma_owed_to_all_empty;
use crate::lemmas::upstream::lemma_owed_to_all_push;
use crate::lemmas::upstream::lemma_served_feeder;
use crate::lemmas::upstream::lemma_shares_add_up;
use crate::lemmas::upstream::owed_to_all;
use crate::rate::div_up;
use crate::slicing::each;
use crate::slicing::sliced;

verus! {

/// Node `n` is fed exactly what its output calls for: every flow into it
/// carries the full need of its item times the node's output over one
/// machine's capacity, rounded up once.
pub open spec fn tight(recipes: Seq<Recipe>, plan: Plan, n: int) -> bool {
    forall|i: int|
        0 <= i < plan.flows.len() && (#[trigger] plan.flows[i]).target == n ==> need(
            recipe_at(recipes, plan, n).inputs@,
            plan.flows[i].item,
        ) is Some && plan.flows[i].rate == div_up(
            need(recipe_at(recipes, plan, n).inputs@, plan.flows[i].item).unwrap() * total_out(
                plan.flows,
                n,
            ),
            capacity(recipes, plan, n) as int,
        )
}

/// Where every flow into the split node carries what the node's whole
/// output calls for, a node owes the machines, all together, what it sent
/// the node.
pub proof fn lemma_tight_owed(
    flows: Seq<Flow>,
    n: int,
    m: int,
    inputs: Seq<(Item, Rate)>,
    cap: Rate,
    stack: Seq<Flow>,
    reps: nat,
)
    requires
        cap > 0,
        total(stack) <= reps * cap,
        forall|i: int|
            0 <= i < flows.len() && (#[trigger] flows[i]).target == n ==> need(inputs, flows[i].item)
                is Some && flows[i].rate == div_up(
                need(inputs, flows[i].item).unwrap() * total(stack),
                cap as int,
            ),
    ensures
        owed_to_all(flows, n, m, inputs, cap, stack, reps) == sum(flows, Tally::Between(m, n)),
    decreases flows.len(),
{
    if flows.len() == 0 {
        lemma_owed_to_all_empty(n, m, inputs, cap, stack, reps);
        assert(flows =~= Seq::<Flow>::empty());
    } else {
        let f = flows.last();
        lemma_tight_owed(flows.drop_last(), n, m, inputs, cap, stack, reps);
        lemma_owed_to_all_push(flows.drop_last(), f, n, m, inputs, cap, stack, reps);
        assert(flows.drop_last().push(f) =~= flows);
        if f.target == n && f.source == m {
            lemma_shares_add_up(inputs, f.item, cap, stack, reps);
        }
    }
}

/// A split of a node that is fed exactly what its output calls for
/// changes what a node puts out only where the node is one of the
/// machines: the producers send the machines, all together, what they
/// sent the node.
pub proof fn law_split_keeps_producers(recipes: Seq<Recipe>, plan: Plan, n: int, m: int)
    requires
        rates_positive(recipes),
        plan.wf(recipes),
        no_self_loop(plan.flows, n),
        overloaded(recipes, plan, n) ==> tight(recipes, plan, n),
        split(recipes, plan, n) is Ok,
        !made_for(plan, split(recipes, plan, n).unwrap(), n, m),
    ensures
        total_out(split(recipes, plan, n).unwrap().flows, m) == total_out(plan.flows, m),
{
    if overloaded(recipes, plan, n) {
        lemma_split_setting(recipes, plan, n);
        lemma_split_wf(recipes, plan, n);
        let after = split(recipes, plan, n).unwrap();
        let reps = copies(recipes, plan, n);
        let cap = capacity(recipes, plan, n);
        let first_new = plan.stations.len() as int;
        let inputs = recipe_at(recipes, plan, n).inputs@;
        let s = stripped(plan.flows, n);
        let p = pieces(recipes, plan, n);
        if 0 <= m < first_new {
            lemma_served_feeder(inputs, cap, n, first_new, reps, s, p, 0, m);
            let fed = |f: Flow|
                f.target == n ==> need(inputs, f.item) is Some && f.rate == div_up(
                    need(inputs, f.item).unwrap() * total(p),
                    cap as int,
                );
            assert(each(plan.flows, fed));
            lemma_stripped_each(plan.flows, n, 0, fed);
            assert forall|i: int| 0 <= i < s.len() && (#[trigger] s[i]).target == n implies need(
                inputs,
                s[i].item,
            ) is Some && s[i].rate == div_up(need(inputs, s[i].item).unwrap() * total(p), cap as int) by {
                assert(fed(s[i]));
            }
            lemma_tight_owed(s, n, m, inputs, cap, p, reps as nat);
            lemma_split_sums(recipes, plan, n, Tally::Leaving(m));
            lemma_leaving_source(plan.flows, n, 0);
            lemma_sum_none(leaving(plan.flows, n), Tally::Leaving(m));
            lemma_ascending_sum(sliced(leaving(plan.flows, n), cap), Tally::Leaving(m));
            lemma_sliced_sum(leaving(plan.flows, n), cap, Tally::Leaving(m));
        } else {
            lemma_sum_none(after.flows, Tally::Leaving(m));
            lemma_sum_none(plan.flows, Tally::Leaving(m));
        }
    } else {
        lemma_split_wf(recipes, plan, n);
    }
}

/// What the machines below `upto` that run recipe `q` put out, all together.
pub open spec fn made(plan: Plan, q: int, upto: int) -> int
    decreases upto,
{
    if upto <= 0 {
        0
    } else {
        made(plan, q, upto - 1) + if plan.stations[upto - 1] == Station::Maker(q as usize) {
            total_out(plan.flows, upto - 1)
        } else {
            0
        }
    }
}

/// What all machines of the plan that run recipe `q` put out, all together.
pub open spec fn made_by(plan: Plan, q: int) -> int {
    made(plan, q, plan.stations.len() as int)
}

/// What the first `count` new machines put out, all together.
pub open spec fn new_output(flows: Seq<Flow>, first_new: int, count: int) -> int
    decreases count,
{
    if count <= 0 {
        0
    } else {
        new_output(flows, first_new, count - 1) + total_out(flows, first_new + count - 1)
    }
}

/// The machines of a split node are the new ones and the node itself.
pub proof fn lemma_output_from_new(flows: Seq<Flow>, n: int, first_new: int, reps: int, k: int)
    requires
        0 <= k <= reps - 1,
    ensures
        output_from(flows, n, first_new, reps, k) + new_output(flows, first_new, k) == new_output(
            flows,
            first_new,
            reps - 1,
        ) + total_out(flows, n),
    decreases reps - k,
{
    if k < reps - 1 {
        lemma_output_from_new(flows, n, first_new, reps, k + 1);
    } else {
        assert(output_from(flows, n, first_new, reps, k + 1) == 0);
    }
}

/// What the old nodes make after a split of a node that is fed exactly
/// what its output calls for: what they made, but for the change at the
/// split node.
pub proof fn lemma_made_by_old(recipes: Seq<Recipe>, plan: Plan, n: int, q: int, upto: int)
    requires
        rates_positive(recipes),
        plan.wf(recipes),
        overloaded(recipes, plan, n),
        no_self_loop(plan.flows, n),
        tight(recipes, plan, n),
        split(recipes, plan, n) is Ok,
        0 <= q <= usize::MAX,
        0 <= upto <= plan.stations.len(),
    ensures
        made(split(recipes, plan, n).unwrap(), q, upto) == made(plan, q, upto) + if n < upto
            && plan.stations[n] == Station::Maker(q as usize) {
            total_out(split(recipes, plan, n).unwrap().flows, n) - total_out(plan.flows, n)
        } else {
            0
        },
    decreases upto,
{
    if upto > 0 {
        lemma_made_by_old(recipes, plan, n, q, upto - 1);
        lemma_split_wf(recipes, plan, n);
        if upto - 1 != n {
            law_split_keeps_producers(recipes, plan, n, upto - 1);
        }
    }
}

/// What the new machines add to what their recipe makes.
pub proof fn lemma_made_by_new(recipes: Seq<Recipe>, plan: Plan, n: int, q: int, count: int)
    requires
        rates_positive(recipes),
        plan.wf(recipes),
        overloaded(recipes, plan, n),
        split(recipes, plan, n) is Ok,
        0 <= q <= usize::MAX,
        0 <= count <= split(recipes, plan, n).unwrap().stations.len() - plan.stations.len(),
    ensures
        made(split(recipes, plan, n).unwrap(), q, plan.stations.len() + count) == made(
            split(recipes, plan, n).unwrap(),
            q,
            plan.stations.len() as int,
        ) + if plan.stations[n] == Station::Maker(q as usize) {
            new_output(split(recipes, plan, n).unwrap().flows, plan.stations.len() as int, count)
        } else {
            0
        },
    decreases count,
{
    if count > 0 {
        lemma_made_by_new(recipes, plan, n, q, count - 1);
        lemma_split_wf(recipes, plan, n);
    }
}

/// A split of a node that is fed exactly what its output calls for
/// conserves flow: every recipe makes, over all its machines, what it made.
pub proof fn law_split_conserves_recipes(recipes: Seq<Recipe>, plan: Plan, n: int, q: int)
    requires
        rates_positive(recipes),
        plan.wf(recipes),
        no_self_loop(plan.flows, n),
        overloaded(recipes, plan, n) ==> tight(recipes, plan, n),
        split(recipes, plan, n) is Ok,
        0 <= q <= usize::MAX,
    ensures
        made_by(split(recipes, plan, n).unwrap(), q) == made_by(plan, q),
{
    lemma_split_wf(recipes, plan, n);
    if overloaded(recipes, plan, n) {
        lemma_split_setting(recipes, plan, n);
        let after = split(recipes, plan, n).unwrap();
        let reps = copies(recipes, plan, n);
        let first_new = plan.stations.len() as int;
        lemma_made_by_old(recipes, plan, n, q, first_new);
        lemma_made_by_new(recipes, plan, n, q, reps - 1);
        lemma_output_from_new(after.flows, n, first_new, reps, 0);
        law_split_conserves_output(recipes, plan, n);
    }
}

/// Whenever one of the nodes `order[from]`, `order[from + 1]`, ... is
/// split, no flow leaves it only to enter it again, and it is fed exactly
/// what its output calls for.
pub open spec fn steady(recipes: Seq<Recipe>, plan: Plan, order: Seq<usize>, from: int) -> bool
    decreases order.len() - from,
{
    if from < 0 || from >= order.len() {
        true
    } else {
        let n = order[from] as int;
        &&& overloaded(recipes, plan, n) ==> no_self_loop(plan.flows, n) && tight(recipes, plan, n)
        &&& match split(recipes, plan, n) {
            Err(_) => true,
            Ok(next) => steady(recipes, next, order, from + 1),
        }
    }
}

/// Flow conservation: where every node is fed exactly what its output
/// calls for when it is split, legalization leaves what every recipe
/// makes, over all its machines, what it was.
pub proof fn law_legalized_conserves(
    recipes: Seq<Recipe>,
    plan: Plan,
    order: Seq<usize>,
    from: int,
    q: int,
)
    requires
        rates_positive(recipes),
        plan.wf(recipes),
        0 <= from <= order.len(),
        steady(recipes, plan, order, from),
        legalized_along(recipes, plan, order, from) is Ok,
        0 <= q <= usize::MAX,
    ensures
        made_by(legalized_along(recipes, plan, order, from).unwrap(), q) == made_by(plan, q),
    decreases order.len() - from,
{
    if from < order.len() {
        let n = order[from] as int;
        let next = split(recipes, plan, n).unwrap();
        lemma_split_wf(recipes, plan, n);
        if overloaded(recipes, plan, n) {
            law_split_conserves_recipes(recipes, plan, n, q);
        }
        law_legalized_conserves(recipes, next, order, from + 1, q);
    }
}

/// Every machine of the plan is fed exactly what its output calls for.
pub open spec fn all_tight(recipes: Seq<Recipe>, plan: Plan) -> bool {
    forall|u: int|
        0 <= u < plan.stations.len() && plan.stations[u] is Maker ==> #[trigger] tight(recipes, plan, u)
}

/// A split of a node that is fed exactly what its output calls for
/// leaves every other node fed exactly what its output calls for, unless
/// the split node fed it.
pub proof fn lemma_split_keeps_tight(recipes: Seq<Recipe>, plan: Plan, n: int, u: int)
    requires
        rates_positive(recipes),
        plan.wf(recipes),
        no_self_loop(plan.flows, n),
        overloaded(recipes, plan, n) ==> tight(recipes, plan, n),
        split(recipes, plan, n) is Ok,
        0 <= u < plan.stations.len(),
        u != n,
        plan.stations[u] is Maker,
        tight(recipes, plan, u),
        crate::lemmas::machines::not_feeding(plan.flows, u, n),
    ensures
        tight(recipes, split(recipes, plan, n).unwrap(), u),
{
    lemma_split_wf(recipes, plan, n);
    if overloaded(recipes, plan, n) {
        lemma_split_setting(recipes, plan, n);
        let after = split(recipes, plan, n).unwrap();
        let reps = copies(recipes, plan, n);
        let cap = capacity(recipes, plan, n);
        let first_new = plan.stations.len() as int;
        let s = stripped(plan.flows, n);
        let p = pieces(recipes, plan, n);
        law_split_keeps_producers(recipes, plan, n, u);
        let inputs = recipe_at(recipes, plan, u).inputs@;
        let out = total_out(plan.flows, u);
        let ok = |g: Flow|
            g.target == u ==> need(inputs, g.item) is Some && g.rate == div_up(
                need(inputs, g.item).unwrap() * out,
                capacity(recipes, plan, u) as int,
            );
        let ok_piece = |q: Flow| q.target != u;
        assert(crate::lemmas::serving::carried_over(n, first_new, reps, ok, ok_piece));
        assert(each(plan.flows, ok));
        lemma_stripped_each(plan.flows, n, 0, ok);
        assert(crate::slicing::blind_to_rate(ok_piece));
        crate::legalize::lemma_leaving_each(plan.flows, n, 0, ok_piece);
        crate::slicing::lemma_sliced_each(leaving(plan.flows, n), cap, ok_piece);
        crate::slicing::lemma_ascending_each(sliced(leaving(plan.flows, n), cap), ok_piece);
        crate::lemmas::serving::lemma_served_each(
            recipe_at(recipes, plan, n).inputs@,
            cap,
            n,
            first_new,
            reps,
            s,
            p,
            0,
            ok,
            ok_piece,
        );
        assert forall|i: int| 0 <= i < after.flows.len() && (#[trigger] after.flows[i]).target
            == u implies need(recipe_at(recipes, after, u).inputs@, after.flows[i].item) is Some
            && after.flows[i].rate == div_up(
            need(recipe_at(recipes, after, u).inputs@, after.flows[i].item).unwrap() * total_out(
                after.flows,
                u,
            ),
            capacity(recipes, after, u) as int,
        ) by {
            assert(ok(after.flows[i]));
        }
    }
}

} // verus!
