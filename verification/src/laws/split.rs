//! What splitting a node promises.
use vstd::prelude::*;
use crate::catalog::Item;
use crate::catalog::Rate;
use crate::catalog::Recipe;
use crate::catalog::Station;
use crate::catalog::rates_positive;
use crate::flow::Flow;
use crate::flow::Tally;
use crate::flow::counts;
use crate::flow::lemma_sum_below_total;
use crate::flow::lemma_sum_none;
use crate::flow::lemma_sum_same;
use crate::flow::sum;
use crate::flow::total;
use crate::flow::total_in;
use crate::flow::total_out;
use crate::graph::INDEX_LIMIT;
use crate::graph::Plan;
use crate::legalize::capacity;
use crate::legalize::foreign;
use crate::legalize::instance;
use crate::legalize::leaving;
use crate::legalize::lemma_leaving_each;
use crate::legalize::recipe_at;
use crate::legalize::served;
use crate::legalize::share;
use crate::legalize::split;
use crate::legalize::stripped;
use crate::lemmas::accounting::lemma_ascending_sum;
use crate::lemmas::accounting::lemma_leaving_source;
use crate::lemmas::accounting::lemma_sliced_sizes;
use crate::lemmas::accounting::lemma_sliced_sum;
use crate::lemmas::accounting::lemma_stripped_clean;
use crate::lemmas::accounting::lemma_stripped_count;
use crate::lemmas::accounting::lemma_stripped_each;
use crate::lemmas::accounting::lemma_stripped_sum;
use crate::lemmas::feeding::feeders;
use crate::lemmas::feeding::lemma_feeders_count;
use crate::lemmas::machines::aimed_elsewhere;
use crate::lemmas::machines::fed_by_others;
use crate::lemmas::machines::not_feeding;
use crate::lemmas::serving::lemma_outputs_add_up;
use crate::lemmas::serving::lemma_rest_after_total;
use crate::lemmas::serving::lemma_served_intake;
use crate::lemmas::serving::lemma_served_intake_elsewhere;
use crate::lemmas::serving::lemma_served_keeps_output;
use crate::lemmas::serving::lemma_served_output;
use crate::lemmas::serving::rest_after;
use crate::lemmas::serving::splitting;
use crate::rate::lemma_div_up;
use crate::rate::machines;
use crate::slicing::ascending;
use crate::slicing::blind_to_rate;
use crate::slicing::each;
use crate::slicing::lemma_ascending_each;
use crate::slicing::lemma_sliced_each;
use crate::slicing::sliced;

verus! {

/// Node `n` is a machine that puts out more than one machine of its recipe can.
pub open spec fn overloaded(recipes: Seq<Recipe>, plan: Plan, n: int) -> bool {
    &&& 0 <= n < plan.stations.len()
    &&& plan.stations[n] is Maker
    &&& total_out(plan.flows, n) > capacity(recipes, plan, n)
}

/// No flow leaves node `n` only to enter it again.
pub open spec fn no_self_loop(flows: Seq<Flow>, n: int) -> bool {
    forall|i: int| 0 <= i < flows.len() ==> !((#[trigger] flows[i]).source == n && flows[i].target == n)
}

/// The number of machines that node `n` becomes.
pub open spec fn copies(recipes: Seq<Recipe>, plan: Plan, n: int) -> int {
    machines(total_out(plan.flows, n), capacity(recipes, plan, n))
}

/// The pieces that the machines of node `n` take from.
pub open spec fn pieces(recipes: Seq<Recipe>, plan: Plan, n: int) -> Seq<Flow> {
    ascending(sliced(leaving(plan.flows, n), capacity(recipes, plan, n)))
}

/// Node `x` is one of the machines that node `n` has become in `after`:
/// the node itself, or a node that the plan did not have.
pub open spec fn made_for(plan: Plan, after: Plan, n: int, x: int) -> bool {
    x == n || plan.stations.len() <= x < after.stations.len()
}

/// The common ground of the laws below: what a split of an overloaded
/// node is made of.
pub proof fn lemma_split_setting(recipes: Seq<Recipe>, plan: Plan, n: int)
    requires
        rates_positive(recipes),
        plan.wf(recipes),
        overloaded(recipes, plan, n),
        no_self_loop(plan.flows, n),
        split(recipes, plan, n) is Ok,
    ensures
        splitting(n, plan.stations.len() as int, copies(recipes, plan, n), capacity(recipes, plan, n)),
        copies(recipes, plan, n) >= 2,
        plan.stations.len() + copies(recipes, plan, n) - 1 <= INDEX_LIMIT,
        split(recipes, plan, n).unwrap().stations.len() == plan.stations.len() + copies(
            recipes,
            plan,
            n,
        ) - 1,
        forall|x: int|
            plan.stations.len() <= x < plan.stations.len() + copies(recipes, plan, n) - 1
                ==> #[trigger] split(recipes, plan, n).unwrap().stations[x] == plan.stations[n],
        forall|x: int|
            0 <= x < plan.stations.len() ==> #[trigger] split(recipes, plan, n).unwrap().stations[x]
                == plan.stations[x],
        served(
            recipe_at(recipes, plan, n).inputs@,
            capacity(recipes, plan, n),
            n,
            plan.stations.len() as int,
            copies(recipes, plan, n),
            stripped(plan.flows, n),
            pieces(recipes, plan, n),
            0,
        ) == Ok::<Seq<Flow>, crate::graph::PlanError>(split(recipes, plan, n).unwrap().flows),
        fed_by_others(stripped(plan.flows, n), n, plan.stations.len() as int),
        aimed_elsewhere(pieces(recipes, plan, n), n, plan.stations.len() as int),
        total(pieces(recipes, plan, n)) == total_out(plan.flows, n),
        total_out(plan.flows, n) <= copies(recipes, plan, n) * capacity(recipes, plan, n),
        !foreign(plan.flows, n, recipe_at(recipes, plan, n).inputs@),
        forall|i: int|
            0 <= i < stripped(plan.flows, n).len() ==> (#[trigger] stripped(plan.flows, n)[i]).source
                != n && stripped(plan.flows, n)[i].source < plan.stations.len() && stripped(
                plan.flows,
                n,
            )[i].target < plan.stations.len(),
        forall|i: int|
            0 <= i < pieces(recipes, plan, n).len() ==> (#[trigger] pieces(recipes, plan, n)[i]).rate
                > 0,
{
    let r = plan.stations[n]->Maker_0 as int;
    assert(plan.stations[n] == Station::Maker(r as usize));
    assert(r < recipes.len());
    let cap = capacity(recipes, plan, n);
    assert(recipes[r].output_rate > 0);
    let total_rate = total_out(plan.flows, n);
    let reps = copies(recipes, plan, n);
    let first_new = plan.stations.len() as int;
    lemma_div_up(total_rate, cap as int);
    assert(reps >= 2) by (nonlinear_arith)
        requires
            total_rate <= reps * cap,
            total_rate > cap,
            cap > 0,
    ;
    let after = split(recipes, plan, n).unwrap();
    let s = stripped(plan.flows, n);
    let out = leaving(plan.flows, n);
    let p = pieces(recipes, plan, n);
    // The flows that are left.
    let in_range = |f: Flow| f.source < first_new && f.target < first_new;
    assert(each(plan.flows, in_range));
    lemma_stripped_each(plan.flows, n, 0, in_range);
    lemma_stripped_clean(plan.flows, n, 0);
    let not_loop = |f: Flow| !(f.source == n && f.target == n);
    assert(each(plan.flows, not_loop));
    lemma_stripped_each(plan.flows, n, 0, not_loop);
    assert forall|i: int| 0 <= i < s.len() implies (#[trigger] s[i]).source != n && s[i].source
        < first_new && s[i].target < first_new by {
        assert(in_range(s[i]));
    }
    // The pieces.
    let aimed = |f: Flow| f.target < first_new && f.target != n;
    assert(blind_to_rate(aimed));
    lemma_leaving_each(plan.flows, n, 0, aimed);
    lemma_sliced_each(out, cap, aimed);
    lemma_ascending_each(sliced(out, cap), aimed);
    assert forall|i: int| 0 <= i < p.len() implies (#[trigger] p[i]).target < first_new && p[i].target
        != n by {
        assert(aimed(p[i]));
    }
    let full = |f: Flow| f.rate > 0;
    assert(each(sliced(out, cap), full)) by {
        assert forall|i: int| 0 <= i < sliced(out, cap).len() implies full(
            #[trigger] sliced(out, cap)[i],
        ) by {
            lemma_sliced_sizes(out, cap, i);
        }
    }
    lemma_ascending_each(sliced(out, cap), full);
    assert forall|i: int| 0 <= i < p.len() implies (#[trigger] p[i]).rate > 0 by {
        assert(full(p[i]));
    }
    // The sums.
    lemma_ascending_sum(sliced(out, cap), Tally::All);
    lemma_sliced_sum(out, cap, Tally::All);
    lemma_leaving_source(plan.flows, n, 0);
    lemma_sum_same(out, Tally::All, Tally::Leaving(n));
    lemma_stripped_sum(plan.flows, n, 0, Tally::Leaving(n));
    lemma_sum_none(s, Tally::Leaving(n));
    assert(after.stations =~= plan.stations + Seq::new(
        (reps - 1) as nat,
        |k: int| Station::Maker(r as usize),
    ));
}

/// Cutting and sorting the flows that leave a node changes no sum: the
/// flows that stay and the pieces add up to the flows of the plan.
pub proof fn lemma_split_sums(recipes: Seq<Recipe>, plan: Plan, n: int, tally: Tally)
    ensures
        sum(stripped(plan.flows, n), tally) + sum(pieces(recipes, plan, n), tally) == sum(
            plan.flows,
            tally,
        ),
{
    let cap = capacity(recipes, plan, n);
    let out = leaving(plan.flows, n);
    lemma_ascending_sum(sliced(out, cap), tally);
    lemma_sliced_sum(out, cap, tally);
    lemma_stripped_sum(plan.flows, n, 0, tally);
}

/// Nothing is left on the stack once all machines of a split are served.
pub proof fn lemma_split_leaves_nothing(recipes: Seq<Recipe>, plan: Plan, n: int, tally: Tally)
    requires
        rates_positive(recipes),
        plan.wf(recipes),
        overloaded(recipes, plan, n),
        no_self_loop(plan.flows, n),
        split(recipes, plan, n) is Ok,
    ensures
        sum(
            rest_after(
                pieces(recipes, plan, n),
                capacity(recipes, plan, n),
                copies(recipes, plan, n) as nat,
            ),
            tally,
        ) == 0,
{
    lemma_split_setting(recipes, plan, n);
    let reps = copies(recipes, plan, n);
    let cap = capacity(recipes, plan, n);
    let left = rest_after(pieces(recipes, plan, n), cap, reps as nat);
    lemma_rest_after_total(pieces(recipes, plan, n), cap, reps as nat);
    lemma_sum_below_total(left, tally);
}

/// After a split, no machine of the split node puts out more than one
/// machine can.
pub proof fn law_split_within_capacity(recipes: Seq<Recipe>, plan: Plan, n: int, x: int)
    requires
        rates_positive(recipes),
        plan.wf(recipes),
        0 <= n < plan.stations.len(),
        plan.stations[n] is Maker,
        no_self_loop(plan.flows, n),
        split(recipes, plan, n) is Ok,
        made_for(plan, split(recipes, plan, n).unwrap(), n, x),
    ensures
        total_out(split(recipes, plan, n).unwrap().flows, x) <= capacity(recipes, plan, n),
{
    if overloaded(recipes, plan, n) {
        lemma_split_setting(recipes, plan, n);
        let reps = copies(recipes, plan, n);
        let cap = capacity(recipes, plan, n);
        let first_new = plan.stations.len() as int;
        let j = if x == n {
            reps - 1
        } else {
            x - first_new
        };
        assert(instance(n, first_new, reps, j) == x);
        lemma_served_output(
            recipe_at(recipes, plan, n).inputs@,
            cap,
            n,
            first_new,
            reps,
            stripped(plan.flows, n),
            pieces(recipes, plan, n),
            0,
            j,
        );
        lemma_sum_none(stripped(plan.flows, n), Tally::Leaving(x));
        crate::slicing::lemma_filled_room(rest_after(pieces(recipes, plan, n), cap, j as nat), cap);
    }
}

/// The machine number of node `x` among the machines of node `n`.
pub open spec fn number_of(plan: Plan, reps: int, n: int, x: int) -> int {
    if x == n {
        reps - 1
    } else {
        x - plan.stations.len()
    }
}

/// A split changes what a node takes in only where the node is one of the
/// machines: every customer of the split node gets what it got.
pub proof fn law_split_keeps_intake(recipes: Seq<Recipe>, plan: Plan, n: int, x: int, item: Item)
    requires
        rates_positive(recipes),
        plan.wf(recipes),
        no_self_loop(plan.flows, n),
        split(recipes, plan, n) is Ok,
        !made_for(plan, split(recipes, plan, n).unwrap(), n, x),
    ensures
        total_in(split(recipes, plan, n).unwrap().flows, x, item) == total_in(plan.flows, x, item),
{
    if overloaded(recipes, plan, n) {
        lemma_split_setting(recipes, plan, n);
        let reps = copies(recipes, plan, n);
        let cap = capacity(recipes, plan, n);
        let first_new = plan.stations.len() as int;
        assert forall|j: int| 0 <= j < reps implies #[trigger] instance(n, first_new, reps, j) != x by {}
        lemma_served_intake_elsewhere(
            recipe_at(recipes, plan, n).inputs@,
            cap,
            n,
            first_new,
            reps,
            stripped(plan.flows, n),
            pieces(recipes, plan, n),
            0,
            x,
            item,
        );
        lemma_split_sums(recipes, plan, n, Tally::Entering(x, item));
        lemma_split_leaves_nothing(recipes, plan, n, Tally::Entering(x, item));
    }
}

/// A split changes what a node puts out only where the node is one of
/// the machines or feeds the split node.
pub proof fn law_split_keeps_output(recipes: Seq<Recipe>, plan: Plan, n: int, m: int)
    requires
        rates_positive(recipes),
        plan.wf(recipes),
        no_self_loop(plan.flows, n),
        split(recipes, plan, n) is Ok,
        !made_for(plan, split(recipes, plan, n).unwrap(), n, m),
        not_feeding(plan.flows, n, m),
    ensures
        total_out(split(recipes, plan, n).unwrap().flows, m) == total_out(plan.flows, m),
{
    if overloaded(recipes, plan, n) {
        lemma_split_setting(recipes, plan, n);
        let reps = copies(recipes, plan, n);
        let cap = capacity(recipes, plan, n);
        let first_new = plan.stations.len() as int;
        let s = stripped(plan.flows, n);
        assert forall|j: int| 0 <= j < reps implies #[trigger] instance(n, first_new, reps, j) != m by {}
        assert(not_feeding(s, n, m)) by {
            let ok = |f: Flow| f.target == n ==> f.source != m;
            assert(each(plan.flows, ok));
            lemma_stripped_each(plan.flows, n, 0, ok);
            assert forall|i: int| 0 <= i < s.len() && (#[trigger] s[i]).target == n implies s[i].source
                != m by {
                assert(ok(s[i]));
            }
        }
        lemma_served_keeps_output(
            recipe_at(recipes, plan, n).inputs@,
            cap,
            n,
            first_new,
            reps,
            s,
            pieces(recipes, plan, n),
            0,
            m,
        );
        lemma_split_sums(recipes, plan, n, Tally::Leaving(m));
        lemma_leaving_source(plan.flows, n, 0);
        lemma_sum_none(leaving(plan.flows, n), Tally::Leaving(m));
        lemma_ascending_sum(sliced(leaving(plan.flows, n), cap), Tally::Leaving(m));
        lemma_sliced_sum(leaving(plan.flows, n), cap, Tally::Leaving(m));
    }
}

/// After a split, every machine of the split node is fed, of each item,
/// the share that its output calls for, once by every flow that carried
/// the item into the node: all its inputs are fed for the same output.
pub proof fn law_split_feeds_machines(recipes: Seq<Recipe>, plan: Plan, n: int, x: int, item: Item)
    requires
        rates_positive(recipes),
        plan.wf(recipes),
        overloaded(recipes, plan, n),
        no_self_loop(plan.flows, n),
        split(recipes, plan, n) is Ok,
        made_for(plan, split(recipes, plan, n).unwrap(), n, x),
    ensures
        0 <= total_out(split(recipes, plan, n).unwrap().flows, x) <= capacity(recipes, plan, n),
        total_in(split(recipes, plan, n).unwrap().flows, x, item) == feeders(plan.flows, n, item)
            * share(
            recipe_at(recipes, plan, n).inputs@,
            item,
            total_out(split(recipes, plan, n).unwrap().flows, x) as Rate,
            capacity(recipes, plan, n),
        ),
{
    lemma_split_setting(recipes, plan, n);
    let reps = copies(recipes, plan, n);
    let cap = capacity(recipes, plan, n);
    let first_new = plan.stations.len() as int;
    let s = stripped(plan.flows, n);
    let p = pieces(recipes, plan, n);
    let inputs = recipe_at(recipes, plan, n).inputs@;
    let j = number_of(plan, reps, n, x);
    assert(instance(n, first_new, reps, j) == x);
    lemma_served_output(inputs, cap, n, first_new, reps, s, p, 0, j);
    lemma_sum_none(s, Tally::Leaving(x));
    crate::slicing::lemma_filled_room(rest_after(p, cap, j as nat), cap);
    lemma_served_intake(inputs, cap, n, first_new, reps, s, p, 0, j, item);
    if x != n {
        lemma_sum_none(s, Tally::Entering(x, item));
    }
    lemma_feeders_count(s, n, item, 0);
    lemma_feeders_count(plan.flows, n, item, 0);
    assert(s.take(0) =~= Seq::<Flow>::empty());
    assert(plan.flows.take(0) =~= Seq::<Flow>::empty());
    lemma_stripped_count(plan.flows, n, 0, Tally::Entering(n, item));
}

/// What the machines of node `n` put out in `after`, all together.
pub open spec fn output_of_machines(recipes: Seq<Recipe>, plan: Plan, after: Plan, n: int) -> int {
    crate::lemmas::serving::output_from(
        after.flows,
        n,
        plan.stations.len() as int,
        copies(recipes, plan, n),
        0,
    )
}

/// A split conserves flow: the machines of the split node put out, all
/// together, what the node put out.
pub proof fn law_split_conserves_output(recipes: Seq<Recipe>, plan: Plan, n: int)
    requires
        rates_positive(recipes),
        plan.wf(recipes),
        overloaded(recipes, plan, n),
        no_self_loop(plan.flows, n),
        split(recipes, plan, n) is Ok,
    ensures
        output_of_machines(recipes, plan, split(recipes, plan, n).unwrap(), n) == total_out(
            plan.flows,
            n,
        ),
{
    lemma_split_setting(recipes, plan, n);
    let reps = copies(recipes, plan, n);
    let cap = capacity(recipes, plan, n);
    let first_new = plan.stations.len() as int;
    let s = stripped(plan.flows, n);
    let p = pieces(recipes, plan, n);
    assert forall|j: int| 0 <= j < reps implies total_out(s, #[trigger] instance(n, first_new, reps, j))
        == 0 by {
        lemma_sum_none(s, Tally::Leaving(instance(n, first_new, reps, j)));
    }
    crate::lemmas::serving::lemma_served_outputs(
        recipe_at(recipes, plan, n).inputs@,
        cap,
        n,
        first_new,
        reps,
        s,
        p,
        0,
    );
    lemma_outputs_add_up(p, cap, reps as nat);
    lemma_rest_after_total(p, cap, reps as nat);
}

/// A split changes how many flows carry an item into a node only where
/// the node is one of the machines or was fed by the split node.
pub proof fn lemma_split_keeps_feeders(recipes: Seq<Recipe>, plan: Plan, n: int, u: int, item: Item)
    requires
        rates_positive(recipes),
        plan.wf(recipes),
        no_self_loop(plan.flows, n),
        split(recipes, plan, n) is Ok,
        !made_for(plan, split(recipes, plan, n).unwrap(), n, u),
        not_feeding(plan.flows, u, n),
    ensures
        feeders(split(recipes, plan, n).unwrap().flows, u, item) == feeders(plan.flows, u, item),
{
    if overloaded(recipes, plan, n) {
        lemma_split_setting(recipes, plan, n);
        let after = split(recipes, plan, n).unwrap();
        let reps = copies(recipes, plan, n);
        let cap = capacity(recipes, plan, n);
        let first_new = plan.stations.len() as int;
        let s = stripped(plan.flows, n);
        let p = pieces(recipes, plan, n);
        let tally = Tally::Entering(u, item);
        let apart = |f: Flow| !counts(f, tally);
        assert(blind_to_rate(apart));
        lemma_leaving_each(plan.flows, n, 0, apart);
        lemma_sliced_each(leaving(plan.flows, n), cap, apart);
        lemma_ascending_each(sliced(leaving(plan.flows, n), cap), apart);
        assert forall|i: int| 0 <= i < p.len() implies !counts(#[trigger] p[i], tally) by {
            assert(apart(p[i]));
        }
        crate::lemmas::serving::lemma_served_feeders_elsewhere(
            recipe_at(recipes, plan, n).inputs@,
            cap,
            n,
            first_new,
            reps,
            s,
            p,
            0,
            u,
            item,
        );
        lemma_stripped_count(plan.flows, n, 0, tally);
        lemma_feeders_count(after.flows, u, item, 0);
        lemma_feeders_count(plan.flows, u, item, 0);
        assert(after.flows.take(0) =~= Seq::<Flow>::empty());
        assert(plan.flows.take(0) =~= Seq::<Flow>::empty());
    }
}

} // verus!
