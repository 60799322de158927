//! What shipping a machine's pieces and feeding it does to the flows.
use vstd::prelude::*;
use crate::catalog::Item;
use crate::catalog::Rate;
use crate::catalog::need;
use crate::flow::Flow;
use crate::flow::Tally;
use crate::flow::amount;
use crate::flow::count;
use crate::flow::counts;
use crate::flow::lemma_sum_concat;
use crate::flow::lemma_sum_push;
use crate::flow::lemma_sum_update;
use crate::flow::sum;
use crate::flow::total;
use crate::graph::PlanError;
use crate::legalize::nourished;
use crate::legalize::share;
use crate::legalize::shipped;

verus! {

/// The pieces `taken` as flows that leave node `inst`.
pub open spec fn sent(taken: Seq<Flow>, inst: int) -> Seq<Flow> {
    Seq::new(
        taken.len(),
        |i: int|
            Flow {
                source: inst as usize,
                target: taken[i].target,
                item: taken[i].item,
                rate: taken[i].rate,
            },
    )
}

/// The flows at index `from` and above that enter node `n`, highest index first.
pub open spec fn entering_from(flows: Seq<Flow>, n: int, from: int) -> Seq<Flow>
    decreases flows.len() - from,
{
    if from < 0 || from >= flows.len() {
        Seq::empty()
    } else if flows[from].target == n {
        entering_from(flows, n, from + 1).push(flows[from])
    } else {
        entering_from(flows, n, from + 1)
    }
}

/// The flow that feeds machine `inst` in place of the flow `f` into the
/// split node: from the same producer, at the rate that `amount` calls for.
pub open spec fn portion(
    f: Flow,
    inst: int,
    inputs: Seq<(Item, Rate)>,
    cap: Rate,
    amount: Rate,
) -> Flow {
    Flow {
        source: f.source,
        target: inst as usize,
        item: f.item,
        rate: share(inputs, f.item, amount, cap) as Rate,
    }
}

/// The flows that feed machine `inst`: one for each flow at index `from`
/// and above that enters node `n`, highest index first.
pub open spec fn portions_from(
    flows: Seq<Flow>,
    n: int,
    inst: int,
    inputs: Seq<(Item, Rate)>,
    cap: Rate,
    amount: Rate,
    from: int,
) -> Seq<Flow>
    decreases flows.len() - from,
{
    if from < 0 || from >= flows.len() {
        Seq::empty()
    } else if flows[from].target == n {
        portions_from(flows, n, inst, inputs, cap, amount, from + 1).push(
            portion(flows[from], inst, inputs, cap, amount),
        )
    } else {
        portions_from(flows, n, inst, inputs, cap, amount, from + 1)
    }
}

/// The number of flows at index `from` and above that carry `item` into node `n`.
pub open spec fn feeders_from(flows: Seq<Flow>, n: int, item: Item, from: int) -> nat
    decreases flows.len() - from,
{
    if from < 0 || from >= flows.len() {
        0
    } else if flows[from].target == n && flows[from].item == item {
        feeders_from(flows, n, item, from + 1) + 1
    } else {
        feeders_from(flows, n, item, from + 1)
    }
}

/// The number of flows that carry `item` into node `n`.
pub open spec fn feeders(flows: Seq<Flow>, n: int, item: Item) -> nat {
    feeders_from(flows, n, item, 0)
}

/// The number of feeders is the count of the flows that carry the item in.
pub proof fn lemma_feeders_count(flows: Seq<Flow>, n: int, item: Item, from: int)
    requires
        0 <= from <= flows.len(),
    ensures
        feeders_from(flows, n, item, from) == count(flows, Tally::Entering(n, item)) - count(
            flows.take(from),
            Tally::Entering(n, item),
        ),
    decreases flows.len() - from,
{
    if from < flows.len() {
        lemma_feeders_count(flows, n, item, from + 1);
        assert(flows.take(from + 1).drop_last() =~= flows.take(from));
    } else {
        assert(flows.take(from) =~= flows);
    }
}

/// Shipping appends the pieces as flows of the machine.
pub proof fn lemma_shipped_appends(flows: Seq<Flow>, inst: int, taken: Seq<Flow>)
    requires
        shipped(flows, inst, taken) is Ok,
    ensures
        shipped(flows, inst, taken) == Ok::<Seq<Flow>, PlanError>(flows + sent(taken, inst)),
    decreases taken.len(),
{
    if taken.len() == 0 {
        assert(flows + sent(taken, inst) =~= flows);
    } else {
        lemma_shipped_appends(flows, inst, taken.drop_last());
        assert((flows + sent(taken.drop_last(), inst)).push(sent(taken, inst).last()) =~= flows
            + sent(taken, inst));
    }
}

/// What the shipped pieces add to a sum that does not ask where a flow
/// comes from: what the pieces themselves add.
pub proof fn lemma_sent_sum(taken: Seq<Flow>, inst: int, tally: Tally)
    requires
        tally is Entering || tally is All,
    ensures
        sum(sent(taken, inst), tally) == sum(taken, tally),
    decreases taken.len(),
{
    if taken.len() > 0 {
        lemma_sent_sum(taken.drop_last(), inst, tally);
        assert(sent(taken, inst).drop_last() =~= sent(taken.drop_last(), inst));
    }
}

/// All that is shipped leaves the machine, and nothing of it leaves another node.
pub proof fn lemma_sent_leaves(taken: Seq<Flow>, inst: int, m: int)
    requires
        0 <= inst <= usize::MAX,
    ensures
        sum(sent(taken, inst), Tally::Leaving(m)) == if m == inst {
            total(taken)
        } else {
            0
        },
    decreases taken.len(),
{
    if taken.len() > 0 {
        lemma_sent_leaves(taken.drop_last(), inst, m);
        assert(sent(taken, inst).drop_last() =~= sent(taken.drop_last(), inst));
    }
}

/// Feeding a machine other than the split node appends its portions.
pub proof fn lemma_nourished_appends(
    flows: Seq<Flow>,
    n: int,
    inst: int,
    inputs: Seq<(Item, Rate)>,
    cap: Rate,
    amount: Rate,
    from: int,
)
    requires
        0 <= from <= flows.len(),
        inst != n,
        nourished(flows, n, inst, inputs, cap, amount, from) is Ok,
    ensures
        nourished(flows, n, inst, inputs, cap, amount, from) == Ok::<Seq<Flow>, PlanError>(
            flows + portions_from(flows, n, inst, inputs, cap, amount, from),
        ),
    decreases flows.len() - from,
{
    if from >= flows.len() {
        assert(flows + portions_from(flows, n, inst, inputs, cap, amount, from) =~= flows);
    } else {
        lemma_nourished_appends(flows, n, inst, inputs, cap, amount, from + 1);
        let above = portions_from(flows, n, inst, inputs, cap, amount, from + 1);
        if flows[from].target == n {
            assert((flows + above).push(portion(flows[from], inst, inputs, cap, amount)) =~= flows
                + above.push(portion(flows[from], inst, inputs, cap, amount)));
        }
    }
}

/// Feeding the split node itself changes the flows that enter it, in
/// place, into its portions.
pub proof fn lemma_nourished_in_place(
    flows: Seq<Flow>,
    n: int,
    inputs: Seq<(Item, Rate)>,
    cap: Rate,
    amount: Rate,
    from: int,
)
    requires
        0 <= from <= flows.len(),
        nourished(flows, n, n, inputs, cap, amount, from) is Ok,
    ensures
        nourished(flows, n, n, inputs, cap, amount, from).unwrap().len() == flows.len(),
        forall|i: int|
            0 <= i < flows.len() ==> #[trigger] nourished(
                flows,
                n,
                n,
                inputs,
                cap,
                amount,
                from,
            ).unwrap()[i] == if i >= from && flows[i].target == n {
                portion(flows[i], n, inputs, cap, amount)
            } else {
                flows[i]
            },
    decreases flows.len() - from,
{
    if from < flows.len() {
        lemma_nourished_in_place(flows, n, inputs, cap, amount, from + 1);
    }
}

/// What feeding a machine does to a sum: the portions come in, and where
/// the machine is the split node itself, the flows that entered it go out.
pub proof fn lemma_nourished_sum(
    flows: Seq<Flow>,
    n: int,
    inst: int,
    inputs: Seq<(Item, Rate)>,
    cap: Rate,
    amount: Rate,
    from: int,
    tally: Tally,
)
    requires
        0 <= from <= flows.len(),
        nourished(flows, n, inst, inputs, cap, amount, from) is Ok,
    ensures
        sum(nourished(flows, n, inst, inputs, cap, amount, from).unwrap(), tally) == sum(
            flows,
            tally,
        ) + sum(portions_from(flows, n, inst, inputs, cap, amount, from), tally) - if inst == n {
            sum(entering_from(flows, n, from), tally)
        } else {
            0
        },
    decreases flows.len() - from,
{
    if inst != n {
        lemma_nourished_appends(flows, n, inst, inputs, cap, amount, from);
        lemma_sum_concat(flows, portions_from(flows, n, inst, inputs, cap, amount, from), tally);
    } else if from < flows.len() {
        lemma_nourished_sum(flows, n, inst, inputs, cap, amount, from + 1, tally);
        let sofar = nourished(flows, n, inst, inputs, cap, amount, from + 1).unwrap();
        lemma_nourished_in_place(flows, n, inputs, cap, amount, from + 1);
        if flows[from].target == n {
            let p = portion(flows[from], n, inputs, cap, amount);
            assert(sofar[from] == flows[from]);
            lemma_sum_update(sofar, from, p, tally);
            lemma_sum_push(portions_from(flows, n, inst, inputs, cap, amount, from + 1), p, tally);
            lemma_sum_push(entering_from(flows, n, from + 1), flows[from], tally);
        }
    }
}

/// Where feeding succeeds, every portion fits the range of rate units.
pub proof fn lemma_nourished_fits(
    flows: Seq<Flow>,
    n: int,
    inst: int,
    inputs: Seq<(Item, Rate)>,
    cap: Rate,
    amount: Rate,
    from: int,
    i: int,
)
    requires
        cap > 0,
        0 <= from <= i < flows.len(),
        flows[i].target == n,
        nourished(flows, n, inst, inputs, cap, amount, from) is Ok,
    ensures
        0 <= share(inputs, flows[i].item, amount, cap) <= u64::MAX,
    decreases i - from,
{
    if from < i {
        lemma_nourished_fits(flows, n, inst, inputs, cap, amount, from + 1, i);
    } else {
        if need(inputs, flows[i].item) is Some {
            assert(0 <= amount * need(inputs, flows[i].item).unwrap()) by (nonlinear_arith)
                requires
                    0 <= amount,
                    0 <= need(inputs, flows[i].item).unwrap(),
            ;
            crate::rate::lemma_div_up(amount * need(inputs, flows[i].item).unwrap(), cap as int);
        }
    }
}

/// A node that feeds nothing to the split node gets no portion to send
/// and loses no flow.
pub proof fn lemma_portions_leave_others(
    flows: Seq<Flow>,
    n: int,
    inst: int,
    inputs: Seq<(Item, Rate)>,
    cap: Rate,
    amount: Rate,
    from: int,
    m: int,
)
    requires
        0 <= from <= flows.len(),
        forall|i: int| 0 <= i < flows.len() && (#[trigger] flows[i]).target == n ==> flows[i].source != m,
    ensures
        sum(portions_from(flows, n, inst, inputs, cap, amount, from), Tally::Leaving(m)) == 0,
        sum(entering_from(flows, n, from), Tally::Leaving(m)) == 0,
    decreases flows.len() - from,
{
    if from < flows.len() {
        lemma_portions_leave_others(flows, n, inst, inputs, cap, amount, from + 1, m);
        if flows[from].target == n {
            lemma_sum_push(
                portions_from(flows, n, inst, inputs, cap, amount, from + 1),
                portion(flows[from], inst, inputs, cap, amount),
                Tally::Leaving(m),
            );
            lemma_sum_push(entering_from(flows, n, from + 1), flows[from], Tally::Leaving(m));
        }
    }
}

/// Portions enter the machine only, and the flows they stand for enter
/// the split node only.
pub proof fn lemma_portions_enter_machine(
    flows: Seq<Flow>,
    n: int,
    inst: int,
    inputs: Seq<(Item, Rate)>,
    cap: Rate,
    amount: Rate,
    from: int,
    c: int,
    item: Item,
)
    requires
        0 <= from <= flows.len(),
        0 <= inst <= usize::MAX,
    ensures
        c != inst ==> sum(
            portions_from(flows, n, inst, inputs, cap, amount, from),
            Tally::Entering(c, item),
        ) == 0,
        c != n ==> sum(entering_from(flows, n, from), Tally::Entering(c, item)) == 0,
    decreases flows.len() - from,
{
    if from < flows.len() {
        lemma_portions_enter_machine(flows, n, inst, inputs, cap, amount, from + 1, c, item);
        if flows[from].target == n {
            lemma_sum_push(
                portions_from(flows, n, inst, inputs, cap, amount, from + 1),
                portion(flows[from], inst, inputs, cap, amount),
                Tally::Entering(c, item),
            );
            lemma_sum_push(entering_from(flows, n, from + 1), flows[from], Tally::Entering(c, item));
        }
    }
}

/// What a machine is fed of an item: its share, once for every flow that
/// carried the item into the split node.
pub proof fn lemma_portions_intake(
    flows: Seq<Flow>,
    n: int,
    inst: int,
    inputs: Seq<(Item, Rate)>,
    cap: Rate,
    amount: Rate,
    from: int,
    item: Item,
)
    requires
        cap > 0,
        0 <= from <= flows.len(),
        0 <= inst <= usize::MAX,
        nourished(flows, n, inst, inputs, cap, amount, from) is Ok,
    ensures
        sum(portions_from(flows, n, inst, inputs, cap, amount, from), Tally::Entering(inst, item))
            == feeders_from(flows, n, item, from) * share(inputs, item, amount, cap),
    decreases flows.len() - from,
{
    let s = share(inputs, item, amount, cap);
    if from < flows.len() {
        lemma_portions_intake(flows, n, inst, inputs, cap, amount, from + 1, item);
        let above = feeders_from(flows, n, item, from + 1);
        if flows[from].target == n {
            lemma_nourished_fits(flows, n, inst, inputs, cap, amount, from, from);
            lemma_sum_push(
                portions_from(flows, n, inst, inputs, cap, amount, from + 1),
                portion(flows[from], inst, inputs, cap, amount),
                Tally::Entering(inst, item),
            );
            if flows[from].item == item {
                assert((above + 1) * s == above * s + s) by (nonlinear_arith);
            }
        }
    } else {
        assert(0 * s == 0) by (nonlinear_arith);
    }
}

/// The flows that enter a node add up, in any sum that counts only such
/// flows, to what the whole list adds up to.
pub proof fn lemma_entering_sum(flows: Seq<Flow>, n: int, from: int, tally: Tally)
    requires
        0 <= from <= flows.len(),
        forall|f: Flow| counts(f, tally) ==> f.target == n,
    ensures
        sum(entering_from(flows, n, from), tally) == sum(flows, tally) - sum(
            flows.take(from),
            tally,
        ),
    decreases flows.len() - from,
{
    if from < flows.len() {
        lemma_entering_sum(flows, n, from + 1, tally);
        assert(flows.take(from + 1).drop_last() =~= flows.take(from));
        if flows[from].target == n {
            lemma_sum_push(entering_from(flows, n, from + 1), flows[from], tally);
        }
    } else {
        assert(flows.take(from) =~= flows);
    }
}

/// Flows that do not enter a node do not add to the number of its feeders.
pub proof fn lemma_feeders_concat(a: Seq<Flow>, b: Seq<Flow>, n: int, item: Item, from: int)
    requires
        0 <= from <= a.len(),
        forall|i: int| 0 <= i < b.len() ==> (#[trigger] b[i]).target != n,
    ensures
        feeders_from(a + b, n, item, from) == feeders_from(a, n, item, from),
    decreases a.len() + b.len() - from,
{
    let ab = a + b;
    if from < a.len() {
        lemma_feeders_concat(a, b, n, item, from + 1);
        assert(ab[from] == a[from]);
    } else {
        lemma_feeders_none(ab, n, item, from);
    }
}

/// Where no flow at `from` or above enters a node, it has no feeders there.
pub proof fn lemma_feeders_none(flows: Seq<Flow>, n: int, item: Item, from: int)
    requires
        0 <= from,
        forall|i: int| from <= i < flows.len() ==> (#[trigger] flows[i]).target != n,
    ensures
        feeders_from(flows, n, item, from) == 0,
    decreases flows.len() - from,
{
    if from < flows.len() {
        lemma_feeders_none(flows, n, item, from + 1);
    }
}

/// Lists that agree on where each flow goes and what it carries give a
/// node the same number of feeders.
pub proof fn lemma_feeders_same_routes(a: Seq<Flow>, b: Seq<Flow>, n: int, item: Item, from: int)
    requires
        0 <= from,
        a.len() == b.len(),
        forall|i: int|
            0 <= i < a.len() ==> (#[trigger] a[i]).target == b[i].target && a[i].item == b[i].item,
    ensures
        feeders_from(a, n, item, from) == feeders_from(b, n, item, from),
    decreases a.len() - from,
{
    if from < a.len() {
        lemma_feeders_same_routes(a, b, n, item, from + 1);
    }
}

/// Every portion stands for a flow that enters the split node.
pub proof fn lemma_portions_each(
    flows: Seq<Flow>,
    n: int,
    inst: int,
    inputs: Seq<(Item, Rate)>,
    cap: Rate,
    amount: Rate,
    from: int,
    ok: spec_fn(Flow) -> bool,
)
    requires
        0 <= from <= flows.len(),
        forall|i: int|
            0 <= i < flows.len() && (#[trigger] flows[i]).target == n ==> ok(
                portion(flows[i], inst, inputs, cap, amount),
            ),
    ensures
        forall|i: int|
            0 <= i < portions_from(flows, n, inst, inputs, cap, amount, from).len() ==> ok(
                #[trigger] portions_from(flows, n, inst, inputs, cap, amount, from)[i],
            ),
    decreases flows.len() - from,
{
    if from < flows.len() {
        lemma_portions_each(flows, n, inst, inputs, cap, amount, from + 1, ok);
        let above = portions_from(flows, n, inst, inputs, cap, amount, from + 1);
        let here = portions_from(flows, n, inst, inputs, cap, amount, from);
        assert forall|i: int| 0 <= i < here.len() implies ok(#[trigger] here[i]) by {
            if i < above.len() {
                assert(here[i] == above[i]);
            }
        }
    }
}

} // verus!
