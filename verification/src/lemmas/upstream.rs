//! What a split does to the nodes that feed the split node.
use vstd::prelude::*;
use crate::catalog::Item;
use crate::catalog::Rate;
use crate::catalog::need;
use crate::flow::Flow;
use crate::flow::Tally;
use crate::flow::lemma_sum_below_total;
use crate::flow::lemma_sum_concat;
use crate::flow::lemma_sum_push;
use crate::flow::lemma_sum_same;
use crate::flow::sum;
use crate::flow::total;
use crate::flow::total_out;
use crate::legalize::equipped;
use crate::legalize::instance;
use crate::legalize::nourished;
use crate::legalize::served;
use crate::legalize::share;
use crate::lemmas::accounting::lemma_filled_sum;
use crate::lemmas::accounting::lemma_filled_takes;
use crate::lemmas::feeding::entering_from;
use crate::lemmas::feeding::lemma_entering_sum;
use crate::lemmas::feeding::lemma_nourished_appends;
use crate::lemmas::feeding::lemma_nourished_fits;
use crate::lemmas::feeding::lemma_nourished_sum;
use crate::lemmas::feeding::lemma_sent_leaves;
use crate::lemmas::feeding::portion;
use crate::lemmas::feeding::portions_from;
use crate::lemmas::feeding::sent;
use crate::lemmas::machines::aimed_elsewhere;
use crate::lemmas::machines::fed_by_others;
use crate::lemmas::machines::is_machine;
use crate::lemmas::machines::lemma_equipped_unfolds;
use crate::lemmas::machines::lemma_portions_target;
use crate::lemmas::machines::lemma_with_pieces_ready;
use crate::lemmas::machines::taking;
use crate::lemmas::machines::with_pieces;
use crate::lemmas::serving::lemma_served_step;
use crate::lemmas::serving::splitting;
use crate::rate::div_up;
use crate::rate::lemma_div_up_shift;
use crate::rate::lemma_scaled_ends;
use crate::slicing::filled;
use crate::slicing::lemma_filled_room;

verus! {

/// What node `m` owes a machine that puts out `amount`: for each flow
/// from `m` into the split node `n`, the machine's share of its item.
pub open spec fn owed(
    flows: Seq<Flow>,
    n: int,
    m: int,
    inputs: Seq<(Item, Rate)>,
    cap: Rate,
    amount: Rate,
) -> int
    decreases flows.len(),
{
    if flows.len() == 0 {
        0
    } else {
        owed(flows.drop_last(), n, m, inputs, cap, amount) + if flows.last().target == n
            && flows.last().source == m {
            share(inputs, flows.last().item, amount, cap)
        } else {
            0
        }
    }
}

/// What node `m` owes the next `upto` machines, all together.
pub open spec fn owed_to_all(
    flows: Seq<Flow>,
    n: int,
    m: int,
    inputs: Seq<(Item, Rate)>,
    cap: Rate,
    stack: Seq<Flow>,
    upto: nat,
) -> int
    decreases upto,
{
    if upto == 0 {
        0
    } else {
        owed(flows, n, m, inputs, cap, taking(stack, cap)) + owed_to_all(
            flows,
            n,
            m,
            inputs,
            cap,
            filled(stack, cap).rest,
            (upto - 1) as nat,
        )
    }
}

/// What the next `upto` machines need of `item`, all together.
pub open spec fn shares_of_all(
    inputs: Seq<(Item, Rate)>,
    item: Item,
    cap: Rate,
    stack: Seq<Flow>,
    upto: nat,
) -> int
    decreases upto,
{
    if upto == 0 {
        0
    } else {
        share(inputs, item, taking(stack, cap), cap) + shares_of_all(
            inputs,
            item,
            cap,
            filled(stack, cap).rest,
            (upto - 1) as nat,
        )
    }
}

/// What the portions of a machine make node `m` send is what `m` owes it.
pub proof fn lemma_portions_owed(
    flows: Seq<Flow>,
    n: int,
    inst: int,
    inputs: Seq<(Item, Rate)>,
    cap: Rate,
    amount: Rate,
    from: int,
    m: int,
)
    requires
        cap > 0,
        0 <= from <= flows.len(),
        nourished(flows, n, inst, inputs, cap, amount, from) is Ok,
    ensures
        sum(portions_from(flows, n, inst, inputs, cap, amount, from), Tally::Leaving(m)) == owed(
            flows,
            n,
            m,
            inputs,
            cap,
            amount,
        ) - owed(flows.take(from), n, m, inputs, cap, amount),
    decreases flows.len() - from,
{
    if from < flows.len() {
        lemma_portions_owed(flows, n, inst, inputs, cap, amount, from + 1, m);
        assert(flows.take(from + 1).drop_last() =~= flows.take(from));
        if flows[from].target == n {
            lemma_nourished_fits(flows, n, inst, inputs, cap, amount, from, from);
            lemma_sum_push(
                portions_from(flows, n, inst, inputs, cap, amount, from + 1),
                portion(flows[from], inst, inputs, cap, amount),
                Tally::Leaving(m),
            );
        }
    } else {
        assert(flows.take(from) =~= flows);
    }
}

/// Flows that do not enter the split node add nothing to what is owed.
pub proof fn lemma_owed_concat(
    a: Seq<Flow>,
    b: Seq<Flow>,
    n: int,
    m: int,
    inputs: Seq<(Item, Rate)>,
    cap: Rate,
    amount: Rate,
)
    requires
        forall|i: int| 0 <= i < b.len() ==> (#[trigger] b[i]).target != n,
    ensures
        owed(a + b, n, m, inputs, cap, amount) == owed(a, n, m, inputs, cap, amount),
    decreases b.len(),
{
    if b.len() == 0 {
        assert(a + b =~= a);
    } else {
        lemma_owed_concat(a, b.drop_last(), n, m, inputs, cap, amount);
        assert((a + b).drop_last() =~= a + b.drop_last());
    }
}

/// What is owed to all machines, flow by flow: a flow from `m` into the
/// split node adds the shares of its item.
pub proof fn lemma_owed_to_all_push(
    flows: Seq<Flow>,
    f: Flow,
    n: int,
    m: int,
    inputs: Seq<(Item, Rate)>,
    cap: Rate,
    stack: Seq<Flow>,
    upto: nat,
)
    ensures
        owed_to_all(flows.push(f), n, m, inputs, cap, stack, upto) == owed_to_all(
            flows,
            n,
            m,
            inputs,
            cap,
            stack,
            upto,
        ) + if f.target == n && f.source == m {
            shares_of_all(inputs, f.item, cap, stack, upto)
        } else {
            0
        },
    decreases upto,
{
    if upto > 0 {
        lemma_owed_to_all_push(flows, f, n, m, inputs, cap, filled(stack, cap).rest, (upto - 1) as nat);
        assert(flows.push(f).drop_last() =~= flows);
    }
}

/// Nothing is owed where no flow is.
pub proof fn lemma_owed_to_all_empty(
    n: int,
    m: int,
    inputs: Seq<(Item, Rate)>,
    cap: Rate,
    stack: Seq<Flow>,
    upto: nat,
)
    ensures
        owed_to_all(Seq::empty(), n, m, inputs, cap, stack, upto) == 0,
    decreases upto,
{
    if upto > 0 {
        lemma_owed_to_all_empty(n, m, inputs, cap, filled(stack, cap).rest, (upto - 1) as nat);
    }
}

/// What the machines need of an item, all together, is what one machine
/// would need that put out all that they take: the rounding is done once.
pub proof fn lemma_shares_add_up(
    inputs: Seq<(Item, Rate)>,
    item: Item,
    cap: Rate,
    stack: Seq<Flow>,
    upto: nat,
)
    requires
        cap > 0,
        need(inputs, item) is Some,
    ensures
        shares_of_all(inputs, item, cap, stack, upto) == div_up(
            need(inputs, item).unwrap() * (if total(stack) <= upto * cap {
                total(stack)
            } else {
                upto * cap
            }),
            cap as int,
        ),
    decreases upto,
{
    let full = need(inputs, item).unwrap();
    lemma_sum_below_total(stack, Tally::All);
    if upto == 0 {
        assert(0 * cap == 0) by (nonlinear_arith);
        assert(full * 0 == 0) by (nonlinear_arith);
    } else {
        let rest = filled(stack, cap).rest;
        lemma_filled_takes(stack, cap);
        lemma_filled_sum(stack, cap, Tally::All);
        lemma_filled_room(stack, cap);
        lemma_shares_add_up(inputs, item, cap, rest, (upto - 1) as nat);
        lemma_sum_below_total(rest, Tally::All);
        lemma_scaled_ends(full, cap);
        assert(upto * cap == (upto - 1) * cap + cap) by (nonlinear_arith);
        assert(0 <= (upto - 1) * cap) by (nonlinear_arith)
            requires
                upto >= 1,
                cap > 0,
        ;
        if total(stack) <= cap {
            assert(total(rest) == 0);
            assert(full * 0 == 0) by (nonlinear_arith);
            assert(taking(stack, cap) * full == full * total(stack)) by (nonlinear_arith)
                requires
                    taking(stack, cap) == total(stack),
            ;
        } else {
            let left = if total(rest) <= (upto - 1) * cap {
                total(rest)
            } else {
                (upto - 1) * cap
            };
            assert(0 <= full * left) by (nonlinear_arith)
                requires
                    0 <= full,
                    0 <= left,
            ;
            lemma_div_up_shift(full * left, full as int, cap as int);
            assert(full * (left + cap) == full * left + full * cap) by (nonlinear_arith);
        }
    }
}

/// Equipping a machine makes a node that is no machine send what it owes
/// the machine; where the machine is the split node itself, in place of
/// what it sent the node.
pub proof fn lemma_equipped_feeder(
    inputs: Seq<(Item, Rate)>,
    cap: Rate,
    n: int,
    first_new: int,
    inst: int,
    flows: Seq<Flow>,
    stack: Seq<Flow>,
    m: int,
    later: Rate,
)
    requires
        cap > 0,
        is_machine(n, first_new, inst),
        0 <= m < first_new,
        m != n,
        fed_by_others(flows, n, first_new),
        aimed_elsewhere(stack, n, first_new),
        equipped(inputs, cap, n, inst, flows, stack) is Ok,
    ensures
        total_out(equipped(inputs, cap, n, inst, flows, stack).unwrap(), m) == total_out(flows, m)
            + owed(flows, n, m, inputs, cap, taking(stack, cap)) - if inst == n {
            sum(flows, Tally::Between(m, n))
        } else {
            0
        },
        inst != n ==> owed(
            equipped(inputs, cap, n, inst, flows, stack).unwrap(),
            n,
            m,
            inputs,
            cap,
            later,
        ) == owed(flows, n, m, inputs, cap, later),
        inst != n ==> sum(
            equipped(inputs, cap, n, inst, flows, stack).unwrap(),
            Tally::Between(m, n),
        ) == sum(flows, Tally::Between(m, n)),
{
    lemma_equipped_unfolds(inputs, cap, n, inst, flows, stack);
    lemma_with_pieces_ready(flows, stack, cap, n, first_new, inst);
    let w = with_pieces(flows, inst, stack, cap);
    let amount = taking(stack, cap);
    let taken = filled(stack, cap).taken;
    let next = equipped(inputs, cap, n, inst, flows, stack).unwrap();
    lemma_sum_concat(flows, sent(taken, inst), Tally::Leaving(m));
    lemma_sent_leaves(taken, inst, m);
    lemma_nourished_sum(w, n, inst, inputs, cap, amount, 0, Tally::Leaving(m));
    lemma_portions_owed(w, n, inst, inputs, cap, amount, 0, m);
    assert(w.take(0) =~= Seq::<Flow>::empty());
    lemma_owed_concat(flows, sent(taken, inst), n, m, inputs, cap, amount);
    lemma_owed_concat(flows, sent(taken, inst), n, m, inputs, cap, later);
    lemma_sum_concat(flows, sent(taken, inst), Tally::Between(m, n));
    crate::flow::lemma_sum_none(sent(taken, inst), Tally::Between(m, n));
    if inst == n {
        lemma_entering_target(w, n, 0);
        lemma_sum_same(entering_from(w, n, 0), Tally::Leaving(m), Tally::Between(m, n));
        lemma_entering_sum(w, n, 0, Tally::Between(m, n));
    } else {
        lemma_nourished_appends(w, n, inst, inputs, cap, amount, 0);
        let extra = portions_from(w, n, inst, inputs, cap, amount, 0);
        lemma_portions_target(w, n, inst, inputs, cap, amount, 0);
        lemma_owed_concat(w, extra, n, m, inputs, cap, later);
        lemma_sum_concat(w, extra, Tally::Between(m, n));
        crate::flow::lemma_sum_none(extra, Tally::Between(m, n));
    }
}

/// The flows that enter a node do enter it.
pub proof fn lemma_entering_target(flows: Seq<Flow>, n: int, from: int)
    ensures
        forall|i: int|
            0 <= i < entering_from(flows, n, from).len() ==> (#[trigger] entering_from(flows, n, from)[i]).target
                == n,
    decreases flows.len() - from,
{
    if 0 <= from < flows.len() {
        lemma_entering_target(flows, n, from + 1);
    }
}

/// Once the machines number `k` and above are served, a node that is no
/// machine sends what it owes them, in place of what it sent the split node.
pub proof fn lemma_served_feeder(
    inputs: Seq<(Item, Rate)>,
    cap: Rate,
    n: int,
    first_new: int,
    reps: int,
    flows: Seq<Flow>,
    stack: Seq<Flow>,
    k: int,
    m: int,
)
    requires
        splitting(n, first_new, reps, cap),
        0 <= k < reps,
        0 <= m < first_new,
        m != n,
        fed_by_others(flows, n, first_new),
        aimed_elsewhere(stack, n, first_new),
        served(inputs, cap, n, first_new, reps, flows, stack, k) is Ok,
    ensures
        total_out(served(inputs, cap, n, first_new, reps, flows, stack, k).unwrap(), m) == total_out(
            flows,
            m,
        ) + owed_to_all(flows, n, m, inputs, cap, stack, (reps - k) as nat) - sum(
            flows,
            Tally::Between(m, n),
        ),
    decreases reps - k,
{
    let inst = instance(n, first_new, reps, k);
    lemma_served_step(inputs, cap, n, first_new, reps, flows, stack, k);
    let next = equipped(inputs, cap, n, inst, flows, stack).unwrap();
    let rest = filled(stack, cap).rest;
    lemma_equipped_feeder(inputs, cap, n, first_new, inst, flows, stack, m, 0);
    if k + 1 < reps {
        lemma_served_feeder(inputs, cap, n, first_new, reps, next, rest, k + 1, m);
        lemma_owed_to_all_same(inputs, cap, n, first_new, inst, flows, stack, m, rest, (reps - k - 1) as nat);
    } else {
        assert(owed_to_all(flows, n, m, inputs, cap, rest, 0) == 0);
    }
}

/// Equipping a new machine changes nothing in what a node owes the
/// machines that follow.
pub proof fn lemma_owed_to_all_same(
    inputs: Seq<(Item, Rate)>,
    cap: Rate,
    n: int,
    first_new: int,
    inst: int,
    flows: Seq<Flow>,
    stack: Seq<Flow>,
    m: int,
    later: Seq<Flow>,
    upto: nat,
)
    requires
        cap > 0,
        is_machine(n, first_new, inst),
        inst != n,
        0 <= m < first_new,
        m != n,
        fed_by_others(flows, n, first_new),
        aimed_elsewhere(stack, n, first_new),
        equipped(inputs, cap, n, inst, flows, stack) is Ok,
    ensures
        owed_to_all(
            equipped(inputs, cap, n, inst, flows, stack).unwrap(),
            n,
            m,
            inputs,
            cap,
            later,
            upto,
        ) == owed_to_all(flows, n, m, inputs, cap, later, upto),
    decreases upto,
{
    if upto > 0 {
        lemma_equipped_feeder(inputs, cap, n, first_new, inst, flows, stack, m, taking(later, cap));
        lemma_owed_to_all_same(
            inputs,
            cap,
            n,
            first_new,
            inst,
            flows,
            stack,
            m,
            filled(later, cap).rest,
            (upto - 1) as nat,
        );
    }
}

} // verus!
