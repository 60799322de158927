//! What equipping the machines of a split node does to the flows.
use vstd::prelude::*;
use crate::catalog::Item;
use crate::catalog::Rate;
use crate::flow::Flow;
use crate::flow::Tally;
use crate::flow::lemma_sum_concat;
use crate::flow::sum;
use crate::flow::total;
use crate::flow::total_in;
use crate::flow::total_out;
use crate::legalize::equipped;
use crate::legalize::nourished;
use crate::legalize::share;
use crate::legalize::shipped;
use crate::lemmas::accounting::lemma_filled_takes;
use crate::lemmas::feeding::feeders;
use crate::lemmas::feeding::lemma_entering_sum;
use crate::lemmas::feeding::lemma_feeders_concat;
use crate::lemmas::feeding::lemma_feeders_same_routes;
use crate::lemmas::feeding::lemma_nourished_appends;
use crate::lemmas::feeding::lemma_nourished_in_place;
use crate::lemmas::feeding::lemma_nourished_sum;
use crate::lemmas::feeding::lemma_portions_enter_machine;
use crate::lemmas::feeding::lemma_portions_intake;
use crate::lemmas::feeding::lemma_portions_leave_others;
use crate::lemmas::feeding::lemma_sent_leaves;
use crate::lemmas::feeding::lemma_sent_sum;
use crate::lemmas::feeding::lemma_shipped_appends;
use crate::lemmas::feeding::portion;
use crate::lemmas::feeding::portions_from;
use crate::lemmas::feeding::sent;
use crate::slicing::blind_to_rate;
use crate::slicing::each;
use crate::slicing::filled;
use crate::slicing::lemma_filled_each;
use crate::slicing::lemma_filled_room;

verus! {

/// Every flow into node `n` comes from a node below `first_new` other
/// than `n` itself.
pub open spec fn fed_by_others(flows: Seq<Flow>, n: int, first_new: int) -> bool {
    forall|i: int|
        0 <= i < flows.len() && (#[trigger] flows[i]).target == n ==> flows[i].source < first_new
            && flows[i].source != n
}

/// Every piece goes to a node below `first_new` other than `n`.
pub open spec fn aimed_elsewhere(stack: Seq<Flow>, n: int, first_new: int) -> bool {
    forall|i: int|
        0 <= i < stack.len() ==> (#[trigger] stack[i]).target < first_new && stack[i].target != n
}

/// Node `m` sends nothing to node `n`.
pub open spec fn not_feeding(flows: Seq<Flow>, n: int, m: int) -> bool {
    forall|i: int| 0 <= i < flows.len() && (#[trigger] flows[i]).target == n ==> flows[i].source != m
}

/// `inst` is one of the machines of the split node `n`: the node itself
/// or a node made for it.
pub open spec fn is_machine(n: int, first_new: int, inst: int) -> bool {
    0 <= n < first_new <= usize::MAX && (inst == n || first_new <= inst <= usize::MAX)
}

/// What machine `inst` puts out once equipped: what it took off the stack.
pub open spec fn taking(stack: Seq<Flow>, cap: Rate) -> Rate {
    (cap - filled(stack, cap).room) as Rate
}

/// The flows after the machine's pieces have been shipped.
pub open spec fn with_pieces(flows: Seq<Flow>, inst: int, stack: Seq<Flow>, cap: Rate) -> Seq<Flow> {
    flows + sent(filled(stack, cap).taken, inst)
}

/// Equipping a machine is shipping its pieces and then feeding it.
pub proof fn lemma_equipped_unfolds(
    inputs: Seq<(Item, Rate)>,
    cap: Rate,
    n: int,
    inst: int,
    flows: Seq<Flow>,
    stack: Seq<Flow>,
)
    requires
        equipped(inputs, cap, n, inst, flows, stack) is Ok,
    ensures
        equipped(inputs, cap, n, inst, flows, stack) == nourished(
            with_pieces(flows, inst, stack, cap),
            n,
            inst,
            inputs,
            cap,
            taking(stack, cap),
            0,
        ),
        total(filled(stack, cap).taken) == taking(stack, cap),
        taking(stack, cap) <= cap,
{
    lemma_shipped_appends(flows, inst, filled(stack, cap).taken);
    lemma_filled_takes(stack, cap);
    lemma_filled_room(stack, cap);
}

/// Shipping pieces that go elsewhere gives the split node no new flow in.
pub proof fn lemma_with_pieces_ready(
    flows: Seq<Flow>,
    stack: Seq<Flow>,
    cap: Rate,
    n: int,
    first_new: int,
    inst: int,
)
    requires
        aimed_elsewhere(stack, n, first_new),
    ensures
        aimed_elsewhere(filled(stack, cap).taken, n, first_new),
        aimed_elsewhere(filled(stack, cap).rest, n, first_new),
        forall|i: int|
            0 <= i < sent(filled(stack, cap).taken, inst).len() ==> (#[trigger] sent(
                filled(stack, cap).taken,
                inst,
            )[i]).target != n && sent(filled(stack, cap).taken, inst)[i].target < first_new,
        forall|i: int|
            flows.len() <= i < with_pieces(flows, inst, stack, cap).len() ==> (#[trigger] with_pieces(
                flows,
                inst,
                stack,
                cap,
            )[i]).target != n,
        forall|i: int|
            0 <= i < flows.len() ==> #[trigger] with_pieces(flows, inst, stack, cap)[i] == flows[i],
{
    let ok = |f: Flow| f.target < first_new && f.target != n;
    assert(blind_to_rate(ok));
    assert(each(stack, ok));
    lemma_filled_each(stack, cap, ok);
    let taken = filled(stack, cap).taken;
    let rest = filled(stack, cap).rest;
    assert forall|i: int| 0 <= i < taken.len() implies (#[trigger] taken[i]).target < first_new
        && taken[i].target != n by {
        assert(ok(taken[i]));
    }
    assert forall|i: int| 0 <= i < rest.len() implies (#[trigger] rest[i]).target < first_new
        && rest[i].target != n by {
        assert(ok(rest[i]));
    }
    let w = with_pieces(flows, inst, stack, cap);
    assert forall|i: int| flows.len() <= i < w.len() implies (#[trigger] w[i]).target != n by {
        assert(w[i] == sent(taken, inst)[i - flows.len()]);
        assert(ok(taken[i - flows.len()]));
    }
}

/// Equipping a machine leaves the split node fed by the same producers,
/// and the pieces that are left still go elsewhere.
pub proof fn lemma_equipped_ready(
    inputs: Seq<(Item, Rate)>,
    cap: Rate,
    n: int,
    first_new: int,
    inst: int,
    flows: Seq<Flow>,
    stack: Seq<Flow>,
    m: int,
)
    requires
        is_machine(n, first_new, inst),
        fed_by_others(flows, n, first_new),
        aimed_elsewhere(stack, n, first_new),
        equipped(inputs, cap, n, inst, flows, stack) is Ok,
    ensures
        fed_by_others(equipped(inputs, cap, n, inst, flows, stack).unwrap(), n, first_new),
        aimed_elsewhere(filled(stack, cap).rest, n, first_new),
        not_feeding(flows, n, m) ==> not_feeding(
            equipped(inputs, cap, n, inst, flows, stack).unwrap(),
            n,
            m,
        ),
        not_feeding(flows, n, m) ==> not_feeding(with_pieces(flows, inst, stack, cap), n, m),
        fed_by_others(with_pieces(flows, inst, stack, cap), n, first_new),
{
    lemma_equipped_unfolds(inputs, cap, n, inst, flows, stack);
    lemma_with_pieces_ready(flows, stack, cap, n, first_new, inst);
    let w = with_pieces(flows, inst, stack, cap);
    let amount = taking(stack, cap);
    let next = equipped(inputs, cap, n, inst, flows, stack).unwrap();
    assert(fed_by_others(w, n, first_new)) by {
        assert forall|i: int| 0 <= i < w.len() && (#[trigger] w[i]).target == n implies w[i].source
            < first_new && w[i].source != n by {
            if i < flows.len() {
                assert(w[i] == flows[i]);
            }
        }
    }
    if not_feeding(flows, n, m) {
        assert forall|i: int| 0 <= i < w.len() && (#[trigger] w[i]).target == n implies w[i].source
            != m by {
            if i < flows.len() {
                assert(w[i] == flows[i]);
            }
        }
    }
    if inst != n {
        lemma_nourished_appends(w, n, inst, inputs, cap, amount, 0);
        let extra = portions_from(w, n, inst, inputs, cap, amount, 0);
        lemma_portions_target(w, n, inst, inputs, cap, amount, 0);
        assert forall|i: int| 0 <= i < next.len() && (#[trigger] next[i]).target == n implies next[i].source
            < first_new && next[i].source != n && (not_feeding(flows, n, m) ==> next[i].source != m) by {
            if i < w.len() {
                assert(next[i] == w[i]);
            } else {
                assert(next[i] == extra[i - w.len()]);
            }
        }
    } else {
        lemma_nourished_in_place(w, n, inputs, cap, amount, 0);
        assert forall|i: int| 0 <= i < next.len() && (#[trigger] next[i]).target == n implies next[i].source
            < first_new && next[i].source != n && (not_feeding(flows, n, m) ==> next[i].source != m) by {
            assert(next[i].source == w[i].source);
            assert(next[i].target == w[i].target);
        }
    }
}

/// Every portion goes to the machine.
pub proof fn lemma_portions_target(
    flows: Seq<Flow>,
    n: int,
    inst: int,
    inputs: Seq<(Item, Rate)>,
    cap: Rate,
    amount: Rate,
    from: int,
)
    requires
        0 <= from <= flows.len(),
        0 <= inst <= usize::MAX,
    ensures
        forall|i: int|
            0 <= i < portions_from(flows, n, inst, inputs, cap, amount, from).len()
                ==> (#[trigger] portions_from(flows, n, inst, inputs, cap, amount, from)[i]).target
                == inst,
    decreases flows.len() - from,
{
    if from < flows.len() {
        lemma_portions_target(flows, n, inst, inputs, cap, amount, from + 1);
    }
}

/// What equipping a machine does to what a node puts out: the machine
/// puts out what it took, and no other node puts out more or less, unless
/// it feeds the split node.
pub proof fn lemma_equipped_output(
    inputs: Seq<(Item, Rate)>,
    cap: Rate,
    n: int,
    first_new: int,
    inst: int,
    flows: Seq<Flow>,
    stack: Seq<Flow>,
    m: int,
)
    requires
        is_machine(n, first_new, inst),
        fed_by_others(flows, n, first_new),
        aimed_elsewhere(stack, n, first_new),
        not_feeding(flows, n, m),
        equipped(inputs, cap, n, inst, flows, stack) is Ok,
    ensures
        total_out(equipped(inputs, cap, n, inst, flows, stack).unwrap(), m) == total_out(flows, m)
            + if m == inst {
            taking(stack, cap) as int
        } else {
            0
        },
{
    lemma_equipped_unfolds(inputs, cap, n, inst, flows, stack);
    lemma_equipped_ready(inputs, cap, n, first_new, inst, flows, stack, m);
    let w = with_pieces(flows, inst, stack, cap);
    let amount = taking(stack, cap);
    let taken = filled(stack, cap).taken;
    lemma_sum_concat(flows, sent(taken, inst), Tally::Leaving(m));
    lemma_sent_leaves(taken, inst, m);
    lemma_nourished_sum(w, n, inst, inputs, cap, amount, 0, Tally::Leaving(m));
    lemma_portions_leave_others(w, n, inst, inputs, cap, amount, 0, m);
}

/// What equipping a machine does to what another node takes in: it takes
/// in the pieces that go to it.
pub proof fn lemma_equipped_intake_elsewhere(
    inputs: Seq<(Item, Rate)>,
    cap: Rate,
    n: int,
    first_new: int,
    inst: int,
    flows: Seq<Flow>,
    stack: Seq<Flow>,
    c: int,
    item: Item,
)
    requires
        is_machine(n, first_new, inst),
        c != inst,
        equipped(inputs, cap, n, inst, flows, stack) is Ok,
    ensures
        total_in(equipped(inputs, cap, n, inst, flows, stack).unwrap(), c, item) == total_in(
            flows,
            c,
            item,
        ) + sum(filled(stack, cap).taken, Tally::Entering(c, item)),
{
    lemma_equipped_unfolds(inputs, cap, n, inst, flows, stack);
    let w = with_pieces(flows, inst, stack, cap);
    let amount = taking(stack, cap);
    let taken = filled(stack, cap).taken;
    let tally = Tally::Entering(c, item);
    lemma_sum_concat(flows, sent(taken, inst), tally);
    lemma_sent_sum(taken, inst, tally);
    lemma_nourished_sum(w, n, inst, inputs, cap, amount, 0, tally);
    lemma_portions_enter_machine(w, n, inst, inputs, cap, amount, 0, c, item);
}

/// Equipping a machine changes neither how many flows carry an item into
/// the split node nor the items they carry.
pub proof fn lemma_equipped_feeders(
    inputs: Seq<(Item, Rate)>,
    cap: Rate,
    n: int,
    first_new: int,
    inst: int,
    flows: Seq<Flow>,
    stack: Seq<Flow>,
    item: Item,
)
    requires
        is_machine(n, first_new, inst),
        aimed_elsewhere(stack, n, first_new),
        equipped(inputs, cap, n, inst, flows, stack) is Ok,
    ensures
        feeders(equipped(inputs, cap, n, inst, flows, stack).unwrap(), n, item) == feeders(
            flows,
            n,
            item,
        ),
        feeders(with_pieces(flows, inst, stack, cap), n, item) == feeders(flows, n, item),
{
    lemma_equipped_unfolds(inputs, cap, n, inst, flows, stack);
    lemma_with_pieces_ready(flows, stack, cap, n, first_new, inst);
    let w = with_pieces(flows, inst, stack, cap);
    let amount = taking(stack, cap);
    let taken = filled(stack, cap).taken;
    lemma_feeders_concat(flows, sent(taken, inst), n, item, 0);
    if inst != n {
        lemma_nourished_appends(w, n, inst, inputs, cap, amount, 0);
        lemma_portions_target(w, n, inst, inputs, cap, amount, 0);
        lemma_feeders_concat(w, portions_from(w, n, inst, inputs, cap, amount, 0), n, item, 0);
    } else {
        lemma_nourished_in_place(w, n, inputs, cap, amount, 0);
        lemma_feeders_same_routes(
            equipped(inputs, cap, n, inst, flows, stack).unwrap(),
            w,
            n,
            item,
            0,
        );
    }
}

/// What an equipped machine takes in of an item: what it took in before,
/// unless it is the split node itself, and its share, once for every flow
/// that carries the item into the split node.
pub proof fn lemma_equipped_intake(
    inputs: Seq<(Item, Rate)>,
    cap: Rate,
    n: int,
    first_new: int,
    inst: int,
    flows: Seq<Flow>,
    stack: Seq<Flow>,
    item: Item,
)
    requires
        cap > 0,
        is_machine(n, first_new, inst),
        aimed_elsewhere(stack, n, first_new),
        equipped(inputs, cap, n, inst, flows, stack) is Ok,
    ensures
        total_in(equipped(inputs, cap, n, inst, flows, stack).unwrap(), inst, item) == (if inst == n {
            0
        } else {
            total_in(flows, inst, item)
        }) + feeders(flows, n, item) * share(inputs, item, taking(stack, cap), cap),
{
    lemma_equipped_unfolds(inputs, cap, n, inst, flows, stack);
    lemma_with_pieces_ready(flows, stack, cap, n, first_new, inst);
    lemma_equipped_feeders(inputs, cap, n, first_new, inst, flows, stack, item);
    let w = with_pieces(flows, inst, stack, cap);
    let amount = taking(stack, cap);
    let taken = filled(stack, cap).taken;
    let tally = Tally::Entering(inst, item);
    lemma_sum_concat(flows, sent(taken, inst), tally);
    lemma_sent_sum(taken, inst, tally);
    assert(sum(taken, tally) == 0) by {
        crate::flow::lemma_sum_none(taken, tally);
    }
    lemma_nourished_sum(w, n, inst, inputs, cap, amount, 0, tally);
    lemma_portions_intake(w, n, inst, inputs, cap, amount, 0, item);
    if inst == n {
        lemma_entering_sum(w, n, 0, tally);
        assert(w.take(0) =~= Seq::<Flow>::empty());
    }
}

} // verus!
