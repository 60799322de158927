//! What serving all machines of a split node does to the flows.
use vstd::prelude::*;
use crate::catalog::Item;
use crate::catalog::Rate;
use crate::flow::Flow;
use crate::flow::Tally;
use crate::flow::count;
use crate::flow::counts;
use crate::flow::lemma_sum_below_total;
use crate::flow::lemma_sum_none;
use crate::flow::sum;
use crate::flow::total;
use crate::flow::total_in;
use crate::flow::total_out;
use crate::legalize::equipped;
use crate::legalize::instance;
use crate::legalize::served;
use crate::legalize::share;
use crate::lemmas::accounting::lemma_filled_sizes;
use crate::lemmas::accounting::lemma_filled_sum;
use crate::lemmas::accounting::lemma_filled_takes;
use crate::lemmas::feeding::feeders;
use crate::lemmas::feeding::lemma_nourished_appends;
use crate::lemmas::feeding::lemma_nourished_in_place;
use crate::lemmas::feeding::portions_from;
use crate::lemmas::feeding::sent;
use crate::lemmas::machines::aimed_elsewhere;
use crate::lemmas::machines::fed_by_others;
use crate::lemmas::machines::is_machine;
use crate::lemmas::machines::lemma_equipped_feeders;
use crate::lemmas::machines::lemma_equipped_intake;
use crate::lemmas::machines::lemma_equipped_intake_elsewhere;
use crate::lemmas::machines::lemma_equipped_output;
use crate::lemmas::machines::lemma_equipped_ready;
use crate::lemmas::machines::lemma_equipped_unfolds;
use crate::lemmas::machines::lemma_with_pieces_ready;
use crate::lemmas::machines::not_feeding;
use crate::lemmas::machines::taking;
use crate::lemmas::machines::with_pieces;
use crate::slicing::blind_to_rate;
use crate::slicing::each;
use crate::slicing::filled;
use crate::slicing::lemma_filled_each;

verus! {

/// The stack that is left after `j` machines have taken their pieces.
pub open spec fn rest_after(stack: Seq<Flow>, cap: Rate, j: nat) -> Seq<Flow>
    decreases j,
{
    if j == 0 {
        stack
    } else {
        rest_after(filled(stack, cap).rest, cap, (j - 1) as nat)
    }
}

/// What the machine puts out that is served after `j` others.
pub open spec fn output_of(stack: Seq<Flow>, cap: Rate, j: nat) -> Rate {
    taking(rest_after(stack, cap, j), cap)
}

/// A node is split into `reps` machines of capacity `cap`: the nodes from
/// `first_new` on and the node `n` itself.
pub open spec fn splitting(n: int, first_new: int, reps: int, cap: Rate) -> bool {
    0 <= n < first_new && 1 <= reps && first_new + reps - 1 <= usize::MAX && cap > 0
}

/// `x` is one of the machines.
pub open spec fn machine_of(n: int, first_new: int, reps: int, x: int) -> bool {
    x == n || first_new <= x < first_new + reps - 1
}

/// `x` is none of the machines number `k` and above.
pub open spec fn served_before(n: int, first_new: int, reps: int, k: int, x: int) -> bool {
    forall|j: int| k <= j < reps ==> #[trigger] instance(n, first_new, reps, j) != x
}

/// What is left of a stack after `j` machines is what was there less
/// their capacity, or nothing.
pub proof fn lemma_rest_after_total(stack: Seq<Flow>, cap: Rate, j: nat)
    ensures
        total(rest_after(stack, cap, j)) == if total(stack) <= j * cap {
            0
        } else {
            total(stack) - j * cap
        },
    decreases j,
{
    lemma_sum_below_total(stack, Tally::All);
    if j > 0 {
        lemma_filled_takes(stack, cap);
        lemma_filled_sum(stack, cap, Tally::All);
        lemma_rest_after_total(filled(stack, cap).rest, cap, (j - 1) as nat);
        assert(j * cap == (j - 1) * cap + cap) by (nonlinear_arith);
        assert((j - 1) * cap >= 0) by (nonlinear_arith)
            requires
                j >= 1,
                cap >= 0,
        ;
    } else {
        assert(0 * cap == 0) by (nonlinear_arith);
    }
}

/// The context is kept from one machine to the next.
pub proof fn lemma_served_step(
    inputs: Seq<(Item, Rate)>,
    cap: Rate,
    n: int,
    first_new: int,
    reps: int,
    flows: Seq<Flow>,
    stack: Seq<Flow>,
    k: int,
)
    requires
        splitting(n, first_new, reps, cap),
        0 <= k < reps,
        fed_by_others(flows, n, first_new),
        aimed_elsewhere(stack, n, first_new),
        served(inputs, cap, n, first_new, reps, flows, stack, k) is Ok,
    ensures
        is_machine(n, first_new, instance(n, first_new, reps, k)),
        equipped(inputs, cap, n, instance(n, first_new, reps, k), flows, stack) is Ok,
        served(inputs, cap, n, first_new, reps, flows, stack, k) == served(
            inputs,
            cap,
            n,
            first_new,
            reps,
            equipped(inputs, cap, n, instance(n, first_new, reps, k), flows, stack).unwrap(),
            filled(stack, cap).rest,
            k + 1,
        ),
        fed_by_others(
            equipped(inputs, cap, n, instance(n, first_new, reps, k), flows, stack).unwrap(),
            n,
            first_new,
        ),
        aimed_elsewhere(filled(stack, cap).rest, n, first_new),
{
    lemma_equipped_ready(
        inputs,
        cap,
        n,
        first_new,
        instance(n, first_new, reps, k),
        flows,
        stack,
        0,
    );
}

/// Serving the machines number `k` and above changes what a node puts
/// out only if the node is one of them or feeds the split node.
pub proof fn lemma_served_keeps_output(
    inputs: Seq<(Item, Rate)>,
    cap: Rate,
    n: int,
    first_new: int,
    reps: int,
    flows: Seq<Flow>,
    stack: Seq<Flow>,
    k: int,
    m: int,
)
    requires
        splitting(n, first_new, reps, cap),
        0 <= k <= reps,
        fed_by_others(flows, n, first_new),
        aimed_elsewhere(stack, n, first_new),
        served(inputs, cap, n, first_new, reps, flows, stack, k) is Ok,
        not_feeding(flows, n, m),
        served_before(n, first_new, reps, k, m),
    ensures
        total_out(served(inputs, cap, n, first_new, reps, flows, stack, k).unwrap(), m) == total_out(
            flows,
            m,
        ),
    decreases reps - k,
{
    if k < reps {
        let inst = instance(n, first_new, reps, k);
        lemma_served_step(inputs, cap, n, first_new, reps, flows, stack, k);
        let next = equipped(inputs, cap, n, inst, flows, stack).unwrap();
        lemma_equipped_output(inputs, cap, n, first_new, inst, flows, stack, m);
        lemma_equipped_ready(inputs, cap, n, first_new, inst, flows, stack, m);
        assert(instance(n, first_new, reps, k) != m);
        assert forall|j: int| k + 1 <= j < reps implies #[trigger] instance(n, first_new, reps, j)
            != m by {}
        lemma_served_keeps_output(
            inputs,
            cap,
            n,
            first_new,
            reps,
            next,
            filled(stack, cap).rest,
            k + 1,
            m,
        );
    }
}

/// No node that feeds the split node is one of its machines.
pub proof fn lemma_machines_do_not_feed(flows: Seq<Flow>, n: int, first_new: int, reps: int, j: int)
    requires
        0 <= n < first_new,
        0 <= j < reps,
        fed_by_others(flows, n, first_new),
    ensures
        not_feeding(flows, n, instance(n, first_new, reps, j)),
{
}

/// A served machine puts out what it took off the stack, on top of what
/// it put out before.
pub proof fn lemma_served_output(
    inputs: Seq<(Item, Rate)>,
    cap: Rate,
    n: int,
    first_new: int,
    reps: int,
    flows: Seq<Flow>,
    stack: Seq<Flow>,
    k: int,
    j: int,
)
    requires
        splitting(n, first_new, reps, cap),
        0 <= k <= j < reps,
        fed_by_others(flows, n, first_new),
        aimed_elsewhere(stack, n, first_new),
        served(inputs, cap, n, first_new, reps, flows, stack, k) is Ok,
    ensures
        total_out(
            served(inputs, cap, n, first_new, reps, flows, stack, k).unwrap(),
            instance(n, first_new, reps, j),
        ) == total_out(flows, instance(n, first_new, reps, j)) + output_of(
            stack,
            cap,
            (j - k) as nat,
        ),
    decreases reps - k,
{
    let inst = instance(n, first_new, reps, k);
    let mine = instance(n, first_new, reps, j);
    lemma_served_step(inputs, cap, n, first_new, reps, flows, stack, k);
    let next = equipped(inputs, cap, n, inst, flows, stack).unwrap();
    let rest = filled(stack, cap).rest;
    lemma_machines_do_not_feed(flows, n, first_new, reps, j);
    lemma_equipped_output(inputs, cap, n, first_new, inst, flows, stack, mine);
    if j == k {
        lemma_machines_do_not_feed(next, n, first_new, reps, j);
        assert forall|i: int| k + 1 <= i < reps implies #[trigger] instance(n, first_new, reps, i)
            != mine by {}
        lemma_served_keeps_output(inputs, cap, n, first_new, reps, next, rest, k + 1, mine);
    } else {
        lemma_served_output(inputs, cap, n, first_new, reps, next, rest, k + 1, j);
        assert(rest_after(stack, cap, (j - k) as nat) == rest_after(rest, cap, (j - k - 1) as nat));
    }
}

/// What a node that is none of the machines takes in grows by the pieces
/// that the machines take off the stack for it.
pub proof fn lemma_served_intake_elsewhere(
    inputs: Seq<(Item, Rate)>,
    cap: Rate,
    n: int,
    first_new: int,
    reps: int,
    flows: Seq<Flow>,
    stack: Seq<Flow>,
    k: int,
    c: int,
    item: Item,
)
    requires
        splitting(n, first_new, reps, cap),
        0 <= k <= reps,
        fed_by_others(flows, n, first_new),
        aimed_elsewhere(stack, n, first_new),
        served(inputs, cap, n, first_new, reps, flows, stack, k) is Ok,
        served_before(n, first_new, reps, k, c),
    ensures
        total_in(served(inputs, cap, n, first_new, reps, flows, stack, k).unwrap(), c, item) + sum(
            rest_after(stack, cap, (reps - k) as nat),
            Tally::Entering(c, item),
        ) == total_in(flows, c, item) + sum(stack, Tally::Entering(c, item)),
    decreases reps - k,
{
    if k < reps {
        let inst = instance(n, first_new, reps, k);
        lemma_served_step(inputs, cap, n, first_new, reps, flows, stack, k);
        let next = equipped(inputs, cap, n, inst, flows, stack).unwrap();
        let rest = filled(stack, cap).rest;
        assert(instance(n, first_new, reps, k) != c);
        lemma_equipped_intake_elsewhere(inputs, cap, n, first_new, inst, flows, stack, c, item);
        lemma_filled_sum(stack, cap, Tally::Entering(c, item));
        assert forall|j: int| k + 1 <= j < reps implies #[trigger] instance(n, first_new, reps, j)
            != c by {}
        lemma_served_intake_elsewhere(inputs, cap, n, first_new, reps, next, rest, k + 1, c, item);
        assert(rest_after(stack, cap, (reps - k) as nat) == rest_after(
            rest,
            cap,
            (reps - k - 1) as nat,
        ));
    }
}

/// The pieces that are left after any number of machines still go elsewhere.
pub proof fn lemma_rest_after_aimed(stack: Seq<Flow>, cap: Rate, n: int, first_new: int, j: nat)
    requires
        aimed_elsewhere(stack, n, first_new),
    ensures
        aimed_elsewhere(rest_after(stack, cap, j), n, first_new),
    decreases j,
{
    if j > 0 {
        lemma_with_pieces_ready(Seq::empty(), stack, cap, n, first_new, 0);
        lemma_rest_after_aimed(filled(stack, cap).rest, cap, n, first_new, (j - 1) as nat);
    }
}

/// A served machine takes in, of each item, its share, once for every
/// flow that carries the item into the split node; a new node on top of
/// what it took in before.
pub proof fn lemma_served_intake(
    inputs: Seq<(Item, Rate)>,
    cap: Rate,
    n: int,
    first_new: int,
    reps: int,
    flows: Seq<Flow>,
    stack: Seq<Flow>,
    k: int,
    j: int,
    item: Item,
)
    requires
        splitting(n, first_new, reps, cap),
        0 <= k <= j < reps,
        fed_by_others(flows, n, first_new),
        aimed_elsewhere(stack, n, first_new),
        served(inputs, cap, n, first_new, reps, flows, stack, k) is Ok,
    ensures
        total_in(
            served(inputs, cap, n, first_new, reps, flows, stack, k).unwrap(),
            instance(n, first_new, reps, j),
            item,
        ) == (if instance(n, first_new, reps, j) == n {
            0
        } else {
            total_in(flows, instance(n, first_new, reps, j), item)
        }) + feeders(flows, n, item) * share(
            inputs,
            item,
            output_of(stack, cap, (j - k) as nat),
            cap,
        ),
    decreases reps - k,
{
    let inst = instance(n, first_new, reps, k);
    let mine = instance(n, first_new, reps, j);
    lemma_served_step(inputs, cap, n, first_new, reps, flows, stack, k);
    let next = equipped(inputs, cap, n, inst, flows, stack).unwrap();
    let rest = filled(stack, cap).rest;
    let tally = Tally::Entering(mine, item);
    lemma_equipped_feeders(inputs, cap, n, first_new, inst, flows, stack, item);
    if j == k {
        lemma_equipped_intake(inputs, cap, n, first_new, inst, flows, stack, item);
        assert forall|i: int| k + 1 <= i < reps implies #[trigger] instance(n, first_new, reps, i)
            != mine by {}
        lemma_served_intake_elsewhere(inputs, cap, n, first_new, reps, next, rest, k + 1, mine, item);
        lemma_rest_after_aimed(rest, cap, n, first_new, (reps - k - 1) as nat);
        lemma_sum_none(rest_after(rest, cap, (reps - k - 1) as nat), tally);
        lemma_sum_none(rest, tally);
    } else {
        lemma_equipped_intake_elsewhere(inputs, cap, n, first_new, inst, flows, stack, mine, item);
        lemma_with_pieces_ready(flows, stack, cap, n, first_new, inst);
        lemma_sum_none(filled(stack, cap).taken, tally);
        lemma_served_intake(inputs, cap, n, first_new, reps, next, rest, k + 1, j, item);
        assert(rest_after(stack, cap, (j - k) as nat) == rest_after(rest, cap, (j - k - 1) as nat));
    }
}

/// Every piece carries an item that `made` holds of, and none is empty.
pub open spec fn goods(stack: Seq<Flow>, made: spec_fn(Item) -> bool) -> bool {
    forall|i: int| 0 <= i < stack.len() ==> (#[trigger] stack[i]).rate > 0 && made(stack[i].item)
}

/// Every flow that leaves a machine carries an item that `made` holds of
/// and is not empty, and every flow that enters one carries an item that
/// `wanted` holds of.
pub open spec fn tidy(
    flows: Seq<Flow>,
    n: int,
    first_new: int,
    reps: int,
    made: spec_fn(Item) -> bool,
    wanted: spec_fn(Item) -> bool,
) -> bool {
    forall|i: int|
        0 <= i < flows.len() ==> (machine_of(n, first_new, reps, (#[trigger] flows[i]).source as int)
            ==> flows[i].rate > 0 && made(flows[i].item)) && (machine_of(
            n,
            first_new,
            reps,
            flows[i].target as int,
        ) ==> wanted(flows[i].item))
}

/// What a machine takes of goods, and what it leaves, are goods.
pub proof fn lemma_filled_goods(stack: Seq<Flow>, cap: Rate, made: spec_fn(Item) -> bool)
    requires
        goods(stack, made),
    ensures
        goods(filled(stack, cap).taken, made),
        goods(filled(stack, cap).rest, made),
{
    let ok = |f: Flow| made(f.item);
    assert(blind_to_rate(ok));
    assert(each(stack, ok));
    lemma_filled_each(stack, cap, ok);
    lemma_filled_sizes(stack, cap);
    let taken = filled(stack, cap).taken;
    let rest = filled(stack, cap).rest;
    assert forall|i: int| 0 <= i < taken.len() implies (#[trigger] taken[i]).rate > 0 && made(
        taken[i].item,
    ) by {
        assert(ok(taken[i]));
    }
    assert forall|i: int| 0 <= i < rest.len() implies (#[trigger] rest[i]).rate > 0 && made(
        rest[i].item,
    ) by {
        assert(ok(rest[i]));
    }
}

/// Equipping a machine keeps the flows tidy.
pub proof fn lemma_equipped_tidy(
    inputs: Seq<(Item, Rate)>,
    cap: Rate,
    n: int,
    first_new: int,
    reps: int,
    flows: Seq<Flow>,
    stack: Seq<Flow>,
    k: int,
    made: spec_fn(Item) -> bool,
    wanted: spec_fn(Item) -> bool,
)
    requires
        splitting(n, first_new, reps, cap),
        0 <= k < reps,
        fed_by_others(flows, n, first_new),
        aimed_elsewhere(stack, n, first_new),
        goods(stack, made),
        tidy(flows, n, first_new, reps, made, wanted),
        equipped(inputs, cap, n, instance(n, first_new, reps, k), flows, stack) is Ok,
    ensures
        tidy(
            equipped(inputs, cap, n, instance(n, first_new, reps, k), flows, stack).unwrap(),
            n,
            first_new,
            reps,
            made,
            wanted,
        ),
        goods(filled(stack, cap).rest, made),
{
    let inst = instance(n, first_new, reps, k);
    lemma_equipped_unfolds(inputs, cap, n, inst, flows, stack);
    lemma_equipped_ready(inputs, cap, n, first_new, inst, flows, stack, 0);
    lemma_with_pieces_ready(flows, stack, cap, n, first_new, inst);
    lemma_filled_goods(stack, cap, made);
    let taken = filled(stack, cap).taken;
    let w = with_pieces(flows, inst, stack, cap);
    let amount = taking(stack, cap);
    let next = equipped(inputs, cap, n, inst, flows, stack).unwrap();
    assert(tidy(w, n, first_new, reps, made, wanted)) by {
        assert forall|i: int| 0 <= i < w.len() implies (machine_of(
            n,
            first_new,
            reps,
            (#[trigger] w[i]).source as int,
        ) ==> w[i].rate > 0 && made(w[i].item)) && (machine_of(
            n,
            first_new,
            reps,
            w[i].target as int,
        ) ==> wanted(w[i].item)) by {
            if i < flows.len() {
                assert(w[i] == flows[i]);
            } else {
                let j = i - flows.len();
                assert(w[i] == sent(taken, inst)[j]);
                assert(taken[j].rate > 0);
                assert(taken[j].target < first_new && taken[j].target != n);
            }
        }
    }
    if inst != n {
        lemma_nourished_appends(w, n, inst, inputs, cap, amount, 0);
        let extra = portions_from(w, n, inst, inputs, cap, amount, 0);
        let ok = |f: Flow|
            !machine_of(n, first_new, reps, f.source as int) && wanted(f.item);
        crate::lemmas::feeding::lemma_portions_each(w, n, inst, inputs, cap, amount, 0, ok);
        assert forall|i: int| 0 <= i < next.len() implies (machine_of(
            n,
            first_new,
            reps,
            (#[trigger] next[i]).source as int,
        ) ==> next[i].rate > 0 && made(next[i].item)) && (machine_of(
            n,
            first_new,
            reps,
            next[i].target as int,
        ) ==> wanted(next[i].item)) by {
            if i < w.len() {
                assert(next[i] == w[i]);
            } else {
                assert(next[i] == extra[i - w.len()]);
                assert(ok(extra[i - w.len()]));
            }
        }
    } else {
        lemma_nourished_in_place(w, n, inputs, cap, amount, 0);
        assert forall|i: int| 0 <= i < next.len() implies (machine_of(
            n,
            first_new,
            reps,
            (#[trigger] next[i]).source as int,
        ) ==> next[i].rate > 0 && made(next[i].item)) && (machine_of(
            n,
            first_new,
            reps,
            next[i].target as int,
        ) ==> wanted(next[i].item)) by {
            assert(next[i].source == w[i].source);
            assert(next[i].target == w[i].target);
            assert(next[i].item == w[i].item);
        }
    }
}

/// Serving the machines keeps the flows tidy.
pub proof fn lemma_served_tidy(
    inputs: Seq<(Item, Rate)>,
    cap: Rate,
    n: int,
    first_new: int,
    reps: int,
    flows: Seq<Flow>,
    stack: Seq<Flow>,
    k: int,
    made: spec_fn(Item) -> bool,
    wanted: spec_fn(Item) -> bool,
)
    requires
        splitting(n, first_new, reps, cap),
        0 <= k <= reps,
        fed_by_others(flows, n, first_new),
        aimed_elsewhere(stack, n, first_new),
        goods(stack, made),
        tidy(flows, n, first_new, reps, made, wanted),
        served(inputs, cap, n, first_new, reps, flows, stack, k) is Ok,
    ensures
        tidy(
            served(inputs, cap, n, first_new, reps, flows, stack, k).unwrap(),
            n,
            first_new,
            reps,
            made,
            wanted,
        ),
    decreases reps - k,
{
    if k < reps {
        lemma_served_step(inputs, cap, n, first_new, reps, flows, stack, k);
        lemma_equipped_tidy(inputs, cap, n, first_new, reps, flows, stack, k, made, wanted);
        lemma_served_tidy(
            inputs,
            cap,
            n,
            first_new,
            reps,
            equipped(inputs, cap, n, instance(n, first_new, reps, k), flows, stack).unwrap(),
            filled(stack, cap).rest,
            k + 1,
            made,
            wanted,
        );
    }
}

/// What the machines put out, all together, is what the stack held, less
/// what is left of it.
pub proof fn lemma_outputs_add_up(stack: Seq<Flow>, cap: Rate, upto: nat)
    ensures
        outputs_upto(stack, cap, upto) == total(stack) - total(rest_after(stack, cap, upto)),
    decreases upto,
{
    if upto > 0 {
        lemma_filled_takes(stack, cap);
        crate::slicing::lemma_filled_room(stack, cap);
        lemma_filled_sum(stack, cap, Tally::All);
        lemma_outputs_add_up(filled(stack, cap).rest, cap, (upto - 1) as nat);
    }
}

/// What the first `upto` machines put out, all together.
pub open spec fn outputs_upto(stack: Seq<Flow>, cap: Rate, upto: nat) -> int
    decreases upto,
{
    if upto == 0 {
        0
    } else {
        taking(stack, cap) + outputs_upto(filled(stack, cap).rest, cap, (upto - 1) as nat)
    }
}

/// What the machines number `k` and above put out, all together.
pub open spec fn output_from(flows: Seq<Flow>, n: int, first_new: int, reps: int, k: int) -> int
    decreases reps - k,
{
    if k < 0 || k >= reps {
        0
    } else {
        total_out(flows, instance(n, first_new, reps, k)) + output_from(
            flows,
            n,
            first_new,
            reps,
            k + 1,
        )
    }
}

/// The stack after one machine more is what that machine leaves of the
/// stack before it.
pub proof fn lemma_rest_after_next(stack: Seq<Flow>, cap: Rate, j: nat)
    ensures
        rest_after(stack, cap, j + 1) == filled(rest_after(stack, cap, j), cap).rest,
    decreases j,
{
    if j > 0 {
        lemma_rest_after_next(filled(stack, cap).rest, cap, (j - 1) as nat);
    } else {
        assert(rest_after(filled(stack, cap).rest, cap, 0) == filled(stack, cap).rest);
    }
}

/// Once all machines are served, those number `k` and above put out,
/// all together, what they took off the stack.
pub proof fn lemma_served_outputs(
    inputs: Seq<(Item, Rate)>,
    cap: Rate,
    n: int,
    first_new: int,
    reps: int,
    flows: Seq<Flow>,
    stack: Seq<Flow>,
    k: int,
)
    requires
        splitting(n, first_new, reps, cap),
        0 <= k <= reps,
        fed_by_others(flows, n, first_new),
        aimed_elsewhere(stack, n, first_new),
        served(inputs, cap, n, first_new, reps, flows, stack, 0) is Ok,
        forall|j: int| 0 <= j < reps ==> total_out(flows, #[trigger] instance(n, first_new, reps, j)) == 0,
    ensures
        output_from(
            served(inputs, cap, n, first_new, reps, flows, stack, 0).unwrap(),
            n,
            first_new,
            reps,
            k,
        ) == outputs_upto(rest_after(stack, cap, k as nat), cap, (reps - k) as nat),
    decreases reps - k,
{
    if k < reps {
        lemma_served_outputs(inputs, cap, n, first_new, reps, flows, stack, k + 1);
        lemma_served_output(inputs, cap, n, first_new, reps, flows, stack, 0, k);
        lemma_rest_after_next(stack, cap, k as nat);
        assert(total_out(flows, instance(n, first_new, reps, k)) == 0);
    }
}

/// The piece `p` as a flow that leaves machine `inst`.
pub open spec fn shipped_as(p: Flow, inst: int) -> Flow {
    Flow { source: inst as usize, target: p.target, item: p.item, rate: p.rate }
}

/// The flow `f` as a flow that enters machine `inst` at `rate`.
pub open spec fn fed_as(f: Flow, inst: int, rate: Rate) -> Flow {
    Flow { source: f.source, target: inst as usize, item: f.item, rate }
}

/// `ok` holds of the flows that serving makes, so far as it holds of what
/// they are made from: of a piece shipped from a machine where
/// `ok_piece` holds of the piece, and of a flow into a machine where `ok`
/// holds of the flow into the split node that it stands for.
pub open spec fn carried_over(
    n: int,
    first_new: int,
    reps: int,
    ok: spec_fn(Flow) -> bool,
    ok_piece: spec_fn(Flow) -> bool,
) -> bool {
    &&& blind_to_rate(ok_piece)
    &&& forall|p: Flow, inst: int|
        ok_piece(p) && machine_of(n, first_new, reps, inst) ==> ok(#[trigger] shipped_as(p, inst))
    &&& forall|f: Flow, inst: int, rate: Rate|
        ok(f) && f.target == n && machine_of(n, first_new, reps, inst) ==> ok(
            #[trigger] fed_as(f, inst, rate),
        )
}

/// Equipping a machine keeps what holds of every flow.
pub proof fn lemma_equipped_each(
    inputs: Seq<(Item, Rate)>,
    cap: Rate,
    n: int,
    first_new: int,
    reps: int,
    flows: Seq<Flow>,
    stack: Seq<Flow>,
    k: int,
    ok: spec_fn(Flow) -> bool,
    ok_piece: spec_fn(Flow) -> bool,
)
    requires
        splitting(n, first_new, reps, cap),
        0 <= k < reps,
        carried_over(n, first_new, reps, ok, ok_piece),
        each(flows, ok),
        each(stack, ok_piece),
        equipped(inputs, cap, n, instance(n, first_new, reps, k), flows, stack) is Ok,
    ensures
        each(equipped(inputs, cap, n, instance(n, first_new, reps, k), flows, stack).unwrap(), ok),
        each(filled(stack, cap).rest, ok_piece),
{
    let inst = instance(n, first_new, reps, k);
    assert(machine_of(n, first_new, reps, inst));
    lemma_equipped_unfolds(inputs, cap, n, inst, flows, stack);
    lemma_filled_each(stack, cap, ok_piece);
    let taken = filled(stack, cap).taken;
    let w = with_pieces(flows, inst, stack, cap);
    let amount = taking(stack, cap);
    let next = equipped(inputs, cap, n, inst, flows, stack).unwrap();
    assert forall|i: int| 0 <= i < w.len() implies ok(#[trigger] w[i]) by {
        if i >= flows.len() {
            let j = i - flows.len();
            assert(w[i] == sent(taken, inst)[j]);
            assert(w[i] == shipped_as(taken[j], inst));
        }
    }
    if inst != n {
        lemma_nourished_appends(w, n, inst, inputs, cap, amount, 0);
        let extra = portions_from(w, n, inst, inputs, cap, amount, 0);
        assert forall|i: int| 0 <= i < w.len() && (#[trigger] w[i]).target == n implies ok(
            crate::lemmas::feeding::portion(w[i], inst, inputs, cap, amount),
        ) by {
            assert(crate::lemmas::feeding::portion(w[i], inst, inputs, cap, amount) == fed_as(
                w[i],
                inst,
                share(inputs, w[i].item, amount, cap) as Rate,
            ));
        }
        crate::lemmas::feeding::lemma_portions_each(w, n, inst, inputs, cap, amount, 0, ok);
        assert forall|i: int| 0 <= i < next.len() implies ok(#[trigger] next[i]) by {
            if i >= w.len() {
                assert(next[i] == extra[i - w.len()]);
            }
        }
    } else {
        lemma_nourished_in_place(w, n, inputs, cap, amount, 0);
        assert forall|i: int| 0 <= i < next.len() implies ok(#[trigger] next[i]) by {
            if w[i].target == n {
                assert(next[i] == fed_as(w[i], n, share(inputs, w[i].item, amount, cap) as Rate));
            }
        }
    }
}

/// Serving the machines keeps what holds of every flow.
pub proof fn lemma_served_each(
    inputs: Seq<(Item, Rate)>,
    cap: Rate,
    n: int,
    first_new: int,
    reps: int,
    flows: Seq<Flow>,
    stack: Seq<Flow>,
    k: int,
    ok: spec_fn(Flow) -> bool,
    ok_piece: spec_fn(Flow) -> bool,
)
    requires
        splitting(n, first_new, reps, cap),
        0 <= k <= reps,
        carried_over(n, first_new, reps, ok, ok_piece),
        each(flows, ok),
        each(stack, ok_piece),
        served(inputs, cap, n, first_new, reps, flows, stack, k) is Ok,
    ensures
        each(served(inputs, cap, n, first_new, reps, flows, stack, k).unwrap(), ok),
    decreases reps - k,
{
    if k < reps {
        lemma_equipped_each(inputs, cap, n, first_new, reps, flows, stack, k, ok, ok_piece);
        lemma_served_each(
            inputs,
            cap,
            n,
            first_new,
            reps,
            equipped(inputs, cap, n, instance(n, first_new, reps, k), flows, stack).unwrap(),
            filled(stack, cap).rest,
            k + 1,
            ok,
            ok_piece,
        );
    }
}

/// Serving the machines gives a node that is none of them no flow in
/// but the pieces that go to it: where no piece carries `item` to node
/// `u`, as many flows carry it there after as before.
pub proof fn lemma_served_feeders_elsewhere(
    inputs: Seq<(Item, Rate)>,
    cap: Rate,
    n: int,
    first_new: int,
    reps: int,
    flows: Seq<Flow>,
    stack: Seq<Flow>,
    k: int,
    u: int,
    item: Item,
)
    requires
        splitting(n, first_new, reps, cap),
        0 <= k <= reps,
        !machine_of(n, first_new, reps, u),
        forall|i: int| 0 <= i < stack.len() ==> !counts(#[trigger] stack[i], Tally::Entering(u, item)),
        served(inputs, cap, n, first_new, reps, flows, stack, k) is Ok,
    ensures
        count(
            served(inputs, cap, n, first_new, reps, flows, stack, k).unwrap(),
            Tally::Entering(u, item),
        ) == count(flows, Tally::Entering(u, item)),
    decreases reps - k,
{
    if k < reps {
        let tally = Tally::Entering(u, item);
        let inst = instance(n, first_new, reps, k);
        assert(machine_of(n, first_new, reps, inst));
        lemma_equipped_unfolds(inputs, cap, n, inst, flows, stack);
        let ok = |f: Flow| !counts(f, tally);
        assert(blind_to_rate(ok));
        assert(each(stack, ok));
        lemma_filled_each(stack, cap, ok);
        let taken = filled(stack, cap).taken;
        let rest = filled(stack, cap).rest;
        let w = with_pieces(flows, inst, stack, cap);
        let amount = taking(stack, cap);
        let next = equipped(inputs, cap, n, inst, flows, stack).unwrap();
        assert forall|i: int| 0 <= i < sent(taken, inst).len() implies !counts(
            #[trigger] sent(taken, inst)[i],
            tally,
        ) by {
            assert(ok(taken[i]));
        }
        crate::flow::lemma_count_concat(flows, sent(taken, inst), tally);
        crate::flow::lemma_count_none(sent(taken, inst), tally);
        if inst != n {
            lemma_nourished_appends(w, n, inst, inputs, cap, amount, 0);
            let extra = portions_from(w, n, inst, inputs, cap, amount, 0);
            crate::lemmas::machines::lemma_portions_target(w, n, inst, inputs, cap, amount, 0);
            crate::flow::lemma_count_concat(w, extra, tally);
            crate::flow::lemma_count_none(extra, tally);
        } else {
            lemma_nourished_in_place(w, n, inputs, cap, amount, 0);
            crate::flow::lemma_count_same(next, w, tally);
        }
        assert forall|i: int| 0 <= i < rest.len() implies !counts(#[trigger] rest[i], tally) by {
            assert(ok(rest[i]));
        }
        lemma_served_feeders_elsewhere(inputs, cap, n, first_new, reps, next, rest, k + 1, u, item);
    }
}

} // verus!
