//! What cutting, sorting and handing out does to sums of flows: nothing.
use vstd::prelude::*;
use crate::catalog::Rate;
use crate::flow::Flow;
use crate::flow::Tally;
use crate::flow::amount;
use crate::flow::count;
use crate::flow::counts;
use crate::flow::lemma_sum_concat;
use crate::flow::lemma_sum_one;
use crate::flow::lemma_sum_push;
use crate::flow::lemma_sum_swap_removed;
use crate::flow::sum;
use crate::flow::total;
use crate::legalize::leaving_from;
use crate::legalize::stripped_from;
use crate::slicing::ascending;
use crate::slicing::chopped;
use crate::slicing::each;
use crate::slicing::filled;
use crate::slicing::inserted;
use crate::slicing::sliced;
use crate::slicing::with_rate;

verus! {

/// The pieces of a flow add up to the flow.
pub proof fn lemma_chopped_sum(f: Flow, cap: Rate, tally: Tally)
    ensures
        sum(chopped(f, cap), tally) == amount(f, tally),
    decreases f.rate,
{
    if f.rate == 0 {
    } else if f.rate <= cap || cap == 0 {
        lemma_sum_one(f, tally);
    } else {
        let rest = with_rate(f, (f.rate - cap) as Rate);
        lemma_chopped_sum(rest, cap, tally);
        lemma_sum_one(with_rate(f, cap), tally);
        lemma_sum_concat(seq![with_rate(f, cap)], chopped(rest, cap), tally);
    }
}

/// No piece of a flow is empty, and none is larger than `cap`.
pub proof fn lemma_chopped_sizes(f: Flow, cap: Rate, i: int)
    requires
        cap > 0,
        0 <= i < chopped(f, cap).len(),
    ensures
        0 < chopped(f, cap)[i].rate <= cap,
    decreases f.rate,
{
    if f.rate != 0 && !(f.rate <= cap) {
        let rest = with_rate(f, (f.rate - cap) as Rate);
        if i > 0 {
            lemma_chopped_sizes(rest, cap, i - 1);
        }
    }
}

/// Cutting flows into pieces changes no sum.
pub proof fn lemma_sliced_sum(flows: Seq<Flow>, cap: Rate, tally: Tally)
    ensures
        sum(sliced(flows, cap), tally) == sum(flows, tally),
    decreases flows.len(),
{
    if flows.len() > 0 {
        lemma_sliced_sum(flows.drop_last(), cap, tally);
        lemma_chopped_sum(flows.last(), cap, tally);
        lemma_sum_concat(sliced(flows.drop_last(), cap), chopped(flows.last(), cap), tally);
    }
}

/// No piece is empty, and none is larger than `cap`.
pub proof fn lemma_sliced_sizes(flows: Seq<Flow>, cap: Rate, i: int)
    requires
        cap > 0,
        0 <= i < sliced(flows, cap).len(),
    ensures
        0 < sliced(flows, cap)[i].rate <= cap,
    decreases flows.len(),
{
    if flows.len() > 0 {
        let head = sliced(flows.drop_last(), cap);
        if i < head.len() {
            lemma_sliced_sizes(flows.drop_last(), cap, i);
        } else {
            lemma_chopped_sizes(flows.last(), cap, i - head.len());
        }
    }
}

/// Putting a flow in its place adds its amount.
pub proof fn lemma_inserted_sum(sorted: Seq<Flow>, f: Flow, tally: Tally)
    ensures
        sum(inserted(sorted, f), tally) == sum(sorted, tally) + amount(f, tally),
    decreases sorted.len(),
{
    if sorted.len() == 0 {
        lemma_sum_one(f, tally);
    } else if sorted.last().rate <= f.rate {
        lemma_sum_push(sorted, f, tally);
    } else {
        lemma_inserted_sum(sorted.drop_last(), f, tally);
        lemma_sum_push(inserted(sorted.drop_last(), f), sorted.last(), tally);
    }
}

/// Sorting changes no sum.
pub proof fn lemma_ascending_sum(flows: Seq<Flow>, tally: Tally)
    ensures
        sum(ascending(flows), tally) == sum(flows, tally),
    decreases flows.len(),
{
    if flows.len() > 0 {
        lemma_ascending_sum(flows.drop_last(), tally);
        lemma_inserted_sum(ascending(flows.drop_last()), flows.last(), tally);
    }
}

/// What a machine takes and what it leaves add up to the stack.
pub proof fn lemma_filled_sum(stack: Seq<Flow>, room: Rate, tally: Tally)
    ensures
        sum(filled(stack, room).taken, tally) + sum(filled(stack, room).rest, tally) == sum(
            stack,
            tally,
        ),
    decreases stack.len(),
{
    if room != 0 && stack.len() != 0 {
        let top = stack.last();
        if top.rate > room {
            let part = with_rate(top, room);
            let back = with_rate(top, (top.rate - room) as Rate);
            lemma_sum_one(part, tally);
            lemma_sum_push(stack.drop_last(), back, tally);
        } else {
            let more = filled(stack.drop_last(), (room - top.rate) as Rate);
            lemma_filled_sum(stack.drop_last(), (room - top.rate) as Rate, tally);
            lemma_sum_one(top, tally);
            lemma_sum_concat(seq![top], more.taken, tally);
        }
    }
}

/// A machine takes all of the stack or as much as it has room for,
/// whichever is less, and keeps the rest of its room.
pub proof fn lemma_filled_takes(stack: Seq<Flow>, room: Rate)
    ensures
        total(filled(stack, room).taken) == room - filled(stack, room).room,
        total(filled(stack, room).taken) == if total(stack) <= room {
            total(stack)
        } else {
            room as int
        },
    decreases stack.len(),
{
    crate::flow::lemma_sum_below_total(stack, Tally::All);
    if room != 0 && stack.len() != 0 {
        let top = stack.last();
        crate::flow::lemma_sum_below_total(stack.drop_last(), Tally::All);
        if top.rate > room {
            lemma_sum_one(with_rate(top, room), Tally::All);
        } else {
            let more = filled(stack.drop_last(), (room - top.rate) as Rate);
            lemma_filled_takes(stack.drop_last(), (room - top.rate) as Rate);
            lemma_sum_one(top, Tally::All);
            lemma_sum_concat(seq![top], more.taken, Tally::All);
        }
    }
}

/// Where no piece of the stack is empty, a machine takes no empty piece
/// and leaves none.
pub proof fn lemma_filled_sizes(stack: Seq<Flow>, room: Rate)
    requires
        forall|i: int| 0 <= i < stack.len() ==> (#[trigger] stack[i]).rate > 0,
    ensures
        forall|i: int|
            0 <= i < filled(stack, room).taken.len() ==> (#[trigger] filled(stack, room).taken[i]).rate
                > 0,
        forall|i: int|
            0 <= i < filled(stack, room).rest.len() ==> (#[trigger] filled(stack, room).rest[i]).rate
                > 0,
    decreases stack.len(),
{
    if room != 0 && stack.len() != 0 {
        let top = stack.last();
        if top.rate <= room {
            lemma_filled_sizes(stack.drop_last(), (room - top.rate) as Rate);
        }
    }
}

/// Taking out the flows that leave a node touches no flow below `from`.
pub proof fn lemma_stripped_prefix(flows: Seq<Flow>, n: int, from: int)
    requires
        0 <= from <= flows.len(),
    ensures
        from <= stripped_from(flows, n, from).len() <= flows.len(),
        forall|i: int| 0 <= i < from ==> stripped_from(flows, n, from)[i] == flows[i],
    decreases flows.len() - from,
{
    if from < flows.len() {
        lemma_stripped_prefix(flows, n, from + 1);
    }
}

/// The flows taken out and the flows left add up to what was there.
pub proof fn lemma_stripped_sum(flows: Seq<Flow>, n: int, from: int, tally: Tally)
    requires
        0 <= from <= flows.len(),
    ensures
        sum(flows, tally) == sum(stripped_from(flows, n, from), tally) + sum(
            leaving_from(flows, n, from),
            tally,
        ),
    decreases flows.len() - from,
{
    if from < flows.len() {
        lemma_stripped_sum(flows, n, from + 1, tally);
        lemma_stripped_prefix(flows, n, from + 1);
        if flows[from].source == n {
            lemma_sum_swap_removed(stripped_from(flows, n, from + 1), from, tally);
            lemma_sum_push(leaving_from(flows, n, from + 1), flows[from], tally);
        }
    }
}

/// What is left after the flows leaving a node are taken out was there before.
pub proof fn lemma_stripped_each(flows: Seq<Flow>, n: int, from: int, ok: spec_fn(Flow) -> bool)
    requires
        0 <= from <= flows.len(),
        each(flows, ok),
    ensures
        each(stripped_from(flows, n, from), ok),
    decreases flows.len() - from,
{
    if from < flows.len() {
        lemma_stripped_each(flows, n, from + 1, ok);
        lemma_stripped_prefix(flows, n, from + 1);
    }
}

/// After the flows leaving a node at `from` and above are taken out, no
/// flow at `from` or above leaves the node.
pub proof fn lemma_stripped_clean(flows: Seq<Flow>, n: int, from: int)
    requires
        0 <= from <= flows.len(),
    ensures
        forall|i: int|
            from <= i < stripped_from(flows, n, from).len() ==> (#[trigger] stripped_from(
                flows,
                n,
                from,
            )[i]).source != n,
    decreases flows.len() - from,
{
    if from < flows.len() {
        lemma_stripped_clean(flows, n, from + 1);
        lemma_stripped_prefix(flows, n, from + 1);
    }
}

/// Taking out the flows that leave a node changes no count that counts
/// none of them.
pub proof fn lemma_stripped_count(flows: Seq<Flow>, n: int, from: int, tally: Tally)
    requires
        0 <= from <= flows.len(),
        forall|i: int| 0 <= i < flows.len() && (#[trigger] flows[i]).source == n ==> !counts(flows[i], tally),
    ensures
        count(stripped_from(flows, n, from), tally) == count(flows, tally),
    decreases flows.len() - from,
{
    if from < flows.len() {
        lemma_stripped_count(flows, n, from + 1, tally);
        lemma_stripped_prefix(flows, n, from + 1);
        if flows[from].source == n {
            crate::flow::lemma_count_swap_removed(stripped_from(flows, n, from + 1), from, tally);
        }
    }
}

/// The flows that leave a node do leave it.
pub proof fn lemma_leaving_source(flows: Seq<Flow>, n: int, from: int)
    ensures
        forall|i: int|
            0 <= i < leaving_from(flows, n, from).len() ==> (#[trigger] leaving_from(flows, n, from)[i]).source
                == n,
    decreases flows.len() - from,
{
    if 0 <= from < flows.len() {
        lemma_leaving_source(flows, n, from + 1);
    }
}

} // verus!
