//! Cutting flows into machine-sized pieces and handing them to machines.
use vstd::prelude::*;
use crate::catalog::Rate;
use crate::flow::Flow;

verus! {

/// The flow `f` carrying `rate` instead of its own rate.
pub open spec fn with_rate(f: Flow, rate: Rate) -> Flow {
    Flow { source: f.source, target: f.target, item: f.item, rate }
}

/// The flow `f` cut into pieces of at most `cap`: full pieces first, then
/// what is left over. A flow of nothing gives no piece.
pub open spec fn chopped(f: Flow, cap: Rate) -> Seq<Flow>
    decreases f.rate,
{
    if f.rate == 0 {
        Seq::empty()
    } else if f.rate <= cap || cap == 0 {
        seq![f]
    } else {
        seq![with_rate(f, cap)] + chopped(with_rate(f, (f.rate - cap) as Rate), cap)
    }
}

/// Every flow of the list cut into pieces of at most `cap`, in listed order.
pub open spec fn sliced(flows: Seq<Flow>, cap: Rate) -> Seq<Flow>
    decreases flows.len(),
{
    if flows.len() == 0 {
        Seq::empty()
    } else {
        sliced(flows.drop_last(), cap) + chopped(flows.last(), cap)
    }
}

/// The list `sorted` with `f` put in behind the last flow that is no larger.
pub open spec fn inserted(sorted: Seq<Flow>, f: Flow) -> Seq<Flow>
    decreases sorted.len(),
{
    if sorted.len() == 0 {
        seq![f]
    } else if sorted.last().rate <= f.rate {
        sorted.push(f)
    } else {
        inserted(sorted.drop_last(), f).push(sorted.last())
    }
}

/// The flows by rising rate; flows of equal rate keep their order.
pub open spec fn ascending(flows: Seq<Flow>) -> Seq<Flow>
    decreases flows.len(),
{
    if flows.len() == 0 {
        Seq::empty()
    } else {
        inserted(ascending(flows.drop_last()), flows.last())
    }
}

/// What one machine takes from a stack of pieces.
pub struct Filling {
    /// The pieces the machine takes, in the order taken.
    pub taken: Seq<Flow>,
    /// The stack that is left.
    pub rest: Seq<Flow>,
    /// The capacity that the machine has left.
    pub room: Rate,
}

/// A machine with `room` to spare takes pieces off the end of `stack` until
/// it is full or the stack is empty. A piece too large for the room that is
/// left is cut: the machine takes what fits, and the remainder goes back on
/// the stack.
pub open spec fn filled(stack: Seq<Flow>, room: Rate) -> Filling
    decreases stack.len(),
{
    if room == 0 || stack.len() == 0 {
        Filling { taken: Seq::empty(), rest: stack, room }
    } else {
        let top = stack.last();
        if top.rate > room {
            Filling {
                taken: seq![with_rate(top, room)],
                rest: stack.drop_last().push(with_rate(top, (top.rate - room) as Rate)),
                room: 0,
            }
        } else {
            let more = filled(stack.drop_last(), (room - top.rate) as Rate);
            Filling { taken: seq![top] + more.taken, rest: more.rest, room: more.room }
        }
    }
}

/// Every flow of the list meets `ok`.
pub open spec fn each(flows: Seq<Flow>, ok: spec_fn(Flow) -> bool) -> bool {
    forall|i: int| 0 <= i < flows.len() ==> ok(#[trigger] flows[i])
}

/// `ok` looks at where a flow runs and what it carries, not at its rate.
pub open spec fn blind_to_rate(ok: spec_fn(Flow) -> bool) -> bool {
    forall|f: Flow, rate: Rate| ok(f) == ok(#[trigger] with_rate(f, rate))
}

/// The pieces of a flow run where the flow runs.
pub proof fn lemma_chopped_each(f: Flow, cap: Rate, ok: spec_fn(Flow) -> bool)
    requires
        blind_to_rate(ok),
        ok(f),
    ensures
        each(chopped(f, cap), ok),
    decreases f.rate,
{
    if f.rate != 0 && !(f.rate <= cap || cap == 0) {
        let rest = with_rate(f, (f.rate - cap) as Rate);
        lemma_chopped_each(rest, cap, ok);
        assert(ok(with_rate(f, cap)));
    }
}

/// The pieces of flows run where the flows run.
pub proof fn lemma_sliced_each(flows: Seq<Flow>, cap: Rate, ok: spec_fn(Flow) -> bool)
    requires
        blind_to_rate(ok),
        each(flows, ok),
    ensures
        each(sliced(flows, cap), ok),
    decreases flows.len(),
{
    if flows.len() > 0 {
        lemma_sliced_each(flows.drop_last(), cap, ok);
        lemma_chopped_each(flows.last(), cap, ok);
    }
}

/// Putting a flow in its place leaves the others what they are.
pub proof fn lemma_inserted_each(sorted: Seq<Flow>, f: Flow, ok: spec_fn(Flow) -> bool)
    requires
        each(sorted, ok),
        ok(f),
    ensures
        each(inserted(sorted, f), ok),
{
    lemma_inserted_at_slot(sorted, f);
}

/// Sorting leaves the flows what they are.
pub proof fn lemma_ascending_each(flows: Seq<Flow>, ok: spec_fn(Flow) -> bool)
    requires
        each(flows, ok),
    ensures
        each(ascending(flows), ok),
    decreases flows.len(),
{
    if flows.len() > 0 {
        lemma_ascending_each(flows.drop_last(), ok);
        lemma_inserted_each(ascending(flows.drop_last()), flows.last(), ok);
    }
}

/// What a machine takes, and what it leaves, runs where the stack's pieces run.
pub proof fn lemma_filled_each(stack: Seq<Flow>, room: Rate, ok: spec_fn(Flow) -> bool)
    requires
        blind_to_rate(ok),
        each(stack, ok),
    ensures
        each(filled(stack, room).taken, ok),
        each(filled(stack, room).rest, ok),
    decreases stack.len(),
{
    if room != 0 && stack.len() != 0 {
        let top = stack.last();
        if top.rate > room {
            assert(ok(with_rate(top, room)));
            assert(ok(with_rate(top, (top.rate - room) as Rate)));
        } else {
            lemma_filled_each(stack.drop_last(), (room - top.rate) as Rate, ok);
        }
    }
}

/// A machine never has more room after taking pieces than before.
pub proof fn lemma_filled_room(stack: Seq<Flow>, room: Rate)
    ensures
        filled(stack, room).room <= room,
    decreases stack.len(),
{
    if room != 0 && stack.len() != 0 && stack.last().rate <= room {
        lemma_filled_room(stack.drop_last(), (room - stack.last().rate) as Rate);
    }
}

/// Appends to `out` the pieces of at most `cap` that make up `f`.
pub fn chop(f: Flow, cap: Rate, out: &mut Vec<Flow>)
    ensures
        final(out)@ == old(out)@ + chopped(f, cap),
{
    if cap == 0 {
        if f.rate > 0 {
            out.push(f);
            assert(chopped(f, cap) =~= seq![f]);
        } else {
            assert(chopped(f, cap) =~= Seq::<Flow>::empty());
        }
        assert(out@ =~= old(out)@ + chopped(f, cap));
        return;
    }
    let mut left: Rate = f.rate;
    while left > cap
        invariant
            cap > 0,
            left <= f.rate,
            old(out)@ + chopped(f, cap) == out@ + chopped(with_rate(f, left), cap),
        decreases left,
    {
        let ghost before = out@;
        out.push(Flow { source: f.source, target: f.target, item: f.item, rate: cap });
        proof {
            let cur = with_rate(f, left);
            let next = with_rate(f, (left - cap) as Rate);
            assert(with_rate(cur, cap) == with_rate(f, cap));
            assert(with_rate(cur, (cur.rate - cap) as Rate) == next);
            assert(before + (seq![with_rate(f, cap)] + chopped(next, cap)) =~= before.push(
                with_rate(f, cap),
            ) + chopped(next, cap));
        }
        left = left - cap;
    }
    if left > 0 {
        out.push(Flow { source: f.source, target: f.target, item: f.item, rate: left });
        assert(out@ =~= old(out)@ + chopped(f, cap));
    } else {
        assert(out@ =~= old(out)@ + chopped(f, cap));
    }
}

/// Cuts every flow into pieces of at most `cap`, in listed order.
pub fn slice_flows(flows: &Vec<Flow>, cap: Rate) -> (pieces: Vec<Flow>)
    ensures
        pieces@ == sliced(flows@, cap),
{
    let mut pieces: Vec<Flow> = Vec::new();
    let mut i: usize = 0;
    while i < flows.len()
        invariant
            i <= flows.len(),
            pieces@ == sliced(flows@.take(i as int), cap),
        decreases flows.len() - i,
    {
        proof {
            assert(flows@.take(i + 1).drop_last() =~= flows@.take(i as int));
        }
        chop(flows[i], cap, &mut pieces);
        i += 1;
    }
    proof {
        assert(flows@.take(flows.len() as int) =~= flows@);
    }
    pieces
}

/// Where `inserted` puts a flow of rate `rate`: behind the last flow that
/// is no larger.
pub open spec fn slot(sorted: Seq<Flow>, rate: Rate) -> int
    decreases sorted.len(),
{
    if sorted.len() == 0 || sorted.last().rate <= rate {
        sorted.len() as int
    } else {
        slot(sorted.drop_last(), rate)
    }
}

/// `inserted` puts the flow at its slot and moves nothing else.
pub proof fn lemma_inserted_at_slot(sorted: Seq<Flow>, f: Flow)
    ensures
        0 <= slot(sorted, f.rate) <= sorted.len(),
        inserted(sorted, f) == sorted.insert(slot(sorted, f.rate), f),
    decreases sorted.len(),
{
    if sorted.len() == 0 {
        assert(seq![f] =~= sorted.insert(0, f));
    } else if sorted.last().rate <= f.rate {
        assert(sorted.push(f) =~= sorted.insert(sorted.len() as int, f));
    } else {
        lemma_inserted_at_slot(sorted.drop_last(), f);
        let at = slot(sorted.drop_last(), f.rate);
        assert(sorted.drop_last().insert(at, f).push(sorted.last()) =~= sorted.insert(at, f));
    }
}

/// Sorts flows by rising rate. Flows of equal rate keep their order.
pub fn sort_ascending(flows: &Vec<Flow>) -> (sorted: Vec<Flow>)
    ensures
        sorted@ == ascending(flows@),
{
    let mut sorted: Vec<Flow> = Vec::new();
    let mut i: usize = 0;
    while i < flows.len()
        invariant
            i <= flows.len(),
            sorted@ == ascending(flows@.take(i as int)),
        decreases flows.len() - i,
    {
        let f = flows[i];
        let mut at: usize = sorted.len();
        proof {
            assert(sorted@.take(sorted.len() as int) =~= sorted@);
        }
        while at > 0 && sorted[at - 1].rate > f.rate
            invariant
                at <= sorted.len(),
                slot(sorted@, f.rate) == slot(sorted@.take(at as int), f.rate),
            decreases at,
        {
            proof {
                assert(sorted@.take(at as int).drop_last() =~= sorted@.take(at - 1));
            }
            at -= 1;
        }
        proof {
            lemma_inserted_at_slot(sorted@, f);
            assert(flows@.take(i + 1).drop_last() =~= flows@.take(i as int));
        }
        sorted.insert(at, f);
        i += 1;
    }
    proof {
        assert(flows@.take(flows.len() as int) =~= flows@);
    }
    sorted
}

/// Lets one machine with `room` to spare take pieces off the end of
/// `stack`. Returns what it took and the room it has left.
pub fn fill_machine(stack: &mut Vec<Flow>, room: Rate) -> (r: (Vec<Flow>, Rate))
    ensures
        r.0@ == filled(old(stack)@, room).taken,
        final(stack)@ == filled(old(stack)@, room).rest,
        r.1 == filled(old(stack)@, room).room,
{
    let mut taken: Vec<Flow> = Vec::new();
    let mut left: Rate = room;
    while left > 0 && stack.len() > 0
        invariant
            filled(old(stack)@, room).taken == taken@ + filled(stack@, left).taken,
            filled(old(stack)@, room).rest == filled(stack@, left).rest,
            filled(old(stack)@, room).room == filled(stack@, left).room,
        decreases stack.len(),
    {
        let ghost before = stack@;
        let ghost had = taken@;
        let top = stack.pop().unwrap();
        assert(stack@ == before.drop_last());
        if top.rate > left {
            taken.push(Flow { source: top.source, target: top.target, item: top.item, rate: left });
            stack.push(
                Flow { source: top.source, target: top.target, item: top.item, rate: top.rate - left },
            );
            assert(taken@ =~= had + seq![with_rate(top, left)]);
            assert(taken@ + Seq::<Flow>::empty() =~= taken@);
            return (taken, 0);
        }
        taken.push(top);
        proof {
            let more = filled(before.drop_last(), (left - top.rate) as Rate);
            assert(had + (seq![top] + more.taken) =~= had.push(top) + more.taken);
        }
        left = left - top.rate;
    }
    proof {
        assert(taken@ + Seq::<Flow>::empty() =~= taken@);
    }
    (taken, left)
}

} // verus!
