//! Flows between the nodes of a plan, and sums over them.
use vstd::prelude::*;
use crate::catalog::Item;
use crate::catalog::Rate;

verus! {

/// A committed flow of one item from a producing node to a consuming node.
#[derive(Clone, Copy, Debug, PartialEq, Eq, Structural)]
pub struct Flow {
    /// Index of the producing node.
    pub source: usize,
    /// Index of the consuming node.
    pub target: usize,
    pub item: Item,
    pub rate: Rate,
}

/// Which flows a sum counts.
pub enum Tally {
    /// The flows that leave this node.
    Leaving(int),
    /// The flows that carry this item into this node.
    Entering(int, Item),
    /// The flows from the first node to the second.
    Between(int, int),
    /// Every flow.
    All,
}

/// Whether `tally` counts the flow `f`.
pub open spec fn counts(f: Flow, tally: Tally) -> bool {
    match tally {
        Tally::Leaving(n) => f.source == n,
        Tally::Entering(n, item) => f.target == n && f.item == item,
        Tally::Between(a, b) => f.source == a && f.target == b,
        Tally::All => true,
    }
}

/// What the flow `f` adds to the sum `tally`.
pub open spec fn amount(f: Flow, tally: Tally) -> int {
    if counts(f, tally) {
        f.rate as int
    } else {
        0
    }
}

/// The sum of the rates of the flows that `tally` counts.
pub open spec fn sum(flows: Seq<Flow>, tally: Tally) -> int
    decreases flows.len(),
{
    if flows.len() == 0 {
        0
    } else {
        sum(flows.drop_last(), tally) + amount(flows.last(), tally)
    }
}

/// The number of flows that `tally` counts.
pub open spec fn count(flows: Seq<Flow>, tally: Tally) -> int
    decreases flows.len(),
{
    if flows.len() == 0 {
        0
    } else {
        count(flows.drop_last(), tally) + if counts(flows.last(), tally) {
            1int
        } else {
            0int
        }
    }
}

/// The total rate that leaves node `n`.
pub open spec fn total_out(flows: Seq<Flow>, n: int) -> int {
    sum(flows, Tally::Leaving(n))
}

/// The total rate of `item` that enters node `n`.
pub open spec fn total_in(flows: Seq<Flow>, n: int, item: Item) -> int {
    sum(flows, Tally::Entering(n, item))
}

/// The sum of all rates of the list.
pub open spec fn total(flows: Seq<Flow>) -> int {
    sum(flows, Tally::All)
}

/// The list `flows` after the flow at `at` has been taken out the way the
/// container does it: the last flow moves into the gap.
pub open spec fn swap_removed(flows: Seq<Flow>, at: int) -> Seq<Flow> {
    flows.update(at, flows.last()).drop_last()
}

/// Some flow leaves node `n`.
pub open spec fn has_outgoing(flows: Seq<Flow>, n: int) -> bool {
    exists|i: int| 0 <= i < flows.len() && (#[trigger] flows[i]).source == n
}

/// Some flow enters node `n`.
pub open spec fn has_incoming(flows: Seq<Flow>, n: int) -> bool {
    exists|i: int| 0 <= i < flows.len() && (#[trigger] flows[i]).target == n
}

/// The nodes below `upto` that no flow leaves (`outgoing`) or that no flow
/// enters (otherwise), by rising index.
pub open spec fn loose_ends(flows: Seq<Flow>, upto: int, outgoing: bool) -> Seq<usize>
    decreases upto,
{
    if upto <= 0 {
        Seq::empty()
    } else {
        let below = loose_ends(flows, upto - 1, outgoing);
        let busy = if outgoing {
            has_outgoing(flows, upto - 1)
        } else {
            has_incoming(flows, upto - 1)
        };
        if busy {
            below
        } else {
            below.push((upto - 1) as usize)
        }
    }
}

/// A sum is never negative and grows by at most the largest rate per flow.
pub proof fn lemma_sum_bounds(flows: Seq<Flow>, tally: Tally)
    ensures
        0 <= sum(flows, tally) <= flows.len() * u64::MAX,
    decreases flows.len(),
{
    if flows.len() > 0 {
        lemma_sum_bounds(flows.drop_last(), tally);
        assert(flows.len() * u64::MAX == (flows.len() - 1) * u64::MAX + u64::MAX) by (nonlinear_arith);
    } else {
        assert(flows.len() * u64::MAX == 0) by (nonlinear_arith)
            requires
                flows.len() == 0,
        ;
    }
}

/// Appending a flow adds its amount.
pub proof fn lemma_sum_push(flows: Seq<Flow>, f: Flow, tally: Tally)
    ensures
        sum(flows.push(f), tally) == sum(flows, tally) + amount(f, tally),
{
    assert(flows.push(f).drop_last() =~= flows);
}

/// Replacing a flow swaps its amount for the new one.
pub proof fn lemma_sum_update(flows: Seq<Flow>, at: int, f: Flow, tally: Tally)
    requires
        0 <= at < flows.len(),
    ensures
        sum(flows.update(at, f), tally) == sum(flows, tally) - amount(flows[at], tally) + amount(
            f,
            tally,
        ),
    decreases flows.len(),
{
    let updated = flows.update(at, f);
    if at == flows.len() - 1 {
        assert(updated.drop_last() =~= flows.drop_last());
    } else {
        lemma_sum_update(flows.drop_last(), at, f, tally);
        assert(updated.drop_last() =~= flows.drop_last().update(at, f));
    }
}

/// Taking a flow out takes its amount out.
pub proof fn lemma_sum_swap_removed(flows: Seq<Flow>, at: int, tally: Tally)
    requires
        0 <= at < flows.len(),
    ensures
        sum(swap_removed(flows, at), tally) == sum(flows, tally) - amount(flows[at], tally),
{
    lemma_sum_update(flows, at, flows.last(), tally);
}

/// A sum that counts no flow is zero.
pub proof fn lemma_sum_none(flows: Seq<Flow>, tally: Tally)
    requires
        forall|i: int| 0 <= i < flows.len() ==> !counts(#[trigger] flows[i], tally),
    ensures
        sum(flows, tally) == 0,
    decreases flows.len(),
{
    if flows.len() > 0 {
        lemma_sum_none(flows.drop_last(), tally);
    }
}

/// The sum over two lists joined is the sum of their sums.
pub proof fn lemma_sum_concat(a: Seq<Flow>, b: Seq<Flow>, tally: Tally)
    ensures
        sum(a + b, tally) == sum(a, tally) + sum(b, tally),
    decreases b.len(),
{
    if b.len() == 0 {
        assert(a + b =~= a);
    } else {
        lemma_sum_concat(a, b.drop_last(), tally);
        assert((a + b).drop_last() =~= a + b.drop_last());
    }
}

/// No sum is larger than the sum of all rates.
pub proof fn lemma_sum_below_total(flows: Seq<Flow>, tally: Tally)
    ensures
        0 <= sum(flows, tally) <= total(flows),
    decreases flows.len(),
{
    if flows.len() > 0 {
        lemma_sum_below_total(flows.drop_last(), tally);
    }
}

/// The sum over one flow is its amount.
pub proof fn lemma_sum_one(f: Flow, tally: Tally)
    ensures
        sum(seq![f], tally) == amount(f, tally),
{
    let one = seq![f];
    assert(one.len() == 1);
    assert(one.last() == f);
    assert(one.drop_last().len() == 0);
    assert(sum(one.drop_last(), tally) == 0);
}

/// Taking out a flow that is not counted changes no count.
pub proof fn lemma_count_swap_removed(flows: Seq<Flow>, at: int, tally: Tally)
    requires
        0 <= at < flows.len(),
        !counts(flows[at], tally),
    ensures
        count(swap_removed(flows, at), tally) == count(flows, tally),
    decreases flows.len(),
{
    let last = flows.last();
    let updated = flows.update(at, last);
    if at == flows.len() - 1 {
        assert(updated.drop_last() =~= flows.drop_last());
    } else {
        assert(updated.drop_last() =~= flows.drop_last().update(at, last));
        lemma_count_replace(flows.drop_last(), at, last, tally);
    }
}

/// Replacing a flow that is not counted by another adds one to the count
/// where the other is counted.
pub proof fn lemma_count_replace(flows: Seq<Flow>, at: int, f: Flow, tally: Tally)
    requires
        0 <= at < flows.len(),
        !counts(flows[at], tally),
    ensures
        count(flows.update(at, f), tally) == count(flows, tally) + if counts(f, tally) {
            1int
        } else {
            0int
        },
    decreases flows.len(),
{
    let updated = flows.update(at, f);
    if at == flows.len() - 1 {
        assert(updated.drop_last() =~= flows.drop_last());
    } else {
        lemma_count_replace(flows.drop_last(), at, f, tally);
        assert(updated.drop_last() =~= flows.drop_last().update(at, f));
    }
}

/// A count is never negative; it is positive where some flow is counted.
pub proof fn lemma_count_positive(flows: Seq<Flow>, tally: Tally, i: int)
    ensures
        0 <= count(flows, tally),
        0 <= i < flows.len() && counts(flows[i], tally) ==> count(flows, tally) >= 1,
    decreases flows.len(),
{
    if flows.len() > 0 {
        lemma_count_positive(flows.drop_last(), tally, i);
    }
}

/// Two sums that count the same flows of a list are equal.
pub proof fn lemma_sum_same(flows: Seq<Flow>, one: Tally, other: Tally)
    requires
        forall|i: int| 0 <= i < flows.len() ==> counts(#[trigger] flows[i], one) == counts(flows[i], other),
    ensures
        sum(flows, one) == sum(flows, other),
    decreases flows.len(),
{
    if flows.len() > 0 {
        lemma_sum_same(flows.drop_last(), one, other);
    }
}

/// The count over two lists joined is the sum of their counts.
pub proof fn lemma_count_concat(a: Seq<Flow>, b: Seq<Flow>, tally: Tally)
    ensures
        count(a + b, tally) == count(a, tally) + count(b, tally),
    decreases b.len(),
{
    if b.len() == 0 {
        assert(a + b =~= a);
    } else {
        lemma_count_concat(a, b.drop_last(), tally);
        assert((a + b).drop_last() =~= a + b.drop_last());
    }
}

/// Where no flow is counted, the count is zero.
pub proof fn lemma_count_none(flows: Seq<Flow>, tally: Tally)
    requires
        forall|i: int| 0 <= i < flows.len() ==> !counts(#[trigger] flows[i], tally),
    ensures
        count(flows, tally) == 0,
    decreases flows.len(),
{
    if flows.len() > 0 {
        lemma_count_none(flows.drop_last(), tally);
    }
}

/// Two lists of which the same places are counted have the same count.
pub proof fn lemma_count_same(a: Seq<Flow>, b: Seq<Flow>, tally: Tally)
    requires
        a.len() == b.len(),
        forall|i: int| 0 <= i < a.len() ==> counts(#[trigger] a[i], tally) == counts(b[i], tally),
    ensures
        count(a, tally) == count(b, tally),
    decreases a.len(),
{
    if a.len() > 0 {
        lemma_count_same(a.drop_last(), b.drop_last(), tally);
    }
}

/// Where no two flows are counted, the count is one at most.
pub proof fn lemma_count_at_most_one(flows: Seq<Flow>, tally: Tally)
    requires
        forall|i: int, j: int|
            0 <= i < j < flows.len() ==> !(counts(#[trigger] flows[i], tally) && counts(
                #[trigger] flows[j],
                tally,
            )),
    ensures
        count(flows, tally) <= 1,
    decreases flows.len(),
{
    if flows.len() > 0 {
        lemma_count_at_most_one(flows.drop_last(), tally);
        if counts(flows.last(), tally) {
            assert forall|i: int| 0 <= i < flows.drop_last().len() implies !counts(
                #[trigger] flows.drop_last()[i],
                tally,
            ) by {
                assert(flows.drop_last()[i] == flows[i]);
                assert(counts(flows[flows.len() - 1], tally));
            }
            lemma_count_none(flows.drop_last(), tally);
        }
    }
}

} // verus!
