//! Telling whether an order of nodes suits legalization.
use vstd::prelude::*;
use crate::flow::Flow;
use crate::graph::Plan;
use crate::graph::ProductionGraph;
use crate::laws::legal::covers;
use crate::laws::legal::occurs;
use crate::laws::order::consumers_first;
use crate::laws::order::earlier;
use crate::laws::order::no_repeats;

verus! {

/// The order suits legalization of the plan: it lists every node once,
/// consumers before their producers.
pub open spec fn suiting(plan: Plan, order: Seq<usize>) -> bool {
    consumers_first(plan, order) && covers(order, plan)
}

/// Every node that node `x` feeds has been placed.
pub open spec fn ready(flows: Seq<Flow>, placed: Seq<bool>, x: int) -> bool {
    forall|i: int|
        0 <= i < flows.len() && (#[trigger] flows[i]).source == x ==> flows[i].target < placed.len()
            && placed[flows[i].target as int]
}

/// The first node at or after `from` that has not been placed and feeds
/// placed nodes only.
pub open spec fn next_ready(flows: Seq<Flow>, placed: Seq<bool>, from: int) -> Option<int>
    decreases placed.len() - from,
{
    if from < 0 || from >= placed.len() {
        None
    } else if !placed[from] && ready(flows, placed, from) {
        Some(from)
    } else {
        next_ready(flows, placed, from + 1)
    }
}

/// The order that comes of placing, up to `rounds` times, the first node
/// that has not been placed and feeds placed nodes only.
pub open spec fn settled(flows: Seq<Flow>, placed: Seq<bool>, order: Seq<usize>, rounds: nat) -> Seq<
    usize,
>
    decreases rounds,
{
    if rounds == 0 {
        order
    } else {
        match next_ready(flows, placed, 0) {
            None => order,
            Some(x) => settled(flows, placed.update(x, true), order.push(x as usize), (rounds - 1) as nat),
        }
    }
}

/// An order of the plan's nodes in which every node comes after the
/// nodes it feeds: time and again, the node of least index is placed that
/// has not been placed and feeds placed nodes only. Where flows run in a
/// circle, the nodes on it and those that feed them are left out.
pub open spec fn consumers_order(plan: Plan) -> Seq<usize> {
    settled(
        plan.flows,
        Seq::new(plan.stations.len(), |x: int| false),
        Seq::empty(),
        plan.stations.len(),
    )
}

/// `place` says of each node where among the first `upto` of `order` it
/// occurs, if it does.
pub open spec fn placing(order: Seq<usize>, upto: int, place: Seq<Option<usize>>) -> bool {
    &&& forall|j: int| 0 <= j < upto ==> (#[trigger] order[j]) < place.len() && place[order[j] as int]
        == Some(j as usize)
    &&& forall|x: int|
        0 <= x < place.len() ==> match #[trigger] place[x] {
            Some(j) => j < upto && order[j as int] == x,
            None => true,
        }
}

impl ProductionGraph {
    /// Whether every node that node `x` feeds has been placed.
    fn is_ready(&self, placed: &Vec<bool>, x: usize) -> (r: bool)
        requires
            self.wf(),
            placed@.len() == self@.stations.len(),
        ensures
            r == ready(self@.flows, placed@, x as int),
    {
        let count = self.edge_count();
        let mut i: usize = 0;
        while i < count
            invariant
                self.wf(),
                placed@.len() == self@.stations.len(),
                count == self@.flows.len(),
                i <= count,
                forall|k: int|
                    0 <= k < i && (#[trigger] self@.flows[k]).source == x ==> self@.flows[k].target
                        < placed@.len() && placed@[self@.flows[k].target as int],
            decreases count - i,
        {
            let f = self.flow(i).unwrap();
            if f.source == x && !placed[f.target] {
                return false;
            }
            i += 1;
        }
        true
    }

    /// The first node that has not been placed and feeds placed nodes only.
    fn first_ready(&self, placed: &Vec<bool>) -> (r: Option<usize>)
        requires
            self.wf(),
            placed@.len() == self@.stations.len(),
        ensures
            match next_ready(self@.flows, placed@, 0) {
                Some(x) => r == Some(x as usize) && 0 <= x < placed@.len(),
                None => r is None,
            },
    {
        let nodes = placed.len();
        let mut x: usize = 0;
        while x < nodes
            invariant
                self.wf(),
                nodes == placed@.len(),
                placed@.len() == self@.stations.len(),
                x <= nodes,
                next_ready(self@.flows, placed@, 0) == next_ready(self@.flows, placed@, x as int),
            decreases nodes - x,
        {
            if !placed[x] && self.is_ready(placed, x) {
                return Some(x);
            }
            x += 1;
        }
        None
    }

    /// An order of the nodes in which every node comes after the nodes it
    /// feeds. Where flows run in a circle, the nodes on it and those that
    /// feed them are left out.
    pub fn consumers_order(&self) -> (order: Vec<usize>)
        requires
            self.wf(),
        ensures
            order@ == consumers_order(self@),
    {
        let nodes = self.node_count();
        let mut placed: Vec<bool> = Vec::new();
        let mut x: usize = 0;
        while x < nodes
            invariant
                x <= nodes,
                placed@ =~= Seq::new(x as nat, |i: int| false),
            decreases nodes - x,
        {
            placed.push(false);
            x += 1;
        }
        let mut order: Vec<usize> = Vec::new();
        let mut round: usize = 0;
        while round < nodes
            invariant
                self.wf(),
                nodes == self@.stations.len(),
                placed@.len() == nodes,
                round <= nodes,
                consumers_order(self@) == settled(
                    self@.flows,
                    placed@,
                    order@,
                    (nodes - round) as nat,
                ),
            decreases nodes - round,
        {
            match self.first_ready(&placed) {
                None => {
                    return order;
                },
                Some(x) => {
                    placed.set(x, true);
                    order.push(x);
                },
            }
            round += 1;
        }
        order
    }

    /// Whether `order` lists every node of the graph once, each consumer
    /// before its producers, and no flow leaves a node only to enter it
    /// again. Legalizing along such an order makes the graph legal.
    pub fn suits(&self, order: &Vec<usize>) -> (r: bool)
        requires
            self.wf(),
        ensures
            r == suiting(self@, order@),
    {
        let nodes = self.node_count();
        let mut place: Vec<Option<usize>> = Vec::new();
        let mut x: usize = 0;
        while x < nodes
            invariant
                x <= nodes,
                place@.len() == x,
                forall|i: int| 0 <= i < x ==> (#[trigger] place@[i]) is None,
            decreases nodes - x,
        {
            place.push(None);
            x += 1;
        }
        let mut j: usize = 0;
        while j < order.len()
            invariant
                nodes == self@.stations.len(),
                place@.len() == nodes,
                j <= order.len(),
                placing(order@, j as int, place@),
            decreases order.len() - j,
        {
            let n = order[j];
            if n >= nodes {
                return false;
            }
            match place[n] {
                Some(before) => {
                    proof {
                        assert(order@[before as int] == order@[j as int]);
                    }
                    return false;
                },
                None => {},
            }
            let ghost had = place@;
            place.set(n, Some(j));
            proof {
                assert forall|i: int| 0 <= i < j + 1 implies (#[trigger] order@[i]) < place@.len()
                    && place@[order@[i] as int] == Some(i as usize) by {
                    if i < j {
                        assert(had[order@[i] as int] == Some(i as usize));
                    }
                }
            }
            j += 1;
        }
        proof {
            assert(no_repeats(order@)) by {
                assert forall|a: int, b: int| 0 <= a < b < order@.len() implies order@[a] != order@[b] by {
                    assert(place@[order@[a] as int] == Some(a as usize));
                    assert(place@[order@[b] as int] == Some(b as usize));
                }
            }
        }
        let mut x: usize = 0;
        while x < nodes
            invariant
                nodes == self@.stations.len(),
                place@.len() == nodes,
                x <= nodes,
                placing(order@, order@.len() as int, place@),
                forall|i: int| 0 <= i < x ==> (#[trigger] place@[i]) is Some,
            decreases nodes - x,
        {
            if place[x].is_none() {
                proof {
                    if occurs(order@, x as int) {
                        let k = choose|k: int| 0 <= k < order@.len() && #[trigger] order@[k] == x;
                        assert(place@[order@[k] as int] == Some(k as usize));
                    }
                }
                return false;
            }
            x += 1;
        }
        proof {
            assert forall|n: int| 0 <= n < self@.stations.len() implies #[trigger] occurs(order@, n) by {
                let at = place@[n]->Some_0;
                assert(place@[n] is Some);
                assert(order@[at as int] == n);
            }
        }
        let count = self.edge_count();
        let mut i: usize = 0;
        while i < count
            invariant
                self.wf(),
                nodes == self@.stations.len(),
                place@.len() == nodes,
                count == self@.flows.len(),
                i <= count,
                placing(order@, order@.len() as int, place@),
                no_repeats(order@),
                forall|x: int| 0 <= x < nodes ==> (#[trigger] place@[x]) is Some,
                forall|k: int|
                    0 <= k < i ==> (#[trigger] self@.flows[k]).source != self@.flows[k].target && earlier(
                        order@,
                        self@.flows[k].target as int,
                        self@.flows[k].source as int,
                    ),
            decreases count - i,
        {
            let f = self.flow(i).unwrap();
            if f.source == f.target {
                return false;
            }
            let from = place[f.source].unwrap();
            let to = place[f.target].unwrap();
            proof {
                assert(place@[f.source as int] is Some);
                assert(place@[f.target as int] is Some);
                assert(order@[from as int] == f.source);
                assert(order@[to as int] == f.target);
            }
            if to >= from {
                proof {
                    assert(occurs(order@, f.source as int));
                    if earlier(order@, f.target as int, f.source as int) {
                        let (ja, jb) = choose|ja: int, jb: int|
                            0 <= ja < jb < order@.len() && #[trigger] order@[ja] == f.target
                                && #[trigger] order@[jb] == f.source;
                        assert(place@[order@[ja] as int] == Some(ja as usize));
                        assert(place@[order@[jb] as int] == Some(jb as usize));
                    }
                }
                return false;
            }
            i += 1;
        }
        true
    }
}

} // verus!
