//! Shortest paths over a measured network.
//!
//! The network is handed in node by node: each node with its distance from
//! the goal and with the nodes one link away, each at its distance. The
//! search walks it from a start node until it meets the goal, or a node
//! within [`GOAL_TOLERANCE`] metres of it. The length of the path found is
//! summed here, hop by hop, each hop at the shortest link between its ends.

use crate::node::RouteNode;
use std::collections::HashMap;
use vstd::prelude::*;
use vstd::std_specs::hash::group_hash_axioms;

verus! {

broadcast use group_hash_axioms;

/// A node nearer to the goal than this many metres counts as the goal.
pub const GOAL_TOLERANCE: i32 = 100;

/// The most nodes that a network holds.
pub const MAX_NODES: usize = 0xffff_ffff;

/// One node of the network as it was measured: how far it is from the goal,
/// and which nodes lie one link away and how far, all in metres.
pub struct Measured {
    pub node: RouteNode,
    pub to_goal: i32,
    pub links: Vec<(RouteNode, i32)>,
}

/// A measured network: the id of the goal, and the measured nodes by id.
pub struct Network {
    pub goal: i64,
    pub entries: Map<i64, Measured>,
}

/// What a search found: the nodes of the path from start to goal, and its
/// length in metres. No nodes and no length where the goal cannot be reached.
pub struct RouteResult {
    pub linestring: Vec<RouteNode>,
    pub distance: i64,
}

/// Turns a link into a step, where the node that it leads to was measured.
pub open spec fn pick_step(net: Network) -> spec_fn((RouteNode, i32)) -> Option<(i64, i64)> {
    |link: (RouteNode, i32)|
        if net.entries.contains_key(link.0.id) {
            Some((link.0.id, link.1 as i64))
        } else {
            None
        }
}

/// The sum of the lengths.
pub open spec fn total(costs: Seq<i64>) -> int
    decreases costs.len(),
{
    if costs.len() == 0 {
        0
    } else {
        total(costs.drop_last()) + costs.last()
    }
}

/// The ids of the nodes.
pub open spec fn ids_of(line: Seq<RouteNode>) -> Seq<i64> {
    line.map_values(|node: RouteNode| node.id)
}

/// The length of the shortest of the steps that lead to `target`, if one
/// does.
pub open spec fn least_to(steps: Seq<(i64, i64)>, target: i64) -> Option<i64>
    decreases steps.len(),
{
    if steps.len() == 0 {
        None
    } else {
        let before = least_to(steps.drop_last(), target);
        if steps.last().0 != target {
            before
        } else if before is Some && before->0 <= steps.last().1 {
            before
        } else {
            Some(steps.last().1)
        }
    }
}

impl Network {
    /// Whether the node with this id was measured.
    pub open spec fn has(self, id: i64) -> bool {
        self.entries.contains_key(id)
    }

    /// Every node is filed under its own id, no distance to the goal and no
    /// length of a link is negative, and the network holds no more than
    /// [`MAX_NODES`] nodes.
    pub open spec fn wf(self) -> bool {
        &&& self.entries.dom().finite()
        &&& self.entries.dom().len() <= MAX_NODES
        &&& forall|id: i64|
            self.has(id) ==> (#[trigger] self.entries[id]).node.id == id && self.entries[id].to_goal
                >= 0
        &&& forall|id: i64, k: int|
            self.has(id) && 0 <= k < self.entries[id].links@.len() ==> (
            #[trigger] self.entries[id].links@[k]).1 >= 0
    }

    /// The steps that can be taken from a node: for each of its links that
    /// leads to a measured node, that node's id and the length of the link.
    pub open spec fn steps(self, id: i64) -> Seq<(i64, i64)> {
        if self.has(id) {
            self.entries[id].links@.filter_map(pick_step(self))
        } else {
            Seq::empty()
        }
    }

    /// The distance in metres from a node to the goal, as it was measured;
    /// 0 for a node that was not.
    pub open spec fn estimate(self, id: i64) -> int {
        if self.has(id) {
            self.entries[id].to_goal as int
        } else {
            0
        }
    }

    /// Whether a search may stop at this node: it is the goal, or it lies
    /// within [`GOAL_TOLERANCE`] metres of it.
    pub open spec fn is_goal(self, id: i64) -> bool {
        id == self.goal || (self.has(id) && self.entries[id].to_goal < GOAL_TOLERANCE)
    }

    /// Whether the network has a step from `path[i]` to `path[i + 1]` of
    /// length `costs[i]`.
    pub open spec fn is_hop(self, path: Seq<i64>, costs: Seq<i64>, i: int) -> bool {
        self.steps(path[i]).contains((path[i + 1], costs[i]))
    }

    /// Whether `path` is a walk through the network whose steps have the
    /// lengths `costs`.
    pub open spec fn is_route(self, path: Seq<i64>, costs: Seq<i64>) -> bool {
        &&& path.len() == costs.len() + 1
        &&& forall|i: int| 0 <= i < costs.len() ==> #[trigger] self.is_hop(path, costs, i)
    }

    /// Whether `path` is a walk from `start` to a node at which a search may
    /// stop.
    pub open spec fn reaches_goal(self, start: i64, path: Seq<i64>, costs: Seq<i64>) -> bool {
        &&& self.is_route(path, costs)
        &&& path[0] == start
        &&& self.is_goal(path.last())
    }

    /// Whether no measured distance to the goal exceeds the length of a walk
    /// from that node to a node at which a search may stop.
    pub open spec fn admissible(self) -> bool {
        forall|path: Seq<i64>, costs: Seq<i64>|
            #![trigger self.is_route(path, costs)]
            self.is_route(path, costs) && self.has(path[0]) && self.is_goal(path.last())
                ==> self.estimate(path[0]) <= total(costs)
    }

    /// Whether the measured distances to the goal obey the triangle
    /// inequality along every step, and are not above 0 at a node at which
    /// a search may stop.
    pub open spec fn consistent(self) -> bool {
        &&& forall|id: i64, k: int|
            #![trigger self.steps(id)[k]]
            self.has(id) && 0 <= k < self.steps(id).len() ==> self.estimate(id) <= self.steps(
                id,
            )[k].1 + self.estimate(self.steps(id)[k].0)
        &&& forall|id: i64| self.has(id) && #[trigger] self.is_goal(id) ==> self.estimate(id) <= 0
    }

    /// The length of the hop from one node to the next: that of the shortest
    /// step between them; 0 where there is none.
    pub open spec fn hop(self, from: i64, to: i64) -> i64 {
        match least_to(self.steps(from), to) {
            Some(length) => length,
            None => 0,
        }
    }

    /// The lengths of the hops along `path`.
    pub open spec fn hops(self, path: Seq<i64>) -> Seq<i64> {
        if path.len() == 0 {
            Seq::empty()
        } else {
            Seq::new((path.len() - 1) as nat, |i: int| self.hop(path[i], path[i + 1]))
        }
    }

    /// The length of `path`: the sum of the lengths of its hops.
    pub open spec fn length(self, path: Seq<i64>) -> int {
        total(self.hops(path))
    }

    /// Whether no walk from `start` to a stopping node is shorter than
    /// `length`.
    pub open spec fn no_shorter(self, start: i64, length: int) -> bool {
        forall|other: Seq<i64>, costs: Seq<i64>|
            #![trigger self.reaches_goal(start, other, costs)]
            self.reaches_goal(start, other, costs) ==> length <= total(costs)
    }

    /// Whether no walk leads from `start` to a node at which a search may
    /// stop.
    pub open spec fn unreachable(self, start: i64) -> bool {
        forall|path: Seq<i64>, costs: Seq<i64>|
            #![trigger self.reaches_goal(start, path, costs)]
            !self.reaches_goal(start, path, costs)
    }

    /// What the outside search may hand back as `path` and `cost`: a walk
    /// from `start` to a stopping node on which no node occurs twice; the
    /// start alone, at no cost, where the start is a stopping node; and a
    /// shortest walk with its length, where the measured distances are
    /// admissible.
    pub open spec fn is_answer(self, start: i64, path: Seq<i64>, cost: int) -> bool {
        &&& exists|costs: Seq<i64>| #[trigger] self.reaches_goal(start, path, costs)
        &&& path.no_duplicates()
        &&& self.is_goal(start) ==> path == seq![start] && cost == 0
        &&& self.admissible() ==> self.no_shorter(start, cost) && exists|costs: Seq<i64>|
            #![trigger self.reaches_goal(start, path, costs)]
            self.reaches_goal(start, path, costs) && total(costs) == cost
    }

    /// What a search from `start` returns as `path` and `distance`: a walk
    /// from `start` to a stopping node on which no node occurs twice, with
    /// the sum of its hops; the start alone where the start is a stopping
    /// node; and a walk than which none is shorter, where the measured
    /// distances are admissible.
    pub open spec fn is_found(self, start: i64, path: Seq<i64>, distance: int) -> bool {
        &&& self.reaches_goal(start, path, self.hops(path))
        &&& distance == self.length(path)
        &&& path.no_duplicates()
        &&& self.is_goal(start) ==> path == seq![start]
        &&& self.admissible() ==> self.no_shorter(start, distance)
    }
}

/// A measured network in memory.
pub struct SearchGraph {
    goal: i64,
    entries: HashMap<i64, Measured>,
}

impl View for SearchGraph {
    type V = Network;

    /// The network that was handed in.
    closed spec fn view(&self) -> Network {
        Network { goal: self.goal, entries: self.entries@ }
    }
}

impl SearchGraph {
    /// A network with no nodes, to be searched for a way to `goal`.
    pub fn new(goal: &RouteNode) -> (graph: SearchGraph)
        ensures
            graph@.goal == goal.id,
            graph@.entries == Map::<i64, Measured>::empty(),
            graph@.wf(),
    {
        SearchGraph { goal: goal.id, entries: HashMap::new() }
    }

    /// The number of nodes handed in.
    pub fn len(&self) -> (count: usize)
        ensures
            count == self@.entries.dom().len(),
    {
        self.entries.len()
    }

    /// Hands a node in: `to_goal` metres from the goal, with the nodes one
    /// link away and the length of each link. A node handed in again
    /// replaces what was held of it.
    ///
    /// A negative distance or length is refused, and so is one node more
    /// than [`MAX_NODES`]: the network is then left as it was.
    pub fn add(&mut self, node: RouteNode, to_goal: i32, links: Vec<(RouteNode, i32)>) -> (taken:
        bool)
        requires
            old(self)@.wf(),
        ensures
            final(self)@.wf(),
            taken <==> to_goal >= 0 && (forall|k: int|
                0 <= k < links@.len() ==> (#[trigger] links@[k]).1 >= 0) && (old(self)@.has(node.id)
                || old(self)@.entries.dom().len() < MAX_NODES),
            taken ==> final(self)@ == (Network {
                goal: old(self)@.goal,
                entries: old(self)@.entries.insert(node.id, Measured { node, to_goal, links }),
            }),
            !taken ==> final(self)@ == old(self)@,
    {
        let ghost before = self@;
        if to_goal < 0 {
            return false;
        }
        let mut k: usize = 0;
        while k < links.len()
            invariant
                k <= links@.len(),
                self@ == before,
                before.wf(),
                forall|j: int| 0 <= j < k ==> (#[trigger] links@[j]).1 >= 0,
            decreases links@.len() - k,
        {
            if links[k].1 < 0 {
                return false;
            }
            k = k + 1;
        }
        if !self.entries.contains_key(&node.id) && self.entries.len() >= MAX_NODES {
            return false;
        }
        let ghost entry = Measured { node, to_goal, links };
        self.entries.insert(node.id, Measured { node, to_goal, links });
        proof {
            assert(self@.entries == before.entries.insert(node.id, entry));
            assert(self@.entries.dom() =~= before.entries.dom().insert(node.id));
        }
        true
    }

    /// The steps that can be taken from a node.
    pub fn successors(&self, id: i64) -> (next: Vec<(i64, i64)>)
        ensures
            next@ == self@.steps(id),
    {
        let mut next: Vec<(i64, i64)> = Vec::new();
        match self.entries.get(&id) {
            Some(entry) => {
                let mut k: usize = 0;
                while k < entry.links.len()
                    invariant
                        k <= entry.links@.len(),
                        next@ == entry.links@.take(k as int).filter_map(pick_step(self@)),
                    decreases entry.links@.len() - k,
                {
                    proof {
                        entry.links@.lemma_filter_map_take_succ(pick_step(self@), k as int);
                    }
                    let link = entry.links[k];
                    if self.entries.contains_key(&link.0.id) {
                        next.push((link.0.id, link.1 as i64));
                    }
                    k = k + 1;
                }
                assert(entry.links@.take(k as int) =~= entry.links@);
            },
            None => {},
        }
        next
    }

    /// The measured distance from a node to the goal.
    pub fn heuristic(&self, id: i64) -> (metres: i64)
        ensures
            metres == self@.estimate(id),
    {
        match self.entries.get(&id) {
            Some(entry) => entry.to_goal as i64,
            None => 0,
        }
    }

    /// Whether a search may stop at this node.
    pub fn is_goal(&self, id: i64) -> (stop: bool)
        ensures
            stop == self@.is_goal(id),
    {
        if id == self.goal {
            return true;
        }
        match self.entries.get(&id) {
            Some(entry) => entry.to_goal < GOAL_TOLERANCE,
            None => false,
        }
    }

    /// Runs `pathfinding::prelude::astar` from `start`, with
    /// [`SearchGraph::successors`] for the moves, [`SearchGraph::heuristic`]
    /// for the estimate and [`SearchGraph::is_goal`] for the test of success.
    ///
    /// Not proved, but taken from that function's source and documentation:
    /// what it returns is a walk through the network from `start` to a node
    /// that passes the test, on which no node occurs twice; a start that
    /// passes the test is returned alone, at cost 0; where no estimate
    /// exceeds the true remaining cost, the walk is a shortest one and the
    /// cost returned is its length; and it returns nothing only where no
    /// walk leads from `start` to a node that passes the test.
    ///
    /// The claim of a shortest walk needs that no estimate is negative: the
    /// function ranks a node by cost plus estimate, so a node that passes the
    /// test with a negative estimate could be taken before a nearer one. The
    /// network refuses such estimates.
    ///
    /// The function adds costs and estimates with `+`. The sums stay in range
    /// because a cost is below 2^31, and the cost at which a node is reached
    /// is at most the number of nodes reached before it times that.
    #[verifier::external_body]
    fn astar(&self, start: i64) -> (found: Option<(Vec<i64>, i64)>)
        requires
            self@.wf(),
            self@.has(start),
        ensures
            found matches Some((path, cost)) ==> self@.is_answer(start, path@, cost as int),
            found is None ==> self@.unreachable(start),
    {
        pathfinding::prelude::astar(
            &start,
            |id| self.successors(*id),
            |id| self.heuristic(*id),
            |id| self.is_goal(*id),
        )
    }

    /// The length of the shortest step from one node to another, if there is
    /// a step.
    pub fn hop_length(&self, from: i64, to: i64) -> (length: Option<i64>)
        ensures
            length == least_to(self@.steps(from), to),
    {
        let steps = self.successors(from);
        let mut least: Option<i64> = None;
        let mut k: usize = 0;
        while k < steps.len()
            invariant
                k <= steps@.len(),
                least == least_to(steps@.take(k as int), to),
            decreases steps@.len() - k,
        {
            assert(steps@.take(k + 1).drop_last() =~= steps@.take(k as int));
            let step = steps[k];
            if step.0 == to {
                least = match least {
                    Some(length) => if length <= step.1 {
                        Some(length)
                    } else {
                        Some(step.1)
                    },
                    None => Some(step.1),
                };
            }
            k = k + 1;
        }
        assert(steps@.take(k as int) =~= steps@);
        least
    }

    /// The result that stands for a path: its nodes and the sum of its hops,
    /// each hop at the shortest step between its ends; no nodes and length 0
    /// where there is no path.
    pub fn result_of(&self, found: Option<Vec<i64>>) -> (result: RouteResult)
        requires
            found matches Some(path) ==> path@.len() <= MAX_NODES && forall|i: int|
                0 <= i < path@.len() ==> self@.has(#[trigger] path@[i]),
        ensures
            found is None ==> result.linestring@.len() == 0 && result.distance == 0,
            found matches Some(path) ==> {
                &&& result.distance == self@.length(path@)
                &&& result.linestring@.len() == path@.len()
                &&& forall|i: int|
                    0 <= i < path@.len() ==> (#[trigger] result.linestring@[i])
                        == self@.entries[path@[i]].node
            },
    {
        match found {
            None => {
                RouteResult { linestring: Vec::new(), distance: 0 }
            },
            Some(path) => {
                let ghost hops = self@.hops(path@);
                let mut linestring: Vec<RouteNode> = Vec::new();
                let mut distance: i64 = 0;
                let mut i: usize = 0;
                while i < path.len()
                    invariant
                        i <= path@.len() <= MAX_NODES,
                        hops == self@.hops(path@),
                        linestring@.len() == i,
                        forall|j: int| 0 <= j < path@.len() ==> self@.has(#[trigger] path@[j]),
                        forall|j: int|
                            0 <= j < i ==> (#[trigger] linestring@[j])
                                == self@.entries[path@[j]].node,
                        i == 0 ==> distance == 0,
                        i > 0 ==> distance == total(hops.take(i - 1)),
                        -0x8000_0000 * i <= distance <= 0x8000_0000 * i,
                    decreases path@.len() - i,
                {
                    assert(self@.has(path@[i as int]));
                    match self.entries.get(&path[i]) {
                        Some(entry) => {
                            linestring.push(entry.node);
                        },
                        None => {},
                    }
                    if i > 0 {
                        let hop = match self.hop_length(path[i - 1], path[i]) {
                            Some(length) => length,
                            None => 0,
                        };
                        proof {
                            assert(hop == hops[i - 1]);
                            lemma_hop_in_range(self@, path@[i - 1], path@[i as int]);
                            assert(hops.take(i as int).drop_last() =~= hops.take(i - 1));
                        }
                        distance = distance + hop;
                    }
                    i = i + 1;
                }
                proof {
                    if path@.len() > 0 {
                        assert(hops.take(path@.len() - 1) =~= hops);
                    }
                }
                RouteResult { linestring, distance }
            },
        }
    }

    /// Searches for a way from `start` to the goal.
    ///
    /// Where the goal cannot be reached, or `start` was not handed in, the
    /// result has no nodes and length 0. Otherwise its nodes are a walk
    /// through the network from `start` to a node at which a search may
    /// stop, and its length is the sum of the hops of that walk. A start at
    /// which a search may stop is the whole path, of length 0. Where no
    /// measured distance to the goal is too long, no walk is shorter.
    ///
    /// Which of several walks is returned is left to
    /// `pathfinding::prelude::astar`. It takes the frontier entry of least
    /// cost plus estimate first; among entries equal in that, the one of
    /// greater cost, which is the one nearer to the goal by its estimate;
    /// among entries equal in both, the one that its binary heap yields
    /// first. That order is the same whenever the same network is searched
    /// from the same start; the successors of a node are offered in the
    /// order in which its links were handed in.
    pub fn search(&self, start: &RouteNode) -> (result: RouteResult)
        requires
            self@.wf(),
        ensures
            result.linestring@.len() == 0 <==> !self@.has(start.id) || self@.unreachable(start.id),
            result.linestring@.len() <= 1 ==> result.distance == 0,
            result.distance >= 0,
            result.linestring@.len() > 0 ==> {
                &&& self@.is_found(start.id, ids_of(result.linestring@), result.distance as int)
                &&& forall|i: int|
                    0 <= i < result.linestring@.len() ==> self@.has(
                        (#[trigger] result.linestring@[i]).id,
                    ) && result.linestring@[i] == self@.entries[result.linestring@[i].id].node
            },
    {
        if !self.entries.contains_key(&start.id) {
            return RouteResult { linestring: Vec::new(), distance: 0 };
        }
        let walked = match self.astar(start.id) {
            Some((path, cost)) => {
                proof {
                    lemma_answer_is_found(self@, start.id, path@, cost as int);
                }
                Some(path)
            },
            None => None,
        };
        let ghost ids: Seq<i64> = if walked is Some {
            walked.unwrap()@
        } else {
            Seq::empty()
        };
        let result = self.result_of(walked);
        proof {
            lemma_length_is_not_negative(self@, ids);
            if result.linestring@.len() > 0 {
                assert forall|i: int| 0 <= i < result.linestring@.len() implies (
                #[trigger] result.linestring@[i]).id == ids[i] by {
                    assert(result.linestring@[i] == self@.entries[ids[i]].node);
                }
                assert(ids_of(result.linestring@) =~= ids);
            }
        }
        result
    }
}

/// Every step of a walk leads to a measured node.
pub proof fn lemma_route_stays_inside(net: Network, path: Seq<i64>, costs: Seq<i64>)
    requires
        net.is_route(path, costs),
        net.has(path[0]),
    ensures
        forall|i: int| 0 <= i < path.len() ==> net.has(#[trigger] path[i]),
{
    assert forall|i: int| 0 <= i < path.len() implies net.has(#[trigger] path[i]) by {
        if i > 0 {
            assert(net.is_hop(path, costs, i - 1));
            let from = path[i - 1];
            let step = (path[i], costs[i - 1]);
            net.entries[from].links@.lemma_filter_map_contains(pick_step(net), step);
        }
    }
}

/// A walk from a node that no step leaves ends where it starts: where such
/// a node is no stopping node, no stopping node can be reached from it.
pub proof fn lemma_isolated_is_unreachable(net: Network, start: i64)
    requires
        net.steps(start).len() == 0,
        !net.is_goal(start),
    ensures
        net.unreachable(start),
{
    assert forall|path: Seq<i64>, costs: Seq<i64>| !#[trigger] net.reaches_goal(
        start,
        path,
        costs,
    ) by {
        if net.reaches_goal(start, path, costs) {
            if costs.len() > 0 {
                assert(net.is_hop(path, costs, 0));
            }
        }
    }
}

/// The length of a walk is the length of its first step and the length of
/// the rest of it.
proof fn lemma_total_from_the_front(costs: Seq<i64>)
    requires
        costs.len() > 0,
    ensures
        total(costs) == costs[0] + total(costs.subrange(1, costs.len() as int)),
    decreases costs.len(),
{
    let rest = costs.subrange(1, costs.len() as int);
    if costs.len() == 1 {
        assert(costs.drop_last() =~= Seq::<i64>::empty());
        assert(rest =~= Seq::<i64>::empty());
    } else {
        lemma_total_from_the_front(costs.drop_last());
        assert(costs.drop_last().subrange(1, costs.len() - 1) =~= rest.drop_last());
    }
}

/// Along a walk that ends at a stopping node, measured distances that are
/// consistent never exceed the length of the walk that is left.
proof fn lemma_estimate_below_walk(net: Network, path: Seq<i64>, costs: Seq<i64>)
    requires
        net.consistent(),
        net.is_route(path, costs),
        net.has(path[0]),
        net.is_goal(path.last()),
    ensures
        net.estimate(path[0]) <= total(costs),
    decreases costs.len(),
{
    if costs.len() > 0 {
        let rest_path = path.subrange(1, path.len() as int);
        let rest_costs = costs.subrange(1, costs.len() as int);
        assert(net.is_hop(path, costs, 0));
        let step = (path[1], costs[0]);
        let at = choose|at: int| 0 <= at < net.steps(path[0]).len() && net.steps(path[0])[at] == step;
        assert(net.estimate(path[0]) <= net.steps(path[0])[at].1 + net.estimate(
            net.steps(path[0])[at].0,
        ));
        lemma_route_stays_inside(net, path, costs);
        assert(net.has(path[1]));
        assert forall|i: int| 0 <= i < rest_costs.len() implies #[trigger] net.is_hop(
            rest_path,
            rest_costs,
            i,
        ) by {
            assert(net.is_hop(path, costs, i + 1));
        }
        assert(rest_path.last() == path.last());
        lemma_estimate_below_walk(net, rest_path, rest_costs);
        lemma_total_from_the_front(costs);
    }
}

/// Measured distances that are consistent are admissible.
pub proof fn lemma_consistent_is_admissible(net: Network)
    requires
        net.consistent(),
    ensures
        net.admissible(),
{
    assert forall|path: Seq<i64>, costs: Seq<i64>|
        #![trigger net.is_route(path, costs)]
        net.is_route(path, costs) && net.has(path[0]) && net.is_goal(path.last())
            implies net.estimate(path[0]) <= total(costs) by {
        lemma_estimate_below_walk(net, path, costs);
    }
}

/// Where the measured distances are consistent, no walk is shorter than the
/// one that a search finds.
pub proof fn lemma_found_is_shortest(net: Network, start: i64, path: Seq<i64>, distance: int)
    requires
        net.consistent(),
        net.is_found(start, path, distance),
    ensures
        net.no_shorter(start, distance),
{
    lemma_consistent_is_admissible(net);
}

/// The shortest of the steps to a node is one of them, and none of them is
/// shorter.
pub proof fn lemma_least_is_least(steps: Seq<(i64, i64)>, target: i64, length: i64)
    requires
        steps.contains((target, length)),
    ensures
        least_to(steps, target) is Some,
        steps.contains((target, least_to(steps, target)->0)),
        least_to(steps, target)->0 <= length,
    decreases steps.len(),
{
    let fewer = steps.drop_last();
    let at = choose|at: int| 0 <= at < steps.len() && steps[at] == (target, length);
    if at < steps.len() - 1 {
        assert(fewer[at] == (target, length));
        lemma_least_is_least(fewer, target, length);
        let least = least_to(fewer, target)->0;
        let k = choose|k: int| 0 <= k < fewer.len() && fewer[k] == (target, least);
        assert(steps[k] == (target, least));
    } else if least_to(fewer, target) is Some {
        lemma_least_is_some_step(fewer, target);
        let least = least_to(fewer, target)->0;
        let k = choose|k: int| 0 <= k < fewer.len() && fewer[k] == (target, least);
        assert(steps[k] == (target, least));
    }
    assert(steps[steps.len() - 1] == steps.last());
}

/// The shortest of the steps to a node, where there is one, is one of the
/// steps.
proof fn lemma_least_is_some_step(steps: Seq<(i64, i64)>, target: i64)
    requires
        least_to(steps, target) is Some,
    ensures
        steps.contains((target, least_to(steps, target)->0)),
    decreases steps.len(),
{
    let fewer = steps.drop_last();
    if least_to(steps, target) == least_to(fewer, target) {
        lemma_least_is_some_step(fewer, target);
        let least = least_to(fewer, target)->0;
        let k = choose|k: int| 0 <= k < fewer.len() && fewer[k] == (target, least);
        assert(steps[k] == (target, least));
    } else {
        assert(steps[steps.len() - 1] == steps.last());
    }
}

/// The length of a hop is that of a link: it fits in 32 bits.
proof fn lemma_hop_in_range(net: Network, from: i64, to: i64)
    ensures
        -0x8000_0000 <= net.hop(from, to) < 0x8000_0000,
{
    if least_to(net.steps(from), to) is Some {
        lemma_least_is_some_step(net.steps(from), to);
        let step = (to, net.hop(from, to));
        net.entries[from].links@.lemma_filter_map_contains(pick_step(net), step);
    }
}

/// No path has a negative length.
pub proof fn lemma_length_is_not_negative(net: Network, path: Seq<i64>)
    requires
        net.wf(),
    ensures
        net.length(path) >= 0,
{
    let hops = net.hops(path);
    assert forall|i: int| 0 <= i < hops.len() implies 0 <= #[trigger] hops[i] by {
        let from = path[i];
        let to = path[i + 1];
        if least_to(net.steps(from), to) is Some {
            lemma_least_is_some_step(net.steps(from), to);
            let step = (to, net.hop(from, to));
            net.entries[from].links@.lemma_filter_map_contains(pick_step(net), step);
            let link = choose|link: (RouteNode, i32)| #[trigger]
                net.entries[from].links@.contains(link) && pick_step(net)(link) == Some(step);
            let k = choose|k: int|
                0 <= k < net.entries[from].links@.len() && net.entries[from].links@[k] == link;
            assert(net.entries[from].links@[k].1 >= 0);
        }
    }
    lemma_total_is_monotone(Seq::new(hops.len(), |i: int| 0i64), hops);
    lemma_total_of_nothing(hops.len());
}

/// Lengths that are all 0 sum to 0.
proof fn lemma_total_of_nothing(count: nat)
    ensures
        total(Seq::new(count, |i: int| 0i64)) == 0,
    decreases count,
{
    if count > 0 {
        assert(Seq::new(count, |i: int| 0i64).drop_last() =~= Seq::new(
            (count - 1) as nat,
            |i: int| 0i64,
        ));
        lemma_total_of_nothing((count - 1) as nat);
    }
}

/// Lengths that are nowhere longer sum to no more.
proof fn lemma_total_is_monotone(shorter: Seq<i64>, longer: Seq<i64>)
    requires
        shorter.len() == longer.len(),
        forall|i: int| 0 <= i < shorter.len() ==> shorter[i] <= longer[i],
    ensures
        total(shorter) <= total(longer),
    decreases shorter.len(),
{
    if shorter.len() > 0 {
        lemma_total_is_monotone(shorter.drop_last(), longer.drop_last());
    }
}

/// A walk is a walk at the lengths of its hops, and these sum to no more
/// than any lengths at which it is a walk.
pub proof fn lemma_hops_are_shortest(net: Network, path: Seq<i64>, costs: Seq<i64>)
    requires
        net.is_route(path, costs),
    ensures
        net.is_route(path, net.hops(path)),
        net.length(path) <= total(costs),
{
    let hops = net.hops(path);
    assert forall|i: int| 0 <= i < hops.len() implies #[trigger] net.is_hop(path, hops, i) by {
        assert(net.is_hop(path, costs, i));
        lemma_least_is_least(net.steps(path[i]), path[i + 1], costs[i]);
    }
    assert forall|i: int| 0 <= i < hops.len() implies hops[i] <= costs[i] by {
        assert(net.is_hop(path, costs, i));
        lemma_least_is_least(net.steps(path[i]), path[i + 1], costs[i]);
    }
    lemma_total_is_monotone(hops, costs);
}

/// What the outside search hands back is, with the sum of its hops for the
/// distance, what a search returns; and the walk is no longer than the
/// network has nodes.
proof fn lemma_answer_is_found(net: Network, start: i64, path: Seq<i64>, cost: int)
    requires
        net.wf(),
        net.has(start),
        net.is_answer(start, path, cost),
    ensures
        net.is_found(start, path, net.length(path)),
        path.len() <= MAX_NODES,
        forall|i: int| 0 <= i < path.len() ==> net.has(#[trigger] path[i]),
{
    let costs = choose|costs: Seq<i64>| #[trigger] net.reaches_goal(start, path, costs);
    lemma_hops_are_shortest(net, path, costs);
    lemma_route_stays_inside(net, path, costs);
    if net.admissible() {
        let exact = choose|exact: Seq<i64>|
            #![trigger net.reaches_goal(start, path, exact)]
            net.reaches_goal(start, path, exact) && total(exact) == cost;
        lemma_hops_are_shortest(net, path, exact);
    }
    path.unique_seq_to_set();
    assert(path.to_set().subset_of(net.entries.dom())) by {
        assert forall|id: i64| path.to_set().contains(id) implies net.entries.dom().contains(
            id,
        ) by {
            let at = choose|at: int| 0 <= at < path.len() && path[at] == id;
            assert(net.has(path[at]));
        }
    }
    vstd::set_lib::lemma_len_subset(path.to_set(), net.entries.dom());
}

} // verus!
