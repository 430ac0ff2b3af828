//! The search for cycles as a function of the graph: the state of the depth-first walk
//! over the predecessor relation, one step of it, and the walk from every root in turn.

use crate::graph::GraphView;
use crate::ids::position;
use vstd::prelude::*;

verus! {

/// The state of a walk: the nodes visited so far, the path from the root to the node
/// in hand, the pairs of a node and one of its predecessors that are still to be
/// looked at (the last one first), and the cycles found so far.
pub struct SearchState {
    pub visited: Set<usize>,
    pub route: Seq<usize>,
    pub stack: Seq<(usize, usize)>,
    pub cycles: Seq<Seq<usize>>,
}

/// `route` cut back until it ends in `current`; empty where `route` lacks `current`.
pub open spec fn rewind(route: Seq<usize>, current: usize) -> Seq<usize>
    decreases route.len(),
{
    if route.len() == 0 || route.last() == current {
        route
    } else {
        rewind(route.drop_last(), current)
    }
}

/// The pairs of `node` with each of `parents`, in their order.
pub open spec fn frames(node: usize, parents: Seq<usize>) -> Seq<(usize, usize)> {
    Seq::new(parents.len(), |i: int| (node, parents[i]))
}

/// Whether `cycle` passes through both `root` and `candidate`.
pub open spec fn bridges(cycle: Seq<usize>, root: usize, candidate: usize) -> bool {
    position(cycle, root) < cycle.len() && position(cycle, candidate) < cycle.len()
}

/// The index of the first of `cycles` at or after `from` that passes through both
/// `root` and `candidate`, and `cycles.len()` where there is none.
pub open spec fn bridge_from(
    cycles: Seq<Seq<usize>>,
    root: usize,
    candidate: usize,
    from: int,
) -> int
    decreases cycles.len() - from,
{
    if from < 0 || from >= cycles.len() {
        cycles.len() as int
    } else if bridges(cycles[from], root, candidate) {
        from
    } else {
        bridge_from(cycles, root, candidate, from + 1)
    }
}

/// `bridge_from` finds a cycle that passes through both nodes, and none lies between
/// `from` and it.
pub proof fn lemma_bridge_from(cycles: Seq<Seq<usize>>, root: usize, candidate: usize, from: int)
    requires
        0 <= from <= cycles.len(),
    ensures
        from <= bridge_from(cycles, root, candidate, from) <= cycles.len(),
        bridge_from(cycles, root, candidate, from) < cycles.len() ==> bridges(
            cycles[bridge_from(cycles, root, candidate, from)],
            root,
            candidate,
        ),
        forall|j: int|
            from <= j < bridge_from(cycles, root, candidate, from) ==> !bridges(
                #[trigger] cycles[j],
                root,
                candidate,
            ),
    decreases cycles.len() - from,
{
    if from < cycles.len() && !bridges(cycles[from], root, candidate) {
        lemma_bridge_from(cycles, root, candidate, from + 1);
    }
}

/// `route`, followed by `cycle` from the later of the first places of `root` and
/// `candidate` in it to its end, then by `cycle` from its start up to the earlier one.
pub open spec fn stitch(route: Seq<usize>, cycle: Seq<usize>, root: usize, candidate: usize) -> Seq<
    usize,
> {
    let a = position(cycle, root);
    let b = position(cycle, candidate);
    let small = if a <= b { a } else { b };
    let large = if a <= b { b } else { a };
    route + cycle.subrange(large, cycle.len() as int) + cycle.subrange(0, small)
}

/// The state in which the walk from `root` starts.
pub open spec fn start(
    g: GraphView,
    root: usize,
    visited: Set<usize>,
    cycles: Seq<Seq<usize>>,
) -> SearchState {
    SearchState {
        visited: visited.insert(root),
        route: seq![root],
        stack: frames(root, g.parents_of(root)),
        cycles,
    }
}

/// One step of the walk from `root`: the last pair of the stack is taken off and the
/// route cut back to its node. A predecessor not seen before is visited: it joins
/// the route, and its own predecessors the stack. One that lies on the route closes a
/// cycle, the route from its place on. One seen elsewhere is joined to the route
/// through the first cycle that holds both it and the root, if there is one.
pub open spec fn step(g: GraphView, root: usize, s: SearchState) -> SearchState
    recommends
        s.stack.len() > 0,
{
    let (current, candidate) = s.stack.last();
    let rest = s.stack.drop_last();
    let route = rewind(s.route, current);
    if !s.visited.contains(candidate) {
        SearchState {
            visited: s.visited.insert(candidate),
            route: route.push(candidate),
            stack: rest + frames(candidate, g.parents_of(candidate)),
            cycles: s.cycles,
        }
    } else if position(route, candidate) < route.len() {
        let found = route.subrange(position(route, candidate), route.len() as int);
        SearchState { visited: s.visited, route, stack: rest, cycles: s.cycles.push(found) }
    } else {
        let k = bridge_from(s.cycles, root, candidate, 0);
        if k < s.cycles.len() {
            let found = stitch(route, s.cycles[k], root, candidate);
            SearchState { visited: s.visited, route, stack: rest, cycles: s.cycles.push(found) }
        } else {
            SearchState { visited: s.visited, route, stack: rest, cycles: s.cycles }
        }
    }
}

/// The nodes of `g` that `visited` lacks.
pub open spec fn unvisited(g: GraphView, visited: Set<usize>) -> Set<usize> {
    g.ids.to_set().difference(visited)
}

/// The state in which the walk from `root` ends when it goes on from `s`.
pub open spec fn run(g: GraphView, root: usize, s: SearchState) -> SearchState
    decreases unvisited(g, s.visited).len(), s.stack.len(),
    via run_decreases
{
    if s.stack.len() == 0 {
        s
    } else {
        run(g, root, step(g, root, s))
    }
}

#[via_fn]
proof fn run_decreases(g: GraphView, root: usize, s: SearchState) {
    if s.stack.len() > 0 {
        lemma_step_progress(g, root, s);
    }
}

/// Every step either visits a node of the graph, or leaves the visited nodes of the
/// graph as they are and shortens the stack.
pub proof fn lemma_step_progress(g: GraphView, root: usize, s: SearchState)
    requires
        s.stack.len() > 0,
    ensures
        unvisited(g, step(g, root, s).visited).len() < unvisited(g, s.visited).len() || (unvisited(
            g,
            step(g, root, s).visited,
        ) == unvisited(g, s.visited) && step(g, root, s).stack.len() < s.stack.len()),
{
    broadcast use vstd::seq_lib::seq_to_set_is_finite;

    {
        let (current, candidate) = s.stack.last();
        if !s.visited.contains(candidate) {
            if g.has_node(candidate) {
                g.ids.to_set().lemma_set_insert_diff_decreases(s.visited, candidate);
            } else {
                assert(unvisited(g, s.visited.insert(candidate)) =~= unvisited(g, s.visited));
                assert(frames(candidate, g.parents_of(candidate)).len() == 0);
            }
        }
    }
}

/// The visited nodes and the cycles after the walk from `root`, which leaves both as
/// they are where `root` was visited before.
pub open spec fn search(
    g: GraphView,
    root: usize,
    visited: Set<usize>,
    cycles: Seq<Seq<usize>>,
) -> (Set<usize>, Seq<Seq<usize>>) {
    if visited.contains(root) {
        (visited, cycles)
    } else {
        let end = run(g, root, start(g, root, visited, cycles));
        (end.visited, end.cycles)
    }
}

/// The visited nodes and the cycles after the walks from the first `k` nodes of `g`,
/// taken in ascending order of their ids.
pub open spec fn sweep(g: GraphView, k: nat) -> (Set<usize>, Seq<Seq<usize>>)
    decreases k,
{
    if k == 0 {
        (Set::empty(), Seq::empty())
    } else {
        let before = sweep(g, (k - 1) as nat);
        search(g, g.ids[k - 1], before.0, before.1)
    }
}

/// Whether each node of `walk` but the first is a predecessor of the node before it,
/// so that `walk` follows edges of `g` against their direction.
pub open spec fn chained(g: GraphView, walk: Seq<usize>) -> bool {
    forall|i: int| 0 < i < walk.len() ==> g.has_back_edge(#[trigger] walk[i], walk[i - 1])
}

/// Whether `walk` follows edges of `g` against their direction, over one edge at
/// least, and ends in the node in which it starts.
pub open spec fn closed_walk(g: GraphView, walk: Seq<usize>) -> bool {
    walk.len() >= 2 && walk[0] == walk.last() && chained(g, walk)
}

/// Whether no walk along edges of `g` comes back to the node in which it starts.
pub open spec fn acyclic(g: GraphView) -> bool {
    forall|walk: Seq<usize>| !#[trigger] closed_walk(g, walk)
}

/// `cycle` with its first node repeated at its end.
pub open spec fn close(cycle: Seq<usize>) -> Seq<usize> {
    cycle.push(cycle[0])
}

/// The cycles of `g`: what the walks from all its nodes find, each one closed.
pub open spec fn cycles_of(g: GraphView) -> Seq<Seq<usize>> {
    let found = sweep(g, g.ids.len()).1;
    Seq::new(found.len(), |i: int| close(found[i]))
}

} // verus!
