//! What holds in every state of the search, and what follows for the cycles of a graph.

use crate::graph::{is_endpoint, GraphView};
use crate::ids::{lemma_ascending_unique, lemma_position, position};
use crate::search::{
    acyclic, bridge_from, bridges, chained, close, closed_walk, cycles_of, frames,
    lemma_bridge_from, lemma_step_progress, rewind, run, search, start, step, stitch, sweep,
    unvisited, SearchState,
};
use vstd::prelude::*;

verus! {

/// Whether the node of every pair on `stack` lies on `route`, and still does when the
/// pairs above it have been taken off and the route cut back to their nodes.
pub open spec fn on_route(stack: Seq<(usize, usize)>, route: Seq<usize>) -> bool
    decreases stack.len(),
{
    stack.len() == 0 || (route.contains(stack.last().0) && on_route(
        stack.drop_last(),
        rewind(route, stack.last().0),
    ))
}

/// Whether `cycle` follows edges of `g` against their direction through visited nodes
/// only, and an edge leads from its first node to its last.
pub open spec fn sound(g: GraphView, visited: Set<usize>, cycle: Seq<usize>) -> bool {
    &&& cycle.len() > 0
    &&& chained(g, cycle)
    &&& g.has_back_edge(cycle[0], cycle.last())
    &&& forall|j: int| 0 <= j < cycle.len() ==> visited.contains(#[trigger] cycle[j])
}

/// Whether `cycle` starts in `root` where it holds it at all.
pub open spec fn rooted(cycle: Seq<usize>, root: usize) -> bool {
    cycle.contains(root) ==> cycle[0] == root
}

/// Whether the cycle that the self-loop at `u` makes is among `cycles`.
pub open spec fn has_loop_cycle(cycles: Seq<Seq<usize>>, u: usize) -> bool {
    exists|i: int| 0 <= i < cycles.len() && #[trigger] cycles[i] == seq![u]
}

/// Whether the pair of `u` with itself waits on `stack`.
pub open spec fn has_frame(stack: Seq<(usize, usize)>, u: usize) -> bool {
    exists|i: int| 0 <= i < stack.len() && #[trigger] stack[i] == (u, u)
}

/// Whether the self-loop at every visited node has given its cycle.
pub open spec fn loops_closed(g: GraphView, visited: Set<usize>, cycles: Seq<Seq<usize>>) -> bool {
    forall|u: usize|
        visited.contains(u) && #[trigger] g.has_back_edge(u, u) ==> has_loop_cycle(cycles, u)
}

/// Whether the self-loop at every visited node has given its cycle or waits on the
/// stack.
pub open spec fn loops_found(g: GraphView, s: SearchState) -> bool {
    forall|u: usize|
        s.visited.contains(u) && #[trigger] g.has_back_edge(u, u) ==> has_loop_cycle(
            s.cycles,
            u,
        ) || has_frame(s.stack, u)
}

/// A route cut back to a node is a leading part of the route, and ends in that node
/// where the route holds it.
pub proof fn lemma_rewind(route: Seq<usize>, current: usize)
    ensures
        rewind(route, current).len() <= route.len(),
        rewind(route, current) == route.take(rewind(route, current).len() as int),
        route.contains(current) ==> rewind(route, current).len() > 0 && rewind(
            route,
            current,
        ).last() == current,
    decreases route.len(),
{
    if route.len() == 0 || route.last() == current {
        assert(route.take(route.len() as int) =~= route);
    } else {
        let shorter = route.drop_last();
        lemma_rewind(shorter, current);
        let n = rewind(shorter, current).len() as int;
        assert(shorter.take(n) =~= route.take(n));
        if route.contains(current) {
            let k = choose|k: int| 0 <= k < route.len() && route[k] == current;
            assert(shorter[k] == current);
        }
    }
}

/// A node that the route lacks can join it without disturbing the pairs on the stack.
pub proof fn lemma_on_route_push(stack: Seq<(usize, usize)>, route: Seq<usize>, node: usize)
    requires
        on_route(stack, route),
        !route.contains(node),
    ensures
        on_route(stack, route.push(node)),
{
    if stack.len() > 0 {
        let longer = route.push(node);
        let k = choose|k: int| 0 <= k < route.len() && route[k] == stack.last().0;
        assert(longer[k] == stack.last().0);
        assert(longer.drop_last() =~= route);
    }
}

/// Pairs of the node in which the route ends can join the stack.
pub proof fn lemma_on_route_frames(
    stack: Seq<(usize, usize)>,
    route: Seq<usize>,
    node: usize,
    parents: Seq<usize>,
)
    requires
        on_route(stack, route),
        route.len() > 0,
        route.last() == node,
    ensures
        on_route(stack + frames(node, parents), route),
    decreases parents.len(),
{
    let all = stack + frames(node, parents);
    if parents.len() == 0 {
        assert(all =~= stack);
    } else {
        lemma_on_route_frames(stack, route, node, parents.drop_last());
        assert(all.drop_last() =~= stack + frames(node, parents.drop_last()));
        assert(all.last().0 == node);
        assert(route[route.len() - 1] == node);
    }
}

/// A route that ends in a node with the predecessor `candidate`, joined to a cycle
/// that starts in the root and holds `candidate`, is a cycle again.
pub proof fn lemma_stitch(
    g: GraphView,
    visited: Set<usize>,
    route: Seq<usize>,
    cycle: Seq<usize>,
    root: usize,
    candidate: usize,
)
    requires
        route.len() > 0,
        route[0] == root,
        chained(g, route),
        forall|i: int| 0 <= i < route.len() ==> visited.contains(#[trigger] route[i]),
        g.has_back_edge(candidate, route.last()),
        sound(g, visited, cycle),
        rooted(cycle, root),
        bridges(cycle, root, candidate),
    ensures
        sound(g, visited, stitch(route, cycle, root, candidate)),
        rooted(stitch(route, cycle, root, candidate), root),
{
    lemma_position(cycle, root);
    lemma_position(cycle, candidate);
    let b = position(cycle, candidate);
    assert(position(cycle, root) == 0);
    let tail = cycle.subrange(b, cycle.len() as int);
    let joined = stitch(route, cycle, root, candidate);
    assert(joined =~= route + tail);
    assert forall|i: int| 0 < i < joined.len() implies g.has_back_edge(
        #[trigger] joined[i],
        joined[i - 1],
    ) by {
        if i < route.len() {
            assert(joined[i] == route[i] && joined[i - 1] == route[i - 1]);
        } else if i == route.len() {
            assert(joined[i] == cycle[b] && joined[i - 1] == route.last());
        } else {
            let j = b + i - route.len();
            assert(joined[i] == cycle[j] && joined[i - 1] == cycle[j - 1]);
        }
    }
    assert forall|j: int| 0 <= j < joined.len() implies visited.contains(#[trigger] joined[j]) by {
        if j < route.len() {
            assert(joined[j] == route[j]);
        } else {
            assert(joined[j] == cycle[b + j - route.len()]);
        }
    }
    assert(joined[0] == route[0]);
    assert(joined.last() == cycle.last());
}

/// A step keeps every self-loop that waits on the stack, or turns it into its cycle.
pub proof fn lemma_step_keeps_loops(g: GraphView, root: usize, s: SearchState)
    requires
        s.stack.len() > 0,
        loops_found(g, s),
        s.route.contains(s.stack.last().0),
        s.route.no_duplicates(),
    ensures
        loops_found(g, step(g, root, s)),
{
    let (current, candidate) = s.stack.last();
    let rest = s.stack.drop_last();
    let route = rewind(s.route, current);
    lemma_rewind(s.route, current);
    lemma_position(route, candidate);
    let t = step(g, root, s);
    assert forall|u: usize| t.visited.contains(u) && #[trigger] g.has_back_edge(
        u,
        u,
    ) implies has_loop_cycle(t.cycles, u) || has_frame(t.stack, u) by {
        if s.visited.contains(u) {
            if has_loop_cycle(s.cycles, u) {
                let i = choose|i: int| 0 <= i < s.cycles.len() && #[trigger] s.cycles[i] == seq![u];
                assert(t.cycles[i] == seq![u]);
            } else {
                let i = choose|i: int| 0 <= i < s.stack.len() && #[trigger] s.stack[i] == (u, u);
                if i < rest.len() {
                    assert(rest[i] == (u, u));
                    assert(t.stack[i] == (u, u));
                } else {
                    let idx = position(route, u);
                    assert(route[idx] == s.route[idx]);
                    assert(route.last() == s.route[route.len() - 1]);
                    assert(idx == route.len() - 1);
                    assert(route.subrange(idx, route.len() as int) =~= seq![u]);
                    assert(t.cycles[s.cycles.len() as int] == seq![u]);
                }
            }
        } else {
            let parents = g.parents_of(u);
            let j = choose|j: int| 0 <= j < parents.len() && parents[j] == u;
            assert(frames(u, parents)[j] == (u, u));
            assert(t.stack[rest.len() + j] == (u, u));
        }
    }
}

/// Whether every cycle of `cycles` is sound, and the self-loop at every visited node
/// has given its cycle: what holds between two walks.
pub open spec fn settled(g: GraphView, visited: Set<usize>, cycles: Seq<Seq<usize>>) -> bool {
    &&& forall|i: int| 0 <= i < cycles.len() ==> sound(g, visited, #[trigger] cycles[i])
    &&& loops_closed(g, visited, cycles)
}

/// What holds in every state of the walk from `root`: the route starts in `root`,
/// repeats no node and follows edges against their direction through visited nodes;
/// every pair on the stack is a node on the route with one of its predecessors; and
/// every cycle is sound and starts in `root` where it holds it.
pub open spec fn steady(g: GraphView, root: usize, s: SearchState) -> bool {
    &&& s.route.len() > 0
    &&& s.route[0] == root
    &&& s.route.no_duplicates()
    &&& chained(g, s.route)
    &&& forall|i: int| 0 <= i < s.route.len() ==> s.visited.contains(#[trigger] s.route[i])
    &&& on_route(s.stack, s.route)
    &&& forall|i: int|
        0 <= i < s.stack.len() ==> g.has_back_edge((#[trigger] s.stack[i]).1, s.stack[i].0)
    &&& forall|i: int|
        0 <= i < s.cycles.len() ==> sound(g, s.visited, #[trigger] s.cycles[i]) && rooted(
            s.cycles[i],
            root,
        )
    &&& loops_found(g, s)
}

/// The walk from a node that was not visited before starts in a steady state.
pub proof fn lemma_start_steady(
    g: GraphView,
    root: usize,
    visited: Set<usize>,
    cycles: Seq<Seq<usize>>,
)
    requires
        g.has_node(root),
        !visited.contains(root),
        settled(g, visited, cycles),
    ensures
        steady(g, root, start(g, root, visited, cycles)),
{
    let s = start(g, root, visited, cycles);
    let parents = g.parents_of(root);
    assert(on_route(Seq::<(usize, usize)>::empty(), s.route));
    lemma_on_route_frames(Seq::empty(), s.route, root, parents);
    assert(Seq::<(usize, usize)>::empty() + frames(root, parents) =~= s.stack);
    assert forall|i: int| 0 <= i < cycles.len() implies sound(g, s.visited, #[trigger] cycles[i])
        && rooted(cycles[i], root) by {
        assert(sound(g, visited, cycles[i]));
    }
    assert forall|u: usize| s.visited.contains(u) && #[trigger] g.has_back_edge(
        u,
        u,
    ) implies has_loop_cycle(s.cycles, u) || has_frame(s.stack, u) by {
        if u == root {
            let j = choose|j: int| 0 <= j < parents.len() && parents[j] == u;
            assert(s.stack[j] == (u, u));
        }
    }
}

/// A step leads from a steady state to a steady state, and forgets no visited node.
pub proof fn lemma_step_steady(g: GraphView, root: usize, s: SearchState)
    requires
        g.well_formed(),
        steady(g, root, s),
        s.stack.len() > 0,
    ensures
        steady(g, root, step(g, root, s)),
        forall|x: usize| s.visited.contains(x) ==> step(g, root, s).visited.contains(x),
{
    let (current, candidate) = s.stack.last();
    let rest = s.stack.drop_last();
    let route = rewind(s.route, current);
    let t = step(g, root, s);
    lemma_rewind(s.route, current);
    lemma_position(route, candidate);
    lemma_step_keeps_loops(g, root, s);
    g.lemma_edge_ends(candidate, current);
    assert(on_route(rest, route));
    assert forall|i: int| 0 <= i < route.len() implies #[trigger] route[i] == s.route[i] by {}
    assert(route.no_duplicates());
    assert(chained(g, route)) by {
        assert forall|i: int| 0 < i < route.len() implies g.has_back_edge(
            #[trigger] route[i],
            route[i - 1],
        ) by {
            assert(route[i] == s.route[i] && route[i - 1] == s.route[i - 1]);
        }
    }
    assert forall|i: int| 0 <= i < route.len() implies s.visited.contains(#[trigger] route[i]) by {
        assert(route[i] == s.route[i]);
    }
    assert forall|i: int| 0 <= i < rest.len() implies g.has_back_edge(
        (#[trigger] rest[i]).1,
        rest[i].0,
    ) by {
        assert(rest[i] == s.stack[i]);
    }
    if !s.visited.contains(candidate) {
        let longer = route.push(candidate);
        let parents = g.parents_of(candidate);
        assert(!route.contains(candidate));
        lemma_on_route_push(rest, route, candidate);
        lemma_on_route_frames(rest, longer, candidate, parents);
        assert(longer.no_duplicates());
        assert forall|i: int| 0 < i < longer.len() implies g.has_back_edge(
            #[trigger] longer[i],
            longer[i - 1],
        ) by {
            if i < route.len() {
                assert(longer[i] == route[i] && longer[i - 1] == route[i - 1]);
            }
        }
        assert forall|i: int| 0 <= i < t.stack.len() implies g.has_back_edge(
            (#[trigger] t.stack[i]).1,
            t.stack[i].0,
        ) by {
            if i < rest.len() {
                assert(t.stack[i] == rest[i]);
            } else {
                assert(t.stack[i] == (candidate, parents[i - rest.len()]));
            }
        }
        assert forall|i: int| 0 <= i < t.cycles.len() implies sound(
            g,
            t.visited,
            #[trigger] t.cycles[i],
        ) && rooted(t.cycles[i], root) by {
            assert(sound(g, s.visited, s.cycles[i]));
        }
    } else if position(route, candidate) < route.len() {
        let idx = position(route, candidate);
        let found = route.subrange(idx, route.len() as int);
        assert forall|i: int| 0 < i < found.len() implies g.has_back_edge(
            #[trigger] found[i],
            found[i - 1],
        ) by {
            assert(found[i] == route[idx + i]);
            assert(found[i - 1] == route[idx + i - 1]);
        }
        assert forall|j: int| 0 <= j < found.len() implies s.visited.contains(
            #[trigger] found[j],
        ) by {
            assert(found[j] == route[idx + j]);
        }
        assert(sound(g, s.visited, found));
        if found.contains(root) {
            let j = choose|j: int| 0 <= j < found.len() && found[j] == root;
            assert(route[idx + j] == root);
        }
        assert(rooted(found, root));
        assert forall|i: int| 0 <= i < t.cycles.len() implies sound(
            g,
            t.visited,
            #[trigger] t.cycles[i],
        ) && rooted(t.cycles[i], root) by {
            if i < s.cycles.len() {
                assert(t.cycles[i] == s.cycles[i]);
            }
        }
    } else {
        let k = bridge_from(s.cycles, root, candidate, 0);
        lemma_bridge_from(s.cycles, root, candidate, 0);
        if k < s.cycles.len() {
            lemma_stitch(g, s.visited, route, s.cycles[k], root, candidate);
            assert forall|i: int| 0 <= i < t.cycles.len() implies sound(
                g,
                t.visited,
                #[trigger] t.cycles[i],
            ) && rooted(t.cycles[i], root) by {
                if i < s.cycles.len() {
                    assert(t.cycles[i] == s.cycles[i]);
                }
            }
        }
    }
}

/// The walk ends with an empty stack in a steady state, and forgets no visited node.
pub proof fn lemma_run_steady(g: GraphView, root: usize, s: SearchState)
    requires
        g.well_formed(),
        steady(g, root, s),
    ensures
        steady(g, root, run(g, root, s)),
        run(g, root, s).stack.len() == 0,
        forall|x: usize| s.visited.contains(x) ==> run(g, root, s).visited.contains(x),
    decreases unvisited(g, s.visited).len(), s.stack.len(),
{
    if s.stack.len() > 0 {
        lemma_step_progress(g, root, s);
        lemma_step_steady(g, root, s);
        lemma_run_steady(g, root, step(g, root, s));
    }
}

/// The walk from a node of the graph keeps the cycles settled, visits the node and
/// forgets no visited node.
pub proof fn lemma_search_settled(
    g: GraphView,
    root: usize,
    visited: Set<usize>,
    cycles: Seq<Seq<usize>>,
)
    requires
        g.well_formed(),
        g.has_node(root),
        settled(g, visited, cycles),
    ensures
        settled(g, search(g, root, visited, cycles).0, search(g, root, visited, cycles).1),
        search(g, root, visited, cycles).0.contains(root),
        forall|x: usize| visited.contains(x) ==> search(g, root, visited, cycles).0.contains(x),
{
    if !visited.contains(root) {
        let first = start(g, root, visited, cycles);
        lemma_start_steady(g, root, visited, cycles);
        lemma_run_steady(g, root, first);
        let last = run(g, root, first);
        assert(first.visited.contains(root));
        assert forall|u: usize| last.visited.contains(u) && #[trigger] g.has_back_edge(
            u,
            u,
        ) implies has_loop_cycle(last.cycles, u) by {
            assert(!has_frame(last.stack, u));
        }
        assert forall|x: usize| visited.contains(x) implies last.visited.contains(x) by {
            assert(first.visited.contains(x));
        }
    }
}

/// After the walks from the first `k` nodes the cycles are settled and those nodes
/// visited.
pub proof fn lemma_sweep_settled(g: GraphView, k: nat)
    requires
        g.well_formed(),
        k <= g.ids.len(),
    ensures
        settled(g, sweep(g, k).0, sweep(g, k).1),
        forall|j: int| 0 <= j < k ==> sweep(g, k).0.contains(#[trigger] g.ids[j]),
    decreases k,
{
    if k > 0 {
        let before = sweep(g, (k - 1) as nat);
        lemma_sweep_settled(g, (k - 1) as nat);
        assert(g.ids.contains(g.ids[k - 1]));
        lemma_search_settled(g, g.ids[k - 1], before.0, before.1);
    }
}

/// Every cycle of a graph is a closed walk of it: it has two nodes at least, ends
/// in the node in which it starts, and each of its nodes but the first is a
/// predecessor of the node before it.
pub proof fn lemma_cycles_closed(g: GraphView)
    requires
        g.well_formed(),
    ensures
        forall|i: int|
            0 <= i < cycles_of(g).len() ==> closed_walk(g, #[trigger] cycles_of(g)[i]),
{
    let found = sweep(g, g.ids.len());
    lemma_sweep_settled(g, g.ids.len());
    assert forall|i: int| 0 <= i < cycles_of(g).len() implies closed_walk(
        g,
        #[trigger] cycles_of(g)[i],
    ) by {
        let raw = found.1[i];
        let closed = close(raw);
        assert(sound(g, found.0, raw));
        assert forall|j: int| 0 < j < closed.len() implies g.has_back_edge(
            #[trigger] closed[j],
            closed[j - 1],
        ) by {
            if j < raw.len() {
                assert(closed[j] == raw[j] && closed[j - 1] == raw[j - 1]);
            }
        }
    }
}

/// A graph in which no walk along the edges comes back to its start has no cycles.
pub proof fn lemma_acyclic_has_no_cycles(g: GraphView)
    requires
        g.well_formed(),
        acyclic(g),
    ensures
        cycles_of(g).len() == 0,
{
    lemma_cycles_closed(g);
    if cycles_of(g).len() > 0 {
        assert(closed_walk(g, cycles_of(g)[0]));
    }
}

/// Every self-loop of a graph gives a cycle: its node, twice.
pub proof fn lemma_self_loop_found(g: GraphView, u: usize)
    requires
        g.well_formed(),
        g.has_edge(u, u),
    ensures
        cycles_of(g).contains(seq![u, u]),
{
    let found = sweep(g, g.ids.len());
    lemma_sweep_settled(g, g.ids.len());
    g.lemma_edge_ends(u, u);
    let j = choose|j: int| 0 <= j < g.ids.len() && g.ids[j] == u;
    assert(found.0.contains(g.ids[j]));
    let i = choose|i: int| 0 <= i < found.1.len() && #[trigger] found.1[i] == seq![u];
    assert(close(seq![u]) =~= seq![u, u]);
    assert(cycles_of(g)[i] == seq![u, u]);
}

/// The graph of one edge that leaves and enters the same node has one cycle: that
/// node, twice.
pub proof fn lemma_single_self_loop(g: GraphView, u: usize)
    requires
        g.built_from(seq![(u, u)]),
    ensures
        cycles_of(g) == seq![seq![u, u]],
{
    let edges = seq![(u, u)];
    let only = seq![u];
    assert(edges[0] == (u, u));
    assert(only[0] == u);
    assert forall|x: usize| g.ids.contains(x) <==> only.contains(x) by {
        assert(g.has_node(x) <==> is_endpoint(edges, x));
        if x == u {
            assert(edges[0].0 == x);
        }
    }
    lemma_ascending_unique(g.ids, only);
    assert(g.has_node(u));
    assert forall|x: usize| g.parents_of(u).contains(x) <==> only.contains(x) by {
        assert(g.has_back_edge(x, u) <==> g.has_edge(x, u));
        assert(g.has_edge(x, u) <==> edges.contains((x, u)));
    }
    lemma_ascending_unique(g.parents_of(u), only);

    let first = start(g, u, Set::empty(), Seq::empty());
    assert(first.stack =~= seq![(u, u)]);
    assert(first.stack.last() == (u, u));
    assert(rewind(first.route, u) == first.route);
    assert(position(first.route, u) == 0) by {
        lemma_position(first.route, u);
    }
    let second = step(g, u, first);
    assert(first.visited.contains(u));
    assert(first.route.subrange(0, 1) =~= seq![u]);
    assert(second.stack =~= Seq::empty());
    assert(second.cycles =~= seq![seq![u]]);
    assert(run(g, u, second) == second);
    assert(run(g, u, first) == second);
    assert(sweep(g, 0) == (Set::<usize>::empty(), Seq::<Seq<usize>>::empty()));
    assert(sweep(g, 1) == search(g, u, Set::empty(), Seq::empty())) by {
        reveal_with_fuel(sweep, 2);
    }
    assert(sweep(g, 1).1 == second.cycles);
    assert(close(seq![u]) =~= seq![u, u]);
    assert(cycles_of(g) =~= seq![seq![u, u]]);
}

} // verus!
