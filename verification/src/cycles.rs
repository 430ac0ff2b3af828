//! The search itself: the walk from one root, and the enumeration over all roots.

use crate::graph::{Graph, GraphView};
use crate::ids::{append_range, find};
use crate::search::{
    acyclic, bridge_from, close, closed_walk, cycles_of, frames, lemma_bridge_from,
    lemma_step_progress, rewind, run, search, start, step, stitch, sweep, unvisited, SearchState,
};
use crate::walks::{
    lemma_acyclic_has_no_cycles, lemma_cycles_closed, lemma_rewind, lemma_self_loop_found,
    lemma_start_steady, lemma_step_steady, lemma_sweep_settled, settled, sound, steady,
};
use std::collections::HashSet;
use vstd::prelude::*;

verus! {

broadcast use vstd::std_specs::hash::group_hash_axioms;

/// The node sequences that a list of cycles holds.
pub open spec fn cycle_views(cycles: Seq<Vec<usize>>) -> Seq<Seq<usize>> {
    Seq::new(cycles.len(), |i: int| cycles[i]@)
}

/// Two lists of cycles that both are the cycles of one graph hold the same cycles in
/// the same order: what the enumeration returns depends on the graph alone.
pub proof fn lemma_same_graph_same_cycles(g: GraphView, first: Seq<Vec<usize>>, second: Seq<Vec<usize>>)
    requires
        cycle_views(first) == cycles_of(g),
        cycle_views(second) == cycles_of(g),
    ensures
        first.len() == second.len(),
        forall|i: int| 0 <= i < first.len() ==> (#[trigger] first[i])@ == second[i]@,
{
    assert(cycle_views(first).len() == first.len());
    assert(cycle_views(second).len() == second.len());
    assert forall|i: int| 0 <= i < first.len() implies (#[trigger] first[i])@ == second[i]@ by {
        assert(cycle_views(first)[i] == first[i]@);
        assert(cycle_views(second)[i] == second[i]@);
    }
}

/// Cuts `route` back until it ends in `current_node_id`.
fn rewind_route(route: Vec<usize>, current_node_id: usize) -> (rewound: Vec<usize>)
    requires
        route@.contains(current_node_id),
    ensures
        rewound@ == rewind(route@, current_node_id),
{
    let mut rewound = route;
    while rewound[rewound.len() - 1] != current_node_id
        invariant
            rewound@.contains(current_node_id),
            rewind(rewound@, current_node_id) == rewind(route@, current_node_id),
        decreases rewound.len(),
    {
        proof {
            let k = choose|k: int| 0 <= k < rewound.len() && rewound@[k] == current_node_id;
            assert(rewound@.drop_last()[k] == current_node_id);
        }
        rewound.pop();
    }
    rewound
}

/// Puts the pairs of `node` with each of `parents` on the stack, the last on top.
fn push_frames(stack: &mut Vec<(usize, usize)>, node: usize, parents: &Vec<usize>)
    ensures
        final(stack)@ == old(stack)@ + frames(node, parents@),
{
    let mut i: usize = 0;
    while i < parents.len()
        invariant
            i <= parents.len(),
            stack@ == old(stack)@ + frames(node, parents@.take(i as int)),
        decreases parents.len() - i,
    {
        stack.push((node, parents[i]));
        i += 1;
        assert(stack@ =~= old(stack)@ + frames(node, parents@.take(i as int)));
    }
    assert(parents@.take(parents.len() as int) =~= parents@);
}

/// The route joined to the first of `cycles` that holds both `root_node_id` and
/// `next_node_id`, if there is one.
fn merge_route(
    cycles: &Vec<Vec<usize>>,
    route: &Vec<usize>,
    root_node_id: usize,
    next_node_id: usize,
) -> (merged: Option<Vec<usize>>)
    ensures
        match merged {
            Some(cycle) => {
                let k = bridge_from(cycle_views(cycles@), root_node_id, next_node_id, 0);
                k < cycles.len() && cycle@ == stitch(
                    route@,
                    cycles[k]@,
                    root_node_id,
                    next_node_id,
                )
            },
            None => bridge_from(cycle_views(cycles@), root_node_id, next_node_id, 0)
                == cycles.len(),
        },
{
    let ghost views = cycle_views(cycles@);
    let mut i: usize = 0;
    while i < cycles.len()
        invariant
            i <= cycles.len(),
            views == cycle_views(cycles@),
            bridge_from(views, root_node_id, next_node_id, i as int) == bridge_from(
                views,
                root_node_id,
                next_node_id,
                0,
            ),
        decreases cycles.len() - i,
    {
        let cycle = &cycles[i];
        assert(views[i as int] == cycle@);
        let root_place = find(cycle, root_node_id);
        let next_place = find(cycle, next_node_id);
        match (root_place, next_place) {
            (Some(root_idx), Some(next_idx)) => {
                let small_idx = if root_idx <= next_idx { root_idx } else { next_idx };
                let large_idx = if root_idx <= next_idx { next_idx } else { root_idx };
                let mut new_cycle: Vec<usize> = Vec::new();
                append_range(&mut new_cycle, route, 0, route.len());
                append_range(&mut new_cycle, cycle, large_idx, cycle.len());
                append_range(&mut new_cycle, cycle, 0, small_idx);
                assert(route@.subrange(0, route.len() as int) =~= route@);
                assert(new_cycle@ =~= stitch(route@, cycle@, root_node_id, next_node_id));
                return Some(new_cycle);
            },
            _ => {},
        }
        i += 1;
    }
    None
}

/// A copy of `cycle` with its first node repeated at its end.
fn close_cycle(cycle: &Vec<usize>) -> (closed: Vec<usize>)
    requires
        cycle.len() > 0,
    ensures
        closed@ == close(cycle@),
{
    let mut closed: Vec<usize> = Vec::new();
    append_range(&mut closed, cycle, 0, cycle.len());
    closed.push(cycle[0]);
    assert(cycle@.subrange(0, cycle.len() as int) =~= cycle@);
    closed
}

impl Graph {
    /// Walks the predecessors of `root_node_id` depth first, unless it was searched
    /// before, and returns `cycles` with what the walk found and `searched_nodes` with
    /// what it visited.
    fn dfs_search(
        &self,
        root_node_id: usize,
        searched_nodes: HashSet<usize>,
        cycles: Vec<Vec<usize>>,
    ) -> (found: (Vec<Vec<usize>>, HashSet<usize>))
        requires
            self@.has_node(root_node_id),
            settled(self@, searched_nodes@, cycle_views(cycles@)),
        ensures
            (found.1@, cycle_views(found.0@)) == search(
                self@,
                root_node_id,
                searched_nodes@,
                cycle_views(cycles@),
            ),
    {
        let mut searched_nodes = searched_nodes;
        let mut cycles = cycles;
        if searched_nodes.contains(&root_node_id) {
            return (cycles, searched_nodes);
        }
        let ghost g = self@;
        let ghost first = start(g, root_node_id, searched_nodes@, cycle_views(cycles@));
        proof {
            lemma_start_steady(g, root_node_id, searched_nodes@, cycle_views(cycles@));
        }
        searched_nodes.insert(root_node_id);

        let mut route: Vec<usize> = Vec::new();
        route.push(root_node_id);

        let mut dfs_stack: Vec<(usize, usize)> = Vec::new();
        push_frames(&mut dfs_stack, root_node_id, self.get_parent_ids(root_node_id));
        proof {
            assert(route@ =~= first.route);
            assert(dfs_stack@ =~= first.stack);
        }

        while dfs_stack.len() > 0
            invariant
                g == self@,
                g.well_formed(),
                steady(
                    g,
                    root_node_id,
                    SearchState {
                        visited: searched_nodes@,
                        route: route@,
                        stack: dfs_stack@,
                        cycles: cycle_views(cycles@),
                    },
                ),
                run(
                    g,
                    root_node_id,
                    SearchState {
                        visited: searched_nodes@,
                        route: route@,
                        stack: dfs_stack@,
                        cycles: cycle_views(cycles@),
                    },
                ) == run(g, root_node_id, first),
            decreases unvisited(g, searched_nodes@).len(), dfs_stack.len(),
        {
            let ghost before = SearchState {
                visited: searched_nodes@,
                route: route@,
                stack: dfs_stack@,
                cycles: cycle_views(cycles@),
            };
            let ghost after = step(g, root_node_id, before);
            proof {
                lemma_step_progress(g, root_node_id, before);
                lemma_step_steady(g, root_node_id, before);
                lemma_rewind(before.route, before.stack.last().0);
                assert(run(g, root_node_id, before) == run(g, root_node_id, after));
                assert(before.route.contains(before.stack.last().0));
                g.lemma_edge_ends(before.stack.last().1, before.stack.last().0);
            }
            let (current_node_id, next_node_id) = dfs_stack.pop().unwrap();

            route = rewind_route(route, current_node_id);

            if searched_nodes.contains(&next_node_id) {
                match find(&route, next_node_id) {
                    Some(idx) => {
                        let mut new_cycle: Vec<usize> = Vec::new();
                        append_range(&mut new_cycle, &route, idx, route.len());
                        assert(new_cycle@ =~= route@.subrange(idx as int, route.len() as int));
                        cycles.push(new_cycle);
                        assert(cycle_views(cycles@) =~= after.cycles);
                    },
                    None => {
                        match merge_route(&cycles, &route, root_node_id, next_node_id) {
                            Some(new_cycle) => {
                                proof {
                                    let k = bridge_from(
                                        before.cycles,
                                        root_node_id,
                                        next_node_id,
                                        0,
                                    );
                                    lemma_bridge_from(
                                        before.cycles,
                                        root_node_id,
                                        next_node_id,
                                        0,
                                    );
                                    assert(before.cycles[k] == cycles@[k]@);
                                }
                                cycles.push(new_cycle);
                                assert(cycle_views(cycles@) =~= after.cycles);
                            },
                            None => {},
                        }
                    },
                }
            } else {
                route.push(next_node_id);
                searched_nodes.insert(next_node_id);
                push_frames(&mut dfs_stack, next_node_id, self.get_parent_ids(next_node_id));
            }
            assert(after == (SearchState {
                visited: searched_nodes@,
                route: route@,
                stack: dfs_stack@,
                cycles: cycle_views(cycles@),
            }));
        }

        (cycles, searched_nodes)
    }

    /// The cycles of the graph, each with its first node repeated at its end.
    ///
    /// A depth-first walk over the predecessors starts from every node that no earlier
    /// walk visited, the nodes taken in ascending order of their ids and the
    /// predecessors of a node from the largest down. A cycle lists its nodes as the
    /// walk met them: each is followed by one of its predecessors. The result is a
    /// function of the graph; every cycle in it is a closed walk of the graph, a graph
    /// without closed walks has none, and every self-loop gives the cycle of its node.
    /// Not every elementary cycle need be among them.
    pub fn find_cycles(&self) -> (cycles: Vec<Vec<usize>>)
        ensures
            cycle_views(cycles@) == cycles_of(self@),
            forall|i: int| 0 <= i < cycles.len() ==> closed_walk(self@, (#[trigger] cycles[i])@),
            acyclic(self@) ==> cycles.len() == 0,
            forall|u: usize| #[trigger]
                self@.has_edge(u, u) ==> exists|i: int|
                    0 <= i < cycles.len() && (#[trigger] cycles[i])@ == seq![u, u],
    {
        let ids = self.node_ids();
        let ghost g = self@;
        let mut searched_nodes: HashSet<usize> = HashSet::new();
        let mut found: Vec<Vec<usize>> = Vec::new();
        let mut k: usize = 0;
        assert(cycle_views(found@) =~= Seq::empty());
        while k < ids.len()
            invariant
                k <= ids.len(),
                g == self@,
                g.well_formed(),
                ids@ == g.ids,
                (searched_nodes@, cycle_views(found@)) == sweep(g, k as nat),
            decreases ids.len() - k,
        {
            proof {
                lemma_sweep_settled(g, k as nat);
                assert(g.ids.contains(g.ids[k as int]));
            }
            let (cycles, searched) = self.dfs_search(ids[k], searched_nodes, found);
            found = cycles;
            searched_nodes = searched;
            k += 1;
        }
        proof {
            lemma_sweep_settled(g, k as nat);
        }

        let mut cycles: Vec<Vec<usize>> = Vec::new();
        let mut i: usize = 0;
        while i < found.len()
            invariant
                i <= found.len(),
                cycles.len() == i,
                settled(g, searched_nodes@, cycle_views(found@)),
                forall|j: int| 0 <= j < i ==> (#[trigger] cycles[j])@ == close(found[j]@),
            decreases found.len() - i,
        {
            assert(sound(g, searched_nodes@, cycle_views(found@)[i as int]));
            let closed = close_cycle(&found[i]);
            cycles.push(closed);
            i += 1;
        }
        proof {
            assert(cycle_views(cycles@) =~= cycles_of(g));
            lemma_cycles_closed(g);
            assert forall|i: int| 0 <= i < cycles.len() implies closed_walk(
                g,
                (#[trigger] cycles[i])@,
            ) by {
                assert(cycles[i]@ == cycles_of(g)[i]);
            }
            if acyclic(g) {
                lemma_acyclic_has_no_cycles(g);
            }
            assert forall|u: usize| #[trigger] g.has_edge(u, u) implies exists|i: int|
                0 <= i < cycles.len() && (#[trigger] cycles[i])@ == seq![u, u] by {
                lemma_self_loop_found(g, u);
                let i = choose|i: int|
                    0 <= i < cycles_of(g).len() && cycles_of(g)[i] == seq![u, u];
                assert(cycles[i]@ == seq![u, u]);
            }
        }
        cycles
    }
}

} // verus!
