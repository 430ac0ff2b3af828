//! The directed graph: nodes keyed by id, each with its successors and predecessors.

use crate::ids::{ascending, insert_ascending, lemma_ascending_unique};
use std::collections::HashMap;
use vstd::prelude::*;

verus! {

broadcast use vstd::std_specs::hash::group_hash_axioms;

/// What a node is: its id, its successors and its predecessors, each in ascending order.
pub struct NodeView {
    pub id: usize,
    pub children: Seq<usize>,
    pub parents: Seq<usize>,
}

/// What a graph is: the ids of its nodes in ascending order, and the node of each id.
pub struct GraphView {
    pub ids: Seq<usize>,
    pub nodes: Map<usize, NodeView>,
}

impl GraphView {
    /// Whether `id` is a node of the graph.
    pub open spec fn has_node(self, id: usize) -> bool {
        self.ids.contains(id)
    }

    /// The successors of `id`, none where `id` is no node.
    pub open spec fn children_of(self, id: usize) -> Seq<usize> {
        if self.has_node(id) {
            self.nodes[id].children
        } else {
            Seq::empty()
        }
    }

    /// The predecessors of `id`, none where `id` is no node.
    pub open spec fn parents_of(self, id: usize) -> Seq<usize> {
        if self.has_node(id) {
            self.nodes[id].parents
        } else {
            Seq::empty()
        }
    }

    /// Whether the edge from `from` to `to` is recorded among the successors of `from`.
    pub open spec fn has_edge(self, from: usize, to: usize) -> bool {
        self.children_of(from).contains(to)
    }

    /// Whether the edge from `from` to `to` is recorded among the predecessors of `to`.
    pub open spec fn has_back_edge(self, from: usize, to: usize) -> bool {
        self.parents_of(to).contains(from)
    }

    /// The ids and every adjacency list ascend, and each id has its node.
    pub open spec fn structured(self) -> bool {
        &&& ascending(self.ids)
        &&& forall|id: usize| #[trigger] self.nodes.contains_key(id) <==> self.has_node(id)
        &&& forall|id: usize| #[trigger]
            self.has_node(id) ==> {
                &&& self.nodes[id].id == id
                &&& ascending(self.nodes[id].children)
                &&& ascending(self.nodes[id].parents)
            }
    }

    /// The graph is structured, and its two adjacency directions record the same edges.
    pub open spec fn well_formed(self) -> bool {
        &&& self.structured()
        &&& forall|from: usize, to: usize|
            #![trigger self.has_edge(from, to)]
            #![trigger self.has_back_edge(from, to)]
            self.has_edge(from, to) <==> self.has_back_edge(from, to)
    }

    /// Whether the graph is the one that `edges` describe: it is well formed, its
    /// edges are those of the list, and its nodes are their ends.
    pub open spec fn built_from(self, edges: Seq<(usize, usize)>) -> bool {
        &&& self.well_formed()
        &&& forall|from: usize, to: usize| #[trigger]
            self.has_edge(from, to) <==> edges.contains((from, to))
        &&& forall|id: usize| #[trigger] self.has_node(id) <==> is_endpoint(edges, id)
    }

    /// Edge lists that hold the same edges describe one graph, whatever the order of
    /// the edges and however often each occurs.
    pub proof fn lemma_built_from_unique(
        self,
        other: GraphView,
        edges: Seq<(usize, usize)>,
        other_edges: Seq<(usize, usize)>,
    )
        requires
            self.built_from(edges),
            other.built_from(other_edges),
            forall|e: (usize, usize)| edges.contains(e) <==> other_edges.contains(e),
        ensures
            self == other,
    {
        assert forall|id: usize| is_endpoint(edges, id) implies is_endpoint(other_edges, id) by {
            let i = choose|i: int|
                0 <= i < edges.len() && ((#[trigger] edges[i]).0 == id || edges[i].1 == id);
            assert(edges.contains(edges[i]));
            let j = choose|j: int| 0 <= j < other_edges.len() && other_edges[j] == edges[i];
            assert(other_edges[j].0 == id || other_edges[j].1 == id);
        }
        assert forall|id: usize| is_endpoint(other_edges, id) implies is_endpoint(edges, id) by {
            let i = choose|i: int|
                0 <= i < other_edges.len() && ((#[trigger] other_edges[i]).0 == id
                    || other_edges[i].1 == id);
            assert(other_edges.contains(other_edges[i]));
            let j = choose|j: int| 0 <= j < edges.len() && edges[j] == other_edges[i];
            assert(edges[j].0 == id || edges[j].1 == id);
        }
        assert forall|id: usize| self.ids.contains(id) <==> other.ids.contains(id) by {
            assert(self.has_node(id) <==> is_endpoint(edges, id));
            assert(other.has_node(id) <==> is_endpoint(other_edges, id));
        }
        lemma_ascending_unique(self.ids, other.ids);
        assert forall|id: usize| self.nodes.contains_key(id) implies self.nodes[id]
            == other.nodes[id] by {
            assert(self.has_node(id) && other.has_node(id));
            let mine = self.nodes[id];
            let theirs = other.nodes[id];
            assert forall|x: usize| mine.children.contains(x) <==> theirs.children.contains(x) by {
                assert(self.has_edge(id, x) <==> edges.contains((id, x)));
                assert(other.has_edge(id, x) <==> other_edges.contains((id, x)));
            }
            assert forall|x: usize| mine.parents.contains(x) <==> theirs.parents.contains(x) by {
                assert(self.has_back_edge(x, id) <==> self.has_edge(x, id));
                assert(other.has_back_edge(x, id) <==> other.has_edge(x, id));
                assert(self.has_edge(x, id) <==> edges.contains((x, id)));
                assert(other.has_edge(x, id) <==> other_edges.contains((x, id)));
            }
            lemma_ascending_unique(mine.children, theirs.children);
            lemma_ascending_unique(mine.parents, theirs.parents);
        }
        assert forall|id: usize| self.nodes.contains_key(id) <==> other.nodes.contains_key(id) by {
            assert(self.nodes.contains_key(id) <==> self.has_node(id));
            assert(other.nodes.contains_key(id) <==> other.has_node(id));
        }
        assert(self.nodes =~= other.nodes);
    }

    /// Both ends of an edge of a well-formed graph are nodes of it.
    pub proof fn lemma_edge_ends(self, from: usize, to: usize)
        requires
            self.well_formed(),
            self.has_edge(from, to) || self.has_back_edge(from, to),
        ensures
            self.has_node(from),
            self.has_node(to),
            self.has_edge(from, to),
            self.has_back_edge(from, to),
    {
    }
}

/// Whether `id` is an end of one of `edges`.
pub open spec fn is_endpoint(edges: Seq<(usize, usize)>, id: usize) -> bool {
    exists|i: int| 0 <= i < edges.len() && ((#[trigger] edges[i]).0 == id || edges[i].1 == id)
}

/// A node of the graph.
pub struct Node {
    id: usize,
    child_ids: Vec<usize>,
    parent_ids: Vec<usize>,
}

impl View for Node {
    type V = NodeView;

    closed spec fn view(&self) -> NodeView {
        NodeView { id: self.id, children: self.child_ids@, parents: self.parent_ids@ }
    }
}

impl Node {
    fn new(id: usize, child_ids: Vec<usize>, parent_ids: Vec<usize>) -> (node: Self)
        ensures
            node@ == (NodeView { id, children: child_ids@, parents: parent_ids@ }),
    {
        Self { id, child_ids, parent_ids }
    }
}

/// A directed graph over integer node ids, fixed once it is built.
pub struct Graph {
    nodes: HashMap<usize, Node>,
    order: Vec<usize>,
}

/// The graph that a table of nodes and the list of its keys stand for.
spec fn assembled(nodes: Map<usize, Node>, order: Seq<usize>) -> GraphView {
    GraphView {
        ids: order,
        nodes: Map::new(|id: usize| nodes.contains_key(id), |id: usize| nodes[id]@),
    }
}

impl View for Graph {
    type V = GraphView;

    closed spec fn view(&self) -> GraphView {
        assembled(self.nodes@, self.order@)
    }
}

/// Makes `id` a node, with no neighbours, unless it is one already.
fn ensure_node(nodes: &mut HashMap<usize, Node>, order: &mut Vec<usize>, id: usize)
    requires
        assembled(old(nodes)@, old(order)@).structured(),
    ensures
        assembled(final(nodes)@, final(order)@).structured(),
        forall|x: usize|
            assembled(final(nodes)@, final(order)@).has_node(x) <==> (assembled(
                old(nodes)@,
                old(order)@,
            ).has_node(x) || x == id),
        forall|x: usize|
            assembled(final(nodes)@, final(order)@).children_of(x) == assembled(
                old(nodes)@,
                old(order)@,
            ).children_of(x),
        forall|x: usize|
            assembled(final(nodes)@, final(order)@).parents_of(x) == assembled(
                old(nodes)@,
                old(order)@,
            ).parents_of(x),
{
    let ghost before = assembled(nodes@, order@);
    if !nodes.contains_key(&id) {
        assert(!before.nodes.contains_key(id));
        assert(!before.has_node(id));
        nodes.insert(id, Node::new(id, Vec::new(), Vec::new()));
        insert_ascending(order, id);
        proof {
            let after = assembled(nodes@, order@);
            assert(ascending(after.ids));
            assert forall|x: usize| #[trigger]
                after.nodes.contains_key(x) <==> after.has_node(x) by {
                assert(before.nodes.contains_key(x) <==> before.has_node(x));
            }
            assert forall|x: usize| after.has_node(x) implies {
                &&& after.nodes[x].id == x
                &&& ascending(after.nodes[x].children)
                &&& ascending(after.nodes[x].parents)
            } by {
                if x != id {
                    assert(before.has_node(x));
                    assert(before.nodes.contains_key(x));
                }
            }
            assert(after.structured());
            assert forall|x: usize| after.children_of(x) == before.children_of(x) by {
                if x != id && before.has_node(x) {
                    assert(before.nodes.contains_key(x));
                }
            }
            assert forall|x: usize| after.parents_of(x) == before.parents_of(x) by {
                if x != id && before.has_node(x) {
                    assert(before.nodes.contains_key(x));
                }
            }
        }
    } else {
        assert(before.nodes.contains_key(id));
    }
}

/// Records `to` among the successors of `from`.
fn add_child(nodes: &mut HashMap<usize, Node>, order: &Vec<usize>, from: usize, to: usize)
    requires
        assembled(old(nodes)@, order@).structured(),
        assembled(old(nodes)@, order@).has_node(from),
    ensures
        assembled(final(nodes)@, order@).structured(),
        forall|a: usize, b: usize|
            assembled(final(nodes)@, order@).has_edge(a, b) <==> (assembled(
                old(nodes)@,
                order@,
            ).has_edge(a, b) || (a == from && b == to)),
        forall|x: usize|
            assembled(final(nodes)@, order@).parents_of(x) == assembled(
                old(nodes)@,
                order@,
            ).parents_of(x),
{
    let ghost before = assembled(nodes@, order@);
    assert(before.nodes.contains_key(from));
    let node = nodes.remove(&from).unwrap();
    let Node { id, child_ids, parent_ids } = node;
    let mut child_ids = child_ids;
    insert_ascending(&mut child_ids, to);
    nodes.insert(from, Node::new(id, child_ids, parent_ids));
    proof {
        let after = assembled(nodes@, order@);
        assert forall|x: usize| #[trigger] after.nodes.contains_key(x) <==> after.has_node(x) by {
            assert(before.nodes.contains_key(x) <==> before.has_node(x));
        }
        assert forall|x: usize| after.has_node(x) implies {
            &&& after.nodes[x].id == x
            &&& ascending(after.nodes[x].children)
            &&& ascending(after.nodes[x].parents)
        } by {
            assert(before.has_node(x));
            assert(before.nodes.contains_key(x));
        }
        assert forall|x: usize| after.parents_of(x) == before.parents_of(x) by {
            if before.has_node(x) {
                assert(before.nodes.contains_key(x));
            }
        }
        assert forall|a: usize, b: usize|
            after.has_edge(a, b) <==> (before.has_edge(a, b) || (a == from && b == to)) by {
            if before.has_node(a) {
                assert(before.nodes.contains_key(a));
            }
        }
    }
}

/// Records `from` among the predecessors of `to`.
fn add_parent(nodes: &mut HashMap<usize, Node>, order: &Vec<usize>, from: usize, to: usize)
    requires
        assembled(old(nodes)@, order@).structured(),
        assembled(old(nodes)@, order@).has_node(to),
    ensures
        assembled(final(nodes)@, order@).structured(),
        forall|a: usize, b: usize|
            assembled(final(nodes)@, order@).has_back_edge(a, b) <==> (assembled(
                old(nodes)@,
                order@,
            ).has_back_edge(a, b) || (a == from && b == to)),
        forall|x: usize|
            assembled(final(nodes)@, order@).children_of(x) == assembled(
                old(nodes)@,
                order@,
            ).children_of(x),
{
    let ghost before = assembled(nodes@, order@);
    assert(before.nodes.contains_key(to));
    let node = nodes.remove(&to).unwrap();
    let Node { id, child_ids, parent_ids } = node;
    let mut parent_ids = parent_ids;
    insert_ascending(&mut parent_ids, from);
    nodes.insert(to, Node::new(id, child_ids, parent_ids));
    proof {
        let after = assembled(nodes@, order@);
        assert forall|x: usize| #[trigger] after.nodes.contains_key(x) <==> after.has_node(x) by {
            assert(before.nodes.contains_key(x) <==> before.has_node(x));
        }
        assert forall|x: usize| after.has_node(x) implies {
            &&& after.nodes[x].id == x
            &&& ascending(after.nodes[x].children)
            &&& ascending(after.nodes[x].parents)
        } by {
            assert(before.has_node(x));
            assert(before.nodes.contains_key(x));
        }
        assert forall|x: usize| after.children_of(x) == before.children_of(x) by {
            if before.has_node(x) {
                assert(before.nodes.contains_key(x));
            }
        }
        assert forall|a: usize, b: usize|
            after.has_back_edge(a, b) <==> (before.has_back_edge(a, b) || (a == from && b
                == to)) by {
            if before.has_node(b) {
                assert(before.nodes.contains_key(b));
            }
        }
    }
}

impl From<Vec<(usize, usize)>> for Graph {
    /// The graph that `edges` describe, each a pair of the node an edge leaves and the
    /// node it enters. An edge may be a self-loop and may occur more than once.
    fn from(edges: Vec<(usize, usize)>) -> (graph: Graph)
        ensures
            graph@.built_from(edges@),
    {
        let mut nodes: HashMap<usize, Node> = HashMap::new();
        let mut order: Vec<usize> = Vec::new();
        let mut k: usize = 0;
        while k < edges.len()
            invariant
                k <= edges.len(),
                assembled(nodes@, order@).structured(),
                forall|a: usize, b: usize|
                    assembled(nodes@, order@).has_edge(a, b) <==> edges@.take(k as int).contains(
                        (a, b),
                    ),
                forall|a: usize, b: usize|
                    assembled(nodes@, order@).has_back_edge(a, b) <==> edges@.take(
                        k as int,
                    ).contains((a, b)),
                forall|id: usize|
                    assembled(nodes@, order@).has_node(id) <==> is_endpoint(
                        edges@.take(k as int),
                        id,
                    ),
            decreases edges.len() - k,
        {
            let (from_id, to_id) = edges[k];
            let ghost g0 = assembled(nodes@, order@);
            ensure_node(&mut nodes, &mut order, from_id);
            let ghost g1 = assembled(nodes@, order@);
            assert(g1.has_node(from_id));
            ensure_node(&mut nodes, &mut order, to_id);
            let ghost g2 = assembled(nodes@, order@);
            assert(g2.has_node(to_id) && g2.has_node(from_id));
            add_child(&mut nodes, &order, from_id, to_id);
            let ghost g3 = assembled(nodes@, order@);
            assert(g3.has_node(to_id));
            add_parent(&mut nodes, &order, from_id, to_id);
            let ghost g4 = assembled(nodes@, order@);
            proof {
                assert forall|a: usize, b: usize|
                    g4.has_edge(a, b) <==> (g0.has_edge(a, b) || (a == from_id && b
                        == to_id)) by {
                    assert(g1.children_of(a) == g0.children_of(a));
                    assert(g2.children_of(a) == g1.children_of(a));
                    assert(g3.has_edge(a, b) <==> (g2.has_edge(a, b) || (a == from_id && b
                        == to_id)));
                    assert(g4.children_of(a) == g3.children_of(a));
                }
                assert forall|a: usize, b: usize|
                    g4.has_back_edge(a, b) <==> (g0.has_back_edge(a, b) || (a == from_id && b
                        == to_id)) by {
                    assert(g1.parents_of(b) == g0.parents_of(b));
                    assert(g2.parents_of(b) == g1.parents_of(b));
                    assert(g3.parents_of(b) == g2.parents_of(b));
                    assert(g4.has_back_edge(a, b) <==> (g3.has_back_edge(a, b) || (a == from_id
                        && b == to_id)));
                }
                assert forall|id: usize|
                    g4.has_node(id) <==> (g0.has_node(id) || id == from_id || id == to_id) by {
                    assert(g1.has_node(id) <==> (g0.has_node(id) || id == from_id));
                    assert(g2.has_node(id) <==> (g1.has_node(id) || id == to_id));
                }
                let shorter = edges@.take(k as int);
                let longer = edges@.take(k + 1);
                assert(longer =~= shorter.push((from_id, to_id)));
                assert(longer[k as int] == (from_id, to_id));
                assert forall|a: usize, b: usize|
                    longer.contains((a, b)) <==> (shorter.contains((a, b)) || (a == from_id && b
                        == to_id)) by {
                    if shorter.contains((a, b)) {
                        let i = choose|i: int| 0 <= i < shorter.len() && shorter[i] == (a, b);
                        assert(longer[i] == (a, b));
                    }
                }
                assert forall|id: usize|
                    is_endpoint(longer, id) <==> (is_endpoint(shorter, id) || id == from_id || id
                        == to_id) by {
                    if is_endpoint(shorter, id) {
                        let i = choose|i: int|
                            0 <= i < shorter.len() && ((#[trigger] shorter[i]).0 == id
                                || shorter[i].1 == id);
                        assert(longer[i] == shorter[i]);
                    }
                    if is_endpoint(longer, id) {
                        let i = choose|i: int|
                            0 <= i < longer.len() && ((#[trigger] longer[i]).0 == id
                                || longer[i].1 == id);
                        if i < k {
                            assert(shorter[i] == longer[i]);
                        }
                    }
                }
            }
            k += 1;
        }
        assert(edges@.take(k as int) =~= edges@);
        Graph { nodes, order }
    }
}

/// The conversion is stated by `built_from`, which fixes what the graph is; no value
/// is named for it here.
impl vstd::std_specs::convert::FromSpecImpl<Vec<(usize, usize)>> for Graph {
    open spec fn obeys_from_spec() -> bool {
        false
    }

    open spec fn from_spec(edges: Vec<(usize, usize)>) -> Graph {
        arbitrary()
    }
}

impl Graph {
    #[verifier::type_invariant]
    spec fn valid(&self) -> bool {
        self@.well_formed()
    }

    /// The ids of the nodes, in ascending order.
    pub(crate) fn node_ids(&self) -> (ids: &Vec<usize>)
        ensures
            ids@ == self@.ids,
            self@.well_formed(),
    {
        proof {
            use_type_invariant(self);
        }
        &self.order
    }

    /// The predecessors of the node `node_id`, in ascending order.
    pub(crate) fn get_parent_ids(&self, node_id: usize) -> (parents: &Vec<usize>)
        requires
            self@.has_node(node_id),
        ensures
            parents@ == self@.parents_of(node_id),
            self@.well_formed(),
    {
        proof {
            use_type_invariant(self);
            assert(self@.nodes.contains_key(node_id));
        }
        let node = self.nodes.get(&node_id);
        &node.unwrap().parent_ids
    }
}

} // verus!
