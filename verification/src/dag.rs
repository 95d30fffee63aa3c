//! Directed graphs: the `petgraph` graph that a scheduler keeps, walks, cycles and topological
//! orders.
use petgraph::graph::{Graph as Digraph, NodeIndex};
use vstd::prelude::*;

verus! {

/// `petgraph::graph::Graph`, an adjacency-list graph.
#[verifier::external_type_specification]
#[verifier::external_body]
#[verifier::reject_recursive_types(N)]
#[verifier::reject_recursive_types(E)]
#[verifier::reject_recursive_types(Ty)]
#[verifier::reject_recursive_types(Ix)]
pub struct ExDigraph<N, E, Ty, Ix>(Digraph<N, E, Ty, Ix>);

/// `petgraph`'s mark of a graph with directed edges.
#[verifier::external_type_specification]
#[verifier::external_body]
pub struct ExDirected(petgraph::Directed);

/// The weights of a graph's nodes, in the order in which the nodes were added.
pub uninterp spec fn graph_nodes(g: Digraph<usize, ()>) -> Seq<int>;

/// A graph's edges from source to target, in the order in which they were added.
pub uninterp spec fn graph_edges(g: Digraph<usize, ()>) -> Seq<(int, int)>;

/// `petgraph::graph::Graph::new`: a graph without nodes and edges.
#[verifier::external_body]
pub(crate) fn empty_graph() -> (g: Digraph<usize, ()>)
    ensures
        graph_nodes(g) == Seq::<int>::empty(),
        graph_edges(g) == Seq::<(int, int)>::empty(),
{
    Digraph::new()
}

/// `petgraph::graph::Graph::add_node`: the node comes last and its index is the number of nodes
/// before it. A graph that has as many nodes as a 32-bit index can tell apart takes no more.
#[verifier::external_body]
pub(crate) fn add_node(g: &mut Digraph<usize, ()>, weight: usize) -> (index: usize)
    requires
        graph_nodes(*old(g)).len() < u32::MAX,
    ensures
        index == graph_nodes(*old(g)).len(),
        graph_nodes(*final(g)) == graph_nodes(*old(g)).push(weight as int),
        graph_edges(*final(g)) == graph_edges(*old(g)),
{
    g.add_node(weight).index()
}

/// `petgraph::graph::Graph::add_edge`: the edge comes last, also where an equal one is there
/// already. Both nodes have to exist, and a graph that has as many edges as a 32-bit index can
/// tell apart takes no more.
#[verifier::external_body]
pub(crate) fn add_edge(g: &mut Digraph<usize, ()>, source: usize, target: usize)
    requires
        source < graph_nodes(*old(g)).len(),
        target < graph_nodes(*old(g)).len(),
        graph_edges(*old(g)).len() < u32::MAX,
    ensures
        graph_nodes(*final(g)) == graph_nodes(*old(g)),
        graph_edges(*final(g)) == graph_edges(*old(g)).push((source as int, target as int)),
{
    g.add_edge(NodeIndex::new(source), NodeIndex::new(target), ());
}

/// `petgraph::graph::Graph::neighbors_directed`, against the edges: the sources of the edges into
/// a node, the edge that was added last first.
#[verifier::external_body]
pub(crate) fn sources_of(g: &Digraph<usize, ()>, node: usize) -> (found: Vec<usize>)
    requires
        node < graph_nodes(*g).len(),
    ensures
        positions(found@) == sources(graph_edges(*g), node as int),
{
    g.neighbors_directed(NodeIndex::new(node), petgraph::Incoming).map(|n| n.index()).collect()
}

/// `petgraph`'s indexing of a graph by a node: the weight with which the node was added.
#[verifier::external_body]
pub(crate) fn weight_of(g: &Digraph<usize, ()>, node: usize) -> (weight: usize)
    requires
        node < graph_nodes(*g).len(),
    ensures
        weight == graph_nodes(*g)[node as int],
{
    g[NodeIndex::new(node)]
}

/// `petgraph::algo::toposort`, and `Cycle::node_id` of its error: every node's index once, each
/// before its successors; the error only for a graph that has a cycle, of which a self loop is
/// one, with the index of a node that lies on a cycle. Which of several such orders or nodes
/// comes back is left open.
#[verifier::external_body]
pub(crate) fn toposort(g: &Digraph<usize, ()>) -> (order: Result<Vec<usize>, usize>)
    ensures
        match order {
            Ok(order) => is_topological(
                graph_nodes(*g).len(),
                graph_edges(*g).to_set(),
                positions(order@),
            ),
            Err(node) => node < graph_nodes(*g).len() && on_cycle(
                graph_edges(*g).to_set(),
                node as int,
            ),
        },
{
    petgraph::algo::toposort(g, None)
        .map(|order| order.into_iter().map(|n| n.index()).collect())
        .map_err(|cycle| cycle.node_id().index())
}

/// Positions as integers.
pub open spec fn positions(s: Seq<usize>) -> Seq<int> {
    s.map_values(|i: usize| i as int)
}

/// Whether the `k`-th step of `path` follows an edge.
pub open spec fn follows_edge(edges: Set<(int, int)>, path: Seq<int>, k: int) -> bool {
    edges.contains((path[k], path[k + 1]))
}

/// Whether each step of `path` follows an edge.
pub open spec fn is_walk(edges: Set<(int, int)>, path: Seq<int>) -> bool {
    forall|k: int| 0 <= k < path.len() - 1 ==> #[trigger] follows_edge(edges, path, k)
}

/// Whether some walk of at least one step leads from `node` back to it.
pub open spec fn on_cycle(edges: Set<(int, int)>, node: int) -> bool {
    exists|path: Seq<int>| #[trigger]
        is_walk(edges, path) && path.len() >= 2 && path[0] == node && path.last() == node
}

/// Whether some walk of at least one step comes back to where it began.
pub open spec fn is_cyclic(edges: Set<(int, int)>) -> bool {
    exists|path: Seq<int>| #[trigger]
        is_walk(edges, path) && path.len() >= 2 && path[0] == path.last()
}

/// Whether `order` holds each of the nodes `0..n` once, the source of every edge before its
/// target.
pub open spec fn is_topological(n: nat, edges: Set<(int, int)>, order: Seq<int>) -> bool {
    &&& order.len() == n
    &&& order.no_duplicates()
    &&& forall|x: int| 0 <= x < n <==> #[trigger] order.contains(x)
    &&& forall|i: int, j: int|
        0 <= i < n && 0 <= j < n && edges.contains((#[trigger] order[i], #[trigger] order[j]))
            ==> i < j
}

/// Whether a node that comes before node `d` depends on it.
pub open spec fn is_mentioned(edges: Set<(int, int)>, d: int) -> bool {
    exists|i: int| #[trigger] edges.contains((d, i)) && i < d
}

/// Whether every edge joins two of the nodes `0..n`.
pub open spec fn edges_within(n: nat, edges: Set<(int, int)>) -> bool {
    forall|e: (int, int)| #[trigger] edges.contains(e) ==> 0 <= e.0 < n && 0 <= e.1 < n
}

/// A walk goes forward in a topological order.
proof fn lemma_walk_goes_forward(
    n: nat,
    edges: Set<(int, int)>,
    order: Seq<int>,
    path: Seq<int>,
    k: int,
)
    requires
        is_topological(n, edges, order),
        edges_within(n, edges),
        is_walk(edges, path),
        path.len() >= 2,
        1 <= k < path.len(),
    ensures
        order.contains(path[0]),
        order.contains(path[k]),
        order.index_of(path[0]) < order.index_of(path[k]),
    decreases k,
{
    let a = path[k - 1];
    let b = path[k];
    assert(follows_edge(edges, path, k - 1));
    assert(order.contains(a) && order.contains(b));
    let i = order.index_of(a);
    let j = order.index_of(b);
    assert(order[i] == a && order[j] == b);
    if k > 1 {
        lemma_walk_goes_forward(n, edges, order, path, k - 1);
    }
}

/// A graph that has a topological order has no cycle.
pub proof fn ordered_graph_is_acyclic(n: nat, edges: Set<(int, int)>, order: Seq<int>)
    requires
        is_topological(n, edges, order),
        edges_within(n, edges),
    ensures
        !is_cyclic(edges),
{
    if is_cyclic(edges) {
        let path = choose|path: Seq<int>| #[trigger]
            is_walk(edges, path) && path.len() >= 2 && path[0] == path.last();
        lemma_walk_goes_forward(n, edges, order, path, path.len() - 1);
    }
}

/// A graph has a cycle where a node lies on one.
pub proof fn lemma_on_cycle(edges: Set<(int, int)>, node: int)
    requires
        on_cycle(edges, node),
    ensures
        is_cyclic(edges),
{
    let path = choose|path: Seq<int>| #[trigger]
        is_walk(edges, path) && path.len() >= 2 && path[0] == node && path.last() == node;
    assert(is_walk(edges, path));
}

/// The sources of the edges into `node`, the last edge first.
pub open spec fn sources(edges: Seq<(int, int)>, node: int) -> Seq<int>
    decreases edges.len(),
{
    if edges.len() == 0 {
        Seq::empty()
    } else if edges.last().1 == node {
        seq![edges.last().0] + sources(edges.drop_last(), node)
    } else {
        sources(edges.drop_last(), node)
    }
}

/// The sources of the edges into a node are those from which an edge leads to it.
pub proof fn lemma_sources(edges: Seq<(int, int)>, node: int, x: int)
    ensures
        sources(edges, node).contains(x) <==> edges.to_set().contains((x, node)),
    decreases edges.len(),
{
    if edges.len() > 0 {
        let rest = edges.drop_last();
        let found = sources(rest, node);
        lemma_sources(rest, node, x);
        assert(edges =~= rest.push(edges.last()));
        if rest.contains((x, node)) {
            let k = rest.index_of((x, node));
            assert(edges[k] == (x, node));
            let m = found.index_of(x);
            if edges.last().1 == node {
                assert(sources(edges, node)[m + 1] == x);
            }
        }
        if edges.last() == (x, node) {
            assert(edges[edges.len() - 1] == (x, node));
            assert(sources(edges, node)[0] == x);
        }
    }
}

/// Positions are the numbers of the list, one for one.
pub proof fn positions_are_those_of_the_list(s: Seq<usize>)
    ensures
        positions(s).len() == s.len(),
        forall|k: int| 0 <= k < s.len() ==> #[trigger] positions(s)[k] == s[k],
{
}

/// An order in which every edge leads forward holds each node once: whatever an edge leads from
/// stands before what it leads to.
pub proof fn edges_lead_forward(n: nat, edges: Set<(int, int)>, order: Seq<int>, e: (int, int))
    requires
        is_topological(n, edges, order),
        edges_within(n, edges),
        edges.contains(e),
    ensures
        order.len() == n,
        exists|a: int, b: int|
            0 <= a < b < order.len() && #[trigger] order[a] == e.0 && #[trigger] order[b] == e.1,
        forall|a: int, b: int|
            0 <= a < b < order.len() ==> !(#[trigger] order[a] == e.1 && #[trigger] order[b] == e.0),
{
    assert(order.contains(e.0) && order.contains(e.1));
    let a = order.index_of(e.0);
    let b = order.index_of(e.1);
    assert(edges.contains((order[a], order[b])));
    assert forall|x: int, y: int| 0 <= x < y < order.len() implies !(#[trigger] order[x] == e.1
        && #[trigger] order[y] == e.0) by {
        if order[x] == e.1 && order[y] == e.0 {
            assert(edges.contains((order[y], order[x])));
        }
    }
}

}
