//! The scheduler of a workflow: which nodes can be reconciled, and in what order nodes are
//! cleaned up.
use super::graph::{
    edges_are_the_named_dependencies, names_dependency, walks_along_dependencies, Graph, GraphError,
};
use super::key::{KeyView, NodeKey};
use super::status::{Marks, NodeState};
use super::unfold::{
    is_cleanup, lemma_cleanup, lemma_unfolding_is_acyclic, unfolds, visited, Visit,
};
use crate::dag::{
    edges_within, follows_edge, graph_edges, graph_nodes, is_cyclic, is_topological, is_walk, lemma_on_cycle,
    lemma_sources, ordered_graph_is_acyclic, positions, sources_of, toposort, weight_of,
};
use petgraph::graph::Graph as Digraph;
use vstd::prelude::*;

verus! {

/// A workflow's nodes in the order of their declaration, with the graph of their dependencies and
/// the graph along which they are cleaned up. A node of these graphs carries the position of the
/// record that it stands for.
pub struct Scheduler<R> {
    g: Digraph<usize, ()>,
    visits: Digraph<usize, ()>,
    records: Vec<(NodeKey, R)>,
}

impl<R> Scheduler<R> {
    /// The nodes' keys.
    pub closed spec fn keys(self) -> Seq<KeyView> {
        self.records@.map_values(|r: (NodeKey, R)| r.0@)
    }

    /// The nodes' records.
    pub closed spec fn records(self) -> Seq<R> {
        self.records@.map_values(|r: (NodeKey, R)| r.1)
    }

    /// The dependencies as edges between positions: from what a node depends on to the node.
    pub closed spec fn edges(self) -> Set<(int, int)> {
        graph_edges(self.g).to_set()
    }

    /// The number of nodes.
    pub open spec fn size(self) -> nat {
        self.keys().len()
    }

    /// Each node of the graph carries its own position.
    pub closed spec fn positions_match(self) -> bool {
        graph_nodes(self.g) == Seq::new(self.records@.len(), |i: int| i)
    }

    /// The graph along which nodes are cleaned up unfolds their dependencies.
    pub closed spec fn visits_match(self) -> bool {
        exists|home: Seq<int>| #[trigger]
            unfolds(
                self.size(),
                self.edges(),
                graph_nodes(self.visits),
                graph_edges(self.visits).to_set(),
                home,
            )
    }

    /// The nodes have keys of their own, and can be put in an order in which each comes after
    /// everything that it depends on.
    #[verifier::type_invariant]
    pub open spec fn wf(self) -> bool {
        &&& self.positions_match()
        &&& self.visits_match()
        &&& self.size() <= u32::MAX
        &&& self.records().len() == self.size()
        &&& self.keys().no_duplicates()
        &&& edges_within(self.size(), self.edges())
        &&& exists|order: Seq<int>| #[trigger] is_topological(self.size(), self.edges(), order)
    }

    /// Whether everything that node `i` depends on is ready.
    pub open spec fn dependencies_ready(self, marks: Marks, i: int) -> bool {
        forall|j: int| #[trigger]
            self.edges().contains((j, i)) ==> marks[j] == Some(NodeState::Ready)
    }

    /// Whether node `i` was not reconciled yet and everything that it depends on is ready.
    pub open spec fn is_runnable(self, marks: Marks, i: int) -> bool {
        &&& 0 <= i < self.size()
        &&& marks[i] is None
        &&& self.dependencies_ready(marks, i)
    }

    /// The nodes that can be reconciled next, in the order of their declaration.
    pub open spec fn frontier(self, marks: Marks) -> Seq<int> {
        Seq::new(self.size(), |i: int| i).filter(|i: int| self.is_runnable(marks, i))
    }

    /// Whether this is the scheduler of the nodes of a graph that can be scheduled.
    pub open spec fn takes_on(self, graph: Graph<R>) -> bool {
        &&& graph.complete()
        &&& !is_cyclic(graph.edges())
        &&& self.wf()
        &&& self.keys() == graph.keys()
        &&& self.records() == graph.records()
        &&& self.edges() == graph.edges()
    }

    /// Takes on the nodes of a graph, if every dependency is declared and none leads back to
    /// itself.
    pub fn new(graph: Graph<R>) -> (r: Result<Self, GraphError>)
        requires
            graph.in_bounds(),
        ensures
            match r {
                Ok(scheduler) => scheduler.takes_on(graph),
                Err(error) => graph.refused_with(error),
            },
    {
        proof {
            use_type_invariant(&graph);
        }
        if let Some((i, j)) = graph.undeclared() {
            proof {
                assert(graph.first_undeclared(i as int, j as int));
            }
            return Err(
                GraphError::MissingDependency {
                    node: graph.key(i).clone(),
                    dependency: graph.dependency(i, j).clone(),
                },
            );
        }
        let g = graph.digraph();
        if let Err(node) = toposort(&g) {
            proof {
                lemma_on_cycle(graph.edges(), node as int);
            }
            return Err(GraphError::CycleDetected(graph.key(weight_of(&g, node)).clone()));
        }
        proof {
            let order = choose|order: Seq<int>| #[trigger]
                is_topological(graph.keys().len(), graph.edges(), order);
            ordered_graph_is_acyclic(graph.keys().len(), graph.edges(), order);
        }
        let visits = graph.unfolding();
        let records = graph.into_records();
        proof {
            let home = choose|home: Seq<int>| #[trigger]
                unfolds(
                    graph.keys().len(),
                    graph.edges(),
                    graph_nodes(visits),
                    graph_edges(visits).to_set(),
                    home,
                );
            let made = Scheduler { g, visits, records };
            assert(made.keys() == graph.keys());
            assert(unfolds(
                made.size(),
                made.edges(),
                graph_nodes(made.visits),
                graph_edges(made.visits).to_set(),
                home,
            ));
        }
        Ok(Scheduler { g, visits, records })
    }

    /// The number of nodes.
    pub fn len(&self) -> (n: usize)
        ensures
            n == self.size(),
    {
        self.records.len()
    }

    /// The key of the node at a position.
    pub fn key(&self, i: usize) -> (key: &NodeKey)
        requires
            i < self.size(),
        ensures
            key@ == self.keys()[i as int],
    {
        &self.records[i].0
    }

    /// The record of the node at a position.
    pub fn record(&self, i: usize) -> (record: &R)
        requires
            i < self.size(),
        ensures
            *record == self.records()[i as int],
    {
        &self.records[i].1
    }

    /// Whether a node was not reconciled yet and everything that it depends on is ready.
    fn can_run(&self, marks: &Vec<Option<NodeState>>, i: usize) -> (r: bool)
        requires
            marks@.len() == self.size(),
            i < self.size(),
        ensures
            r == self.is_runnable(marks@, i as int),
    {
        proof {
            use_type_invariant(self);
        }
        if marks[i].is_some() {
            return false;
        }
        let found = sources_of(&self.g, i);
        let ghost known = positions(found@);
        let mut k: usize = 0;
        while k < found.len()
            invariant
                self.wf(),
                marks@.len() == self.size(),
                i < self.size(),
                k <= found.len(),
                known == positions(found@),
                known == crate::dag::sources(graph_edges(self.g), i as int),
                forall|m: int| 0 <= m < k ==> marks@[#[trigger] known[m]] == Some(NodeState::Ready),
            decreases found.len() - k,
        {
            proof {
                assert(known[k as int] == found@[k as int]);
                assert(known.contains(known[k as int]));
                lemma_sources(graph_edges(self.g), i as int, known[k as int]);
                assert(self.edges().contains((known[k as int], i as int)));
            }
            let dependency = weight_of(&self.g, found[k]);
            match marks[dependency] {
                Some(NodeState::Ready) => {},
                _ => {
                    return false;
                },
            }
            k = k + 1;
        }
        proof {
            assert forall|j: int| #[trigger] self.edges().contains((j, i as int)) implies marks@[j]
                == Some(NodeState::Ready) by {
                lemma_sources(graph_edges(self.g), i as int, j);
                let m = known.index_of(j);
                assert(known[m] == j);
            }
        }
        true
    }

    /// The nodes that can be reconciled next: not reconciled yet, and everything that they
    /// depend on ready.
    pub fn runnable(&self, marks: &Vec<Option<NodeState>>) -> (nodes: Vec<usize>)
        requires
            marks@.len() == self.size(),
        ensures
            positions(nodes@) == self.frontier(marks@),
            forall|a: int, b: int|
                0 <= a < b < nodes@.len() ==> #[trigger] nodes@[a] < #[trigger] nodes@[b],
            forall|i: usize| #[trigger]
                nodes@.contains(i) <==> 0 <= i < self.size() && marks@[i as int] is None && (forall|
                    j: int,
                | #[trigger]
                    self.edges().contains((j, i as int)) ==> marks@[j] == Some(NodeState::Ready)),
    {
        proof {
            use_type_invariant(self);
        }
        let mut nodes: Vec<usize> = Vec::new();
        let n = self.records.len();
        let ghost pred = |i: int| self.is_runnable(marks@, i);
        let ghost all = Seq::new(self.size(), |i: int| i);
        let mut i: usize = 0;
        while i < n
            invariant
                self.wf(),
                marks@.len() == self.size(),
                n == self.size(),
                i <= n,
                all == Seq::new(self.size(), |i: int| i),
                pred == (|i: int| self.is_runnable(marks@, i)),
                positions(nodes@) == all.take(i as int).filter(pred),
            decreases n - i,
        {
            let ghost before = nodes@;
            proof {
                reveal(Seq::filter);
                assert(all.take(i + 1).drop_last() =~= all.take(i as int));
                assert(all.take(i + 1).last() == i);
            }
            if self.can_run(marks, i) {
                nodes.push(i);
                proof {
                    assert(positions(nodes@) =~= positions(before).push(i as int));
                }
            }
            i = i + 1;
        }
        proof {
            assert(all.take(n as int) =~= all);
            let next = positions(nodes@);
            self.next_nodes_are_those_that_wait_for_nothing(marks@);
            assert forall|k: int| 0 <= k < nodes@.len() implies next[k] == #[trigger] nodes@[k] by {}
            assert forall|i: usize| #[trigger] nodes@.contains(i) <==> next.contains(i as int) by {
                if nodes@.contains(i) {
                    let k = nodes@.index_of(i);
                    assert(next[k] == i);
                }
                if next.contains(i as int) {
                    let k = next.index_of(i as int);
                    assert(nodes@[k] == i);
                }
            }
        }
        nodes
    }

    /// The order in which nodes are cleaned up: each, as declared, before everything that it
    /// depends on. A node that is named as a dependency before it is declared is cleaned up twice,
    /// as declared and as mentioned.
    pub fn cleanup_order(&self) -> (order: Vec<usize>)
        ensures
            exists|visits: Seq<Visit>| #[trigger]
                is_cleanup(self.size(), self.edges(), visits) && positions(order@) == visited(
                    visits,
                ),
    {
        proof {
            use_type_invariant(self);
        }
        let ghost nodes = graph_nodes(self.visits);
        let ghost edges = graph_edges(self.visits).to_set();
        let ghost home = choose|home: Seq<int>| #[trigger]
            unfolds(self.size(), self.edges(), nodes, edges, home);
        proof {
            let order = choose|order: Seq<int>| #[trigger]
                is_topological(self.size(), self.edges(), order);
            ordered_graph_is_acyclic(self.size(), self.edges(), order);
            lemma_unfolding_is_acyclic(self.size(), self.edges(), nodes, edges, home);
        }
        match toposort(&self.visits) {
            Ok(indices) => {
                let mut order: Vec<usize> = Vec::new();
                let ghost forward = positions(indices@);
                let ghost back = forward.reverse().map_values(|c: int| nodes[c]);
                let mut k: usize = indices.len();
                while k > 0
                    invariant
                        nodes == graph_nodes(self.visits),
                        forward == positions(indices@),
                        back == forward.reverse().map_values(|c: int| nodes[c]),
                        is_topological(nodes.len(), edges, forward),
                        k <= indices.len(),
                        positions(order@) == back.take(indices.len() - k),
                    decreases k,
                {
                    k = k - 1;
                    let ghost before = order@;
                    proof {
                        assert(forward.contains(forward[k as int]));
                        assert(forward[k as int] == indices@[k as int]);
                    }
                    let node = weight_of(&self.visits, indices[k]);
                    order.push(node);
                    proof {
                        let m = indices.len() - 1 - k;
                        assert(back[m] == node);
                        assert(positions(order@) =~= positions(before).push(node as int));
                        assert(back.take(m + 1) =~= back.take(m).push(back[m]));
                    }
                }
                proof {
                    assert(back.take(back.len() as int) =~= back);
                    let visits = lemma_cleanup(
                        self.size(),
                        self.edges(),
                        nodes,
                        edges,
                        home,
                        forward,
                    );
                    assert(is_cleanup(self.size(), self.edges(), visits));
                }
                order
            },
            Err(node) => {
                proof {
                    lemma_on_cycle(edges, node as int);
                }
                Vec::new()
            },
        }
    }

    /// The frontier holds the runnable nodes, each once.
    pub proof fn lemma_frontier(self, marks: Marks)
        ensures
            self.frontier(marks).no_duplicates(),
            forall|i: int| #[trigger]
                self.frontier(marks).contains(i) <==> self.is_runnable(marks, i),
    {
        let pred = |i: int| self.is_runnable(marks, i);
        let all = Seq::new(self.size(), |i: int| i);
        lemma_filter_ascending(all, pred);
        let f = self.frontier(marks);
        assert(f == all.filter(pred));
        assert forall|i: int| #[trigger] f.contains(i) <==> self.is_runnable(marks, i) by {
            if f.contains(i) {
                all.lemma_filter_contains_rev(pred, i);
                let k = f.index_of(i);
                all.lemma_filter_pred(pred, k);
            }
            if self.is_runnable(marks, i) {
                assert(all[i] == i);
                all.lemma_filter_contains(pred, i);
            }
        }
    }
}

/// Picking from ascending numbers leaves them ascending.
proof fn lemma_filter_ascending(s: Seq<int>, pred: spec_fn(int) -> bool)
    requires
        forall|i: int, j: int| 0 <= i < j < s.len() ==> #[trigger] s[i] < #[trigger] s[j],
    ensures
        forall|i: int, j: int|
            0 <= i < j < s.filter(pred).len() ==> #[trigger] s.filter(pred)[i] < #[trigger] s.filter(
                pred,
            )[j],
    decreases s.len(),
{
    reveal(Seq::filter);
    if s.len() > 0 {
        let rest = s.drop_last();
        lemma_filter_ascending(rest, pred);
        assert forall|k: int| 0 <= k < rest.filter(pred).len() implies #[trigger] rest.filter(
            pred,
        )[k] < s.last() by {
            assert(rest.filter(pred).contains(rest.filter(pred)[k]));
            rest.lemma_filter_contains_rev(pred, rest.filter(pred)[k]);
        }
    }
}

/// A scheduler has the nodes of the graph that it took on, each in its place, and an edge for each
/// dependency that a node names, and for nothing else. No walk along dependencies comes back to
/// where it began.
pub proof fn schedulers_take_on_the_whole_graph<R>(scheduler: Scheduler<R>, graph: Graph<R>)
    requires
        graph.wf(),
        scheduler.takes_on(graph),
    ensures
        scheduler.size() == graph.keys().len(),
        forall|i: int|
            0 <= i < graph.keys().len() ==> #[trigger] scheduler.keys()[i] == graph.keys()[i]
                && scheduler.records()[i] == graph.records()[i],
        forall|i: int, j: int|
            0 <= i < graph.keys().len() && 0 <= j < graph.deps()[i].len() ==> graph.keys().contains(
                #[trigger] graph.deps()[i][j],
            ),
        forall|d: int, i: int| #[trigger]
            scheduler.edges().contains((d, i)) <==> 0 <= d < graph.keys().len() && 0 <= i
                < graph.keys().len() && names_dependency(graph, i, d),
        forall|path: Seq<int>| #[trigger]
            walks_along_dependencies(graph, path) && path.len() >= 2 ==> path[0] != path.last(),
{
    assert forall|i: int, j: int|
        0 <= i < graph.keys().len() && 0 <= j < graph.deps()[i].len() implies graph.keys().contains(
        #[trigger] graph.deps()[i][j],
    ) by {
        assert(graph.declared(i, j));
    }
    assert forall|d: int, i: int| #[trigger] scheduler.edges().contains((d, i)) <==> 0 <= d
        < graph.keys().len() && 0 <= i < graph.keys().len() && names_dependency(graph, i, d) by {
        if 0 <= d < graph.keys().len() && 0 <= i < graph.keys().len() {
            edges_are_the_named_dependencies(graph, d, i);
        }
    }
    assert forall|path: Seq<int>| #[trigger]
        walks_along_dependencies(graph, path) && path.len() >= 2 implies path[0]
        != path.last() by {
        if path[0] == path.last() {
            assert forall|k: int| 0 <= k < path.len() - 1 implies #[trigger] follows_edge(
                graph.edges(),
                path,
                k,
            ) by {
                assert(names_dependency(graph, path[k + 1], path[k]));
                edges_are_the_named_dependencies(graph, path[k], path[k + 1]);
            }
            assert(is_walk(graph.edges(), path));
        }
    }
}

impl<R> Scheduler<R> {
    /// The nodes that can be reconciled next are those that were not reconciled yet and have
    /// everything that they depend on ready, in the order of their declaration.
    pub proof fn next_nodes_are_those_that_wait_for_nothing(self, marks: Marks)
        requires
            marks.len() == self.size(),
        ensures
            forall|i: int| #[trigger]
                self.frontier(marks).contains(i) <==> 0 <= i < self.size() && marks[i] is None && (
                forall|j: int| #[trigger]
                    self.edges().contains((j, i)) ==> marks[j] == Some(NodeState::Ready)),
            forall|a: int, b: int|
                0 <= a < b < self.frontier(marks).len() ==> #[trigger] self.frontier(marks)[a]
                    < #[trigger] self.frontier(marks)[b],
    {
        self.lemma_frontier(marks);
        let pred = |i: int| self.is_runnable(marks, i);
        let all = Seq::new(self.size(), |i: int| i);
        lemma_filter_ascending(all, pred);
        assert(self.frontier(marks) == all.filter(pred));
        assert forall|i: int| #[trigger] self.frontier(marks).contains(i) <==> 0 <= i
            < self.size() && marks[i] is None && (forall|j: int| #[trigger]
            self.edges().contains((j, i)) ==> marks[j] == Some(NodeState::Ready)) by {
            assert(self.frontier(marks).contains(i) <==> self.is_runnable(marks, i));
        }
    }
}

}
