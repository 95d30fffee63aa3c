//! The graph of a workflow as it is declared, node by node.
use super::key::{KeyView, NodeKey};
use crate::dag::{
    add_edge, add_node, empty_graph, follows_edge, graph_edges, graph_nodes, is_cyclic,
    is_mentioned, is_walk, on_cycle,
};
use petgraph::graph::Graph as Digraph;
use vstd::prelude::*;
use vstd::string::*;

verus! {

/// Why a graph is refused.
#[derive(Debug)]
pub enum GraphError {
    /// A second node under a key that is taken.
    DuplicateNode(NodeKey),
    /// A dependency that no node declares.
    MissingDependency { node: NodeKey, dependency: NodeKey },
    /// A cycle of dependencies; the key is that of a node that lies on a cycle.
    CycleDetected(NodeKey),
}

impl GraphError {
    /// The text of the error's message.
    pub open spec fn text(self) -> Seq<char> {
        match self {
            GraphError::DuplicateNode(key) => "duplicate node declared: "@ + key@.text(),
            GraphError::MissingDependency { node, dependency } => "missing dependency "@
                + dependency@.text() + " for node "@ + node@.text(),
            GraphError::CycleDetected(key) => "cycle detected at node: "@ + key@.text(),
        }
    }

    /// The error's message.
    pub fn message(&self) -> (r: String)
        ensures
            r@ == self.text(),
    {
        match self {
            GraphError::DuplicateNode(key) => {
                let mut text = "duplicate node declared: ".to_string();
                text.append(key.text().as_str());
                text
            },
            GraphError::MissingDependency { node, dependency } => {
                let mut text = "missing dependency ".to_string();
                text.append(dependency.text().as_str());
                text.append(" for node ");
                text.append(node.text().as_str());
                text
            },
            GraphError::CycleDetected(key) => {
                let mut text = "cycle detected at node: ".to_string();
                text.append(key.text().as_str());
                text
            },
        }
    }
}

/// The keys of a list of nodes.
pub open spec fn key_views(keys: Seq<NodeKey>) -> Seq<KeyView> {
    keys.map_values(|k: NodeKey| k@)
}

/// The nodes of a workflow in the order of their declaration. A node has a key, a record (what
/// reconciles it) and the keys of the nodes that it depends on.
pub struct Graph<R> {
    pub(crate) nodes: Vec<(NodeKey, R, Vec<NodeKey>)>,
}

impl<R> Graph<R> {
    /// The nodes' keys.
    pub closed spec fn keys(self) -> Seq<KeyView> {
        self.nodes@.map_values(|n: (NodeKey, R, Vec<NodeKey>)| n.0@)
    }

    /// The nodes' records.
    pub closed spec fn records(self) -> Seq<R> {
        self.nodes@.map_values(|n: (NodeKey, R, Vec<NodeKey>)| n.1)
    }

    /// What each node depends on.
    pub closed spec fn deps(self) -> Seq<Seq<KeyView>> {
        self.nodes@.map_values(|n: (NodeKey, R, Vec<NodeKey>)| key_views(n.2@))
    }

    /// Each node has a key of its own.
    #[verifier::type_invariant]
    pub open spec fn wf(self) -> bool {
        &&& self.keys().no_duplicates()
        &&& self.records().len() == self.keys().len()
        &&& self.deps().len() == self.keys().len()
    }

    /// Whether the `j`-th dependency of the `i`-th node is declared.
    pub open spec fn declared(self, i: int, j: int) -> bool {
        self.keys().contains(self.deps()[i][j])
    }

    /// Whether every dependency is declared.
    pub open spec fn complete(self) -> bool {
        forall|i: int, j: int|
            0 <= i < self.deps().len() && 0 <= j < self.deps()[i].len() ==> #[trigger] self.declared(
                i,
                j,
            )
    }

    /// Whether the `j`-th dependency of the `i`-th node is the first one that is not declared.
    pub open spec fn first_undeclared(self, i: int, j: int) -> bool {
        &&& 0 <= i < self.deps().len()
        &&& 0 <= j < self.deps()[i].len()
        &&& !self.declared(i, j)
        &&& forall|i2: int, j2: int|
            0 <= i2 < self.deps().len() && 0 <= j2 < self.deps()[i2].len() && (i2 < i || (i2 == i
                && j2 < j)) ==> #[trigger] self.declared(i2, j2)
    }

    /// The dependencies as edges between positions: from what a node depends on to the node.
    pub open spec fn edges(self) -> Set<(int, int)> {
        Set::new(
            |e: (int, int)|
                {
                    &&& 0 <= e.0 < self.keys().len()
                    &&& 0 <= e.1 < self.keys().len()
                    &&& self.deps()[e.1].contains(self.keys()[e.0])
                },
        )
    }

    /// The number of dependencies that the first `n` nodes name.
    pub open spec fn named_dependencies(self, n: int) -> nat
        decreases n,
    {
        if n <= 0 {
            0
        } else {
            self.named_dependencies(n - 1) + self.deps()[n - 1].len()
        }
    }

    /// The nodes that are named as a dependency before they are declared.
    pub open spec fn mentioned(self) -> Set<int> {
        Set::new(|d: int| is_mentioned(self.edges(), d))
    }

    /// Whether nodes, with those that are named before they are declared counted twice, and named
    /// dependencies can be counted in 32 bits, as the graphs of their positions count them.
    pub open spec fn in_bounds(self) -> bool {
        &&& self.keys().len() + self.mentioned().len() <= u32::MAX
        &&& self.named_dependencies(self.keys().len() as int) <= u32::MAX
    }

    /// Whether a scheduler refuses this graph with this error: for the first dependency that is
    /// not declared or, where every one is, for a cycle, at a node that lies on one.
    pub open spec fn refused_with(self, error: GraphError) -> bool {
        match error {
            GraphError::MissingDependency { node, dependency } => exists|i: int, j: int| #[trigger]
                self.first_undeclared(i, j) && node@ == self.keys()[i] && dependency@
                    == self.deps()[i][j],
            GraphError::CycleDetected(key) => {
                &&& self.complete()
                &&& is_cyclic(self.edges())
                &&& exists|i: int|
                    0 <= i < self.keys().len() && #[trigger] on_cycle(self.edges(), i) && key@
                        == self.keys()[i]
            },
            GraphError::DuplicateNode(_) => false,
        }
    }

    /// A graph without nodes.
    pub fn new() -> (graph: Self)
        ensures
            graph.wf(),
            graph.keys() == Seq::<KeyView>::empty(),
            graph.records() == Seq::<R>::empty(),
            graph.deps() == Seq::<Seq<KeyView>>::empty(),
    {
        let graph = Graph { nodes: Vec::new() };
        assert(graph.keys() =~= Seq::<KeyView>::empty());
        assert(graph.records() =~= Seq::<R>::empty());
        assert(graph.deps() =~= Seq::<Seq<KeyView>>::empty());
        graph
    }

    /// The position of the node that has the given key.
    pub fn position(&self, key: &NodeKey) -> (at: Option<usize>)
        ensures
            match at {
                Some(at) => at < self.keys().len() && self.keys()[at as int] == key@,
                None => !self.keys().contains(key@),
            },
    {
        let mut i: usize = 0;
        while i < self.nodes.len()
            invariant
                i <= self.nodes.len(),
                forall|k: int| 0 <= k < i ==> #[trigger] self.keys()[k] != key@,
            decreases self.nodes.len() - i,
        {
            if self.nodes[i].0.same(key) {
                return Some(i);
            }
            i = i + 1;
        }
        None
    }

    /// Declares a node. A key that is taken is refused and leaves the graph as it was.
    pub fn add(&mut self, key: NodeKey, record: R, deps: Vec<NodeKey>) -> (r: Result<
        (),
        GraphError,
    >)
        ensures
            final(self).wf(),
            match r {
                Ok(_) => {
                    &&& !old(self).keys().contains(key@)
                    &&& final(self).keys() == old(self).keys().push(key@)
                    &&& final(self).records() == old(self).records().push(record)
                    &&& final(self).deps() == old(self).deps().push(key_views(deps@))
                    &&& final(self).deps().last().len() == deps@.len()
                    &&& forall|j: int|
                        0 <= j < deps@.len() ==> #[trigger] final(self).deps().last()[j]
                            == deps@[j]@
                },
                Err(error) => {
                    &&& old(self).keys().contains(key@)
                    &&& error == GraphError::DuplicateNode(key)
                    &&& *final(self) == *old(self)
                },
            },
    {
        if self.position(&key).is_some() {
            proof {
                use_type_invariant(&*self);
            }
            return Err(GraphError::DuplicateNode(key));
        }
        proof {
            use_type_invariant(&*self);
        }
        let mut nodes: Vec<(NodeKey, R, Vec<NodeKey>)> = Vec::new();
        assert(nodes@.map_values(|n: (NodeKey, R, Vec<NodeKey>)| n.0@).len() == 0);
        std::mem::swap(&mut nodes, &mut self.nodes);
        nodes.push((key, record, deps));
        proof {
            assert(nodes@.map_values(|n: (NodeKey, R, Vec<NodeKey>)| n.0@) =~= old(
                self,
            ).keys().push(key@));
        }
        self.nodes = nodes;
        proof {
            assert(self.keys() =~= old(self).keys().push(key@));
            assert(self.records() =~= old(self).records().push(record));
            assert(self.deps() =~= old(self).deps().push(key_views(deps@)));
        }
        Ok(())
    }

    /// The number of nodes.
    pub fn len(&self) -> (n: usize)
        ensures
            n == self.keys().len(),
    {
        self.nodes.len()
    }

    /// The key of the node at a position.
    pub fn key(&self, i: usize) -> (key: &NodeKey)
        requires
            i < self.keys().len(),
        ensures
            key@ == self.keys()[i as int],
    {
        &self.nodes[i].0
    }

    /// One of the dependencies of the node at a position.
    pub fn dependency(&self, i: usize, j: usize) -> (key: &NodeKey)
        requires
            i < self.deps().len(),
            j < self.deps()[i as int].len(),
        ensures
            key@ == self.deps()[i as int][j as int],
    {
        &self.nodes[i].2[j]
    }

    /// The number of dependencies that the node at a position names.
    pub fn dependencies(&self, i: usize) -> (n: usize)
        requires
            i < self.deps().len(),
        ensures
            n == self.deps()[i as int].len(),
    {
        self.nodes[i].2.len()
    }

    /// Finds the first dependency that no node declares.
    pub fn undeclared(&self) -> (r: Option<(usize, usize)>)
        ensures
            match r {
                Some((i, j)) => self.first_undeclared(i as int, j as int),
                None => self.complete(),
            },
    {
        let mut i: usize = 0;
        while i < self.nodes.len()
            invariant
                i <= self.nodes.len(),
                forall|i2: int, j2: int|
                    0 <= i2 < i && 0 <= j2 < self.deps()[i2].len() ==> #[trigger] self.declared(
                        i2,
                        j2,
                    ),
            decreases self.nodes.len() - i,
        {
            let deps = &self.nodes[i].2;
            let mut j: usize = 0;
            while j < deps.len()
                invariant
                    i < self.nodes.len(),
                    j <= deps.len(),
                    key_views(deps@) == self.deps()[i as int],
                    forall|i2: int, j2: int|
                        0 <= i2 < self.deps().len() && 0 <= j2 < self.deps()[i2].len() && (i2 < i
                            || (i2 == i && j2 < j)) ==> #[trigger] self.declared(i2, j2),
                decreases deps.len() - j,
            {
                assert(deps[j as int]@ == self.deps()[i as int][j as int]);
                if self.position(&deps[j]).is_none() {
                    assert(!self.declared(i as int, j as int));
                    return Some((i, j));
                }
                j = j + 1;
            }
            i = i + 1;
        }
        None
    }

    /// The number of named dependencies grows with the number of nodes.
    pub(crate) proof fn lemma_named_dependencies_grow(self, m: int, n: int)
        requires
            m <= n,
        ensures
            self.named_dependencies(m) <= self.named_dependencies(n),
        decreases n - m,
    {
        if m < n {
            self.lemma_named_dependencies_grow(m, n - 1);
        }
    }

    /// Builds the graph of the nodes' positions, with an edge to each node from everything that
    /// it depends on.
    pub(crate) fn digraph(&self) -> (g: Digraph<usize, ()>)
        requires
            self.complete(),
            self.in_bounds(),
        ensures
            graph_nodes(g) == Seq::new(self.keys().len(), |i: int| i),
            graph_edges(g).to_set() == self.edges(),
    {
        proof {
            use_type_invariant(self);
        }
        let mut g = empty_graph();
        let n = self.nodes.len();
        let mut i: usize = 0;
        while i < n
            invariant
                i <= n,
                n == self.nodes.len(),
                n <= u32::MAX,
                graph_nodes(g) == Seq::new(i as nat, |k: int| k),
                graph_edges(g).len() == 0,
            decreases n - i,
        {
            let at = add_node(&mut g, i);
            proof {
                assert(graph_nodes(g) =~= Seq::new((i + 1) as nat, |k: int| k));
            }
            i = i + 1;
        }
        let mut i: usize = 0;
        while i < n
            invariant
                i <= n,
                n == self.nodes.len(),
                self.wf(),
                self.complete(),
                self.named_dependencies(n as int) <= u32::MAX,
                graph_nodes(g) == Seq::new(n as nat, |k: int| k),
                graph_edges(g).len() == self.named_dependencies(i as int),
                forall|e: (int, int)| #[trigger]
                    graph_edges(g).contains(e) <==> self.edges().contains(e) && e.1 < i,
            decreases n - i,
        {
            let deps = &self.nodes[i].2;
            let mut j: usize = 0;
            while j < deps.len()
                invariant
                    i < n,
                    n == self.nodes.len(),
                    self.wf(),
                    self.complete(),
                    self.named_dependencies(n as int) <= u32::MAX,
                    j <= deps.len(),
                    key_views(deps@) == self.deps()[i as int],
                    graph_nodes(g) == Seq::new(n as nat, |k: int| k),
                    graph_edges(g).len() == self.named_dependencies(i as int) + j,
                    forall|e: (int, int)| #[trigger]
                        graph_edges(g).contains(e) <==> self.edges().contains(e) && (e.1 < i || (
                        e.1 == i && self.deps()[i as int].take(j as int).contains(
                            self.keys()[e.0],
                        ))),
                decreases deps.len() - j,
            {
                assert(deps[j as int]@ == self.deps()[i as int][j as int]);
                assert(self.declared(i as int, j as int));
                match self.position(&deps[j]) {
                    Some(at) => {
                        proof {
                            self.lemma_named_dependencies_grow(i + 1, n as int);
                        }
                        let ghost before = graph_edges(g);
                        add_edge(&mut g, at, i);
                        proof {
                            let list = self.deps()[i as int];
                            let ghost added = (at as int, i as int);
                            assert(list.take(j + 1) =~= list.take(j as int).push(list[j as int]));
                            assert(list.contains(list[j as int]));
                            assert forall|e: (int, int)| #[trigger]
                                graph_edges(g).contains(e) <==> self.edges().contains(e) && (e.1
                                    < i || (e.1 == i && list.take(j + 1).contains(
                                self.keys()[e.0],
                            ))) by {
                                assert(graph_edges(g).contains(e) <==> before.contains(e) || e
                                    == added) by {
                                    if before.contains(e) {
                                        let k = before.index_of(e);
                                        assert(graph_edges(g)[k] == e);
                                    }
                                    if e == added {
                                        assert(graph_edges(g)[before.len() as int] == e);
                                    }
                                }
                                if e.1 == i && 0 <= e.0 < n {
                                    let key = self.keys()[e.0];
                                    assert(list.take(j + 1).contains(key) <==> list.take(
                                        j as int,
                                    ).contains(key) || key == list[j as int]) by {
                                        if list.take(j as int).contains(key) {
                                            let k = list.take(j as int).index_of(key);
                                            assert(list.take(j + 1)[k] == key);
                                        }
                                        if key == list[j as int] {
                                            assert(list.take(j + 1)[j as int] == key);
                                        }
                                    }
                                }
                            }
                        }
                    },
                    None => {
                        assert(false);
                    },
                }
                j = j + 1;
            }
            proof {
                let list = self.deps()[i as int];
                assert(list.take(j as int) =~= list);
            }
            i = i + 1;
        }
        proof {
            assert(graph_edges(g).to_set() =~= self.edges());
        }
        g
    }

    /// Takes the nodes' keys and records out of the graph.
    pub(crate) fn into_records(self) -> (records: Vec<(NodeKey, R)>)
        ensures
            records@.map_values(|r: (NodeKey, R)| r.0@) == self.keys(),
            records@.map_values(|r: (NodeKey, R)| r.1) == self.records(),
    {
        let mut records: Vec<(NodeKey, R)> = Vec::new();
        let ghost nodes = self.nodes@;
        for node in it: self.nodes
            invariant
                it.seq() == nodes,
                records@.len() == it.index(),
                forall|k: int|
                    0 <= k < records@.len() ==> (#[trigger] records@[k]).0 == nodes[k].0
                        && records@[k].1 == nodes[k].1,
        {
            records.push((node.0, node.1));
        }
        proof {
            assert(records@.map_values(|r: (NodeKey, R)| r.0@) =~= self.keys());
            assert(records@.map_values(|r: (NodeKey, R)| r.1) =~= self.records());
        }
        records
    }
}

/// Keys have their values, each in its place, and none is left out.
pub proof fn every_key_has_its_value(keys: Seq<NodeKey>)
    ensures
        key_views(keys).len() == keys.len(),
        forall|j: int| 0 <= j < keys.len() ==> #[trigger] key_views(keys)[j] == keys[j]@,
{
}

/// An error's message says what is wrong and names the nodes.
pub proof fn messages_name_the_nodes(error: GraphError)
    ensures
        match error {
            GraphError::DuplicateNode(key) => error.text() == "duplicate node declared: "@
                + key@.text(),
            GraphError::MissingDependency { node, dependency } => error.text()
                == "missing dependency "@ + dependency@.text() + " for node "@ + node@.text(),
            GraphError::CycleDetected(key) => error.text() == "cycle detected at node: "@
                + key@.text(),
        },
{
}

/// Whether node `i` names the node at `d` as one of its dependencies.
pub open spec fn names_dependency<R>(graph: Graph<R>, i: int, d: int) -> bool {
    exists|j: int|
        0 <= j < graph.deps()[i].len() && #[trigger] graph.deps()[i][j] == graph.keys()[d]
}

/// An edge leads from one node to another if and only if the other names the key of the first one
/// at some place of its list of dependencies.
pub proof fn edges_are_the_named_dependencies<R>(graph: Graph<R>, d: int, i: int)
    requires
        0 <= d < graph.keys().len(),
        0 <= i < graph.keys().len(),
    ensures
        graph.edges().contains((d, i)) <==> exists|j: int|
            0 <= j < graph.deps()[i].len() && #[trigger] graph.deps()[i][j] == graph.keys()[d],
{
    let list = graph.deps()[i];
    let key = graph.keys()[d];
    if list.contains(key) {
        let j = list.index_of(key);
        assert(graph.deps()[i][j] == key);
    }
    if exists|j: int| 0 <= j < list.len() && #[trigger] graph.deps()[i][j] == key {
        let j = choose|j: int| 0 <= j < list.len() && #[trigger] graph.deps()[i][j] == key;
        assert(list[j] == key);
    }
}

/// A graph to which a node was added holds every dependency of the node, in its place, leaves the
/// nodes before it as they were, and has an edge to the node from each of its dependencies that is
/// declared.
pub proof fn added_nodes_keep_all_their_dependencies<R>(
    before: Graph<R>,
    after: Graph<R>,
    key: NodeKey,
    record: R,
    deps: Seq<NodeKey>,
)
    requires
        before.wf(),
        after.keys() == before.keys().push(key@),
        after.records() == before.records().push(record),
        after.deps() == before.deps().push(key_views(deps)),
    ensures
        ({
            let n = before.keys().len() as int;
            &&& after.keys().len() == n + 1
            &&& after.keys()[n] == key@
            &&& after.records()[n] == record
            &&& after.deps()[n].len() == deps.len()
            &&& forall|j: int| 0 <= j < deps.len() ==> #[trigger] after.deps()[n][j] == deps[j]@
            &&& forall|j: int, d: int|
                0 <= j < deps.len() && 0 <= d <= n && #[trigger] after.keys()[d]
                    == (#[trigger] deps[j])@ ==> after.edges().contains((d, n))
            &&& forall|i: int|
                0 <= i < n ==> #[trigger] after.keys()[i] == before.keys()[i] && after.records()[i]
                    == before.records()[i] && after.deps()[i] == before.deps()[i]
        }),
{
    let n = before.keys().len() as int;
    assert forall|j: int, d: int|
        0 <= j < deps.len() && 0 <= d <= n && #[trigger] after.keys()[d] == (
        #[trigger] deps[j])@ implies after.edges().contains((d, n)) by {
        assert(after.deps()[n][j] == deps[j]@);
        assert(after.deps()[n].contains(after.keys()[d]));
    }
}

/// Whether each step of a walk leads from a node to one that names it as a dependency.
pub open spec fn walks_along_dependencies<R>(graph: Graph<R>, path: Seq<int>) -> bool {
    &&& forall|k: int| 0 <= k < path.len() ==> 0 <= #[trigger] path[k] < graph.keys().len()
    &&& forall|k: int|
        0 < k < path.len() ==> names_dependency(graph, #[trigger] path[k], path[k - 1])
}

proof fn lemma_walks<R>(graph: Graph<R>, path: Seq<int>)
    requires
        path.len() >= 2,
    ensures
        is_walk(graph.edges(), path) <==> walks_along_dependencies(graph, path),
{
    if is_walk(graph.edges(), path) {
        assert forall|k: int| 0 <= k < path.len() implies 0 <= #[trigger] path[k]
            < graph.keys().len() by {
            if k < path.len() - 1 {
                assert(follows_edge(graph.edges(), path, k));
            } else {
                assert(follows_edge(graph.edges(), path, k - 1));
            }
        }
        assert forall|k: int| 0 < k < path.len() implies names_dependency(
            graph,
            #[trigger] path[k],
            path[k - 1],
        ) by {
            assert(follows_edge(graph.edges(), path, k - 1));
            edges_are_the_named_dependencies(graph, path[k - 1], path[k]);
        }
    }
    if walks_along_dependencies(graph, path) {
        assert forall|k: int| 0 <= k < path.len() - 1 implies #[trigger] follows_edge(
            graph.edges(),
            path,
            k,
        ) by {
            assert(names_dependency(graph, path[k + 1], path[k]));
            edges_are_the_named_dependencies(graph, path[k], path[k + 1]);
        }
    }
}

/// A graph that is refused for a dependency has one that no node declares, and every dependency
/// that is named before it is declared. A graph that is refused for a cycle has a walk along
/// dependencies from the node in question back to it.
pub proof fn refusals_are_justified<R>(graph: Graph<R>, error: GraphError)
    requires
        graph.wf(),
        graph.refused_with(error),
    ensures
        match error {
            GraphError::DuplicateNode(_) => false,
            GraphError::MissingDependency { node, dependency } => {
                &&& !graph.keys().contains(dependency@)
                &&& exists|i: int, j: int|
                    {
                        &&& 0 <= i < graph.keys().len()
                        &&& 0 <= j < graph.deps()[i].len()
                        &&& graph.keys()[i] == node@
                        &&& #[trigger] graph.deps()[i][j] == dependency@
                        &&& forall|a: int, b: int|
                            0 <= a < graph.keys().len() && 0 <= b < graph.deps()[a].len() && (a < i
                                || (a == i && b < j)) ==> graph.keys().contains(
                                #[trigger] graph.deps()[a][b],
                            )
                    }
            },
            GraphError::CycleDetected(key) => {
                &&& forall|i: int, j: int|
                    0 <= i < graph.keys().len() && 0 <= j < graph.deps()[i].len()
                        ==> graph.keys().contains(#[trigger] graph.deps()[i][j])
                &&& exists|path: Seq<int>|
                    {
                        &&& #[trigger] walks_along_dependencies(graph, path)
                        &&& path.len() >= 2
                        &&& path[0] == path.last()
                        &&& graph.keys()[path[0]] == key@
                    }
            },
        },
{
    match error {
        GraphError::DuplicateNode(_) => {},
        GraphError::MissingDependency { node, dependency } => {
            let (i, j) = choose|i: int, j: int| #[trigger]
                graph.first_undeclared(i, j) && node@ == graph.keys()[i] && dependency@
                    == graph.deps()[i][j];
            assert(graph.deps()[i][j] == dependency@);
            assert forall|a: int, b: int|
                0 <= a < graph.keys().len() && 0 <= b < graph.deps()[a].len() && (a < i || (a == i
                    && b < j)) implies graph.keys().contains(#[trigger] graph.deps()[a][b]) by {
                assert(graph.declared(a, b));
            }
        },
        GraphError::CycleDetected(key) => {
            assert forall|i: int, j: int|
                0 <= i < graph.keys().len() && 0 <= j < graph.deps()[i].len() implies graph.keys().contains(
            #[trigger] graph.deps()[i][j]) by {
                assert(graph.declared(i, j));
            }
            let i = choose|i: int|
                0 <= i < graph.keys().len() && #[trigger] on_cycle(graph.edges(), i) && key@
                    == graph.keys()[i];
            let path = choose|path: Seq<int>| #[trigger]
                is_walk(graph.edges(), path) && path.len() >= 2 && path[0] == i && path.last()
                    == i;
            lemma_walks(graph, path);
            assert(walks_along_dependencies(graph, path));
        },
    }
}

/// A graph in which every dependency is declared and no walk along dependencies comes back to
/// where it began is refused for nothing.
pub proof fn sound_graphs_are_not_refused<R>(graph: Graph<R>, error: GraphError)
    requires
        graph.wf(),
        forall|i: int, j: int|
            0 <= i < graph.keys().len() && 0 <= j < graph.deps()[i].len() ==> graph.keys().contains(
                #[trigger] graph.deps()[i][j],
            ),
        forall|path: Seq<int>| #[trigger]
            walks_along_dependencies(graph, path) && path.len() >= 2 ==> path[0] != path.last(),
    ensures
        !graph.refused_with(error),
{
    if graph.refused_with(error) {
        refusals_are_justified(graph, error);
    }
}

/// Graphs of ordinary size fit: the nodes counted twice and the dependencies that each of them may
/// name, all counted, stay below the limit.
pub proof fn ordinary_graphs_fit<R>(graph: Graph<R>, most: nat)
    requires
        graph.wf(),
        forall|i: int| 0 <= i < graph.deps().len() ==> (#[trigger] graph.deps()[i]).len() <= most,
        2 * graph.keys().len() <= u32::MAX,
        graph.keys().len() * most <= u32::MAX,
    ensures
        graph.in_bounds(),
{
    let n = graph.keys().len() as int;
    let all = vstd::set_lib::set_int_range(0, n);
    vstd::set_lib::lemma_int_range(0, n);
    assert(graph.mentioned().subset_of(all));
    vstd::set_lib::lemma_len_subset(graph.mentioned(), all);
    lemma_named_at_most(graph, most, n);
}

proof fn lemma_named_at_most<R>(graph: Graph<R>, most: nat, n: int)
    requires
        forall|i: int| 0 <= i < graph.deps().len() ==> (#[trigger] graph.deps()[i]).len() <= most,
        0 <= n <= graph.deps().len(),
    ensures
        graph.named_dependencies(n) <= n * most,
    decreases n,
{
    if n > 0 {
        lemma_named_at_most(graph, most, n - 1);
        assert(n * most == (n - 1) * most + most) by (nonlinear_arith);
    }
}

/// A node names another one if that one's key stands at some place of its list of dependencies. A
/// walk along dependencies stays among the nodes, and each of its nodes names the one before it.
pub proof fn walks_follow_the_lists<R>(graph: Graph<R>, path: Seq<int>)
    ensures
        forall|i: int, d: int| #[trigger]
            names_dependency(graph, i, d) <==> exists|j: int|
                0 <= j < graph.deps()[i].len() && #[trigger] graph.deps()[i][j] == graph.keys()[d],
        walks_along_dependencies(graph, path) <==> {
            &&& forall|k: int| 0 <= k < path.len() ==> 0 <= #[trigger] path[k] < graph.keys().len()
            &&& forall|k: int|
                0 < k < path.len() ==> names_dependency(graph, #[trigger] path[k], path[k - 1])
        },
{
}

}
