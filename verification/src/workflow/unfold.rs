//! The graph along which nodes are cleaned up. A node stands in it for its declaration and, where
//! nodes that were declared before it depend on it, once more for being mentioned by them.
use super::graph::Graph;
use crate::dag::{
    add_edge, add_node, empty_graph, follows_edge, graph_edges, graph_nodes, is_cyclic,
    is_mentioned, is_topological, is_walk, positions,
};
use petgraph::graph::Graph as Digraph;
use vstd::prelude::*;

verus! {

/// Why a node is cleaned up.
pub enum Visit {
    /// It was declared.
    Declared(int),
    /// Nodes that were declared before it depend on it.
    Mentioned(int),
}

impl Visit {
    /// The node.
    pub open spec fn node(self) -> int {
        match self {
            Visit::Declared(i) => i,
            Visit::Mentioned(i) => i,
        }
    }
}

/// Whether a workflow of `n` nodes has this visit.
pub open spec fn has_visit(n: nat, edges: Set<(int, int)>, visit: Visit) -> bool {
    match visit {
        Visit::Declared(i) => 0 <= i < n,
        Visit::Mentioned(i) => 0 <= i < n && is_mentioned(edges, i),
    }
}

/// Whether `later` is due after `earlier`: it is the visit that stands for a dependency of the
/// node that `earlier` cleans up as declared. A dependency that was declared no later than the
/// node is cleaned up as declared, another as mentioned.
pub open spec fn is_due_after(edges: Set<(int, int)>, earlier: Visit, later: Visit) -> bool {
    match earlier {
        Visit::Declared(i) => edges.contains((later.node(), i)) && (later is Mentioned
            <==> later.node() > i),
        Visit::Mentioned(_) => false,
    }
}

/// Whether visits are those of a cleanup: each one once, none before a visit that it is due
/// after.
pub open spec fn is_cleanup(n: nat, edges: Set<(int, int)>, visits: Seq<Visit>) -> bool {
    &&& visits.no_duplicates()
    &&& forall|v: Visit| #[trigger] visits.contains(v) <==> has_visit(n, edges, v)
    &&& forall|a: int, b: int|
        0 <= a < visits.len() && 0 <= b < visits.len() && is_due_after(
            edges,
            #[trigger] visits[a],
            #[trigger] visits[b],
        ) ==> a < b
}

/// The nodes of visits.
pub open spec fn visited(visits: Seq<Visit>) -> Seq<int> {
    visits.map_values(|v: Visit| v.node())
}

/// What a graph of visits stands for: the node of each of its own nodes, its edges, which of its
/// nodes stands for the declaration of each node and which for its being mentioned.
pub struct Unfolding {
    pub nodes: Seq<int>,
    pub edges: Seq<(int, int)>,
    pub home: Seq<int>,
    pub mention: Seq<Option<int>>,
}

impl Unfolding {
    /// Whether `c` stands for a dependency `s` of `t`.
    spec fn stands_for(self, c: int, s: int, t: int) -> bool {
        if s > t {
            self.mention[s] == Some(c)
        } else {
            self.home[s] == c
        }
    }

    /// Whether this is the graph of the nodes that were declared so far, of `n`, with the
    /// dependencies that were linked so far.
    spec fn tracks(self, n: int, linked: Set<(int, int)>) -> bool {
        let w = self.nodes;
        &&& self.mention.len() == n
        &&& self.home.len() <= n
        &&& forall|s: int, t: int| #[trigger]
            linked.contains((s, t)) ==> 0 <= s < n && 0 <= t < self.home.len()
        &&& forall|i: int|
            0 <= i < self.home.len() ==> 0 <= #[trigger] self.home[i] < w.len() && w[self.home[i]]
                == i
        &&& forall|d: int|
            0 <= d < n ==> (#[trigger] self.mention[d] matches Some(c) ==> 0 <= c < w.len() && w[c]
                == d && (d < self.home.len() ==> self.home[d] != c))
        &&& forall|c: int|
            0 <= c < w.len() ==> 0 <= #[trigger] w[c] < n && ((w[c] < self.home.len()
                && self.home[w[c]] == c) || self.mention[w[c]] == Some(c))
        &&& forall|d: int|
            0 <= d < n ==> ((#[trigger] self.mention[d]) is Some <==> is_mentioned(linked, d))
        &&& forall|c1: int, c2: int| #[trigger]
            self.edges.contains((c1, c2)) <==> {
                &&& 0 <= c1 < w.len()
                &&& 0 <= c2 < w.len()
                &&& w[c2] < self.home.len()
                &&& self.home[w[c2]] == c2
                &&& linked.contains((w[c1], w[c2]))
                &&& self.stands_for(c1, w[c1], w[c2])
            }
    }

    /// With the next node declared.
    spec fn declare(self) -> Unfolding {
        Unfolding {
            nodes: self.nodes.push(self.home.len() as int),
            home: self.home.push(self.nodes.len() as int),
            ..self
        }
    }

    /// With a node mentioned that is not declared yet.
    spec fn mentioning(self, d: int) -> Unfolding {
        Unfolding {
            nodes: self.nodes.push(d),
            mention: self.mention.update(d, Some(self.nodes.len() as int)),
            ..self
        }
    }

    /// With a dependency on `s` of the node `t` that was declared last.
    spec fn link(self, s: int, t: int) -> Unfolding {
        let u = if s > t && self.mention[s] is None {
            self.mentioning(s)
        } else {
            self
        };
        let source = if s > t {
            u.mention[s]->0
        } else {
            u.home[s]
        };
        Unfolding { edges: u.edges.push((source, u.home[t])), ..u }
    }

    proof fn lemma_declare(self, n: int, linked: Set<(int, int)>)
        requires
            self.tracks(n, linked),
            self.home.len() < n,
        ensures
            self.declare().tracks(n, linked),
    {
        let u = self.declare();
        let i = self.home.len() as int;
        assert forall|c1: int, c2: int| #[trigger] u.edges.contains((c1, c2)) <==> {
            &&& 0 <= c1 < u.nodes.len()
            &&& 0 <= c2 < u.nodes.len()
            &&& u.nodes[c2] < u.home.len()
            &&& u.home[u.nodes[c2]] == c2
            &&& linked.contains((u.nodes[c1], u.nodes[c2]))
            &&& u.stands_for(c1, u.nodes[c1], u.nodes[c2])
        } by {
            assert(self.edges.contains((c1, c2)) <==> u.edges.contains((c1, c2)));
        }
    }

    proof fn lemma_link(self, n: int, linked: Set<(int, int)>, s: int, t: int)
        requires
            self.tracks(n, linked),
            0 <= s < n,
            0 <= t,
            t == self.home.len() - 1,
        ensures
            self.link(s, t).tracks(n, linked.insert((s, t))),
    {
        let u = self.link(s, t);
        let after = linked.insert((s, t));
        let w = u.nodes;
        let source = if s > t {
            u.mention[s]->0
        } else {
            u.home[s]
        };
        assert forall|d: int| 0 <= d < n implies ((#[trigger] u.mention[d]) is Some
            <==> is_mentioned(after, d)) by {
            if is_mentioned(linked, d) {
                let i = choose|i: int| #[trigger] linked.contains((d, i)) && i < d;
                assert(after.contains((d, i)));
            }
            if is_mentioned(after, d) {
                let i = choose|i: int| #[trigger] after.contains((d, i)) && i < d;
                if (d, i) != (s, t) {
                    assert(linked.contains((d, i)));
                }
            }
            if d == s && s > t {
                assert(after.contains((s, t)));
            }
            assert(self.mention[d] is Some <==> is_mentioned(linked, d));
        }
        assert forall|c1: int, c2: int| #[trigger] u.edges.contains((c1, c2)) <==> {
            &&& 0 <= c1 < w.len()
            &&& 0 <= c2 < w.len()
            &&& w[c2] < u.home.len()
            &&& u.home[w[c2]] == c2
            &&& after.contains((w[c1], w[c2]))
            &&& u.stands_for(c1, w[c1], w[c2])
        } by {
            let added = (source, u.home[t]);
            assert(u.edges.contains((c1, c2)) <==> self.edges.contains((c1, c2)) || (c1, c2)
                == added) by {
                if self.edges.contains((c1, c2)) {
                    let k = self.edges.index_of((c1, c2));
                    assert(u.edges[k] == (c1, c2));
                }
                if (c1, c2) == added {
                    assert(u.edges[self.edges.len() as int] == added);
                }
            }
        }
    }
}

/// Whether a graph unfolds dependencies: `home` tells which of its nodes stands for the
/// declaration of each of the `n` nodes, and every other one stands for a node's being
/// mentioned.
pub open spec fn unfolds(
    n: nat,
    dependencies: Set<(int, int)>,
    nodes: Seq<int>,
    edges: Set<(int, int)>,
    home: Seq<int>,
) -> bool {
    &&& home.len() == n
    &&& forall|i: int|
        0 <= i < n ==> 0 <= #[trigger] home[i] < nodes.len() && nodes[home[i]] == i
    &&& forall|c: int| 0 <= c < nodes.len() ==> 0 <= #[trigger] nodes[c] < n
    &&& forall|c: int|
        0 <= c < nodes.len() && home[#[trigger] nodes[c]] != c ==> is_mentioned(
            dependencies,
            nodes[c],
        )
    &&& forall|c1: int, c2: int|
        0 <= c1 < nodes.len() && 0 <= c2 < nodes.len() && #[trigger] nodes[c1]
            == #[trigger] nodes[c2] && home[nodes[c1]] != c1 && home[nodes[c2]] != c2 ==> c1 == c2
    &&& forall|d: int| 0 <= d < n && #[trigger] is_mentioned(dependencies, d) ==> exists|c: int|
        0 <= c < nodes.len() && #[trigger] nodes[c] == d && home[d] != c
    &&& forall|c1: int, c2: int| #[trigger]
        edges.contains((c1, c2)) <==> {
            &&& 0 <= c1 < nodes.len()
            &&& 0 <= c2 < nodes.len()
            &&& home[nodes[c2]] == c2
            &&& dependencies.contains((nodes[c1], nodes[c2]))
            &&& home[nodes[c1]] != c1 <==> nodes[c1] > nodes[c2]
        }
}

/// A graph that tracks every dependency unfolds them.
proof fn lemma_unfolds(u: Unfolding, n: nat, dependencies: Set<(int, int)>)
    requires
        u.tracks(n as int, dependencies),
        u.home.len() == n,
    ensures
        unfolds(n, dependencies, u.nodes, u.edges.to_set(), u.home),
{
    let w = u.nodes;
    assert forall|d: int| 0 <= d < n && #[trigger] is_mentioned(dependencies, d) implies exists|
        c: int,
    | 0 <= c < w.len() && #[trigger] w[c] == d && u.home[d] != c by {
        assert(u.mention[d] is Some);
        let c = u.mention[d]->0;
        assert(w[c] == d);
    }
    assert forall|c: int| 0 <= c < w.len() && u.home[#[trigger] w[c]] != c implies is_mentioned(
        dependencies,
        w[c],
    ) by {
        assert(u.mention[w[c]] is Some);
    }
    assert forall|c1: int, c2: int| #[trigger] u.edges.to_set().contains((c1, c2)) <==> {
        &&& 0 <= c1 < w.len()
        &&& 0 <= c2 < w.len()
        &&& u.home[w[c2]] == c2
        &&& dependencies.contains((w[c1], w[c2]))
        &&& u.home[w[c1]] != c1 <==> w[c1] > w[c2]
    } by {
        assert(u.edges.to_set().contains((c1, c2)) <==> u.edges.contains((c1, c2)));
        if 0 <= c1 < w.len() && 0 <= c2 < w.len() {
            let s = w[c1];
            assert(u.mention[s] is Some ==> u.home[s] != u.mention[s]->0);
        }
    }
}

/// Optional positions as integers.
spec fn opt_positions(s: Seq<Option<usize>>) -> Seq<Option<int>> {
    s.map_values(
        |o: Option<usize>|
            match o {
                Some(i) => Some(i as int),
                None => None,
            },
    )
}

/// The nodes that are mentioned are finitely many.
proof fn lemma_mentioned_finite<R>(graph: Graph<R>)
    ensures
        graph.mentioned().finite(),
{
    let all = vstd::set_lib::set_int_range(0, graph.keys().len() as int);
    vstd::set_lib::lemma_int_range(0, graph.keys().len() as int);
    assert(graph.mentioned().subset_of(all));
    vstd::set_lib::lemma_set_subset_finite(all, graph.mentioned());
}

/// More mentioned nodes than there are is not possible.
proof fn lemma_some_mentioned<R>(graph: Graph<R>, some: Set<int>)
    requires
        some.subset_of(graph.mentioned()),
    ensures
        some.finite(),
        some.len() <= graph.mentioned().len() <= graph.keys().len(),
{
    lemma_mentioned_finite(graph);
    let all = vstd::set_lib::set_int_range(0, graph.keys().len() as int);
    vstd::set_lib::lemma_int_range(0, graph.keys().len() as int);
    vstd::set_lib::lemma_len_subset(graph.mentioned(), all);
    vstd::set_lib::lemma_set_subset_finite(graph.mentioned(), some);
    vstd::set_lib::lemma_len_subset(some, graph.mentioned());
}

impl<R> Graph<R> {
    /// Whether node `i` names the node at `s` among its first `j` dependencies.
    spec fn names(self, i: int, j: int, s: int) -> bool {
        self.deps()[i].take(j).contains(self.keys()[s])
    }

    /// Whether the dependency of `t` on `s` is among the dependencies of the first `i` nodes and
    /// the first `j` of the next one.
    spec fn named_by(self, i: int, j: int, s: int, t: int) -> bool {
        self.edges().contains((s, t)) && (t < i || (t == i && self.names(i, j, s)))
    }

    /// The next dependency of a node adds the node that has its key, and no other.
    proof fn lemma_named_next(self, i: int, j: int, at: int)
        requires
            self.wf(),
            0 <= i < self.deps().len(),
            0 <= j < self.deps()[i].len(),
            0 <= at < self.keys().len(),
            self.keys()[at] == self.deps()[i][j],
        ensures
            self.edges().contains((at, i)),
            forall|s: int, t: int| #[trigger]
                self.named_by(i, j + 1, s, t) <==> self.named_by(i, j, s, t) || (s, t) == (at, i),
    {
        let list = self.deps()[i];
        assert(list.contains(list[j]));
        assert(list.take(j + 1) =~= list.take(j).push(list[j]));
        assert forall|s: int, t: int| #[trigger] self.named_by(i, j + 1, s, t) <==> self.named_by(
            i,
            j,
            s,
            t,
        ) || (s, t) == (at, i) by {
            if t == i && 0 <= s < self.keys().len() {
                let key = self.keys()[s];
                if list.take(j).contains(key) {
                    let k = list.take(j).index_of(key);
                    assert(list.take(j + 1)[k] == key);
                }
                if list.take(j + 1).contains(key) {
                    let k = list.take(j + 1).index_of(key);
                    if k < j {
                        assert(list.take(j)[k] == key);
                    }
                }
                if s == at {
                    assert(list.take(j + 1)[j] == key);
                }
            }
        }
    }

    /// A dependency that no node has adds nothing.
    proof fn lemma_named_nothing(self, i: int, j: int)
        requires
            0 <= i < self.deps().len(),
            0 <= j < self.deps()[i].len(),
            !self.keys().contains(self.deps()[i][j]),
        ensures
            forall|s: int, t: int| #[trigger]
                self.named_by(i, j + 1, s, t) <==> self.named_by(i, j, s, t),
    {
        let list = self.deps()[i];
        assert(list.take(j + 1) =~= list.take(j).push(list[j]));
        assert forall|s: int, t: int| #[trigger] self.named_by(i, j + 1, s, t) <==> self.named_by(
            i,
            j,
            s,
            t,
        ) by {
            if t == i && 0 <= s < self.keys().len() {
                let key = self.keys()[s];
                assert(self.keys().contains(key));
                if list.take(j).contains(key) {
                    let k = list.take(j).index_of(key);
                    assert(list.take(j + 1)[k] == key);
                }
                if list.take(j + 1).contains(key) {
                    let k = list.take(j + 1).index_of(key);
                    assert(list.take(j)[k] == key);
                }
            }
        }
    }

    /// All dependencies of a node are those up to the next node.
    proof fn lemma_named_all(self, i: int)
        requires
            self.wf(),
            0 <= i < self.deps().len(),
        ensures
            forall|s: int, t: int| #[trigger]
                self.named_by(i + 1, 0, s, t) <==> self.named_by(
                    i,
                    self.deps()[i].len() as int,
                    s,
                    t,
                ),
    {
        let list = self.deps()[i];
        assert(list.take(list.len() as int) =~= list);
    }

    /// Whether nodes, with those that are named before they are declared counted twice, and named
    /// dependencies can be counted in 32 bits.
    pub fn fits(&self) -> (r: bool)
        ensures
            r == self.in_bounds(),
    {
        proof {
            use_type_invariant(self);
        }
        let n = self.len();
        let mut seen: Vec<bool> = Vec::new();
        let mut i: usize = 0;
        while i < n
            invariant
                i <= n,
                seen@ == Seq::new(i as nat, |k: int| false),
            decreases n - i,
        {
            seen.push(false);
            proof {
                assert(seen@ =~= Seq::new((i + 1) as nat, |k: int| false));
            }
            i = i + 1;
        }
        let ghost mut some: Set<int> = Set::empty();
        let mut count: usize = 0;
        let mut left: u32 = u32::MAX;
        let mut i: usize = 0;
        while i < n
            invariant
                self.wf(),
                n == self.keys().len(),
                i <= n,
                seen@.len() == n,
                self.named_dependencies(i as int) == u32::MAX - left,
                some.subset_of(self.mentioned()),
                count == some.len(),
                forall|d: int| #[trigger] some.contains(d) <==> 0 <= d < n && seen@[d],
                forall|s: int, t: int| #[trigger]
                    self.named_by(i as int, 0, s, t) && t < s ==> some.contains(s),
            decreases n - i,
        {
            let named = self.dependencies(i);
            if named > left as usize {
                proof {
                    self.lemma_named_dependencies_grow(i + 1, n as int);
                }
                return false;
            }
            let mut j: usize = 0;
            while j < named
                invariant
                    self.wf(),
                    n == self.keys().len(),
                    i < n,
                    named == self.deps()[i as int].len(),
                    j <= named,
                    seen@.len() == n,
                    some.subset_of(self.mentioned()),
                    count == some.len(),
                    forall|d: int| #[trigger] some.contains(d) <==> 0 <= d < n && seen@[d],
                    forall|s: int, t: int| #[trigger]
                        self.named_by(i as int, j as int, s, t) && t < s ==> some.contains(s),
                decreases named - j,
            {
                match self.position(self.dependency(i, j)) {
                    Some(at) => {
                        proof {
                            self.lemma_named_next(i as int, j as int, at as int);
                        }
                        if at > i && !seen[at] {
                            let ghost before = some;
                            seen.set(at, true);
                            proof {
                                assert(self.edges().contains((at as int, i as int)));
                                some = some.insert(at as int);
                                lemma_some_mentioned(*self, some);
                                lemma_some_mentioned(*self, before);
                            }
                            count = count + 1;
                        }
                    },
                    None => {
                        proof {
                            self.lemma_named_nothing(i as int, j as int);
                        }
                    },
                }
                j = j + 1;
            }
            proof {
                self.lemma_named_all(i as int);
            }
            left = left - named as u32;
            i = i + 1;
        }
        proof {
            assert(some =~= self.mentioned()) by {
                assert forall|d: int| self.mentioned().contains(d) implies some.contains(d) by {
                    let t = choose|t: int| #[trigger] self.edges().contains((d, t)) && t < d;
                    assert(self.named_by(n as int, 0, d, t));
                }
            }
        }
        let most: usize = u32::MAX as usize;
        n <= most && count <= most - n
    }

    /// Builds the graph along which nodes are cleaned up, in the order in which the nodes are
    /// declared and name their dependencies.
    pub(crate) fn unfolding(&self) -> (g: Digraph<usize, ()>)
        requires
            self.complete(),
            self.in_bounds(),
        ensures
            exists|home: Seq<int>| #[trigger]
                unfolds(
                    self.keys().len(),
                    self.edges(),
                    graph_nodes(g),
                    graph_edges(g).to_set(),
                    home,
                ),
    {
        proof {
            use_type_invariant(self);
        }
        let n = self.len();
        let mut g = empty_graph();
        let mut home: Vec<usize> = Vec::new();
        let mut mention: Vec<Option<usize>> = Vec::new();
        let mut i: usize = 0;
        while i < n
            invariant
                i <= n,
                mention@ == Seq::new(i as nat, |k: int| None::<usize>),
            decreases n - i,
        {
            mention.push(None);
            proof {
                assert(mention@ =~= Seq::new((i + 1) as nat, |k: int| None::<usize>));
            }
            i = i + 1;
        }
        let ghost mut linked: Set<(int, int)> = Set::empty();
        let ghost mut some: Set<int> = Set::empty();
        let ghost mut u = Unfolding {
            nodes: graph_nodes(g),
            edges: graph_edges(g),
            home: positions(home@),
            mention: opt_positions(mention@),
        };
        let mut i: usize = 0;
        while i < n
            invariant
                self.wf(),
                self.complete(),
                self.in_bounds(),
                n == self.keys().len(),
                i <= n,
                home@.len() == i,
                mention@.len() == n,
                u == (Unfolding {
                    nodes: graph_nodes(g),
                    edges: graph_edges(g),
                    home: positions(home@),
                    mention: opt_positions(mention@),
                }),
                u.tracks(n as int, linked),
                forall|s: int, t: int| #[trigger]
                    linked.contains((s, t)) <==> self.named_by(i as int, 0, s, t),
                some.subset_of(self.mentioned()),
                forall|d: int| #[trigger] some.contains(d) <==> 0 <= d < n && mention@[d] is Some,
                u.nodes.len() == i + some.len(),
                u.edges.len() == self.named_dependencies(i as int),
            decreases n - i,
        {
            proof {
                lemma_some_mentioned(*self, some);
                u.lemma_declare(n as int, linked);
            }
            let ghost before = home@;
            let at = add_node(&mut g, i);
            home.push(at);
            proof {
                assert(positions(home@) =~= positions(before).push(at as int));
                u = u.declare();
            }
            let named = self.dependencies(i);
            let mut j: usize = 0;
            while j < named
                invariant
                    self.wf(),
                    self.complete(),
                    self.in_bounds(),
                    n == self.keys().len(),
                    i < n,
                    home@.len() == i + 1,
                    mention@.len() == n,
                    named == self.deps()[i as int].len(),
                    j <= named,
                    u == (Unfolding {
                        nodes: graph_nodes(g),
                        edges: graph_edges(g),
                        home: positions(home@),
                        mention: opt_positions(mention@),
                    }),
                    u.tracks(n as int, linked),
                    forall|s: int, t: int| #[trigger]
                        linked.contains((s, t)) <==> self.named_by(i as int, j as int, s, t),
                    some.subset_of(self.mentioned()),
                    forall|d: int| #[trigger]
                        some.contains(d) <==> 0 <= d < n && mention@[d] is Some,
                    u.nodes.len() == i + 1 + some.len(),
                    u.edges.len() == self.named_dependencies(i as int) + j,
                decreases named - j,
            {
                assert(self.declared(i as int, j as int));
                let s = match self.position(self.dependency(i, j)) {
                    Some(s) => s,
                    None => {
                        assert(false);
                        0
                    },
                };
                proof {
                    self.lemma_named_next(i as int, j as int, s as int);
                    self.lemma_named_dependencies_grow(i + 1, n as int);
                    u.lemma_link(n as int, linked, s as int, i as int);
                }
                let source = if s <= i {
                    assert(u.home[s as int] == home@[s as int]);
                    home[s]
                } else {
                    match mention[s] {
                        Some(c) => c,
                        None => {
                            let ghost known = mention@;
                            proof {
                                assert(some.insert(s as int).subset_of(self.mentioned()));
                                lemma_some_mentioned(*self, some);
                                lemma_some_mentioned(*self, some.insert(s as int));
                            }
                            let c = add_node(&mut g, s);
                            mention.set(s, Some(c));
                            proof {
                                some = some.insert(s as int);
                                assert(opt_positions(mention@) =~= opt_positions(known).update(
                                    s as int,
                                    Some(c as int),
                                ));
                            }
                            c
                        },
                    }
                };
                proof {
                    let linked_u = u.link(s as int, i as int);
                    assert(linked_u.nodes[source as int] == s);
                    assert(linked_u.home[i as int] == home@[i as int]);
                }
                add_edge(&mut g, source, home[i]);
                proof {
                    u = u.link(s as int, i as int);
                    linked = linked.insert((s as int, i as int));
                }
                j = j + 1;
            }
            proof {
                self.lemma_named_all(i as int);
            }
            i = i + 1;
        }
        proof {
            assert(linked =~= self.edges()) by {
                assert forall|e: (int, int)| linked.contains(e) <==> self.edges().contains(e) by {
                    assert(linked.contains((e.0, e.1)) <==> self.named_by(n as int, 0, e.0, e.1));
                }
            }
            lemma_unfolds(u, self.keys().len(), self.edges());
        }
        g
    }
}

/// A graph that unfolds dependencies without a cycle has none either.
pub proof fn lemma_unfolding_is_acyclic(
    n: nat,
    dependencies: Set<(int, int)>,
    nodes: Seq<int>,
    edges: Set<(int, int)>,
    home: Seq<int>,
)
    requires
        unfolds(n, dependencies, nodes, edges, home),
        !is_cyclic(dependencies),
    ensures
        !is_cyclic(edges),
{
    if is_cyclic(edges) {
        let path = choose|path: Seq<int>| #[trigger]
            is_walk(edges, path) && path.len() >= 2 && path[0] == path.last();
        let image = path.map_values(|c: int| nodes[c]);
        assert forall|k: int| 0 <= k < image.len() - 1 implies #[trigger] follows_edge(
            dependencies,
            image,
            k,
        ) by {
            assert(follows_edge(edges, path, k));
        }
        assert(is_walk(dependencies, image));
        assert(image[0] == image.last());
    }
}

/// The visit that a node of a graph of visits stands for.
spec fn visit_of(nodes: Seq<int>, home: Seq<int>, c: int) -> Visit {
    if home[nodes[c]] == c {
        Visit::Declared(nodes[c])
    } else {
        Visit::Mentioned(nodes[c])
    }
}

/// A topological order of a graph that unfolds dependencies is a cleanup, backwards.
pub proof fn lemma_cleanup(
    n: nat,
    dependencies: Set<(int, int)>,
    nodes: Seq<int>,
    edges: Set<(int, int)>,
    home: Seq<int>,
    order: Seq<int>,
) -> (visits: Seq<Visit>)
    requires
        unfolds(n, dependencies, nodes, edges, home),
        is_topological(nodes.len(), edges, order),
    ensures
        is_cleanup(n, dependencies, visits),
        visited(visits) == order.reverse().map_values(|c: int| nodes[c]),
{
    let back = order.reverse();
    let visits = back.map_values(|c: int| visit_of(nodes, home, c));
    assert forall|k: int| 0 <= k < back.len() implies 0 <= #[trigger] back[k] < nodes.len() by {
        assert(order.contains(order[order.len() - 1 - k]));
    }
    assert forall|a: int, b: int|
        0 <= a < visits.len() && 0 <= b < visits.len() && a != b implies visits[a] != visits[b] by {
        assert(order[order.len() - 1 - a] != order[order.len() - 1 - b]);
        assert(back[a] != back[b]);
    }
    assert forall|v: Visit| #[trigger] visits.contains(v) <==> has_visit(n, dependencies, v) by {
        if visits.contains(v) {
            let k = visits.index_of(v);
            assert(v == visit_of(nodes, home, back[k]));
        }
        if has_visit(n, dependencies, v) {
            let c = match v {
                Visit::Declared(i) => home[i],
                Visit::Mentioned(d) => choose|c: int|
                    0 <= c < nodes.len() && #[trigger] nodes[c] == d && home[d] != c,
            };
            assert(0 <= c < nodes.len() && visit_of(nodes, home, c) == v);
            assert(order.contains(c));
            let k = order.index_of(c);
            assert(visits[order.len() - 1 - k] == v);
        }
    }
    assert forall|a: int, b: int|
        0 <= a < visits.len() && 0 <= b < visits.len() && is_due_after(
            dependencies,
            #[trigger] visits[a],
            #[trigger] visits[b],
        ) implies a < b by {
        let ca = back[a];
        let cb = back[b];
        assert(visits[a] == visit_of(nodes, home, ca));
        assert(visits[b] == visit_of(nodes, home, cb));
        assert(edges.contains((cb, ca)));
        assert(order[order.len() - 1 - a] == ca);
        assert(order[order.len() - 1 - b] == cb);
    }
    assert(visited(visits) =~= back.map_values(|c: int| nodes[c]));
    visits
}

}
