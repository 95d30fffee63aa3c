//! What holds of every workflow and of every run over it.
use super::key::KeyView;
use super::run::{unmarked, RunView};
use super::scheduler::Scheduler;
use super::status::{count_ready, lemma_count_ready, Marks, NodeState, WorkflowStatus};
use super::unfold::{is_cleanup, is_due_after, visited, Visit};
use crate::dag::{follows_edge, is_cyclic, is_mentioned, is_topological, is_walk};
use crate::text::opt_text;
use vstd::prelude::*;

verus! {

/// A run reconciles a node only when everything that the node depends on is ready.
pub proof fn dependencies_come_first<R>(scheduler: Scheduler<R>, run: RunView, dependency: int)
    requires
        scheduler.wf(),
        scheduler.valid_run(run),
        scheduler.edges().contains((dependency, run.queue[0])),
    ensures
        run.marks[dependency] == Some(NodeState::Ready),
{
    assert(run.queue.contains(run.queue[0]));
    assert(scheduler.is_runnable(run.marks, run.queue[0]));
}

/// The number of nodes that were not reconciled.
pub open spec fn count_unmarked(marks: Marks) -> nat
    decreases marks.len(),
{
    if marks.len() == 0 {
        0
    } else {
        count_unmarked(marks.drop_last()) + (if marks.last() is None {
            1nat
        } else {
            0nat
        })
    }
}

proof fn lemma_mark(marks: Marks, i: int, state: NodeState)
    requires
        0 <= i < marks.len(),
        marks[i] is None,
    ensures
        count_unmarked(marks.update(i, Some(state))) == count_unmarked(marks) - 1,
    decreases marks.len(),
{
    let marked = marks.update(i, Some(state));
    if i == marks.len() - 1 {
        assert(marked.drop_last() =~= marks.drop_last());
    } else {
        assert(marked.drop_last() =~= marks.drop_last().update(i, Some(state)));
        lemma_mark(marks.drop_last(), i, state);
    }
}

/// A run reconciles no node twice, and each report leaves one node less to reconcile: a run is
/// over after at most as many reconciliations as there are nodes.
pub proof fn nodes_are_reconciled_once<R>(
    scheduler: Scheduler<R>,
    run: RunView,
    state: NodeState,
)
    requires
        scheduler.wf(),
        scheduler.valid_run(run),
    ensures
        run.marks[run.queue[0]] is None,
        count_unmarked(run.marks.update(run.queue[0], Some(state))) == count_unmarked(run.marks)
            - 1,
        count_unmarked(unmarked(scheduler.size())) == scheduler.size(),
{
    assert(run.queue.contains(run.queue[0]));
    assert(scheduler.is_runnable(run.marks, run.queue[0]));
    lemma_mark(run.marks, run.queue[0], state);
    lemma_none_marked(scheduler.size());
}

proof fn lemma_none_marked(n: nat)
    ensures
        count_unmarked(unmarked(n)) == n,
    decreases n,
{
    if n > 0 {
        assert(unmarked(n).drop_last() =~= unmarked((n - 1) as nat));
        lemma_none_marked((n - 1) as nat);
    }
}

/// In a run that is over, the nodes up to the `k`-th of a topological order are ready where none
/// is pending.
proof fn lemma_ready_up_to<R>(scheduler: Scheduler<R>, marks: Marks, order: Seq<int>, k: int)
    requires
        scheduler.wf(),
        scheduler.settled(marks),
        is_topological(scheduler.size(), scheduler.edges(), order),
        forall|i: int| 0 <= i < marks.len() ==> #[trigger] marks[i] != Some(NodeState::Pending),
        0 <= k <= order.len(),
    ensures
        forall|m: int| 0 <= m < k ==> marks[#[trigger] order[m]] == Some(NodeState::Ready),
    decreases k,
{
    if k > 0 {
        lemma_ready_up_to(scheduler, marks, order, k - 1);
        let node = order[k - 1];
        assert(order.contains(node));
        if marks[node] is None {
            assert forall|j: int| #[trigger]
                scheduler.edges().contains((j, node)) implies marks[j] == Some(
                NodeState::Ready,
            ) by {
                assert(order.contains(j));
                let m = order.index_of(j);
                assert(order[m] == j);
            }
            assert(scheduler.is_runnable(marks, node));
        }
    }
}

/// A run leaves a node that is not ready only where a node reported that it is pending: where
/// every report was that the node is ready, the whole workflow is.
pub proof fn all_ready_unless_pending<R>(scheduler: Scheduler<R>, marks: Marks)
    requires
        scheduler.wf(),
        scheduler.settled(marks),
        forall|i: int| 0 <= i < marks.len() ==> #[trigger] marks[i] != Some(NodeState::Pending),
    ensures
        forall|i: int| 0 <= i < marks.len() ==> #[trigger] marks[i] == Some(NodeState::Ready),
        count_ready(marks) == scheduler.size(),
{
    let order = choose|order: Seq<int>| #[trigger]
        is_topological(scheduler.size(), scheduler.edges(), order);
    lemma_ready_up_to(scheduler, marks, order, order.len() as int);
    assert forall|i: int| 0 <= i < marks.len() implies #[trigger] marks[i] == Some(
        NodeState::Ready,
    ) by {
        assert(order.contains(i));
        let m = order.index_of(i);
        assert(order[m] == i);
    }
    lemma_count_ready(scheduler.keys(), marks);
}

/// Whether marks are what nodes report that would report `reports`.
pub open spec fn follows(marks: Marks, reports: spec_fn(int) -> NodeState) -> bool {
    forall|i: int|
        0 <= i < marks.len() && (#[trigger] marks[i]) is Some ==> marks[i] == Some(reports(i))
}

/// A run records what its nodes report, from the first node to the last, and forgets nothing.
pub proof fn reports_are_recorded<R>(
    scheduler: Scheduler<R>,
    run: RunView,
    reports: spec_fn(int) -> NodeState,
)
    requires
        scheduler.valid_run(run),
        follows(run.marks, reports),
    ensures
        follows(unmarked(scheduler.size()), reports),
        follows(run.marks.update(run.queue[0], Some(reports(run.queue[0]))), reports),
        forall|i: int|
            0 <= i < run.marks.len() && (#[trigger] run.marks[i]) is Some ==> run.marks.update(
                run.queue[0],
                Some(reports(run.queue[0])),
            )[i] == run.marks[i],
{
    assert(run.queue.contains(run.queue[0]));
    assert(scheduler.is_runnable(run.marks, run.queue[0]));
}

proof fn lemma_same_up_to<R>(
    scheduler: Scheduler<R>,
    a: Marks,
    b: Marks,
    reports: spec_fn(int) -> NodeState,
    order: Seq<int>,
    k: int,
)
    requires
        scheduler.wf(),
        scheduler.settled(a),
        scheduler.settled(b),
        follows(a, reports),
        follows(b, reports),
        is_topological(scheduler.size(), scheduler.edges(), order),
        0 <= k <= order.len(),
    ensures
        forall|m: int| 0 <= m < k ==> a[#[trigger] order[m]] == b[order[m]],
    decreases k,
{
    if k > 0 {
        lemma_same_up_to(scheduler, a, b, reports, order, k - 1);
        let node = order[k - 1];
        assert(order.contains(node));
        assert forall|j: int| #[trigger] scheduler.edges().contains((j, node)) implies a[j]
            == b[j] by {
            assert(order.contains(j));
            let m = order.index_of(j);
            assert(order[m] == j);
        }
        if a[node] is Some {
            assert(scheduler.dependencies_ready(a, node));
            assert(scheduler.dependencies_ready(b, node));
            assert(!scheduler.is_runnable(b, node));
        }
        if b[node] is Some {
            assert(scheduler.dependencies_ready(b, node));
            assert(scheduler.dependencies_ready(a, node));
            assert(!scheduler.is_runnable(a, node));
        }
    }
}

/// How a run ends is settled by what the nodes report: the order in which the nodes of a round
/// are reconciled makes no difference to which nodes are reconciled, or to what is ready.
pub proof fn outcome_is_determined<R>(
    scheduler: Scheduler<R>,
    a: Marks,
    b: Marks,
    reports: spec_fn(int) -> NodeState,
)
    requires
        scheduler.wf(),
        scheduler.settled(a),
        scheduler.settled(b),
        follows(a, reports),
        follows(b, reports),
    ensures
        a == b,
{
    let order = choose|order: Seq<int>| #[trigger]
        is_topological(scheduler.size(), scheduler.edges(), order);
    lemma_same_up_to(scheduler, a, b, reports, order, order.len() as int);
    assert forall|i: int| 0 <= i < a.len() implies a[i] == b[i] by {
        assert(order.contains(i));
        let m = order.index_of(i);
        assert(order[m] == i);
    }
    assert(a =~= b);
}

/// Whether a walk along dependencies leads from a pending node to `i`.
pub open spec fn waits_for_pending<R>(scheduler: Scheduler<R>, marks: Marks, i: int) -> bool {
    exists|path: Seq<int>|
        {
            &&& #[trigger] is_walk(scheduler.edges(), path)
            &&& path.len() >= 2
            &&& path.last() == i
            &&& 0 <= path[0] < marks.len()
            &&& marks[path[0]] == Some(NodeState::Pending)
        }
}

proof fn lemma_waiting_up_to<R>(scheduler: Scheduler<R>, marks: Marks, order: Seq<int>, k: int)
    requires
        scheduler.wf(),
        scheduler.settled(marks),
        is_topological(scheduler.size(), scheduler.edges(), order),
        0 <= k <= order.len(),
    ensures
        forall|m: int|
            0 <= m < k && marks[#[trigger] order[m]] is None ==> waits_for_pending(
                scheduler,
                marks,
                order[m],
            ),
    decreases k,
{
    if k > 0 {
        lemma_waiting_up_to(scheduler, marks, order, k - 1);
        let node = order[k - 1];
        assert(order.contains(node));
        if marks[node] is None {
            assert(!scheduler.is_runnable(marks, node));
            let j = choose|j: int| #[trigger]
                scheduler.edges().contains((j, node)) && marks[j] != Some(NodeState::Ready);
            assert(order.contains(j));
            let m = order.index_of(j);
            assert(order[m] == j);
            assert(m < k - 1);
            if marks[j] is None {
                assert(waits_for_pending(scheduler, marks, order[m]));
                let path = choose|path: Seq<int>|
                    {
                        &&& #[trigger] is_walk(scheduler.edges(), path)
                        &&& path.len() >= 2
                        &&& path.last() == j
                        &&& 0 <= path[0] < marks.len()
                        &&& marks[path[0]] == Some(NodeState::Pending)
                    };
                let longer = path.push(node);
                assert forall|t: int| 0 <= t < longer.len() - 1 implies #[trigger] follows_edge(
                    scheduler.edges(),
                    longer,
                    t,
                ) by {
                    if t < path.len() - 1 {
                        assert(follows_edge(scheduler.edges(), path, t));
                    }
                }
                assert(is_walk(scheduler.edges(), longer));
                assert(longer[0] == path[0] && longer.last() == node);
                assert(marks[longer[0]] == Some(NodeState::Pending));
                assert(waits_for_pending(scheduler, marks, node));
            } else {
                let path = seq![j, node];
                assert(path[0] == j && path[1] == node);
                assert(is_walk(scheduler.edges(), path));
                assert(marks[path[0]] == Some(NodeState::Pending));
                assert(waits_for_pending(scheduler, marks, node));
            }
        }
    }
}

/// A node that a finished run did not reconcile waits, directly or through other nodes, for one
/// that reported that it is pending.
pub proof fn unreconciled_nodes_wait_for_pending<R>(
    scheduler: Scheduler<R>,
    marks: Marks,
    i: int,
)
    requires
        scheduler.wf(),
        scheduler.settled(marks),
        0 <= i < marks.len(),
        marks[i] is None,
    ensures
        waits_for_pending(scheduler, marks, i),
{
    let order = choose|order: Seq<int>| #[trigger]
        is_topological(scheduler.size(), scheduler.edges(), order);
    lemma_waiting_up_to(scheduler, marks, order, order.len() as int);
    assert(order.contains(i));
    let m = order.index_of(i);
    assert(order[m] == i);
}

/// A status adds up: every node is counted as completed or as pending, and it says that the
/// workflow is ready exactly where its list of pending nodes is empty.
pub proof fn status_adds_up(
    status: WorkflowStatus,
    keys: Seq<KeyView>,
    marks: Marks,
    observed_generation: Option<i64>,
)
    requires
        marks.len() <= i64::MAX,
        status.reports(keys, marks, observed_generation),
    ensures
        status.completed_nodes->0 + status.pending_nodes->0 == status.total_nodes->0,
        status.pending_nodes->0 == status.pending@.len(),
        status.ready == Some(true) <==> status.pending@.len() == 0,
        status.ready == Some(true) ==> opt_text(status.phase) == Some("Ready"@),
        status.completed_nodes->0 >= 0,
        status.pending_nodes->0 >= 0,
{
    lemma_count_ready(keys, marks);
}

/// How often a node is cleaned up.
pub open spec fn times_visited(visits: Seq<Visit>, i: int) -> nat
    decreases visits.len(),
{
    if visits.len() == 0 {
        0
    } else {
        times_visited(visits.drop_last(), i) + (if visits.last().node() == i {
            1nat
        } else {
            0nat
        })
    }
}

proof fn lemma_times_visited(visits: Seq<Visit>, i: int)
    requires
        visits.no_duplicates(),
    ensures
        times_visited(visits, i) == (if visits.contains(Visit::Declared(i)) {
            1int
        } else {
            0int
        }) + (if visits.contains(Visit::Mentioned(i)) {
            1int
        } else {
            0int
        }),
    decreases visits.len(),
{
    if visits.len() > 0 {
        let rest = visits.drop_last();
        lemma_times_visited(rest, i);
        assert forall|v: Visit| #[trigger] visits.contains(v) <==> rest.contains(v) || v
            == visits.last() by {
            if rest.contains(v) {
                let k = rest.index_of(v);
                assert(visits[k] == v);
            }
            if visits.contains(v) && v != visits.last() {
                let k = visits.index_of(v);
                assert(rest[k] == v);
            }
            if v == visits.last() {
                assert(visits[visits.len() - 1] == v);
            }
        }
        assert(!rest.contains(visits.last())) by {
            if rest.contains(visits.last()) {
                let k = rest.index_of(visits.last());
                assert(visits[k] == visits[visits.len() - 1]);
            }
        }
        assert(visits.contains(Visit::Declared(i)) <==> rest.contains(Visit::Declared(i))
            || visits.last() == Visit::Declared(i));
        assert(visits.contains(Visit::Mentioned(i)) <==> rest.contains(Visit::Mentioned(i))
            || visits.last() == Visit::Mentioned(i));
    }
}

/// A cleanup comes to every node: once where nothing that was declared before the node depends on
/// it, and else twice.
pub proof fn every_node_is_cleaned_up<R>(scheduler: Scheduler<R>, visits: Seq<Visit>, i: int)
    requires
        is_cleanup(scheduler.size(), scheduler.edges(), visits),
        0 <= i < scheduler.size(),
    ensures
        visited(visits).contains(i),
        times_visited(visits, i) == if is_mentioned(scheduler.edges(), i) {
            2nat
        } else {
            1nat
        },
{
    lemma_times_visited(visits, i);
    assert(visits.contains(Visit::Declared(i)));
    assert(visits.contains(Visit::Mentioned(i)) <==> is_mentioned(scheduler.edges(), i));
    let k = visits.index_of(Visit::Declared(i));
    assert(visited(visits)[k] == i);
}

/// A cleanup comes to a node, as declared, before it comes to what the node depends on: to a
/// dependency as declared or, where that was declared after the node, as mentioned.
pub proof fn dependents_are_cleaned_up_first<R>(
    scheduler: Scheduler<R>,
    visits: Seq<Visit>,
    d: int,
    i: int,
)
    requires
        scheduler.wf(),
        is_cleanup(scheduler.size(), scheduler.edges(), visits),
        scheduler.edges().contains((d, i)),
    ensures
        visits.index_of(Visit::Declared(i)) < visits.index_of(
            if d > i {
                Visit::Mentioned(d)
            } else {
                Visit::Declared(d)
            },
        ),
{
    let first = Visit::Declared(i);
    let second = if d > i {
        Visit::Mentioned(d)
    } else {
        Visit::Declared(d)
    };
    assert(visits.contains(first));
    assert(visits.contains(second));
    assert(is_due_after(
        scheduler.edges(),
        visits[visits.index_of(first)],
        visits[visits.index_of(second)],
    ));
}

/// Whether each node of a walk was declared after the one before it.
pub open spec fn is_ascending(path: Seq<int>) -> bool {
    forall|k: int, m: int| 0 <= k < m < path.len() ==> #[trigger] path[k] < #[trigger] path[m]
}

/// A cleanup comes to a node, as declared, before it comes to anything, as declared, that the node
/// depends on, directly or through other nodes, as long as each of these was declared after what
/// it depends on itself.
pub proof fn everything_below_is_cleaned_up_later<R>(
    scheduler: Scheduler<R>,
    visits: Seq<Visit>,
    path: Seq<int>,
)
    requires
        scheduler.wf(),
        is_cleanup(scheduler.size(), scheduler.edges(), visits),
        is_walk(scheduler.edges(), path),
        path.len() >= 2,
        is_ascending(path),
    ensures
        visits.index_of(Visit::Declared(path.last())) < visits.index_of(Visit::Declared(path[0])),
    decreases path.len(),
{
    let edges = scheduler.edges();
    assert(follows_edge(edges, path, 0));
    dependents_are_cleaned_up_first(scheduler, visits, path[0], path[1]);
    if path.len() > 2 {
        let rest = path.drop_first();
        assert forall|k: int| 0 <= k < rest.len() - 1 implies #[trigger] follows_edge(
            edges,
            rest,
            k,
        ) by {
            assert(follows_edge(edges, path, k + 1));
        }
        everything_below_is_cleaned_up_later(scheduler, visits, rest);
    }
}

/// Whether every node was declared after everything that it depends on.
pub open spec fn declared_in_order<R>(scheduler: Scheduler<R>) -> bool {
    forall|d: int, i: int| #[trigger] scheduler.edges().contains((d, i)) ==> d < i
}

proof fn lemma_walk_ascends(edges: Set<(int, int)>, path: Seq<int>, k: int, m: int)
    requires
        is_walk(edges, path),
        forall|d: int, i: int| #[trigger] edges.contains((d, i)) ==> d < i,
        0 <= k < m < path.len(),
    ensures
        path[k] < path[m],
    decreases m - k,
{
    assert(follows_edge(edges, path, m - 1));
    if k < m - 1 {
        lemma_walk_ascends(edges, path, k, m - 1);
    }
}

/// Where every node was declared after everything that it depends on, a cleanup comes to each node
/// exactly once, before anything that the node depends on, directly or through other nodes.
pub proof fn cleanup_goes_from_dependents_to_dependencies<R>(
    scheduler: Scheduler<R>,
    visits: Seq<Visit>,
)
    requires
        scheduler.wf(),
        is_cleanup(scheduler.size(), scheduler.edges(), visits),
        declared_in_order(scheduler),
    ensures
        visited(visits).len() == scheduler.size(),
        visited(visits).no_duplicates(),
        forall|i: int| 0 <= i < scheduler.size() <==> #[trigger] visited(visits).contains(i),
        forall|a: int, b: int|
            0 <= a < visits.len() && 0 <= b < visits.len() && depends_on(
                scheduler.edges(),
                #[trigger] visited(visits)[a],
                #[trigger] visited(visits)[b],
            ) ==> a < b,
{
    let edges = scheduler.edges();
    let queue = visited(visits);
    assert forall|k: int| 0 <= k < visits.len() implies #[trigger] visits[k] == Visit::Declared(
        queue[k],
    ) by {
        assert(visits.contains(visits[k]));
    }
    assert forall|a: int, b: int|
        0 <= a < queue.len() && 0 <= b < queue.len() && a != b implies queue[a] != queue[b] by {
        assert(visits[a] != visits[b]);
    }
    assert forall|i: int| 0 <= i < scheduler.size() <==> #[trigger] queue.contains(i) by {
        if 0 <= i < scheduler.size() {
            assert(visits.contains(Visit::Declared(i)));
            let k = visits.index_of(Visit::Declared(i));
            assert(queue[k] == i);
        }
        if queue.contains(i) {
            let k = queue.index_of(i);
            assert(visits.contains(visits[k]));
        }
    }
    lemma_as_many(queue, scheduler.size());
    assert forall|a: int, b: int|
        0 <= a < visits.len() && 0 <= b < visits.len() && depends_on(
            edges,
            #[trigger] queue[a],
            #[trigger] queue[b],
        ) implies a < b by {
        let path = choose|path: Seq<int>| #[trigger]
            is_walk(edges, path) && path.len() >= 2 && path[0] == queue[b] && path.last()
                == queue[a];
        assert forall|k: int, m: int| 0 <= k < m < path.len() implies #[trigger] path[k]
            < #[trigger] path[m] by {
            lemma_walk_ascends(edges, path, k, m);
        }
        everything_below_is_cleaned_up_later(scheduler, visits, path);
        assert(visits[a] == Visit::Declared(queue[a]) && visits[b] == Visit::Declared(queue[b]));
        assert(visits.contains(visits[a]) && visits.contains(visits[b]));
    }
}

/// A list that holds each of the first `n` numbers once has `n` entries.
proof fn lemma_as_many(s: Seq<int>, n: nat)
    requires
        s.no_duplicates(),
        forall|i: int| 0 <= i < n <==> #[trigger] s.contains(i),
    ensures
        s.len() == n,
{
    s.unique_seq_to_set();
    let all = vstd::set_lib::set_int_range(0, n as int);
    vstd::set_lib::lemma_int_range(0, n as int);
    assert(s.to_set() =~= all);
}

/// A node that depends on itself is a cycle, and so are two nodes that depend on each other.
pub proof fn mutual_dependencies_are_cycles(edges: Set<(int, int)>, i: int, j: int)
    requires
        edges.contains((i, j)),
        edges.contains((j, i)),
    ensures
        is_cyclic(edges),
{
    let path = seq![i, j, i];
    assert(is_walk(edges, path));
}

/// Whether node `i` depends on node `j`, directly or through other nodes.
pub open spec fn depends_on(edges: Set<(int, int)>, i: int, j: int) -> bool {
    exists|path: Seq<int>| #[trigger]
        is_walk(edges, path) && path.len() >= 2 && path[0] == j && path.last() == i
}

/// Everything on a walk to a node that is ready is ready.
proof fn lemma_ready_along<R>(scheduler: Scheduler<R>, marks: Marks, path: Seq<int>, k: int)
    requires
        scheduler.wf(),
        scheduler.consistent(marks),
        is_walk(scheduler.edges(), path),
        0 <= k < path.len(),
        marks[path.last()] == Some(NodeState::Ready),
    ensures
        marks[path[k]] == Some(NodeState::Ready),
    decreases path.len() - k,
{
    if k < path.len() - 1 {
        lemma_ready_along(scheduler, marks, path, k + 1);
        assert(follows_edge(scheduler.edges(), path, k));
        assert(scheduler.dependencies_ready(marks, path[k + 1]));
    }
}

/// In a run that is over, the nodes up to the `k`-th of a topological order are ready where they
/// and everything that they depend on report so.
proof fn lemma_ready_if_reported<R>(
    scheduler: Scheduler<R>,
    marks: Marks,
    reports: spec_fn(int) -> NodeState,
    order: Seq<int>,
    k: int,
)
    requires
        scheduler.wf(),
        scheduler.settled(marks),
        follows(marks, reports),
        is_topological(scheduler.size(), scheduler.edges(), order),
        0 <= k <= order.len(),
    ensures
        forall|m: int|
            0 <= m < k && reports(#[trigger] order[m]) is Ready && (forall|j: int| #[trigger]
                depends_on(scheduler.edges(), order[m], j) ==> reports(j) is Ready)
                ==> marks[order[m]] == Some(NodeState::Ready),
    decreases k,
{
    if k > 0 {
        lemma_ready_if_reported(scheduler, marks, reports, order, k - 1);
        let edges = scheduler.edges();
        let node = order[k - 1];
        assert(order.contains(node));
        if reports(node) is Ready && (forall|j: int| #[trigger]
            depends_on(edges, node, j) ==> reports(j) is Ready) {
            assert forall|d: int| #[trigger] edges.contains((d, node)) implies marks[d] == Some(
                NodeState::Ready,
            ) by {
                assert(order.contains(d));
                let m = order.index_of(d);
                assert(order[m] == d);
                let step = seq![d, node];
                assert(is_walk(edges, step));
                assert(depends_on(edges, node, d));
                assert forall|j: int| #[trigger] depends_on(edges, d, j) implies reports(
                    j,
                ) is Ready by {
                    let path = choose|path: Seq<int>| #[trigger]
                        is_walk(edges, path) && path.len() >= 2 && path[0] == j && path.last()
                            == d;
                    let longer = path.push(node);
                    assert forall|t: int| 0 <= t < longer.len() - 1 implies #[trigger] follows_edge(
                        edges,
                        longer,
                        t,
                    ) by {
                        if t < path.len() - 1 {
                            assert(follows_edge(edges, path, t));
                        }
                    }
                    assert(is_walk(edges, longer));
                    assert(longer[0] == j && longer.last() == node);
                    assert(depends_on(edges, node, j));
                }
            }
            assert(scheduler.dependencies_ready(marks, node));
            assert(!scheduler.is_runnable(marks, node));
        }
    }
}

/// A node is ready after a run if and only if it and everything that it depends on, directly or
/// through other nodes, report that they are.
pub proof fn ready_where_everything_below_is<R>(
    scheduler: Scheduler<R>,
    marks: Marks,
    reports: spec_fn(int) -> NodeState,
    i: int,
)
    requires
        scheduler.wf(),
        scheduler.settled(marks),
        follows(marks, reports),
        0 <= i < scheduler.size(),
    ensures
        marks[i] == Some(NodeState::Ready) <==> reports(i) is Ready && (forall|j: int| #[trigger]
            depends_on(scheduler.edges(), i, j) ==> reports(j) is Ready),
{
    let edges = scheduler.edges();
    if marks[i] == Some(NodeState::Ready) {
        assert forall|j: int| #[trigger] depends_on(edges, i, j) implies reports(j) is Ready by {
            let path = choose|path: Seq<int>| #[trigger]
                is_walk(edges, path) && path.len() >= 2 && path[0] == j && path.last() == i;
            lemma_ready_along(scheduler, marks, path, 0);
            assert(follows_edge(edges, path, 0));
        }
    }
    let order = choose|order: Seq<int>| #[trigger]
        is_topological(scheduler.size(), edges, order);
    lemma_ready_if_reported(scheduler, marks, reports, order, order.len() as int);
    assert(order.contains(i));
    let m = order.index_of(i);
    assert(order[m] == i);
}

}
