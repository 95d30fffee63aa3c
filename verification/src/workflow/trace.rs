//! What holds of a whole run and of a whole cleanup, from the first step to the last.
use super::cleanup::CleanupStep;
use super::laws::{depends_on, follows, ready_where_everything_below_is};
use super::run::{unmarked, RunStep};
use super::scheduler::Scheduler;
use super::status::{status_tells_what_the_nodes_reported, Marks, NodeState};
use super::unfold::{is_cleanup, is_due_after, visited, Visit};
use crate::dag::{follows_edge, is_mentioned, is_topological, is_walk};
use vstd::prelude::*;

verus! {

/// The node that a step of a run asks to reconcile.
pub open spec fn head(step: RunStep) -> int {
    step->Reconcile_0@.queue[0]
}

/// Whether a run goes from one step to another by a report of the node that the first one asks to
/// reconcile.
pub open spec fn resumes<R>(
    scheduler: Scheduler<R>,
    before: RunStep,
    state: NodeState,
    after: RunStep,
) -> bool {
    let run = before->Reconcile_0@;
    &&& before is Reconcile
    &&& scheduler.leads_to(
        after,
        run.marks.update(run.queue[0], Some(state)),
        run.queue.drop_first(),
        run.progressed || state is Ready,
        run.observed_generation,
    )
}

/// Whether these are the steps of a run from its first one, with what the nodes reported.
pub open spec fn is_run<R>(
    scheduler: Scheduler<R>,
    observed_generation: Option<i64>,
    steps: Seq<RunStep>,
    states: Seq<NodeState>,
) -> bool {
    &&& steps.len() == states.len() + 1
    &&& scheduler.leads_to(
        steps[0],
        unmarked(scheduler.size()),
        scheduler.frontier(unmarked(scheduler.size())),
        false,
        observed_generation,
    )
    &&& forall|k: int|
        0 <= k < states.len() ==> resumes(scheduler, steps[k], #[trigger] states[k], steps[k + 1])
}

/// What the nodes reported in the first `k` steps.
spec fn marks_after(n: nat, steps: Seq<RunStep>, states: Seq<NodeState>, k: int) -> Marks
    decreases k,
{
    if k <= 0 {
        unmarked(n)
    } else {
        marks_after(n, steps, states, k - 1).update(head(steps[k - 1]), Some(states[k - 1]))
    }
}

proof fn lemma_marks_after<R>(
    scheduler: Scheduler<R>,
    observed_generation: Option<i64>,
    steps: Seq<RunStep>,
    states: Seq<NodeState>,
    k: int,
)
    requires
        is_run(scheduler, observed_generation, steps, states),
        0 <= k <= states.len(),
    ensures
        ({
            let marks = marks_after(scheduler.size(), steps, states, k);
            &&& marks.len() == scheduler.size()
            &&& match steps[k] {
                RunStep::Reconcile(run) => {
                    &&& run@.marks == marks
                    &&& run@.observed_generation == observed_generation
                    &&& scheduler.valid_run(run@)
                },
                RunStep::Finish(status) => {
                    &&& scheduler.settled(marks)
                    &&& status.reports(scheduler.keys(), marks, observed_generation)
                },
            }
        }),
    decreases k,
{
    if k > 0 {
        lemma_marks_after(scheduler, observed_generation, steps, states, k - 1);
        assert(resumes(scheduler, steps[k - 1], states[k - 1], steps[k]));
    }
}

proof fn lemma_marks_are_reports<R>(
    scheduler: Scheduler<R>,
    observed_generation: Option<i64>,
    steps: Seq<RunStep>,
    states: Seq<NodeState>,
    k: int,
)
    requires
        is_run(scheduler, observed_generation, steps, states),
        0 <= k <= states.len(),
    ensures
        ({
            let marks = marks_after(scheduler.size(), steps, states, k);
            &&& marks.len() == scheduler.size()
            &&& forall|m: int|
                0 <= m < k ==> 0 <= head(#[trigger] steps[m]) < scheduler.size()
                    && marks[head(steps[m])] == Some(states[m])
            &&& forall|i: int|
                0 <= i < scheduler.size() && (#[trigger] marks[i]) is Some ==> exists|m: int|
                    0 <= m < k && head(#[trigger] steps[m]) == i
            &&& forall|m1: int, m2: int|
                0 <= m1 < m2 < k ==> head(#[trigger] steps[m1]) != head(#[trigger] steps[m2])
        }),
    decreases k,
{
    lemma_marks_after(scheduler, observed_generation, steps, states, k);
    if k > 0 {
        lemma_marks_are_reports(scheduler, observed_generation, steps, states, k - 1);
        lemma_marks_after(scheduler, observed_generation, steps, states, k - 1);
        assert(resumes(scheduler, steps[k - 1], states[k - 1], steps[k]));
        let before = marks_after(scheduler.size(), steps, states, k - 1);
        let marks = marks_after(scheduler.size(), steps, states, k);
        let node = head(steps[k - 1]);
        let run = steps[k - 1]->Reconcile_0@;
        assert(run.queue.contains(run.queue[0]));
        assert(scheduler.is_runnable(before, node));
        assert forall|i: int| 0 <= i < scheduler.size() && (
        #[trigger] marks[i]) is Some implies exists|m: int|
            0 <= m < k && head(#[trigger] steps[m]) == i by {
            if i == node {
                assert(head(steps[k - 1]) == i);
            } else {
                assert(before[i] is Some);
                let m = choose|m: int| 0 <= m < k - 1 && head(#[trigger] steps[m]) == i;
                assert(head(steps[m]) == i);
            }
        }
    }
}

/// In a run no node is reconciled twice, and each only after everything that it depends on
/// reported that it is ready.
pub proof fn runs_reconcile_nodes_once_and_in_order<R>(
    scheduler: Scheduler<R>,
    observed_generation: Option<i64>,
    steps: Seq<RunStep>,
    states: Seq<NodeState>,
)
    requires
        scheduler.wf(),
        is_run(scheduler, observed_generation, steps, states),
    ensures
        forall|k: int|
            0 <= k < steps.len() && (#[trigger] steps[k]) is Reconcile ==> 0
                <= steps[k]->Reconcile_0@.queue[0] < scheduler.size(),
        forall|k: int, m: int|
            0 <= k < m < steps.len() && (#[trigger] steps[k]) is Reconcile && (
            #[trigger] steps[m]) is Reconcile ==> steps[k]->Reconcile_0@.queue[0]
                != steps[m]->Reconcile_0@.queue[0],
        forall|k: int, d: int|
            0 <= k < steps.len() && (#[trigger] steps[k]) is Reconcile
                && #[trigger] scheduler.edges().contains((d, steps[k]->Reconcile_0@.queue[0]))
                ==> exists|m: int|
                0 <= m < k && (#[trigger] steps[m])->Reconcile_0@.queue[0] == d
                    && states[m] is Ready,
        forall|k: int| 0 <= k < steps.len() - 1 ==> (#[trigger] steps[k]) is Reconcile,
        steps.len() <= scheduler.size() + 1,
{
    assert forall|k: int| 0 <= k < steps.len() && (#[trigger] steps[k]) is Reconcile implies 0
        <= steps[k]->Reconcile_0@.queue[0] < scheduler.size() by {
        lemma_marks_after(scheduler, observed_generation, steps, states, k);
        let run = steps[k]->Reconcile_0@;
        assert(run.queue.contains(run.queue[0]));
        assert(scheduler.is_runnable(run.marks, run.queue[0]));
    }
    assert forall|k: int, m: int|
        0 <= k < m < steps.len() && (#[trigger] steps[k]) is Reconcile && (
        #[trigger] steps[m]) is Reconcile implies steps[k]->Reconcile_0@.queue[0]
        != steps[m]->Reconcile_0@.queue[0] by {
        lemma_marks_after(scheduler, observed_generation, steps, states, m);
        lemma_marks_are_reports(scheduler, observed_generation, steps, states, m);
        let run = steps[m]->Reconcile_0@;
        assert(run.queue.contains(run.queue[0]));
        assert(scheduler.is_runnable(run.marks, run.queue[0]));
        assert(run.marks[head(steps[k])] is Some);
    }
    assert forall|k: int, d: int|
        0 <= k < steps.len() && (#[trigger] steps[k]) is Reconcile
            && #[trigger] scheduler.edges().contains(
            (d, steps[k]->Reconcile_0@.queue[0]),
        ) implies exists|m: int|
        0 <= m < k && (#[trigger] steps[m])->Reconcile_0@.queue[0] == d && states[m] is Ready by {
        lemma_marks_after(scheduler, observed_generation, steps, states, k);
        lemma_marks_are_reports(scheduler, observed_generation, steps, states, k);
        let run = steps[k]->Reconcile_0@;
        assert(run.queue.contains(run.queue[0]));
        assert(scheduler.is_runnable(run.marks, run.queue[0]));
        assert(run.marks[d] == Some(NodeState::Ready));
        let m = choose|m: int| 0 <= m < k && head(#[trigger] steps[m]) == d;
        assert(steps[m]->Reconcile_0@.queue[0] == d && states[m] is Ready);
    }
    assert forall|k: int| 0 <= k < steps.len() - 1 implies (#[trigger] steps[k]) is Reconcile by {
        assert(resumes(scheduler, steps[k], states[k], steps[k + 1]));
    }
    let n = states.len() as int;
    lemma_marks_are_reports(scheduler, observed_generation, steps, states, n);
    let heads = Seq::new(states.len(), |k: int| head(steps[k]));
    assert(heads.no_duplicates()) by {
        assert forall|a: int, b: int|
            0 <= a < heads.len() && 0 <= b < heads.len() && a != b implies heads[a]
            != heads[b] by {
            if a < b {
                assert(head(steps[a]) != head(steps[b]));
            } else {
                assert(head(steps[b]) != head(steps[a]));
            }
        }
    }
    heads.unique_seq_to_set();
    let all = vstd::set_lib::set_int_range(0, scheduler.size() as int);
    vstd::set_lib::lemma_int_range(0, scheduler.size() as int);
    assert forall|i: int| heads.to_set().contains(i) implies all.contains(i) by {
        let k = heads.index_of(i);
        assert(head(steps[k]) == i);
    }
    vstd::set_lib::lemma_len_subset(heads.to_set(), all);
}

/// A run ends only where no node is left that was not reconciled and has everything that it
/// depends on ready: each node that was passed over has a dependency that did not report in the run
/// that it is ready.
pub proof fn runs_end_only_when_nothing_is_left<R>(
    scheduler: Scheduler<R>,
    observed_generation: Option<i64>,
    steps: Seq<RunStep>,
    states: Seq<NodeState>,
    i: int,
)
    requires
        scheduler.wf(),
        is_run(scheduler, observed_generation, steps, states),
        steps.last() is Finish,
        0 <= i < scheduler.size(),
        forall|k: int| 0 <= k < states.len() ==> (#[trigger] steps[k])->Reconcile_0@.queue[0] != i,
    ensures
        exists|d: int| #[trigger]
            scheduler.edges().contains((d, i)) && forall|m: int|
                0 <= m < states.len() && (#[trigger] steps[m])->Reconcile_0@.queue[0] == d
                    ==> states[m] is Pending,
{
    let n = states.len() as int;
    lemma_marks_after(scheduler, observed_generation, steps, states, n);
    lemma_marks_are_reports(scheduler, observed_generation, steps, states, n);
    let marks = marks_after(scheduler.size(), steps, states, n);
    if marks[i] is Some {
        let m = choose|m: int| 0 <= m < n && head(#[trigger] steps[m]) == i;
        assert(steps[m]->Reconcile_0@.queue[0] == i);
    }
    assert(!scheduler.is_runnable(marks, i));
    let d = choose|d: int| #[trigger]
        scheduler.edges().contains((d, i)) && marks[d] != Some(NodeState::Ready);
    assert forall|m: int|
        0 <= m < states.len() && (#[trigger] steps[m])->Reconcile_0@.queue[0]
            == d implies states[m] is Pending by {
        assert(marks[head(steps[m])] == Some(states[m]));
    }
}

/// A run that is over has reconciled a node if and only if everything that the node depends on,
/// directly or through other nodes, reports that it is ready.
pub proof fn runs_reconcile_what_has_everything_ready<R>(
    scheduler: Scheduler<R>,
    observed_generation: Option<i64>,
    steps: Seq<RunStep>,
    states: Seq<NodeState>,
    reports: spec_fn(int) -> NodeState,
    i: int,
)
    requires
        scheduler.wf(),
        is_run(scheduler, observed_generation, steps, states),
        steps.last() is Finish,
        forall|k: int|
            0 <= k < states.len() ==> states[k] == reports(
                (#[trigger] steps[k])->Reconcile_0@.queue[0],
            ),
        0 <= i < scheduler.size(),
    ensures
        (exists|k: int|
            0 <= k < states.len() && (#[trigger] steps[k])->Reconcile_0@.queue[0] == i) <==> (
        forall|j: int| #[trigger]
            depends_on(scheduler.edges(), i, j) ==> reports(j) is Ready),
        (exists|k: int|
            0 <= k < states.len() && (#[trigger] steps[k])->Reconcile_0@.queue[0] == i
                && states[k] is Ready) <==> reports(i) is Ready && (forall|j: int| #[trigger]
            depends_on(scheduler.edges(), i, j) ==> reports(j) is Ready),
{
    let n = states.len() as int;
    lemma_marks_after(scheduler, observed_generation, steps, states, n);
    lemma_marks_are_reports(scheduler, observed_generation, steps, states, n);
    let marks = marks_after(scheduler.size(), steps, states, n);
    let edges = scheduler.edges();
    assert forall|x: int| 0 <= x < marks.len() && (#[trigger] marks[x]) is Some implies marks[x]
        == Some(reports(x)) by {
        let m = choose|m: int| 0 <= m < n && head(#[trigger] steps[m]) == x;
        assert(marks[head(steps[m])] == Some(states[m]));
    }
    assert(follows(marks, reports));
    ready_where_everything_below_is(scheduler, marks, reports, i);
    if marks[i] is Some {
        let m = choose|m: int| 0 <= m < n && head(#[trigger] steps[m]) == i;
        assert(steps[m]->Reconcile_0@.queue[0] == i);
        assert(scheduler.dependencies_ready(marks, i));
        assert forall|j: int| #[trigger] depends_on(edges, i, j) implies reports(j) is Ready by {
            lemma_depends(edges, i, j);
            if edges.contains((j, i)) {
                assert(marks[j] == Some(NodeState::Ready));
            } else {
                let k = choose|k: int| #[trigger]
                    edges.contains((k, i)) && depends_on(edges, k, j);
                assert(marks[k] == Some(NodeState::Ready));
                ready_where_everything_below_is(scheduler, marks, reports, k);
            }
        }
    } else {
        if exists|k: int|
            0 <= k < states.len() && (#[trigger] steps[k])->Reconcile_0@.queue[0] == i {
            let k = choose|k: int|
                0 <= k < states.len() && (#[trigger] steps[k])->Reconcile_0@.queue[0] == i;
            assert(marks[head(steps[k])] is Some);
        }
        assert(!scheduler.is_runnable(marks, i));
        let d = choose|d: int| #[trigger]
            edges.contains((d, i)) && marks[d] != Some(NodeState::Ready);
        ready_where_everything_below_is(scheduler, marks, reports, d);
        dependencies_reach_through(edges, i, d, d);
        if reports(d) is Ready {
            let j = choose|j: int| #[trigger] depends_on(edges, d, j) && reports(j) is Pending;
            dependencies_reach_through(edges, i, d, j);
        }
    }
    if exists|k: int|
        0 <= k < states.len() && (#[trigger] steps[k])->Reconcile_0@.queue[0] == i
            && states[k] is Ready {
        let k = choose|k: int|
            0 <= k < states.len() && (#[trigger] steps[k])->Reconcile_0@.queue[0] == i
                && states[k] is Ready;
        assert(marks[head(steps[k])] == Some(states[k]));
    }
    if marks[i] == Some(NodeState::Ready) {
        let m = choose|m: int| 0 <= m < n && head(#[trigger] steps[m]) == i;
        assert(steps[m]->Reconcile_0@.queue[0] == i && states[m] is Ready);
    }
}

/// A dependency that is not direct goes through a direct one.
proof fn lemma_depends(edges: Set<(int, int)>, i: int, j: int)
    requires
        depends_on(edges, i, j),
    ensures
        edges.contains((j, i)) || exists|k: int| #[trigger]
            edges.contains((k, i)) && depends_on(edges, k, j),
{
    let path = choose|path: Seq<int>| #[trigger]
        is_walk(edges, path) && path.len() >= 2 && path[0] == j && path.last() == i;
    let last = path.len() - 1;
    assert(follows_edge(edges, path, last - 1));
    if path.len() > 2 {
        let shorter = path.drop_last();
        assert forall|t: int| 0 <= t < shorter.len() - 1 implies #[trigger] follows_edge(
            edges,
            shorter,
            t,
        ) by {
            assert(follows_edge(edges, path, t));
        }
        assert(is_walk(edges, shorter));
        assert(depends_on(edges, path[last - 1], j));
    }
}

/// A node depends on its direct dependencies, and on everything that these depend on.
pub proof fn dependencies_reach_through(edges: Set<(int, int)>, i: int, d: int, j: int)
    requires
        edges.contains((d, i)),
    ensures
        depends_on(edges, i, d),
        depends_on(edges, d, j) ==> depends_on(edges, i, j),
{
    let step = seq![d, i];
    assert(is_walk(edges, step));
    if depends_on(edges, d, j) {
        let path = choose|path: Seq<int>| #[trigger]
            is_walk(edges, path) && path.len() >= 2 && path[0] == j && path.last() == d;
        let longer = path.push(i);
        assert forall|t: int| 0 <= t < longer.len() - 1 implies #[trigger] follows_edge(
            edges,
            longer,
            t,
        ) by {
            if t < path.len() - 1 {
                assert(follows_edge(edges, path, t));
            }
        }
        assert(is_walk(edges, longer));
        assert(longer[0] == j && longer.last() == i);
    }
}

/// A node depends on another if and only if that is a direct dependency of it, or one of its
/// direct dependencies depends on it.
pub proof fn dependencies_are_direct_or_below(edges: Set<(int, int)>, i: int, j: int)
    ensures
        depends_on(edges, i, j) <==> edges.contains((j, i)) || exists|d: int| #[trigger]
            edges.contains((d, i)) && depends_on(edges, d, j),
{
    if depends_on(edges, i, j) {
        lemma_depends(edges, i, j);
    }
    if edges.contains((j, i)) {
        dependencies_reach_through(edges, i, j, j);
    }
    if exists|d: int| #[trigger] edges.contains((d, i)) && depends_on(edges, d, j) {
        let d = choose|d: int| #[trigger] edges.contains((d, i)) && depends_on(edges, d, j);
        dependencies_reach_through(edges, i, d, j);
    }
}

/// The status with which a run ends is that of what the nodes reported in its steps: a node is
/// marked with its report if it was reconciled, and not at all if it was not.
pub proof fn runs_end_with_the_status_of_their_reports<R>(
    scheduler: Scheduler<R>,
    observed_generation: Option<i64>,
    steps: Seq<RunStep>,
    states: Seq<NodeState>,
) -> (marks: Marks)
    requires
        scheduler.wf(),
        is_run(scheduler, observed_generation, steps, states),
        steps.last() is Finish,
    ensures
        marks.len() == scheduler.size(),
        forall|k: int|
            0 <= k < states.len() ==> marks[(#[trigger] steps[k])->Reconcile_0@.queue[0]] == Some(
                states[k],
            ),
        forall|i: int|
            0 <= i < marks.len() && (#[trigger] marks[i]) is Some ==> exists|k: int|
                0 <= k < states.len() && (#[trigger] steps[k])->Reconcile_0@.queue[0] == i,
        steps.last()->Finish_0.reports(scheduler.keys(), marks, observed_generation),
{
    let n = states.len() as int;
    lemma_marks_after(scheduler, observed_generation, steps, states, n);
    lemma_marks_are_reports(scheduler, observed_generation, steps, states, n);
    let marks = marks_after(scheduler.size(), steps, states, n);
    assert forall|k: int| 0 <= k < states.len() implies marks[(
    #[trigger] steps[k])->Reconcile_0@.queue[0]] == Some(states[k]) by {
        assert(marks[head(steps[k])] == Some(states[k]));
    }
    assert forall|i: int| 0 <= i < marks.len() && (
    #[trigger] marks[i]) is Some implies exists|k: int|
        0 <= k < states.len() && (#[trigger] steps[k])->Reconcile_0@.queue[0] == i by {
        let m = choose|m: int| 0 <= m < n && head(#[trigger] steps[m]) == i;
        assert(steps[m]->Reconcile_0@.queue[0] == i);
    }
    marks
}

/// Whether these are the nodes that a cleanup of a scheduler's nodes comes to, one after the other.
pub open spec fn is_whole_cleanup<R>(scheduler: Scheduler<R>, nodes: Seq<int>) -> bool {
    exists|visits: Seq<Visit>| #[trigger]
        is_cleanup(scheduler.size(), scheduler.edges(), visits) && nodes == visited(visits)
}

/// The nodes that a whole cleanup comes to are all there are, each once or, where a node before
/// it depends on it, twice; and after each node it still comes to everything that the node depends
/// on directly.
pub proof fn whole_cleanups_come_to_every_node<R>(scheduler: Scheduler<R>, nodes: Seq<int>)
    requires
        scheduler.wf(),
        is_whole_cleanup(scheduler, nodes),
    ensures
        forall|i: int| #[trigger] nodes.contains(i) <==> 0 <= i < scheduler.size(),
        forall|d: int, i: int| #[trigger]
            scheduler.edges().contains((d, i)) ==> exists|a: int, b: int|
                0 <= a < b < nodes.len() && #[trigger] nodes[a] == i && #[trigger] nodes[b] == d,
        forall|a: int, b: int, c: int|
            0 <= a < b < c < nodes.len() ==> !(#[trigger] nodes[a] == #[trigger] nodes[b]
                && nodes[b] == #[trigger] nodes[c]),
        forall|a: int, b: int|
            0 <= a < b < nodes.len() && #[trigger] nodes[a] == #[trigger] nodes[b] ==> exists|
                i: int,
            | #[trigger] scheduler.edges().contains((nodes[a], i)) && i < nodes[a],
        forall|d: int, i: int| #[trigger]
            scheduler.edges().contains((d, i)) && i < d ==> exists|a: int, b: int|
                0 <= a < b < nodes.len() && #[trigger] nodes[a] == d && #[trigger] nodes[b] == d,
{
    let edges = scheduler.edges();
    let n = scheduler.size();
    let visits = choose|visits: Seq<Visit>| #[trigger]
        is_cleanup(n, edges, visits) && nodes == visited(visits);
    assert forall|k: int| 0 <= k < nodes.len() implies #[trigger] nodes[k] == visits[k].node() && (
    visits[k] == Visit::Declared(nodes[k]) || visits[k] == Visit::Mentioned(nodes[k])) by {}
    assert forall|i: int| #[trigger] nodes.contains(i) <==> 0 <= i < n by {
        if nodes.contains(i) {
            let k = nodes.index_of(i);
            assert(visits.contains(visits[k]));
        }
        if 0 <= i < n {
            assert(visits.contains(Visit::Declared(i)));
            let k = visits.index_of(Visit::Declared(i));
            assert(nodes[k] == i);
        }
    }
    assert forall|d: int, i: int| #[trigger] edges.contains((d, i)) implies exists|a: int, b: int|
        0 <= a < b < nodes.len() && #[trigger] nodes[a] == i && #[trigger] nodes[b] == d by {
        let first = Visit::Declared(i);
        let second = if d > i {
            Visit::Mentioned(d)
        } else {
            Visit::Declared(d)
        };
        assert(visits.contains(first));
        assert(visits.contains(second));
        let a = visits.index_of(first);
        let b = visits.index_of(second);
        assert(is_due_after(edges, visits[a], visits[b]));
        assert(nodes[a] == i && nodes[b] == d);
    }
    assert forall|a: int, b: int, c: int| 0 <= a < b < c < nodes.len() implies !(#[trigger] nodes[a]
        == #[trigger] nodes[b] && nodes[b] == #[trigger] nodes[c]) by {
        assert(visits[a] != visits[b] && visits[b] != visits[c] && visits[a] != visits[c]);
    }
    assert forall|a: int, b: int|
        0 <= a < b < nodes.len() && #[trigger] nodes[a] == #[trigger] nodes[b] implies exists|
        i: int,
    | #[trigger] edges.contains((nodes[a], i)) && i < nodes[a] by {
        assert(visits[a] != visits[b]);
        assert(visits.contains(visits[a]) && visits.contains(visits[b]));
        assert(is_mentioned(edges, nodes[a]));
    }
    assert forall|d: int, i: int| #[trigger] edges.contains((d, i)) && i < d implies exists|
        a: int,
        b: int,
    | 0 <= a < b < nodes.len() && #[trigger] nodes[a] == d && #[trigger] nodes[b] == d by {
        assert(is_mentioned(edges, d));
        assert(visits.contains(Visit::Mentioned(d)));
        assert(visits.contains(Visit::Declared(d)));
        let a = visits.index_of(Visit::Mentioned(d));
        let b = visits.index_of(Visit::Declared(d));
        assert(nodes[a] == d && nodes[b] == d);
        if a < b {
        } else {
            assert(nodes[b] == d && nodes[a] == d);
        }
    }
}

/// Whether these are the steps of a cleanup that went well, from the first one to its end.
pub open spec fn is_cleanup_run<R>(scheduler: Scheduler<R>, steps: Seq<CleanupStep>) -> bool {
    &&& steps.len() > 0
    &&& is_whole_cleanup(scheduler, steps[0].queue())
    &&& forall|k: int| 0 <= k < steps.len() ==> (#[trigger] steps[k]).wf()
    &&& forall|k: int|
        0 < k < steps.len() ==> (#[trigger] steps[k]).queue() == steps[k - 1].queue().drop_first()
    &&& forall|k: int| 0 <= k < steps.len() ==> ((#[trigger] steps[k]) is Finish <==> k
        == steps.len() - 1)
}

proof fn lemma_cleanup_queue<R>(scheduler: Scheduler<R>, steps: Seq<CleanupStep>, k: int)
    requires
        is_cleanup_run(scheduler, steps),
        0 <= k < steps.len(),
    ensures
        steps[k].queue() == steps[0].queue().skip(k),
        k <= steps[0].queue().len(),
    decreases k,
{
    if k > 0 {
        lemma_cleanup_queue(scheduler, steps, k - 1);
        assert(steps[k - 1].queue().len() > 0);
        assert(steps[k].queue() =~= steps[0].queue().skip(k));
    } else {
        assert(steps[0].queue() =~= steps[0].queue().skip(0));
    }
}

/// The nodes that the steps of a cleanup ask to clean up, from the first step to the end, are those
/// of a whole cleanup: it is over only when it came to every one.
pub proof fn cleanups_end_only_when_every_node_had_its_turn<R>(
    scheduler: Scheduler<R>,
    steps: Seq<CleanupStep>,
    i: int,
)
    requires
        scheduler.wf(),
        is_cleanup_run(scheduler, steps),
    ensures
        forall|k: int| 0 <= k < steps.len() - 1 ==> (#[trigger] steps[k]) is Cleanup,
        is_whole_cleanup(
            scheduler,
            Seq::new((steps.len() - 1) as nat, |k: int| steps[k]->Cleanup_0@[0]),
        ),
        0 <= i < scheduler.size() ==> exists|k: int|
            0 <= k < steps.len() - 1 && (#[trigger] steps[k])->Cleanup_0@[0] == i,
{
    let all = steps[0].queue();
    let m = steps.len() - 1;
    lemma_cleanup_queue(scheduler, steps, m);
    let heads = Seq::new(m as nat, |k: int| steps[k]->Cleanup_0@[0]);
    assert(all.skip(m).len() == 0);
    assert(heads =~= all) by {
        assert forall|k: int| 0 <= k < m implies heads[k] == all[k] by {
            lemma_cleanup_queue(scheduler, steps, k);
            assert(!(steps[k] is Finish));
            assert(steps[k].queue()[0] == all[k]);
        }
    }
    whole_cleanups_come_to_every_node(scheduler, heads);
    if 0 <= i < scheduler.size() {
        assert(heads.contains(i));
        let k = heads.index_of(i);
        assert(steps[k]->Cleanup_0@[0] == i);
    }
}

/// The nodes of a round are those that were not reconciled yet and have everything that they
/// depend on ready, in the order in which they are declared.
pub open spec fn is_round<R>(scheduler: Scheduler<R>, marks: Marks, queue: Seq<int>) -> bool {
    &&& forall|a: int, b: int|
        0 <= a < b < queue.len() ==> #[trigger] queue[a] < #[trigger] queue[b]
    &&& forall|i: int| #[trigger]
        queue.contains(i) <==> {
            &&& 0 <= i < scheduler.size()
            &&& marks[i] is None
            &&& forall|d: int| #[trigger]
                scheduler.edges().contains((d, i)) ==> marks[d] == Some(NodeState::Ready)
        }
}

/// A run begins with the nodes that depend on nothing, and is over at once only where there are
/// none.
pub proof fn runs_begin_with_what_depends_on_nothing<R>(
    scheduler: Scheduler<R>,
    observed_generation: Option<i64>,
    steps: Seq<RunStep>,
    states: Seq<NodeState>,
)
    requires
        scheduler.wf(),
        is_run(scheduler, observed_generation, steps, states),
    ensures
        match steps[0] {
            RunStep::Reconcile(run) => {
                &&& run@.marks.len() == scheduler.size()
                &&& forall|i: int| 0 <= i < scheduler.size() ==> (#[trigger] run@.marks[i]) is None
                &&& forall|a: int, b: int|
                    0 <= a < b < run@.queue.len() ==> #[trigger] run@.queue[a]
                        < #[trigger] run@.queue[b]
                &&& forall|i: int| #[trigger]
                    run@.queue.contains(i) <==> 0 <= i < scheduler.size() && forall|d: int|
                        !#[trigger] scheduler.edges().contains((d, i))
                &&& run@.queue.len() > 0
                &&& !run@.progressed
                &&& run@.observed_generation == observed_generation
            },
            RunStep::Finish(_) => scheduler.size() == 0,
        },
{
    let marks = unmarked(scheduler.size());
    scheduler.next_nodes_are_those_that_wait_for_nothing(marks);
    let queue = scheduler.frontier(marks);
    assert forall|i: int| #[trigger] queue.contains(i) <==> 0 <= i < scheduler.size() && forall|
        d: int,
    | !#[trigger] scheduler.edges().contains((d, i)) by {
        assert forall|d: int| #[trigger] scheduler.edges().contains((d, i)) implies 0 <= d
            < scheduler.size() by {}
    }
    if steps[0] is Finish && scheduler.size() > 0 {
        let edges = scheduler.edges();
        let order = choose|order: Seq<int>| #[trigger]
            is_topological(scheduler.size(), edges, order);
        let first = order[0];
        assert(order.contains(first));
        assert(!queue.contains(first));
        let d = choose|d: int| #[trigger] edges.contains((d, first));
        assert(order.contains(d));
        let k = order.index_of(d);
        assert(edges.contains((order[k], order[0])));
    }
}

/// A round goes on until every node of it was reconciled. Where one of them became ready the next
/// round follows, with all the nodes that can be reconciled now; else the run is over.
pub proof fn rounds_are_finished_before_the_next<R>(
    scheduler: Scheduler<R>,
    before: RunStep,
    state: NodeState,
    after: RunStep,
)
    requires
        scheduler.wf(),
        resumes(scheduler, before, state, after),
        before->Reconcile_0@.queue.len() > 0,
        before->Reconcile_0@.marks.len() == scheduler.size(),
    ensures
        ({
            let run = before->Reconcile_0@;
            let marks = run.marks.update(run.queue[0], Some(state));
            let next = after->Reconcile_0@;
            &&& after is Reconcile ==> next.marks == marks && next.queue.len() > 0
                && next.observed_generation == run.observed_generation
            &&& run.queue.len() > 1 ==> after is Reconcile && next.queue == run.queue.subrange(
                1,
                run.queue.len() as int,
            ) && next.progressed == (run.progressed || state is Ready)
            &&& run.queue.len() == 1 && (run.progressed || state is Ready) && after is Reconcile
                ==> !next.progressed && is_round(scheduler, marks, next.queue)
            &&& run.queue.len() == 1 && (run.progressed || state is Ready) && after is Finish
                ==> is_round(scheduler, marks, Seq::empty())
            &&& run.queue.len() == 1 && !run.progressed && state is Pending ==> after is Finish
        }),
{
    let run = before->Reconcile_0@;
    let marks = run.marks.update(run.queue[0], Some(state));
    scheduler.next_nodes_are_those_that_wait_for_nothing(marks);
    assert(run.queue.drop_first() =~= run.queue.subrange(1, run.queue.len() as int));
    if scheduler.frontier(marks).len() == 0 {
        assert(scheduler.frontier(marks) =~= Seq::empty());
    }
}

/// The status with which a run ends, where `reports` is what each node reports when it is
/// reconciled: it counts as ready the nodes that report so and of which everything that they
/// depend on does, and lists the keys of all others.
pub proof fn finished_runs_count_what_is_ready_with_everything_below<R>(
    scheduler: Scheduler<R>,
    observed_generation: Option<i64>,
    steps: Seq<RunStep>,
    states: Seq<NodeState>,
    reports: spec_fn(int) -> NodeState,
)
    requires
        scheduler.wf(),
        is_run(scheduler, observed_generation, steps, states),
        steps.last() is Finish,
        forall|k: int|
            0 <= k < states.len() ==> states[k] == reports(
                (#[trigger] steps[k])->Reconcile_0@.queue[0],
            ),
    ensures
        ({
            let status = steps.last()->Finish_0;
            let ready = Set::new(
                |i: int|
                    0 <= i < scheduler.size() && reports(i) is Ready && (forall|j: int| #[trigger]
                        depends_on(scheduler.edges(), i, j) ==> reports(j) is Ready),
            );
            let listed = status.pending@.map_values(|s: String| s@);
            &&& ready.finite()
            &&& status.observed_generation == observed_generation
            &&& status.total_nodes == Some(scheduler.size() as i64)
            &&& status.completed_nodes == Some(ready.len() as i64)
            &&& status.pending_nodes == Some((scheduler.size() - ready.len()) as i64)
            &&& status.ready == Some(ready.len() == scheduler.size())
            &&& forall|text: Seq<char>| #[trigger]
                listed.to_multiset().count(text) == Set::new(
                    |i: int|
                        0 <= i < scheduler.size() && !ready.contains(i)
                            && scheduler.keys()[i].text() == text,
                ).len()
        }),
{
    let marks = runs_end_with_the_status_of_their_reports(
        scheduler,
        observed_generation,
        steps,
        states,
    );
    let status = steps.last()->Finish_0;
    let ready = Set::new(
        |i: int|
            0 <= i < scheduler.size() && reports(i) is Ready && (forall|j: int| #[trigger]
                depends_on(scheduler.edges(), i, j) ==> reports(j) is Ready),
    );
    status_tells_what_the_nodes_reported(status, scheduler.keys(), marks, observed_generation);
    assert forall|i: int| 0 <= i < scheduler.size() implies (#[trigger] ready.contains(i)
        <==> marks[i] == Some(NodeState::Ready)) by {
        runs_reconcile_what_has_everything_ready(
            scheduler,
            observed_generation,
            steps,
            states,
            reports,
            i,
        );
        if marks[i] == Some(NodeState::Ready) {
            let k = choose|k: int|
                0 <= k < states.len() && (#[trigger] steps[k])->Reconcile_0@.queue[0] == i;
            assert(steps[k]->Reconcile_0@.queue[0] == i && states[k] is Ready);
        }
        if ready.contains(i) {
            let k = choose|k: int|
                0 <= k < states.len() && (#[trigger] steps[k])->Reconcile_0@.queue[0] == i
                    && states[k] is Ready;
            assert(marks[steps[k]->Reconcile_0@.queue[0]] == Some(states[k]));
        }
    }
    assert(ready =~= Set::new(
        |i: int| 0 <= i < marks.len() && marks[i] == Some(NodeState::Ready),
    ));
    let listed = status.pending@.map_values(|s: String| s@);
    assert forall|text: Seq<char>| #[trigger] listed.to_multiset().count(text) == Set::new(
        |i: int|
            0 <= i < scheduler.size() && !ready.contains(i) && scheduler.keys()[i].text() == text,
    ).len() by {
        assert(Set::new(
            |i: int|
                0 <= i < scheduler.size() && !ready.contains(i) && scheduler.keys()[i].text()
                    == text,
        ) =~= Set::new(
            |i: int|
                0 <= i < marks.len() && marks[i] != Some(NodeState::Ready)
                    && scheduler.keys()[i].text() == text,
        ));
    }
}

/// Whatever step comes after nodes reported `marks`: it asks for a node that was not reconciled and
/// has everything that it depends on ready, as long as there is such a node; and it ends the run
/// only where there is none.
pub proof fn steps_ask_for_a_node_as_long_as_there_is_one<R>(
    scheduler: Scheduler<R>,
    step: RunStep,
    marks: Marks,
    queue: Seq<int>,
    progressed: bool,
    observed_generation: Option<i64>,
    i: int,
)
    requires
        scheduler.leads_to(step, marks, queue, progressed, observed_generation),
    ensures
        step is Finish && 0 <= i < scheduler.size() && marks[i] is None ==> exists|d: int|
            #[trigger] scheduler.edges().contains((d, i)) && marks[d] != Some(NodeState::Ready),
        step matches RunStep::Reconcile(run) ==> {
            let node = run@.queue[0];
            &&& run@.queue.len() > 0
            &&& run@.marks == marks
            &&& 0 <= node < scheduler.size()
            &&& marks[node] is None
            &&& forall|d: int| #[trigger]
                scheduler.edges().contains((d, node)) ==> marks[d] == Some(NodeState::Ready)
        },
{
    match step {
        RunStep::Reconcile(run) => {
            assert(run@.queue.contains(run@.queue[0]));
            assert(scheduler.is_runnable(marks, run@.queue[0]));
        },
        RunStep::Finish(_) => {
            assert(!scheduler.is_runnable(marks, i));
        },
    }
}

}
