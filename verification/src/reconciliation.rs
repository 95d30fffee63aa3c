//! What holds of all that is done for a resource, from what a finalizer asks for to the end.
use crate::operator::{Action, Applying, ReconcileStep};
use crate::workflow::laws::depends_on;
use crate::workflow::run::{unmarked, RunStep};
use crate::workflow::scheduler::Scheduler;
use crate::workflow::status::NodeState;
use crate::workflow::trace::{
    finished_runs_count_what_is_ready_with_everything_below, is_run, is_whole_cleanup, resumes,
    runs_end_only_when_nothing_is_left, runs_reconcile_nodes_once_and_in_order,
    runs_reconcile_what_has_everything_ready, whole_cleanups_come_to_every_node,
};
use crate::workflow::unfold::{is_cleanup, visited, Visit};
use vstd::prelude::*;

verus! {

/// Whether these are the steps of a reconciliation from its first one, with what the nodes
/// reported.
pub open spec fn is_reconciliation<R>(
    scheduler: Scheduler<R>,
    generation: Option<i64>,
    steps: Seq<ReconcileStep<R>>,
    states: Seq<NodeState>,
) -> bool {
    &&& steps.len() == states.len() + 1
    &&& exists|next: RunStep| #[trigger]
        scheduler.leads_to(
            next,
            unmarked(scheduler.size()),
            scheduler.frontier(unmarked(scheduler.size())),
            false,
            generation,
        ) && steps[0].follows_run(scheduler, next)
    &&& forall|k: int|
        0 <= k < states.len() ==> {
            &&& steps[k] is Reconcile
            &&& steps[k]->Reconcile_0.reports(#[trigger] states[k], steps[k + 1])
        }
}

/// The step of the run that a step of a reconciliation goes on with.
spec fn run_step<R>(step: ReconcileStep<R>) -> RunStep {
    match step {
        ReconcileStep::Reconcile(applying) => RunStep::Reconcile(applying.run()),
        ReconcileStep::Report(status) => RunStep::Finish(status),
        _ => arbitrary(),
    }
}

spec fn run_steps<R>(steps: Seq<ReconcileStep<R>>) -> Seq<RunStep> {
    steps.map_values(|step: ReconcileStep<R>| run_step(step))
}

proof fn lemma_step<R>(
    scheduler: Scheduler<R>,
    generation: Option<i64>,
    steps: Seq<ReconcileStep<R>>,
    states: Seq<NodeState>,
    k: int,
)
    requires
        is_reconciliation(scheduler, generation, steps, states),
        0 <= k < steps.len(),
    ensures
        steps[k] is Reconcile || steps[k] is Report,
        steps[k] matches ReconcileStep::Reconcile(applying) ==> applying.scheduler() == scheduler,
        k == 0 ==> scheduler.leads_to(
            run_step(steps[0]),
            unmarked(scheduler.size()),
            scheduler.frontier(unmarked(scheduler.size())),
            false,
            generation,
        ),
        k > 0 ==> resumes(
            scheduler,
            run_step(steps[k - 1]),
            states[k - 1],
            run_step(steps[k]),
        ),
    decreases k,
{
    if k > 0 {
        lemma_step(scheduler, generation, steps, states, k - 1);
        let before: Applying<R> = steps[k - 1]->Reconcile_0;
        assert(before.reports(states[k - 1], steps[k]));
    }
}

proof fn lemma_is_run<R>(
    scheduler: Scheduler<R>,
    generation: Option<i64>,
    steps: Seq<ReconcileStep<R>>,
    states: Seq<NodeState>,
)
    requires
        is_reconciliation(scheduler, generation, steps, states),
    ensures
        is_run(scheduler, generation, run_steps(steps), states),
        forall|k: int| 0 <= k < states.len() ==> (#[trigger] steps[k]) is Reconcile,
        forall|k: int|
            0 <= k < steps.len() ==> steps[k] is Reconcile || (#[trigger] steps[k]) is Report,
        forall|k: int|
            0 <= k < steps.len() && (#[trigger] steps[k]) is Reconcile
                ==> steps[k]->Reconcile_0.scheduler() == scheduler,
{
    lemma_step(scheduler, generation, steps, states, 0);
    assert forall|k: int| 0 <= k < states.len() implies (#[trigger] steps[k]) is Reconcile by {
        assert(steps[k]->Reconcile_0.reports(states[k], steps[k + 1]));
    }
    assert forall|k: int| 0 <= k < steps.len() implies steps[k] is Reconcile || (
    #[trigger] steps[k]) is Report by {
        lemma_step(scheduler, generation, steps, states, k);
    }
    assert forall|k: int| 0 <= k < steps.len() && (
    #[trigger] steps[k]) is Reconcile implies steps[k]->Reconcile_0.scheduler() == scheduler by {
        lemma_step(scheduler, generation, steps, states, k);
    }
    assert forall|k: int| 0 <= k < states.len() implies resumes(
        scheduler,
        run_steps(steps)[k],
        #[trigger] states[k],
        run_steps(steps)[k + 1],
    ) by {
        lemma_step(scheduler, generation, steps, states, k + 1);
    }
}

/// A reconciliation goes through the workflow's nodes: none is reconciled twice, and each only after
/// everything that it depends on reported that it is ready.
pub proof fn reconciliations_go_along_the_dependencies<R>(
    scheduler: Scheduler<R>,
    generation: Option<i64>,
    steps: Seq<ReconcileStep<R>>,
    states: Seq<NodeState>,
)
    requires
        scheduler.wf(),
        is_reconciliation(scheduler, generation, steps, states),
    ensures
        forall|k: int|
            0 <= k < steps.len() - 1 ==> (#[trigger] steps[k]) is Reconcile
                && steps[k]->Reconcile_0.scheduler() == scheduler,
        steps.last() is Reconcile || steps.last() is Report,
        steps.last() is Reconcile ==> steps.last()->Reconcile_0.scheduler() == scheduler,
        steps.len() <= scheduler.size() + 1,
        forall|k: int|
            0 <= k < steps.len() && (#[trigger] steps[k]) is Reconcile ==> 0
                <= steps[k]->Reconcile_0.run()@.queue[0] < scheduler.size(),
        forall|k: int, m: int|
            0 <= k < m < steps.len() && (#[trigger] steps[k]) is Reconcile && (
            #[trigger] steps[m]) is Reconcile ==> steps[k]->Reconcile_0.run()@.queue[0]
                != steps[m]->Reconcile_0.run()@.queue[0],
        forall|k: int, d: int|
            0 <= k < steps.len() && (#[trigger] steps[k]) is Reconcile
                && #[trigger] scheduler.edges().contains((d, steps[k]->Reconcile_0.run()@.queue[0]))
                ==> exists|m: int|
                0 <= m < k && (#[trigger] steps[m])->Reconcile_0.run()@.queue[0] == d
                    && states[m] is Ready,
{
    lemma_is_run(scheduler, generation, steps, states);
    let runs = run_steps(steps);
    runs_reconcile_nodes_once_and_in_order(scheduler, generation, runs, states);
    assert forall|k: int| 0 <= k < steps.len() implies #[trigger] runs[k] == run_step(steps[k]) by {}
    assert forall|k: int| 0 <= k < steps.len() - 1 implies (#[trigger] steps[k]) is Reconcile by {
        assert(runs[k] is Reconcile);
    }
    assert forall|k: int| 0 <= k < steps.len() && (#[trigger] steps[k]) is Reconcile implies 0
        <= steps[k]->Reconcile_0.run()@.queue[0] < scheduler.size() by {
        assert(runs[k] is Reconcile);
    }
    assert forall|k: int, m: int|
        0 <= k < m < steps.len() && (#[trigger] steps[k]) is Reconcile && (
        #[trigger] steps[m]) is Reconcile implies steps[k]->Reconcile_0.run()@.queue[0]
        != steps[m]->Reconcile_0.run()@.queue[0] by {
        assert(runs[k] is Reconcile && runs[m] is Reconcile);
    }
    assert forall|k: int, d: int|
        0 <= k < steps.len() && (#[trigger] steps[k]) is Reconcile
            && #[trigger] scheduler.edges().contains(
            (d, steps[k]->Reconcile_0.run()@.queue[0]),
        ) implies exists|m: int|
        0 <= m < k && (#[trigger] steps[m])->Reconcile_0.run()@.queue[0] == d
            && states[m] is Ready by {
        assert(runs[k] is Reconcile);
        assert(scheduler.edges().contains((d, runs[k]->Reconcile_0@.queue[0])));
        let m = choose|m: int|
            0 <= m < k && (#[trigger] runs[m])->Reconcile_0@.queue[0] == d && states[m] is Ready;
        assert(steps[m]->Reconcile_0.run()@.queue[0] == d);
    }
}

/// A status is reported only where no node is left to reconcile. Where `reports` is what each node
/// reports when it is reconciled, a node was reconciled if and only if everything that it depends
/// on reports that it is ready; and the status counts as ready the nodes that report so and of which
/// everything that they depend on does.
pub proof fn reported_statuses_tell_what_is_ready<R>(
    scheduler: Scheduler<R>,
    generation: Option<i64>,
    steps: Seq<ReconcileStep<R>>,
    states: Seq<NodeState>,
    reports: spec_fn(int) -> NodeState,
    i: int,
)
    requires
        scheduler.wf(),
        is_reconciliation(scheduler, generation, steps, states),
        steps.last() is Report,
        forall|k: int|
            0 <= k < states.len() ==> states[k] == reports(
                (#[trigger] steps[k])->Reconcile_0.run()@.queue[0],
            ),
        0 <= i < scheduler.size(),
    ensures
        (exists|k: int|
            0 <= k < states.len() && (#[trigger] steps[k])->Reconcile_0.run()@.queue[0] == i) <==> (
        forall|j: int| #[trigger]
            depends_on(scheduler.edges(), i, j) ==> reports(j) is Ready),
        ({
            let status = steps.last()->Report_0;
            let ready = Set::new(
                |i: int|
                    0 <= i < scheduler.size() && reports(i) is Ready && (forall|j: int| #[trigger]
                        depends_on(scheduler.edges(), i, j) ==> reports(j) is Ready),
            );
            let listed = status.pending@.map_values(|s: String| s@);
            &&& ready.finite()
            &&& status.observed_generation == generation
            &&& status.total_nodes == Some(scheduler.size() as i64)
            &&& status.completed_nodes == Some(ready.len() as i64)
            &&& status.pending_nodes == Some((scheduler.size() - ready.len()) as i64)
            &&& status.ready == Some(ready.len() == scheduler.size())
            &&& forall|text: Seq<char>| #[trigger]
                listed.to_multiset().count(text) == Set::new(
                    |i: int|
                        0 <= i < scheduler.size() && !ready.contains(i)
                            && scheduler.keys()[i].text() == text,
                ).len()
        }),
{
    lemma_is_run(scheduler, generation, steps, states);
    let runs = run_steps(steps);
    assert forall|k: int| 0 <= k < states.len() implies states[k] == reports(
        (#[trigger] runs[k])->Reconcile_0@.queue[0],
    ) by {
        assert(runs[k] == run_step(steps[k]));
    }
    runs_reconcile_what_has_everything_ready(scheduler, generation, runs, states, reports, i);
    finished_runs_count_what_is_ready_with_everything_below(
        scheduler,
        generation,
        runs,
        states,
        reports,
    );
    if exists|k: int| 0 <= k < states.len() && (#[trigger] runs[k])->Reconcile_0@.queue[0] == i {
        let k = choose|k: int|
            0 <= k < states.len() && (#[trigger] runs[k])->Reconcile_0@.queue[0] == i;
        assert(steps[k]->Reconcile_0.run()@.queue[0] == i);
    }
    if exists|k: int|
        0 <= k < states.len() && (#[trigger] steps[k])->Reconcile_0.run()@.queue[0] == i {
        let k = choose|k: int|
            0 <= k < states.len() && (#[trigger] steps[k])->Reconcile_0.run()@.queue[0] == i;
        assert(runs[k]->Reconcile_0@.queue[0] == i);
    }
}

/// A status is reported only where each node that was passed over has a dependency that did not
/// report that it is ready.
pub proof fn statuses_are_reported_only_when_nothing_is_left<R>(
    scheduler: Scheduler<R>,
    generation: Option<i64>,
    steps: Seq<ReconcileStep<R>>,
    states: Seq<NodeState>,
    i: int,
)
    requires
        scheduler.wf(),
        is_reconciliation(scheduler, generation, steps, states),
        steps.last() is Report,
        0 <= i < scheduler.size(),
        forall|k: int|
            0 <= k < states.len() ==> (#[trigger] steps[k])->Reconcile_0.run()@.queue[0] != i,
    ensures
        exists|d: int| #[trigger]
            scheduler.edges().contains((d, i)) && forall|m: int|
                0 <= m < states.len() && (#[trigger] steps[m])->Reconcile_0.run()@.queue[0] == d
                    ==> states[m] is Pending,
{
    lemma_is_run(scheduler, generation, steps, states);
    let runs = run_steps(steps);
    assert forall|k: int| 0 <= k < states.len() implies (
    #[trigger] runs[k])->Reconcile_0@.queue[0] == steps[k]->Reconcile_0.run()@.queue[0] by {
        assert(runs[k] == run_step(steps[k]));
    }
    runs_end_only_when_nothing_is_left(scheduler, generation, runs, states, i);
    let d = choose|d: int| #[trigger]
        scheduler.edges().contains((d, i)) && forall|m: int|
            0 <= m < states.len() && (#[trigger] runs[m])->Reconcile_0@.queue[0] == d
                ==> states[m] is Pending;
    assert forall|m: int|
        0 <= m < states.len() && (#[trigger] steps[m])->Reconcile_0.run()@.queue[0]
            == d implies states[m] is Pending by {
        assert(runs[m]->Reconcile_0@.queue[0] == d);
    }
}

/// Whether these are the steps of a cleanup of a resource in which no node failed, from what a
/// finalizer asks for to the last one.
pub open spec fn is_cleaning<R>(scheduler: Scheduler<R>, steps: Seq<ReconcileStep<R>>) -> bool {
    &&& steps.len() > 0
    &&& exists|visits: Seq<Visit>| #[trigger]
        is_cleanup(scheduler.size(), scheduler.edges(), visits) && steps[0].follows_cleanup(
            scheduler,
            visited(visits),
        )
    &&& forall|k: int|
        0 < k < steps.len() ==> {
            &&& steps[k - 1] is CleanUp
            &&& (#[trigger] steps[k]).follows_cleanup(
                steps[k - 1]->CleanUp_0.scheduler(),
                steps[k - 1]->CleanUp_0.queue().drop_first(),
            )
        }
}

proof fn lemma_cleaning_queue<R>(
    scheduler: Scheduler<R>,
    steps: Seq<ReconcileStep<R>>,
    nodes: Seq<int>,
    k: int,
)
    requires
        is_cleaning(scheduler, steps),
        steps[0].follows_cleanup(scheduler, nodes),
        0 <= k < steps.len(),
    ensures
        steps[k].follows_cleanup(scheduler, nodes.skip(k)),
        k <= nodes.len(),
    decreases k,
{
    if k > 0 {
        lemma_cleaning_queue(scheduler, steps, nodes, k - 1);
        assert(steps[k].follows_cleanup(scheduler, steps[k - 1]->CleanUp_0.queue().drop_first()));
        assert(nodes.skip(k - 1).drop_first() =~= nodes.skip(k));
    } else {
        assert(nodes.skip(0) =~= nodes);
    }
}

/// A cleanup of a resource is done only where no node is left, and then the resource is left alone
/// until it changes. Every node was cleaned up, each after those that depend on it: once as
/// declared or, where a node that is declared before it depends on it, twice.
pub proof fn cleanups_are_done_only_when_every_node_had_its_turn<R>(
    scheduler: Scheduler<R>,
    steps: Seq<ReconcileStep<R>>,
)
    requires
        scheduler.wf(),
        is_cleaning(scheduler, steps),
        steps.last() is Done,
    ensures
        steps.last()->Done_0 == Action::AwaitChange,
        forall|k: int|
            0 <= k < steps.len() - 1 ==> (#[trigger] steps[k]) is CleanUp
                && steps[k]->CleanUp_0.scheduler() == scheduler,
        ({
            let nodes = Seq::new(
                (steps.len() - 1) as nat,
                |k: int| steps[k]->CleanUp_0.queue()[0],
            );
            &&& forall|i: int| #[trigger] nodes.contains(i) <==> 0 <= i < scheduler.size()
            &&& forall|d: int, i: int| #[trigger]
                scheduler.edges().contains((d, i)) ==> exists|a: int, b: int|
                    0 <= a < b < nodes.len() && #[trigger] nodes[a] == i && #[trigger] nodes[b] == d
            &&& forall|a: int, b: int, c: int|
                0 <= a < b < c < nodes.len() ==> !(#[trigger] nodes[a] == #[trigger] nodes[b]
                    && nodes[b] == #[trigger] nodes[c])
            &&& forall|a: int, b: int|
                0 <= a < b < nodes.len() && #[trigger] nodes[a] == #[trigger] nodes[b] ==> exists|
                    i: int,
                | #[trigger] scheduler.edges().contains((nodes[a], i)) && i < nodes[a]
            &&& forall|d: int, i: int| #[trigger]
                scheduler.edges().contains((d, i)) && i < d ==> exists|a: int, b: int|
                    0 <= a < b < nodes.len() && #[trigger] nodes[a] == d && #[trigger] nodes[b] == d
        }),
{
    let visits = choose|visits: Seq<Visit>| #[trigger]
        is_cleanup(scheduler.size(), scheduler.edges(), visits) && steps[0].follows_cleanup(
            scheduler,
            visited(visits),
        );
    let all = visited(visits);
    let m = steps.len() - 1;
    let nodes = Seq::new((steps.len() - 1) as nat, |k: int| steps[k]->CleanUp_0.queue()[0]);
    lemma_cleaning_queue(scheduler, steps, all, m);
    assert forall|k: int| 0 <= k < m implies (#[trigger] steps[k]) is CleanUp
        && steps[k]->CleanUp_0.scheduler() == scheduler && steps[k]->CleanUp_0.queue()[0]
        == all[k] by {
        lemma_cleaning_queue(scheduler, steps, all, k);
        assert(steps[k + 1].follows_cleanup(
            steps[k]->CleanUp_0.scheduler(),
            steps[k]->CleanUp_0.queue().drop_first(),
        ));
        assert(all.skip(k)[0] == all[k]);
    }
    assert(all.skip(m).len() == 0);
    assert(nodes =~= all);
    assert(is_whole_cleanup(scheduler, nodes));
    whole_cleanups_come_to_every_node(scheduler, nodes);
}

/// As long as a node is left a cleanup asks for it, and every node at any step is one of the
/// scheduler's.
pub proof fn every_node_is_asked_to_be_cleaned_up<R>(
    scheduler: Scheduler<R>,
    steps: Seq<ReconcileStep<R>>,
    i: int,
)
    requires
        scheduler.wf(),
        is_cleaning(scheduler, steps),
        steps.last() is Done,
        0 <= i < scheduler.size(),
    ensures
        exists|k: int|
            0 <= k < steps.len() - 1 && (#[trigger] steps[k]) is CleanUp
                && steps[k]->CleanUp_0.queue()[0] == i,
{
    cleanups_are_done_only_when_every_node_had_its_turn(scheduler, steps);
    let nodes = Seq::new((steps.len() - 1) as nat, |k: int| steps[k]->CleanUp_0.queue()[0]);
    assert(nodes.contains(i));
    let k = nodes.index_of(i);
    assert(steps[k] is CleanUp && steps[k]->CleanUp_0.queue()[0] == i);
}

}
