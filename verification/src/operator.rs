//! The operator: how a custom resource is reconciled from first to last, and how the parts of an
//! operator start and stop.
use crate::leader::LeaderSettings;
use crate::meta::{CrMeta, CrMetaError, ObjectMeta};
use crate::workflow::cleanup::{CleanupRun, CleanupStep};
use crate::workflow::graph::{Graph, GraphError};
use crate::workflow::run::{unmarked, RunStep, WorkflowError, WorkflowRun};
use crate::workflow::scheduler::Scheduler;
use crate::workflow::unfold::{is_cleanup, visited, Visit};
use crate::workflow::status::{lemma_count_ready, Marks, NodeState, WorkflowStatus};
use std::time::Duration;
use vstd::prelude::*;
use vstd::string::*;

verus! {

/// How an operator runs.
pub struct RuntimeSettings {
    /// The port of the health probes; none where it is zero.
    pub health_port: u16,
    /// After what time a resource whose workflow is not ready is reconciled again.
    pub reconcile_interval: Duration,
    /// After what time a reconciliation that failed is tried again.
    pub error_backoff: Duration,
}

impl Clone for RuntimeSettings {
    fn clone(&self) -> (r: Self)
        ensures
            r == *self,
    {
        RuntimeSettings {
            health_port: self.health_port,
            reconcile_interval: self.reconcile_interval,
            error_backoff: self.error_backoff,
        }
    }
}

/// What an operator is made of.
pub struct OperatorSpec<W> {
    pub runtime: RuntimeSettings,
    pub leader: LeaderSettings,
    pub field_manager: &'static str,
    pub workflow: W,
}

/// An operator.
pub struct Operator;

/// When a resource is reconciled next.
#[derive(Clone, Copy, Debug, PartialEq, Eq)]
pub enum Action {
    /// When it changes.
    AwaitChange,
    /// After some time.
    Requeue(Duration),
}

/// Why a reconciliation fails.
#[derive(Debug)]
pub enum Failure<E, K> {
    /// For a reason in words.
    Text(String),
    /// A workflow's own error.
    Own(E),
    /// An error of the Kubernetes API.
    Api(K),
}

impl<E, K> Failure<E, K> {
    /// Whether the failure is one in these words.
    pub open spec fn says(self, text: Seq<char>) -> bool {
        self matches Failure::Text(message) && message@ == text
    }
}

/// What a finalizer asks for.
#[derive(Clone, Copy, Debug, PartialEq, Eq, Structural)]
pub enum FinalizerEvent {
    /// The resource is to be reconciled.
    Apply,
    /// The resource is about to be deleted.
    Cleanup,
}

/// Why a finalizer fails.
#[derive(Debug)]
pub enum FinalizerError<E, K> {
    ApplyFailed(E),
    CleanupFailed(E),
    AddFinalizer(K),
    RemoveFinalizer(K),
    /// For another reason, in words.
    Other(String),
}

/// The failure that an error of a workflow is.
pub fn map_workflow_error<E, K>(error: WorkflowError<E>) -> (r: Failure<E, K>)
    ensures
        match error {
            WorkflowError::Graph(error) => r.says(error.text()),
            WorkflowError::Reconciler(error) => r == Failure::<E, K>::Own(error),
        },
{
    match error {
        WorkflowError::Graph(error) => Failure::Text(error.message()),
        WorkflowError::Reconciler(error) => Failure::Own(error),
    }
}

/// The failure that an error of a finalizer is.
pub fn map_finalizer_error<E, K>(error: FinalizerError<E, K>) -> (r: Failure<E, K>)
    ensures
        r == match error {
            FinalizerError::ApplyFailed(error) => Failure::<E, K>::Own(error),
            FinalizerError::CleanupFailed(error) => Failure::Own(error),
            FinalizerError::AddFinalizer(error) => Failure::Api(error),
            FinalizerError::RemoveFinalizer(error) => Failure::Api(error),
            FinalizerError::Other(text) => Failure::Text(text),
        },
{
    match error {
        FinalizerError::ApplyFailed(error) => Failure::Own(error),
        FinalizerError::CleanupFailed(error) => Failure::Own(error),
        FinalizerError::AddFinalizer(error) => Failure::Api(error),
        FinalizerError::RemoveFinalizer(error) => Failure::Api(error),
        FinalizerError::Other(text) => Failure::Text(text),
    }
}

/// A reconciliation that waits for a node of its workflow.
pub struct Applying<R> {
    scheduler: Scheduler<R>,
    run: WorkflowRun,
}

/// A cleanup that waits for a node of its workflow.
pub struct Cleaning<R> {
    scheduler: Scheduler<R>,
    run: CleanupRun,
}

/// What comes next for a resource.
pub enum ReconcileStep<R> {
    /// A node is to be reconciled.
    Reconcile(Applying<R>),
    /// The status of the workflow is to be written to the resource.
    Report(WorkflowStatus),
    /// A node is to be cleaned up.
    CleanUp(Cleaning<R>),
    /// Nothing is left to do.
    Done(Action),
}

impl<R> ReconcileStep<R> {
    /// Whether this step goes on with a run of a scheduler: its node is reconciled or, once it is
    /// over, its status is reported.
    pub open spec fn follows_run(self, scheduler: Scheduler<R>, next: RunStep) -> bool {
        match (self, next) {
            (ReconcileStep::Reconcile(applying), RunStep::Reconcile(run)) => {
                &&& applying.scheduler() == scheduler
                &&& applying.run() == run
            },
            (ReconcileStep::Report(reported), RunStep::Finish(status)) => reported == status,
            _ => false,
        }
    }

    /// Whether this step goes on with a cleanup of which these nodes are left.
    pub open spec fn follows_cleanup(self, scheduler: Scheduler<R>, queue: Seq<int>) -> bool {
        match self {
            ReconcileStep::CleanUp(cleaning) => {
                &&& queue.len() > 0
                &&& cleaning.scheduler() == scheduler
                &&& cleaning.queue() == queue
            },
            ReconcileStep::Done(action) => queue.len() == 0 && action == Action::AwaitChange,
            _ => false,
        }
    }
}

impl<R> Applying<R> {
    /// The scheduler of the workflow.
    pub closed spec fn scheduler(self) -> Scheduler<R> {
        self.scheduler
    }

    /// The run of the workflow.
    pub closed spec fn run(self) -> WorkflowRun {
        self.run
    }

    /// The run is one over the scheduler's nodes.
    #[verifier::type_invariant]
    pub open spec fn wf(self) -> bool {
        &&& self.scheduler().wf()
        &&& self.scheduler().valid_run(self.run()@)
    }

    /// Whether `step` is what comes next after the node reported `state`.
    pub open spec fn reports(self, state: NodeState, step: ReconcileStep<R>) -> bool {
        let run = self.run()@;
        exists|next: RunStep|
            self.scheduler().leads_to(
                next,
                run.marks.update(run.queue[0], Some(state)),
                run.queue.drop_first(),
                run.progressed || state is Ready,
                run.observed_generation,
            ) && #[trigger] step.follows_run(self.scheduler(), next)
    }

    /// The record of the node that is to be reconciled.
    pub fn record(&self) -> (record: &R)
        ensures
            *record == self.scheduler().records()[self.run()@.queue[0]],
    {
        proof {
            use_type_invariant(self);
            assert(self.run()@.queue.contains(self.run()@.queue[0]));
        }
        self.scheduler.record(self.run.node())
    }

    fn proceed(scheduler: Scheduler<R>, next: RunStep) -> (step: ReconcileStep<R>)
        requires
            scheduler.wf(),
            next matches RunStep::Reconcile(run) ==> scheduler.valid_run(run@),
        ensures
            step.follows_run(scheduler, next),
    {
        match next {
            RunStep::Reconcile(run) => ReconcileStep::Reconcile(Applying { scheduler, run }),
            RunStep::Finish(status) => ReconcileStep::Report(status),
        }
    }

    /// Goes on after the node was reconciled. A node's own error ends the reconciliation.
    pub fn resume<E, K>(self, result: Result<NodeState, E>) -> (step: Result<
        ReconcileStep<R>,
        Failure<E, K>,
    >)
        ensures
            match result {
                Ok(state) => step is Ok && self.reports(state, step->Ok_0),
                Err(error) => step == Err::<ReconcileStep<R>, _>(Failure::<E, K>::Own(error)),
            },
    {
        proof {
            use_type_invariant(&self);
        }
        match self.scheduler.resume(self.run, result) {
            Ok(next) => {
                let step = Applying::proceed(self.scheduler, next);
                assert(step.follows_run(self.scheduler(), next));
                Ok(step)
            },
            Err(error) => Err(map_workflow_error(error)),
        }
    }
}

impl<R> Cleaning<R> {
    /// The scheduler of the workflow.
    pub closed spec fn scheduler(self) -> Scheduler<R> {
        self.scheduler
    }

    /// The nodes that are left to clean up.
    pub closed spec fn queue(self) -> Seq<int> {
        self.run@
    }

    /// The nodes that are left are the scheduler's.
    #[verifier::type_invariant]
    pub open spec fn wf(self) -> bool {
        &&& self.scheduler().wf()
        &&& self.queue().len() > 0
        &&& forall|i: int| #[trigger]
            self.queue().contains(i) ==> 0 <= i < self.scheduler().size()
    }

    /// The record of the node that is to be cleaned up.
    pub fn record(&self) -> (record: &R)
        ensures
            *record == self.scheduler().records()[self.queue()[0]],
    {
        proof {
            use_type_invariant(self);
            assert(self.queue().contains(self.queue()[0]));
        }
        self.scheduler.record(self.run.node())
    }

    fn proceed(scheduler: Scheduler<R>, next: CleanupStep) -> (step: ReconcileStep<R>)
        requires
            scheduler.wf(),
            next.wf(),
            forall|i: int| #[trigger] next.queue().contains(i) ==> 0 <= i < scheduler.size(),
        ensures
            step.follows_cleanup(scheduler, next.queue()),
    {
        match next {
            CleanupStep::Cleanup(run) => ReconcileStep::CleanUp(Cleaning { scheduler, run }),
            CleanupStep::Finish => ReconcileStep::Done(Action::AwaitChange),
        }
    }

    /// Goes on after the node was cleaned up. A node's own error ends the cleanup.
    pub fn resume<E, K>(self, result: Result<(), E>) -> (step: Result<
        ReconcileStep<R>,
        Failure<E, K>,
    >)
        ensures
            match result {
                Ok(_) => {
                    &&& step is Ok
                    &&& step->Ok_0.follows_cleanup(self.scheduler(), self.queue().drop_first())
                    &&& step->Ok_0 is CleanUp || step->Ok_0 == ReconcileStep::<R>::Done(
                        Action::AwaitChange,
                    )
                    &&& step->Ok_0 matches ReconcileStep::CleanUp(next) ==> next.queue().len() > 0
                        && next.queue() == self.queue().subrange(1, self.queue().len() as int)
                        && next.scheduler() == self.scheduler()
                    &&& step->Ok_0 is Done ==> self.queue().len() == 1
                },
                Err(error) => step == Err::<ReconcileStep<R>, _>(Failure::<E, K>::Own(error)),
            },
    {
        proof {
            use_type_invariant(&self);
            let rest = self.queue().drop_first();
            assert(rest =~= self.queue().subrange(1, self.queue().len() as int));
            assert forall|i: int| #[trigger] rest.contains(i) implies 0 <= i
                < self.scheduler().size() by {
                let k = rest.index_of(i);
                assert(self.queue()[k + 1] == i);
                assert(self.queue().contains(i));
            }
        }
        match self.scheduler.resume_cleanup(self.run, result) {
            Ok(next) => Ok(Cleaning::proceed(self.scheduler, next)),
            Err(error) => Err(map_workflow_error(error)),
        }
    }
}

impl Operator {
    /// The name of the finalizer that an operator puts on its resources.
    pub fn finalizer_name(field_manager: &str) -> (name: String)
        ensures
            name@ == "ech.bz/"@ + field_manager@,
    {
        let mut name = "ech.bz/".to_string();
        name.append(field_manager);
        name
    }

    /// The namespace and the name of a resource that is to be reconciled. A resource without a
    /// namespace is refused before one without a name.
    pub fn target<E, K>(meta: &ObjectMeta) -> (r: Result<(String, String), Failure<E, K>>)
        ensures
            match (meta.namespace, meta.name) {
                (None, _) => r is Err && r->Err_0.says(CrMetaError::MissingNamespace.text()),
                (Some(_), None) => r is Err && r->Err_0.says(CrMetaError::MissingName.text()),
                (Some(namespace), Some(name)) => {
                    &&& r is Ok
                    &&& r->Ok_0.0@ == namespace@
                    &&& r->Ok_0.1@ == name@
                },
            },
    {
        let namespace = match meta.cr_ns() {
            Ok(namespace) => namespace,
            Err(error) => return Err(Failure::Text(error.message())),
        };
        let name = match meta.cr_name() {
            Ok(name) => name,
            Err(error) => return Err(Failure::Text(error.message())),
        };
        Ok((namespace, name))
    }

    /// The scheduler of the graph that a workflow built, unless it could not build one or built
    /// one that is refused.
    pub fn schedule<R, E, K>(built: Result<Graph<R>, GraphError>) -> (r: Result<
        Scheduler<R>,
        Failure<E, K>,
    >)
        requires
            built matches Ok(graph) ==> graph.in_bounds(),
        ensures
            match (built, r) {
                (Ok(graph), Ok(scheduler)) => scheduler.takes_on(graph),
                (Ok(graph), Err(failure)) => exists|error: GraphError| #[trigger]
                    graph.refused_with(error) && failure.says(error.text()),
                (Err(error), Err(failure)) => failure.says(error.text()),
                (Err(_), Ok(_)) => false,
            },
    {
        let graph = match built {
            Ok(graph) => graph,
            Err(error) => return Err(Failure::Text(error.message())),
        };
        match Scheduler::new(graph) {
            Ok(scheduler) => Ok(scheduler),
            Err(error) => {
                assert(graph.refused_with(error));
                Err(Failure::Text(error.message()))
            },
        }
    }

    /// Begins what a finalizer asks for: a run of the workflow, or a cleanup of every node.
    pub fn begin<R>(
        event: FinalizerEvent,
        scheduler: Scheduler<R>,
        generation: Option<i64>,
    ) -> (step: ReconcileStep<R>)
        ensures
            match event {
                FinalizerEvent::Apply => exists|next: RunStep| #[trigger]
                    scheduler.leads_to(
                        next,
                        unmarked(scheduler.size()),
                        scheduler.frontier(unmarked(scheduler.size())),
                        false,
                        generation,
                    ) && step.follows_run(scheduler, next),
                FinalizerEvent::Cleanup => exists|visits: Seq<Visit>| #[trigger]
                    is_cleanup(scheduler.size(), scheduler.edges(), visits)
                        && step.follows_cleanup(scheduler, visited(visits)),
            },
            event is Apply ==> step is Reconcile || step is Report,
            event is Cleanup ==> step is CleanUp || step == ReconcileStep::<R>::Done(
                Action::AwaitChange,
            ),
            event is Cleanup && step is Done ==> scheduler.size() == 0,
    {
        proof {
            use_type_invariant(&scheduler);
        }
        match event {
            FinalizerEvent::Apply => {
                let next = scheduler.run(generation);
                Applying::proceed(scheduler, next)
            },
            FinalizerEvent::Cleanup => {
                let next = scheduler.cleanup();
                proof {
                    let visits = choose|visits: Seq<Visit>| #[trigger]
                        is_cleanup(scheduler.size(), scheduler.edges(), visits) && next.queue()
                            == visited(visits);
                    assert forall|i: int| #[trigger] next.queue().contains(i) implies 0 <= i
                        < scheduler.size() by {
                        let k = next.queue().index_of(i);
                        assert(visits.contains(visits[k]));
                    }
                }
                Cleaning::proceed(scheduler, next)
            },
        }
    }

    /// Whether `action` is what a status calls for: nothing until the resource changes where no
    /// node is pending, else another reconciliation after the interval of the settings.
    pub open spec fn acts(status: WorkflowStatus, runtime: RuntimeSettings, action: Action) -> bool {
        action == if status.pending@.len() == 0 {
            Action::AwaitChange
        } else {
            Action::Requeue(runtime.reconcile_interval)
        }
    }

    /// When a resource is reconciled next, once the status of its workflow was written or the
    /// API refused it: after the interval of the settings as long as a node is not ready.
    pub fn reported<E, K>(
        status: &WorkflowStatus,
        runtime: &RuntimeSettings,
        result: Result<(), K>,
    ) -> (r: Result<Action, Failure<E, K>>)
        ensures
            match result {
                Ok(_) => {
                    &&& r is Ok
                    &&& Self::acts(*status, *runtime, r->Ok_0)
                    &&& status.pending@.len() == 0 ==> r->Ok_0 == Action::AwaitChange
                    &&& status.pending@.len() > 0 ==> r->Ok_0 == Action::Requeue(
                        runtime.reconcile_interval,
                    )
                },
                Err(error) => r == Err::<Action, _>(Failure::<E, K>::Api(error)),
            },
    {
        match result {
            Ok(()) => {
                if status.pending.len() == 0 {
                    Ok(Action::AwaitChange)
                } else {
                    Ok(Action::Requeue(runtime.reconcile_interval))
                }
            },
            Err(error) => Err(Failure::Api(error)),
        }
    }

    /// When a resource is reconciled next after a failure.
    pub fn error_policy(runtime: &RuntimeSettings) -> (action: Action)
        ensures
            action == Action::Requeue(runtime.error_backoff),
    {
        Action::Requeue(runtime.error_backoff)
    }

    /// The result of a controller whose stream of resources has ended: a failure, unless a
    /// shutdown was asked for.
    pub fn controller_exit<E, K>(cancelled: bool) -> (r: Result<(), Failure<E, K>>)
        ensures
            cancelled ==> r is Ok,
            !cancelled ==> r is Err && r->Err_0.says("controller stream terminated unexpectedly"@),
    {
        if cancelled {
            Ok(())
        } else {
            Err(Failure::Text("controller stream terminated unexpectedly".to_string()))
        }
    }
}

/// A resource is left alone until it changes exactly when every node of its workflow is ready;
/// until then it is reconciled again and again.
pub proof fn reconciled_until_ready<R>(
    scheduler: Scheduler<R>,
    marks: Marks,
    generation: Option<i64>,
    status: WorkflowStatus,
    runtime: RuntimeSettings,
    action: Action,
)
    requires
        marks.len() == scheduler.size(),
        status.reports(scheduler.keys(), marks, generation),
        Operator::acts(status, runtime, action),
    ensures
        action == Action::AwaitChange <==> (forall|i: int|
            0 <= i < scheduler.size() ==> #[trigger] marks[i] == Some(NodeState::Ready)),
        action != Action::AwaitChange ==> action == Action::Requeue(runtime.reconcile_interval),
{
    lemma_count_ready(scheduler.keys(), marks);
}

/// A failure in words says exactly those words.
pub proof fn failures_say_their_words<E, K>(failure: Failure<E, K>, text: Seq<char>)
    ensures
        failure.says(text) <==> failure is Text && failure->Text_0@ == text,
{
}

}
