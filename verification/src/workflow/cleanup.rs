//! A cleanup of a workflow, node after node.
use super::run::WorkflowError;
use super::scheduler::Scheduler;
use super::unfold::{is_cleanup, visited, Visit};
use crate::dag::positions;
use vstd::prelude::*;

verus! {

/// A cleanup that waits for the node at the head of its queue.
pub struct CleanupRun {
    order: Vec<usize>,
    at: usize,
}

impl View for CleanupRun {
    type V = Seq<int>;

    /// The nodes that are left to clean up.
    closed spec fn view(&self) -> Seq<int> {
        if self.at <= self.order@.len() {
            positions(self.order@).skip(self.at as int)
        } else {
            Seq::empty()
        }
    }
}

/// What comes next in a cleanup.
pub enum CleanupStep {
    /// The node at the head of the queue is to be cleaned up.
    Cleanup(CleanupRun),
    /// The cleanup is over.
    Finish,
}

impl CleanupStep {
    /// The nodes that are left to clean up.
    pub open spec fn queue(self) -> Seq<int> {
        match self {
            CleanupStep::Cleanup(run) => run@,
            CleanupStep::Finish => Seq::empty(),
        }
    }

    /// A cleanup is over if and only if no node is left.
    pub open spec fn wf(self) -> bool {
        self is Finish <==> self.queue().len() == 0
    }
}

impl CleanupRun {
    /// The node that the cleanup waits for.
    pub fn node(&self) -> (node: usize)
        requires
            self@.len() > 0,
        ensures
            node == self@[0],
    {
        self.order[self.at]
    }

    fn proceed(self) -> (step: CleanupStep)
        requires
            self.at <= self.order@.len(),
        ensures
            step.wf(),
            step.queue() == self@,
    {
        if self.at < self.order.len() {
            CleanupStep::Cleanup(self)
        } else {
            assert(self@ =~= Seq::<int>::empty());
            CleanupStep::Finish
        }
    }
}

impl<R> Scheduler<R> {
    /// Starts a cleanup of every node: each, as declared, before anything that it depends on.
    pub fn cleanup(&self) -> (step: CleanupStep)
        ensures
            step.wf(),
            step is Finish ==> self.size() == 0,
            exists|visits: Seq<Visit>| #[trigger]
                is_cleanup(self.size(), self.edges(), visits) && step.queue() == visited(visits),
    {
        let order = self.cleanup_order();
        assert(positions(order@).skip(0) =~= positions(order@));
        let step = CleanupRun { order, at: 0 }.proceed();
        proof {
            let visits = choose|visits: Seq<Visit>| #[trigger]
                is_cleanup(self.size(), self.edges(), visits) && step.queue() == visited(visits);
            if step is Finish && self.size() > 0 {
                assert(visits.contains(Visit::Declared(0)));
            }
        }
        step
    }

    /// Goes on with a cleanup after its node was cleaned up. A node's own error ends it.
    pub fn resume_cleanup<E>(&self, run: CleanupRun, result: Result<(), E>) -> (step: Result<
        CleanupStep,
        WorkflowError<E>,
    >)
        requires
            run@.len() > 0,
        ensures
            match result {
                Ok(_) => {
                    &&& step is Ok
                    &&& step->Ok_0.wf()
                    &&& step->Ok_0.queue() == run@.drop_first()
                    &&& step->Ok_0 matches CleanupStep::Cleanup(next) ==> next@.len() > 0 && next@
                        == run@.subrange(1, run@.len() as int)
                    &&& step->Ok_0 is Finish ==> run@.len() == 1
                },
                Err(error) => step == Err::<CleanupStep, _>(WorkflowError::Reconciler(error)),
            },
    {
        if let Err(error) = result {
            return Err(WorkflowError::Reconciler(error));
        }
        assert(run.at < run.order.len());
        let next = CleanupRun { order: run.order, at: run.at + 1 };
        assert(next@ =~= run@.drop_first());
        assert(run@.drop_first() =~= run@.subrange(1, run@.len() as int));
        Ok(next.proceed())
    }
}

}
