//! A run of a workflow: node after node is reconciled once everything that it depends on is
//! ready, until no node is left that can be.
use super::graph::GraphError;
use super::scheduler::Scheduler;
use super::status::{
    count_ready, lemma_count_ready, unready_texts, Marks, NodeState, WorkflowStatus,
};
use crate::dag::positions;
use crate::text::{decimal_text, sort_texts, texts};
use vstd::prelude::*;
use vstd::string::*;

verus! {

/// Why a run or a cleanup of a workflow fails.
#[derive(Debug)]
pub enum WorkflowError<E> {
    /// The graph is refused.
    Graph(GraphError),
    /// A node's own error.
    Reconciler(E),
}

impl<E> From<GraphError> for WorkflowError<E> {
    fn from(error: GraphError) -> (r: Self) {
        WorkflowError::Graph(error)
    }
}

impl<E> vstd::std_specs::convert::FromSpecImpl<GraphError> for WorkflowError<E> {
    open spec fn obeys_from_spec() -> bool {
        true
    }

    open spec fn from_spec(error: GraphError) -> Self {
        WorkflowError::Graph(error)
    }
}

/// The text of the message of an error of a node that says `cause`.
pub open spec fn reconciler_error_text(cause: Seq<char>) -> Seq<char> {
    "reconciler failed: "@ + cause
}

/// The message of an error of a node that says `cause`.
pub fn reconciler_error_message(cause: &str) -> (r: String)
    ensures
        r@ == reconciler_error_text(cause@),
        r@ == "reconciler failed: "@ + cause@,
{
    let mut message = "reconciler failed: ".to_string();
    message.append(cause);
    message
}

/// A run that waits for the node at the head of its queue.
pub struct WorkflowRun {
    marks: Vec<Option<NodeState>>,
    frontier: Vec<usize>,
    at: usize,
    progressed: bool,
    observed_generation: Option<i64>,
}

/// The value of a run: what the nodes reported so far, the nodes that are left of the current
/// round, and whether a node became ready in this round.
pub struct RunView {
    pub marks: Marks,
    pub queue: Seq<int>,
    pub progressed: bool,
    pub observed_generation: Option<i64>,
}

impl View for WorkflowRun {
    type V = RunView;

    closed spec fn view(&self) -> RunView {
        RunView {
            marks: self.marks@,
            queue: if self.at <= self.frontier@.len() {
                positions(self.frontier@).skip(self.at as int)
            } else {
                Seq::empty()
            },
            progressed: self.progressed,
            observed_generation: self.observed_generation,
        }
    }
}

/// What comes next in a run.
pub enum RunStep {
    /// The node at the head of the run's queue is to be reconciled.
    Reconcile(WorkflowRun),
    /// The run is over.
    Finish(WorkflowStatus),
}

impl WorkflowRun {
    /// The node that the run waits for.
    pub fn node(&self) -> (node: usize)
        requires
            self@.queue.len() > 0,
        ensures
            node == self@.queue[0],
    {
        self.frontier[self.at]
    }
}

/// Marks of `n` nodes of which none was reconciled.
pub open spec fn unmarked(n: nat) -> Marks {
    Seq::new(n, |i: int| None)
}

impl<R> Scheduler<R> {
    /// Whether every node that was reconciled has everything that it depends on ready.
    pub open spec fn consistent(self, marks: Marks) -> bool {
        &&& marks.len() == self.size()
        &&& forall|i: int|
            0 <= i < self.size() && (#[trigger] marks[i]) is Some ==> self.dependencies_ready(
                marks,
                i,
            )
    }

    /// Whether the nodes left of a round, and the next round where one is due, reach every node
    /// that can be reconciled, and no other.
    pub open spec fn sound(self, marks: Marks, queue: Seq<int>, progressed: bool) -> bool {
        &&& self.consistent(marks)
        &&& queue.no_duplicates()
        &&& forall|i: int| #[trigger] queue.contains(i) ==> self.is_runnable(marks, i)
        &&& forall|i: int| #[trigger]
            self.is_runnable(marks, i) ==> queue.contains(i) || progressed
    }

    /// Whether a run can be one over these nodes.
    pub open spec fn valid_run(self, run: RunView) -> bool {
        &&& run.queue.len() > 0
        &&& self.sound(run.marks, run.queue, run.progressed)
    }

    /// Whether a run that left these marks is over: no node is left that can be reconciled.
    pub open spec fn settled(self, marks: Marks) -> bool {
        &&& self.consistent(marks)
        &&& forall|i: int| !#[trigger] self.is_runnable(marks, i)
    }

    /// The nodes that are next: those that are left of a round or, where the round is over and
    /// made a node ready, those of the next one. With them, whether a node became ready in
    /// their round.
    pub open spec fn next_queue(self, marks: Marks, queue: Seq<int>, progressed: bool) -> (
        Seq<int>,
        bool,
    ) {
        if queue.len() > 0 {
            (queue, progressed)
        } else if progressed {
            (self.frontier(marks), false)
        } else {
            (queue, false)
        }
    }

    /// Whether `step` is what comes next after nodes reported `marks` and `queue` is left of the
    /// round.
    pub open spec fn leads_to(
        self,
        step: RunStep,
        marks: Marks,
        queue: Seq<int>,
        progressed: bool,
        observed_generation: Option<i64>,
    ) -> bool {
        let (queue, progressed) = self.next_queue(marks, queue, progressed);
        match step {
            RunStep::Reconcile(run) => {
                &&& queue.len() > 0
                &&& run@ == RunView { marks, queue, progressed, observed_generation }
                &&& self.valid_run(run@)
            },
            RunStep::Finish(status) => {
                &&& queue.len() == 0
                &&& self.settled(marks)
                &&& status.reports(self.keys(), marks, observed_generation)
            },
        }
    }

    /// The status of a workflow whose nodes reported `marks`.
    pub fn status(
        &self,
        marks: &Vec<Option<NodeState>>,
        observed_generation: Option<i64>,
    ) -> (status: WorkflowStatus)
        requires
            marks@.len() == self.size(),
        ensures
            status.reports(self.keys(), marks@, observed_generation),
    {
        proof {
            use_type_invariant(self);
        }
        let total = self.len();
        let mut done: usize = 0;
        let mut uncompleted: Vec<String> = Vec::new();
        let mut i: usize = 0;
        while i < total
            invariant
                self.wf(),
                marks@.len() == self.size(),
                total == self.size(),
                i <= total,
                done <= i,
                done == count_ready(marks@.take(i as int)),
                texts(uncompleted@) == unready_texts(self.keys(), marks@.take(i as int)),
            decreases total - i,
        {
            proof {
                assert(marks@.take(i + 1).drop_last() =~= marks@.take(i as int));
            }
            match marks[i] {
                Some(NodeState::Ready) => {
                    done = done + 1;
                },
                _ => {
                    let ghost before = uncompleted@;
                    let text = self.key(i).text();
                    uncompleted.push(text);
                    proof {
                        assert(texts(uncompleted@) =~= texts(before).push(text@));
                    }
                },
            }
            i = i + 1;
        }
        proof {
            assert(marks@.take(total as int) =~= marks@);
            lemma_count_ready(self.keys(), marks@);
        }
        let n_pending = uncompleted.len();
        let pending = sort_texts(uncompleted);
        proof {
            broadcast use vstd::seq_lib::group_to_multiset_ensures;

            assert(texts(pending@).to_multiset().len() == unready_texts(
                self.keys(),
                marks@,
            ).to_multiset().len());
        }
        let (phase, message) = if n_pending == 0 {
            ("Ready".to_string(), "all workflow nodes are ready".to_string())
        } else if done == 0 {
            ("Pending".to_string(), "waiting for workflow dependencies".to_string())
        } else {
            let mut text = decimal_text(done);
            text.append(" of ");
            text.append(decimal_text(total).as_str());
            text.append(" workflow nodes are ready");
            ("Progressing".to_string(), text)
        };
        WorkflowStatus {
            observed_generation,
            phase: Some(phase),
            ready: Some(n_pending == 0),
            total_nodes: Some(total as i64),
            completed_nodes: Some(done as i64),
            pending_nodes: Some(n_pending as i64),
            pending,
            message: Some(message),
        }
    }

    /// The next round of a sound run is sound, and a run without one is over.
    proof fn lemma_next_queue(self, marks: Marks, queue: Seq<int>, progressed: bool)
        requires
            self.sound(marks, queue, progressed),
        ensures
            ({
                let (q, p) = self.next_queue(marks, queue, progressed);
                &&& self.sound(marks, q, p)
                &&& q.len() == 0 ==> self.settled(marks)
            }),
    {
        self.lemma_frontier(marks);
        let (q, p) = self.next_queue(marks, queue, progressed);
        assert forall|i: int| q.len() == 0 implies !#[trigger] self.is_runnable(marks, i) by {
            if self.is_runnable(marks, i) && queue.len() == 0 && progressed {
                assert(self.frontier(marks).contains(i));
            }
        }
    }

    /// Goes on with what is left of the round, or with the next one.
    fn proceed(&self, run: WorkflowRun) -> (step: RunStep)
        requires
            run.at <= run.frontier@.len(),
            self.sound(run@.marks, run@.queue, run@.progressed),
        ensures
            self.leads_to(
                step,
                run@.marks,
                run@.queue,
                run@.progressed,
                run@.observed_generation,
            ),
    {
        proof {
            self.lemma_next_queue(run@.marks, run@.queue, run@.progressed);
        }
        if run.at < run.frontier.len() {
            return RunStep::Reconcile(run);
        }
        if run.progressed {
            let frontier = self.runnable(&run.marks);
            if frontier.len() > 0 {
                let next = WorkflowRun {
                    marks: run.marks,
                    frontier,
                    at: 0,
                    progressed: false,
                    observed_generation: run.observed_generation,
                };
                proof {
                    assert(positions(frontier@).skip(0) =~= positions(frontier@));
                }
                return RunStep::Reconcile(next);
            }
        }
        RunStep::Finish(self.status(&run.marks, run.observed_generation))
    }

    /// Starts a run, with the nodes that depend on nothing.
    pub fn run(&self, observed_generation: Option<i64>) -> (step: RunStep)
        ensures
            self.leads_to(
                step,
                unmarked(self.size()),
                self.frontier(unmarked(self.size())),
                false,
                observed_generation,
            ),
    {
        let mut marks: Vec<Option<NodeState>> = Vec::new();
        let total = self.len();
        let mut i: usize = 0;
        while i < total
            invariant
                i <= total,
                marks@ == unmarked(i as nat),
            decreases total - i,
        {
            marks.push(None);
            proof {
                assert(marks@ =~= unmarked((i + 1) as nat));
            }
            i = i + 1;
        }
        let frontier = self.runnable(&marks);
        proof {
            self.lemma_frontier(marks@);
            assert(positions(frontier@).skip(0) =~= positions(frontier@));
        }
        self.proceed(
            WorkflowRun { marks, frontier, at: 0, progressed: false, observed_generation },
        )
    }

    /// What a node reports leaves a run sound.
    proof fn lemma_report(self, run: RunView, state: NodeState)
        requires
            self.wf(),
            self.valid_run(run),
        ensures
            self.sound(
                run.marks.update(run.queue[0], Some(state)),
                run.queue.drop_first(),
                run.progressed || state is Ready,
            ),
    {
        let node = run.queue[0];
        assert(run.queue.contains(node));
        let marks = run.marks.update(node, Some(state));
        let rest = run.queue.drop_first();
        assert forall|i: int|
            self.dependencies_ready(run.marks, i) implies #[trigger] self.dependencies_ready(
            marks,
            i,
        ) by {
            assert forall|j: int| #[trigger] self.edges().contains((j, i)) implies marks[j] == Some(
                NodeState::Ready,
            ) by {
                assert(run.marks[j] == Some(NodeState::Ready));
            }
        }
        assert forall|i: int| 0 <= i < self.size() && (#[trigger] marks[i]) is Some implies self.dependencies_ready(
            marks,
            i,
        ) by {
            if i != node {
                assert(run.marks[i] is Some);
            }
            assert(self.dependencies_ready(run.marks, i));
        }
        assert forall|i: int| #[trigger] rest.contains(i) implies self.is_runnable(marks, i) by {
            let k = rest.index_of(i);
            assert(run.queue[k + 1] == i);
            assert(run.queue.contains(i));
            assert(i != node);
            assert(self.dependencies_ready(run.marks, i));
        }
        assert forall|i: int| #[trigger] self.is_runnable(marks, i) && !(run.progressed
            || state is Ready) implies rest.contains(i) by {
            assert(self.dependencies_ready(run.marks, i)) by {
                assert forall|j: int| #[trigger] self.edges().contains((j, i)) implies run.marks[j]
                    == Some(NodeState::Ready) by {
                    assert(marks[j] == Some(NodeState::Ready));
                }
            }
            assert(self.is_runnable(run.marks, i));
            let k = run.queue.index_of(i);
            assert(run.queue[k] == i);
            assert(rest[k - 1] == i);
        }
    }

    /// Goes on with a run after its node was reconciled. A node's own error ends the run.
    pub fn resume<E>(&self, run: WorkflowRun, result: Result<NodeState, E>) -> (step: Result<
        RunStep,
        WorkflowError<E>,
    >)
        requires
            self.valid_run(run@),
        ensures
            match result {
                Ok(state) => step is Ok && self.leads_to(
                    step->Ok_0,
                    run@.marks.update(run@.queue[0], Some(state)),
                    run@.queue.drop_first(),
                    run@.progressed || state is Ready,
                    run@.observed_generation,
                ),
                Err(error) => step == Err::<RunStep, _>(WorkflowError::Reconciler(error)),
            },
    {
        let state = match result {
            Ok(state) => state,
            Err(error) => return Err(WorkflowError::Reconciler(error)),
        };
        let mut run = run;
        let ghost before = run@;
        proof {
            use_type_invariant(self);
            self.lemma_report(before, state);
            assert(before.queue.contains(before.queue[0]));
        }
        let node = run.node();
        run.marks.set(node, Some(state));
        if let NodeState::Ready = state {
            run.progressed = true;
        }
        assert(run.at < run.frontier.len());
        run.at = run.at + 1;
        proof {
            assert(run@.queue =~= before.queue.drop_first());
        }
        Ok(self.proceed(run))
    }
}

}
