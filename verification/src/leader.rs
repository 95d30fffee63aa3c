//! Leadership: the task of the leader runs as long as the lease is held.
use vstd::prelude::*;

verus! {

/// How the lease is held.
#[derive(Debug)]
pub struct LeaderSettings {
    pub lease_namespace: String,
    pub lease_name: String,
    pub holder_id: String,
    pub lease_duration_seconds: u64,
    pub lease_grace_seconds: u64,
}

impl Clone for LeaderSettings {
    fn clone(&self) -> (r: Self)
        ensures
            r == *self,
    {
        LeaderSettings {
            lease_namespace: self.lease_namespace.clone(),
            lease_name: self.lease_name.clone(),
            holder_id: self.holder_id.clone(),
            lease_duration_seconds: self.lease_duration_seconds,
            lease_grace_seconds: self.lease_grace_seconds,
        }
    }
}

/// Where the runner stands.
#[derive(Clone, Copy, Debug, PartialEq, Eq, Structural)]
pub enum LeaderState {
    /// The lease is not held, and no task runs.
    Idle,
    /// The lease is held, and the task runs.
    Leading,
    /// The runner is done, and no task runs.
    Exited,
}

/// What happens to the runner.
#[derive(Clone, Copy, Debug, PartialEq, Eq, Structural)]
pub enum LeaderEvent {
    /// A shutdown was asked for.
    Shutdown,
    /// The task ended by itself.
    TaskExited,
    /// There will be no more news of the lease.
    LeaseClosed,
    /// The lease is held now, or not.
    Lease(bool),
}

/// What the runner does with the task.
#[derive(Clone, Copy, Debug, PartialEq, Eq, Structural)]
pub enum TaskAction {
    /// Nothing.
    Keep,
    /// Start it.
    Start,
    /// Cancel it, and wait until it has ended.
    Stop,
}

/// What the runner does about an event.
#[derive(Clone, Copy, Debug, PartialEq, Eq, Structural)]
pub struct Reaction {
    /// Whether everything else is asked to shut down, before anything is done with the task.
    pub cancel_shutdown: bool,
    pub task: TaskAction,
}

impl LeaderState {
    /// The state after an event.
    pub open spec fn next(self, event: LeaderEvent) -> LeaderState {
        match (self, event) {
            (LeaderState::Exited, _) => LeaderState::Exited,
            (LeaderState::Idle, LeaderEvent::TaskExited) => LeaderState::Idle,
            (_, LeaderEvent::Lease(true)) => LeaderState::Leading,
            (_, LeaderEvent::Lease(false)) => LeaderState::Idle,
            _ => LeaderState::Exited,
        }
    }

    /// Whether the task ends by an event, without being stopped.
    pub open spec fn task_ends(self, event: LeaderEvent) -> bool {
        self is Leading && event is TaskExited
    }

    /// What is done about an event: the task is started when the runner begins to lead, and
    /// stopped when the runner leaves off while the task still runs. Everything else is asked to
    /// shut down where the runner exits without having been asked to.
    pub open spec fn reaction(self, event: LeaderEvent) -> Reaction {
        let next = self.next(event);
        Reaction {
            cancel_shutdown: self !is Exited && next is Exited && event !is Shutdown,
            task: if self !is Leading && next is Leading {
                TaskAction::Start
            } else if self is Leading && next !is Leading && !self.task_ends(event) {
                TaskAction::Stop
            } else {
                TaskAction::Keep
            },
        }
    }

    /// The state of a runner that begins.
    pub fn new() -> (state: LeaderState)
        ensures
            state == LeaderState::Idle,
    {
        LeaderState::Idle
    }

    /// Begins once the manager of the lease was made, or could not be made: the runner then fails
    /// at once.
    pub fn begin<E>(manager: Result<(), E>) -> (r: Result<LeaderState, E>)
        ensures
            match manager {
                Ok(_) => r == Ok::<_, E>(LeaderState::Idle),
                Err(error) => r == Err::<LeaderState, _>(error),
            },
    {
        match manager {
            Ok(()) => Ok(LeaderState::new()),
            Err(error) => Err(error),
        }
    }

    /// What came of the runner, once it has exited: however that came about, it is no failure.
    pub fn outcome<E>(self) -> (r: Option<Result<(), E>>)
        ensures
            r == if self is Exited {
                Some(Ok::<(), E>(()))
            } else {
                None
            },
    {
        match self {
            LeaderState::Exited => Some(Ok(())),
            _ => None,
        }
    }

    /// Takes an event in: the state after it, and what is done about it. An end of the task is
    /// passed over where no task runs, and so is everything once the runner has exited.
    pub fn step(self, event: LeaderEvent) -> (r: (LeaderState, Reaction))
        ensures
            r.0 == self.next(event),
            r.1 == self.reaction(event),
    {
        let nothing = Reaction { cancel_shutdown: false, task: TaskAction::Keep };
        match (self, event) {
            (LeaderState::Exited, _) => (LeaderState::Exited, nothing),
            (LeaderState::Idle, LeaderEvent::TaskExited) => (LeaderState::Idle, nothing),
            (LeaderState::Idle, LeaderEvent::Lease(true)) => (
                LeaderState::Leading,
                Reaction { cancel_shutdown: false, task: TaskAction::Start },
            ),
            (LeaderState::Idle, LeaderEvent::Lease(false)) => (LeaderState::Idle, nothing),
            (LeaderState::Idle, LeaderEvent::Shutdown) => (LeaderState::Exited, nothing),
            (LeaderState::Idle, LeaderEvent::LeaseClosed) => (
                LeaderState::Exited,
                Reaction { cancel_shutdown: true, task: TaskAction::Keep },
            ),
            (LeaderState::Leading, LeaderEvent::TaskExited) => (
                LeaderState::Exited,
                Reaction { cancel_shutdown: true, task: TaskAction::Keep },
            ),
            (LeaderState::Leading, LeaderEvent::Lease(true)) => (LeaderState::Leading, nothing),
            (LeaderState::Leading, LeaderEvent::Lease(false)) => (
                LeaderState::Idle,
                Reaction { cancel_shutdown: false, task: TaskAction::Stop },
            ),
            (LeaderState::Leading, LeaderEvent::Shutdown) => (
                LeaderState::Exited,
                Reaction { cancel_shutdown: false, task: TaskAction::Stop },
            ),
            (LeaderState::Leading, LeaderEvent::LeaseClosed) => (
                LeaderState::Exited,
                Reaction { cancel_shutdown: true, task: TaskAction::Stop },
            ),
        }
    }
}

/// The state of a runner that took in these events.
pub open spec fn state_after(events: Seq<LeaderEvent>) -> LeaderState
    decreases events.len(),
{
    if events.len() == 0 {
        LeaderState::Idle
    } else {
        state_after(events.drop_last()).next(events.last())
    }
}

/// The number of tasks that run after these events: those that were started, less those that
/// were stopped or ended by themselves.
pub open spec fn tasks_after(events: Seq<LeaderEvent>) -> int
    decreases events.len(),
{
    if events.len() == 0 {
        0
    } else {
        let before = state_after(events.drop_last());
        let started: int = if before.reaction(events.last()).task is Start {
            1
        } else {
            0
        };
        let ended: int = if before.reaction(events.last()).task is Stop || before.task_ends(
            events.last(),
        ) {
            1
        } else {
            0
        };
        tasks_after(events.drop_last()) + started - ended
    }
}

/// Whether the last news of the lease was that it is held.
pub open spec fn lease_held(events: Seq<LeaderEvent>) -> bool
    decreases events.len(),
{
    if events.len() == 0 {
        false
    } else {
        match events.last() {
            LeaderEvent::Lease(held) => held,
            _ => lease_held(events.drop_last()),
        }
    }
}

/// There is never more than one task, and there is one exactly as long as the runner leads.
pub proof fn at_most_one_task(events: Seq<LeaderEvent>)
    ensures
        tasks_after(events) == if state_after(events) is Leading {
            1int
        } else {
            0int
        },
    decreases events.len(),
{
    if events.len() > 0 {
        at_most_one_task(events.drop_last());
    }
}

/// A task runs only while the lease is held: where the last news is that it is not, none does.
pub proof fn tasks_run_under_the_lease(events: Seq<LeaderEvent>)
    ensures
        state_after(events) is Leading ==> lease_held(events),
        !lease_held(events) ==> tasks_after(events) == 0,
    decreases events.len(),
{
    at_most_one_task(events);
    if events.len() > 0 {
        tasks_run_under_the_lease(events.drop_last());
    }
}

/// A runner that has exited stays so: no task runs, whatever happens, and nothing is done.
pub proof fn exit_is_final(before: Seq<LeaderEvent>, after: Seq<LeaderEvent>, event: LeaderEvent)
    requires
        state_after(before) is Exited,
    ensures
        state_after(before + after) is Exited,
        tasks_after(before + after) == 0,
        state_after(before + after).reaction(event) == (Reaction {
            cancel_shutdown: false,
            task: TaskAction::Keep,
        }),
    decreases after.len(),
{
    if after.len() > 0 {
        exit_is_final(before, after.drop_last(), event);
        assert((before + after).drop_last() =~= before + after.drop_last());
    } else {
        assert(before + after =~= before);
    }
    at_most_one_task(before + after);
}

/// An exit stops the task that runs, and leaves nothing running: everything else shuts down too,
/// because it was asked to or because it is asked now.
pub proof fn exit_shuts_everything_down(state: LeaderState, event: LeaderEvent)
    requires
        state !is Exited,
        state.next(event) is Exited,
    ensures
        event is Shutdown || state.reaction(event).cancel_shutdown,
        state is Leading ==> state.reaction(event).task is Stop || event is TaskExited,
{
}

/// Whether, of the first `k` events, the one at `m` is the last that brings news of the lease, and
/// says that it is held.
pub open spec fn held_since(events: Seq<LeaderEvent>, m: int, k: int) -> bool {
    &&& 0 <= m < k
    &&& events[m] == LeaderEvent::Lease(true)
    &&& forall|j: int| m < j < k ==> (#[trigger] events[j]) !is Lease
}

/// Whether the runner is to exit by the event at a position: it is asked to shut down, there will be
/// no more news of the lease, or the task ended by itself while the lease was held.
pub open spec fn is_last(events: Seq<LeaderEvent>, k: int) -> bool {
    ||| events[k] is Shutdown
    ||| events[k] is LeaseClosed
    ||| events[k] is TaskExited && exists|m: int| #[trigger] held_since(events, m, k)
}

/// The lease is held if and only if the last news of it says so.
pub proof fn the_last_news_of_the_lease_counts(events: Seq<LeaderEvent>)
    ensures
        lease_held(events) <==> exists|m: int| #[trigger]
            held_since(events, m, events.len() as int),
    decreases events.len(),
{
    if events.len() > 0 {
        let before = events.drop_last();
        let last = events.len() - 1;
        the_last_news_of_the_lease_counts(before);
        match events.last() {
            LeaderEvent::Lease(held) => {
                if held {
                    assert(held_since(events, last, last + 1));
                }
                if exists|m: int| #[trigger] held_since(events, m, last + 1) {
                    let m = choose|m: int| #[trigger] held_since(events, m, last + 1);
                    if m < last {
                        assert(events[last] !is Lease);
                    }
                }
            },
            _ => {
                if lease_held(before) {
                    let m = choose|m: int| #[trigger] held_since(before, m, last);
                    lemma_held_before(events, before, m, last);
                    assert(held_since(events, m, last + 1));
                }
                if exists|m: int| #[trigger] held_since(events, m, last + 1) {
                    let m = choose|m: int| #[trigger] held_since(events, m, last + 1);
                    assert(held_since(events, m, last));
                    lemma_held_before(events, before, m, last);
                }
            },
        }
    }
}

proof fn lemma_held_before(a: Seq<LeaderEvent>, b: Seq<LeaderEvent>, m: int, k: int)
    requires
        0 <= k <= a.len(),
        k <= b.len(),
        forall|j: int| 0 <= j < k ==> a[j] == b[j],
    ensures
        held_since(a, m, k) <==> held_since(b, m, k),
{
}

proof fn lemma_is_last(events: Seq<LeaderEvent>, k: int)
    requires
        0 <= k < events.len(),
    ensures
        is_last(events, k) <==> events[k] is Shutdown || events[k] is LeaseClosed || (
        events[k] is TaskExited && lease_held(events.take(k))),
{
    let before = events.take(k);
    the_last_news_of_the_lease_counts(before);
    if lease_held(before) {
        let m = choose|m: int| #[trigger] held_since(before, m, k);
        lemma_held_before(before, events, m, k);
    }
    if exists|m: int| #[trigger] held_since(events, m, k) {
        let m = choose|m: int| #[trigger] held_since(events, m, k);
        lemma_held_before(before, events, m, k);
    }
}

/// A runner has exited if and only if one of the events is one by which it is to; until then it
/// leads exactly as long as the last news of the lease is that it is held.
pub proof fn runners_lead_while_the_lease_is_held(events: Seq<LeaderEvent>)
    ensures
        state_after(events) is Exited <==> exists|k: int|
            0 <= k < events.len() && #[trigger] is_last(events, k),
        state_after(events) is Leading <==> lease_held(events) && !(exists|k: int|
            0 <= k < events.len() && #[trigger] is_last(events, k)),
    decreases events.len(),
{
    if events.len() > 0 {
        let before = events.drop_last();
        let last = events.len() - 1;
        runners_lead_while_the_lease_is_held(before);
        assert(events.take(last) =~= before);
        lemma_is_last(events, last);
        assert forall|k: int| 0 <= k < last implies #[trigger] is_last(events, k) == is_last(
            before,
            k,
        ) by {
            lemma_is_last(events, k);
            lemma_is_last(before, k);
            assert(events.take(k) =~= before.take(k));
        }
        if exists|k: int| 0 <= k < before.len() && #[trigger] is_last(before, k) {
            let k = choose|k: int| 0 <= k < before.len() && #[trigger] is_last(before, k);
            assert(is_last(events, k));
        }
        if exists|k: int| 0 <= k < events.len() && #[trigger] is_last(events, k) {
            let k = choose|k: int| 0 <= k < events.len() && #[trigger] is_last(events, k);
            if k < last {
                assert(is_last(before, k));
            }
        }
    }
}

/// What is done about each event in each state: the task is started with the lease and stopped with
/// it, or on a shutdown; it is not stopped where it has ended by itself; and everything else is
/// asked to shut down where the runner exits of its own accord.
pub proof fn reactions_go_by_state_and_event(state: LeaderState, event: LeaderEvent)
    ensures
        state.reaction(event).task is Start <==> state is Idle && event == LeaderEvent::Lease(true),
        state.reaction(event).task is Stop <==> state is Leading && (event == LeaderEvent::Lease(
            false,
        ) || event is Shutdown || event is LeaseClosed),
        state.reaction(event).cancel_shutdown <==> (state !is Exited && event is LeaseClosed) || (
        state is Leading && event is TaskExited),
        state.next(event) is Exited <==> state is Exited || event is Shutdown
            || event is LeaseClosed || (state is Leading && event is TaskExited),
        state.next(event) is Leading <==> state !is Exited && (event == LeaderEvent::Lease(true)
            || (state is Leading && event !is Shutdown && event !is LeaseClosed
            && event !is TaskExited && event != LeaderEvent::Lease(false))),
        state.next(event) is Idle <==> state !is Exited && (event == LeaderEvent::Lease(false) || (
        state is Idle && event is TaskExited)),
{
}

}
