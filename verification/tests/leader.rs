use ech_k8s::leader::{LeaderEvent, LeaderState, Reaction, TaskAction};
use ech_k8s::LeaderSettings;

const NOTHING: Reaction = Reaction { cancel_shutdown: false, task: TaskAction::Keep };

/// Takes in events, and returns the last state, the reactions and the most tasks that ran at once.
fn run(events: &[LeaderEvent]) -> (LeaderState, Vec<Reaction>, i32) {
    let mut state = LeaderState::new();
    let mut reactions = Vec::new();
    let mut tasks = 0;
    let mut most = 0;
    for event in events {
        let ends = state == LeaderState::Leading && *event == LeaderEvent::TaskExited;
        let (next, reaction) = state.step(*event);
        match reaction.task {
            TaskAction::Start => tasks += 1,
            TaskAction::Stop => tasks -= 1,
            TaskAction::Keep => {}
        }
        if ends {
            tasks -= 1;
        }
        most = most.max(tasks);
        assert_eq!(tasks, if next == LeaderState::Leading { 1 } else { 0 });
        state = next;
        reactions.push(reaction);
    }
    (state, reactions, most)
}

#[test]
fn lease_starts_and_stops_the_task() {
    let (state, reactions, most) = run(&[
        LeaderEvent::Lease(false),
        LeaderEvent::Lease(true),
        LeaderEvent::Lease(true),
        LeaderEvent::Lease(false),
        LeaderEvent::Lease(true),
        LeaderEvent::Shutdown,
    ]);
    assert_eq!(state, LeaderState::Exited);
    assert_eq!(most, 1);
    let tasks: Vec<TaskAction> = reactions.iter().map(|r| r.task).collect();
    assert_eq!(
        tasks,
        [
            TaskAction::Keep,
            TaskAction::Start,
            TaskAction::Keep,
            TaskAction::Stop,
            TaskAction::Start,
            TaskAction::Stop,
        ]
    );
    assert!(reactions.iter().all(|r| !r.cancel_shutdown));
}

#[test]
fn shutdown_before_the_lease_exits() {
    let (state, reactions, _) = run(&[LeaderEvent::Shutdown]);
    assert_eq!(state, LeaderState::Exited);
    assert_eq!(reactions, [NOTHING]);
}

#[test]
fn end_of_the_task_shuts_everything_down() {
    let (state, reactions, _) = run(&[LeaderEvent::Lease(true), LeaderEvent::TaskExited]);
    assert_eq!(state, LeaderState::Exited);
    assert_eq!(reactions[1], Reaction { cancel_shutdown: true, task: TaskAction::Keep });
}

#[test]
fn closed_lease_shuts_everything_down() {
    let (state, reactions, _) = run(&[LeaderEvent::LeaseClosed]);
    assert_eq!(state, LeaderState::Exited);
    assert_eq!(reactions[0], Reaction { cancel_shutdown: true, task: TaskAction::Keep });

    let (state, reactions, _) = run(&[LeaderEvent::Lease(true), LeaderEvent::LeaseClosed]);
    assert_eq!(state, LeaderState::Exited);
    assert_eq!(reactions[1], Reaction { cancel_shutdown: true, task: TaskAction::Stop });
}

#[test]
fn nothing_happens_after_an_exit() {
    let (state, reactions, _) = run(&[
        LeaderEvent::Shutdown,
        LeaderEvent::Lease(true),
        LeaderEvent::TaskExited,
        LeaderEvent::LeaseClosed,
        LeaderEvent::Lease(false),
        LeaderEvent::Shutdown,
    ]);
    assert_eq!(state, LeaderState::Exited);
    assert!(reactions.iter().all(|r| *r == NOTHING));
}

#[test]
fn end_of_a_task_that_does_not_run_is_passed_over() {
    let (state, reactions, _) = run(&[LeaderEvent::TaskExited]);
    assert_eq!(state, LeaderState::Idle);
    assert_eq!(reactions, [NOTHING]);
}

#[test]
fn settings_can_be_copied() {
    let settings = LeaderSettings {
        lease_namespace: "ns".to_string(),
        lease_name: "lease".to_string(),
        holder_id: "me".to_string(),
        lease_duration_seconds: 30,
        lease_grace_seconds: 5,
    };
    let copy = settings.clone();
    assert_eq!(format!("{copy:?}"), format!("{settings:?}"));
}

#[test]
fn no_task_runs_without_the_lease() {
    let events = [
        LeaderEvent::Lease(true),
        LeaderEvent::Lease(false),
        LeaderEvent::TaskExited,
        LeaderEvent::Lease(false),
    ];
    let (state, reactions, _) = run(&events);
    assert_eq!(state, LeaderState::Idle);
    assert_eq!(reactions[1].task, TaskAction::Stop);
    assert_eq!(reactions[2..], [NOTHING, NOTHING]);
}

#[test]
fn runner_without_a_lease_manager_fails_at_once() {
    assert_eq!(LeaderState::begin::<u8>(Ok(())), Ok(LeaderState::Idle));
    assert_eq!(LeaderState::begin(Err(4)), Err(4));
}

#[test]
fn exit_is_no_failure() {
    assert_eq!(LeaderState::Idle.outcome::<u8>(), None);
    assert_eq!(LeaderState::Leading.outcome::<u8>(), None);
    assert_eq!(LeaderState::Exited.outcome::<u8>(), Some(Ok(())));
}
