use ech_k8s::workflow::cleanup::CleanupStep;
use ech_k8s::workflow::run::{reconciler_error_message, RunStep};
use ech_k8s::workflow::WorkflowStatus;
use ech_k8s::{Graph, GraphError, NodeKey, NodeState, Scheduler, WorkflowError};
use std::any::TypeId;
use std::collections::HashMap;

struct Node;

fn key(data: &str) -> NodeKey {
    NodeKey::from_value(TypeId::of::<Node>(), data.to_string())
}

fn graph(nodes: &[(&'static str, &[&str])]) -> Graph<&'static str> {
    let mut graph = Graph::new();
    for (name, deps) in nodes {
        let deps = deps.iter().map(|d| key(d)).collect();
        assert!(graph.add(key(name), *name, deps).is_ok());
    }
    graph
}

fn scheduler(nodes: &[(&'static str, &[&str])]) -> Scheduler<&'static str> {
    let graph = graph(nodes);
    assert!(graph.fits());
    Scheduler::new(graph).unwrap()
}

/// Runs a workflow in which the given nodes are pending, and returns the order in which nodes
/// were reconciled and the status.
fn run(
    scheduler: &Scheduler<&'static str>,
    pending: &[&str],
    generation: Option<i64>,
) -> (Vec<&'static str>, WorkflowStatus) {
    let mut order = Vec::new();
    let mut step = scheduler.run(generation);
    loop {
        match step {
            RunStep::Finish(status) => return (order, status),
            RunStep::Reconcile(run) => {
                let name = *scheduler.record(run.node());
                order.push(name);
                let state = if pending.contains(&name) {
                    NodeState::Pending
                } else {
                    NodeState::Ready
                };
                step = scheduler.resume::<String>(run, Ok(state)).unwrap();
            }
        }
    }
}

fn cleanup(scheduler: &Scheduler<&'static str>) -> Vec<&'static str> {
    let mut order = Vec::new();
    let mut step = scheduler.cleanup();
    loop {
        match step {
            CleanupStep::Finish => return order,
            CleanupStep::Cleanup(run) => {
                order.push(*scheduler.record(run.node()));
                step = scheduler.resume_cleanup::<String>(run, Ok(())).unwrap();
            }
        }
    }
}

fn text(data: &str) -> String {
    format!("NodeKey {{ kind: {:?}, data: {:?} }}", TypeId::of::<Node>(), data)
}

const DIAMOND: &[(&str, &[&str])] = &[
    ("deploy", &["config", "secret"]),
    ("config", &["prune"]),
    ("secret", &["prune"]),
    ("prune", &[]),
];

#[test]
fn key_text_shows_kind_and_quoted_data() {
    assert_eq!(key("a").text(), text("a"));
    assert_eq!(key("{\"a\":\"b\\n\"}").text(), text("{\"a\":\"b\\n\"}"));
    assert_eq!(key("tab\tquote\"").text(), text("tab\tquote\""));
}

#[test]
fn keys_are_equal_in_kind_and_data() {
    assert!(key("a").same(&key("a")));
    assert!(!key("a").same(&key("b")));
    let other = NodeKey::from_value(TypeId::of::<u8>(), "a".to_string());
    assert!(!key("a").same(&other));
    assert_eq!(key("a").clone(), key("a"));
    assert_ne!(key("a"), other);
}

#[test]
fn nodes_of_different_kinds_may_share_data() {
    let mut graph = Graph::new();
    assert!(graph.add(key("null"), 1, vec![]).is_ok());
    let other = NodeKey::from_value(TypeId::of::<u8>(), "null".to_string());
    assert!(graph.add(other, 2, vec![]).is_ok());
    assert_eq!(graph.len(), 2);
}

#[test]
fn duplicate_node_is_refused_and_changes_nothing() {
    let mut graph = graph(&[("a", &[]), ("b", &["a"])]);
    match graph.add(key("a"), "again", vec![key("b")]) {
        Err(error @ GraphError::DuplicateNode(_)) => {
            assert_eq!(error.message(), format!("duplicate node declared: {}", text("a")));
        }
        _ => panic!("a key that is taken was accepted"),
    }
    assert_eq!(graph.len(), 2);
    let scheduler = Scheduler::new(graph).unwrap();
    assert_eq!(*scheduler.record(0), "a");
    assert_eq!(scheduler.key(1).text(), text("b"));
}

#[test]
fn missing_dependency_names_the_first_one() {
    let graph = graph(&[("a", &[]), ("b", &["a", "x", "y"]), ("c", &["z"])]);
    match Scheduler::new(graph) {
        Err(error) => {
            assert_eq!(
                error.message(),
                format!("missing dependency {} for node {}", text("x"), text("b"))
            );
            assert!(matches!(error, GraphError::MissingDependency { .. }));
        }
        Ok(_) => panic!("a dependency that is not declared was accepted"),
    }
}

#[test]
fn missing_dependency_comes_before_a_cycle() {
    let graph = graph(&[("a", &["a"]), ("b", &["x"])]);
    assert!(matches!(
        Scheduler::new(graph),
        Err(GraphError::MissingDependency { .. })
    ));
}

/// Asserts that a graph is refused at one of the nodes that lie on its cycle.
fn assert_cycle(nodes: &[(&'static str, &[&str])], cycle: &[&str]) {
    match Scheduler::new(graph(nodes)) {
        Err(error) => {
            let messages: Vec<String> = cycle
                .iter()
                .map(|name| format!("cycle detected at node: {}", text(name)))
                .collect();
            assert!(messages.contains(&error.message()));
            assert!(matches!(error, GraphError::CycleDetected(_)));
        }
        Ok(_) => panic!("a cycle was accepted"),
    }
}

#[test]
fn self_dependency_is_a_cycle() {
    assert_cycle(&[("a", &["a"])], &["a"]);
    assert_cycle(&[("a", &[]), ("b", &["b"])], &["b"]);
    assert_cycle(&[("first", &[]), ("a", &["first", "a"])], &["a"]);
}

#[test]
fn mutual_dependency_is_a_cycle() {
    assert_cycle(&[("a", &["b"]), ("b", &["a"])], &["a", "b"]);
    assert_cycle(&[("a", &[]), ("b", &["c"]), ("c", &["b"])], &["b", "c"]);
}

#[test]
fn long_cycle_is_detected() {
    assert_cycle(
        &[
            ("root", &[]),
            ("a", &["c", "root"]),
            ("b", &["a"]),
            ("c", &["b"]),
            ("leaf", &["c"]),
        ],
        &["a", "b", "c"],
    );
}

#[test]
fn forward_references_are_no_cycle() {
    let scheduler = scheduler(DIAMOND);
    assert_eq!(scheduler.len(), 4);
}

#[test]
fn repeated_dependency_counts_once() {
    let scheduler = scheduler(&[("a", &[]), ("b", &["a", "a"])]);
    let (order, status) = run(&scheduler, &[], None);
    assert_eq!(order, ["a", "b"]);
    assert_eq!(status.ready, Some(true));
}

#[test]
fn nodes_run_after_their_dependencies() {
    let scheduler = scheduler(DIAMOND);
    let (order, status) = run(&scheduler, &[], Some(7));
    assert_eq!(order, ["prune", "config", "secret", "deploy"]);
    assert_eq!(
        status,
        WorkflowStatus {
            observed_generation: Some(7),
            phase: Some("Ready".to_string()),
            ready: Some(true),
            total_nodes: Some(4),
            completed_nodes: Some(4),
            pending_nodes: Some(0),
            pending: vec![],
            message: Some("all workflow nodes are ready".to_string()),
        }
    );
}

#[test]
fn pending_node_holds_back_its_dependents() {
    let scheduler = scheduler(DIAMOND);
    let (order, status) = run(&scheduler, &["secret"], None);
    assert_eq!(order, ["prune", "config", "secret"]);
    assert_eq!(
        status,
        WorkflowStatus {
            observed_generation: None,
            phase: Some("Progressing".to_string()),
            ready: Some(false),
            total_nodes: Some(4),
            completed_nodes: Some(2),
            pending_nodes: Some(2),
            pending: vec![text("deploy"), text("secret")],
            message: Some("2 of 4 workflow nodes are ready".to_string()),
        }
    );
}

#[test]
fn pending_root_leaves_everything_pending() {
    let scheduler = scheduler(DIAMOND);
    let (order, status) = run(&scheduler, &["prune"], Some(1));
    assert_eq!(order, ["prune"]);
    assert_eq!(
        status,
        WorkflowStatus {
            observed_generation: Some(1),
            phase: Some("Pending".to_string()),
            ready: Some(false),
            total_nodes: Some(4),
            completed_nodes: Some(0),
            pending_nodes: Some(4),
            pending: vec![text("config"), text("deploy"), text("prune"), text("secret")],
            message: Some("waiting for workflow dependencies".to_string()),
        }
    );
}

#[test]
fn empty_workflow_is_ready() {
    let scheduler = scheduler(&[]);
    let (order, status) = run(&scheduler, &[], None);
    assert!(order.is_empty());
    assert_eq!(status.phase.as_deref(), Some("Ready"));
    assert_eq!(status.total_nodes, Some(0));
    assert!(cleanup(&scheduler).is_empty());
}

#[test]
fn each_node_is_reconciled_at_most_once() {
    let scheduler = scheduler(&[("a", &[]), ("b", &[]), ("c", &["a"]), ("d", &["b", "c"])]);
    for pending in [&[][..], &["a"], &["b"], &["c"], &["a", "b"], &["d"]] {
        let (order, _) = run(&scheduler, pending, None);
        let mut seen: HashMap<&str, usize> = HashMap::new();
        for name in order {
            *seen.entry(name).or_default() += 1;
        }
        assert!(seen.values().all(|n| *n == 1));
    }
}

#[test]
fn message_counts_in_decimal() {
    let nodes: Vec<String> = (0..12).map(|i| format!("n{i:02}")).collect();
    let mut graph = Graph::new();
    for name in &nodes {
        assert!(graph.add(key(name), name.clone(), vec![]).is_ok());
    }
    let scheduler = Scheduler::new(graph).unwrap();
    let mut step = scheduler.run(None);
    let status = loop {
        match step {
            RunStep::Finish(status) => break status,
            RunStep::Reconcile(run) => {
                let state = if run.node() == 11 {
                    NodeState::Pending
                } else {
                    NodeState::Ready
                };
                step = scheduler.resume::<String>(run, Ok(state)).unwrap();
            }
        }
    };
    assert_eq!(status.message.as_deref(), Some("11 of 12 workflow nodes are ready"));
    assert_eq!(status.pending, [text("n11")]);
}

#[test]
fn error_of_a_node_ends_the_run() {
    let scheduler = scheduler(DIAMOND);
    match scheduler.run(None) {
        RunStep::Reconcile(run) => {
            match scheduler.resume(run, Err("boom".to_string())) {
                Err(WorkflowError::Reconciler(error)) => assert_eq!(error, "boom"),
                _ => panic!("the error was passed over"),
            };
        }
        RunStep::Finish(_) => panic!("nothing was reconciled"),
    }
}

#[test]
fn cleanup_goes_from_dependents_to_dependencies() {
    let scheduler = scheduler(&[
        ("prune", &[]),
        ("config", &["prune"]),
        ("secret", &["prune"]),
        ("deploy", &["config", "secret"]),
    ]);
    let order = cleanup(&scheduler);
    assert_eq!(order.len(), 4);
    let at = |name: &str| order.iter().position(|n| *n == name).unwrap();
    assert!(at("deploy") < at("config"));
    assert!(at("deploy") < at("secret"));
    assert!(at("config") < at("prune"));
    assert!(at("secret") < at("prune"));
    assert!(at("deploy") < at("prune"));
}

#[test]
fn node_that_is_named_before_it_is_declared_is_cleaned_up_twice() {
    let scheduler = scheduler(DIAMOND);
    let order = cleanup(&scheduler);
    let times = |name: &str| order.iter().filter(|n| **n == name).count();
    assert_eq!(times("deploy"), 1);
    assert_eq!(times("config"), 2);
    assert_eq!(times("secret"), 2);
    assert_eq!(times("prune"), 2);
    let first = |name: &str| order.iter().position(|n| *n == name).unwrap();
    let last = |name: &str| order.iter().rposition(|n| *n == name).unwrap();
    assert!(first("deploy") < last("config"));
    assert!(first("deploy") < last("secret"));
    assert!(first("config") < last("prune"));
    assert!(first("secret") < last("prune"));
}

#[test]
fn pair_declared_dependent_first_is_cleaned_up_in_three_steps() {
    let order = cleanup(&scheduler(&[("b", &["a"]), ("a", &[])]));
    assert_eq!(order, ["b", "a", "a"]);
}

#[test]
fn error_of_a_node_ends_the_cleanup() {
    let scheduler = scheduler(&[("a", &[]), ("b", &["a"])]);
    match scheduler.cleanup() {
        CleanupStep::Cleanup(run) => {
            assert_eq!(*scheduler.record(run.node()), "b");
            assert!(matches!(
                scheduler.resume_cleanup(run, Err(5)),
                Err(WorkflowError::Reconciler(5))
            ));
        }
        CleanupStep::Finish => panic!("nothing was cleaned up"),
    }
}

#[test]
fn message_of_a_node_error_holds_its_cause() {
    assert_eq!(reconciler_error_message("boom"), "reconciler failed: boom");
}

#[test]
fn graph_error_becomes_a_workflow_error() {
    let error: WorkflowError<u8> = WorkflowError::from(GraphError::CycleDetected(key("a")));
    assert!(matches!(error, WorkflowError::Graph(GraphError::CycleDetected(_))));
}

#[test]
fn status_can_be_copied() {
    let scheduler = scheduler(DIAMOND);
    let (_, status) = run(&scheduler, &["secret"], Some(3));
    assert_eq!(status.clone(), status);
    assert_eq!(WorkflowStatus::default().pending_nodes, None);
}

#[test]
fn order_of_declaration_does_not_change_the_outcome() {
    let forward = scheduler(&[("a", &[]), ("b", &[]), ("c", &["a"]), ("d", &["b", "c"])]);
    let backward = scheduler(&[("d", &["b", "c"]), ("c", &["a"]), ("b", &[]), ("a", &[])]);
    for pending in [&[][..], &["a"], &["b"], &["c"], &["a", "b"], &["d"]] {
        let (mut first, status) = run(&forward, pending, Some(2));
        let (mut second, same) = run(&backward, pending, Some(2));
        assert_eq!(status, same);
        first.sort();
        second.sort();
        assert_eq!(first, second);
    }
}

#[test]
fn status_counts_add_up() {
    let scheduler = scheduler(DIAMOND);
    for pending in [&[][..], &["prune"], &["config"], &["config", "secret"], &["deploy"]] {
        let (_, status) = run(&scheduler, pending, None);
        let (done, left) = (status.completed_nodes.unwrap(), status.pending_nodes.unwrap());
        assert_eq!(Some(done + left), status.total_nodes);
        assert_eq!(left, status.pending.len() as i64);
        assert_eq!(status.ready, Some(status.pending.is_empty()));
    }
}

#[test]
fn repeated_dependencies_do_not_show_in_the_status() {
    let once = scheduler(&[("a", &[]), ("b", &["a"]), ("c", &["a", "b"])]);
    let twice = scheduler(&[("c", &["b", "a", "b"]), ("b", &["a", "a"]), ("a", &[])]);
    for pending in [&[][..], &["a"], &["b"], &["c"]] {
        assert_eq!(run(&once, pending, Some(1)).1, run(&twice, pending, Some(1)).1);
    }
}

#[test]
fn node_is_ready_where_everything_below_it_is() {
    let scheduler = scheduler(&[("a", &[]), ("b", &["a"]), ("c", &["b"]), ("d", &[])]);
    let (_, status) = run(&scheduler, &["b"], None);
    assert_eq!(status.pending, [text("b"), text("c")]);
    let (_, status) = run(&scheduler, &["a"], None);
    assert_eq!(status.pending, [text("a"), text("b"), text("c")]);
}
