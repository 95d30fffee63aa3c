use ech_k8s::lifecycle::{ok, probe_address, probe_paths, ServiceEvent};
use ech_k8s::meta::ObjectMeta;
use ech_k8s::operator::{
    map_finalizer_error, map_workflow_error, Action, Failure, FinalizerError, FinalizerEvent,
    ReconcileStep,
};
use ech_k8s::workflow::WorkflowStatus;
use ech_k8s::{
    Graph, GraphError, LeaderSettings, NodeKey, NodeState, Operator, OperatorSpec, RuntimeSettings,
    WorkflowError,
};
use std::any::TypeId;
use std::time::Duration;

type Fail = Failure<&'static str, u8>;

fn runtime_settings(health_port: u16) -> RuntimeSettings {
    RuntimeSettings {
        health_port,
        reconcile_interval: Duration::from_secs(30),
        error_backoff: Duration::from_secs(10),
    }
}

fn spec(health_port: u16) -> OperatorSpec<()> {
    OperatorSpec {
        runtime: runtime_settings(health_port),
        leader: LeaderSettings {
            lease_namespace: "ns".to_string(),
            lease_name: "lease".to_string(),
            holder_id: "me".to_string(),
            lease_duration_seconds: 30,
            lease_grace_seconds: 5,
        },
        field_manager: "my-operator",
        workflow: (),
    }
}

fn tokio_runtime() -> tokio::runtime::Runtime {
    tokio::runtime::Builder::new_current_thread().enable_all().build().unwrap()
}

fn client() -> kube::Client {
    let mut config = kube::Config::new("http://localhost:8080".parse().unwrap());
    config.default_namespace = "tools".to_string();
    kube::Client::try_from(config).unwrap()
}

fn node_key(data: &str) -> NodeKey {
    NodeKey::from_value(TypeId::of::<Fail>(), data.to_string())
}

fn chain() -> Graph<&'static str> {
    let mut graph = Graph::new();
    assert!(graph.add(node_key("a"), "a", vec![]).is_ok());
    assert!(graph.add(node_key("b"), "b", vec![node_key("a")]).is_ok());
    graph
}

fn object(namespace: Option<&str>, name: Option<&str>) -> ObjectMeta {
    ObjectMeta {
        name: name.map(String::from),
        generate_name: None,
        namespace: namespace.map(String::from),
        labels: None,
        generation: None,
    }
}

fn words<T>(result: Result<T, Fail>) -> String {
    match result {
        Err(Failure::Text(text)) => text,
        _ => panic!("no failure in words"),
    }
}

/// Reconciles the chain where `b` reports the given state.
fn reconcile(last: NodeState) -> (Vec<&'static str>, WorkflowStatus) {
    let scheduler = Operator::schedule::<_, &str, u8>(Ok(chain())).ok().unwrap();
    let mut step = Operator::begin(FinalizerEvent::Apply, scheduler, Some(4));
    let mut order = Vec::new();
    loop {
        step = match step {
            ReconcileStep::Reconcile(applying) => {
                let name = *applying.record();
                order.push(name);
                let state = if name == "b" { last } else { NodeState::Ready };
                applying.resume::<&str, u8>(Ok(state)).ok().unwrap()
            }
            ReconcileStep::Report(status) => return (order, status),
            _ => panic!("no run"),
        }
    }
}

#[test]
fn finalizer_is_named_after_the_field_manager() {
    assert_eq!(Operator::finalizer_name("my-operator"), "ech.bz/my-operator");
}

#[test]
fn target_is_a_namespace_and_a_name() {
    let target = Operator::target::<&str, u8>(&object(Some("ns"), Some("cr")));
    assert_eq!(target.ok().unwrap(), ("ns".to_string(), "cr".to_string()));
    assert_eq!(
        words(Operator::target(&object(None, None))),
        "CR is missing required metadata field: namespace"
    );
    assert_eq!(
        words(Operator::target(&object(Some("ns"), None))),
        "CR is missing required metadata field: name"
    );
}

#[test]
fn graph_that_cannot_be_scheduled_is_a_failure_in_words() {
    let refused = GraphError::DuplicateNode(node_key("a"));
    let text = refused.message();
    assert_eq!(words(Operator::schedule::<u8, _, _>(Err(refused))), text);

    let mut graph = Graph::new();
    assert!(graph.add(node_key("a"), 1, vec![node_key("a")]).is_ok());
    assert_eq!(
        words(Operator::schedule(Ok(graph))),
        format!("cycle detected at node: {}", node_key("a").text())
    );
}

#[test]
fn ready_workflow_awaits_a_change() {
    let (order, status) = reconcile(NodeState::Ready);
    assert_eq!(order, ["a", "b"]);
    assert_eq!(status.observed_generation, Some(4));
    let action = Operator::reported::<&str, u8>(&status, &runtime_settings(0), Ok(()));
    assert_eq!(action.ok(), Some(Action::AwaitChange));
}

#[test]
fn pending_workflow_is_reconciled_again() {
    let (order, status) = reconcile(NodeState::Pending);
    assert_eq!(order, ["a", "b"]);
    assert_eq!(status.pending.len(), 1);
    let action = Operator::reported::<&str, u8>(&status, &runtime_settings(0), Ok(()));
    assert_eq!(action.ok(), Some(Action::Requeue(Duration::from_secs(30))));
}

#[test]
fn status_that_cannot_be_written_is_a_failure() {
    let (_, status) = reconcile(NodeState::Ready);
    let action = Operator::reported::<&str, u8>(&status, &runtime_settings(0), Err(9));
    assert!(matches!(action, Err(Failure::Api(9))));
}

#[test]
fn own_error_ends_a_reconciliation() {
    let scheduler = Operator::schedule::<_, &str, u8>(Ok(chain())).ok().unwrap();
    match Operator::begin(FinalizerEvent::Apply, scheduler, None) {
        ReconcileStep::Reconcile(applying) => {
            assert!(matches!(
                applying.resume::<&str, u8>(Err("boom")),
                Err(Failure::Own("boom"))
            ));
        }
        _ => panic!("no run"),
    }
}

#[test]
fn empty_workflow_is_reported_at_once() {
    let scheduler = Operator::schedule::<u8, &str, u8>(Ok(Graph::new())).ok().unwrap();
    match Operator::begin(FinalizerEvent::Apply, scheduler, None) {
        ReconcileStep::Report(status) => assert_eq!(status.phase.as_deref(), Some("Ready")),
        _ => panic!("no status"),
    }
    let scheduler = Operator::schedule::<u8, &str, u8>(Ok(Graph::new())).ok().unwrap();
    assert!(matches!(
        Operator::begin(FinalizerEvent::Cleanup, scheduler, None),
        ReconcileStep::Done(Action::AwaitChange)
    ));
}

#[test]
fn cleanup_awaits_a_change() {
    let scheduler = Operator::schedule::<_, &str, u8>(Ok(chain())).ok().unwrap();
    let mut step = Operator::begin(FinalizerEvent::Cleanup, scheduler, None);
    let mut order = Vec::new();
    let action = loop {
        step = match step {
            ReconcileStep::CleanUp(cleaning) => {
                order.push(*cleaning.record());
                cleaning.resume::<&str, u8>(Ok(())).ok().unwrap()
            }
            ReconcileStep::Done(action) => break action,
            _ => panic!("no cleanup"),
        }
    };
    assert_eq!(order, ["b", "a"]);
    assert_eq!(action, Action::AwaitChange);
}

#[test]
fn own_error_ends_a_cleanup() {
    let scheduler = Operator::schedule::<_, &str, u8>(Ok(chain())).ok().unwrap();
    match Operator::begin(FinalizerEvent::Cleanup, scheduler, None) {
        ReconcileStep::CleanUp(cleaning) => {
            assert!(matches!(
                cleaning.resume::<&str, u8>(Err("boom")),
                Err(Failure::Own("boom"))
            ));
        }
        _ => panic!("no cleanup"),
    }
}

#[test]
fn failure_is_tried_again_after_the_backoff() {
    assert_eq!(
        Operator::error_policy(&runtime_settings(0)),
        Action::Requeue(Duration::from_secs(10))
    );
}

#[test]
fn controller_ends_well_only_when_cancelled() {
    assert!(Operator::controller_exit::<&str, u8>(true).is_ok());
    assert_eq!(
        words(Operator::controller_exit(false)),
        "controller stream terminated unexpectedly"
    );
}

#[test]
fn errors_of_workflows_and_finalizers_become_failures() {
    let graph = GraphError::CycleDetected(node_key("a"));
    let text = graph.message();
    assert_eq!(words::<u8>(Err(map_workflow_error(WorkflowError::Graph(graph)))), text);
    assert!(matches!(
        map_workflow_error::<_, u8>(WorkflowError::Reconciler("own")),
        Failure::Own("own")
    ));
    let map = map_finalizer_error::<&str, u8>;
    assert!(matches!(map(FinalizerError::ApplyFailed("own")), Failure::Own("own")));
    assert!(matches!(map(FinalizerError::CleanupFailed("own")), Failure::Own("own")));
    assert!(matches!(map(FinalizerError::AddFinalizer(1)), Failure::Api(1)));
    assert!(matches!(map(FinalizerError::RemoveFinalizer(2)), Failure::Api(2)));
    let other = map(FinalizerError::Other("object has no name".to_string()));
    assert_eq!(words::<u8>(Err(other)), "object has no name");
}

#[test]
fn health_server_runs_on_its_port() {
    let runtime = tokio_runtime();
    let _guard = runtime.enter();
    let starting = Operator::run(&spec(8080));
    assert_eq!(starting.health_port(), Some(8080));
    assert_eq!(probe_address(8080), ("0.0.0.0", 8080));
    let connected = starting.connected::<&str, u8>(Ok(client())).ok().unwrap();
    let ending = connected.led::<&str>(Err("lost"));
    assert!(ending.cancel_shutdown);
    assert!(ending.join_health);
    assert_eq!(ending.result, Err("lost"));
}

#[test]
fn port_zero_means_no_health_server() {
    let runtime = tokio_runtime();
    let _guard = runtime.enter();
    let starting = Operator::run(&spec(0));
    assert_eq!(starting.health_port(), None);
    let ending = starting.connected::<&str, u8>(Ok(client())).ok().unwrap().led::<&str>(Ok(()));
    assert!(ending.cancel_shutdown);
    assert!(!ending.join_health);
    assert_eq!(ending.result, Ok(()));
}

#[test]
fn operator_without_a_client_fails_at_once() {
    let starting = Operator::run(&spec(8080));
    assert!(matches!(starting.connected::<&str, u8>(Err(3)), Err(Failure::Api(3))));
}

#[test]
fn operator_leads_with_its_lease_and_field_manager() {
    let runtime = tokio_runtime();
    let _guard = runtime.enter();
    let spec = spec(0);
    let connected = Operator::run(&spec).connected::<&str, u8>(Ok(client())).ok().unwrap();
    assert_eq!(connected.k8s().field_manager(), "my-operator");
    assert_eq!(connected.k8s().client().default_namespace(), "tools");
    assert_eq!(format!("{:?}", connected.leader()), format!("{:?}", spec.leader));
}

#[test]
fn runtime_settings_can_be_copied() {
    let copy = runtime_settings(8080).clone();
    assert_eq!(copy.health_port, 8080);
    assert_eq!(copy.reconcile_interval, Duration::from_secs(30));
    assert_eq!(copy.error_backoff, Duration::from_secs(10));
}

#[test]
fn failing_probes_and_signals_shut_down() {
    assert!(ServiceEvent::ProbesNotBound.cancels_shutdown());
    assert!(ServiceEvent::ProbesFailed.cancels_shutdown());
    assert!(!ServiceEvent::ProbesStopped.cancels_shutdown());
    assert!(!ServiceEvent::SignalsNotWatched.cancels_shutdown());
    assert!(ServiceEvent::Interrupted.cancels_shutdown());
    assert!(ServiceEvent::Terminated.cancels_shutdown());
    assert_eq!(probe_paths(), ["/healthz", "/readyz"]);
    assert_eq!(ok(), 200);
}
