use ech_k8s::meta::ObjectMeta;
use ech_k8s::resources::{deleted, prune_listed, ApiFailure, Propagation, PruneStep};
use ech_k8s::{CrMeta, CrMetaError, K8sClient, ResourcesExt};
use k8s_openapi::api::apps::v1::Deployment;
use kube::Api;

fn runtime() -> tokio::runtime::Runtime {
    tokio::runtime::Builder::new_current_thread().enable_all().build().unwrap()
}

fn client(namespace: &str) -> kube::Client {
    let mut config = kube::Config::new("http://localhost:8080".parse().unwrap());
    config.default_namespace = namespace.to_string();
    kube::Client::try_from(config).unwrap()
}

fn meta(name: Option<&str>, generate_name: Option<&str>) -> ObjectMeta {
    ObjectMeta {
        name: name.map(String::from),
        generate_name: generate_name.map(String::from),
        namespace: None,
        labels: None,
        generation: None,
    }
}

fn names(names: &[&str]) -> Vec<String> {
    names.iter().map(|n| n.to_string()).collect()
}

#[test]
fn client_gives_out_handles() {
    let runtime = runtime();
    let _guard = runtime.enter();
    let inner = client("tools");
    let k8s = K8sClient::new("my-operator", inner.clone());
    assert_eq!(k8s.field_manager(), "my-operator");
    assert_eq!(k8s.client().default_namespace(), "tools");

    let all = k8s.all(Api::<Deployment>::all(inner.clone()));
    assert_eq!(all.namespace_str(), None);
    assert_eq!(all.api().resource_url(), "/apis/apps/v1/deployments");

    let one = k8s.namespaced(Api::<Deployment>::namespaced(inner.clone(), "ns"), "ns");
    assert_eq!(one.namespace_str(), Some("ns"));
    assert_eq!(one.into_inner().resource_url(), "/apis/apps/v1/namespaces/ns/deployments");

    let fallback = k8s.default_namespaced(Api::<Deployment>::default_namespaced(inner));
    assert_eq!(fallback.namespace_str(), Some("tools"));
}

#[test]
fn copy_of_a_client_keeps_manager_and_namespace() {
    let runtime = runtime();
    let _guard = runtime.enter();
    let k8s = K8sClient::new("my-operator", client("tools")).clone();
    assert_eq!(k8s.field_manager(), "my-operator");
    assert_eq!(k8s.client().default_namespace(), "tools");
}

#[test]
fn requests_say_how_resources_are_handled() {
    let runtime = runtime();
    let _guard = runtime.enter();
    let inner = client("tools");
    let k8s = K8sClient::new("my-operator", inner.clone());
    let handle = k8s.all(Api::<Deployment>::all(inner));

    let resource = Deployment::default();
    let apply = handle.apply("web", &resource);
    assert_eq!(apply.name, "web");
    assert_eq!(*apply.patch.resource, resource);
    assert_eq!(apply.options.field_manager.as_deref(), Some("my-operator"));
    assert!(apply.options.force);
    assert!(!apply.options.dry_run);

    let list = handle.prune("ech.bz/owner=me");
    assert_eq!(list.label_selector.as_deref(), Some("ech.bz/owner=me"));
    assert_eq!(list.field_selector, None);
    assert_eq!(list.limit, None);

    let request = handle.patch_status("web", &"ready");
    assert_eq!(request.name, "web");
    assert_eq!(*request.patch.body.status, "ready");
    assert_eq!(request.options.field_manager, None);
    assert!(!request.options.force);
    assert!(!request.options.dry_run);

    let delete = handle.delete_if_exists("web");
    assert_eq!(delete.name, "web");
    assert_eq!(delete.options.propagation, Some(Propagation::Foreground));
    assert_eq!(delete.options.grace_period_seconds, None);
    assert!(!delete.options.dry_run);
}

#[test]
fn absent_resource_is_as_good_as_deleted() {
    assert_eq!(deleted::<u8>(Ok(())), Ok(()));
    assert_eq!(deleted(Err(ApiFailure::Status { code: 404, error: 1 })), Ok(()));
    assert_eq!(deleted(Err(ApiFailure::Status { code: 409, error: 2 })), Err(2));
    assert_eq!(deleted(Err(ApiFailure::Other(3))), Err(3));
}

#[test]
fn prune_deletes_what_is_not_desired() {
    let listed = vec![
        meta(Some("keep"), None),
        meta(Some("old"), None),
        meta(None, Some("generated-")),
        meta(None, None),
        meta(Some("older"), Some("keep")),
    ];
    let mut doomed = Vec::new();
    let mut step = prune_listed::<u8>(Ok(listed), &names(&["keep", "new"])).unwrap_or(PruneStep::Finish);
    while let PruneStep::Delete(run) = step {
        doomed.push(run.name().to_string());
        let result = if doomed.len() == 1 { Err("refused") } else { Ok(()) };
        step = run.resume(result);
    }
    assert_eq!(doomed, ["old", "generated-", "", "older"]);
}

#[test]
fn prune_without_a_list_deletes_nothing() {
    assert!(matches!(prune_listed(Err(7), &names(&[])), Err(7)));
    assert!(matches!(prune_listed::<u8>(Ok(vec![]), &names(&[])), Ok(PruneStep::Finish)));
}

#[test]
fn custom_resource_has_a_namespace_and_a_name() {
    let mut cr = meta(Some("cr"), None);
    assert_eq!(cr.cr_ns(), Err(CrMetaError::MissingNamespace));
    assert_eq!(cr.cr_name().as_deref(), Ok("cr"));
    cr.namespace = Some("ns".to_string());
    cr.name = None;
    assert_eq!(cr.cr_ns().as_deref(), Ok("ns"));
    assert_eq!(cr.cr_name(), Err(CrMetaError::MissingName));
    assert_eq!(
        CrMetaError::MissingNamespace.message(),
        "CR is missing required metadata field: namespace"
    );
    assert_eq!(
        CrMetaError::MissingName.message(),
        "CR is missing required metadata field: name"
    );
}

#[test]
fn object_is_known_by_its_name_or_prefix() {
    assert_eq!(meta(Some("a"), Some("b")).name_any(), "a");
    assert_eq!(meta(None, Some("b")).name_any(), "b");
    assert_eq!(meta(None, None).name_any(), "");
}
