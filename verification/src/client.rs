//! Clients of a cluster, and the handles for one kind of resource that they give out.
use crate::text::opt_text;
use vstd::prelude::*;

verus! {

/// A client of the Kubernetes API.
#[verifier::external_type_specification]
#[verifier::external_body]
pub struct ExClient(kube::Client);

/// The requests for one kind of resource.
#[verifier::external_type_specification]
#[verifier::external_body]
#[verifier::reject_recursive_types(K)]
pub struct ExApi<K>(kube::Api<K>);

/// The text of the namespace that a client falls back to.
pub uninterp spec fn client_default_namespace(client: kube::Client) -> Seq<char>;

/// `kube::Client::default_namespace`: the namespace that the client was made with.
#[verifier::external_body]
fn default_namespace_of(client: &kube::Client) -> (namespace: String)
    ensures
        namespace@ == client_default_namespace(*client),
{
    client.default_namespace().to_string()
}

/// `kube::Client::clone`: a client that falls back to the same namespace.
pub assume_specification[ <kube::Client as Clone>::clone ](client: &kube::Client) -> (r: kube::Client)
    ensures
        client_default_namespace(r) == client_default_namespace(*client),
;

/// A client that sets fields in the name of a field manager.
pub struct K8sClient {
    field_manager: String,
    client: kube::Client,
}

/// A handle for one kind of resource, in one namespace or in all of them.
#[verifier::reject_recursive_types(T)]
pub struct NamespacedApi<'a, T> {
    client: &'a K8sClient,
    api: kube::Api<T>,
    namespace: Option<String>,
}

impl K8sClient {
    /// The name of the field manager.
    pub closed spec fn manager(self) -> Seq<char> {
        self.field_manager@
    }

    /// The client of the API.
    pub closed spec fn inner(self) -> kube::Client {
        self.client
    }

    /// A client that sets fields in the name of `field_manager`.
    pub fn new(field_manager: &str, client: kube::Client) -> (r: Self)
        ensures
            r.manager() == field_manager@,
            r.inner() == client,
    {
        K8sClient { field_manager: field_manager.to_string(), client }
    }

    /// The client of the API.
    pub fn client(&self) -> (r: &kube::Client)
        ensures
            *r == self.inner(),
    {
        &self.client
    }

    /// The name of the field manager.
    pub fn field_manager(&self) -> (r: &str)
        ensures
            r@ == self.manager(),
    {
        self.field_manager.as_str()
    }

    /// A handle for the resources of all namespaces, over the requests for them.
    pub fn all<T>(&self, api: kube::Api<T>) -> (r: NamespacedApi<'_, T>)
        ensures
            r.owner() == *self,
            r.inner() == api,
            r.namespace() is None,
    {
        NamespacedApi { client: self, api, namespace: None }
    }

    /// A handle for the resources of one namespace, over the requests for them.
    pub fn namespaced<T>(&self, api: kube::Api<T>, namespace: &str) -> (r: NamespacedApi<'_, T>)
        ensures
            r.owner() == *self,
            r.inner() == api,
            r.namespace() == Some(namespace@),
    {
        NamespacedApi { client: self, api, namespace: Some(namespace.to_string()) }
    }

    /// A handle for the resources of the namespace that the client falls back to, over the
    /// requests for them.
    pub fn default_namespaced<T>(&self, api: kube::Api<T>) -> (r: NamespacedApi<'_, T>)
        ensures
            r.owner() == *self,
            r.inner() == api,
            r.namespace() == Some(client_default_namespace(self.inner())),
    {
        NamespacedApi { client: self, api, namespace: Some(default_namespace_of(&self.client)) }
    }
}

impl Clone for K8sClient {
    fn clone(&self) -> (r: Self)
        ensures
            r.manager() == self.manager(),
            client_default_namespace(r.inner()) == client_default_namespace(self.inner()),
    {
        K8sClient { field_manager: self.field_manager.clone(), client: self.client.clone() }
    }
}

impl<'a, T> NamespacedApi<'a, T> {
    /// The client that gave the handle out.
    pub closed spec fn owner(self) -> K8sClient {
        *self.client
    }

    /// The requests for the resources.
    pub closed spec fn inner(self) -> kube::Api<T> {
        self.api
    }

    /// The namespace, if the handle is for one.
    pub closed spec fn namespace(self) -> Option<Seq<char>> {
        opt_text(self.namespace)
    }

    /// The client that gave the handle out.
    pub(crate) fn k8s(&self) -> (r: &K8sClient)
        ensures
            *r == self.owner(),
    {
        self.client
    }

    /// The requests for the resources.
    pub fn api(&self) -> (r: &kube::Api<T>)
        ensures
            *r == self.inner(),
    {
        &self.api
    }

    /// Takes the requests for the resources out of the handle.
    pub fn into_inner(self) -> (r: kube::Api<T>)
        ensures
            r == self.inner(),
    {
        self.api
    }

    /// The namespace, if the handle is for one.
    pub fn namespace_str(&self) -> (r: Option<&str>)
        ensures
            match r {
                Some(namespace) => self.namespace() == Some(namespace@),
                None => self.namespace() is None,
            },
    {
        match &self.namespace {
            Some(namespace) => Some(namespace.as_str()),
            None => None,
        }
    }
}

}
