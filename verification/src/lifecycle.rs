//! The life of an operator: health probes, the connection to the cluster, leadership, shutdown.
use crate::client::K8sClient;
use crate::leader::LeaderSettings;
use crate::operator::{Failure, Operator, OperatorSpec};
use crate::text::texts;
use vstd::prelude::*;

verus! {

/// An operator that connects to the cluster.
pub struct Connecting {
    health_port: Option<u16>,
    field_manager: &'static str,
    leader: LeaderSettings,
}

/// An operator that is connected and runs for the lead.
pub struct Connected {
    health_port: Option<u16>,
    k8s: K8sClient,
    leader: LeaderSettings,
}

/// What is left to do after an operator has run for the lead: everything is asked to shut down,
/// the health server is waited for where there is one, and the result is returned.
#[derive(Debug)]
pub struct Ending<E> {
    pub cancel_shutdown: bool,
    pub join_health: bool,
    pub result: Result<(), E>,
}

impl<E> Ending<E> {
    /// Whether this is how a connected operator ends after it has run for the lead.
    pub open spec fn ends(self, connected: Connected, result: Result<(), E>) -> bool {
        &&& self.cancel_shutdown
        &&& self.join_health == connected.port() is Some
        &&& self.result == result
    }
}

impl Operator {
    /// Begins to run: health probes are answered on the port of the settings, or nowhere where it
    /// is zero.
    pub fn run<W>(spec: &OperatorSpec<W>) -> (r: Connecting)
        ensures
            r.begins(*spec),
            r.port() is None <==> spec.runtime.health_port == 0,
            r.port() matches Some(port) ==> port == spec.runtime.health_port,
            r.manager() == spec.field_manager@,
            r.lease() == spec.leader,
    {
        let health_port = if spec.runtime.health_port == 0 {
            None
        } else {
            Some(spec.runtime.health_port)
        };
        Connecting { health_port, field_manager: spec.field_manager, leader: spec.leader.clone() }
    }
}

impl Connecting {
    /// Whether this is an operator that begins to run: with the settings, the field manager and
    /// the lease that it is made of.
    pub open spec fn begins<W>(self, spec: OperatorSpec<W>) -> bool {
        &&& self.port() == if spec.runtime.health_port == 0 {
            None
        } else {
            Some(spec.runtime.health_port)
        }
        &&& self.manager() == spec.field_manager@
        &&& self.lease() == spec.leader
    }

    /// The port on which health probes are answered.
    pub closed spec fn port(self) -> Option<u16> {
        self.health_port
    }

    /// The name of the field manager.
    pub closed spec fn manager(self) -> Seq<char> {
        self.field_manager@
    }

    /// How the lease is held.
    pub closed spec fn lease(self) -> LeaderSettings {
        self.leader
    }

    /// The port on which health probes are answered.
    pub fn health_port(&self) -> (port: Option<u16>)
        ensures
            port == self.port(),
    {
        self.health_port
    }

    /// Goes on once the operator has a client, or could not get one: it then fails at once. The
    /// client sets fields in the name of the operator's field manager.
    pub fn connected<E, K>(self, client: Result<kube::Client, K>) -> (r: Result<
        Connected,
        Failure<E, K>,
    >)
        ensures
            match client {
                Ok(client) => {
                    &&& r is Ok
                    &&& r->Ok_0.follows(self, client)
                    &&& r->Ok_0.port() == self.port()
                    &&& r->Ok_0.client().manager() == self.manager()
                    &&& r->Ok_0.client().inner() == client
                    &&& r->Ok_0.lease() == self.lease()
                },
                Err(error) => r == Err::<Connected, _>(Failure::<E, K>::Api(error)),
            },
    {
        match client {
            Ok(client) => Ok(
                Connected {
                    health_port: self.health_port,
                    k8s: K8sClient::new(self.field_manager, client),
                    leader: self.leader,
                },
            ),
            Err(error) => Err(Failure::Api(error)),
        }
    }
}

impl Connected {
    /// Whether this is an operator that got a client when it connected.
    pub open spec fn follows(self, connecting: Connecting, client: kube::Client) -> bool {
        &&& self.port() == connecting.port()
        &&& self.client().manager() == connecting.manager()
        &&& self.client().inner() == client
        &&& self.lease() == connecting.lease()
    }

    /// The port on which health probes are answered.
    pub closed spec fn port(self) -> Option<u16> {
        self.health_port
    }

    /// The client of the operator.
    pub closed spec fn client(self) -> K8sClient {
        self.k8s
    }

    /// How the lease is held.
    pub closed spec fn lease(self) -> LeaderSettings {
        self.leader
    }

    /// The client of the operator.
    pub fn k8s(&self) -> (r: &K8sClient)
        ensures
            *r == self.client(),
    {
        &self.k8s
    }

    /// How the lease is held.
    pub fn leader(&self) -> (r: &LeaderSettings)
        ensures
            *r == self.lease(),
    {
        &self.leader
    }

    /// Goes on once the operator has run for the lead, with what came of that.
    pub fn led<E>(self, result: Result<(), E>) -> (r: Ending<E>)
        ensures
            r.ends(self, result),
            r.cancel_shutdown,
            r.join_health <==> self.port() is Some,
            r.result == result,
    {
        Ending { cancel_shutdown: true, join_health: self.health_port.is_some(), result }
    }
}

/// What becomes of the health server and of the watch for signals.
#[derive(Clone, Copy, Debug, PartialEq, Eq, Structural)]
pub enum ServiceEvent {
    /// The port of the health probes could not be had.
    ProbesNotBound,
    /// The health server failed.
    ProbesFailed,
    /// The health server stopped because it was asked to.
    ProbesStopped,
    /// The watch for signals could not be set up.
    SignalsNotWatched,
    /// The process was interrupted.
    Interrupted,
    /// The process was told to terminate.
    Terminated,
}

impl ServiceEvent {
    /// Whether the operator shuts down: it does where the health server fails and on a signal.
    pub fn cancels_shutdown(self) -> (r: bool)
        ensures
            r == !(self is ProbesStopped || self is SignalsNotWatched),
    {
        match self {
            ServiceEvent::ProbesNotBound => true,
            ServiceEvent::ProbesFailed => true,
            ServiceEvent::ProbesStopped => false,
            ServiceEvent::SignalsNotWatched => false,
            ServiceEvent::Interrupted => true,
            ServiceEvent::Terminated => true,
        }
    }
}

/// The paths under which health probes are answered.
pub fn probe_paths() -> (paths: Vec<String>)
    ensures
        texts(paths@) == seq!["/healthz"@, "/readyz"@],
        paths@.len() == 2,
        paths@[0]@ == "/healthz"@,
        paths@[1]@ == "/readyz"@,
{
    let mut paths: Vec<String> = Vec::new();
    paths.push("/healthz".to_string());
    paths.push("/readyz".to_string());
    assert(texts(paths@) =~= seq!["/healthz"@, "/readyz"@]);
    paths
}

/// The address on which health probes are answered: the given port of every interface.
pub fn probe_address(port: u16) -> (address: (&'static str, u16))
    ensures
        address.0@ == "0.0.0.0"@,
        address.1 == port,
{
    ("0.0.0.0", port)
}

/// The HTTP status with which health probes are answered.
pub fn ok() -> (status: u16)
    ensures
        status == 200,
{
    200
}

/// An operator that ran for the lead ends by shutting everything down and waits for its health
/// server if and only if it started one.
pub proof fn health_server_is_waited_for<W, E>(
    spec: OperatorSpec<W>,
    connecting: Connecting,
    client: kube::Client,
    connected: Connected,
    result: Result<(), E>,
    ending: Ending<E>,
)
    requires
        connecting.begins(spec),
        connected.follows(connecting, client),
        ending.ends(connected, result),
    ensures
        ending.cancel_shutdown,
        ending.join_health <==> spec.runtime.health_port != 0,
        ending.result == result,
{
}

/// An operator runs for the lead with the lease, the field manager and the client that it was
/// given.
pub proof fn operator_leads_as_specified<W>(
    spec: OperatorSpec<W>,
    connecting: Connecting,
    client: kube::Client,
    connected: Connected,
)
    requires
        connecting.begins(spec),
        connected.follows(connecting, client),
    ensures
        connected.lease() == spec.leader,
        connected.client().manager() == spec.field_manager@,
        connected.client().inner() == client,
{
}

}
