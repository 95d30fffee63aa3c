//! A toolkit for Kubernetes operators that reconcile their resources along a graph of
//! dependencies.
//!
//! - [`workflow`]: nodes with dependencies, the order in which they are reconciled and cleaned
//!   up, and the status that a run leaves.
//! - [`operator`], [`reconciliation`], [`lifecycle`] and [`leader`]: what becomes of a resource from
//!   the first event to the last, and how an operator starts, leads and stops.
//! - [`client`], [`resources`] and [`store`]: handles for resources, the requests over them, and
//!   stores that are kept in config maps and secrets.
//! - [`component`] and [`derive`]: the names and labels of resources, and how they follow from a
//!   type.
//!
//! Nothing here waits or sends: functions take in what happened and say what is to be done next.
pub mod client;
pub mod component;
pub mod dag;
pub mod derive;
pub mod keyed;
pub mod leader;
pub mod lifecycle;
pub mod meta;
pub mod operator;
pub mod reconciliation;
pub mod resources;
pub mod store;
pub mod text;
pub mod workflow;

pub use client::{K8sClient, NamespacedApi};
pub use component::ReconcilerMetaError;
pub use leader::LeaderSettings;
pub use meta::{CrMeta, CrMetaError};
pub use operator::{Operator, OperatorSpec, RuntimeSettings};
pub use resources::ResourcesExt;
pub use store::{StoreExt, StoreHandle};
pub use workflow::{Graph, GraphError, NodeKey, NodeState, Scheduler, WorkflowError};
