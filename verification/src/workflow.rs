//! Workflows: graphs of nodes with dependencies, and the order in which their nodes are
//! reconciled and cleaned up.
pub mod cleanup;
pub mod declaration;
pub mod graph;
pub mod key;
pub mod laws;
pub mod run;
pub mod scheduler;
pub mod status;
pub mod trace;
pub mod unfold;

pub use graph::{Graph, GraphError};
pub use key::NodeKey;
pub use run::WorkflowError;
pub use scheduler::Scheduler;
pub use status::{NodeState, WorkflowStatus};
