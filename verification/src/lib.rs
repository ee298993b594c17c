//! Core of a node-local workload-orchestration agent.
//!
//! The agent receives declarative workload assignments from a central
//! server and converges the node's actual state with the desired state.
//! This crate holds the verified core: the execution-state model, the
//! dependency validator, the two-queue workload scheduler, the
//! reconciliation logic of the runtime manager, and the configuration
//! and control-interface bookkeeping. All I/O (server transport,
//! container runtimes, file system) stays outside and talks to this
//! core through plain values.

pub mod agent_config;
pub mod authorizer;
pub mod control_interface;
pub mod execution_state;
pub mod instance_name;
pub mod messages;
pub mod parameter_storage;
pub mod runtime_manager;
pub mod state_validator;
pub mod workload_queue;
pub mod workload_spec;
