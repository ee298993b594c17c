//! The message families exchanged with the central server, and the
//! handling of workload-state events.

use vstd::prelude::*;

use crate::parameter_storage::ParameterStorage;
use crate::workload_spec::{DeletedWorkload, DeletedWorkloadView, WorkloadSpec, WorkloadSpecView,
    WorkloadState, WorkloadStateView};

verus! {

/// What the agent sends to the server.
#[derive(Clone, Debug, PartialEq, Eq)]
pub enum ToServer {
    Hello { agent_name: String },
    UpdateWorkloadState { workload_states: Vec<WorkloadState> },
    Goodbye,
}

/// Mathematical model of a [`ToServer`] message.
pub enum ToServerView {
    Hello { agent_name: Seq<char> },
    UpdateWorkloadState { workload_states: Seq<WorkloadStateView> },
    Goodbye,
}

impl View for ToServer {
    type V = ToServerView;

    open spec fn view(&self) -> ToServerView {
        match self {
            ToServer::Hello { agent_name } => ToServerView::Hello { agent_name: agent_name@ },
            ToServer::UpdateWorkloadState { workload_states } => ToServerView::UpdateWorkloadState {
                workload_states: workload_states.deep_view(),
            },
            ToServer::Goodbye => ToServerView::Goodbye,
        }
    }
}

impl DeepView for ToServer {
    type V = ToServerView;

    open spec fn deep_view(&self) -> ToServerView {
        self.view()
    }
}

/// What the server sends to the agent.
#[derive(Clone, Debug, PartialEq, Eq)]
pub enum FromServer {
    ServerHello,
    UpdateWorkload { added_workloads: Vec<WorkloadSpec>, deleted_workloads: Vec<DeletedWorkload> },
    UpdateWorkloadState { workload_states: Vec<WorkloadState> },
    Goodbye,
}

/// Mathematical model of a [`FromServer`] message.
pub enum FromServerView {
    ServerHello,
    UpdateWorkload {
        added_workloads: Seq<WorkloadSpecView>,
        deleted_workloads: Seq<DeletedWorkloadView>,
    },
    UpdateWorkloadState { workload_states: Seq<WorkloadStateView> },
    Goodbye,
}

impl View for FromServer {
    type V = FromServerView;

    open spec fn view(&self) -> FromServerView {
        match self {
            FromServer::ServerHello => FromServerView::ServerHello,
            FromServer::UpdateWorkload { added_workloads, deleted_workloads } => {
                FromServerView::UpdateWorkload {
                    added_workloads: added_workloads.deep_view(),
                    deleted_workloads: deleted_workloads.deep_view(),
                }
            },
            FromServer::UpdateWorkloadState { workload_states } => {
                FromServerView::UpdateWorkloadState {
                    workload_states: workload_states.deep_view(),
                }
            },
            FromServer::Goodbye => FromServerView::Goodbye,
        }
    }
}

impl DeepView for FromServer {
    type V = FromServerView;

    open spec fn deep_view(&self) -> FromServerView {
        self.view()
    }
}

/// Handles one workload-state event from a state checker: the state
/// is recorded under the workload's name before anything else
/// happens, and the report to forward upstream is returned. A queue
/// drain run on the storage afterwards therefore sees this state.
pub fn process_workload_state(storage: &mut ParameterStorage, state: WorkloadState) -> (msg:
    ToServer)
    ensures
        final(storage)@ == old(storage)@.insert(
            state@.instance_name.workload_name,
            state@.execution_state,
        ),
        msg@ == (ToServerView::UpdateWorkloadState { workload_states: seq![state@] }),
{
    let ghost sv = state@;
    storage.record(state.instance_name.workload_name(), state.execution_state.duplicate());
    let mut workload_states: Vec<WorkloadState> = Vec::new();
    workload_states.push(state);
    proof {
        assert(workload_states.deep_view() =~= seq![sv]);
    }
    ToServer::UpdateWorkloadState { workload_states }
}

} // verus!
