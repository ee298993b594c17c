//! Execution states of workloads and the conditions other workloads
//! may place on them.

use vstd::prelude::*;

verus! {

/// The latest observed execution state of one workload.
///
/// `Removed` is terminal; the other variants may follow each other
/// freely. The substate and reason strings are carried through
/// unchanged and only shown to operators.
#[derive(Clone, Debug, PartialEq, Eq)]
pub enum ExecutionState {
    Pending { substate: String },
    Running { substate: String },
    Succeeded,
    Failed { reason: String },
    Stopping { substate: String },
    Removed,
    Unknown,
}

/// Mathematical model of an [`ExecutionState`].
pub enum ExecutionStateView {
    Pending { substate: Seq<char> },
    Running { substate: Seq<char> },
    Succeeded,
    Failed { reason: Seq<char> },
    Stopping { substate: Seq<char> },
    Removed,
    Unknown,
}

impl View for ExecutionState {
    type V = ExecutionStateView;

    open spec fn view(&self) -> ExecutionStateView {
        match self {
            ExecutionState::Pending { substate } => ExecutionStateView::Pending {
                substate: substate@,
            },
            ExecutionState::Running { substate } => ExecutionStateView::Running {
                substate: substate@,
            },
            ExecutionState::Succeeded => ExecutionStateView::Succeeded,
            ExecutionState::Failed { reason } => ExecutionStateView::Failed { reason: reason@ },
            ExecutionState::Stopping { substate } => ExecutionStateView::Stopping {
                substate: substate@,
            },
            ExecutionState::Removed => ExecutionStateView::Removed,
            ExecutionState::Unknown => ExecutionStateView::Unknown,
        }
    }
}

impl DeepView for ExecutionState {
    type V = ExecutionStateView;

    open spec fn deep_view(&self) -> ExecutionStateView {
        self.view()
    }
}

impl ExecutionState {
    /// State of a workload whose runtime selector names no registered
    /// runtime; such a workload is reported failed and never retried.
    pub fn failed_unsupported_runtime() -> (r: ExecutionState)
        ensures
            r@ == (ExecutionStateView::Failed { reason: "unsupported runtime"@ }),
    {
        ExecutionState::Failed { reason: String::from_str("unsupported runtime") }
    }

    /// Deep copy; the model value is unchanged.
    pub fn duplicate(&self) -> (r: ExecutionState)
        ensures
            r@ == self@,
    {
        match self {
            ExecutionState::Pending { substate } => ExecutionState::Pending {
                substate: substate.clone(),
            },
            ExecutionState::Running { substate } => ExecutionState::Running {
                substate: substate.clone(),
            },
            ExecutionState::Succeeded => ExecutionState::Succeeded,
            ExecutionState::Failed { reason } => ExecutionState::Failed { reason: reason.clone() },
            ExecutionState::Stopping { substate } => ExecutionState::Stopping {
                substate: substate.clone(),
            },
            ExecutionState::Removed => ExecutionState::Removed,
            ExecutionState::Unknown => ExecutionState::Unknown,
        }
    }
}

/// The condition another workload's state must satisfy before a
/// workload that depends on it may be created.
#[derive(Clone, Copy, Debug, PartialEq, Eq, Structural)]
pub enum AddCondition {
    AddCondRunning,
    AddCondSucceeded,
    AddCondFailed,
}

/// The condition another workload's state must satisfy before a
/// workload that depends on it may be deleted.
#[derive(Clone, Copy, Debug, PartialEq, Eq, Structural)]
pub enum DeleteCondition {
    DelCondNotPendingNorRunning,
}

/// When a workload that left the `Running` state is recreated.
#[derive(Clone, Copy, Debug, PartialEq, Eq, Structural)]
pub enum RestartPolicy {
    Never,
    OnFailure,
    Always,
}

/// Whether an add-condition holds of the latest observed state of the
/// dependency, `None` standing for a dependency never seen at all.
pub open spec fn add_condition_fulfilled_by(
    condition: AddCondition,
    state: Option<ExecutionStateView>,
) -> bool {
    match state {
        Option::None => false,
        Option::Some(s) => match condition {
            AddCondition::AddCondRunning => s is Running,
            AddCondition::AddCondSucceeded => s is Succeeded,
            AddCondition::AddCondFailed => s is Failed,
        },
    }
}

/// Whether a delete-condition holds: the dependency must be absent,
/// `Succeeded`, `Failed` or `Removed`; any other state blocks.
pub open spec fn delete_condition_fulfilled_by(
    condition: DeleteCondition,
    state: Option<ExecutionStateView>,
) -> bool {
    match state {
        Option::None => true,
        Option::Some(s) => s is Succeeded || s is Failed || s is Removed,
    }
}

impl AddCondition {
    /// Decides `add_condition_fulfilled_by` on a concrete state.
    pub fn fulfilled_by(&self, state: &Option<ExecutionState>) -> (r: bool)
        ensures
            r == add_condition_fulfilled_by(*self, state.deep_view()),
    {
        match state {
            Option::None => false,
            Option::Some(s) => match self {
                AddCondition::AddCondRunning => matches!(s, ExecutionState::Running { .. }),
                AddCondition::AddCondSucceeded => matches!(s, ExecutionState::Succeeded),
                AddCondition::AddCondFailed => matches!(s, ExecutionState::Failed { .. }),
            },
        }
    }
}

impl DeleteCondition {
    /// Decides `delete_condition_fulfilled_by` on a concrete state.
    pub fn fulfilled_by(&self, state: &Option<ExecutionState>) -> (r: bool)
        ensures
            r == delete_condition_fulfilled_by(*self, state.deep_view()),
    {
        match state {
            Option::None => true,
            Option::Some(s) => match s {
                ExecutionState::Succeeded => true,
                ExecutionState::Failed { .. } => true,
                ExecutionState::Removed => true,
                _ => false,
            },
        }
    }
}

/// Whether the restart policy asks for a recreation after the workload
/// reached `state` while it was running: `Never` never recreates,
/// `OnFailure` recreates on any `Failed` state, and `Always` recreates
/// on any terminal state other than `Running` and `Removed`.
pub open spec fn spec_restart_required(policy: RestartPolicy, state: ExecutionStateView) -> bool {
    match policy {
        RestartPolicy::Never => false,
        RestartPolicy::OnFailure => state is Failed,
        RestartPolicy::Always => state is Failed || state is Succeeded,
    }
}

impl RestartPolicy {
    /// Decides `spec_restart_required` on a concrete state.
    pub fn restart_required(&self, state: &ExecutionState) -> (r: bool)
        ensures
            r == spec_restart_required(*self, state@),
    {
        match self {
            RestartPolicy::Never => false,
            RestartPolicy::OnFailure => matches!(state, ExecutionState::Failed { .. }),
            RestartPolicy::Always => matches!(
                state,
                ExecutionState::Failed { .. } | ExecutionState::Succeeded
            ),
        }
    }
}

} // verus!
