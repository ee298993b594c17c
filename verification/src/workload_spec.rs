//! Workload specifications, deletion requests and reported states.

use vstd::prelude::*;

use crate::authorizer::{Authorizer, AuthorizerView};
use crate::execution_state::{AddCondition, DeleteCondition, ExecutionState, ExecutionStateView,
    RestartPolicy};
use crate::instance_name::{WorkloadInstanceName, WorkloadInstanceNameView};

verus! {

/// One inter-workload condition a creation waits for: the named
/// workload's state must satisfy the add-condition.
#[derive(Clone, Debug, PartialEq, Eq)]
pub struct Dependency {
    pub workload_name: String,
    pub condition: AddCondition,
}

/// Mathematical model of a [`Dependency`].
pub struct DependencyView {
    pub workload_name: Seq<char>,
    pub condition: AddCondition,
}

impl View for Dependency {
    type V = DependencyView;

    open spec fn view(&self) -> DependencyView {
        DependencyView { workload_name: self.workload_name@, condition: self.condition }
    }
}

impl DeepView for Dependency {
    type V = DependencyView;

    open spec fn deep_view(&self) -> DependencyView {
        self.view()
    }
}

/// One inter-workload condition a deletion waits for.
#[derive(Clone, Debug, PartialEq, Eq)]
pub struct DeleteDependency {
    pub workload_name: String,
    pub condition: DeleteCondition,
}

/// Mathematical model of a [`DeleteDependency`].
pub struct DeleteDependencyView {
    pub workload_name: Seq<char>,
    pub condition: DeleteCondition,
}

impl View for DeleteDependency {
    type V = DeleteDependencyView;

    open spec fn view(&self) -> DeleteDependencyView {
        DeleteDependencyView { workload_name: self.workload_name@, condition: self.condition }
    }
}

impl DeepView for DeleteDependency {
    type V = DeleteDependencyView;

    open spec fn deep_view(&self) -> DeleteDependencyView {
        self.view()
    }
}

/// The desired shape of one workload instance: what to run, where,
/// under which restart policy, and what must hold before it starts.
///
/// The runtime configuration is an opaque blob handed through to the
/// selected runtime. The dependencies list conditions keyed by the
/// other workload's name; a name listed twice must satisfy every
/// condition listed for it.
#[derive(Clone, Debug, PartialEq, Eq)]
pub struct WorkloadSpec {
    pub instance_name: WorkloadInstanceName,
    pub runtime: String,
    pub runtime_config: String,
    pub restart_policy: RestartPolicy,
    pub dependencies: Vec<Dependency>,
    pub control_interface_access: Authorizer,
}

/// Mathematical model of a [`WorkloadSpec`].
pub struct WorkloadSpecView {
    pub instance_name: WorkloadInstanceNameView,
    pub runtime: Seq<char>,
    pub runtime_config: Seq<char>,
    pub restart_policy: RestartPolicy,
    pub dependencies: Seq<DependencyView>,
    pub control_interface_access: AuthorizerView,
}

impl View for WorkloadSpec {
    type V = WorkloadSpecView;

    open spec fn view(&self) -> WorkloadSpecView {
        WorkloadSpecView {
            instance_name: self.instance_name@,
            runtime: self.runtime@,
            runtime_config: self.runtime_config@,
            restart_policy: self.restart_policy,
            dependencies: self.dependencies.deep_view(),
            control_interface_access: self.control_interface_access.deep_view(),
        }
    }
}

impl DeepView for WorkloadSpec {
    type V = WorkloadSpecView;

    open spec fn deep_view(&self) -> WorkloadSpecView {
        self.view()
    }
}

/// A deletion the server asked for, together with the conditions that
/// must hold before the workload may actually be removed.
#[derive(Clone, Debug, PartialEq, Eq)]
pub struct DeletedWorkload {
    pub instance_name: WorkloadInstanceName,
    pub dependencies: Vec<DeleteDependency>,
}

/// Mathematical model of a [`DeletedWorkload`].
pub struct DeletedWorkloadView {
    pub instance_name: WorkloadInstanceNameView,
    pub dependencies: Seq<DeleteDependencyView>,
}

impl View for DeletedWorkload {
    type V = DeletedWorkloadView;

    open spec fn view(&self) -> DeletedWorkloadView {
        DeletedWorkloadView {
            instance_name: self.instance_name@,
            dependencies: self.dependencies.deep_view(),
        }
    }
}

impl DeepView for DeletedWorkload {
    type V = DeletedWorkloadView;

    open spec fn deep_view(&self) -> DeletedWorkloadView {
        self.view()
    }
}

/// One reported observation: a workload instance and its latest
/// execution state.
#[derive(Clone, Debug, PartialEq, Eq)]
pub struct WorkloadState {
    pub instance_name: WorkloadInstanceName,
    pub execution_state: ExecutionState,
}

/// Mathematical model of a [`WorkloadState`].
pub struct WorkloadStateView {
    pub instance_name: WorkloadInstanceNameView,
    pub execution_state: ExecutionStateView,
}

impl View for WorkloadState {
    type V = WorkloadStateView;

    open spec fn view(&self) -> WorkloadStateView {
        WorkloadStateView {
            instance_name: self.instance_name@,
            execution_state: self.execution_state@,
        }
    }
}

impl DeepView for WorkloadState {
    type V = WorkloadStateView;

    open spec fn deep_view(&self) -> WorkloadStateView {
        self.view()
    }
}

} // verus!
