//! Pure predicates deciding whether a workload's inter-workload
//! conditions are satisfied by the states recorded so far.

use vstd::prelude::*;

use crate::execution_state::{add_condition_fulfilled_by, delete_condition_fulfilled_by,
    ExecutionStateView};
use crate::parameter_storage::ParameterStorage;
use crate::workload_spec::{DeletedWorkload, DeleteDependencyView, DependencyView, WorkloadSpec};

verus! {

/// The state recorded for `name`, if one was.
pub open spec fn recorded_state(
    states: Map<Seq<char>, ExecutionStateView>,
    name: Seq<char>,
) -> Option<ExecutionStateView> {
    if states.dom().contains(name) {
        Option::Some(states[name])
    } else {
        Option::None
    }
}

/// Every add-condition of the workload holds of the recorded states;
/// an empty dependency list is trivially fulfilled.
pub open spec fn workload_dependencies_fulfilled(
    dependencies: Seq<DependencyView>,
    states: Map<Seq<char>, ExecutionStateView>,
) -> bool {
    forall|i: int|
        0 <= i < dependencies.len() ==> add_condition_fulfilled_by(
            #[trigger] dependencies[i].condition,
            recorded_state(states, dependencies[i].workload_name),
        )
}

/// Every delete-condition of the deleted workload holds of the
/// recorded states.
pub open spec fn deleted_workload_dependencies_fulfilled(
    dependencies: Seq<DeleteDependencyView>,
    states: Map<Seq<char>, ExecutionStateView>,
) -> bool {
    forall|i: int|
        0 <= i < dependencies.len() ==> delete_condition_fulfilled_by(
            #[trigger] dependencies[i].condition,
            recorded_state(states, dependencies[i].workload_name),
        )
}

/// Decides the two dependency predicates on concrete values.
pub struct StateValidator {}

impl StateValidator {
    /// Whether the workload may be created now: each dependency's
    /// add-condition holds of the latest state recorded for it.
    pub fn dependencies_for_workload_fulfilled(
        workload_spec: &WorkloadSpec,
        workload_state_db: &ParameterStorage,
    ) -> (r: bool)
        ensures
            r == workload_dependencies_fulfilled(
                workload_spec@.dependencies,
                workload_state_db@,
            ),
    {
        let n = workload_spec.dependencies.len();
        let mut i: usize = 0;
        while i < n
            invariant
                n == workload_spec.dependencies.len(),
                i <= n,
                forall|k: int|
                    0 <= k < i ==> add_condition_fulfilled_by(
                        #[trigger] workload_spec@.dependencies[k].condition,
                        recorded_state(
                            workload_state_db@,
                            workload_spec@.dependencies[k].workload_name,
                        ),
                    ),
            decreases n - i,
        {
            let dependency = &workload_spec.dependencies[i];
            let state = workload_state_db.state_of(&dependency.workload_name);
            if !dependency.condition.fulfilled_by(&state) {
                assert(!add_condition_fulfilled_by(
                    workload_spec@.dependencies[i as int].condition,
                    recorded_state(
                        workload_state_db@,
                        workload_spec@.dependencies[i as int].workload_name,
                    ),
                ));
                return false;
            }
            i += 1;
        }
        true
    }

    /// Whether the workload may be deleted now: each delete-condition
    /// holds of the latest state recorded for it.
    pub fn dependencies_for_deleted_workload_fulfilled(
        deleted_workload: &DeletedWorkload,
        workload_state_db: &ParameterStorage,
    ) -> (r: bool)
        ensures
            r == deleted_workload_dependencies_fulfilled(
                deleted_workload@.dependencies,
                workload_state_db@,
            ),
    {
        let n = deleted_workload.dependencies.len();
        let mut i: usize = 0;
        while i < n
            invariant
                n == deleted_workload.dependencies.len(),
                i <= n,
                forall|k: int|
                    0 <= k < i ==> delete_condition_fulfilled_by(
                        #[trigger] deleted_workload@.dependencies[k].condition,
                        recorded_state(
                            workload_state_db@,
                            deleted_workload@.dependencies[k].workload_name,
                        ),
                    ),
            decreases n - i,
        {
            let dependency = &deleted_workload.dependencies[i];
            let state = workload_state_db.state_of(&dependency.workload_name);
            if !dependency.condition.fulfilled_by(&state) {
                assert(!delete_condition_fulfilled_by(
                    deleted_workload@.dependencies[i as int].condition,
                    recorded_state(
                        workload_state_db@,
                        deleted_workload@.dependencies[i as int].workload_name,
                    ),
                ));
                return false;
            }
            i += 1;
        }
        true
    }
}

} // verus!
