//! The reconciliation core: the set of live workload instances, the
//! waiting queues, and the rules that turn a desired state into
//! runtime operations.
//!
//! A deletion leaves the live set the moment it is decided; the
//! emitted `Delete` operation hands the instance over to the runtime
//! for teardown. Deletions synthesized here carry no conditions, so
//! the delete queue is empty again whenever a call returns.

use vstd::prelude::*;

use crate::execution_state::{ExecutionState, ExecutionStateView};
use crate::instance_name::{WorkloadInstanceName, WorkloadInstanceNameView};
use crate::parameter_storage::ParameterStorage;
use crate::state_validator::{deleted_workload_dependencies_fulfilled,
    workload_dependencies_fulfilled};
use crate::workload_queue::{delete_entry_of, delete_names_unique, queues_disjoint,
    ready_deletes_of, ready_starts_of, retained_starts_of, start_entry_of, start_names_unique,
    waiting_deletes_of, waiting_starts_of, WorkloadQueue};
use crate::workload_spec::{DeletedWorkload, DeletedWorkloadView, WorkloadSpec, WorkloadSpecView,
    WorkloadState, WorkloadStateView};

verus! {

/// One order handed to the surrounding runtime plumbing: start this
/// spec on its runtime, or tear this instance down.
#[derive(Clone, Debug, PartialEq, Eq)]
pub enum WorkloadOperation {
    Create(WorkloadSpec),
    Delete(DeletedWorkload),
}

/// Mathematical model of a [`WorkloadOperation`].
pub enum WorkloadOperationView {
    Create(WorkloadSpecView),
    Delete(DeletedWorkloadView),
}

impl View for WorkloadOperation {
    type V = WorkloadOperationView;

    open spec fn view(&self) -> WorkloadOperationView {
        match self {
            WorkloadOperation::Create(w) => WorkloadOperationView::Create(w@),
            WorkloadOperation::Delete(d) => WorkloadOperationView::Delete(d@),
        }
    }
}

impl DeepView for WorkloadOperation {
    type V = WorkloadOperationView;

    open spec fn deep_view(&self) -> WorkloadOperationView {
        self.view()
    }
}

/// Mathematical model of a [`RuntimeManager`].
pub struct RuntimeManagerView {
    pub agent_name: Seq<char>,
    pub runtime_names: Seq<Seq<char>>,
    pub live: Seq<WorkloadInstanceNameView>,
    pub start_queue: Seq<WorkloadSpecView>,
    pub delete_queue: Seq<DeletedWorkloadView>,
}

/// No two live instances share a workload name.
pub open spec fn live_names_unique(live: Seq<WorkloadInstanceNameView>) -> bool {
    forall|i: int, j: int|
        0 <= i < j < live.len() ==> (#[trigger] live[i]).workload_name != (
        #[trigger] live[j]).workload_name
}

/// Some live instance carries this workload name.
pub open spec fn live_has_workload_name(live: Seq<WorkloadInstanceNameView>, name: Seq<char>) -> bool {
    exists|i: int| 0 <= i < live.len() && (#[trigger] live[i]).workload_name == name
}

/// This exact instance is live.
pub open spec fn live_has_instance(
    live: Seq<WorkloadInstanceNameView>,
    instance: WorkloadInstanceNameView,
) -> bool {
    exists|i: int| 0 <= i < live.len() && live[i] == instance
}

/// The desired state holds this exact instance.
pub open spec fn desired_has_instance(
    desired: Seq<WorkloadSpecView>,
    instance: WorkloadInstanceNameView,
) -> bool {
    exists|k: int| 0 <= k < desired.len() && (#[trigger] desired[k]).instance_name == instance
}

/// The desired state holds an entry of this workload name.
pub open spec fn desired_has_workload_name(desired: Seq<WorkloadSpecView>, name: Seq<char>) -> bool {
    exists|k: int|
        0 <= k < desired.len() && (#[trigger] desired[k]).instance_name.workload_name == name
}

/// No two desired entries share a workload name.
pub open spec fn desired_names_unique(desired: Seq<WorkloadSpecView>) -> bool {
    forall|i: int, j: int|
        0 <= i < j < desired.len() ==> (#[trigger] desired[i]).instance_name.workload_name != (
        #[trigger] desired[j]).instance_name.workload_name
}

/// The runtime selector names a registered runtime.
pub open spec fn runtime_supported(runtime: Seq<char>, runtimes: Seq<Seq<char>>) -> bool {
    exists|i: int| 0 <= i < runtimes.len() && runtimes[i] == runtime
}

/// The live instances that the desired state keeps: those it names
/// with the very same instance.
pub open spec fn kept_of(
    live: Seq<WorkloadInstanceNameView>,
    desired: Seq<WorkloadSpecView>,
) -> Seq<WorkloadInstanceNameView>
    decreases live.len(),
{
    if live.len() == 0 {
        Seq::empty()
    } else if desired_has_instance(desired, live.last()) {
        kept_of(live.drop_last(), desired).push(live.last())
    } else {
        kept_of(live.drop_last(), desired)
    }
}

/// The live instances the desired state no longer names: they are to
/// be deleted.
pub open spec fn removed_of(
    live: Seq<WorkloadInstanceNameView>,
    desired: Seq<WorkloadSpecView>,
) -> Seq<WorkloadInstanceNameView>
    decreases live.len(),
{
    if live.len() == 0 {
        Seq::empty()
    } else if desired_has_instance(desired, live.last()) {
        removed_of(live.drop_last(), desired)
    } else {
        removed_of(live.drop_last(), desired).push(live.last())
    }
}

/// The deletions synthesized for the removed instances; a deletion
/// decided by a desired-state diff waits for nothing.
pub open spec fn dels_of(removed: Seq<WorkloadInstanceNameView>) -> Seq<DeletedWorkloadView> {
    removed.map_values(
        |inst: WorkloadInstanceNameView| (DeletedWorkloadView {
            instance_name: inst,
            dependencies: Seq::empty(),
        }),
    )
}

/// The desired entries whose instance is not live yet: the creations
/// (and the create half of every update) to enqueue.
pub open spec fn batch_of(
    desired: Seq<WorkloadSpecView>,
    live: Seq<WorkloadInstanceNameView>,
) -> Seq<WorkloadSpecView>
    decreases desired.len(),
{
    if desired.len() == 0 {
        Seq::empty()
    } else if live_has_instance(live, desired.last().instance_name) {
        batch_of(desired.drop_last(), live)
    } else {
        batch_of(desired.drop_last(), live).push(desired.last())
    }
}

/// The specs of `q` whose runtime is registered.
pub open spec fn supported_of(
    q: Seq<WorkloadSpecView>,
    runtimes: Seq<Seq<char>>,
) -> Seq<WorkloadSpecView>
    decreases q.len(),
{
    if q.len() == 0 {
        Seq::empty()
    } else if runtime_supported(q.last().runtime, runtimes) {
        supported_of(q.drop_last(), runtimes).push(q.last())
    } else {
        supported_of(q.drop_last(), runtimes)
    }
}

/// The specs of `q` whose runtime is not registered.
pub open spec fn unsupported_of(
    q: Seq<WorkloadSpecView>,
    runtimes: Seq<Seq<char>>,
) -> Seq<WorkloadSpecView>
    decreases q.len(),
{
    if q.len() == 0 {
        Seq::empty()
    } else if runtime_supported(q.last().runtime, runtimes) {
        unsupported_of(q.drop_last(), runtimes)
    } else {
        unsupported_of(q.drop_last(), runtimes).push(q.last())
    }
}

/// The instance names of a sequence of specs.
pub open spec fn instances_of(q: Seq<WorkloadSpecView>) -> Seq<WorkloadInstanceNameView> {
    q.map_values(|w: WorkloadSpecView| w.instance_name)
}

/// Delete operations, one per deletion, in order.
pub open spec fn delete_ops_of(dels: Seq<DeletedWorkloadView>) -> Seq<WorkloadOperationView> {
    dels.map_values(|d: DeletedWorkloadView| WorkloadOperationView::Delete(d))
}

/// Create operations, one per spec, in order.
pub open spec fn create_ops_of(specs: Seq<WorkloadSpecView>) -> Seq<WorkloadOperationView> {
    specs.map_values(|w: WorkloadSpecView| WorkloadOperationView::Create(w))
}

/// The failure reports for specs whose runtime is not registered.
pub open spec fn failed_states_of(specs: Seq<WorkloadSpecView>) -> Seq<WorkloadStateView> {
    specs.map_values(
        |w: WorkloadSpecView| (WorkloadStateView {
            instance_name: w.instance_name,
            execution_state: ExecutionStateView::Failed { reason: "unsupported runtime"@ },
        }),
    )
}

/// Every spec whose runtime is registered is in the supported part,
/// and everything there comes from the queue.
pub proof fn lemma_supported_props(q: Seq<WorkloadSpecView>, runtimes: Seq<Seq<char>>)
    ensures
        forall|i: int|
            0 <= i < supported_of(q, runtimes).len() ==> runtime_supported(
                (#[trigger] supported_of(q, runtimes)[i]).runtime,
                runtimes,
            ) && exists|j: int| 0 <= j < q.len() && supported_of(q, runtimes)[i] == q[j],
    decreases q.len(),
{
    if q.len() > 0 {
        lemma_supported_props(q.drop_last(), runtimes);
        assert forall|i: int| 0 <= i < supported_of(q, runtimes).len() implies runtime_supported(
            (#[trigger] supported_of(q, runtimes)[i]).runtime,
            runtimes,
        ) && exists|j: int| 0 <= j < q.len() && supported_of(q, runtimes)[i] == q[j] by {
            let r = supported_of(q, runtimes);
            let rp = supported_of(q.drop_last(), runtimes);
            if i < rp.len() {
                let j = choose|j: int| 0 <= j < q.drop_last().len() && rp[i] == q.drop_last()[j];
                assert(q.drop_last()[j] == q[j]);
                assert(r[i] == q[j]);
            } else {
                assert(r[i] == q.last());
                assert(r[i] == q[q.len() - 1]);
            }
        }
    }
}

/// Selecting the supported specs keeps instance names unique.
pub proof fn lemma_supported_unique(q: Seq<WorkloadSpecView>, runtimes: Seq<Seq<char>>)
    requires
        start_names_unique(q),
    ensures
        start_names_unique(supported_of(q, runtimes)),
    decreases q.len(),
{
    if q.len() > 0 {
        lemma_supported_unique(q.drop_last(), runtimes);
        lemma_supported_props(q.drop_last(), runtimes);
        let r = supported_of(q, runtimes);
        let rp = supported_of(q.drop_last(), runtimes);
        assert forall|i: int, j: int|
            0 <= i < j < r.len() implies (#[trigger] r[i]).instance_name != (
        #[trigger] r[j]).instance_name by {
            if j < rp.len() {
            } else if runtime_supported(q.last().runtime, runtimes) {
                let j2 = choose|j2: int| 0 <= j2 < q.drop_last().len() && rp[i] == q.drop_last()[
                    j2
                ];
                assert(q[j2] == q.drop_last()[j2]);
                assert(r[j] == q[q.len() - 1]);
            }
        }
    }
}

/// Every supported, fulfilled entry of the queue ends in the
/// supported part of the drained creations.
pub proof fn lemma_supported_complete(q: Seq<WorkloadSpecView>, runtimes: Seq<Seq<char>>, k: int)
    requires
        0 <= k < q.len(),
        runtime_supported(q[k].runtime, runtimes),
    ensures
        exists|i: int| 0 <= i < supported_of(q, runtimes).len() && supported_of(q, runtimes)[i]
            == q[k],
    decreases q.len(),
{
    let r = supported_of(q, runtimes);
    if k == q.len() - 1 {
        assert(r[r.len() - 1] == q[k]);
    } else {
        lemma_supported_complete(q.drop_last(), runtimes, k);
        let rp = supported_of(q.drop_last(), runtimes);
        let i = choose|i: int| 0 <= i < rp.len() && rp[i] == q.drop_last()[k];
        assert(q.drop_last()[k] == q[k]);
        assert(r[i] == q[k]);
    }
}

/// Every kept instance was live and is still desired.
pub proof fn lemma_kept_props(live: Seq<WorkloadInstanceNameView>, desired: Seq<WorkloadSpecView>)
    ensures
        forall|i: int|
            0 <= i < kept_of(live, desired).len() ==> desired_has_instance(
                desired,
                #[trigger] kept_of(live, desired)[i],
            ) && exists|j: int| 0 <= j < live.len() && kept_of(live, desired)[i] == live[j],
    decreases live.len(),
{
    if live.len() > 0 {
        lemma_kept_props(live.drop_last(), desired);
        assert forall|i: int| 0 <= i < kept_of(live, desired).len() implies desired_has_instance(
            desired,
            #[trigger] kept_of(live, desired)[i],
        ) && exists|j: int| 0 <= j < live.len() && kept_of(live, desired)[i] == live[j] by {
            let r = kept_of(live, desired);
            let rp = kept_of(live.drop_last(), desired);
            if i < rp.len() {
                let j = choose|j: int|
                    0 <= j < live.drop_last().len() && rp[i] == live.drop_last()[j];
                assert(live.drop_last()[j] == live[j]);
                assert(r[i] == live[j]);
            } else {
                assert(r[i] == live.last());
                assert(r[i] == live[live.len() - 1]);
            }
        }
    }
}

/// Every live instance the desired state still names is kept.
pub proof fn lemma_kept_complete(
    live: Seq<WorkloadInstanceNameView>,
    desired: Seq<WorkloadSpecView>,
    k: int,
)
    requires
        0 <= k < live.len(),
        desired_has_instance(desired, live[k]),
    ensures
        exists|i: int| 0 <= i < kept_of(live, desired).len() && kept_of(live, desired)[i] == live[
            k
        ],
    decreases live.len(),
{
    let r = kept_of(live, desired);
    if k == live.len() - 1 {
        assert(r[r.len() - 1] == live[k]);
    } else {
        lemma_kept_complete(live.drop_last(), desired, k);
        let rp = kept_of(live.drop_last(), desired);
        let i = choose|i: int| 0 <= i < rp.len() && rp[i] == live.drop_last()[k];
        assert(live.drop_last()[k] == live[k]);
        assert(r[i] == live[k]);
    }
}

/// Every removed instance was live and is no longer desired.
pub proof fn lemma_removed_props(
    live: Seq<WorkloadInstanceNameView>,
    desired: Seq<WorkloadSpecView>,
)
    ensures
        forall|i: int|
            0 <= i < removed_of(live, desired).len() ==> !desired_has_instance(
                desired,
                #[trigger] removed_of(live, desired)[i],
            ) && exists|j: int| 0 <= j < live.len() && removed_of(live, desired)[i] == live[j],
    decreases live.len(),
{
    if live.len() > 0 {
        lemma_removed_props(live.drop_last(), desired);
        assert forall|i: int| 0 <= i < removed_of(live, desired).len() implies
            !desired_has_instance(desired, #[trigger] removed_of(live, desired)[i]) && exists|
                j: int,
            | 0 <= j < live.len() && removed_of(live, desired)[i] == live[j] by {
            let r = removed_of(live, desired);
            let rp = removed_of(live.drop_last(), desired);
            if i < rp.len() {
                let j = choose|j: int|
                    0 <= j < live.drop_last().len() && rp[i] == live.drop_last()[j];
                assert(live.drop_last()[j] == live[j]);
                assert(r[i] == live[j]);
            } else {
                assert(r[i] == live.last());
                assert(r[i] == live[live.len() - 1]);
            }
        }
    }
}

/// The kept instances still carry distinct workload names.
pub proof fn lemma_kept_unique(live: Seq<WorkloadInstanceNameView>, desired: Seq<WorkloadSpecView>)
    requires
        live_names_unique(live),
    ensures
        live_names_unique(kept_of(live, desired)),
    decreases live.len(),
{
    if live.len() > 0 {
        lemma_kept_unique(live.drop_last(), desired);
        lemma_kept_props(live.drop_last(), desired);
        let r = kept_of(live, desired);
        let rp = kept_of(live.drop_last(), desired);
        assert forall|i: int, j: int|
            0 <= i < j < r.len() implies (#[trigger] r[i]).workload_name != (
        #[trigger] r[j]).workload_name by {
            if j < rp.len() {
            } else if desired_has_instance(desired, live.last()) {
                let j2 = choose|j2: int|
                    0 <= j2 < live.drop_last().len() && rp[i] == live.drop_last()[j2];
                assert(live[j2] == live.drop_last()[j2]);
                assert(r[j] == live[live.len() - 1]);
            }
        }
    }
}

/// Every batch entry is desired and not live.
pub proof fn lemma_batch_props(desired: Seq<WorkloadSpecView>, live: Seq<WorkloadInstanceNameView>)
    ensures
        forall|i: int|
            0 <= i < batch_of(desired, live).len() ==> !live_has_instance(
                live,
                (#[trigger] batch_of(desired, live)[i]).instance_name,
            ) && exists|j: int| 0 <= j < desired.len() && batch_of(desired, live)[i] == desired[j],
    decreases desired.len(),
{
    if desired.len() > 0 {
        lemma_batch_props(desired.drop_last(), live);
        assert forall|i: int| 0 <= i < batch_of(desired, live).len() implies !live_has_instance(
            live,
            (#[trigger] batch_of(desired, live)[i]).instance_name,
        ) && exists|j: int| 0 <= j < desired.len() && batch_of(desired, live)[i] == desired[j] by {
            let r = batch_of(desired, live);
            let rp = batch_of(desired.drop_last(), live);
            if i < rp.len() {
                let j = choose|j: int|
                    0 <= j < desired.drop_last().len() && rp[i] == desired.drop_last()[j];
                assert(desired.drop_last()[j] == desired[j]);
                assert(r[i] == desired[j]);
            } else {
                assert(r[i] == desired.last());
                assert(r[i] == desired[desired.len() - 1]);
            }
        }
    }
}

/// Every desired entry whose instance is not live is in the batch.
pub proof fn lemma_batch_complete(
    desired: Seq<WorkloadSpecView>,
    live: Seq<WorkloadInstanceNameView>,
    k: int,
)
    requires
        0 <= k < desired.len(),
        !live_has_instance(live, desired[k].instance_name),
    ensures
        exists|i: int| 0 <= i < batch_of(desired, live).len() && batch_of(desired, live)[i]
            == desired[k],
    decreases desired.len(),
{
    let r = batch_of(desired, live);
    if k == desired.len() - 1 {
        assert(r[r.len() - 1] == desired[k]);
    } else {
        lemma_batch_complete(desired.drop_last(), live, k);
        let rp = batch_of(desired.drop_last(), live);
        let i = choose|i: int| 0 <= i < rp.len() && rp[i] == desired.drop_last()[k];
        assert(desired.drop_last()[k] == desired[k]);
        assert(r[i] == desired[k]);
    }
}

/// The batch keeps the desired state's unique workload names.
pub proof fn lemma_batch_unique(
    desired: Seq<WorkloadSpecView>,
    live: Seq<WorkloadInstanceNameView>,
)
    requires
        desired_names_unique(desired),
    ensures
        start_queue_names_unique(batch_of(desired, live)),
    decreases desired.len(),
{
    if desired.len() > 0 {
        lemma_batch_unique(desired.drop_last(), live);
        lemma_batch_props(desired.drop_last(), live);
        let r = batch_of(desired, live);
        let rp = batch_of(desired.drop_last(), live);
        assert forall|i: int, j: int|
            0 <= i < j < r.len() implies (#[trigger] r[i]).instance_name.workload_name != (
        #[trigger] r[j]).instance_name.workload_name by {
            if j < rp.len() {
            } else if !live_has_instance(live, desired.last().instance_name) {
                let j2 = choose|j2: int|
                    0 <= j2 < desired.drop_last().len() && rp[i] == desired.drop_last()[j2];
                assert(desired[j2] == desired.drop_last()[j2]);
                assert(r[j] == desired[desired.len() - 1]);
            }
        }
    }
}

/// The removed instances still carry distinct workload names.
pub proof fn lemma_removed_unique(
    live: Seq<WorkloadInstanceNameView>,
    desired: Seq<WorkloadSpecView>,
)
    requires
        live_names_unique(live),
    ensures
        live_names_unique(removed_of(live, desired)),
    decreases live.len(),
{
    if live.len() > 0 {
        lemma_removed_unique(live.drop_last(), desired);
        lemma_removed_props(live.drop_last(), desired);
        let r = removed_of(live, desired);
        let rp = removed_of(live.drop_last(), desired);
        assert forall|i: int, j: int|
            0 <= i < j < r.len() implies (#[trigger] r[i]).workload_name != (
        #[trigger] r[j]).workload_name by {
            if j < rp.len() {
            } else if !desired_has_instance(desired, live.last()) {
                let j2 = choose|j2: int|
                    0 <= j2 < live.drop_last().len() && rp[i] == live.drop_last()[j2];
                assert(live[j2] == live.drop_last()[j2]);
                assert(r[j] == live[live.len() - 1]);
            }
        }
    }
}

/// Every spec in the unsupported part has an unregistered runtime and
/// comes from the queue.
pub proof fn lemma_unsupported_props(q: Seq<WorkloadSpecView>, runtimes: Seq<Seq<char>>)
    ensures
        forall|i: int|
            0 <= i < unsupported_of(q, runtimes).len() ==> !runtime_supported(
                (#[trigger] unsupported_of(q, runtimes)[i]).runtime,
                runtimes,
            ) && exists|j: int| 0 <= j < q.len() && unsupported_of(q, runtimes)[i] == q[j],
    decreases q.len(),
{
    if q.len() > 0 {
        lemma_unsupported_props(q.drop_last(), runtimes);
        assert forall|i: int| 0 <= i < unsupported_of(q, runtimes).len() implies
            !runtime_supported(
                (#[trigger] unsupported_of(q, runtimes)[i]).runtime,
                runtimes,
            ) && exists|j: int| 0 <= j < q.len() && unsupported_of(q, runtimes)[i] == q[j] by {
            let r = unsupported_of(q, runtimes);
            let rp = unsupported_of(q.drop_last(), runtimes);
            if i < rp.len() {
                let j = choose|j: int| 0 <= j < q.drop_last().len() && rp[i] == q.drop_last()[j];
                assert(q.drop_last()[j] == q[j]);
                assert(r[i] == q[j]);
            } else {
                assert(r[i] == q.last());
                assert(r[i] == q[q.len() - 1]);
            }
        }
    }
}

/// No two queued creations share a workload name. Stronger than
/// instance-name uniqueness: a complete desired state names each
/// workload once, and stale entries are dropped when it is applied.
pub open spec fn start_queue_names_unique(q: Seq<WorkloadSpecView>) -> bool {
    forall|i: int, j: int|
        0 <= i < j < q.len() ==> (#[trigger] q[i]).instance_name.workload_name != (
        #[trigger] q[j]).instance_name.workload_name
}

/// The standing invariant of the manager: workload names are unique
/// within each holding, and a workload name is held in at most one of
/// the live set, the start queue and the delete queue.
pub open spec fn rm_inv(m: RuntimeManagerView) -> bool {
    &&& start_queue_names_unique(m.start_queue)
    &&& delete_names_unique(m.delete_queue)
    &&& forall|i: int, j: int|
        0 <= i < m.start_queue.len() && 0 <= j < m.delete_queue.len() ==> (
        #[trigger] m.start_queue[i]).instance_name.workload_name != (
        #[trigger] m.delete_queue[j]).instance_name.workload_name
    &&& live_names_unique(m.live)
    &&& forall|i: int, j: int|
        0 <= i < m.live.len() && 0 <= j < m.start_queue.len() ==> (
        #[trigger] m.live[i]).workload_name != (
        #[trigger] m.start_queue[j]).instance_name.workload_name
    &&& forall|i: int, j: int|
        0 <= i < m.live.len() && 0 <= j < m.delete_queue.len() ==> (
        #[trigger] m.live[i]).workload_name != (
        #[trigger] m.delete_queue[j]).instance_name.workload_name
}

/// The invariant between desired-state updates: additionally, nothing
/// waits to be deleted, since synthesized deletions never wait.
pub open spec fn rm_wf(m: RuntimeManagerView) -> bool {
    &&& rm_inv(m)
    &&& m.delete_queue.len() == 0
}

/// Some queued creation carries this workload name.
pub open spec fn start_queue_has_workload_name(q: Seq<WorkloadSpecView>, name: Seq<char>) -> bool {
    exists|i: int| 0 <= i < q.len() && (#[trigger] q[i]).instance_name.workload_name == name
}

/// Some queued deletion carries this workload name.
pub open spec fn delete_queue_has_workload_name(
    q: Seq<DeletedWorkloadView>,
    name: Seq<char>,
) -> bool {
    exists|i: int| 0 <= i < q.len() && (#[trigger] q[i]).instance_name.workload_name == name
}

/// A workload name is held in at most one of the live set, the start
/// queue and the delete queue.
pub proof fn lemma_workload_held_at_most_once(m: RuntimeManagerView, name: Seq<char>)
    requires
        rm_inv(m),
    ensures
        !(live_has_workload_name(m.live, name) && start_queue_has_workload_name(
            m.start_queue,
            name,
        )),
        !(live_has_workload_name(m.live, name) && delete_queue_has_workload_name(
            m.delete_queue,
            name,
        )),
        !(start_queue_has_workload_name(m.start_queue, name) && delete_queue_has_workload_name(
            m.delete_queue,
            name,
        )),
{
}

/// A workload that got its `Delete` operation is no longer live: its
/// instance is out of the live set the moment the operation is
/// emitted, before any further desired-state update is processed.
pub proof fn lemma_deleted_instance_not_live(
    m0: RuntimeManagerView,
    desired: Seq<WorkloadSpecView>,
    states: Map<Seq<char>, ExecutionStateView>,
    m1: RuntimeManagerView,
    ops: Seq<WorkloadOperationView>,
    failed: Seq<WorkloadStateView>,
    i: int,
    d: DeletedWorkloadView,
)
    requires
        apply_relates(m0, desired, states, m1, ops, failed),
        0 <= i < ops.len(),
        ops[i] == WorkloadOperationView::Delete(d),
    ensures
        !live_has_instance(m1.live, d.instance_name),
{
    assert(ops[i] matches WorkloadOperationView::Delete(d2) ==> !live_has_instance(
        m1.live,
        d2.instance_name,
    ));
}

/// Round trip: after one desired state is applied, the workload names
/// that are live or queued to start are exactly the desired ones,
/// provided every desired runtime is registered.
pub proof fn lemma_round_trip(
    m0: RuntimeManagerView,
    desired: Seq<WorkloadSpecView>,
    states: Map<Seq<char>, ExecutionStateView>,
    m1: RuntimeManagerView,
    ops: Seq<WorkloadOperationView>,
    failed: Seq<WorkloadStateView>,
)
    requires
        rm_wf(m0),
        desired_names_unique(desired),
        forall|k: int|
            0 <= k < desired.len() ==> runtime_supported(
                (#[trigger] desired[k]).runtime,
                m0.runtime_names,
            ),
        apply_relates(m0, desired, states, m1, ops, failed),
    ensures
        forall|name: Seq<char>|
            (live_has_workload_name(m1.live, name) || start_queue_has_workload_name(
                m1.start_queue,
                name,
            )) <==> #[trigger] desired_has_workload_name(desired, name),
{
    assert forall|name: Seq<char>|
        (live_has_workload_name(m1.live, name) || start_queue_has_workload_name(
            m1.start_queue,
            name,
        )) <==> #[trigger] desired_has_workload_name(desired, name) by {
        if desired_has_workload_name(desired, name) {
            let k = choose|k: int|
                0 <= k < desired.len() && (#[trigger] desired[k]).instance_name.workload_name
                    == name;
            if live_has_instance(m0.live, desired[k].instance_name) {
                let j = choose|j: int|
                    0 <= j < m0.live.len() && m0.live[j] == desired[k].instance_name;
                assert(live_has_instance(m1.live, m0.live[j]));
                let i2 = choose|i2: int| 0 <= i2 < m1.live.len() && m1.live[i2] == m0.live[j];
                assert(m1.live[i2].workload_name == name);
            } else {
                if live_has_instance(m1.live, desired[k].instance_name) {
                    let i2 = choose|i2: int|
                        0 <= i2 < m1.live.len() && m1.live[i2] == desired[k].instance_name;
                    assert(m1.live[i2].workload_name == name);
                } else {
                    assert(start_entry_of(m1.start_queue, desired[k].instance_name)
                        == Option::Some(desired[k]));
                    crate::workload_queue::lemma_start_entry_some_element(
                        m1.start_queue,
                        desired[k].instance_name,
                    );
                    let i2 = choose|i2: int|
                        0 <= i2 < m1.start_queue.len() && m1.start_queue[i2] == desired[k]
                            && m1.start_queue[i2].instance_name == desired[k].instance_name;
                    assert(m1.start_queue[i2].instance_name.workload_name == name);
                }
            }
        }
        if live_has_workload_name(m1.live, name) {
            let i2 = choose|i2: int|
                0 <= i2 < m1.live.len() && (#[trigger] m1.live[i2]).workload_name == name;
            assert(desired_has_instance(desired, m1.live[i2]));
            let k = choose|k: int|
                0 <= k < desired.len() && (#[trigger] desired[k]).instance_name == m1.live[i2];
            assert(desired[k].instance_name.workload_name == name);
        }
        if start_queue_has_workload_name(m1.start_queue, name) {
            let i2 = choose|i2: int|
                0 <= i2 < m1.start_queue.len() && (
                #[trigger] m1.start_queue[i2]).instance_name.workload_name == name;
            let k = choose|k: int|
                0 <= k < desired.len() && m1.start_queue[i2] == (#[trigger] desired[k]);
            assert(desired[k].instance_name.workload_name == name);
        }
    }
}

/// Idempotence: applying the same desired state twice in succession,
/// with no state event recorded in between, produces no operation and
/// no failure report the second time, provided every desired runtime
/// is registered.
pub proof fn lemma_apply_idempotent(
    m0: RuntimeManagerView,
    desired: Seq<WorkloadSpecView>,
    states: Map<Seq<char>, ExecutionStateView>,
    m1: RuntimeManagerView,
    ops1: Seq<WorkloadOperationView>,
    failed1: Seq<WorkloadStateView>,
    m2: RuntimeManagerView,
    ops2: Seq<WorkloadOperationView>,
    failed2: Seq<WorkloadStateView>,
)
    requires
        rm_wf(m0),
        desired_names_unique(desired),
        forall|k: int|
            0 <= k < desired.len() ==> runtime_supported(
                (#[trigger] desired[k]).runtime,
                m0.runtime_names,
            ),
        apply_relates(m0, desired, states, m1, ops1, failed1),
        apply_relates(m1, desired, states, m2, ops2, failed2),
    ensures
        ops2.len() == 0,
        failed2.len() == 0,
{
    lemma_removed_props(m1.live, desired);
    if ops2.len() > 0 {
        let i: int = 0;
        match ops2[i] {
            WorkloadOperationView::Delete(d) => {
                let j = choose|j: int|
                    0 <= j < removed_of(m1.live, desired).len() && removed_of(m1.live, desired)[
                        j
                    ] == d.instance_name;
                let p = choose|p: int|
                    0 <= p < m1.live.len() && removed_of(m1.live, desired)[j] == m1.live[p];
                assert(desired_has_instance(desired, m1.live[p]));
            },
            WorkloadOperationView::Create(w) => {
                let jd = choose|jd: int| 0 <= jd < desired.len() && desired[jd] == w;
                if live_has_instance(m0.live, desired[jd].instance_name) {
                    let j = choose|j: int|
                        0 <= j < m0.live.len() && m0.live[j] == desired[jd].instance_name;
                    assert(live_has_instance(m1.live, m0.live[j]));
                    assert(false);
                } else {
                    if !live_has_instance(m1.live, desired[jd].instance_name) {
                        assert(start_entry_of(m1.start_queue, desired[jd].instance_name)
                            == Option::Some(desired[jd]));
                        crate::workload_queue::lemma_start_entry_some_element(
                            m1.start_queue,
                            desired[jd].instance_name,
                        );
                        let p = choose|p: int|
                            0 <= p < m1.start_queue.len() && m1.start_queue[p] == desired[jd];
                        assert(!workload_dependencies_fulfilled(
                            m1.start_queue[p].dependencies,
                            states,
                        ));
                        assert(false);
                    }
                }
            },
        }
        assert(false);
    }
    if failed2.len() > 0 {
        let i: int = 0;
        let j = choose|j: int|
            0 <= j < desired.len() && (#[trigger] desired[j]).instance_name == failed2[
                i
            ].instance_name && workload_dependencies_fulfilled(desired[j].dependencies, states)
                && !runtime_supported(desired[j].runtime, m1.runtime_names) && !live_has_instance(
                m1.live,
                desired[j].instance_name,
            );
        assert(runtime_supported(desired[j].runtime, m0.runtime_names));
        assert(false);
    }
}

/// Owns the live set and the waiting queues, and applies batches of
/// desired-state updates to them.
pub struct RuntimeManager {
    agent_name: String,
    runtime_names: Vec<String>,
    live: Vec<WorkloadInstanceName>,
    queue: WorkloadQueue,
}

impl View for RuntimeManager {
    type V = RuntimeManagerView;

    closed spec fn view(&self) -> RuntimeManagerView {
        RuntimeManagerView {
            agent_name: self.agent_name@,
            runtime_names: self.runtime_names.deep_view(),
            live: self.live.deep_view(),
            start_queue: self.queue.view().start_queue,
            delete_queue: self.queue.view().delete_queue,
        }
    }
}

/// Whether one of the registered runtime names equals `runtime`.
fn runtime_registered(runtime_names: &Vec<String>, runtime: &String) -> (r: bool)
    ensures
        r == runtime_supported(runtime@, runtime_names.deep_view()),
{
    let n = runtime_names.len();
    let mut i: usize = 0;
    while i < n
        invariant
            n == runtime_names.len(),
            i <= n,
            forall|k: int| 0 <= k < i ==> runtime_names.deep_view()[k] != runtime@,
        decreases n - i,
    {
        if runtime_names[i] == *runtime {
            assert(runtime_names.deep_view()[i as int] == runtime@);
            return true;
        }
        i += 1;
    }
    false
}

/// Whether the desired state names exactly this instance.
fn desired_contains_instance(
    desired: &Vec<WorkloadSpec>,
    instance: &WorkloadInstanceName,
) -> (r: bool)
    ensures
        r == desired_has_instance(desired.deep_view(), instance@),
{
    let n = desired.len();
    let mut i: usize = 0;
    while i < n
        invariant
            n == desired.len(),
            i <= n,
            forall|k: int|
                0 <= k < i ==> (#[trigger] desired.deep_view()[k]).instance_name != instance@,
        decreases n - i,
    {
        if desired[i].instance_name.matches(instance) {
            assert(desired.deep_view()[i as int].instance_name == instance@);
            return true;
        }
        i += 1;
    }
    false
}

/// Whether exactly this instance is in the live set.
fn live_contains_instance(live: &Vec<WorkloadInstanceName>, instance: &WorkloadInstanceName) -> (r:
    bool)
    ensures
        r == live_has_instance(live.deep_view(), instance@),
{
    let n = live.len();
    let mut i: usize = 0;
    while i < n
        invariant
            n == live.len(),
            i <= n,
            forall|k: int| 0 <= k < i ==> live.deep_view()[k] != instance@,
        decreases n - i,
    {
        if live[i].matches(instance) {
            assert(live.deep_view()[i as int] == instance@);
            return true;
        }
        i += 1;
    }
    false
}

impl RuntimeManager {
    /// A manager with no live workload and empty queues, for the named
    /// agent and the registered runtimes.
    pub fn new(agent_name: String, runtime_names: Vec<String>) -> (r: RuntimeManager)
        ensures
            rm_wf(r@),
            r@.agent_name == agent_name@,
            r@.runtime_names == runtime_names.deep_view(),
            r@.live == Seq::<WorkloadInstanceNameView>::empty(),
            r@.start_queue == Seq::<WorkloadSpecView>::empty(),
            r@.delete_queue == Seq::<DeletedWorkloadView>::empty(),
    {
        let r = RuntimeManager {
            agent_name,
            runtime_names,
            live: Vec::new(),
            queue: WorkloadQueue::new(),
        };
        proof {
            assert(r@.live =~= Seq::<WorkloadInstanceNameView>::empty());
        }
        r
    }

    /// The name of the agent this manager works for.
    pub fn agent_name(&self) -> (r: &String)
        ensures
            r@ == self@.agent_name,
    {
        &self.agent_name
    }

    /// The live instances, in the order they were adopted.
    pub fn live_instances(&self) -> (r: &Vec<WorkloadInstanceName>)
        ensures
            r.deep_view() == self@.live,
    {
        &self.live
    }

    /// The creations still waiting for their conditions.
    pub fn waiting_starts(&self) -> (r: &Vec<WorkloadSpec>)
        ensures
            r.deep_view() == self@.start_queue,
    {
        self.queue.waiting_starts()
    }

    /// Drains both queues against the recorded states and dispatches:
    /// every ready deletion becomes a `Delete` operation; every ready
    /// creation whose runtime is registered joins the live set and
    /// becomes a `Create` operation; a ready creation with an unknown
    /// runtime is reported failed and never retried.
    pub fn dispatch_ready(&mut self, storage: &ParameterStorage) -> (r: (
        Vec<WorkloadOperation>,
        Vec<WorkloadState>,
    ))
        requires
            rm_inv(old(self)@),
        ensures
            rm_inv(final(self)@),
            final(self)@.agent_name == old(self)@.agent_name,
            final(self)@.runtime_names == old(self)@.runtime_names,
            final(self)@.delete_queue == waiting_deletes_of(old(self)@.delete_queue, storage@),
            final(self)@.start_queue == waiting_starts_of(old(self)@.start_queue, storage@),
            final(self)@.live == old(self)@.live + instances_of(
                supported_of(
                    ready_starts_of(old(self)@.start_queue, storage@),
                    old(self)@.runtime_names,
                ),
            ),
            r.0.deep_view() == delete_ops_of(ready_deletes_of(old(self)@.delete_queue, storage@))
                + create_ops_of(
                supported_of(
                    ready_starts_of(old(self)@.start_queue, storage@),
                    old(self)@.runtime_names,
                ),
            ),
            r.1.deep_view() == failed_states_of(
                unsupported_of(
                    ready_starts_of(old(self)@.start_queue, storage@),
                    old(self)@.runtime_names,
                ),
            ),
    {
        let ghost m0 = self.view();
        let ghost states = storage@;
        let ghost rts = m0.runtime_names;
        proof {
            assert forall|i: int, j: int| 0 <= i < j < m0.start_queue.len() implies (
            #[trigger] m0.start_queue[i]).instance_name != (
            #[trigger] m0.start_queue[j]).instance_name by {
                assert(m0.start_queue[i].instance_name.workload_name != m0.start_queue[
                    j
                ].instance_name.workload_name);
            }
            assert forall|i: int, j: int|
                0 <= i < m0.start_queue.len() && 0 <= j < m0.delete_queue.len() implies (
            #[trigger] m0.start_queue[i]).instance_name != (
            #[trigger] m0.delete_queue[j]).instance_name by {
                assert(m0.start_queue[i].instance_name.workload_name != m0.delete_queue[
                    j
                ].instance_name.workload_name);
            }
            assert(queues_disjoint(m0.start_queue, m0.delete_queue));
        }
        let mut ops: Vec<WorkloadOperation> = Vec::new();
        let mut failed: Vec<WorkloadState> = Vec::new();

        let mut ready_dels = self.queue.next_workloads_to_delete(storage);
        let ghost rd = ready_dels.deep_view();
        proof {
            assert(ops.deep_view() =~= delete_ops_of(rd.subrange(0, 0)));
        }
        while ready_dels.len() > 0
            invariant
                rd == ready_deletes_of(m0.delete_queue, states),
                0 <= rd.len() - ready_dels.deep_view().len() <= rd.len(),
                ready_dels.deep_view() == rd.subrange(
                    rd.len() - ready_dels.deep_view().len(),
                    rd.len() as int,
                ),
                ops.deep_view() == delete_ops_of(
                    rd.subrange(0, rd.len() - ready_dels.deep_view().len()),
                ),
            decreases ready_dels.len(),
        {
            let ghost k = rd.len() - ready_dels.deep_view().len();
            let ghost before_shallow = ready_dels@;
            let ghost before_deep = ready_dels.deep_view();
            let ghost ops_before = ops.deep_view();
            let ghost ops_shallow = ops@;
            let d = ready_dels.remove(0);
            proof {
                assert(before_deep[0] == before_shallow[0].deep_view());
                assert(d.deep_view() == rd[k]);
                assert forall|i2: int| 0 <= i2 < ready_dels.deep_view().len() implies
                    ready_dels.deep_view()[i2] == before_deep[i2 + 1] by {
                    assert(ready_dels@[i2] == before_shallow[i2 + 1]);
                }
                assert(ready_dels.deep_view() =~= rd.subrange(k + 1, rd.len() as int));
            }
            let op = WorkloadOperation::Delete(d);
            let ghost opv = op;
            ops.push(op);
            proof {
                assert(ops_before.len() == k);
                assert(ops.deep_view().len() == k + 1);
                assert(0 <= k + 1 <= rd.len());
                assert(delete_ops_of(rd.subrange(0, k + 1)).len() == k + 1);
                assert forall|i2: int| 0 <= i2 < k + 1 implies ops.deep_view()[i2]
                    == delete_ops_of(rd.subrange(0, k + 1))[i2] by {
                    assert(rd.subrange(0, k + 1)[i2] == rd[i2]);
                    assert(delete_ops_of(rd.subrange(0, k + 1))[i2]
                        == WorkloadOperationView::Delete(rd[i2]));
                    if i2 < k {
                        assert(ops@[i2] == ops_shallow[i2]);
                        assert(ops.deep_view()[i2] == ops_before[i2]);
                        assert(ops_before[i2] == delete_ops_of(rd.subrange(0, k))[i2]);
                        assert(delete_ops_of(rd.subrange(0, k))[i2]
                            == WorkloadOperationView::Delete(rd.subrange(0, k)[i2]));
                    } else {
                        assert(ops@[i2] == opv);
                        assert(ops.deep_view()[i2] == opv.deep_view());
                        assert(opv.deep_view() == WorkloadOperationView::Delete(rd[k]));
                    }
                }
                assert(ops.deep_view() =~= delete_ops_of(rd.subrange(0, k + 1)));
            }
        }
        proof {
            assert(rd.subrange(0, rd.len() as int) =~= rd);
        }

        let mut ready_starts = self.queue.next_workloads_to_start(storage);
        let ghost rs = ready_starts.deep_view();
        let ghost live0 = self.view().live;
        proof {
            assert(rs.subrange(0, 0) =~= Seq::<WorkloadSpecView>::empty());
            assert(self.view().live =~= live0 + instances_of(supported_of(rs.subrange(0, 0), rts)));
            assert(ops.deep_view() =~= delete_ops_of(rd) + create_ops_of(
                supported_of(rs.subrange(0, 0), rts),
            ));
            assert(failed.deep_view() =~= failed_states_of(
                unsupported_of(rs.subrange(0, 0), rts),
            ));
        }
        while ready_starts.len() > 0
            invariant
                states == storage@,
                rd == ready_deletes_of(m0.delete_queue, states),
                rs == ready_starts_of(m0.start_queue, states),
                rts == self.view().runtime_names,
                self.view().agent_name == m0.agent_name,
                self.view().start_queue == waiting_starts_of(m0.start_queue, states),
                self.view().delete_queue == waiting_deletes_of(m0.delete_queue, states),
                0 <= rs.len() - ready_starts.deep_view().len() <= rs.len(),
                ready_starts.deep_view() == rs.subrange(
                    rs.len() - ready_starts.deep_view().len(),
                    rs.len() as int,
                ),
                self.view().live == live0 + instances_of(
                    supported_of(
                        rs.subrange(0, rs.len() - ready_starts.deep_view().len()),
                        rts,
                    ),
                ),
                ops.deep_view() == delete_ops_of(rd) + create_ops_of(
                    supported_of(
                        rs.subrange(0, rs.len() - ready_starts.deep_view().len()),
                        rts,
                    ),
                ),
                failed.deep_view() == failed_states_of(
                    unsupported_of(
                        rs.subrange(0, rs.len() - ready_starts.deep_view().len()),
                        rts,
                    ),
                ),
            decreases ready_starts.len(),
        {
            let ghost k = rs.len() - ready_starts.deep_view().len();
            let ghost before_shallow = ready_starts@;
            let ghost before_deep = ready_starts.deep_view();
            let w = ready_starts.remove(0);
            proof {
                assert(before_deep[0] == before_shallow[0].deep_view());
                assert(w.deep_view() == rs[k]);
                assert forall|i2: int| 0 <= i2 < ready_starts.deep_view().len() implies
                    ready_starts.deep_view()[i2] == before_deep[i2 + 1] by {
                    assert(ready_starts@[i2] == before_shallow[i2 + 1]);
                }
                assert(ready_starts.deep_view() =~= rs.subrange(k + 1, rs.len() as int));
                assert(rs.subrange(0, k + 1).drop_last() =~= rs.subrange(0, k));
                assert(rs.subrange(0, k + 1).last() == rs[k]);
            }
            if runtime_registered(&self.runtime_names, &w.runtime) {
                let ghost live_before = self.view().live;
                let ghost live_shallow = self.live@;
                let instance = w.instance_name.duplicate();
                let ghost instv = instance;
                self.live.push(instance);
                proof {
                    assert forall|i2: int| 0 <= i2 < self.view().live.len() implies
                        self.view().live[i2] == live_before.push(rs[k].instance_name)[i2] by {
                        if i2 < live_shallow.len() {
                            assert(self.live@[i2] == live_shallow[i2]);
                        } else {
                            assert(self.live@[i2] == instv);
                        }
                    }
                    assert(self.view().live =~= live_before.push(rs[k].instance_name));
                }
                let ghost ops_before = ops.deep_view();
                let ghost ops_shallow = ops@;
                let op = WorkloadOperation::Create(w);
                let ghost opv = op;
                ops.push(op);
                proof {
                    let supk = supported_of(rs.subrange(0, k), rts);
                    let supk1 = supported_of(rs.subrange(0, k + 1), rts);
                    let unsupk = unsupported_of(rs.subrange(0, k), rts);
                    assert(supk1 == supk.push(rs[k]));
                    assert(unsupported_of(rs.subrange(0, k + 1), rts) == unsupk);
                    assert forall|i2: int| 0 <= i2 < ops.deep_view().len() implies
                        ops.deep_view()[i2] == ops_before.push(
                            WorkloadOperationView::Create(rs[k]),
                        )[i2] by {
                        if i2 < ops_shallow.len() {
                            assert(ops@[i2] == ops_shallow[i2]);
                            assert(ops.deep_view()[i2] == ops_before[i2]);
                        } else {
                            assert(ops@[i2] == opv);
                            assert(ops.deep_view()[i2] == opv.deep_view());
                        }
                    }
                    assert(ops.deep_view() =~= ops_before.push(
                        WorkloadOperationView::Create(rs[k]),
                    ));
                    assert(create_ops_of(supk1) =~= create_ops_of(supk).push(
                        WorkloadOperationView::Create(rs[k]),
                    ));
                    assert(delete_ops_of(rd) + create_ops_of(supk1) =~= (delete_ops_of(rd)
                        + create_ops_of(supk)).push(WorkloadOperationView::Create(rs[k])));
                    assert(ops.deep_view() =~= delete_ops_of(rd) + create_ops_of(supk1));
                    assert(instances_of(supk1) =~= instances_of(supk).push(rs[k].instance_name));
                    assert(live0 + instances_of(supk1) =~= (live0 + instances_of(supk)).push(
                        rs[k].instance_name,
                    ));
                    assert(self.view().live =~= live0 + instances_of(supk1));
                    assert(failed.deep_view() =~= failed_states_of(
                        unsupported_of(rs.subrange(0, k + 1), rts),
                    ));
                }
            } else {
                let ghost failed_before = failed.deep_view();
                let ghost failed_shallow = failed@;
                let report = WorkloadState {
                    instance_name: w.instance_name,
                    execution_state: ExecutionState::failed_unsupported_runtime(),
                };
                let ghost reportv = report;
                failed.push(report);
                proof {
                    let supk = supported_of(rs.subrange(0, k), rts);
                    let unsupk = unsupported_of(rs.subrange(0, k), rts);
                    let unsupk1 = unsupported_of(rs.subrange(0, k + 1), rts);
                    assert(supported_of(rs.subrange(0, k + 1), rts) == supk);
                    assert(unsupk1 == unsupk.push(rs[k]));
                    assert forall|i2: int| 0 <= i2 < failed.deep_view().len() implies
                        failed.deep_view()[i2] == failed_before.push(
                            (WorkloadStateView {
                                instance_name: rs[k].instance_name,
                                execution_state: ExecutionStateView::Failed {
                                    reason: "unsupported runtime"@,
                                },
                            }),
                        )[i2] by {
                        if i2 < failed_shallow.len() {
                            assert(failed@[i2] == failed_shallow[i2]);
                            assert(failed.deep_view()[i2] == failed_before[i2]);
                        } else {
                            assert(failed@[i2] == reportv);
                            assert(failed.deep_view()[i2] == reportv.deep_view());
                            assert(reportv@.instance_name == rs[k].instance_name);
                        }
                    }
                    assert(failed.deep_view() =~= failed_before.push(
                        (WorkloadStateView {
                            instance_name: rs[k].instance_name,
                            execution_state: ExecutionStateView::Failed {
                                reason: "unsupported runtime"@,
                            },
                        }),
                    ));
                    assert(failed_states_of(unsupk1) =~= failed_states_of(unsupk).push(
                        (WorkloadStateView {
                            instance_name: rs[k].instance_name,
                            execution_state: ExecutionStateView::Failed {
                                reason: "unsupported runtime"@,
                            },
                        }),
                    ));
                    assert(failed.deep_view() =~= failed_states_of(unsupk1));
                    assert(self.view().live =~= live0 + instances_of(
                        supported_of(rs.subrange(0, k + 1), rts),
                    ));
                    assert(ops.deep_view() =~= delete_ops_of(rd) + create_ops_of(
                        supported_of(rs.subrange(0, k + 1), rts),
                    ));
                }
            }
        }
        proof {
            assert(rs.subrange(0, rs.len() as int) =~= rs);
            lemma_dispatch_preserves_inv(m0, states, self.view());
        }
        (ops, failed)
    }

    /// Startup reuse: the workload instances a runtime reports as
    /// already running are adopted into the live set when the first
    /// desired state still names them, and handed back as deletions
    /// otherwise. Runs once, before the first desired state is
    /// applied, on the manager's empty live set.
    pub fn adopt_reusable_workloads(
        &mut self,
        existing: Vec<WorkloadInstanceName>,
        desired: &Vec<WorkloadSpec>,
    ) -> (r: Vec<WorkloadOperation>)
        requires
            rm_wf(old(self)@),
            old(self)@.live.len() == 0,
            old(self)@.start_queue.len() == 0,
            live_names_unique(existing.deep_view()),
        ensures
            rm_wf(final(self)@),
            final(self)@.agent_name == old(self)@.agent_name,
            final(self)@.runtime_names == old(self)@.runtime_names,
            final(self)@.start_queue == old(self)@.start_queue,
            final(self)@.delete_queue == old(self)@.delete_queue,
            final(self)@.live == kept_of(existing.deep_view(), desired.deep_view()),
            r.deep_view() == delete_ops_of(
                dels_of(removed_of(existing.deep_view(), desired.deep_view())),
            ),
    {
        let ghost m0 = self.view();
        let ghost ev = existing.deep_view();
        let ghost dv = desired.deep_view();
        let mut ops: Vec<WorkloadOperation> = Vec::new();
        let mut remaining = existing;
        proof {
            assert(self.view().live =~= kept_of(ev.subrange(0, 0), dv));
            assert(ops.deep_view() =~= delete_ops_of(dels_of(removed_of(ev.subrange(0, 0), dv))));
        }
        while remaining.len() > 0
            invariant
                desired.deep_view() == dv,
                self.view().start_queue == m0.start_queue,
                self.view().delete_queue == m0.delete_queue,
                self.view().runtime_names == m0.runtime_names,
                self.view().agent_name == m0.agent_name,
                0 <= ev.len() - remaining.deep_view().len() <= ev.len(),
                remaining.deep_view() == ev.subrange(
                    ev.len() - remaining.deep_view().len(),
                    ev.len() as int,
                ),
                self.view().live == kept_of(
                    ev.subrange(0, ev.len() - remaining.deep_view().len()),
                    dv,
                ),
                ops.deep_view() == delete_ops_of(
                    dels_of(
                        removed_of(ev.subrange(0, ev.len() - remaining.deep_view().len()), dv),
                    ),
                ),
            decreases remaining.len(),
        {
            let ghost k = ev.len() - remaining.deep_view().len();
            let ghost before_shallow = remaining@;
            let ghost before_deep = remaining.deep_view();
            let inst = remaining.remove(0);
            let ghost instv = inst;
            proof {
                assert(before_deep[0] == before_shallow[0].deep_view());
                assert(inst.deep_view() == ev[k]);
                assert forall|i2: int| 0 <= i2 < remaining.deep_view().len() implies
                    remaining.deep_view()[i2] == before_deep[i2 + 1] by {
                    assert(remaining@[i2] == before_shallow[i2 + 1]);
                }
                assert(remaining.deep_view() =~= ev.subrange(k + 1, ev.len() as int));
                assert(ev.subrange(0, k + 1).drop_last() =~= ev.subrange(0, k));
                assert(ev.subrange(0, k + 1).last() == ev[k]);
            }
            if desired_contains_instance(desired, &inst) {
                let ghost live_before = self.view().live;
                let ghost live_shallow = self.live@;
                self.live.push(inst);
                proof {
                    assert forall|i2: int| 0 <= i2 < self.view().live.len() implies
                        self.view().live[i2] == live_before.push(ev[k])[i2] by {
                        if i2 < live_shallow.len() {
                            assert(self.live@[i2] == live_shallow[i2]);
                        } else {
                            assert(self.live@[i2] == instv);
                        }
                    }
                    assert(self.view().live =~= live_before.push(ev[k]));
                    assert(kept_of(ev.subrange(0, k + 1), dv) == kept_of(
                        ev.subrange(0, k),
                        dv,
                    ).push(ev[k]));
                    assert(removed_of(ev.subrange(0, k + 1), dv) == removed_of(
                        ev.subrange(0, k),
                        dv,
                    ));
                }
            } else {
                let ghost ops_before = ops.deep_view();
                let ghost ops_shallow = ops@;
                let op = WorkloadOperation::Delete(
                    DeletedWorkload { instance_name: inst, dependencies: Vec::new() },
                );
                let ghost opv = op;
                ops.push(op);
                proof {
                    let removed_k = removed_of(ev.subrange(0, k), dv);
                    let removed_k1 = removed_of(ev.subrange(0, k + 1), dv);
                    assert(removed_k1 == removed_k.push(ev[k]));
                    assert(kept_of(ev.subrange(0, k + 1), dv) == kept_of(ev.subrange(0, k), dv));
                    assert(opv.deep_view() matches WorkloadOperationView::Delete(d) && (
                    d.dependencies =~= Seq::<crate::workload_spec::DeleteDependencyView>::empty()));
                    assert(opv.deep_view() == WorkloadOperationView::Delete(
                        DeletedWorkloadView { instance_name: ev[k], dependencies: Seq::empty() },
                    ));
                    assert(ops_before.len() == removed_k.len());
                    assert(ops_shallow.len() == ops_before.len());
                    assert(ops@.len() == ops_shallow.len() + 1);
                    assert(ops.deep_view().len() == ops_shallow.len() + 1);
                    assert(removed_k1.len() == removed_k.len() + 1);
                    assert forall|i2: int| 0 <= i2 < ops.deep_view().len() implies
                        ops.deep_view()[i2] == delete_ops_of(dels_of(removed_k1))[i2] by {
                        assert(removed_k1[i2] == removed_k.push(ev[k])[i2]);
                        assert(delete_ops_of(dels_of(removed_k1))[i2]
                            == WorkloadOperationView::Delete(
                            DeletedWorkloadView {
                                instance_name: removed_k1[i2],
                                dependencies: Seq::empty(),
                            },
                        ));
                        if i2 < ops_shallow.len() {
                            assert(ops@[i2] == ops_shallow[i2]);
                            assert(ops.deep_view()[i2] == ops_before[i2]);
                            assert(ops_before[i2] == delete_ops_of(dels_of(removed_k))[i2]);
                            assert(delete_ops_of(dels_of(removed_k))[i2]
                                == WorkloadOperationView::Delete(
                                DeletedWorkloadView {
                                    instance_name: removed_k[i2],
                                    dependencies: Seq::empty(),
                                },
                            ));
                        } else {
                            assert(ops@[i2] == opv);
                            assert(ops.deep_view()[i2] == opv.deep_view());
                        }
                    }
                    assert(ops.deep_view() =~= delete_ops_of(dels_of(removed_k1)));
                }
            }
        }
        proof {
            assert(ev.subrange(0, ev.len() as int) =~= ev);
            lemma_kept_props(ev, dv);
            lemma_kept_unique(ev, dv);
        }
        ops
    }

    /// Applies one complete desired state: live instances it no longer
    /// names are deleted, desired instances that are not live are
    /// created as soon as their conditions hold, and creations queued
    /// for an earlier desired state are dropped. Returns the
    /// operations to run, in order (deletions first), and the failure
    /// reports for ready creations whose runtime is not registered.
    #[verifier::rlimit(50)]
    pub fn apply_desired_state(
        &mut self,
        desired: Vec<WorkloadSpec>,
        storage: &ParameterStorage,
    ) -> (r: (Vec<WorkloadOperation>, Vec<WorkloadState>))
        requires
            rm_wf(old(self)@),
            desired_names_unique(desired.deep_view()),
        ensures
            apply_relates(
                old(self)@,
                desired.deep_view(),
                storage@,
                final(self)@,
                r.0.deep_view(),
                r.1.deep_view(),
            ),
    {
        let ghost m0 = self.view();
        let ghost dv = desired.deep_view();
        let ghost states = storage@;
        let ghost live0 = m0.live;

        // The instance names the desired state mentions.
        let mut desired_instances: Vec<WorkloadInstanceName> = Vec::new();
        let n = desired.len();
        proof {
            assert(desired_instances.deep_view() =~= instances_of(dv.subrange(0, 0)));
        }
        let mut i: usize = 0;
        while i < n
            invariant
                n == desired.len(),
                desired.deep_view() == dv,
                i <= n,
                desired_instances.deep_view() == instances_of(dv.subrange(0, i as int)),
            decreases n - i,
        {
            let ghost before = desired_instances.deep_view();
            let ghost before_shallow = desired_instances@;
            let inst = desired[i].instance_name.duplicate();
            let ghost instv = inst;
            desired_instances.push(inst);
            proof {
                assert(desired[i as int].deep_view() == dv[i as int]);
                assert(instv@ == dv[i as int].instance_name);
                assert(before.len() == i as int);
                assert(before_shallow.len() == i as int);
                assert(desired_instances@.len() == i as int + 1);
                assert(desired_instances.deep_view().len() == i as int + 1);
                assert forall|i2: int| 0 <= i2 < desired_instances.deep_view().len() implies
                    desired_instances.deep_view()[i2] == instances_of(
                        dv.subrange(0, i as int + 1),
                    )[i2] by {
                    assert(dv.subrange(0, i as int + 1)[i2] == dv[i2]);
                    if i2 < before_shallow.len() {
                        assert(desired_instances@[i2] == before_shallow[i2]);
                        assert(desired_instances.deep_view()[i2] == before[i2]);
                        assert(dv.subrange(0, i as int)[i2] == dv[i2]);
                    } else {
                        assert(desired_instances@[i2] == instv);
                    }
                }
                assert(desired_instances.deep_view() =~= instances_of(dv.subrange(0, i as int + 1)));
            }
            i += 1;
        }
        proof {
            assert(dv.subrange(0, n as int) =~= dv);
        }

        // Diff the live set against the desired instances.
        let mut kept: Vec<WorkloadInstanceName> = Vec::new();
        let mut dels: Vec<DeletedWorkload> = Vec::new();
        proof {
            assert(kept.deep_view() =~= kept_of(live0.subrange(0, 0), dv));
            assert(dels.deep_view() =~= dels_of(removed_of(live0.subrange(0, 0), dv)));
        }
        while self.live.len() > 0
            invariant
                desired.deep_view() == dv,
                self.view().start_queue == m0.start_queue,
                self.view().delete_queue == m0.delete_queue,
                self.view().runtime_names == m0.runtime_names,
                self.view().agent_name == m0.agent_name,
                0 <= live0.len() - self.live.deep_view().len() <= live0.len(),
                self.live.deep_view() == live0.subrange(
                    live0.len() - self.live.deep_view().len(),
                    live0.len() as int,
                ),
                kept.deep_view() == kept_of(
                    live0.subrange(0, live0.len() - self.live.deep_view().len()),
                    dv,
                ),
                dels.deep_view() == dels_of(
                    removed_of(
                        live0.subrange(0, live0.len() - self.live.deep_view().len()),
                        dv,
                    ),
                ),
            decreases self.live.len(),
        {
            let ghost k = live0.len() - self.live.deep_view().len();
            let ghost before_shallow = self.live@;
            let ghost before_deep = self.live.deep_view();
            let inst = self.live.remove(0);
            let ghost instv = inst;
            proof {
                assert(before_deep[0] == before_shallow[0].deep_view());
                assert(inst.deep_view() == live0[k]);
                assert forall|i2: int| 0 <= i2 < self.live.deep_view().len() implies
                    self.live.deep_view()[i2] == before_deep[i2 + 1] by {
                    assert(self.live@[i2] == before_shallow[i2 + 1]);
                }
                assert(self.live.deep_view() =~= live0.subrange(k + 1, live0.len() as int));
                assert(live0.subrange(0, k + 1).drop_last() =~= live0.subrange(0, k));
                assert(live0.subrange(0, k + 1).last() == live0[k]);
            }
            if desired_contains_instance(&desired, &inst) {
                let ghost kept_before = kept.deep_view();
                let ghost kept_shallow = kept@;
                kept.push(inst);
                proof {
                    assert forall|i2: int| 0 <= i2 < kept.deep_view().len() implies
                        kept.deep_view()[i2] == kept_before.push(live0[k])[i2] by {
                        if i2 < kept_shallow.len() {
                            assert(kept@[i2] == kept_shallow[i2]);
                        } else {
                            assert(kept@[i2] == instv);
                        }
                    }
                    assert(kept.deep_view() =~= kept_before.push(live0[k]));
                    assert(kept_of(live0.subrange(0, k + 1), dv) == kept_of(
                        live0.subrange(0, k),
                        dv,
                    ).push(live0[k]));
                    assert(removed_of(live0.subrange(0, k + 1), dv) == removed_of(
                        live0.subrange(0, k),
                        dv,
                    ));
                }
            } else {
                let ghost dels_before = dels.deep_view();
                let ghost dels_shallow = dels@;
                let del = DeletedWorkload { instance_name: inst, dependencies: Vec::new() };
                let ghost delv = del;
                dels.push(del);
                proof {
                    let removed_k = removed_of(live0.subrange(0, k), dv);
                    let removed_k1 = removed_of(live0.subrange(0, k + 1), dv);
                    assert(removed_k1 == removed_k.push(live0[k]));
                    assert(kept_of(live0.subrange(0, k + 1), dv) == kept_of(
                        live0.subrange(0, k),
                        dv,
                    ));
                    assert(delv.deep_view().dependencies =~= Seq::<
                        crate::workload_spec::DeleteDependencyView,
                    >::empty());
                    assert(delv.deep_view() == (DeletedWorkloadView {
                        instance_name: live0[k],
                        dependencies: Seq::empty(),
                    }));
                    assert(dels_before.len() == removed_k.len());
                    assert(dels_shallow.len() == dels_before.len());
                    assert(dels@.len() == dels_shallow.len() + 1);
                    assert(dels.deep_view().len() == dels_shallow.len() + 1);
                    assert(removed_k1.len() == removed_k.len() + 1);
                    assert forall|i2: int| 0 <= i2 < dels.deep_view().len() implies
                        dels.deep_view()[i2] == dels_of(removed_k1)[i2] by {
                        assert(removed_k1[i2] == removed_k.push(live0[k])[i2]);
                        if i2 < dels_shallow.len() {
                            assert(dels@[i2] == dels_shallow[i2]);
                            assert(dels.deep_view()[i2] == dels_before[i2]);
                            assert(dels_before[i2] == dels_of(removed_k)[i2]);
                        } else {
                            assert(dels@[i2] == delv);
                            assert(dels.deep_view()[i2] == delv.deep_view());
                        }
                    }
                    assert(dels.deep_view() =~= dels_of(removed_k1));
                }
            }
        }
        proof {
            assert(live0.subrange(0, live0.len() as int) =~= live0);
        }
        self.live = kept;

        // The desired entries that are not live: the batch to enqueue.
        let mut batch: Vec<WorkloadSpec> = Vec::new();
        let mut remaining = desired;
        proof {
            lemma_kept_props(live0, dv);
            assert(batch.deep_view() =~= batch_of(dv.subrange(0, 0), live0));
        }
        while remaining.len() > 0
            invariant
                states == storage@,
                self.view().live == kept_of(live0, dv),
                self.view().start_queue == m0.start_queue,
                self.view().delete_queue == m0.delete_queue,
                self.view().runtime_names == m0.runtime_names,
                self.view().agent_name == m0.agent_name,
                0 <= dv.len() - remaining.deep_view().len() <= dv.len(),
                remaining.deep_view() == dv.subrange(
                    dv.len() - remaining.deep_view().len(),
                    dv.len() as int,
                ),
                batch.deep_view() == batch_of(
                    dv.subrange(0, dv.len() - remaining.deep_view().len()),
                    live0,
                ),
            decreases remaining.len(),
        {
            let ghost k = dv.len() - remaining.deep_view().len();
            let ghost before_shallow = remaining@;
            let ghost before_deep = remaining.deep_view();
            let w = remaining.remove(0);
            let ghost wv = w;
            proof {
                assert(before_deep[0] == before_shallow[0].deep_view());
                assert(w.deep_view() == dv[k]);
                assert forall|i2: int| 0 <= i2 < remaining.deep_view().len() implies
                    remaining.deep_view()[i2] == before_deep[i2 + 1] by {
                    assert(remaining@[i2] == before_shallow[i2 + 1]);
                }
                assert(remaining.deep_view() =~= dv.subrange(k + 1, dv.len() as int));
                assert(dv.subrange(0, k + 1).drop_last() =~= dv.subrange(0, k));
                assert(dv.subrange(0, k + 1).last() == dv[k]);
            }
            let in_live = live_contains_instance(&self.live, &w.instance_name);
            proof {
                lemma_kept_props(live0, dv);
                if in_live {
                    let j = choose|j: int|
                        0 <= j < kept_of(live0, dv).len() && kept_of(live0, dv)[j] == dv[
                            k
                        ].instance_name;
                    let j2 = choose|j2: int|
                        0 <= j2 < live0.len() && kept_of(live0, dv)[j] == live0[j2];
                    assert(live_has_instance(live0, dv[k].instance_name));
                } else {
                    if live_has_instance(live0, dv[k].instance_name) {
                        let j = choose|j: int|
                            0 <= j < live0.len() && live0[j] == dv[k].instance_name;
                        assert(desired_has_instance(dv, live0[j]));
                        lemma_kept_complete(live0, dv, j);
                        assert(live_has_instance(kept_of(live0, dv), dv[k].instance_name));
                        assert(false);
                    }
                }
            }
            if !in_live {
                let ghost batch_before = batch.deep_view();
                let ghost batch_shallow = batch@;
                batch.push(w);
                proof {
                    assert forall|i2: int| 0 <= i2 < batch.deep_view().len() implies
                        batch.deep_view()[i2] == batch_before.push(dv[k])[i2] by {
                        if i2 < batch_shallow.len() {
                            assert(batch@[i2] == batch_shallow[i2]);
                        } else {
                            assert(batch@[i2] == wv);
                        }
                    }
                    assert(batch.deep_view() =~= batch_before.push(dv[k]));
                    assert(batch_of(dv.subrange(0, k + 1), live0) == batch_of(
                        dv.subrange(0, k),
                        live0,
                    ).push(dv[k]));
                }
            } else {
                proof {
                    assert(batch_of(dv.subrange(0, k + 1), live0) == batch_of(
                        dv.subrange(0, k),
                        live0,
                    ));
                }
            }
        }
        proof {
            assert(dv.subrange(0, dv.len() as int) =~= dv);
        }
        let ghost batchv = batch_of(dv, live0);

        // Queue upkeep: stale creations leave, deletions merge in.
        proof {
            assert forall|i2: int, j2: int| 0 <= i2 < j2 < m0.start_queue.len() implies (
            #[trigger] m0.start_queue[i2]).instance_name != (
            #[trigger] m0.start_queue[j2]).instance_name by {
                assert(m0.start_queue[i2].instance_name.workload_name != m0.start_queue[
                    j2
                ].instance_name.workload_name);
            }
        }
        self.queue.retain_starts(&desired_instances);
        self.queue.put_on_delete_waiting_queue(dels);
        let ghost merged_del = self.view().delete_queue;
        let mut ready_dels = self.queue.next_workloads_to_delete(storage);
        let ghost rd = ready_dels.deep_view();

        // Synthesized deletions wait for nothing, so nothing stays in
        // the delete queue.
        proof {
            lemma_removed_props(live0, dv);
            if self.view().delete_queue.len() > 0 {
                crate::workload_queue::lemma_waiting_deletes_props(merged_del, states);
                let e = self.view().delete_queue[0];
                let p = choose|p: int| 0 <= p < merged_del.len() && merged_del[p] == e;
                assert forall|j2: int| p < j2 < merged_del.len() implies (
                #[trigger] merged_del[j2]).instance_name != merged_del[p].instance_name by {}
                crate::workload_queue::lemma_delete_entry_at(merged_del, e.instance_name, p);
                assert(delete_entry_of(merged_del, e.instance_name) == Option::Some(e));
                assert(delete_entry_of(m0.delete_queue, e.instance_name) is None) by {
                    assert(m0.delete_queue.len() == 0);
                }
                assert(delete_entry_of(dels.deep_view(), e.instance_name) == Option::Some(e));
                crate::workload_queue::lemma_delete_entry_some_element(
                    dels.deep_view(),
                    e.instance_name,
                );
                assert(e.dependencies.len() == 0);
                assert(deleted_workload_dependencies_fulfilled(e.dependencies, states));
                assert(false);
            }
        }

        // The delete operations, in drain order.
        let mut ops: Vec<WorkloadOperation> = Vec::new();
        proof {
            assert(ops.deep_view() =~= delete_ops_of(rd.subrange(0, 0)));
        }
        while ready_dels.len() > 0
            invariant
                rd == ready_deletes_of(merged_del, states),
                0 <= rd.len() - ready_dels.deep_view().len() <= rd.len(),
                ready_dels.deep_view() == rd.subrange(
                    rd.len() - ready_dels.deep_view().len(),
                    rd.len() as int,
                ),
                ops.deep_view() == delete_ops_of(
                    rd.subrange(0, rd.len() - ready_dels.deep_view().len()),
                ),
            decreases ready_dels.len(),
        {
            let ghost k = rd.len() - ready_dels.deep_view().len();
            let ghost before_shallow = ready_dels@;
            let ghost before_deep = ready_dels.deep_view();
            let ghost ops_before = ops.deep_view();
            let ghost ops_shallow = ops@;
            let d = ready_dels.remove(0);
            proof {
                assert(before_deep[0] == before_shallow[0].deep_view());
                assert(d.deep_view() == rd[k]);
                assert forall|i2: int| 0 <= i2 < ready_dels.deep_view().len() implies
                    ready_dels.deep_view()[i2] == before_deep[i2 + 1] by {
                    assert(ready_dels@[i2] == before_shallow[i2 + 1]);
                }
                assert(ready_dels.deep_view() =~= rd.subrange(k + 1, rd.len() as int));
            }
            let op = WorkloadOperation::Delete(d);
            let ghost opv = op;
            ops.push(op);
            proof {
                assert(ops_before.len() == k);
                assert(ops.deep_view().len() == k + 1);
                assert(delete_ops_of(rd.subrange(0, k + 1)).len() == k + 1);
                assert forall|i2: int| 0 <= i2 < k + 1 implies ops.deep_view()[i2]
                    == delete_ops_of(rd.subrange(0, k + 1))[i2] by {
                    assert(rd.subrange(0, k + 1)[i2] == rd[i2]);
                    assert(delete_ops_of(rd.subrange(0, k + 1))[i2]
                        == WorkloadOperationView::Delete(rd[i2]));
                    if i2 < k {
                        assert(ops@[i2] == ops_shallow[i2]);
                        assert(ops.deep_view()[i2] == ops_before[i2]);
                        assert(ops_before[i2] == delete_ops_of(rd.subrange(0, k))[i2]);
                        assert(delete_ops_of(rd.subrange(0, k))[i2]
                            == WorkloadOperationView::Delete(rd.subrange(0, k)[i2]));
                    } else {
                        assert(ops@[i2] == opv);
                        assert(ops.deep_view()[i2] == opv.deep_view());
                        assert(opv.deep_view() == WorkloadOperationView::Delete(rd[k]));
                    }
                }
                assert(ops.deep_view() =~= delete_ops_of(rd.subrange(0, k + 1)));
            }
        }
        proof {
            assert(rd.subrange(0, rd.len() as int) =~= rd);
        }

        // The desired creations join the start queue.
        proof {
            assert forall|i2: int, j2: int|
                0 <= i2 < batchv.len() && 0 <= j2 < self.view().delete_queue.len() implies (
            #[trigger] batchv[i2]).instance_name != (
            #[trigger] self.view().delete_queue[j2]).instance_name by {
                assert(self.view().delete_queue.len() == 0);
            }
        }
        self.queue.put_on_waiting_queue(batch);
        let ghost q1 = self.view().start_queue;

        proof {
            assert forall|n: WorkloadInstanceNameView| #![auto]
                start_entry_of(q1, n) == merged_start_entry(m0, dv, n) by {
                if delete_entry_of(m0.delete_queue, n) is Some {
                    assert(m0.delete_queue.len() == 0);
                    assert(false);
                }
            }
            assert forall|n: WorkloadInstanceNameView| #![auto]
                delete_entry_of(merged_del, n) == delete_entry_of(
                    dels_of(removed_of(live0, dv)),
                    n,
                ) by {
                if delete_entry_of(m0.delete_queue, n) is Some {
                    assert(m0.delete_queue.len() == 0);
                    assert(false);
                }
            }
            lemma_apply_pre_dispatch(m0, dv, states, self.view());
        }
        let (mut created_ops, failed) = self.dispatch_ready(storage);
        let ghost mid = self.view();
        let ghost created_ops_v = created_ops.deep_view();
        let ghost ops_dels = ops.deep_view();
        let ghost ops_shallow0 = ops@;
        let ghost created_shallow = created_ops@;
        ops.append(&mut created_ops);
        proof {
            assert forall|i2: int| 0 <= i2 < ops.deep_view().len() implies ops.deep_view()[i2] == (
            ops_dels + created_ops_v)[i2] by {
                if i2 < ops_shallow0.len() {
                    assert(ops@[i2] == ops_shallow0[i2]);
                } else {
                    assert(ops@[i2] == created_shallow[i2 - ops_shallow0.len()]);
                }
            }
            assert(ops.deep_view() =~= ops_dels + created_ops_v);
            lemma_apply_post(
                m0,
                dv,
                states,
                self.view(),
                q1,
                merged_del,
                rd,
                ops.deep_view(),
                failed.deep_view(),
            );
        }
        (ops, failed)
    }
}

/// What applying a desired state guarantees, stated over the models.
///
/// Deletions are decided for exactly the live instances the desired
/// state no longer names; creations for every desired instance that
/// is not live are either dispatched (when their conditions hold and
/// the runtime is registered), reported failed (unknown runtime), or
/// queued (conditions still unfulfilled); live instances the desired
/// state keeps stay live; and everything live or queued afterwards is
/// desired.
pub open spec fn apply_relates(
    m0: RuntimeManagerView,
    desired: Seq<WorkloadSpecView>,
    states: Map<Seq<char>, ExecutionStateView>,
    m1: RuntimeManagerView,
    ops: Seq<WorkloadOperationView>,
    failed: Seq<WorkloadStateView>,
) -> bool {
    &&& rm_wf(m1)
    &&& m1.agent_name == m0.agent_name
    &&& m1.runtime_names == m0.runtime_names
    &&& forall|k: int|
        0 <= k < m0.live.len() && desired_has_instance(desired, #[trigger] m0.live[k])
            ==> live_has_instance(m1.live, m0.live[k])
    &&& forall|i: int|
        0 <= i < m1.live.len() ==> desired_has_instance(desired, #[trigger] m1.live[i])
    &&& forall|k: int|
        0 <= k < desired.len() && !live_has_instance(
            m0.live,
            (#[trigger] desired[k]).instance_name,
        ) && runtime_supported(desired[k].runtime, m0.runtime_names) ==> live_has_instance(
            m1.live,
            desired[k].instance_name,
        ) || start_entry_of(m1.start_queue, desired[k].instance_name) == Option::Some(desired[k])
    &&& forall|i: int|
        0 <= i < m1.start_queue.len() ==> !workload_dependencies_fulfilled(
            (#[trigger] m1.start_queue[i]).dependencies,
            states,
        )
    &&& forall|i: int|
        0 <= i < m1.start_queue.len() ==> exists|j: int|
            0 <= j < desired.len() && (#[trigger] m1.start_queue[i]) == desired[j]
    &&& forall|i: int|
        0 <= i < ops.len() ==> ((#[trigger] ops[i]) matches WorkloadOperationView::Delete(d)
            ==> d.dependencies.len() == 0 && !live_has_instance(m1.live, d.instance_name) && exists|
            j: int,
        | 0 <= j < removed_of(m0.live, desired).len() && removed_of(m0.live, desired)[j]
            == d.instance_name)
    &&& forall|j: int|
        0 <= j < removed_of(m0.live, desired).len() ==> exists|i: int|
            0 <= i < ops.len() && ops[i] == WorkloadOperationView::Delete(
                DeletedWorkloadView {
                    instance_name: #[trigger] removed_of(m0.live, desired)[j],
                    dependencies: Seq::empty(),
                },
            )
    &&& forall|i: int|
        0 <= i < ops.len() ==> ((#[trigger] ops[i]) matches WorkloadOperationView::Create(w)
            ==> workload_dependencies_fulfilled(w.dependencies, states) && runtime_supported(
            w.runtime,
            m0.runtime_names,
        ) && live_has_instance(m1.live, w.instance_name) && !live_has_instance(
            m0.live,
            w.instance_name,
        ) && exists|j: int| 0 <= j < desired.len() && desired[j] == w)
    &&& forall|i: int|
        0 <= i < failed.len() ==> ((#[trigger] failed[i]).execution_state
            == (ExecutionStateView::Failed { reason: "unsupported runtime"@ }) && exists|j: int|
            0 <= j < desired.len() && desired[j].instance_name == failed[i].instance_name
                && workload_dependencies_fulfilled(desired[j].dependencies, states)
                && !runtime_supported(desired[j].runtime, m0.runtime_names)
                && !live_has_instance(m0.live, desired[j].instance_name))
}

/// The queue entry each name has after the diff's queue upkeep: the
/// desired creation where one was enqueued, else the retained old
/// entry.
pub open spec fn merged_start_entry(
    m0: RuntimeManagerView,
    desired: Seq<WorkloadSpecView>,
    name: WorkloadInstanceNameView,
) -> Option<WorkloadSpecView> {
    match start_entry_of(batch_of(desired, m0.live), name) {
        Option::Some(w) => Option::Some(w),
        Option::None => if delete_entry_of(
            dels_of(removed_of(m0.live, desired)),
            name,
        ) is Some {
            Option::<WorkloadSpecView>::None
        } else {
            start_entry_of(retained_starts_of(m0.start_queue, instances_of(desired)), name)
        },
    }
}

/// After the queue upkeep of a desired-state diff the manager
/// invariant holds of the intermediate state.
proof fn lemma_apply_pre_dispatch(
    m0: RuntimeManagerView,
    desired: Seq<WorkloadSpecView>,
    states: Map<Seq<char>, ExecutionStateView>,
    mq: RuntimeManagerView,
)
    requires
        rm_wf(m0),
        desired_names_unique(desired),
        mq.live == kept_of(m0.live, desired),
        mq.delete_queue.len() == 0,
        start_names_unique(mq.start_queue),
        forall|n: WorkloadInstanceNameView| #![auto]
            start_entry_of(mq.start_queue, n) == merged_start_entry(m0, desired, n),
    ensures
        rm_inv(mq),
{
    let batchv = batch_of(desired, m0.live);
    let retained = retained_starts_of(m0.start_queue, instances_of(desired));
    lemma_kept_props(m0.live, desired);
    lemma_kept_unique(m0.live, desired);
    lemma_batch_props(desired, m0.live);
    lemma_batch_unique(desired, m0.live);
    crate::workload_queue::lemma_retained_starts_props(m0.start_queue, instances_of(desired));
    // Each queue entry is a desired creation or a retained old entry.
    assert forall|i: int| 0 <= i < mq.start_queue.len() implies (exists|b: int|
        0 <= b < batchv.len() && batchv[b] == #[trigger] mq.start_queue[i]) || (exists|b: int|
        0 <= b < retained.len() && retained[b] == mq.start_queue[i]) by {
        let e = mq.start_queue[i];
        assert forall|j2: int| i < j2 < mq.start_queue.len() implies (
        #[trigger] mq.start_queue[j2]).instance_name != e.instance_name by {}
        crate::workload_queue::lemma_start_entry_at(mq.start_queue, e.instance_name, i);
        assert(start_entry_of(mq.start_queue, e.instance_name) == Option::Some(e));
        match start_entry_of(batchv, e.instance_name) {
            Option::Some(w) => {
                crate::workload_queue::lemma_start_entry_some_element(batchv, e.instance_name);
            },
            Option::None => {
                crate::workload_queue::lemma_start_entry_some_element(
                    retained,
                    e.instance_name,
                );
            },
        }
    }
    // Name-level uniqueness of the merged queue.
    assert forall|i: int, j: int|
        0 <= i < j < mq.start_queue.len() implies (
    #[trigger] mq.start_queue[i]).instance_name.workload_name != (
    #[trigger] mq.start_queue[j]).instance_name.workload_name by {
        let e1 = mq.start_queue[i];
        let e2 = mq.start_queue[j];
        assert(e1.instance_name != e2.instance_name);
        if e1.instance_name.workload_name == e2.instance_name.workload_name {
            lemma_merged_element_desired_instance(m0, desired, mq, i);
            lemma_merged_element_desired_instance(m0, desired, mq, j);
            let k1 = choose|k: int|
                0 <= k < desired.len() && (#[trigger] desired[k]).instance_name
                    == e1.instance_name;
            let k2 = choose|k: int|
                0 <= k < desired.len() && (#[trigger] desired[k]).instance_name
                    == e2.instance_name;
            if k1 != k2 {
                assert(desired[k1].instance_name.workload_name != desired[
                    k2
                ].instance_name.workload_name);
            }
            assert(false);
        }
    }
    // Live names stay apart from the queued creations.
    assert forall|i: int, j: int|
        0 <= i < mq.live.len() && 0 <= j < mq.start_queue.len() implies (
    #[trigger] mq.live[i]).workload_name != (
    #[trigger] mq.start_queue[j]).instance_name.workload_name by {
        let l = mq.live[i];
        let e = mq.start_queue[j];
        if l.workload_name == e.instance_name.workload_name {
            let jl = choose|j2: int| 0 <= j2 < m0.live.len() && l == m0.live[j2];
            if exists|b: int| 0 <= b < batchv.len() && batchv[b] == e {
                let b = choose|b: int| 0 <= b < batchv.len() && batchv[b] == e;
                let kd = choose|k: int| 0 <= k < desired.len() && batchv[b] == desired[k];
                let kl = choose|k: int|
                    0 <= k < desired.len() && (#[trigger] desired[k]).instance_name == l;
                if kd != kl {
                    assert(desired[kd].instance_name.workload_name != desired[
                        kl
                    ].instance_name.workload_name);
                } else {
                    assert(e.instance_name == l);
                    assert(live_has_instance(m0.live, e.instance_name));
                }
                assert(false);
            } else {
                let b = choose|b: int| 0 <= b < retained.len() && retained[b] == e;
                let p = choose|p: int|
                    0 <= p < m0.start_queue.len() && retained[b] == m0.start_queue[p];
                assert(m0.live[jl].workload_name != m0.start_queue[
                    p
                ].instance_name.workload_name);
                assert(false);
            }
        }
    }
}

/// Each entry of the merged start queue names a desired instance.
proof fn lemma_merged_element_desired_instance(
    m0: RuntimeManagerView,
    desired: Seq<WorkloadSpecView>,
    mq: RuntimeManagerView,
    i: int,
)
    requires
        rm_wf(m0),
        start_names_unique(mq.start_queue),
        forall|n: WorkloadInstanceNameView| #![auto]
            start_entry_of(mq.start_queue, n) == merged_start_entry(m0, desired, n),
        0 <= i < mq.start_queue.len(),
    ensures
        desired_has_instance(desired, mq.start_queue[i].instance_name),
{
    let batchv = batch_of(desired, m0.live);
    let retained = retained_starts_of(m0.start_queue, instances_of(desired));
    let e = mq.start_queue[i];
    assert forall|j2: int| i < j2 < mq.start_queue.len() implies (
    #[trigger] mq.start_queue[j2]).instance_name != e.instance_name by {}
    crate::workload_queue::lemma_start_entry_at(mq.start_queue, e.instance_name, i);
    assert(start_entry_of(mq.start_queue, e.instance_name) == Option::Some(e));
    match start_entry_of(batchv, e.instance_name) {
        Option::Some(w) => {
            crate::workload_queue::lemma_start_entry_some_element(batchv, e.instance_name);
            lemma_batch_props(desired, m0.live);
            let b = choose|b: int|
                0 <= b < batchv.len() && batchv[b] == e && batchv[b].instance_name
                    == e.instance_name;
            let kd = choose|k: int| 0 <= k < desired.len() && batchv[b] == desired[k];
            assert(desired[kd].instance_name == e.instance_name);
        },
        Option::None => {
            crate::workload_queue::lemma_start_entry_some_element(retained, e.instance_name);
            crate::workload_queue::lemma_retained_starts_props(
                m0.start_queue,
                instances_of(desired),
            );
            let b = choose|b: int|
                0 <= b < retained.len() && retained[b] == e && retained[b].instance_name
                    == e.instance_name;
            let ki = choose|k: int|
                0 <= k < instances_of(desired).len() && instances_of(desired)[k]
                    == e.instance_name;
            assert(desired[ki].instance_name == e.instance_name);
        },
    }
}

/// Each entry of the merged start queue is a desired creation whose
/// instance was not live when the diff was taken.
proof fn lemma_merged_element_is_desired(
    m0: RuntimeManagerView,
    desired: Seq<WorkloadSpecView>,
    q1: Seq<WorkloadSpecView>,
    i: int,
)
    requires
        rm_wf(m0),
        desired_names_unique(desired),
        start_names_unique(q1),
        forall|n: WorkloadInstanceNameView| #![auto]
            start_entry_of(q1, n) == merged_start_entry(m0, desired, n),
        0 <= i < q1.len(),
    ensures
        exists|j: int|
            0 <= j < desired.len() && q1[i] == desired[j] && !live_has_instance(
                m0.live,
                desired[j].instance_name,
            ),
{
    let batchv = batch_of(desired, m0.live);
    let retained = retained_starts_of(m0.start_queue, instances_of(desired));
    let e = q1[i];
    assert forall|j2: int| i < j2 < q1.len() implies (#[trigger] q1[j2]).instance_name
        != e.instance_name by {}
    crate::workload_queue::lemma_start_entry_at(q1, e.instance_name, i);
    assert(start_entry_of(q1, e.instance_name) == Option::Some(e));
    lemma_batch_props(desired, m0.live);
    lemma_batch_unique(desired, m0.live);
    match start_entry_of(batchv, e.instance_name) {
        Option::Some(w) => {
            crate::workload_queue::lemma_start_entry_some_element(batchv, e.instance_name);
            let b = choose|b: int|
                0 <= b < batchv.len() && batchv[b] == e && batchv[b].instance_name
                    == e.instance_name;
            let kd = choose|k: int| 0 <= k < desired.len() && batchv[b] == desired[k];
            assert(q1[i] == desired[kd] && !live_has_instance(
                m0.live,
                desired[kd].instance_name,
            ));
        },
        Option::None => {
            crate::workload_queue::lemma_start_entry_some_element(retained, e.instance_name);
            crate::workload_queue::lemma_retained_starts_props(
                m0.start_queue,
                instances_of(desired),
            );
            let b = choose|b: int|
                0 <= b < retained.len() && retained[b] == e && retained[b].instance_name
                    == e.instance_name;
            let p = choose|p: int|
                0 <= p < m0.start_queue.len() && retained[b] == m0.start_queue[p];
            let ki = choose|k: int|
                0 <= k < instances_of(desired).len() && instances_of(desired)[k]
                    == e.instance_name;
            assert(desired[ki].instance_name == e.instance_name);
            // The instance cannot be live: the old queue and the live
            // set share no workload name.
            assert forall|j2: int| 0 <= j2 < m0.live.len() implies (
            #[trigger] m0.live[j2]) != desired[ki].instance_name by {
                assert(m0.live[j2].workload_name != m0.start_queue[
                    p
                ].instance_name.workload_name);
            }
            assert(!live_has_instance(m0.live, desired[ki].instance_name));
            // So the batch holds this instance, and the merge would
            // have bound the name to the desired entry.
            lemma_batch_complete(desired, m0.live, ki);
            let b2 = choose|b2: int|
                0 <= b2 < batchv.len() && batchv[b2] == desired[ki];
            assert forall|j2: int| b2 < j2 < batchv.len() implies (
            #[trigger] batchv[j2]).instance_name != desired[ki].instance_name by {
                if batchv[j2].instance_name == desired[ki].instance_name {
                    assert(batchv[j2].instance_name.workload_name == batchv[
                        b2
                    ].instance_name.workload_name);
                }
            }
            crate::workload_queue::lemma_start_entry_at(batchv, e.instance_name, b2);
            assert(false);
        },
    }
}

/// Ties the post-dispatch state, the emitted operations and the
/// failure reports back to the desired state and the old manager
/// state.
#[verifier::rlimit(100)]
proof fn lemma_apply_post(
    m0: RuntimeManagerView,
    desired: Seq<WorkloadSpecView>,
    states: Map<Seq<char>, ExecutionStateView>,
    m1: RuntimeManagerView,
    q1: Seq<WorkloadSpecView>,
    merged_del: Seq<DeletedWorkloadView>,
    rd: Seq<DeletedWorkloadView>,
    ops: Seq<WorkloadOperationView>,
    failed: Seq<WorkloadStateView>,
)
    requires
        rm_wf(m0),
        desired_names_unique(desired),
        start_names_unique(q1),
        forall|n: WorkloadInstanceNameView| #![auto]
            start_entry_of(q1, n) == merged_start_entry(m0, desired, n),
        delete_names_unique(merged_del),
        forall|n: WorkloadInstanceNameView| #![auto]
            delete_entry_of(merged_del, n) == delete_entry_of(
                dels_of(removed_of(m0.live, desired)),
                n,
            ),
        rd == ready_deletes_of(merged_del, states),
        rm_inv(m1),
        m1.agent_name == m0.agent_name,
        m1.runtime_names == m0.runtime_names,
        m1.live == kept_of(m0.live, desired) + instances_of(
            supported_of(ready_starts_of(q1, states), m0.runtime_names),
        ),
        m1.start_queue == waiting_starts_of(q1, states),
        m1.delete_queue.len() == 0,
        ops == delete_ops_of(rd) + create_ops_of(
            supported_of(ready_starts_of(q1, states), m0.runtime_names),
        ),
        failed == failed_states_of(
            unsupported_of(ready_starts_of(q1, states), m0.runtime_names),
        ),
    ensures
        apply_relates(m0, desired, states, m1, ops, failed),
{
    let keptv = kept_of(m0.live, desired);
    let removed = removed_of(m0.live, desired);
    let dels_view = dels_of(removed);
    let rs = ready_starts_of(q1, states);
    let sup = supported_of(rs, m0.runtime_names);
    let unsup = unsupported_of(rs, m0.runtime_names);
    let created = instances_of(sup);
    lemma_kept_props(m0.live, desired);
    lemma_removed_props(m0.live, desired);
    lemma_removed_unique(m0.live, desired);
    crate::workload_queue::lemma_ready_starts_props(q1, states);
    crate::workload_queue::lemma_waiting_starts_props(q1, states);
    lemma_supported_props(rs, m0.runtime_names);
    lemma_unsupported_props(rs, m0.runtime_names);
    crate::workload_queue::lemma_ready_deletes_props(merged_del, states);
    assert(m1.delete_queue =~= Seq::<DeletedWorkloadView>::empty());
    // Kept live instances stay live.
    assert forall|k: int|
        0 <= k < m0.live.len() && desired_has_instance(desired, #[trigger] m0.live[k]) implies
        live_has_instance(m1.live, m0.live[k]) by {
        lemma_kept_complete(m0.live, desired, k);
        let i = choose|i: int| 0 <= i < keptv.len() && keptv[i] == m0.live[k];
        assert(m1.live[i] == m0.live[k]);
    }
    // Everything live afterwards is desired.
    assert forall|i: int| 0 <= i < m1.live.len() implies desired_has_instance(
        desired,
        #[trigger] m1.live[i],
    ) by {
        if i < keptv.len() {
            assert(m1.live[i] == keptv[i]);
        } else {
            assert(m1.live[i] == created[i - keptv.len()]);
            let j = choose|j: int| 0 <= j < rs.len() && sup[i - keptv.len()] == rs[j];
            let p = choose|p: int| 0 <= p < q1.len() && rs[j] == q1[p];
            lemma_merged_element_is_desired(m0, desired, q1, p);
            let kd = choose|k: int|
                0 <= k < desired.len() && q1[p] == desired[k] && !live_has_instance(
                    m0.live,
                    desired[k].instance_name,
                );
            assert(desired[kd].instance_name == m1.live[i]);
        }
    }
    // Every desired creation is placed: live once dispatched, queued
    // while it waits.
    assert forall|k: int|
        0 <= k < desired.len() && !live_has_instance(
            m0.live,
            (#[trigger] desired[k]).instance_name,
        ) && runtime_supported(desired[k].runtime, m0.runtime_names) implies live_has_instance(
        m1.live,
        desired[k].instance_name,
    ) || start_entry_of(m1.start_queue, desired[k].instance_name) == Option::Some(
        desired[k],
    ) by {
        let batchv = batch_of(desired, m0.live);
        lemma_batch_complete(desired, m0.live, k);
        lemma_batch_props(desired, m0.live);
        lemma_batch_unique(desired, m0.live);
        let b = choose|b: int| 0 <= b < batchv.len() && batchv[b] == desired[k];
        assert forall|j2: int| b < j2 < batchv.len() implies (
        #[trigger] batchv[j2]).instance_name != desired[k].instance_name by {
            if batchv[j2].instance_name == desired[k].instance_name {
                assert(batchv[j2].instance_name.workload_name == batchv[
                    b
                ].instance_name.workload_name);
            }
        }
        crate::workload_queue::lemma_start_entry_at(batchv, desired[k].instance_name, b);
        assert(start_entry_of(q1, desired[k].instance_name) == Option::Some(desired[k]));
        crate::workload_queue::lemma_start_entry_some_element(q1, desired[k].instance_name);
        let p = choose|p: int|
            0 <= p < q1.len() && q1[p] == desired[k] && q1[p].instance_name == desired[
                k
            ].instance_name;
        if workload_dependencies_fulfilled(desired[k].dependencies, states) {
            crate::workload_queue::lemma_ready_starts_complete(q1, states, p);
            let j = choose|j: int| 0 <= j < rs.len() && rs[j] == q1[p];
            lemma_supported_complete(rs, m0.runtime_names, j);
            let sj = choose|sj: int| 0 <= sj < sup.len() && sup[sj] == rs[j];
            assert(m1.live[keptv.len() + sj] == created[sj]);
            assert(created[sj] == desired[k].instance_name);
            assert(live_has_instance(m1.live, desired[k].instance_name));
        } else {
            crate::workload_queue::lemma_waiting_starts_entry(
                q1,
                states,
                desired[k].instance_name,
            );
        }
    }
    // Queued creations afterwards are desired entries.
    assert forall|i: int| 0 <= i < m1.start_queue.len() implies exists|j: int|
        0 <= j < desired.len() && (#[trigger] m1.start_queue[i]) == desired[j] by {
        let p = choose|p: int| 0 <= p < q1.len() && m1.start_queue[i] == q1[p];
        lemma_merged_element_is_desired(m0, desired, q1, p);
        let kd = choose|k: int|
            0 <= k < desired.len() && q1[p] == desired[k] && !live_has_instance(
                m0.live,
                desired[k].instance_name,
            );
        assert(m1.start_queue[i] == desired[kd]);
    }
    // Delete operations tear down exactly the dropped instances.
    assert forall|i: int| 0 <= i < ops.len() implies ((#[trigger] ops[i])
        matches WorkloadOperationView::Delete(d) ==> d.dependencies.len() == 0
        && !live_has_instance(m1.live, d.instance_name) && exists|j: int|
        0 <= j < removed.len() && removed[j] == d.instance_name) by {
        match ops[i] {
            WorkloadOperationView::Delete(d) => {
            assert(i < rd.len());
            assert(ops[i] == delete_ops_of(rd)[i]);
            assert(d == rd[i]);
            let p = choose|p: int| 0 <= p < merged_del.len() && rd[i] == merged_del[p];
            assert forall|j2: int| p < j2 < merged_del.len() implies (
            #[trigger] merged_del[j2]).instance_name != merged_del[p].instance_name by {}
            crate::workload_queue::lemma_delete_entry_at(merged_del, d.instance_name, p);
            assert(delete_entry_of(dels_view, d.instance_name) == Option::Some(d));
            crate::workload_queue::lemma_delete_entry_some_element(
                dels_view,
                d.instance_name,
            );
            let q = choose|q: int|
                0 <= q < dels_view.len() && dels_view[q] == d && dels_view[q].instance_name
                    == d.instance_name;
            assert(dels_view[q] == (DeletedWorkloadView {
                instance_name: removed[q],
                dependencies: Seq::empty(),
            }));
            assert(removed[q] == d.instance_name);
            assert(d.dependencies.len() == 0);
            assert forall|i2: int| 0 <= i2 < m1.live.len() implies (#[trigger] m1.live[i2])
                != d.instance_name by {
                assert(desired_has_instance(desired, m1.live[i2]));
                if m1.live[i2] == d.instance_name {
                    assert(!desired_has_instance(desired, removed[q]));
                }
            }
            assert(!live_has_instance(m1.live, d.instance_name));
            },
            WorkloadOperationView::Create(_) => {},
        }
    }
    // Every dropped instance gets its delete operation.
    assert forall|j: int| 0 <= j < removed.len() implies exists|i: int|
        0 <= i < ops.len() && ops[i] == WorkloadOperationView::Delete(
            DeletedWorkloadView {
                instance_name: #[trigger] removed[j],
                dependencies: Seq::empty(),
            },
        ) by {
        let d = DeletedWorkloadView { instance_name: removed[j], dependencies: Seq::empty() };
        assert(dels_view[j] == d);
        assert forall|j2: int| j < j2 < dels_view.len() implies (
        #[trigger] dels_view[j2]).instance_name != d.instance_name by {
            assert(dels_view[j2].instance_name == removed[j2]);
            assert(removed[j2].workload_name != removed[j].workload_name);
        }
        crate::workload_queue::lemma_delete_entry_at(dels_view, d.instance_name, j);
        assert(delete_entry_of(merged_del, d.instance_name) == Option::Some(d));
        crate::workload_queue::lemma_delete_entry_some_element(merged_del, d.instance_name);
        let p = choose|p: int|
            0 <= p < merged_del.len() && merged_del[p] == d && merged_del[p].instance_name
                == d.instance_name;
        assert(deleted_workload_dependencies_fulfilled(merged_del[p].dependencies, states));
        crate::workload_queue::lemma_ready_deletes_complete(merged_del, states, p);
        let ri = choose|ri: int| 0 <= ri < rd.len() && rd[ri] == merged_del[p];
        assert(ops[ri] == delete_ops_of(rd)[ri]);
        assert(ops[ri] == WorkloadOperationView::Delete(d));
    }
    // Create operations start exactly the ready, registered creations.
    assert forall|i: int| 0 <= i < ops.len() implies ((#[trigger] ops[i])
        matches WorkloadOperationView::Create(w) ==> workload_dependencies_fulfilled(
        w.dependencies,
        states,
    ) && runtime_supported(w.runtime, m0.runtime_names) && live_has_instance(
        m1.live,
        w.instance_name,
    ) && !live_has_instance(m0.live, w.instance_name) && exists|j: int|
        0 <= j < desired.len() && desired[j] == w) by {
        match ops[i] {
            WorkloadOperationView::Create(w) => {
                if i < rd.len() {
                    assert(ops[i] == delete_ops_of(rd)[i]);
                    assert(false);
                }
                let si = i - rd.len();
                assert(ops[i] == create_ops_of(sup)[si]);
                assert(w == sup[si]);
                let j = choose|j: int| 0 <= j < rs.len() && sup[si] == rs[j];
                let p = choose|p: int| 0 <= p < q1.len() && rs[j] == q1[p];
                lemma_merged_element_is_desired(m0, desired, q1, p);
                assert(m1.live[keptv.len() + si] == created[si]);
                assert(live_has_instance(m1.live, w.instance_name));
            },
            WorkloadOperationView::Delete(_) => {},
        }
    }
    // Failure reports name exactly the ready creations on an unknown
    // runtime.
    assert forall|i: int| 0 <= i < failed.len() implies ((
    #[trigger] failed[i]).execution_state == (ExecutionStateView::Failed {
        reason: "unsupported runtime"@,
    }) && exists|j: int|
        0 <= j < desired.len() && desired[j].instance_name == failed[i].instance_name
            && workload_dependencies_fulfilled(desired[j].dependencies, states)
            && !runtime_supported(desired[j].runtime, m0.runtime_names) && !live_has_instance(
            m0.live,
            desired[j].instance_name,
        )) by {
        assert(failed[i] == failed_states_of(unsup)[i]);
        let j = choose|j: int| 0 <= j < rs.len() && unsup[i] == rs[j];
        let p = choose|p: int| 0 <= p < q1.len() && rs[j] == q1[p];
        lemma_merged_element_is_desired(m0, desired, q1, p);
        let kd = choose|k: int|
            0 <= k < desired.len() && q1[p] == desired[k] && !live_has_instance(
                m0.live,
                desired[k].instance_name,
            );
        assert(desired[kd].instance_name == failed[i].instance_name);
        assert(workload_dependencies_fulfilled(desired[kd].dependencies, states));
        assert(!runtime_supported(desired[kd].runtime, m0.runtime_names));
    }
}

/// After a drain-and-dispatch pass the manager invariant still holds.
proof fn lemma_dispatch_preserves_inv(
    m0: RuntimeManagerView,
    states: Map<Seq<char>, ExecutionStateView>,
    m1: RuntimeManagerView,
)
    requires
        rm_inv(m0),
        m1.start_queue == waiting_starts_of(m0.start_queue, states),
        m1.delete_queue == waiting_deletes_of(m0.delete_queue, states),
        m1.live == m0.live + instances_of(
            supported_of(ready_starts_of(m0.start_queue, states), m0.runtime_names),
        ),
    ensures
        rm_inv(m1),
{
    let rs = ready_starts_of(m0.start_queue, states);
    let sup = supported_of(rs, m0.runtime_names);
    let created = instances_of(sup);
    assert forall|i: int, j: int| 0 <= i < j < m0.start_queue.len() implies (
    #[trigger] m0.start_queue[i]).instance_name != (
    #[trigger] m0.start_queue[j]).instance_name by {
        assert(m0.start_queue[i].instance_name.workload_name != m0.start_queue[
            j
        ].instance_name.workload_name);
    }
    crate::workload_queue::lemma_waiting_starts_props(m0.start_queue, states);
    crate::workload_queue::lemma_waiting_starts_unique(m0.start_queue, states);
    crate::workload_queue::lemma_waiting_deletes_props(m0.delete_queue, states);
    crate::workload_queue::lemma_waiting_deletes_unique(m0.delete_queue, states);
    crate::workload_queue::lemma_ready_starts_props(m0.start_queue, states);
    crate::workload_queue::lemma_ready_starts_unique(m0.start_queue, states);
    lemma_supported_props(rs, m0.runtime_names);
    lemma_supported_unique(rs, m0.runtime_names);
    // Every created instance is a ready entry of the old start queue.
    assert forall|i: int| 0 <= i < created.len() implies exists|p: int|
        0 <= p < m0.start_queue.len() && (#[trigger] created[i]) == m0.start_queue[
            p
        ].instance_name && workload_dependencies_fulfilled(
            m0.start_queue[p].dependencies,
            states,
        ) by {
        let j = choose|j: int| 0 <= j < rs.len() && sup[i] == rs[j];
        let p = choose|p: int| 0 <= p < m0.start_queue.len() && rs[j] == m0.start_queue[p];
        assert(created[i] == sup[i].instance_name);
        assert(m0.start_queue[p].instance_name == created[i]);
    }
    // The waiting entries keep their place in the old queue too.
    assert forall|i: int| 0 <= i < m1.start_queue.len() implies exists|p: int|
        0 <= p < m0.start_queue.len() && (#[trigger] m1.start_queue[i]) == m0.start_queue[p]
            && !workload_dependencies_fulfilled(m0.start_queue[p].dependencies, states) by {
        let p = choose|p: int|
            0 <= p < m0.start_queue.len() && waiting_starts_of(m0.start_queue, states)[i]
                == m0.start_queue[p];
        assert(m1.start_queue[i] == m0.start_queue[p]);
    }
    assert forall|i: int| 0 <= i < m1.delete_queue.len() implies exists|p: int|
        0 <= p < m0.delete_queue.len() && (#[trigger] m1.delete_queue[i]) == m0.delete_queue[
            p
        ] by {
        let p = choose|p: int|
            0 <= p < m0.delete_queue.len() && waiting_deletes_of(m0.delete_queue, states)[i]
                == m0.delete_queue[p];
        assert(m1.delete_queue[i] == m0.delete_queue[p]);
    }
    // Live names stay unique: old live was unique and disjoint from
    // the start queue; created names are distinct queued names.
    assert forall|i: int, j: int|
        0 <= i < j < m1.live.len() implies (#[trigger] m1.live[i]).workload_name != (
    #[trigger] m1.live[j]).workload_name by {
        if i >= m0.live.len() {
            assert(m1.live[i] == created[i - m0.live.len()]);
            assert(m1.live[j] == created[j - m0.live.len()]);
            let pi = choose|p: int|
                0 <= p < m0.start_queue.len() && created[i - m0.live.len()] == m0.start_queue[
                    p
                ].instance_name && workload_dependencies_fulfilled(
                    m0.start_queue[p].dependencies,
                    states,
                );
            let pj = choose|p: int|
                0 <= p < m0.start_queue.len() && created[j - m0.live.len()] == m0.start_queue[
                    p
                ].instance_name && workload_dependencies_fulfilled(
                    m0.start_queue[p].dependencies,
                    states,
                );
            if pi == pj {
                assert(sup[i - m0.live.len()].instance_name == sup[
                    j - m0.live.len()
                ].instance_name);
                assert(false);
            } else {
                assert(m0.start_queue[pi].instance_name.workload_name != m0.start_queue[
                    pj
                ].instance_name.workload_name);
            }
        } else if j >= m0.live.len() {
            let pj = choose|p: int|
                0 <= p < m0.start_queue.len() && created[j - m0.live.len()] == m0.start_queue[
                    p
                ].instance_name && workload_dependencies_fulfilled(
                    m0.start_queue[p].dependencies,
                    states,
                );
            assert(m0.live[i].workload_name != m0.start_queue[pj].instance_name.workload_name);
        }
    }
    // Live names stay apart from everything still queued.
    assert forall|i: int, j: int|
        0 <= i < m1.live.len() && 0 <= j < m1.start_queue.len() implies (
    #[trigger] m1.live[i]).workload_name != (
    #[trigger] m1.start_queue[j]).instance_name.workload_name by {
        let pw = choose|p: int|
            0 <= p < m0.start_queue.len() && m1.start_queue[j] == m0.start_queue[p]
                && !workload_dependencies_fulfilled(m0.start_queue[p].dependencies, states);
        if i >= m0.live.len() {
            let pc = choose|p: int|
                0 <= p < m0.start_queue.len() && created[i - m0.live.len()] == m0.start_queue[
                    p
                ].instance_name && workload_dependencies_fulfilled(
                    m0.start_queue[p].dependencies,
                    states,
                );
            assert(m1.live[i] == created[i - m0.live.len()]);
            if pc == pw {
                assert(false);
            } else {
                assert(m0.start_queue[pc].instance_name.workload_name != m0.start_queue[
                    pw
                ].instance_name.workload_name);
            }
        }
    }
    // Queued creation names stay unique.
    assert forall|i: int, j: int|
        0 <= i < j < m1.start_queue.len() implies (
    #[trigger] m1.start_queue[i]).instance_name.workload_name != (
    #[trigger] m1.start_queue[j]).instance_name.workload_name by {
        crate::workload_queue::lemma_waiting_starts_unique(m0.start_queue, states);
        let pi = choose|p: int|
            0 <= p < m0.start_queue.len() && m1.start_queue[i] == m0.start_queue[p]
                && !workload_dependencies_fulfilled(m0.start_queue[p].dependencies, states);
        let pj = choose|p: int|
            0 <= p < m0.start_queue.len() && m1.start_queue[j] == m0.start_queue[p]
                && !workload_dependencies_fulfilled(m0.start_queue[p].dependencies, states);
        if pi == pj {
            assert(m1.start_queue[i] == m1.start_queue[j]);
            assert(waiting_starts_of(m0.start_queue, states)[i].instance_name
                != waiting_starts_of(m0.start_queue, states)[j].instance_name);
            assert(false);
        } else {
            assert(m0.start_queue[pi].instance_name.workload_name != m0.start_queue[
                pj
            ].instance_name.workload_name);
        }
    }
    assert forall|i: int, j: int|
        0 <= i < m1.live.len() && 0 <= j < m1.delete_queue.len() implies (
    #[trigger] m1.live[i]).workload_name != (
    #[trigger] m1.delete_queue[j]).instance_name.workload_name by {
        let pd = choose|p: int|
            0 <= p < m0.delete_queue.len() && m1.delete_queue[j] == m0.delete_queue[p];
        if i >= m0.live.len() {
            let pc = choose|p: int|
                0 <= p < m0.start_queue.len() && created[i - m0.live.len()] == m0.start_queue[
                    p
                ].instance_name && workload_dependencies_fulfilled(
                    m0.start_queue[p].dependencies,
                    states,
                );
            assert(m1.live[i] == created[i - m0.live.len()]);
            assert(m0.start_queue[pc].instance_name.workload_name != m0.delete_queue[
                pd
            ].instance_name.workload_name);
        }
    }
    assert forall|i: int, j: int|
        0 <= i < m1.start_queue.len() && 0 <= j < m1.delete_queue.len() implies (
    #[trigger] m1.start_queue[i]).instance_name.workload_name != (
    #[trigger] m1.delete_queue[j]).instance_name.workload_name by {
        let pw = choose|p: int|
            0 <= p < m0.start_queue.len() && m1.start_queue[i] == m0.start_queue[p]
                && !workload_dependencies_fulfilled(m0.start_queue[p].dependencies, states);
        let pd = choose|p: int|
            0 <= p < m0.delete_queue.len() && m1.delete_queue[j] == m0.delete_queue[p];
        assert(m0.start_queue[pw].instance_name.workload_name != m0.delete_queue[
            pd
        ].instance_name.workload_name);
    }
}

} // verus!
