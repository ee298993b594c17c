//! The two waiting queues of the dependency-aware scheduler: creations
//! and deletions that cannot run yet, keyed by instance name.

use vstd::prelude::*;

use crate::execution_state::ExecutionStateView;
use crate::instance_name::{WorkloadInstanceName, WorkloadInstanceNameView};
use crate::parameter_storage::ParameterStorage;
use crate::state_validator::{deleted_workload_dependencies_fulfilled, StateValidator,
    workload_dependencies_fulfilled};
use crate::workload_spec::{DeletedWorkload, DeletedWorkloadView, WorkloadSpec, WorkloadSpecView};

verus! {

/// The entry a sequence of specs holds for an instance name: the last
/// one, so that a later entry for the same name wins.
pub open spec fn start_entry_of(
    q: Seq<WorkloadSpecView>,
    name: WorkloadInstanceNameView,
) -> Option<WorkloadSpecView>
    decreases q.len(),
{
    if q.len() == 0 {
        Option::None
    } else if q.last().instance_name == name {
        Option::Some(q.last())
    } else {
        start_entry_of(q.drop_last(), name)
    }
}

/// The entry a sequence of deletions holds for an instance name.
pub open spec fn delete_entry_of(
    q: Seq<DeletedWorkloadView>,
    name: WorkloadInstanceNameView,
) -> Option<DeletedWorkloadView>
    decreases q.len(),
{
    if q.len() == 0 {
        Option::None
    } else if q.last().instance_name == name {
        Option::Some(q.last())
    } else {
        delete_entry_of(q.drop_last(), name)
    }
}

/// No two specs share an instance name.
pub open spec fn start_names_unique(q: Seq<WorkloadSpecView>) -> bool {
    forall|i: int, j: int|
        0 <= i < j < q.len() ==> (#[trigger] q[i]).instance_name != (#[trigger] q[j]).instance_name
}

/// No two deletions share an instance name.
pub open spec fn delete_names_unique(q: Seq<DeletedWorkloadView>) -> bool {
    forall|i: int, j: int|
        0 <= i < j < q.len() ==> (#[trigger] q[i]).instance_name != (#[trigger] q[j]).instance_name
}

/// No instance name is waiting both as a creation and as a deletion.
pub open spec fn queues_disjoint(
    starts: Seq<WorkloadSpecView>,
    deletes: Seq<DeletedWorkloadView>,
) -> bool {
    forall|i: int, j: int|
        0 <= i < starts.len() && 0 <= j < deletes.len() ==> (#[trigger] starts[i]).instance_name
            != (#[trigger] deletes[j]).instance_name
}

pub proof fn lemma_start_entry_none(q: Seq<WorkloadSpecView>, name: WorkloadInstanceNameView)
    requires
        forall|i: int| 0 <= i < q.len() ==> (#[trigger] q[i]).instance_name != name,
    ensures
        start_entry_of(q, name) is None,
    decreases q.len(),
{
    if q.len() > 0 {
        lemma_start_entry_none(q.drop_last(), name);
    }
}

pub proof fn lemma_start_entry_at(q: Seq<WorkloadSpecView>, name: WorkloadInstanceNameView, k: int)
    requires
        0 <= k < q.len(),
        q[k].instance_name == name,
        forall|j: int| k < j < q.len() ==> (#[trigger] q[j]).instance_name != name,
    ensures
        start_entry_of(q, name) == Option::Some(q[k]),
    decreases q.len(),
{
    if k < q.len() - 1 {
        lemma_start_entry_at(q.drop_last(), name, k);
    }
}

pub proof fn lemma_delete_entry_none(q: Seq<DeletedWorkloadView>, name: WorkloadInstanceNameView)
    requires
        forall|i: int| 0 <= i < q.len() ==> (#[trigger] q[i]).instance_name != name,
    ensures
        delete_entry_of(q, name) is None,
    decreases q.len(),
{
    if q.len() > 0 {
        lemma_delete_entry_none(q.drop_last(), name);
    }
}

pub proof fn lemma_delete_entry_at(q: Seq<DeletedWorkloadView>, name: WorkloadInstanceNameView, k: int)
    requires
        0 <= k < q.len(),
        q[k].instance_name == name,
        forall|j: int| k < j < q.len() ==> (#[trigger] q[j]).instance_name != name,
    ensures
        delete_entry_of(q, name) == Option::Some(q[k]),
    decreases q.len(),
{
    if k < q.len() - 1 {
        lemma_delete_entry_at(q.drop_last(), name, k);
    }
}

/// Replacing the last entry for a name rebinds that name and nothing
/// else.
proof fn lemma_start_entry_update(
    q: Seq<WorkloadSpecView>,
    k: int,
    w: WorkloadSpecView,
    name: WorkloadInstanceNameView,
)
    requires
        0 <= k < q.len(),
        q[k].instance_name == w.instance_name,
        forall|j: int| k < j < q.len() ==> (#[trigger] q[j]).instance_name != w.instance_name,
    ensures
        start_entry_of(q.update(k, w), name) == if name == w.instance_name {
            Option::Some(w)
        } else {
            start_entry_of(q, name)
        },
    decreases q.len(),
{
    let updated = q.update(k, w);
    if k == q.len() - 1 {
        assert(updated.drop_last() =~= q.drop_last());
    } else {
        assert(updated.last() == q.last());
        if q.last().instance_name == name {
            assert(w.instance_name != name);
        } else {
            assert(updated.drop_last() =~= q.drop_last().update(k, w));
            lemma_start_entry_update(q.drop_last(), k, w, name);
        }
    }
}

proof fn lemma_delete_entry_update(
    q: Seq<DeletedWorkloadView>,
    k: int,
    w: DeletedWorkloadView,
    name: WorkloadInstanceNameView,
)
    requires
        0 <= k < q.len(),
        q[k].instance_name == w.instance_name,
        forall|j: int| k < j < q.len() ==> (#[trigger] q[j]).instance_name != w.instance_name,
    ensures
        delete_entry_of(q.update(k, w), name) == if name == w.instance_name {
            Option::Some(w)
        } else {
            delete_entry_of(q, name)
        },
    decreases q.len(),
{
    let updated = q.update(k, w);
    if k == q.len() - 1 {
        assert(updated.drop_last() =~= q.drop_last());
    } else {
        assert(updated.last() == q.last());
        if q.last().instance_name == name {
            assert(w.instance_name != name);
        } else {
            assert(updated.drop_last() =~= q.drop_last().update(k, w));
            lemma_delete_entry_update(q.drop_last(), k, w, name);
        }
    }
}

/// Removing the only entry for a name unbinds that name and nothing
/// else.
proof fn lemma_start_entry_remove(
    q: Seq<WorkloadSpecView>,
    k: int,
    name: WorkloadInstanceNameView,
)
    requires
        0 <= k < q.len(),
        start_names_unique(q),
    ensures
        start_entry_of(q.remove(k), name) == if name == q[k].instance_name {
            Option::None
        } else {
            start_entry_of(q, name)
        },
    decreases q.len(),
{
    let removed = q.remove(k);
    if k == q.len() - 1 {
        assert(removed =~= q.drop_last());
        if name == q[k].instance_name {
            lemma_start_entry_none(q.drop_last(), name);
        }
    } else {
        assert(removed.last() == q.last());
        assert(removed.drop_last() =~= q.drop_last().remove(k));
        if q.last().instance_name != name {
            lemma_start_entry_remove(q.drop_last(), k, name);
        }
    }
}

/// The creations of `q` whose conditions hold of the recorded states,
/// in queue order.
pub open spec fn ready_starts_of(
    q: Seq<WorkloadSpecView>,
    states: Map<Seq<char>, ExecutionStateView>,
) -> Seq<WorkloadSpecView>
    decreases q.len(),
{
    if q.len() == 0 {
        Seq::empty()
    } else if workload_dependencies_fulfilled(q.last().dependencies, states) {
        ready_starts_of(q.drop_last(), states).push(q.last())
    } else {
        ready_starts_of(q.drop_last(), states)
    }
}

/// The creations of `q` with an unfulfilled condition, in queue order.
pub open spec fn waiting_starts_of(
    q: Seq<WorkloadSpecView>,
    states: Map<Seq<char>, ExecutionStateView>,
) -> Seq<WorkloadSpecView>
    decreases q.len(),
{
    if q.len() == 0 {
        Seq::empty()
    } else if workload_dependencies_fulfilled(q.last().dependencies, states) {
        waiting_starts_of(q.drop_last(), states)
    } else {
        waiting_starts_of(q.drop_last(), states).push(q.last())
    }
}

/// The deletions of `q` whose conditions hold of the recorded states,
/// in queue order.
pub open spec fn ready_deletes_of(
    q: Seq<DeletedWorkloadView>,
    states: Map<Seq<char>, ExecutionStateView>,
) -> Seq<DeletedWorkloadView>
    decreases q.len(),
{
    if q.len() == 0 {
        Seq::empty()
    } else if deleted_workload_dependencies_fulfilled(q.last().dependencies, states) {
        ready_deletes_of(q.drop_last(), states).push(q.last())
    } else {
        ready_deletes_of(q.drop_last(), states)
    }
}

/// The deletions of `q` with an unfulfilled condition, in queue order.
pub open spec fn waiting_deletes_of(
    q: Seq<DeletedWorkloadView>,
    states: Map<Seq<char>, ExecutionStateView>,
) -> Seq<DeletedWorkloadView>
    decreases q.len(),
{
    if q.len() == 0 {
        Seq::empty()
    } else if deleted_workload_dependencies_fulfilled(q.last().dependencies, states) {
        waiting_deletes_of(q.drop_last(), states)
    } else {
        waiting_deletes_of(q.drop_last(), states).push(q.last())
    }
}

/// Every ready creation is fulfilled and stood in the queue.
pub proof fn lemma_ready_starts_props(
    q: Seq<WorkloadSpecView>,
    states: Map<Seq<char>, ExecutionStateView>,
)
    ensures
        forall|i: int|
            0 <= i < ready_starts_of(q, states).len() ==> workload_dependencies_fulfilled(
                (#[trigger] ready_starts_of(q, states)[i]).dependencies,
                states,
            ) && exists|j: int| 0 <= j < q.len() && ready_starts_of(q, states)[i] == q[j],
    decreases q.len(),
{
    if q.len() > 0 {
        lemma_ready_starts_props(q.drop_last(), states);
        assert forall|i: int| 0 <= i < ready_starts_of(q, states).len() implies
            workload_dependencies_fulfilled(
                (#[trigger] ready_starts_of(q, states)[i]).dependencies,
                states,
            ) && exists|j: int| 0 <= j < q.len() && ready_starts_of(q, states)[i] == q[j] by {
            let r = ready_starts_of(q, states);
            let rp = ready_starts_of(q.drop_last(), states);
            if i < rp.len() {
                let j = choose|j: int| 0 <= j < q.drop_last().len() && rp[i] == q.drop_last()[j];
                assert(q.drop_last()[j] == q[j]);
                assert(r[i] == q[j]);
            } else {
                assert(r[i] == q.last());
                assert(r[i] == q[q.len() - 1]);
            }
        }
    }
}

/// Every waiting creation has an unfulfilled condition and stood in
/// the queue.
pub proof fn lemma_waiting_starts_props(
    q: Seq<WorkloadSpecView>,
    states: Map<Seq<char>, ExecutionStateView>,
)
    ensures
        forall|i: int|
            0 <= i < waiting_starts_of(q, states).len() ==> !workload_dependencies_fulfilled(
                (#[trigger] waiting_starts_of(q, states)[i]).dependencies,
                states,
            ) && exists|j: int| 0 <= j < q.len() && waiting_starts_of(q, states)[i] == q[j],
    decreases q.len(),
{
    if q.len() > 0 {
        lemma_waiting_starts_props(q.drop_last(), states);
        assert forall|i: int| 0 <= i < waiting_starts_of(q, states).len() implies
            !workload_dependencies_fulfilled(
                (#[trigger] waiting_starts_of(q, states)[i]).dependencies,
                states,
            ) && exists|j: int| 0 <= j < q.len() && waiting_starts_of(q, states)[i] == q[j] by {
            let r = waiting_starts_of(q, states);
            let rp = waiting_starts_of(q.drop_last(), states);
            if i < rp.len() {
                let j = choose|j: int| 0 <= j < q.drop_last().len() && rp[i] == q.drop_last()[j];
                assert(q.drop_last()[j] == q[j]);
                assert(r[i] == q[j]);
            } else {
                assert(r[i] == q.last());
                assert(r[i] == q[q.len() - 1]);
            }
        }
    }
}

/// Every ready deletion is fulfilled and stood in the queue.
pub proof fn lemma_ready_deletes_props(
    q: Seq<DeletedWorkloadView>,
    states: Map<Seq<char>, ExecutionStateView>,
)
    ensures
        forall|i: int|
            0 <= i < ready_deletes_of(q, states).len() ==> deleted_workload_dependencies_fulfilled(
                (#[trigger] ready_deletes_of(q, states)[i]).dependencies,
                states,
            ) && exists|j: int| 0 <= j < q.len() && ready_deletes_of(q, states)[i] == q[j],
    decreases q.len(),
{
    if q.len() > 0 {
        lemma_ready_deletes_props(q.drop_last(), states);
        assert forall|i: int| 0 <= i < ready_deletes_of(q, states).len() implies
            deleted_workload_dependencies_fulfilled(
                (#[trigger] ready_deletes_of(q, states)[i]).dependencies,
                states,
            ) && exists|j: int| 0 <= j < q.len() && ready_deletes_of(q, states)[i] == q[j] by {
            let r = ready_deletes_of(q, states);
            let rp = ready_deletes_of(q.drop_last(), states);
            if i < rp.len() {
                let j = choose|j: int| 0 <= j < q.drop_last().len() && rp[i] == q.drop_last()[j];
                assert(q.drop_last()[j] == q[j]);
                assert(r[i] == q[j]);
            } else {
                assert(r[i] == q.last());
                assert(r[i] == q[q.len() - 1]);
            }
        }
    }
}

/// Every waiting deletion has an unfulfilled condition and stood in
/// the queue.
pub proof fn lemma_waiting_deletes_props(
    q: Seq<DeletedWorkloadView>,
    states: Map<Seq<char>, ExecutionStateView>,
)
    ensures
        forall|i: int|
            0 <= i < waiting_deletes_of(q, states).len()
                ==> !deleted_workload_dependencies_fulfilled(
                (#[trigger] waiting_deletes_of(q, states)[i]).dependencies,
                states,
            ) && exists|j: int| 0 <= j < q.len() && waiting_deletes_of(q, states)[i] == q[j],
    decreases q.len(),
{
    if q.len() > 0 {
        lemma_waiting_deletes_props(q.drop_last(), states);
        assert forall|i: int| 0 <= i < waiting_deletes_of(q, states).len() implies
            !deleted_workload_dependencies_fulfilled(
                (#[trigger] waiting_deletes_of(q, states)[i]).dependencies,
                states,
            ) && exists|j: int| 0 <= j < q.len() && waiting_deletes_of(q, states)[i] == q[j] by {
            let r = waiting_deletes_of(q, states);
            let rp = waiting_deletes_of(q.drop_last(), states);
            if i < rp.len() {
                let j = choose|j: int| 0 <= j < q.drop_last().len() && rp[i] == q.drop_last()[j];
                assert(q.drop_last()[j] == q[j]);
                assert(r[i] == q[j]);
            } else {
                assert(r[i] == q.last());
                assert(r[i] == q[q.len() - 1]);
            }
        }
    }
}

/// Draining keeps creation instance names unique.
pub proof fn lemma_ready_starts_unique(
    q: Seq<WorkloadSpecView>,
    states: Map<Seq<char>, ExecutionStateView>,
)
    requires
        start_names_unique(q),
    ensures
        start_names_unique(ready_starts_of(q, states)),
    decreases q.len(),
{
    if q.len() > 0 {
        lemma_ready_starts_unique(q.drop_last(), states);
        lemma_ready_starts_props(q.drop_last(), states);
        let r = ready_starts_of(q, states);
        let rp = ready_starts_of(q.drop_last(), states);
        assert forall|i: int, j: int|
            0 <= i < j < r.len() implies (#[trigger] r[i]).instance_name != (
        #[trigger] r[j]).instance_name by {
            if j < rp.len() {
            } else if workload_dependencies_fulfilled(q.last().dependencies, states) {
                let j2 = choose|j2: int| 0 <= j2 < q.drop_last().len() && rp[i] == q.drop_last()[
                    j2
                ];
                assert(q[j2] == q.drop_last()[j2]);
                assert(r[j] == q[q.len() - 1]);
            }
        }
    }
}

/// Draining keeps the waiting creations' instance names unique.
pub proof fn lemma_waiting_starts_unique(
    q: Seq<WorkloadSpecView>,
    states: Map<Seq<char>, ExecutionStateView>,
)
    requires
        start_names_unique(q),
    ensures
        start_names_unique(waiting_starts_of(q, states)),
    decreases q.len(),
{
    if q.len() > 0 {
        lemma_waiting_starts_unique(q.drop_last(), states);
        lemma_waiting_starts_props(q.drop_last(), states);
        let r = waiting_starts_of(q, states);
        let rp = waiting_starts_of(q.drop_last(), states);
        assert forall|i: int, j: int|
            0 <= i < j < r.len() implies (#[trigger] r[i]).instance_name != (
        #[trigger] r[j]).instance_name by {
            if j < rp.len() {
            } else if !workload_dependencies_fulfilled(q.last().dependencies, states) {
                let j2 = choose|j2: int| 0 <= j2 < q.drop_last().len() && rp[i] == q.drop_last()[
                    j2
                ];
                assert(q[j2] == q.drop_last()[j2]);
                assert(r[j] == q[q.len() - 1]);
            }
        }
    }
}

/// Draining keeps deletion instance names unique.
pub proof fn lemma_ready_deletes_unique(
    q: Seq<DeletedWorkloadView>,
    states: Map<Seq<char>, ExecutionStateView>,
)
    requires
        delete_names_unique(q),
    ensures
        delete_names_unique(ready_deletes_of(q, states)),
    decreases q.len(),
{
    if q.len() > 0 {
        lemma_ready_deletes_unique(q.drop_last(), states);
        lemma_ready_deletes_props(q.drop_last(), states);
        let r = ready_deletes_of(q, states);
        let rp = ready_deletes_of(q.drop_last(), states);
        assert forall|i: int, j: int|
            0 <= i < j < r.len() implies (#[trigger] r[i]).instance_name != (
        #[trigger] r[j]).instance_name by {
            if j < rp.len() {
            } else if deleted_workload_dependencies_fulfilled(q.last().dependencies, states) {
                let j2 = choose|j2: int| 0 <= j2 < q.drop_last().len() && rp[i] == q.drop_last()[
                    j2
                ];
                assert(q[j2] == q.drop_last()[j2]);
                assert(r[j] == q[q.len() - 1]);
            }
        }
    }
}

/// Draining keeps the waiting deletions' instance names unique.
pub proof fn lemma_waiting_deletes_unique(
    q: Seq<DeletedWorkloadView>,
    states: Map<Seq<char>, ExecutionStateView>,
)
    requires
        delete_names_unique(q),
    ensures
        delete_names_unique(waiting_deletes_of(q, states)),
    decreases q.len(),
{
    if q.len() > 0 {
        lemma_waiting_deletes_unique(q.drop_last(), states);
        lemma_waiting_deletes_props(q.drop_last(), states);
        let r = waiting_deletes_of(q, states);
        let rp = waiting_deletes_of(q.drop_last(), states);
        assert forall|i: int, j: int|
            0 <= i < j < r.len() implies (#[trigger] r[i]).instance_name != (
        #[trigger] r[j]).instance_name by {
            if j < rp.len() {
            } else if !deleted_workload_dependencies_fulfilled(q.last().dependencies, states) {
                let j2 = choose|j2: int| 0 <= j2 < q.drop_last().len() && rp[i] == q.drop_last()[
                    j2
                ];
                assert(q[j2] == q.drop_last()[j2]);
                assert(r[j] == q[q.len() - 1]);
            }
        }
    }
}

/// A name bound to an entry is the name of one of the elements.
pub proof fn lemma_start_entry_some_element(
    q: Seq<WorkloadSpecView>,
    name: WorkloadInstanceNameView,
)
    requires
        start_entry_of(q, name) is Some,
    ensures
        exists|i: int| 0 <= i < q.len() && q[i] == start_entry_of(q, name)->Some_0 && q[i].instance_name == name,
    decreases q.len(),
{
    if q.len() > 0 {
        if q.last().instance_name == name {
            assert(q[q.len() - 1] == q.last());
        } else {
            lemma_start_entry_some_element(q.drop_last(), name);
            let i = choose|i: int|
                0 <= i < q.drop_last().len() && q.drop_last()[i] == start_entry_of(
                    q.drop_last(),
                    name,
                )->Some_0 && q.drop_last()[i].instance_name == name;
            assert(q[i] == q.drop_last()[i]);
        }
    }
}

/// A name bound to a deletion entry is the name of one of the
/// elements.
pub proof fn lemma_delete_entry_some_element(
    q: Seq<DeletedWorkloadView>,
    name: WorkloadInstanceNameView,
)
    requires
        delete_entry_of(q, name) is Some,
    ensures
        exists|i: int| 0 <= i < q.len() && q[i] == delete_entry_of(q, name)->Some_0 && q[i].instance_name == name,
    decreases q.len(),
{
    if q.len() > 0 {
        if q.last().instance_name == name {
            assert(q[q.len() - 1] == q.last());
        } else {
            lemma_delete_entry_some_element(q.drop_last(), name);
            let i = choose|i: int|
                0 <= i < q.drop_last().len() && q.drop_last()[i] == delete_entry_of(
                    q.drop_last(),
                    name,
                )->Some_0 && q.drop_last()[i].instance_name == name;
            assert(q[i] == q.drop_last()[i]);
        }
    }
}

/// Every fulfilled creation of the queue is drained.
pub proof fn lemma_ready_starts_complete(
    q: Seq<WorkloadSpecView>,
    states: Map<Seq<char>, ExecutionStateView>,
    k: int,
)
    requires
        0 <= k < q.len(),
        workload_dependencies_fulfilled(q[k].dependencies, states),
    ensures
        exists|i: int| 0 <= i < ready_starts_of(q, states).len() && ready_starts_of(q, states)[i]
            == q[k],
    decreases q.len(),
{
    let r = ready_starts_of(q, states);
    if k == q.len() - 1 {
        assert(r[r.len() - 1] == q[k]);
    } else {
        lemma_ready_starts_complete(q.drop_last(), states, k);
        let rp = ready_starts_of(q.drop_last(), states);
        let i = choose|i: int| 0 <= i < rp.len() && rp[i] == q.drop_last()[k];
        assert(q.drop_last()[k] == q[k]);
        assert(r[i] == q[k]);
    }
}

/// Every fulfilled deletion of the queue is drained.
pub proof fn lemma_ready_deletes_complete(
    q: Seq<DeletedWorkloadView>,
    states: Map<Seq<char>, ExecutionStateView>,
    k: int,
)
    requires
        0 <= k < q.len(),
        deleted_workload_dependencies_fulfilled(q[k].dependencies, states),
    ensures
        exists|i: int| 0 <= i < ready_deletes_of(q, states).len() && ready_deletes_of(q, states)[i]
            == q[k],
    decreases q.len(),
{
    let r = ready_deletes_of(q, states);
    if k == q.len() - 1 {
        assert(r[r.len() - 1] == q[k]);
    } else {
        lemma_ready_deletes_complete(q.drop_last(), states, k);
        let rp = ready_deletes_of(q.drop_last(), states);
        let i = choose|i: int| 0 <= i < rp.len() && rp[i] == q.drop_last()[k];
        assert(q.drop_last()[k] == q[k]);
        assert(r[i] == q[k]);
    }
}

/// What the drained start queue binds each name to: the old entry
/// where it is unfulfilled, nothing otherwise.
pub proof fn lemma_waiting_starts_entry(
    q: Seq<WorkloadSpecView>,
    states: Map<Seq<char>, ExecutionStateView>,
    name: WorkloadInstanceNameView,
)
    requires
        start_names_unique(q),
    ensures
        start_entry_of(waiting_starts_of(q, states), name) == match start_entry_of(q, name) {
            Option::Some(w) => if workload_dependencies_fulfilled(w.dependencies, states) {
                Option::<WorkloadSpecView>::None
            } else {
                Option::Some(w)
            },
            Option::None => Option::<WorkloadSpecView>::None,
        },
    decreases q.len(),
{
    if q.len() > 0 {
        lemma_waiting_starts_entry(q.drop_last(), states, name);
        let w = waiting_starts_of(q, states);
        let wp = waiting_starts_of(q.drop_last(), states);
        if q.last().instance_name == name {
            assert forall|i: int| 0 <= i < q.drop_last().len() implies (
            #[trigger] q.drop_last()[i]).instance_name != name by {
                assert(q[i] == q.drop_last()[i]);
            }
            lemma_start_entry_none(q.drop_last(), name);
        }
        if workload_dependencies_fulfilled(q.last().dependencies, states) {
        } else {
            assert(w == wp.push(q.last()));
            assert(wp.push(q.last()).drop_last() =~= wp);
            assert(wp.push(q.last()).last() == q.last());
        }
    }
}

/// One of the listed instances is this one.
pub open spec fn instance_listed(
    instances: Seq<WorkloadInstanceNameView>,
    instance: WorkloadInstanceNameView,
) -> bool {
    exists|i: int| 0 <= i < instances.len() && instances[i] == instance
}

/// The creations of `q` whose instance name is among the listed ones,
/// in queue order.
pub open spec fn retained_starts_of(
    q: Seq<WorkloadSpecView>,
    instances: Seq<WorkloadInstanceNameView>,
) -> Seq<WorkloadSpecView>
    decreases q.len(),
{
    if q.len() == 0 {
        Seq::empty()
    } else if instance_listed(instances, q.last().instance_name) {
        retained_starts_of(q.drop_last(), instances).push(q.last())
    } else {
        retained_starts_of(q.drop_last(), instances)
    }
}

/// Every retained creation is listed and stood in the queue.
pub proof fn lemma_retained_starts_props(
    q: Seq<WorkloadSpecView>,
    instances: Seq<WorkloadInstanceNameView>,
)
    ensures
        forall|i: int|
            0 <= i < retained_starts_of(q, instances).len() ==> instance_listed(
                instances,
                (#[trigger] retained_starts_of(q, instances)[i]).instance_name,
            ) && exists|j: int| 0 <= j < q.len() && retained_starts_of(q, instances)[i] == q[j],
    decreases q.len(),
{
    if q.len() > 0 {
        lemma_retained_starts_props(q.drop_last(), instances);
        assert forall|i: int| 0 <= i < retained_starts_of(q, instances).len() implies
            instance_listed(
                instances,
                (#[trigger] retained_starts_of(q, instances)[i]).instance_name,
            ) && exists|j: int| 0 <= j < q.len() && retained_starts_of(q, instances)[i] == q[
            j
        ] by {
            let r = retained_starts_of(q, instances);
            let rp = retained_starts_of(q.drop_last(), instances);
            if i < rp.len() {
                let j = choose|j: int| 0 <= j < q.drop_last().len() && rp[i] == q.drop_last()[j];
                assert(q.drop_last()[j] == q[j]);
                assert(r[i] == q[j]);
            } else {
                assert(r[i] == q.last());
                assert(r[i] == q[q.len() - 1]);
            }
        }
    }
}

/// Retaining keeps creation instance names unique.
pub proof fn lemma_retained_starts_unique(
    q: Seq<WorkloadSpecView>,
    instances: Seq<WorkloadInstanceNameView>,
)
    requires
        start_names_unique(q),
    ensures
        start_names_unique(retained_starts_of(q, instances)),
    decreases q.len(),
{
    if q.len() > 0 {
        lemma_retained_starts_unique(q.drop_last(), instances);
        lemma_retained_starts_props(q.drop_last(), instances);
        let r = retained_starts_of(q, instances);
        let rp = retained_starts_of(q.drop_last(), instances);
        assert forall|i: int, j: int|
            0 <= i < j < r.len() implies (#[trigger] r[i]).instance_name != (
        #[trigger] r[j]).instance_name by {
            if j < rp.len() {
            } else if instance_listed(instances, q.last().instance_name) {
                let j2 = choose|j2: int| 0 <= j2 < q.drop_last().len() && rp[i] == q.drop_last()[
                    j2
                ];
                assert(q[j2] == q.drop_last()[j2]);
                assert(r[j] == q[q.len() - 1]);
            }
        }
    }
}

/// `lemma_start_entry_update`, quantified over every name.
proof fn lemma_start_entry_update_all(q: Seq<WorkloadSpecView>, k: int, w: WorkloadSpecView)
    requires
        0 <= k < q.len(),
        q[k].instance_name == w.instance_name,
        forall|j: int| k < j < q.len() ==> (#[trigger] q[j]).instance_name != w.instance_name,
    ensures
        forall|name: WorkloadInstanceNameView| #![auto]
            start_entry_of(q.update(k, w), name) == if name == w.instance_name {
                Option::Some(w)
            } else {
                start_entry_of(q, name)
            },
{
    assert forall|name: WorkloadInstanceNameView| #![auto]
        start_entry_of(q.update(k, w), name) == if name == w.instance_name {
            Option::Some(w)
        } else {
            start_entry_of(q, name)
        } by {
        lemma_start_entry_update(q, k, w, name);
    }
}

/// `lemma_delete_entry_update`, quantified over every name.
proof fn lemma_delete_entry_update_all(q: Seq<DeletedWorkloadView>, k: int, w: DeletedWorkloadView)
    requires
        0 <= k < q.len(),
        q[k].instance_name == w.instance_name,
        forall|j: int| k < j < q.len() ==> (#[trigger] q[j]).instance_name != w.instance_name,
    ensures
        forall|name: WorkloadInstanceNameView| #![auto]
            delete_entry_of(q.update(k, w), name) == if name == w.instance_name {
                Option::Some(w)
            } else {
                delete_entry_of(q, name)
            },
{
    assert forall|name: WorkloadInstanceNameView| #![auto]
        delete_entry_of(q.update(k, w), name) == if name == w.instance_name {
            Option::Some(w)
        } else {
            delete_entry_of(q, name)
        } by {
        lemma_delete_entry_update(q, k, w, name);
    }
}

/// `lemma_start_entry_remove`, quantified over every name.
proof fn lemma_start_entry_remove_all(q: Seq<WorkloadSpecView>, k: int)
    requires
        0 <= k < q.len(),
        start_names_unique(q),
    ensures
        forall|name: WorkloadInstanceNameView| #![auto]
            start_entry_of(q.remove(k), name) == if name == q[k].instance_name {
                Option::<WorkloadSpecView>::None
            } else {
                start_entry_of(q, name)
            },
{
    assert forall|name: WorkloadInstanceNameView| #![auto]
        start_entry_of(q.remove(k), name) == if name == q[k].instance_name {
            Option::<WorkloadSpecView>::None
        } else {
            start_entry_of(q, name)
        } by {
        lemma_start_entry_remove(q, k, name);
    }
}

impl WorkloadQueue {
    /// Both queues, the creations waiting and the deletions waiting.
    pub closed spec fn view(&self) -> WorkloadQueueView {
        WorkloadQueueView {
            start_queue: self.start_queue.deep_view(),
            delete_queue: self.delete_queue.deep_view(),
        }
    }

    /// Queue well-formedness: each instance name is held at most once
    /// over both queues together.
    pub open spec fn wf(&self) -> bool {
        &&& start_names_unique(self.view().start_queue)
        &&& delete_names_unique(self.view().delete_queue)
        &&& queues_disjoint(self.view().start_queue, self.view().delete_queue)
    }

    pub fn new() -> (r: WorkloadQueue)
        ensures
            r.wf(),
            r.view().start_queue == Seq::<WorkloadSpecView>::empty(),
            r.view().delete_queue == Seq::<DeletedWorkloadView>::empty(),
    {
        let r = WorkloadQueue { start_queue: Vec::new(), delete_queue: Vec::new() };
        proof {
            assert(r.view().start_queue =~= Seq::<WorkloadSpecView>::empty());
            assert(r.view().delete_queue =~= Seq::<DeletedWorkloadView>::empty());
        }
        r
    }

    /// Merges the given creations into the start queue, overwriting
    /// any waiting creation of the same instance name; within the
    /// batch a later entry for a name wins. A creation may not be
    /// queued while a deletion of the same instance name waits.
    pub fn put_on_waiting_queue(&mut self, workloads: Vec<WorkloadSpec>)
        requires
            old(self).wf(),
            forall|i: int, j: int|
                0 <= i < workloads.deep_view().len() && 0 <= j
                    < old(self).view().delete_queue.len() ==> (#[trigger] workloads.deep_view()[i]).instance_name
                    != (#[trigger] old(self).view().delete_queue[j]).instance_name,
        ensures
            final(self).wf(),
            final(self).view().delete_queue == old(self).view().delete_queue,
            forall|n: WorkloadInstanceNameView| #![auto]
                start_entry_of(final(self).view().start_queue, n) == match start_entry_of(
                    workloads.deep_view(),
                    n,
                ) {
                    Option::Some(w) => Option::Some(w),
                    Option::None => start_entry_of(old(self).view().start_queue, n),
                },
    {
        let ghost orig_batch = workloads.deep_view();
        let ghost orig_start = self.view().start_queue;
        let ghost orig_delete = self.view().delete_queue;
        let mut incoming = workloads;
        while incoming.len() > 0
            invariant
                self.wf(),
                self.view().delete_queue == orig_delete,
                0 <= orig_batch.len() - incoming.deep_view().len() <= orig_batch.len(),
                incoming.deep_view() == orig_batch.subrange(
                    orig_batch.len() - incoming.deep_view().len(),
                    orig_batch.len() as int,
                ),
                forall|i: int, j: int|
                    0 <= i < orig_batch.len() && 0 <= j < orig_delete.len() ==> (
                    #[trigger] orig_batch[i]).instance_name != (#[trigger] orig_delete[j]).instance_name,
                forall|n: WorkloadInstanceNameView| #![auto]
                    start_entry_of(self.view().start_queue, n) == match start_entry_of(
                        orig_batch.subrange(0, orig_batch.len() - incoming.deep_view().len()),
                        n,
                    ) {
                        Option::Some(w) => Option::Some(w),
                        Option::None => start_entry_of(orig_start, n),
                    },
            decreases incoming.len(),
        {
            let ghost k = orig_batch.len() - incoming.deep_view().len();
            let ghost before_start = self.view().start_queue;
            let ghost before_shallow = incoming@;
            let ghost before_deep = incoming.deep_view();
            let w = incoming.remove(0);
            let ghost wv = w;
            proof {
                assert(before_deep[0] == before_shallow[0].deep_view());
                assert(w.deep_view() == orig_batch[k]);
                assert forall|i2: int| 0 <= i2 < incoming.deep_view().len() implies
                    incoming.deep_view()[i2] == before_deep[i2 + 1] by {
                    assert(incoming@[i2] == before_shallow[i2 + 1]);
                }
                assert(incoming.deep_view() =~= orig_batch.subrange(k + 1, orig_batch.len() as int));
            }
            let ghost before_q_shallow = self.start_queue@;
            match find_start_index(&self.start_queue, &w.instance_name) {
                Option::Some(idx) => {
                    proof {
                        lemma_start_entry_update_all(before_start, idx as int, w.deep_view());
                    }
                    self.start_queue.remove(idx);
                    self.start_queue.insert(idx, w);
                    proof {
                        assert(self.start_queue@ =~= before_q_shallow.update(idx as int, wv));
                        assert(self.view().start_queue =~= before_start.update(
                            idx as int,
                            orig_batch[k],
                        ));
                    }
                },
                Option::None => {
                    proof {
                        lemma_start_entry_none(before_start, orig_batch[k].instance_name);
                    }
                    self.start_queue.push(w);
                    proof {
                        assert(self.view().start_queue =~= before_start.push(orig_batch[k]));
                    }
                },
            }
            proof {
                assert(orig_batch.subrange(0, k + 1).drop_last() =~= orig_batch.subrange(0, k));
                assert(orig_batch.subrange(0, k + 1).last() == orig_batch[k]);
                assert(before_start.push(orig_batch[k]).drop_last() =~= before_start);
                assert forall|n: WorkloadInstanceNameView| #![auto]
                    start_entry_of(self.view().start_queue, n) == match start_entry_of(
                        orig_batch.subrange(0, k + 1),
                        n,
                    ) {
                        Option::Some(w2) => Option::Some(w2),
                        Option::None => start_entry_of(orig_start, n),
                    } by {
                    assert(start_entry_of(orig_batch.subrange(0, k + 1), n)
                        == if orig_batch[k].instance_name == n {
                        Option::Some(orig_batch[k])
                    } else {
                        start_entry_of(orig_batch.subrange(0, k), n)
                    });
                }
            }
        }
        proof {
            assert(orig_batch.subrange(0, orig_batch.len() as int) =~= orig_batch);
        }
    }

    /// Merges the given deletions into the delete queue, overwriting
    /// any waiting deletion of the same instance name; a deletion
    /// supersedes a waiting creation of the same instance name, which
    /// leaves the start queue.
    pub fn put_on_delete_waiting_queue(&mut self, workloads: Vec<DeletedWorkload>)
        requires
            old(self).wf(),
        ensures
            final(self).wf(),
            forall|n: WorkloadInstanceNameView| #![auto]
                delete_entry_of(final(self).view().delete_queue, n) == match delete_entry_of(
                    workloads.deep_view(),
                    n,
                ) {
                    Option::Some(d) => Option::Some(d),
                    Option::None => delete_entry_of(old(self).view().delete_queue, n),
                },
            forall|n: WorkloadInstanceNameView| #![auto]
                start_entry_of(final(self).view().start_queue, n) == if delete_entry_of(
                    workloads.deep_view(),
                    n,
                ) is Some {
                    Option::<WorkloadSpecView>::None
                } else {
                    start_entry_of(old(self).view().start_queue, n)
                },
    {
        let ghost orig_batch = workloads.deep_view();
        let ghost orig_start = self.view().start_queue;
        let ghost orig_delete = self.view().delete_queue;
        let mut incoming = workloads;
        while incoming.len() > 0
            invariant
                self.wf(),
                0 <= orig_batch.len() - incoming.deep_view().len() <= orig_batch.len(),
                incoming.deep_view() == orig_batch.subrange(
                    orig_batch.len() - incoming.deep_view().len(),
                    orig_batch.len() as int,
                ),
                forall|n: WorkloadInstanceNameView| #![auto]
                    delete_entry_of(self.view().delete_queue, n) == match delete_entry_of(
                        orig_batch.subrange(0, orig_batch.len() - incoming.deep_view().len()),
                        n,
                    ) {
                        Option::Some(d) => Option::Some(d),
                        Option::None => delete_entry_of(orig_delete, n),
                    },
                forall|n: WorkloadInstanceNameView| #![auto]
                    start_entry_of(self.view().start_queue, n) == if delete_entry_of(
                        orig_batch.subrange(0, orig_batch.len() - incoming.deep_view().len()),
                        n,
                    ) is Some {
                        Option::<WorkloadSpecView>::None
                    } else {
                        start_entry_of(orig_start, n)
                    },
            decreases incoming.len(),
        {
            let ghost k = orig_batch.len() - incoming.deep_view().len();
            let ghost before_shallow = incoming@;
            let ghost before_deep = incoming.deep_view();
            let d = incoming.remove(0);
            let ghost dv = d;
            proof {
                assert(before_deep[0] == before_shallow[0].deep_view());
                assert(d.deep_view() == orig_batch[k]);
                assert forall|i2: int| 0 <= i2 < incoming.deep_view().len() implies
                    incoming.deep_view()[i2] == before_deep[i2 + 1] by {
                    assert(incoming@[i2] == before_shallow[i2 + 1]);
                }
                assert(incoming.deep_view() =~= orig_batch.subrange(k + 1, orig_batch.len() as int));
            }
            let ghost before_start = self.view().start_queue;
            // A deletion supersedes a waiting creation of the same
            // instance.
            let ghost before_sq_shallow = self.start_queue@;
            match find_start_index(&self.start_queue, &d.instance_name) {
                Option::Some(idx) => {
                    proof {
                        lemma_start_entry_remove_all(before_start, idx as int);
                    }
                    self.start_queue.remove(idx);
                    proof {
                        assert(self.start_queue@ == before_sq_shallow.remove(idx as int));
                        assert forall|i2: int| 0 <= i2 < self.start_queue.deep_view().len() implies
                            self.start_queue.deep_view()[i2] == before_start.remove(idx as int)[i2] by {
                            assert(self.start_queue@[i2] == before_sq_shallow.remove(idx as int)[i2]);
                        }
                        assert(self.view().start_queue =~= before_start.remove(idx as int));
                    }
                },
                Option::None => {
                    proof {
                        lemma_start_entry_none(before_start, orig_batch[k].instance_name);
                    }
                },
            }
            let ghost before_delete = self.view().delete_queue;
            let ghost before_dq_shallow = self.delete_queue@;
            match find_delete_index(&self.delete_queue, &d.instance_name) {
                Option::Some(idx) => {
                    proof {
                        lemma_delete_entry_update_all(before_delete, idx as int, d.deep_view());
                    }
                    self.delete_queue.remove(idx);
                    self.delete_queue.insert(idx, d);
                    proof {
                        assert(self.delete_queue@ =~= before_dq_shallow.update(idx as int, dv));
                        assert(self.view().delete_queue =~= before_delete.update(
                            idx as int,
                            orig_batch[k],
                        ));
                        assert forall|n: WorkloadInstanceNameView| #![auto]
                            delete_entry_of(self.view().delete_queue, n)
                                == if n == orig_batch[k].instance_name {
                                Option::Some(orig_batch[k])
                            } else {
                                delete_entry_of(before_delete, n)
                            } by {
                            assert(delete_entry_of(self.view().delete_queue, n)
                                == delete_entry_of(before_delete.update(idx as int, orig_batch[k]), n));
                        }
                    }
                },
                Option::None => {
                    proof {
                        lemma_delete_entry_none(before_delete, orig_batch[k].instance_name);
                    }
                    self.delete_queue.push(d);
                    proof {
                        assert(self.view().delete_queue =~= before_delete.push(orig_batch[k]));
                        assert(before_delete.push(orig_batch[k]).drop_last() =~= before_delete);
                        assert forall|n: WorkloadInstanceNameView| #![auto]
                            delete_entry_of(self.view().delete_queue, n)
                                == if n == orig_batch[k].instance_name {
                                Option::Some(orig_batch[k])
                            } else {
                                delete_entry_of(before_delete, n)
                            } by {
                            assert(delete_entry_of(self.view().delete_queue, n)
                                == delete_entry_of(before_delete.push(orig_batch[k]), n));
                        }
                    }
                },
            }
            proof {
                assert(orig_batch.subrange(0, k + 1).drop_last() =~= orig_batch.subrange(0, k));
                assert(orig_batch.subrange(0, k + 1).last() == orig_batch[k]);
                assert(before_delete.push(orig_batch[k]).drop_last() =~= before_delete);
                assert forall|n: WorkloadInstanceNameView| #![auto]
                    delete_entry_of(self.view().delete_queue, n) == match delete_entry_of(
                        orig_batch.subrange(0, k + 1),
                        n,
                    ) {
                        Option::Some(d2) => Option::Some(d2),
                        Option::None => delete_entry_of(orig_delete, n),
                    } by {
                    assert(delete_entry_of(orig_batch.subrange(0, k + 1), n)
                        == if orig_batch[k].instance_name == n {
                        Option::Some(orig_batch[k])
                    } else {
                        delete_entry_of(orig_batch.subrange(0, k), n)
                    });
                }
                assert forall|n: WorkloadInstanceNameView| #![auto]
                    start_entry_of(self.view().start_queue, n) == if delete_entry_of(
                        orig_batch.subrange(0, k + 1),
                        n,
                    ) is Some {
                        Option::<WorkloadSpecView>::None
                    } else {
                        start_entry_of(orig_start, n)
                    } by {
                    assert(delete_entry_of(orig_batch.subrange(0, k + 1), n)
                        == if orig_batch[k].instance_name == n {
                        Option::Some(orig_batch[k])
                    } else {
                        delete_entry_of(orig_batch.subrange(0, k), n)
                    });
                }
            }
        }
        proof {
            assert(orig_batch.subrange(0, orig_batch.len() as int) =~= orig_batch);
        }
    }

    /// Pulls every creation whose conditions are fulfilled against the
    /// recorded states out of the start queue and returns it; what
    /// stays behind has at least one unfulfilled condition.
    pub fn next_workloads_to_start(&mut self, workload_state_db: &ParameterStorage) -> (r: Vec<
        WorkloadSpec,
    >)
        requires
            old(self).wf(),
        ensures
            final(self).wf(),
            final(self).view().delete_queue == old(self).view().delete_queue,
            r.deep_view() == ready_starts_of(old(self).view().start_queue, workload_state_db@),
            final(self).view().start_queue == waiting_starts_of(
                old(self).view().start_queue,
                workload_state_db@,
            ),
            forall|i: int|
                0 <= i < r.deep_view().len() ==> workload_dependencies_fulfilled(
                    (#[trigger] r.deep_view()[i]).dependencies,
                    workload_state_db@,
                ),
            forall|i: int|
                0 <= i < final(self).view().start_queue.len()
                    ==> !workload_dependencies_fulfilled(
                    (#[trigger] final(self).view().start_queue[i]).dependencies,
                    workload_state_db@,
                ),
    {
        let ghost orig = self.view().start_queue;
        let ghost states = workload_state_db@;
        let mut ready: Vec<WorkloadSpec> = Vec::new();
        let mut waiting: Vec<WorkloadSpec> = Vec::new();
        proof {
            assert(ready.deep_view() =~= ready_starts_of(orig.subrange(0, 0), states));
            assert(waiting.deep_view() =~= waiting_starts_of(orig.subrange(0, 0), states));
        }
        while self.start_queue.len() > 0
            invariant
                states == workload_state_db@,
                self.view().delete_queue == old(self).view().delete_queue,
                0 <= orig.len() - self.start_queue.deep_view().len() <= orig.len(),
                self.start_queue.deep_view() == orig.subrange(
                    orig.len() - self.start_queue.deep_view().len(),
                    orig.len() as int,
                ),
                ready.deep_view() == ready_starts_of(
                    orig.subrange(0, orig.len() - self.start_queue.deep_view().len()),
                    states,
                ),
                waiting.deep_view() == waiting_starts_of(
                    orig.subrange(0, orig.len() - self.start_queue.deep_view().len()),
                    states,
                ),
            decreases self.start_queue.len(),
        {
            let ghost k = orig.len() - self.start_queue.deep_view().len();
            let ghost before_shallow = self.start_queue@;
            let ghost before_deep = self.start_queue.deep_view();
            let ghost ready_before = ready.deep_view();
            let ghost waiting_before = waiting.deep_view();
            let w = self.start_queue.remove(0);
            let ghost wv = w;
            proof {
                assert(before_deep[0] == before_shallow[0].deep_view());
                assert(w.deep_view() == orig[k]);
                assert forall|i2: int| 0 <= i2 < self.start_queue.deep_view().len() implies
                    self.start_queue.deep_view()[i2] == before_deep[i2 + 1] by {
                    assert(self.start_queue@[i2] == before_shallow[i2 + 1]);
                }
                assert(self.start_queue.deep_view() =~= orig.subrange(k + 1, orig.len() as int));
                assert(orig.subrange(0, k + 1).drop_last() =~= orig.subrange(0, k));
                assert(orig.subrange(0, k + 1).last() == orig[k]);
            }
            if StateValidator::dependencies_for_workload_fulfilled(&w, workload_state_db) {
                let ghost ready_shallow = ready@;
                ready.push(w);
                proof {
                    assert forall|i2: int| 0 <= i2 < ready.deep_view().len() implies
                        ready.deep_view()[i2] == ready_before.push(orig[k])[i2] by {
                        if i2 < ready_shallow.len() {
                            assert(ready@[i2] == ready_shallow[i2]);
                        } else {
                            assert(ready@[i2] == wv);
                        }
                    }
                    assert(ready.deep_view() =~= ready_before.push(orig[k]));
                    assert(workload_dependencies_fulfilled(
                        orig.subrange(0, k + 1).last().dependencies,
                        states,
                    ));
                    assert(ready_starts_of(orig.subrange(0, k + 1), states) == ready_starts_of(
                        orig.subrange(0, k),
                        states,
                    ).push(orig[k]));
                    assert(waiting_starts_of(orig.subrange(0, k + 1), states)
                        == waiting_starts_of(orig.subrange(0, k), states));
                }
            } else {
                let ghost waiting_shallow = waiting@;
                waiting.push(w);
                proof {
                    assert forall|i2: int| 0 <= i2 < waiting.deep_view().len() implies
                        waiting.deep_view()[i2] == waiting_before.push(orig[k])[i2] by {
                        if i2 < waiting_shallow.len() {
                            assert(waiting@[i2] == waiting_shallow[i2]);
                        } else {
                            assert(waiting@[i2] == wv);
                        }
                    }
                    assert(waiting.deep_view() =~= waiting_before.push(orig[k]));
                    assert(!workload_dependencies_fulfilled(
                        orig.subrange(0, k + 1).last().dependencies,
                        states,
                    ));
                    assert(waiting_starts_of(orig.subrange(0, k + 1), states) == waiting_starts_of(
                        orig.subrange(0, k),
                        states,
                    ).push(orig[k]));
                    assert(ready_starts_of(orig.subrange(0, k + 1), states) == ready_starts_of(
                        orig.subrange(0, k),
                        states,
                    ));
                }
            }
        }
        proof {
            assert(orig.subrange(0, orig.len() as int) =~= orig);
        }
        self.start_queue = waiting;
        proof {
            lemma_waiting_starts_props(orig, states);
            lemma_waiting_starts_unique(orig, states);
            lemma_ready_starts_props(orig, states);
            assert forall|i: int, j: int|
                0 <= i < self.view().start_queue.len() && 0 <= j < self.view().delete_queue.len()
                    implies (#[trigger] self.view().start_queue[i]).instance_name != (
            #[trigger] self.view().delete_queue[j]).instance_name by {
                let j2 = choose|j2: int|
                    0 <= j2 < orig.len() && waiting_starts_of(orig, states)[i] == orig[j2];
                assert(orig[j2].instance_name != self.view().delete_queue[j].instance_name);
            }
        }
        ready
    }

    /// Pulls every deletion whose conditions are fulfilled against the
    /// recorded states out of the delete queue and returns it; what
    /// stays behind has at least one unfulfilled condition.
    pub fn next_workloads_to_delete(&mut self, workload_state_db: &ParameterStorage) -> (r: Vec<
        DeletedWorkload,
    >)
        requires
            old(self).wf(),
        ensures
            final(self).wf(),
            final(self).view().start_queue == old(self).view().start_queue,
            r.deep_view() == ready_deletes_of(old(self).view().delete_queue, workload_state_db@),
            final(self).view().delete_queue == waiting_deletes_of(
                old(self).view().delete_queue,
                workload_state_db@,
            ),
            forall|i: int|
                0 <= i < r.deep_view().len() ==> deleted_workload_dependencies_fulfilled(
                    (#[trigger] r.deep_view()[i]).dependencies,
                    workload_state_db@,
                ),
            forall|i: int|
                0 <= i < final(self).view().delete_queue.len()
                    ==> !deleted_workload_dependencies_fulfilled(
                    (#[trigger] final(self).view().delete_queue[i]).dependencies,
                    workload_state_db@,
                ),
    {
        let ghost orig = self.view().delete_queue;
        let ghost states = workload_state_db@;
        let mut ready: Vec<DeletedWorkload> = Vec::new();
        let mut waiting: Vec<DeletedWorkload> = Vec::new();
        proof {
            assert(ready.deep_view() =~= ready_deletes_of(orig.subrange(0, 0), states));
            assert(waiting.deep_view() =~= waiting_deletes_of(orig.subrange(0, 0), states));
        }
        while self.delete_queue.len() > 0
            invariant
                states == workload_state_db@,
                self.view().start_queue == old(self).view().start_queue,
                0 <= orig.len() - self.delete_queue.deep_view().len() <= orig.len(),
                self.delete_queue.deep_view() == orig.subrange(
                    orig.len() - self.delete_queue.deep_view().len(),
                    orig.len() as int,
                ),
                ready.deep_view() == ready_deletes_of(
                    orig.subrange(0, orig.len() - self.delete_queue.deep_view().len()),
                    states,
                ),
                waiting.deep_view() == waiting_deletes_of(
                    orig.subrange(0, orig.len() - self.delete_queue.deep_view().len()),
                    states,
                ),
            decreases self.delete_queue.len(),
        {
            let ghost k = orig.len() - self.delete_queue.deep_view().len();
            let ghost before_shallow = self.delete_queue@;
            let ghost before_deep = self.delete_queue.deep_view();
            let ghost ready_before = ready.deep_view();
            let ghost waiting_before = waiting.deep_view();
            let d = self.delete_queue.remove(0);
            let ghost dv = d;
            proof {
                assert(before_deep[0] == before_shallow[0].deep_view());
                assert(d.deep_view() == orig[k]);
                assert forall|i2: int| 0 <= i2 < self.delete_queue.deep_view().len() implies
                    self.delete_queue.deep_view()[i2] == before_deep[i2 + 1] by {
                    assert(self.delete_queue@[i2] == before_shallow[i2 + 1]);
                }
                assert(self.delete_queue.deep_view() =~= orig.subrange(k + 1, orig.len() as int));
                assert(orig.subrange(0, k + 1).drop_last() =~= orig.subrange(0, k));
                assert(orig.subrange(0, k + 1).last() == orig[k]);
            }
            if StateValidator::dependencies_for_deleted_workload_fulfilled(&d, workload_state_db) {
                let ghost ready_shallow = ready@;
                ready.push(d);
                proof {
                    assert forall|i2: int| 0 <= i2 < ready.deep_view().len() implies
                        ready.deep_view()[i2] == ready_before.push(orig[k])[i2] by {
                        if i2 < ready_shallow.len() {
                            assert(ready@[i2] == ready_shallow[i2]);
                        } else {
                            assert(ready@[i2] == dv);
                        }
                    }
                    assert(ready.deep_view() =~= ready_before.push(orig[k]));
                    assert(deleted_workload_dependencies_fulfilled(
                        orig.subrange(0, k + 1).last().dependencies,
                        states,
                    ));
                    assert(ready_deletes_of(orig.subrange(0, k + 1), states) == ready_deletes_of(
                        orig.subrange(0, k),
                        states,
                    ).push(orig[k]));
                    assert(waiting_deletes_of(orig.subrange(0, k + 1), states)
                        == waiting_deletes_of(orig.subrange(0, k), states));
                }
            } else {
                let ghost waiting_shallow = waiting@;
                waiting.push(d);
                proof {
                    assert forall|i2: int| 0 <= i2 < waiting.deep_view().len() implies
                        waiting.deep_view()[i2] == waiting_before.push(orig[k])[i2] by {
                        if i2 < waiting_shallow.len() {
                            assert(waiting@[i2] == waiting_shallow[i2]);
                        } else {
                            assert(waiting@[i2] == dv);
                        }
                    }
                    assert(waiting.deep_view() =~= waiting_before.push(orig[k]));
                    assert(!deleted_workload_dependencies_fulfilled(
                        orig.subrange(0, k + 1).last().dependencies,
                        states,
                    ));
                    assert(waiting_deletes_of(orig.subrange(0, k + 1), states)
                        == waiting_deletes_of(orig.subrange(0, k), states).push(orig[k]));
                    assert(ready_deletes_of(orig.subrange(0, k + 1), states) == ready_deletes_of(
                        orig.subrange(0, k),
                        states,
                    ));
                }
            }
        }
        proof {
            assert(orig.subrange(0, orig.len() as int) =~= orig);
        }
        self.delete_queue = waiting;
        proof {
            lemma_waiting_deletes_props(orig, states);
            lemma_waiting_deletes_unique(orig, states);
            lemma_ready_deletes_props(orig, states);
            assert forall|i: int, j: int|
                0 <= i < self.view().start_queue.len() && 0 <= j < self.view().delete_queue.len()
                    implies (#[trigger] self.view().start_queue[i]).instance_name != (
            #[trigger] self.view().delete_queue[j]).instance_name by {
                let j2 = choose|j2: int|
                    0 <= j2 < orig.len() && waiting_deletes_of(orig, states)[j] == orig[j2];
                assert(self.view().start_queue[i].instance_name != orig[j2].instance_name);
            }
        }
        ready
    }

    /// Drops every waiting creation whose instance name is not among
    /// the listed ones: a complete desired state supersedes creations
    /// queued for an earlier one.
    pub fn retain_starts(&mut self, instances: &Vec<WorkloadInstanceName>)
        requires
            old(self).wf(),
        ensures
            final(self).wf(),
            final(self).view().delete_queue == old(self).view().delete_queue,
            final(self).view().start_queue == retained_starts_of(
                old(self).view().start_queue,
                instances.deep_view(),
            ),
    {
        let ghost orig = self.view().start_queue;
        let ghost listed = instances.deep_view();
        let mut retained: Vec<WorkloadSpec> = Vec::new();
        proof {
            assert(retained.deep_view() =~= retained_starts_of(orig.subrange(0, 0), listed));
        }
        while self.start_queue.len() > 0
            invariant
                listed == instances.deep_view(),
                self.view().delete_queue == old(self).view().delete_queue,
                0 <= orig.len() - self.start_queue.deep_view().len() <= orig.len(),
                self.start_queue.deep_view() == orig.subrange(
                    orig.len() - self.start_queue.deep_view().len(),
                    orig.len() as int,
                ),
                retained.deep_view() == retained_starts_of(
                    orig.subrange(0, orig.len() - self.start_queue.deep_view().len()),
                    listed,
                ),
            decreases self.start_queue.len(),
        {
            let ghost k = orig.len() - self.start_queue.deep_view().len();
            let ghost before_shallow = self.start_queue@;
            let ghost before_deep = self.start_queue.deep_view();
            let ghost retained_before = retained.deep_view();
            let w = self.start_queue.remove(0);
            let ghost wv = w;
            proof {
                assert(before_deep[0] == before_shallow[0].deep_view());
                assert(w.deep_view() == orig[k]);
                assert forall|i2: int| 0 <= i2 < self.start_queue.deep_view().len() implies
                    self.start_queue.deep_view()[i2] == before_deep[i2 + 1] by {
                    assert(self.start_queue@[i2] == before_shallow[i2 + 1]);
                }
                assert(self.start_queue.deep_view() =~= orig.subrange(k + 1, orig.len() as int));
                assert(orig.subrange(0, k + 1).drop_last() =~= orig.subrange(0, k));
                assert(orig.subrange(0, k + 1).last() == orig[k]);
            }
            if instance_in_list(instances, &w.instance_name) {
                let ghost retained_shallow = retained@;
                retained.push(w);
                proof {
                    assert forall|i2: int| 0 <= i2 < retained.deep_view().len() implies
                        retained.deep_view()[i2] == retained_before.push(orig[k])[i2] by {
                        if i2 < retained_shallow.len() {
                            assert(retained@[i2] == retained_shallow[i2]);
                        } else {
                            assert(retained@[i2] == wv);
                        }
                    }
                    assert(retained.deep_view() =~= retained_before.push(orig[k]));
                    assert(retained_starts_of(orig.subrange(0, k + 1), listed)
                        == retained_starts_of(orig.subrange(0, k), listed).push(orig[k]));
                }
            } else {
                proof {
                    assert(retained_starts_of(orig.subrange(0, k + 1), listed)
                        == retained_starts_of(orig.subrange(0, k), listed));
                }
            }
        }
        proof {
            assert(orig.subrange(0, orig.len() as int) =~= orig);
        }
        self.start_queue = retained;
        proof {
            lemma_retained_starts_props(orig, listed);
            lemma_retained_starts_unique(orig, listed);
            assert forall|i: int, j: int|
                0 <= i < self.view().start_queue.len() && 0 <= j < self.view().delete_queue.len()
                    implies (#[trigger] self.view().start_queue[i]).instance_name != (
            #[trigger] self.view().delete_queue[j]).instance_name by {
                let j2 = choose|j2: int|
                    0 <= j2 < orig.len() && retained_starts_of(orig, listed)[i] == orig[j2];
                assert(orig[j2].instance_name != self.view().delete_queue[j].instance_name);
            }
        }
    }

    /// The creations still waiting for their conditions.
    pub fn waiting_starts(&self) -> (r: &Vec<WorkloadSpec>)
        ensures
            r.deep_view() == self.view().start_queue,
    {
        &self.start_queue
    }

    /// The deletions still waiting for their conditions.
    pub fn waiting_deletes(&self) -> (r: &Vec<DeletedWorkload>)
        ensures
            r.deep_view() == self.view().delete_queue,
    {
        &self.delete_queue
    }
}

/// Mathematical model of a [`WorkloadQueue`].
pub struct WorkloadQueueView {
    pub start_queue: Seq<WorkloadSpecView>,
    pub delete_queue: Seq<DeletedWorkloadView>,
}

/// The two waiting maps of the scheduler. A creation or deletion whose
/// inter-workload conditions are not fulfilled yet is parked here and
/// pulled out by the drain calls once the recorded states allow it.
pub struct WorkloadQueue {
    start_queue: Vec<WorkloadSpec>,
    delete_queue: Vec<DeletedWorkload>,
}

/// Whether one of the listed instances is this one.
fn instance_in_list(instances: &Vec<WorkloadInstanceName>, name: &WorkloadInstanceName) -> (r:
    bool)
    ensures
        r == instance_listed(instances.deep_view(), name@),
{
    let n = instances.len();
    let mut i: usize = 0;
    while i < n
        invariant
            n == instances.len(),
            i <= n,
            forall|k: int| 0 <= k < i ==> instances.deep_view()[k] != name@,
        decreases n - i,
    {
        if instances[i].matches(name) {
            assert(instances.deep_view()[i as int] == name@);
            return true;
        }
        i += 1;
    }
    false
}

/// The position of the last spec with this instance name, if any.
fn find_start_index(entries: &Vec<WorkloadSpec>, name: &WorkloadInstanceName) -> (r: Option<usize>)
    ensures
        match r {
            Option::Some(k) => {
                &&& k < entries.len()
                &&& entries.deep_view()[k as int].instance_name == name@
                &&& forall|j: int|
                    k < j < entries.deep_view().len() ==> (#[trigger] entries.deep_view()[j]).instance_name != name@
            },
            Option::None => forall|j: int|
                0 <= j < entries.deep_view().len() ==> (#[trigger] entries.deep_view()[j]).instance_name != name@,
        },
{
    let mut found: Option<usize> = Option::None;
    let n = entries.len();
    let mut i: usize = 0;
    while i < n
        invariant
            n == entries.len(),
            i <= n,
            match found {
                Option::Some(k) => {
                    &&& k < i
                    &&& entries.deep_view()[k as int].instance_name == name@
                    &&& forall|j: int|
                        k < j < i ==> (#[trigger] entries.deep_view()[j]).instance_name != name@
                },
                Option::None => forall|j: int|
                    0 <= j < i ==> (#[trigger] entries.deep_view()[j]).instance_name != name@,
            },
        decreases n - i,
    {
        if entries[i].instance_name.matches(name) {
            found = Option::Some(i);
        }
        i += 1;
    }
    found
}

/// The position of the last deletion with this instance name, if any.
fn find_delete_index(
    entries: &Vec<DeletedWorkload>,
    name: &WorkloadInstanceName,
) -> (r: Option<usize>)
    ensures
        match r {
            Option::Some(k) => {
                &&& k < entries.len()
                &&& entries.deep_view()[k as int].instance_name == name@
                &&& forall|j: int|
                    k < j < entries.deep_view().len() ==> (#[trigger] entries.deep_view()[j]).instance_name != name@
            },
            Option::None => forall|j: int|
                0 <= j < entries.deep_view().len() ==> (#[trigger] entries.deep_view()[j]).instance_name != name@,
        },
{
    let mut found: Option<usize> = Option::None;
    let n = entries.len();
    let mut i: usize = 0;
    while i < n
        invariant
            n == entries.len(),
            i <= n,
            match found {
                Option::Some(k) => {
                    &&& k < i
                    &&& entries.deep_view()[k as int].instance_name == name@
                    &&& forall|j: int|
                        k < j < i ==> (#[trigger] entries.deep_view()[j]).instance_name != name@
                },
                Option::None => forall|j: int|
                    0 <= j < i ==> (#[trigger] entries.deep_view()[j]).instance_name != name@,
            },
        decreases n - i,
    {
        if entries[i].instance_name.matches(name) {
            found = Option::Some(i);
        }
        i += 1;
    }
    found
}

} // verus!
