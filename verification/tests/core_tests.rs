use agent_core::authorizer::Authorizer;
use agent_core::execution_state::{AddCondition, ExecutionState, RestartPolicy};
use agent_core::instance_name::WorkloadInstanceName;
use agent_core::messages::{process_workload_state, ToServer};
use agent_core::parameter_storage::ParameterStorage;
use agent_core::runtime_manager::{RuntimeManager, WorkloadOperation};
use agent_core::state_validator::StateValidator;
use agent_core::workload_spec::{Dependency, WorkloadSpec, WorkloadState};

const AGENT_A: &str = "agent_A";
const PODMAN: &str = "podman";

fn instance(workload_name: &str, hash: &str) -> WorkloadInstanceName {
    WorkloadInstanceName::builder()
        .workload_name(workload_name)
        .config_hash(hash)
        .agent_name(AGENT_A)
        .build()
}

fn spec(workload_name: &str, hash: &str, runtime: &str) -> WorkloadSpec {
    WorkloadSpec {
        instance_name: instance(workload_name, hash),
        runtime: runtime.to_string(),
        runtime_config: "image: alpine:latest".to_string(),
        restart_policy: RestartPolicy::Never,
        dependencies: Vec::new(),
        control_interface_access: Authorizer::new(Vec::new(), Vec::new()),
    }
}

fn spec_with_dependency(
    workload_name: &str,
    hash: &str,
    runtime: &str,
    dep_name: &str,
    condition: AddCondition,
) -> WorkloadSpec {
    let mut s = spec(workload_name, hash, runtime);
    s.dependencies = vec![Dependency { workload_name: dep_name.to_string(), condition }];
    s
}

fn manager() -> RuntimeManager {
    RuntimeManager::new(AGENT_A.to_string(), vec![PODMAN.to_string()])
}

#[test]
fn utest_parameter_storage_records_latest_state() {
    let mut storage = ParameterStorage::new();
    let name = "workload_1".to_string();
    assert_eq!(None, storage.state_of(&name));

    storage.record(&name, ExecutionState::Pending { substate: "Initial".to_string() });
    assert_eq!(
        Some(ExecutionState::Pending { substate: "Initial".to_string() }),
        storage.state_of(&name)
    );

    storage.record(&name, ExecutionState::Succeeded);
    assert_eq!(Some(ExecutionState::Succeeded), storage.state_of(&name));

    assert_eq!(None, storage.state_of(&"workload_2".to_string()));
}

#[test]
fn utest_state_validator_empty_dependencies_trivially_fulfilled() {
    let storage = ParameterStorage::new();
    let s = spec("workload_1", "h1", PODMAN);
    assert!(StateValidator::dependencies_for_workload_fulfilled(&s, &storage));
}

#[test]
fn utest_state_validator_running_condition() {
    let mut storage = ParameterStorage::new();
    let s = spec_with_dependency("b", "h1", PODMAN, "a", AddCondition::AddCondRunning);

    assert!(!StateValidator::dependencies_for_workload_fulfilled(&s, &storage));

    storage.record(
        &"a".to_string(),
        ExecutionState::Pending { substate: "Starting".to_string() },
    );
    assert!(!StateValidator::dependencies_for_workload_fulfilled(&s, &storage));

    storage.record(&"a".to_string(), ExecutionState::Running { substate: "Ok".to_string() });
    assert!(StateValidator::dependencies_for_workload_fulfilled(&s, &storage));
}

#[test]
fn utest_dependent_start_waits_then_proceeds() {
    // Desired state: A without conditions, B waiting for A to run. A
    // starts at once; B leaves the queue when A's running state is
    // recorded.
    let mut m = manager();
    let mut storage = ParameterStorage::new();
    let spec_a = spec("a", "h1", PODMAN);
    let spec_b = spec_with_dependency("b", "h1", PODMAN, "a", AddCondition::AddCondRunning);

    let (ops, failed) =
        m.apply_desired_state(vec![spec_a.clone(), spec_b.clone()], &storage);
    assert_eq!(vec![WorkloadOperation::Create(spec_a.clone())], ops);
    assert!(failed.is_empty());
    assert_eq!(vec![spec_b.clone()], *m.waiting_starts());
    assert_eq!(vec![spec_a.instance_name.clone()], *m.live_instances());

    // The state checker reports A running; the event is recorded and
    // forwarded, then the queues are driven again.
    let report = process_workload_state(
        &mut storage,
        WorkloadState {
            instance_name: spec_a.instance_name.clone(),
            execution_state: ExecutionState::Running { substate: "Ok".to_string() },
        },
    );
    assert!(matches!(report, ToServer::UpdateWorkloadState { .. }));

    let (ops, failed) = m.dispatch_ready(&storage);
    assert_eq!(vec![WorkloadOperation::Create(spec_b.clone())], ops);
    assert!(failed.is_empty());
    assert!(m.waiting_starts().is_empty());
    assert_eq!(
        vec![spec_a.instance_name.clone(), spec_b.instance_name.clone()],
        *m.live_instances()
    );
}

#[test]
fn utest_unsupported_runtime_fails_without_retry() {
    let mut m = manager();
    let storage = ParameterStorage::new();
    let spec_x = spec("x", "h1", "zzz");

    let (ops, failed) = m.apply_desired_state(vec![spec_x.clone()], &storage);
    assert!(ops.is_empty());
    assert_eq!(1, failed.len());
    assert_eq!(spec_x.instance_name, failed[0].instance_name);
    assert_eq!(
        ExecutionState::Failed { reason: "unsupported runtime".to_string() },
        failed[0].execution_state
    );
    assert!(m.live_instances().is_empty());

    // The workload is not retried: nothing is queued or dispatched
    // afterwards.
    let (ops, failed) = m.dispatch_ready(&storage);
    assert!(ops.is_empty());
    assert!(failed.is_empty());
    assert!(m.waiting_starts().is_empty());
}

#[test]
fn utest_update_deletes_old_instance_before_creating_new() {
    let mut m = manager();
    let storage = ParameterStorage::new();
    let spec_v1 = spec("w", "hash1", PODMAN);
    let spec_v2 = spec("w", "hash2", PODMAN);

    let (ops, _) = m.apply_desired_state(vec![spec_v1.clone()], &storage);
    assert_eq!(vec![WorkloadOperation::Create(spec_v1.clone())], ops);

    let (ops, failed) = m.apply_desired_state(vec![spec_v2.clone()], &storage);
    assert!(failed.is_empty());
    assert_eq!(2, ops.len());
    match &ops[0] {
        WorkloadOperation::Delete(d) => {
            assert_eq!(spec_v1.instance_name, d.instance_name);
            assert!(d.dependencies.is_empty());
        },
        other => panic!("expected the deletion first, got {:?}", other),
    }
    assert_eq!(WorkloadOperation::Create(spec_v2.clone()), ops[1]);

    // At no point are two instances of the workload live at once.
    assert_eq!(vec![spec_v2.instance_name.clone()], *m.live_instances());
}

#[test]
fn utest_delete_removes_from_live_before_next_update() {
    let mut m = manager();
    let storage = ParameterStorage::new();
    let spec_a = spec("a", "h1", PODMAN);

    let (_, _) = m.apply_desired_state(vec![spec_a.clone()], &storage);
    assert_eq!(1, m.live_instances().len());

    let (ops, _) = m.apply_desired_state(Vec::new(), &storage);
    assert_eq!(1, ops.len());
    match &ops[0] {
        WorkloadOperation::Delete(d) => assert_eq!(spec_a.instance_name, d.instance_name),
        other => panic!("expected a deletion, got {:?}", other),
    }
    assert!(m.live_instances().is_empty());
}

#[test]
fn utest_round_trip_live_and_queued_names_match_desired() {
    // After one application, the live and queued workload names are
    // exactly the desired ones.
    let mut m = manager();
    let storage = ParameterStorage::new();
    let spec_a = spec("a", "h1", PODMAN);
    let spec_b = spec_with_dependency("b", "h1", PODMAN, "a", AddCondition::AddCondSucceeded);

    let (_, failed) = m.apply_desired_state(vec![spec_a.clone(), spec_b.clone()], &storage);
    assert!(failed.is_empty());

    let mut placed: Vec<String> = m
        .live_instances()
        .iter()
        .map(|i| i.workload_name().clone())
        .chain(m.waiting_starts().iter().map(|w| w.instance_name.workload_name().clone()))
        .collect();
    placed.sort();
    assert_eq!(vec!["a".to_string(), "b".to_string()], placed);
}

#[test]
fn utest_applying_same_state_twice_is_idempotent() {
    let mut m = manager();
    let storage = ParameterStorage::new();
    let spec_a = spec("a", "h1", PODMAN);
    let spec_b = spec_with_dependency("b", "h1", PODMAN, "a", AddCondition::AddCondRunning);
    let desired = vec![spec_a, spec_b];

    let (ops_first, failed_first) = m.apply_desired_state(desired.clone(), &storage);
    assert_eq!(1, ops_first.len());
    assert!(failed_first.is_empty());

    let (ops_second, failed_second) = m.apply_desired_state(desired, &storage);
    assert!(ops_second.is_empty());
    assert!(failed_second.is_empty());
}

#[test]
fn utest_workload_name_held_at_most_once() {
    let mut m = manager();
    let storage = ParameterStorage::new();
    let spec_b = spec_with_dependency("b", "h1", PODMAN, "a", AddCondition::AddCondRunning);

    let (_, _) = m.apply_desired_state(vec![spec_b.clone()], &storage);
    // "b" waits in the start queue, so it is not live.
    assert_eq!(1, m.waiting_starts().len());
    assert!(!m
        .live_instances()
        .iter()
        .any(|i| i.workload_name() == spec_b.instance_name.workload_name()));
}

#[test]
fn utest_process_workload_state_records_and_reports() {
    let mut storage = ParameterStorage::new();
    let state = WorkloadState {
        instance_name: instance("a", "h1"),
        execution_state: ExecutionState::Failed { reason: "exit code 1".to_string() },
    };

    let report = process_workload_state(&mut storage, state.clone());

    assert_eq!(
        Some(ExecutionState::Failed { reason: "exit code 1".to_string() }),
        storage.state_of(&"a".to_string())
    );
    assert_eq!(
        ToServer::UpdateWorkloadState { workload_states: vec![state] },
        report
    );
}

#[test]
fn utest_restart_policy_decisions() {
    let failed = ExecutionState::Failed { reason: "exit code 1".to_string() };
    let succeeded = ExecutionState::Succeeded;
    let running = ExecutionState::Running { substate: "Ok".to_string() };
    let removed = ExecutionState::Removed;

    assert!(!RestartPolicy::Never.restart_required(&failed));
    assert!(!RestartPolicy::Never.restart_required(&succeeded));

    assert!(RestartPolicy::OnFailure.restart_required(&failed));
    assert!(!RestartPolicy::OnFailure.restart_required(&succeeded));
    assert!(!RestartPolicy::OnFailure.restart_required(&running));

    assert!(RestartPolicy::Always.restart_required(&failed));
    assert!(RestartPolicy::Always.restart_required(&succeeded));
    assert!(!RestartPolicy::Always.restart_required(&running));
    assert!(!RestartPolicy::Always.restart_required(&removed));
}

#[test]
fn utest_authorizer_equality_by_rules() {
    let a = Authorizer::new(vec!["read".to_string()], vec!["write".to_string()]);
    let same = Authorizer::new(vec!["read".to_string()], vec!["write".to_string()]);
    let other = Authorizer::new(vec!["read".to_string()], Vec::new());

    assert!(a.grants_same_as(&same));
    assert!(!a.grants_same_as(&other));
}

#[test]
fn utest_instance_name_identity() {
    let a1 = instance("a", "h1");
    let a1_again = instance("a", "h1");
    let a2 = instance("a", "h2");

    assert!(a1.matches(&a1_again));
    assert!(!a1.matches(&a2));
    assert!(a1.same_workload_name(&a2));
}

#[test]
fn utest_startup_reuse() {
    // Before startup the runtime reports W and Z as running; the
    // first desired state keeps W and adds Y. W is adopted without a
    // create, Z gets exactly one deletion, Y is created.
    let mut m = manager();
    let storage = ParameterStorage::new();
    let spec_w = spec("w", "hash1", PODMAN);
    let spec_y = spec("y", "hashY", PODMAN);
    let desired = vec![spec_w.clone(), spec_y.clone()];
    let existing = vec![instance("w", "hash1"), instance("z", "hashZ")];

    let ops = m.adopt_reusable_workloads(existing, &desired);
    assert_eq!(1, ops.len());
    match &ops[0] {
        WorkloadOperation::Delete(d) => assert_eq!(instance("z", "hashZ"), d.instance_name),
        other => panic!("expected the stale workload's deletion, got {:?}", other),
    }
    assert_eq!(vec![spec_w.instance_name.clone()], *m.live_instances());

    let (ops, failed) = m.apply_desired_state(desired, &storage);
    assert!(failed.is_empty());
    assert_eq!(vec![WorkloadOperation::Create(spec_y.clone())], ops);
    assert_eq!(
        vec![spec_w.instance_name.clone(), spec_y.instance_name.clone()],
        *m.live_instances()
    );
}
