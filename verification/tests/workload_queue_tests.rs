use agent_core::authorizer::Authorizer;
use agent_core::execution_state::{AddCondition, DeleteCondition, ExecutionState, RestartPolicy};
use agent_core::instance_name::WorkloadInstanceName;
use agent_core::parameter_storage::ParameterStorage;
use agent_core::workload_queue::WorkloadQueue;
use agent_core::workload_spec::{DeleteDependency, DeletedWorkload, Dependency, WorkloadSpec};

const AGENT_A: &str = "agent_A";
const WORKLOAD_NAME_1: &str = "workload_1";
const WORKLOAD_NAME_2: &str = "workload_2";
const RUNTIME: &str = "runtime";

fn test_instance_name(agent_name: &str, workload_name: &str) -> WorkloadInstanceName {
    WorkloadInstanceName::builder()
        .workload_name(workload_name)
        .config_hash("hash_1")
        .agent_name(agent_name)
        .build()
}

fn generate_test_workload_spec_with_param(
    agent_name: String,
    workload_name: String,
    runtime_name: String,
) -> WorkloadSpec {
    WorkloadSpec {
        instance_name: test_instance_name(&agent_name, &workload_name),
        runtime: runtime_name,
        runtime_config: "generalOptions: [\"--version\"]".to_string(),
        restart_policy: RestartPolicy::Always,
        dependencies: Vec::new(),
        control_interface_access: Authorizer::new(Vec::new(), Vec::new()),
    }
}

fn generate_test_workload_spec_with_dependencies(
    agent_name: &str,
    workload_name: &str,
    runtime_name: &str,
    dependencies: Vec<(String, AddCondition)>,
) -> WorkloadSpec {
    let mut spec = generate_test_workload_spec_with_param(
        agent_name.to_string(),
        workload_name.to_string(),
        runtime_name.to_string(),
    );
    spec.dependencies = dependencies
        .into_iter()
        .map(|(workload_name, condition)| Dependency { workload_name, condition })
        .collect();
    spec
}

fn generate_test_deleted_workload(agent_name: String, workload_name: String) -> DeletedWorkload {
    DeletedWorkload {
        instance_name: test_instance_name(&agent_name, &workload_name),
        dependencies: vec![DeleteDependency {
            workload_name: WORKLOAD_NAME_2.to_string(),
            condition: DeleteCondition::DelCondNotPendingNorRunning,
        }],
    }
}

#[test]
fn utest_put_on_waiting_queue() {
    let mut dependency_scheduler = WorkloadQueue::new();
    let new_workload = generate_test_workload_spec_with_param(
        AGENT_A.to_string(),
        WORKLOAD_NAME_1.to_string(),
        RUNTIME.to_string(),
    );

    dependency_scheduler.put_on_waiting_queue(vec![new_workload.clone()]);

    assert_eq!(vec![new_workload], *dependency_scheduler.waiting_starts());
}

#[test]
fn utest_put_on_delete_waiting_queue() {
    let mut dependency_scheduler = WorkloadQueue::new();
    let new_workload =
        generate_test_deleted_workload(AGENT_A.to_string(), WORKLOAD_NAME_1.to_string());

    dependency_scheduler.put_on_delete_waiting_queue(vec![new_workload.clone()]);

    assert_eq!(vec![new_workload], *dependency_scheduler.waiting_deletes());
}

#[test]
fn utest_next_workloads_to_start_fulfilled() {
    let workload_with_dependencies = generate_test_workload_spec_with_dependencies(
        AGENT_A,
        WORKLOAD_NAME_1,
        RUNTIME,
        vec![(WORKLOAD_NAME_2.to_string(), AddCondition::AddCondSucceeded)],
    );

    let mut dependency_scheduler = WorkloadQueue::new();
    dependency_scheduler.put_on_waiting_queue(vec![workload_with_dependencies.clone()]);

    let mut parameter_storage = ParameterStorage::new();
    parameter_storage.record(&WORKLOAD_NAME_2.to_string(), ExecutionState::Succeeded);

    let ready_workloads = dependency_scheduler.next_workloads_to_start(&parameter_storage);
    assert_eq!(vec![workload_with_dependencies], ready_workloads);
}

#[test]
fn utest_next_workloads_to_start_not_fulfilled() {
    let workload_with_dependencies = generate_test_workload_spec_with_dependencies(
        AGENT_A,
        WORKLOAD_NAME_1,
        RUNTIME,
        vec![(WORKLOAD_NAME_2.to_string(), AddCondition::AddCondFailed)],
    );

    let mut dependency_scheduler = WorkloadQueue::new();
    dependency_scheduler.put_on_waiting_queue(vec![workload_with_dependencies.clone()]);

    let mut parameter_storage = ParameterStorage::new();
    parameter_storage.record(
        &WORKLOAD_NAME_2.to_string(),
        ExecutionState::Running { substate: "Ok".to_string() },
    );

    let ready_workloads = dependency_scheduler.next_workloads_to_start(&parameter_storage);
    assert!(ready_workloads.is_empty());
}

#[test]
fn utest_next_workloads_to_start_no_workload_state() {
    let workload_with_dependencies = generate_test_workload_spec_with_dependencies(
        AGENT_A,
        WORKLOAD_NAME_1,
        RUNTIME,
        vec![(WORKLOAD_NAME_2.to_string(), AddCondition::AddCondRunning)],
    );

    let mut dependency_scheduler = WorkloadQueue::new();
    dependency_scheduler.put_on_waiting_queue(vec![workload_with_dependencies.clone()]);

    let parameter_storage = ParameterStorage::new();

    let ready_workloads = dependency_scheduler.next_workloads_to_start(&parameter_storage);
    assert!(ready_workloads.is_empty());
}

#[test]
fn utest_next_workloads_to_start_on_empty_queue() {
    let parameter_storage = ParameterStorage::new();

    let mut dependency_scheduler = WorkloadQueue::new();

    assert!(dependency_scheduler.waiting_starts().is_empty());
    let ready_workloads = dependency_scheduler.next_workloads_to_start(&parameter_storage);
    assert!(ready_workloads.is_empty());
}

#[test]
fn utest_next_workloads_to_delete_fulfilled() {
    let workload_with_dependencies =
        generate_test_deleted_workload(AGENT_A.to_string(), WORKLOAD_NAME_1.to_string());

    let mut dependency_scheduler = WorkloadQueue::new();
    dependency_scheduler.put_on_delete_waiting_queue(vec![workload_with_dependencies.clone()]);

    let mut parameter_storage = ParameterStorage::new();
    parameter_storage.record(&WORKLOAD_NAME_2.to_string(), ExecutionState::Succeeded);

    let ready_workloads = dependency_scheduler.next_workloads_to_delete(&parameter_storage);
    assert_eq!(vec![workload_with_dependencies], ready_workloads);
}

#[test]
fn utest_next_workloads_to_delete_not_fulfilled() {
    let workload_with_dependencies =
        generate_test_deleted_workload(AGENT_A.to_string(), WORKLOAD_NAME_1.to_string());

    let mut dependency_scheduler = WorkloadQueue::new();
    dependency_scheduler.put_on_delete_waiting_queue(vec![workload_with_dependencies.clone()]);

    let mut parameter_storage = ParameterStorage::new();
    parameter_storage.record(
        &WORKLOAD_NAME_2.to_string(),
        ExecutionState::Running { substate: "Ok".to_string() },
    );

    let ready_workloads = dependency_scheduler.next_workloads_to_delete(&parameter_storage);
    assert!(ready_workloads.is_empty());
}

#[test]
fn utest_next_workloads_to_delete_on_empty_queue() {
    let parameter_storage = ParameterStorage::new();

    let mut dependency_scheduler = WorkloadQueue::new();

    assert!(dependency_scheduler.waiting_deletes().is_empty());
    let ready_workloads = dependency_scheduler.next_workloads_to_delete(&parameter_storage);

    assert!(ready_workloads.is_empty());
}

#[test]
fn utest_next_workloads_to_delete_removed_from_queue() {
    let workload_with_dependencies =
        generate_test_deleted_workload(AGENT_A.to_string(), WORKLOAD_NAME_1.to_string());

    let mut dependency_scheduler = WorkloadQueue::new();
    dependency_scheduler.put_on_delete_waiting_queue(vec![workload_with_dependencies.clone()]);

    let parameter_storage = ParameterStorage::new();

    let _ = dependency_scheduler.next_workloads_to_delete(&parameter_storage);

    assert!(!dependency_scheduler
        .waiting_deletes()
        .iter()
        .any(|deleted| deleted.instance_name == workload_with_dependencies.instance_name));
}

#[test]
fn utest_delete_supersedes_queued_start() {
    let mut queue = WorkloadQueue::new();
    let spec = generate_test_workload_spec_with_dependencies(
        AGENT_A,
        WORKLOAD_NAME_1,
        RUNTIME,
        vec![(WORKLOAD_NAME_2.to_string(), AddCondition::AddCondRunning)],
    );
    queue.put_on_waiting_queue(vec![spec.clone()]);
    assert_eq!(1, queue.waiting_starts().len());

    let deleted = DeletedWorkload {
        instance_name: spec.instance_name.clone(),
        dependencies: Vec::new(),
    };
    queue.put_on_delete_waiting_queue(vec![deleted]);

    assert!(queue.waiting_starts().is_empty());
    assert_eq!(1, queue.waiting_deletes().len());
}

#[test]
fn utest_delete_blocked_until_dependency_removed() {
    // A deletion with a delete-condition waits until the other
    // workload is neither pending nor running.
    let mut queue = WorkloadQueue::new();
    let blocked = DeletedWorkload {
        instance_name: test_instance_name(AGENT_A, WORKLOAD_NAME_1),
        dependencies: vec![DeleteDependency {
            workload_name: WORKLOAD_NAME_2.to_string(),
            condition: DeleteCondition::DelCondNotPendingNorRunning,
        }],
    };
    queue.put_on_delete_waiting_queue(vec![blocked.clone()]);

    let mut storage = ParameterStorage::new();
    storage.record(
        &WORKLOAD_NAME_2.to_string(),
        ExecutionState::Running { substate: "Ok".to_string() },
    );
    assert!(queue.next_workloads_to_delete(&storage).is_empty());
    assert_eq!(1, queue.waiting_deletes().len());

    storage.record(&WORKLOAD_NAME_2.to_string(), ExecutionState::Removed);
    let ready = queue.next_workloads_to_delete(&storage);
    assert_eq!(vec![blocked], ready);
    assert!(queue.waiting_deletes().is_empty());
}

#[test]
fn utest_put_on_waiting_queue_overwrites_same_instance() {
    let mut queue = WorkloadQueue::new();
    let first = generate_test_workload_spec_with_param(
        AGENT_A.to_string(),
        WORKLOAD_NAME_1.to_string(),
        RUNTIME.to_string(),
    );
    let mut second = first.clone();
    second.runtime_config = "generalOptions: [\"--help\"]".to_string();

    queue.put_on_waiting_queue(vec![first]);
    queue.put_on_waiting_queue(vec![second.clone()]);

    assert_eq!(vec![second], *queue.waiting_starts());
}
