use agent_core::authorizer::Authorizer;
use agent_core::control_interface::{ControlInterface, ControlInterfaceInfo, ControlInterfacePath};
use agent_core::instance_name::WorkloadInstanceName;
use agent_core::messages::ToServer;

const WORKLOAD_1_NAME: &str = "workload1";
const PIPES_LOCATION: &str = "/some/path";

fn empty_authorizer() -> Authorizer {
    Authorizer::new(Vec::new(), Vec::new())
}

#[test]
fn utest_new() {
    let workload_instance_name = WorkloadInstanceName::builder()
        .workload_name(WORKLOAD_1_NAME)
        .build();

    let new_context_info = ControlInterfaceInfo::new(
        ControlInterfacePath::new(PIPES_LOCATION.to_string()),
        tokio::sync::mpsc::channel::<ToServer>(1).0,
        &workload_instance_name,
        empty_authorizer(),
    );

    assert_eq!(
        PIPES_LOCATION.to_string(),
        *new_context_info.get_control_interface_path().as_str()
    );
    assert_eq!(workload_instance_name, *new_context_info.get_instance_name());
}

#[test]
fn utest_get_run_folder() {
    let path = PIPES_LOCATION.to_string();
    let new_context_info = ControlInterfaceInfo::new(
        ControlInterfacePath::new(path.clone()),
        tokio::sync::mpsc::channel::<ToServer>(1).0,
        &WorkloadInstanceName::builder()
            .workload_name(WORKLOAD_1_NAME)
            .build(),
        empty_authorizer(),
    );

    assert_eq!(path, *new_context_info.get_control_interface_path().as_str());
}

#[test]
fn utest_get_to_server_sender() {
    let (to_server_sender, _receiver) = tokio::sync::mpsc::channel::<ToServer>(1);
    let new_context_info = ControlInterfaceInfo::new(
        ControlInterfacePath::new(PIPES_LOCATION.to_string()),
        to_server_sender.clone(),
        &WorkloadInstanceName::builder()
            .workload_name(WORKLOAD_1_NAME)
            .build(),
        empty_authorizer(),
    );

    assert!(to_server_sender.same_channel(&new_context_info.get_to_server_sender()));
}

#[test]
fn utest_has_same_configuration_true() {
    let pipes_folder = format!("{}/{}", PIPES_LOCATION, WORKLOAD_1_NAME);
    let workload_instance_name = WorkloadInstanceName::builder()
        .workload_name(WORKLOAD_1_NAME)
        .build();

    let context_info = ControlInterfaceInfo::new(
        ControlInterfacePath::new(pipes_folder.clone()),
        tokio::sync::mpsc::channel::<ToServer>(1).0,
        &workload_instance_name,
        empty_authorizer(),
    );

    let other_context = ControlInterface::new(
        ControlInterfacePath::new(pipes_folder),
        empty_authorizer(),
    );

    assert!(context_info.has_same_configuration(&other_context));
}

#[test]
fn utest_has_same_configuration_with_different_location_returns_false() {
    let workload_instance_name = WorkloadInstanceName::builder()
        .workload_name(WORKLOAD_1_NAME)
        .build();

    let context_info = ControlInterfaceInfo::new(
        ControlInterfacePath::new(PIPES_LOCATION.to_string()),
        tokio::sync::mpsc::channel::<ToServer>(1).0,
        &workload_instance_name,
        empty_authorizer(),
    );

    let other_context = ControlInterface::new(
        ControlInterfacePath::new("other_path".to_string()),
        empty_authorizer(),
    );

    assert!(!context_info.has_same_configuration(&other_context));
}

#[test]
fn utest_has_same_configuration_with_different_authorizer_returns_false() {
    let pipes_folder = format!("{}/{}", PIPES_LOCATION, WORKLOAD_1_NAME);
    let workload_instance_name = WorkloadInstanceName::builder()
        .workload_name(WORKLOAD_1_NAME)
        .build();

    let context_info = ControlInterfaceInfo::new(
        ControlInterfacePath::new(pipes_folder.clone()),
        tokio::sync::mpsc::channel::<ToServer>(1).0,
        &workload_instance_name,
        Authorizer::new(vec!["allow_write".to_string()], Vec::new()),
    );

    let other_context = ControlInterface::new(
        ControlInterfacePath::new(pipes_folder),
        Authorizer::new(vec!["allow_read".to_string()], Vec::new()),
    );

    assert!(!context_info.has_same_configuration(&other_context));
}

#[test]
fn utest_move_authorizer_returns_rules() {
    let authorizer = Authorizer::new(vec!["allow_read".to_string()], vec!["deny_write".to_string()]);
    let context_info = ControlInterfaceInfo::new(
        ControlInterfacePath::new(PIPES_LOCATION.to_string()),
        tokio::sync::mpsc::channel::<ToServer>(1).0,
        &WorkloadInstanceName::builder()
            .workload_name(WORKLOAD_1_NAME)
            .build(),
        authorizer.clone(),
    );

    let moved = context_info.move_authorizer();
    assert!(moved.grants_same_as(&authorizer));
}
