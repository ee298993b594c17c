use agent_core::agent_config::{handle_agent_config, AgentConfig, AgentConfigSource,
    DEFAULT_AGENT_CONFIG_FILE_PATH};

#[test]
fn utest_handle_agent_config_valid_config() {
    // A path given on the command line always wins, whether or not a
    // file sits at the default location; reading and parsing the file
    // is the surrounding program's business.
    let user_path = "/tmp/ank-agent-test.conf".to_string();

    let source = handle_agent_config(&Some(user_path.clone()), false);
    assert_eq!(AgentConfigSource::ConfigFile(user_path.clone()), source);

    let source_with_default_present = handle_agent_config(&Some(user_path.clone()), true);
    assert_eq!(
        AgentConfigSource::ConfigFile(user_path),
        source_with_default_present
    );
}

#[test]
fn utest_handle_server_config_default_path() {
    // Without a user-provided path the file at the default location
    // is used as soon as it exists.
    let source = handle_agent_config(&None, true);
    assert_eq!(
        AgentConfigSource::ConfigFile(DEFAULT_AGENT_CONFIG_FILE_PATH.to_string()),
        source
    );
}

#[test]
fn utest_handle_agent_config_default() {
    let source = handle_agent_config(&None, false);
    assert_eq!(AgentConfigSource::Defaults, source);

    let agent_config = AgentConfig::default();
    assert_eq!(agent_config.name, None);
    assert_eq!(
        agent_config.server_url,
        "http[s]://127.0.0.1:25551".to_string()
    );
    assert_eq!(agent_config.run_folder, None);
    assert_eq!(agent_config.insecure, None);
    assert_eq!(agent_config, AgentConfig::default());
}
