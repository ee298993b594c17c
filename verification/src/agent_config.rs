//! The agent's resolved configuration and the rule that decides where
//! it is loaded from.

use vstd::prelude::*;

verus! {

/// Where the agent's configuration file is looked for when no path is
/// given on the command line.
pub const DEFAULT_AGENT_CONFIG_FILE_PATH: &'static str = "/etc/ankaios/ank-agent.conf";

/// The resolved configuration the core runs with. Parsing the file is
/// the surrounding program's business; the core only decides which
/// source to use and consumes the plain values.
#[derive(Clone, Debug, PartialEq, Eq)]
pub struct AgentConfig {
    pub name: Option<String>,
    pub server_url: String,
    pub run_folder: Option<String>,
    pub insecure: Option<bool>,
    pub ca_pem_content: Option<String>,
    pub crt_pem_content: Option<String>,
    pub key_pem_content: Option<String>,
}

/// Mathematical model of an [`AgentConfig`].
pub struct AgentConfigView {
    pub name: Option<Seq<char>>,
    pub server_url: Seq<char>,
    pub run_folder: Option<Seq<char>>,
    pub insecure: Option<bool>,
    pub ca_pem_content: Option<Seq<char>>,
    pub crt_pem_content: Option<Seq<char>>,
    pub key_pem_content: Option<Seq<char>>,
}

impl View for AgentConfig {
    type V = AgentConfigView;

    open spec fn view(&self) -> AgentConfigView {
        AgentConfigView {
            name: self.name.deep_view(),
            server_url: self.server_url@,
            run_folder: self.run_folder.deep_view(),
            insecure: self.insecure,
            ca_pem_content: self.ca_pem_content.deep_view(),
            crt_pem_content: self.crt_pem_content.deep_view(),
            key_pem_content: self.key_pem_content.deep_view(),
        }
    }
}

/// The configuration used when no file is read: everything unset but
/// the server address placeholder, whose scheme is fixed once the
/// insecure flag is known.
pub open spec fn spec_default_agent_config() -> AgentConfigView {
    AgentConfigView {
        name: Option::None,
        server_url: "http[s]://127.0.0.1:25551"@,
        run_folder: Option::None,
        insecure: Option::None,
        ca_pem_content: Option::None,
        crt_pem_content: Option::None,
        key_pem_content: Option::None,
    }
}

impl Default for AgentConfig {
    fn default() -> (r: AgentConfig)
        ensures
            r@ == spec_default_agent_config(),
    {
        AgentConfig {
            name: Option::None,
            server_url: String::from_str("http[s]://127.0.0.1:25551"),
            run_folder: Option::None,
            insecure: Option::None,
            ca_pem_content: Option::None,
            crt_pem_content: Option::None,
            key_pem_content: Option::None,
        }
    }
}

/// Where the agent configuration comes from: a file to read and
/// parse, or the built-in defaults.
#[derive(Clone, Debug, PartialEq, Eq)]
pub enum AgentConfigSource {
    ConfigFile(String),
    Defaults,
}

/// Mathematical model of an [`AgentConfigSource`].
pub enum AgentConfigSourceView {
    ConfigFile(Seq<char>),
    Defaults,
}

impl View for AgentConfigSource {
    type V = AgentConfigSourceView;

    open spec fn view(&self) -> AgentConfigSourceView {
        match self {
            AgentConfigSource::ConfigFile(path) => AgentConfigSourceView::ConfigFile(path@),
            AgentConfigSource::Defaults => AgentConfigSourceView::Defaults,
        }
    }
}

/// The rule deciding the configuration source.
pub open spec fn spec_handle_agent_config(
    config_path: Option<Seq<char>>,
    default_config_exists: bool,
) -> AgentConfigSourceView {
    match config_path {
        Option::Some(path) => AgentConfigSourceView::ConfigFile(path),
        Option::None => if default_config_exists {
            AgentConfigSourceView::ConfigFile("/etc/ankaios/ank-agent.conf"@)
        } else {
            AgentConfigSourceView::Defaults
        },
    }
}

/// Decides where the agent configuration is loaded from: a path given
/// on the command line always wins; otherwise the file at the default
/// path is used when it exists, and the built-in defaults when it
/// does not.
pub fn handle_agent_config(config_path: &Option<String>, default_config_exists: bool) -> (r:
    AgentConfigSource)
    ensures
        r@ == spec_handle_agent_config(config_path.deep_view(), default_config_exists),
{
    match config_path {
        Option::Some(path) => AgentConfigSource::ConfigFile(path.clone()),
        Option::None => {
            if default_config_exists {
                AgentConfigSource::ConfigFile(String::from_str(DEFAULT_AGENT_CONFIG_FILE_PATH))
            } else {
                AgentConfigSource::Defaults
            }
        },
    }
}

} // verus!
