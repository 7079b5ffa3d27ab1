//! Connection settings for the dissection endpoint, as the configuration
//! file supplies them.

use vstd::prelude::*;

verus! {

/// Which provider to use and how to reach the remote one.
#[derive(Debug)]
pub struct LlmSettings {
    /// The provider name: `"ollama"` for the remote endpoint, `"dummy"` for
    /// the local splitter.
    pub provider: String,
    /// The model name sent to the remote endpoint.
    pub model: String,
    /// The base URL of the remote endpoint.
    pub location: Option<String>,
    /// The port of the remote endpoint.
    pub port: Option<u16>,
}

impl Clone for LlmSettings {
    fn clone(&self) -> (r: Self)
        ensures
            r == *self,
    {
        LlmSettings {
            provider: self.provider.clone(),
            model: self.model.clone(),
            location: match &self.location {
                Some(l) => Some(l.clone()),
                None => None,
            },
            port: match self.port {
                Some(p) => Some(p),
                None => None,
            },
        }
    }
}

impl Default for LlmSettings {
    /// The out-of-the-box settings: the remote provider on the local host's
    /// default port.
    fn default() -> (r: Self)
        ensures
            r.provider@ == "ollama"@,
            r.model@ == "qwen3:8b"@,
            r.location matches Some(l) && l@ == "http://localhost"@,
            r.port == Some(11434u16),
    {
        LlmSettings {
            provider: String::from_str("ollama"),
            model: String::from_str("qwen3:8b"),
            location: Some(String::from_str("http://localhost")),
            port: Some(11434),
        }
    }
}

/// Everything the configuration file may hold.
#[derive(Debug)]
pub struct FullConfig {
    pub llm: LlmSettings,
    pub title: Option<String>,
    pub author: Option<String>,
    pub starting_node: Option<String>,
}

/// The part of the configuration that the import pipeline needs.
#[derive(Debug)]
pub struct Settings {
    pub llm: LlmSettings,
}

} // verus!
