//! The configuration of a user and of a repository.
use vstd::prelude::*;
use vstd::string::*;

use crate::text::text_of;

verus! {

/// How much a message says.
#[derive(Debug, Clone, Copy, PartialEq, Eq, Structural)]
pub enum MessageLevel {
    /// A subject of one line.
    Quiet,
    /// A subject and a short body.
    Normal,
    /// A subject and a detailed body.
    Verbose,
}

impl Default for MessageLevel {
    fn default() -> (l: MessageLevel)
        ensures
            l == MessageLevel::Normal,
    {
        MessageLevel::Normal
    }
}

/// The configuration of a user.
#[derive(Debug, Clone, PartialEq, Eq)]
pub struct GlobalConfig {
    pub model: Option<String>,
    pub api_base: Option<String>,
    pub api_key: Option<String>,
    pub message_level: MessageLevel,
}

/// The configuration of a repository.
#[derive(Debug, Clone, PartialEq, Eq)]
pub struct RepoConfig {
    pub ignore: Option<IgnoreConfig>,
    pub model: Option<String>,
    pub api_base: Option<String>,
    pub api_key: Option<String>,
    pub message_level: Option<MessageLevel>,
}

impl Default for RepoConfig {
    fn default() -> (c: RepoConfig)
        ensures
            c.ignore is None,
            c.model is None,
            c.api_base is None,
            c.api_key is None,
            c.message_level is None,
    {
        RepoConfig {
            ignore: None,
            model: None,
            api_base: None,
            api_key: None,
            message_level: None,
        }
    }
}

/// What a repository ignores.
#[derive(Debug, Clone, PartialEq, Eq)]
pub struct IgnoreConfig {
    pub patterns: Vec<String>,
}

/// The configuration in force.
#[derive(Debug, Clone, PartialEq, Eq)]
pub struct Config {
    pub model: String,
    pub api_base: String,
    pub api_key: Option<String>,
    pub message_level: MessageLevel,
}

/// The address of the service where none is configured.
pub const DEFAULT_API_BASE: &'static str = "https://api.anthropic.com";

impl Default for GlobalConfig {
    fn default() -> (c: GlobalConfig)
        ensures
            c.model is None,
            text_of(c.api_base) == Some(DEFAULT_API_BASE@),
            c.api_key is None,
            c.message_level == MessageLevel::Normal,
    {
        GlobalConfig {
            model: None,
            api_base: Some(DEFAULT_API_BASE.to_owned()),
            api_key: None,
            message_level: MessageLevel::Normal,
        }
    }
}

/// The first of two that is there.
pub open spec fn either<T>(first: Option<T>, second: Option<T>) -> Option<T> {
    match first {
        Some(_) => first,
        None => second,
    }
}

/// A configured text, or else the default.
pub open spec fn or_default(s: Option<String>, default: Seq<char>) -> Seq<char> {
    match s {
        Some(t) => t@,
        None => default,
    }
}

/// Whether this is the configuration in force: each setting is that of the
/// repository, or else that of the user, or else the default.
pub open spec fn is_in_force(
    c: Config,
    repo: RepoConfig,
    global: Option<GlobalConfig>,
    default_model: Seq<char>,
) -> bool {
    let g_model = match global {
        Some(g) => g.model,
        None => None,
    };
    let g_base = match global {
        Some(g) => g.api_base,
        None => None,
    };
    let g_key = match global {
        Some(g) => g.api_key,
        None => None,
    };
    &&& c.model@ == or_default(either(repo.model, g_model), default_model)
    &&& c.api_base@ == or_default(either(repo.api_base, g_base), DEFAULT_API_BASE@)
    &&& c.api_key == either(repo.api_key, g_key)
    &&& c.message_level == match (repo.message_level, global) {
        (Some(l), _) => l,
        (None, Some(g)) => g.message_level,
        (None, None) => MessageLevel::Normal,
    }
}

impl Config {
    /// The configuration in force: that of the repository over that of the user over
    /// the defaults. The default model is handed in, since it changes from time to
    /// time.
    pub fn load(repo: RepoConfig, global: Option<GlobalConfig>, default_model: &str) -> (c: Config)
        ensures
            is_in_force(c, repo, global, default_model@),
    {
        match global {
            Some(g) => Config::merge(repo, g, default_model),
            None => Config::merge(repo, GlobalConfig::default(), default_model),
        }
    }

    /// The configuration of a repository over that of a user over the defaults.
    fn merge(repo: RepoConfig, global: GlobalConfig, default_model: &str) -> (c: Config)
        ensures
            is_in_force(c, repo, Some(global), default_model@),
    {
        let model = match repo.model {
            Some(m) => m,
            None => match global.model {
                Some(m) => m,
                None => default_model.to_owned(),
            },
        };
        let api_base = match repo.api_base {
            Some(b) => b,
            None => match global.api_base {
                Some(b) => b,
                None => DEFAULT_API_BASE.to_owned(),
            },
        };
        let api_key = match repo.api_key {
            Some(k) => Some(k),
            None => global.api_key,
        };
        let message_level = match repo.message_level {
            Some(l) => l,
            None => global.message_level,
        };
        Config { model, api_base, api_key, message_level }
    }
}

/// What the repository sets is in force, whatever the user sets.
pub proof fn repository_comes_first(
    c: Config,
    repo: RepoConfig,
    global: Option<GlobalConfig>,
    default_model: Seq<char>,
)
    requires
        is_in_force(c, repo, global, default_model),
    ensures
        repo.model matches Some(m) ==> c.model@ == m@,
        repo.api_base matches Some(b) ==> c.api_base@ == b@,
        repo.api_key is Some ==> c.api_key == repo.api_key,
        repo.message_level matches Some(l) ==> c.message_level == l,
{
}

} // verus!
