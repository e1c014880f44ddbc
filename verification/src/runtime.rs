//! Config path resolution, loading decisions, and the validated runtime form of
//! a configuration that the server and CLI route events with.

use vstd::prelude::*;
use vstd::string::StrSliceExecFns;

use crate::config::{
    issue_of, issue_text, text2, text4, AppConfig, ChannelConfig, ConfigValidationError, LoggingConfig, SinkConfig,
};
use crate::provider::{compile_outcome, ProviderTemplate, TemplateModel};
use crate::text::{
    chars_of, has_prefix, opt_text, same_text, starts_with_text, string_from_chars, trim_text,
    trimmed,
};
use crate::types::{ChannelInfo, ListChannelsOutput};
use crate::validate::{
    channel_names_distinct, config_issue, has_channel_named, has_sink_named,
    lemma_valid_config_is_coherent, one_jsonl_per_channel, routes_resolve, sink_name,
    sink_names_distinct,
};

verus! {

/// File name of the configuration.
pub const DEFAULT_CONFIG_FILE_NAME: &'static str = "config.toml";

/// Directory of the configuration under a config home.
pub const DEFAULT_CONFIG_DIR_NAME: &'static str = "vent-mcp";

/// Environment variable that names the configuration file explicitly.
pub const ENV_CONFIG: &'static str = "VENT_MCP_CONFIG";

/// The parent directory that `std::path::Path::parent` gives for a path, if any.
pub uninterp spec fn parent_path(path: Seq<char>) -> Option<Seq<char>>;

/// The path that `std::path::Path::join` gives for a base and a further path.
pub uninterp spec fn joined_path(base: Seq<char>, rest: Seq<char>) -> Seq<char>;

/// `Path::new(path).parent()`, as text. Parents of UTF-8 paths are UTF-8, so
/// the conversion back to text loses nothing.
#[verifier::external_body]
fn path_parent(path: &str) -> (r: Option<String>)
    ensures
        opt_text(r) == parent_path(path@),
{
    match std::path::Path::new(path).parent() {
        Some(parent) => Some(parent.to_string_lossy().into_owned()),
        None => None,
    }
}

/// `Path::new(base).join(rest)`, as text. Joining UTF-8 paths gives UTF-8, so
/// the conversion back to text loses nothing.
#[verifier::external_body]
pub(crate) fn path_join(base: &str, rest: &str) -> (r: String)
    ensures
        r@ == joined_path(base@, rest@),
{
    std::path::Path::new(base).join(rest).to_string_lossy().into_owned()
}

/// An environment value counts only when it is non-empty.
pub open spec fn non_empty(v: Option<Seq<char>>) -> Option<Seq<char>> {
    match v {
        Some(s) => if s.len() > 0 {
            Some(s)
        } else {
            None
        },
        None => None,
    }
}

fn non_empty_text(v: Option<String>) -> (r: Option<String>)
    ensures
        opt_text(r) == non_empty(opt_text(v)),
{
    match v {
        Some(s) => if s.as_str().unicode_len() > 0 {
            Some(s)
        } else {
            None
        },
        None => None,
    }
}

/// Why a configuration path was chosen.
#[derive(Debug, Clone, Copy, PartialEq, Eq)]
pub enum ConfigPathSource {
    Env,
    Xdg,
    Home,
}

/// The configuration path in use and the reason it was chosen.
#[derive(Debug, PartialEq, Eq)]
pub struct ResolvedConfigPath {
    pub path: String,
    pub source: ConfigPathSource,
}

/// Why a configuration could not be loaded.
#[derive(Debug, PartialEq, Eq)]
pub enum ConfigError {
    HomeDirectoryNotSet,
    NotFound { path: String },
    Read { path: String, source: String },
    ParseTomlAtPath { path: String, source: String },
    ParseToml { source: String },
    Validation(ConfigValidationError),
    CreateConfigDir { path: String, source: String },
    SerializeDefaultConfig { source: String },
    WriteDefaultConfig { path: String, source: String },
}

/// The path and source chosen from `VENT_MCP_CONFIG`, `XDG_CONFIG_HOME` and the
/// home directory, in that order; empty environment values count as unset.
pub open spec fn chosen_config_path(
    config_var: Option<Seq<char>>,
    xdg_var: Option<Seq<char>>,
    home_dir: Option<Seq<char>>,
) -> Option<(Seq<char>, ConfigPathSource)> {
    match non_empty(config_var) {
        Some(p) => Some((p, ConfigPathSource::Env)),
        None => match non_empty(xdg_var) {
            Some(x) => Some(
                (
                    joined_path(joined_path(x, DEFAULT_CONFIG_DIR_NAME@), DEFAULT_CONFIG_FILE_NAME@),
                    ConfigPathSource::Xdg,
                ),
            ),
            None => match home_dir {
                Some(h) => Some(
                    (
                        joined_path(
                            joined_path(joined_path(h, ".config"@), DEFAULT_CONFIG_DIR_NAME@),
                            DEFAULT_CONFIG_FILE_NAME@,
                        ),
                        ConfigPathSource::Home,
                    ),
                ),
                None => None,
            },
        },
    }
}

/// Resolves the configuration path from the values of `VENT_MCP_CONFIG` and
/// `XDG_CONFIG_HOME` and from the home directory.
pub fn resolve_config_path_with(
    config_var: Option<String>,
    xdg_var: Option<String>,
    home_dir: Option<String>,
) -> (r: Result<ResolvedConfigPath, ConfigError>)
    ensures
        match chosen_config_path(opt_text(config_var), opt_text(xdg_var), opt_text(home_dir)) {
            Some((path, source)) => r matches Ok(rp) && rp.path@ == path && rp.source == source,
            None => r matches Err(ConfigError::HomeDirectoryNotSet),
        },
{
    if let Some(path) = non_empty_text(config_var) {
        return Ok(ResolvedConfigPath { path, source: ConfigPathSource::Env });
    }
    if let Some(xdg) = non_empty_text(xdg_var) {
        let dir = path_join(xdg.as_str(), DEFAULT_CONFIG_DIR_NAME);
        return Ok(
            ResolvedConfigPath {
                path: path_join(dir.as_str(), DEFAULT_CONFIG_FILE_NAME),
                source: ConfigPathSource::Xdg,
            },
        );
    }
    match home_dir {
        Some(home) => {
            let config_home = path_join(home.as_str(), ".config");
            let dir = path_join(config_home.as_str(), DEFAULT_CONFIG_DIR_NAME);
            Ok(
                ResolvedConfigPath {
                    path: path_join(dir.as_str(), DEFAULT_CONFIG_FILE_NAME),
                    source: ConfigPathSource::Home,
                },
            )
        },
        None => Err(ConfigError::HomeDirectoryNotSet),
    }
}

/// The directory that holds a configuration file (`.` when the path has no parent).
pub open spec fn config_dir_of(path: Seq<char>) -> Seq<char> {
    match parent_path(path) {
        Some(p) => p,
        None => "."@,
    }
}

/// The directory that holds the configuration file at `path`.
pub fn config_dir_for_path(path: &str) -> (r: String)
    ensures
        r@ == config_dir_of(path@),
{
    match path_parent(path) {
        Some(p) => p,
        None => ".".to_owned(),
    }
}

/// `~` alone is the home directory and `~/rest` is `rest` under it, when a home is known.
pub open spec fn tilde_expanded(value: Seq<char>, home: Option<Seq<char>>) -> Seq<char> {
    if value == seq!['~'] && home is Some {
        home->0
    } else if has_prefix(value, seq!['~', '/']) && home is Some {
        joined_path(home->0, value.skip(2))
    } else {
        value
    }
}

/// Expands a leading `~`; `home_var` is the value of `HOME`, which counts only when non-empty.
pub fn expand_tilde(value: &str, home_var: Option<String>) -> (r: String)
    ensures
        r@ == tilde_expanded(value@, non_empty(opt_text(home_var))),
{
    let home = non_empty_text(home_var);
    proof {
        reveal_strlit("~");
        reveal_strlit("~/");
        assert("~"@ =~= seq!['~']);
        assert("~/"@ =~= seq!['~', '/']);
    }
    if same_text(value, "~") {
        return match home {
            Some(h) => h,
            None => value.to_owned(),
        };
    }
    if starts_with_text(value, "~/") {
        if let Some(h) = home {
            let cs = chars_of(value);
            let rest = string_from_chars(&cs.as_slice()[2..cs.len()]);
            assert(rest@ =~= value@.skip(2));
            return path_join(h.as_str(), rest.as_str());
        }
    }
    value.to_owned()
}

/// Where JSONL events go: the trimmed `jsonl_dir` with `~` expanded, or the
/// configuration directory when it is omitted, empty or blank.
pub open spec fn jsonl_dir_for(
    jsonl_dir: Option<Seq<char>>,
    config_dir: Seq<char>,
    home_var: Option<Seq<char>>,
) -> Seq<char> {
    match jsonl_dir {
        Some(d) => if trimmed(d).len() > 0 {
            tilde_expanded(trimmed(d), non_empty(home_var))
        } else {
            config_dir
        },
        None => config_dir,
    }
}

/// Resolves the JSONL directory.
pub fn resolve_jsonl_dir(logging: &LoggingConfig, config_dir: &str, home_var: Option<String>) -> (r:
    String)
    ensures
        r@ == jsonl_dir_for(opt_text(logging.jsonl_dir), config_dir@, opt_text(home_var)),
{
    match &logging.jsonl_dir {
        Some(raw) => {
            let value = trim_text(raw.as_str());
            if value.as_str().unicode_len() > 0 {
                expand_tilde(value.as_str(), home_var)
            } else {
                config_dir.to_owned()
            }
        },
        None => config_dir.to_owned(),
    }
}

/// The validated configuration the server and CLI route with.
#[derive(Debug, PartialEq, Eq)]
pub struct RuntimeConfig {
    default_channel: String,
    logging: LoggingConfig,
    channels: Vec<ChannelConfig>,
    providers: Vec<(String, ProviderTemplate)>,
    sinks: Vec<SinkConfig>,
    config_dir: String,
    jsonl_dir: String,
}

/// `rc` is the runtime form of `config`: same default channel, channels, sinks
/// and logging settings, the given configuration directory, the resolved JSONL
/// directory, and every provider compiled in map order.
pub open spec fn is_runtime_of(
    rc: RuntimeConfig,
    config: AppConfig,
    config_dir: Seq<char>,
    home_var: Option<Seq<char>>,
) -> bool {
    &&& rc.default_channel_name() == config.default_channel@
    &&& rc.channel_configs() == config.channels@
    &&& rc.sink_configs() == config.sinks@
    &&& rc.logging_config() == config.logging
    &&& rc.config_dir_text() == config_dir
    &&& rc.jsonl_dir_text() == jsonl_dir_for(opt_text(config.logging.jsonl_dir), config_dir, home_var)
    &&& rc.templates().len() == config.providers@.len()
    &&& forall|k: int|
        0 <= k < config.providers@.len() ==> (#[trigger] rc.templates()[k]).0
            == config.providers@[k].0@ && compile_outcome(
            config.providers@[k].0@,
            config.providers@[k].1,
        ) == Ok::<TemplateModel, crate::config::ValidationIssue>(rc.templates()[k].1)
}

impl RuntimeConfig {
    /// The default channel exists, channel and sink names are distinct, every
    /// channel's sink references resolve, and no channel has two JSONL sinks.
    #[verifier::type_invariant]
    closed spec fn well_formed(self) -> bool {
        &&& has_channel_named(self.channels@, self.default_channel@)
        &&& channel_names_distinct(self.channels@)
        &&& sink_names_distinct(self.sinks@)
        &&& routes_resolve(self.channels@, self.sinks@)
        &&& one_jsonl_per_channel(self.channels@, self.sinks@)
    }

    /// Name of the default channel.
    pub closed spec fn default_channel_name(self) -> Seq<char> {
        self.default_channel@
    }

    /// The configured channels, in order.
    pub closed spec fn channel_configs(self) -> Seq<ChannelConfig> {
        self.channels@
    }

    /// The configured sinks, in order.
    pub closed spec fn sink_configs(self) -> Seq<SinkConfig> {
        self.sinks@
    }

    /// The logging settings.
    pub closed spec fn logging_config(self) -> LoggingConfig {
        self.logging
    }

    /// The compiled providers, by name, in map order.
    pub closed spec fn templates(self) -> Seq<(Seq<char>, TemplateModel)> {
        self.providers@.map_values(|e: (String, ProviderTemplate)| (e.0@, e.1@))
    }

    /// The directory of the configuration file.
    pub closed spec fn config_dir_text(self) -> Seq<char> {
        self.config_dir@
    }

    /// The JSONL directory.
    pub closed spec fn jsonl_dir_text(self) -> Seq<char> {
        self.jsonl_dir@
    }

    /// Validates a configuration and builds its runtime form; `home_var` is the
    /// value of `HOME`, used to expand `~` in `jsonl_dir`. It succeeds exactly when
    /// the configuration validates, and keeps its default channel, channels,
    /// sinks and logging settings as they are.
    pub fn from_app_config(config: AppConfig, config_dir: String, home_var: Option<String>) -> (r:
        Result<RuntimeConfig, ConfigValidationError>)
        ensures
            match r {
                Ok(rc) => config_issue(config) is None && is_runtime_of(
                    rc,
                    config,
                    config_dir@,
                    opt_text(home_var),
                ),
                Err(e) => config_issue(config) == Some(e@),
            },
    {
        config.validate()?;
        proof {
            lemma_valid_config_is_coherent(config);
        }
        let ghost original = config;
        let AppConfig { default_channel, logging, channels, providers: raw_providers, sinks } =
            config;
        let mut providers: Vec<(String, ProviderTemplate)> = Vec::new();
        let mut i: usize = 0;
        while i < raw_providers.len()
            invariant
                raw_providers@ == original.providers@,
                crate::validate::providers_compile(raw_providers@),
                i <= raw_providers@.len(),
                providers@.len() == i,
                forall|k: int|
                    0 <= k < i ==> (#[trigger] providers@[k]).0@ == raw_providers@[k].0@
                        && compile_outcome(raw_providers@[k].0@, raw_providers@[k].1) == Ok::<
                        TemplateModel,
                        crate::config::ValidationIssue,
                    >(providers@[k].1@),
            decreases raw_providers@.len() - i,
        {
            let entry = &raw_providers[i];
            assert(compile_outcome(raw_providers@[i as int].0@, raw_providers@[i as int].1) is Ok);
            let template = match ProviderTemplate::compile(entry.0.as_str(), &entry.1) {
                Ok(t) => t,
                Err(e) => {
                    return Err(e);
                },
            };
            providers.push((entry.0.clone(), template));
            i = i + 1;
        }
        let jsonl_dir = resolve_jsonl_dir(&logging, config_dir.as_str(), home_var);
        let rc = RuntimeConfig {
            default_channel,
            logging,
            channels,
            providers,
            sinks,
            config_dir,
            jsonl_dir,
        };
        Ok(rc)
    }

    /// Name of the default channel.
    pub fn default_channel(&self) -> (r: &str)
        ensures
            r@ == self.default_channel_name(),
    {
        self.default_channel.as_str()
    }

    /// Whether a channel with this name is configured.
    pub fn has_channel(&self, name: &str) -> (r: bool)
        ensures
            r == has_channel_named(self.channel_configs(), name@),
    {
        let mut k: usize = 0;
        while k < self.channels.len()
            invariant
                k <= self.channels@.len(),
                forall|m: int| 0 <= m < k ==> self.channels@[m].name@ != name@,
            decreases self.channels@.len() - k,
        {
            if same_text(self.channels[k].name.as_str(), name) {
                assert(self.channels@[k as int].name@ == name@);
                return true;
            }
            k = k + 1;
        }
        false
    }

    /// Whether the default channel is the only channel.
    pub fn has_only_default_channel(&self) -> (r: bool)
        ensures
            r == (self.channel_configs().len() == 1 && self.channel_configs()[0].name@
                == self.default_channel_name()),
    {
        self.channels.len() == 1 && same_text(
            self.channels[0].name.as_str(),
            self.default_channel.as_str(),
        )
    }

    /// The default channel and every channel's name and description, in order.
    pub fn channel_list(&self) -> (r: ListChannelsOutput)
        ensures
            r.default_channel@ == self.default_channel_name(),
            r.channels@.len() == self.channel_configs().len(),
            forall|k: int|
                0 <= k < r.channels@.len() ==> (#[trigger] r.channels@[k]).name@
                    == self.channel_configs()[k].name@ && r.channels@[k].description@
                    == self.channel_configs()[k].description@,
    {
        let mut channels: Vec<ChannelInfo> = Vec::new();
        let mut k: usize = 0;
        while k < self.channels.len()
            invariant
                k <= self.channels@.len(),
                channels@.len() == k,
                forall|m: int|
                    0 <= m < k ==> (#[trigger] channels@[m]).name@ == self.channels@[m].name@
                        && channels@[m].description@ == self.channels@[m].description@,
            decreases self.channels@.len() - k,
        {
            let ch = &self.channels[k];
            channels.push(
                ChannelInfo { name: ch.name.clone(), description: ch.description.clone() },
            );
            k = k + 1;
        }
        ListChannelsOutput { default_channel: self.default_channel.clone(), channels }
    }

    /// Index of the sink with this name; it exists and is unique.
    fn sink_index(&self, name: &str) -> (r: usize)
        requires
            has_sink_named(self.sinks@, name@),
        ensures
            r < self.sinks@.len(),
            sink_name(self.sinks@[r as int]) == name@,
    {
        let mut k: usize = 0;
        while k < self.sinks.len()
            invariant
                k <= self.sinks@.len(),
                has_sink_named(self.sinks@, name@),
                forall|m: int| 0 <= m < k ==> sink_name(self.sinks@[m]) != name@,
            decreases self.sinks@.len() - k,
        {
            if same_text(self.sinks[k].name(), name) {
                return k;
            }
            k = k + 1;
        }
        assert(false);
        0
    }

    /// The sinks a channel routes to, in the order it lists them, or `None` for an
    /// unknown channel.
    pub fn sinks_for_channel(&self, channel_name: &str) -> (r: Option<Vec<&SinkConfig>>)
        ensures
            r is None <==> !has_channel_named(self.channel_configs(), channel_name@),
            r matches Some(v) ==> exists|i: int|
                0 <= i < self.channel_configs().len() && #[trigger] self.channel_configs()[i].name@
                    == channel_name@ && v@.len() == self.channel_configs()[i].sinks@.len() && forall|
                    j: int,
                |
                    0 <= j < v@.len() ==> sink_name(*#[trigger] v@[j])
                        == self.channel_configs()[i].sinks@[j]@ && exists|k: int|
                        0 <= k < self.sink_configs().len() && *v@[j] == self.sink_configs()[k],
    {
        proof {
            use_type_invariant(self);
        }
        let mut i: usize = 0;
        while i < self.channels.len()
            invariant
                i <= self.channels@.len(),
                routes_resolve(self.channels@, self.sinks@),
                forall|m: int| 0 <= m < i ==> self.channels@[m].name@ != channel_name@,
            decreases self.channels@.len() - i,
        {
            let ch = &self.channels[i];
            if same_text(ch.name.as_str(), channel_name) {
                let mut out: Vec<&SinkConfig> = Vec::new();
                let mut j: usize = 0;
                while j < ch.sinks.len()
                    invariant
                        *ch == self.channels@[i as int],
                        routes_resolve(self.channels@, self.sinks@),
                        i < self.channels@.len(),
                        j <= ch.sinks@.len(),
                        out@.len() == j,
                        forall|m: int|
                            0 <= m < j ==> sink_name(*#[trigger] out@[m]) == ch.sinks@[m]@
                                && exists|k: int|
                                0 <= k < self.sinks@.len() && *out@[m] == self.sinks@[k],
                    decreases ch.sinks@.len() - j,
                {
                    assert(has_sink_named(self.sinks@, self.channels@[i as int].sinks@[j as int]@));
                    let k = self.sink_index(ch.sinks[j].as_str());
                    out.push(&self.sinks[k]);
                    j = j + 1;
                }
                assert(self.channel_configs()[i as int].name@ == channel_name@);
                assert(self.sink_configs() == self.sinks@);
                return Some(out);
            }
            i = i + 1;
        }
        None
    }

    /// The compiled provider with this name, if one is configured.
    pub fn webhook_provider(&self, name: &str) -> (r: Option<&ProviderTemplate>)
        ensures
            r is None <==> forall|k: int|
                0 <= k < self.templates().len() ==> #[trigger] self.templates()[k].0 != name@,
            r matches Some(t) ==> exists|k: int|
                0 <= k < self.templates().len() && #[trigger] self.templates()[k].0 == name@
                    && self.templates()[k].1 == t@ && forall|m: int|
                    0 <= m < k ==> self.templates()[m].0 != name@,
    {
        let mut k: usize = 0;
        while k < self.providers.len()
            invariant
                k <= self.providers@.len(),
                forall|m: int| 0 <= m < k ==> #[trigger] self.templates()[m].0 != name@,
            decreases self.providers@.len() - k,
        {
            assert(self.templates()[k as int] == (
                self.providers@[k as int].0@,
                self.providers@[k as int].1@,
            ));
            if same_text(self.providers[k].0.as_str(), name) {
                assert(self.templates()[k as int].0 == name@);
                return Some(&self.providers[k].1);
            }
            k = k + 1;
        }
        None
    }

    /// The JSONL directory.
    pub fn jsonl_dir(&self) -> (r: &str)
        ensures
            r@ == self.jsonl_dir_text(),
    {
        self.jsonl_dir.as_str()
    }

    /// The directory of the configuration file.
    pub fn config_dir(&self) -> (r: &str)
        ensures
            r@ == self.config_dir_text(),
    {
        self.config_dir.as_str()
    }

    /// The logging settings.
    pub fn logging(&self) -> (r: &LoggingConfig)
        ensures
            *r == self.logging_config(),
    {
        &self.logging
    }
}


/// What reading and parsing the configuration file gave.
#[derive(Debug, PartialEq, Eq)]
pub enum ConfigFile {
    Missing,
    Unreadable { message: String },
    Malformed { message: String },
    Parsed(AppConfig),
}

impl AppConfig {
    /// The configuration at `path`, given what reading and parsing the file gave;
    /// a parsed configuration is returned only after it validates.
    pub fn load_from_path(path: &str, file: ConfigFile) -> (r: Result<AppConfig, ConfigError>)
        ensures
            match file {
                ConfigFile::Missing => r matches Err(ConfigError::NotFound { path: p }) && p@ == path@,
                ConfigFile::Unreadable { message } => r matches Err(
                    ConfigError::Read { path: p, source },
                ) && p@ == path@ && source@ == message@,
                ConfigFile::Malformed { message } => r matches Err(
                    ConfigError::ParseTomlAtPath { path: p, source },
                ) && p@ == path@ && source@ == message@,
                ConfigFile::Parsed(c) => match r {
                    Ok(v) => v == c && config_issue(c) is None,
                    Err(e) => e matches ConfigError::Validation(v) && config_issue(c) == Some(v@),
                },
            },
    {
        match file {
            ConfigFile::Missing => Err(ConfigError::NotFound { path: path.to_owned() }),
            ConfigFile::Unreadable { message } => Err(
                ConfigError::Read { path: path.to_owned(), source: message },
            ),
            ConfigFile::Malformed { message } => Err(
                ConfigError::ParseTomlAtPath { path: path.to_owned(), source: message },
            ),
            ConfigFile::Parsed(config) => match config.validate() {
                Ok(()) => Ok(config),
                Err(e) => Err(ConfigError::Validation(e)),
            },
        }
    }
}

/// How to proceed with a resolved configuration path.
#[derive(Debug, Clone, Copy, PartialEq, Eq)]
pub enum ConfigBootstrap {
    /// Load the file that is there.
    UseExisting,
    /// Write the default configuration first, then load it.
    CreateDefault,
}

/// A loaded configuration: the file it came from and its runtime form.
#[derive(Debug, PartialEq, Eq)]
pub struct LoadedConfig {
    path: String,
    config: RuntimeConfig,
}

impl LoadedConfig {
    /// Path of the configuration file.
    pub closed spec fn path_text(self) -> Seq<char> {
        self.path@
    }

    /// The runtime configuration.
    pub closed spec fn runtime(self) -> RuntimeConfig {
        self.config
    }

    /// Decides what to do with a resolved path: an existing file is loaded; a
    /// missing implicit (XDG or home) path gets the default configuration; a
    /// missing path named by `VENT_MCP_CONFIG` is an error, never created.
    pub fn bootstrap_action(resolved: &ResolvedConfigPath, exists: bool) -> (r: Result<
        ConfigBootstrap,
        ConfigError,
    >)
        ensures
            exists ==> r matches Ok(ConfigBootstrap::UseExisting),
            !exists && resolved.source == ConfigPathSource::Env ==> (r matches Err(
                ConfigError::NotFound { path },
            ) && path@ == resolved.path@),
            !exists && resolved.source != ConfigPathSource::Env ==> r matches Ok(
                ConfigBootstrap::CreateDefault,
            ),
    {
        if exists {
            return Ok(ConfigBootstrap::UseExisting);
        }
        match resolved.source {
            ConfigPathSource::Env => Err(ConfigError::NotFound { path: resolved.path.clone() }),
            _ => Ok(ConfigBootstrap::CreateDefault),
        }
    }

    /// Builds the runtime form of a parsed configuration found at `path`.
    pub fn from_app_config(path: String, config: AppConfig, home_var: Option<String>) -> (r:
        Result<LoadedConfig, ConfigValidationError>)
        ensures
            match r {
                Ok(l) => l.path_text() == path@ && config_issue(config) is None && is_runtime_of(
                    l.runtime(),
                    config,
                    config_dir_of(path@),
                    opt_text(home_var),
                ),
                Err(e) => config_issue(config) == Some(e@),
            },
    {
        let config_dir = config_dir_for_path(path.as_str());
        let config = RuntimeConfig::from_app_config(config, config_dir, home_var)?;
        Ok(LoadedConfig { path, config })
    }

    /// Loads and validates the configuration at `path`, given what reading and
    /// parsing the file gave; `home_var` is the value of `HOME`.
    pub fn load_from_path(path: String, file: ConfigFile, home_var: Option<String>) -> (r: Result<
        LoadedConfig,
        ConfigError,
    >)
        ensures
            match file {
                ConfigFile::Missing => r matches Err(ConfigError::NotFound { path: p }) && p@ == path@,
                ConfigFile::Unreadable { message } => r matches Err(
                    ConfigError::Read { path: p, source },
                ) && p@ == path@ && source@ == message@,
                ConfigFile::Malformed { message } => r matches Err(
                    ConfigError::ParseTomlAtPath { path: p, source },
                ) && p@ == path@ && source@ == message@,
                ConfigFile::Parsed(c) => match r {
                    Ok(l) => l.path_text() == path@ && config_issue(c) is None && is_runtime_of(
                        l.runtime(),
                        c,
                        config_dir_of(path@),
                        opt_text(home_var),
                    ),
                    Err(e) => e matches ConfigError::Validation(v) && config_issue(c) == Some(v@),
                },
            },
    {
        let config = AppConfig::load_from_path(path.as_str(), file)?;
        match LoadedConfig::from_app_config(path, config, home_var) {
            Ok(loaded) => Ok(loaded),
            Err(e) => Err(ConfigError::Validation(e)),
        }
    }

    /// The runtime configuration.
    pub fn config(&self) -> (r: &RuntimeConfig)
        ensures
            *r == self.runtime(),
    {
        &self.config
    }

    /// Consumes the loaded configuration and returns its runtime form.
    pub fn into_config(self) -> (r: RuntimeConfig)
        ensures
            r == self.runtime(),
    {
        self.config
    }

    /// The directory that contains the configuration file.
    pub fn config_dir(&self) -> (r: String)
        ensures
            r@ == config_dir_of(self.path_text()),
    {
        config_dir_for_path(self.path.as_str())
    }
}

/// The message a configuration error is reported with.
pub open spec fn config_error_text(e: ConfigError) -> Seq<char> {
    match e {
        ConfigError::HomeDirectoryNotSet => "home directory is not set"@,
        ConfigError::NotFound { path } => "config file not found at "@ + path@,
        ConfigError::Read { path, source } => "failed to read config file at "@ + path@ + ": "@
            + source@,
        ConfigError::ParseTomlAtPath { path, source } => "failed to parse config file at "@ + path@
            + ": "@ + source@,
        ConfigError::ParseToml { source } => "failed to parse config: "@ + source@,
        ConfigError::Validation(v) => issue_text(v@),
        ConfigError::CreateConfigDir { path, source } => "failed to create config directory at "@
            + path@ + ": "@ + source@,
        ConfigError::SerializeDefaultConfig { source } => "failed to serialize default config: "@
            + source@,
        ConfigError::WriteDefaultConfig { path, source } => "failed to write default config at "@
            + path@ + ": "@ + source@,
    }
}

impl ConfigError {
    /// The message this error is reported with.
    pub fn message(&self) -> (r: String)
        ensures
            r@ == config_error_text(*self),
    {
        match self {
            ConfigError::HomeDirectoryNotSet => "home directory is not set".to_owned(),
            ConfigError::NotFound { path } => text2("config file not found at ", path.as_str()),
            ConfigError::Read { path, source } => text4(
                "failed to read config file at ",
                path.as_str(),
                ": ",
                source.as_str(),
            ),
            ConfigError::ParseTomlAtPath { path, source } => text4(
                "failed to parse config file at ",
                path.as_str(),
                ": ",
                source.as_str(),
            ),
            ConfigError::ParseToml { source } => text2("failed to parse config: ", source.as_str()),
            ConfigError::Validation(v) => v.message(),
            ConfigError::CreateConfigDir { path, source } => text4(
                "failed to create config directory at ",
                path.as_str(),
                ": ",
                source.as_str(),
            ),
            ConfigError::SerializeDefaultConfig { source } => text2(
                "failed to serialize default config: ",
                source.as_str(),
            ),
            ConfigError::WriteDefaultConfig { path, source } => text4(
                "failed to write default config at ",
                path.as_str(),
                ": ",
                source.as_str(),
            ),
        }
    }
}

} // verus!
