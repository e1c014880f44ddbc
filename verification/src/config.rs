//! Configuration model and the validation policy applied before any vent is routed.
//!
//! Configuration decides which channels exist, where their events may be
//! delivered, and how webhook payloads are shaped. Validation rejects unknown
//! or duplicate names, empty routes, malformed webhook destinations and
//! ambiguous provider maps before the server starts or the CLI sends a message.

use vstd::prelude::*;
use vstd::string::StrSliceExecFns;
use vstd::string::StringExecFns;

verus! {

/// Name of the JSONL sink in the default configuration.
pub const DEFAULT_LOG_SINK_NAME: &'static str = "log";

/// Timeout used by webhook sinks that do not set `timeout_ms`.
pub const DEFAULT_WEBHOOK_TIMEOUT_MS: u64 = 10000;

/// Where JSONL events are written.
#[derive(Debug, PartialEq, Eq)]
pub struct LoggingConfig {
    pub jsonl_dir: Option<String>,
}

/// A route an agent may choose, with the sinks that receive its events.
#[derive(Debug, PartialEq, Eq)]
pub struct ChannelConfig {
    pub name: String,
    pub description: String,
    pub sinks: Vec<String>,
}

/// A JSONL file sink.
#[derive(Debug, PartialEq, Eq)]
pub struct JsonlSinkConfig {
    pub name: String,
}

/// One webhook header whose value is read from an environment variable.
#[derive(Debug, PartialEq, Eq)]
pub struct WebhookHeaderConfig {
    pub name: String,
    pub env: String,
}

/// A webhook sink.
#[derive(Debug, PartialEq, Eq)]
pub struct WebhookSinkConfig {
    pub name: String,
    pub url: String,
    pub provider: Option<String>,
    pub headers: Vec<WebhookHeaderConfig>,
    pub timeout_ms: u64,
}

/// A concrete delivery destination.
#[derive(Debug, PartialEq, Eq)]
pub enum SinkConfig {
    Jsonl(JsonlSinkConfig),
    Webhook(WebhookSinkConfig),
}

/// A webhook payload map: pairs of canonical event field and dotted output path,
/// in the key order of the configuration map.
#[derive(Debug, PartialEq, Eq)]
pub struct WebhookProviderConfig {
    pub field_label_key: Option<String>,
    pub fields: Vec<(String, String)>,
}

/// The whole configuration file. `providers` holds the provider map's entries
/// in key order.
#[derive(Debug, PartialEq, Eq)]
pub struct AppConfig {
    pub default_channel: String,
    pub logging: LoggingConfig,
    pub channels: Vec<ChannelConfig>,
    pub providers: Vec<(String, WebhookProviderConfig)>,
    pub sinks: Vec<SinkConfig>,
}

/// Why a configuration is rejected.
#[derive(Debug, PartialEq, Eq)]
pub enum ConfigValidationError {
    ChannelsMustNotBeEmpty,
    SinksMustNotBeEmpty,
    InvalidChannelName { field: String, name: String },
    DuplicateSinkName { sink: String },
    DuplicateChannel { channel: String },
    ChannelSinksMustNotBeEmpty { channel: String },
    DuplicateChannelSink { channel: String, sink: String },
    UnknownChannelSink { channel: String, sink: String },
    MultipleChannelJsonlSinks { channel: String, sink: String },
    DefaultChannelMustExist { channel: String },
    ChannelDescriptionMustNotBeEmpty { channel: String },
    WebhookUrlMustNotBeEmpty,
    WebhookUrlMustBeHttp { url: String },
    WebhookTimeoutMsMustBePositive,
    WebhookHeaderNameMustNotBeEmpty,
    WebhookHeaderEnvMustNotBeEmpty { header: String },
    DuplicateWebhookHeader { header: String },
    WebhookProviderNameMustNotBeEmpty,
    UnknownWebhookProvider { provider: String },
    DuplicateWebhookProvider { provider: String },
    WebhookProviderMapMustNotBeEmpty { provider: String },
    InvalidWebhookProviderLabelKey { provider: String, label_key: String },
    UnknownWebhookProviderField { provider: String, field: String },
    DuplicateWebhookProviderField { provider: String, field: String },
    InvalidWebhookProviderPath { provider: String, field: String, path: String },
    DuplicateWebhookProviderPath { provider: String, path: String },
    CollidingWebhookProviderPath { provider: String, path: String },
}

/// The mathematical value of a `ConfigValidationError`.
pub enum ValidationIssue {
    ChannelsMustNotBeEmpty,
    SinksMustNotBeEmpty,
    InvalidChannelName { field: Seq<char>, name: Seq<char> },
    DuplicateSinkName { sink: Seq<char> },
    DuplicateChannel { channel: Seq<char> },
    ChannelSinksMustNotBeEmpty { channel: Seq<char> },
    DuplicateChannelSink { channel: Seq<char>, sink: Seq<char> },
    UnknownChannelSink { channel: Seq<char>, sink: Seq<char> },
    MultipleChannelJsonlSinks { channel: Seq<char>, sink: Seq<char> },
    DefaultChannelMustExist { channel: Seq<char> },
    ChannelDescriptionMustNotBeEmpty { channel: Seq<char> },
    WebhookUrlMustNotBeEmpty,
    WebhookUrlMustBeHttp { url: Seq<char> },
    WebhookTimeoutMsMustBePositive,
    WebhookHeaderNameMustNotBeEmpty,
    WebhookHeaderEnvMustNotBeEmpty { header: Seq<char> },
    DuplicateWebhookHeader { header: Seq<char> },
    WebhookProviderNameMustNotBeEmpty,
    UnknownWebhookProvider { provider: Seq<char> },
    DuplicateWebhookProvider { provider: Seq<char> },
    WebhookProviderMapMustNotBeEmpty { provider: Seq<char> },
    InvalidWebhookProviderLabelKey { provider: Seq<char>, label_key: Seq<char> },
    UnknownWebhookProviderField { provider: Seq<char>, field: Seq<char> },
    DuplicateWebhookProviderField { provider: Seq<char>, field: Seq<char> },
    InvalidWebhookProviderPath { provider: Seq<char>, field: Seq<char>, path: Seq<char> },
    DuplicateWebhookProviderPath { provider: Seq<char>, path: Seq<char> },
    CollidingWebhookProviderPath { provider: Seq<char>, path: Seq<char> },
}

impl View for ConfigValidationError {
    type V = ValidationIssue;

    open spec fn view(&self) -> ValidationIssue {
        match self {
            ConfigValidationError::ChannelsMustNotBeEmpty => ValidationIssue::ChannelsMustNotBeEmpty,
            ConfigValidationError::SinksMustNotBeEmpty => ValidationIssue::SinksMustNotBeEmpty,
            ConfigValidationError::InvalidChannelName { field, name } => {
                ValidationIssue::InvalidChannelName { field: field@, name: name@ }
            },
            ConfigValidationError::DuplicateSinkName { sink } => {
                ValidationIssue::DuplicateSinkName { sink: sink@ }
            },
            ConfigValidationError::DuplicateChannel { channel } => {
                ValidationIssue::DuplicateChannel { channel: channel@ }
            },
            ConfigValidationError::ChannelSinksMustNotBeEmpty { channel } => {
                ValidationIssue::ChannelSinksMustNotBeEmpty { channel: channel@ }
            },
            ConfigValidationError::DuplicateChannelSink { channel, sink } => {
                ValidationIssue::DuplicateChannelSink { channel: channel@, sink: sink@ }
            },
            ConfigValidationError::UnknownChannelSink { channel, sink } => {
                ValidationIssue::UnknownChannelSink { channel: channel@, sink: sink@ }
            },
            ConfigValidationError::MultipleChannelJsonlSinks { channel, sink } => {
                ValidationIssue::MultipleChannelJsonlSinks { channel: channel@, sink: sink@ }
            },
            ConfigValidationError::DefaultChannelMustExist { channel } => {
                ValidationIssue::DefaultChannelMustExist { channel: channel@ }
            },
            ConfigValidationError::ChannelDescriptionMustNotBeEmpty { channel } => {
                ValidationIssue::ChannelDescriptionMustNotBeEmpty { channel: channel@ }
            },
            ConfigValidationError::WebhookUrlMustNotBeEmpty => ValidationIssue::WebhookUrlMustNotBeEmpty,
            ConfigValidationError::WebhookUrlMustBeHttp { url } => {
                ValidationIssue::WebhookUrlMustBeHttp { url: url@ }
            },
            ConfigValidationError::WebhookTimeoutMsMustBePositive => {
                ValidationIssue::WebhookTimeoutMsMustBePositive
            },
            ConfigValidationError::WebhookHeaderNameMustNotBeEmpty => {
                ValidationIssue::WebhookHeaderNameMustNotBeEmpty
            },
            ConfigValidationError::WebhookHeaderEnvMustNotBeEmpty { header } => {
                ValidationIssue::WebhookHeaderEnvMustNotBeEmpty { header: header@ }
            },
            ConfigValidationError::DuplicateWebhookHeader { header } => {
                ValidationIssue::DuplicateWebhookHeader { header: header@ }
            },
            ConfigValidationError::WebhookProviderNameMustNotBeEmpty => {
                ValidationIssue::WebhookProviderNameMustNotBeEmpty
            },
            ConfigValidationError::UnknownWebhookProvider { provider } => {
                ValidationIssue::UnknownWebhookProvider { provider: provider@ }
            },
            ConfigValidationError::DuplicateWebhookProvider { provider } => {
                ValidationIssue::DuplicateWebhookProvider { provider: provider@ }
            },
            ConfigValidationError::WebhookProviderMapMustNotBeEmpty { provider } => {
                ValidationIssue::WebhookProviderMapMustNotBeEmpty { provider: provider@ }
            },
            ConfigValidationError::InvalidWebhookProviderLabelKey { provider, label_key } => {
                ValidationIssue::InvalidWebhookProviderLabelKey {
                    provider: provider@,
                    label_key: label_key@,
                }
            },
            ConfigValidationError::UnknownWebhookProviderField { provider, field } => {
                ValidationIssue::UnknownWebhookProviderField { provider: provider@, field: field@ }
            },
            ConfigValidationError::DuplicateWebhookProviderField { provider, field } => {
                ValidationIssue::DuplicateWebhookProviderField { provider: provider@, field: field@ }
            },
            ConfigValidationError::InvalidWebhookProviderPath { provider, field, path } => {
                ValidationIssue::InvalidWebhookProviderPath {
                    provider: provider@,
                    field: field@,
                    path: path@,
                }
            },
            ConfigValidationError::DuplicateWebhookProviderPath { provider, path } => {
                ValidationIssue::DuplicateWebhookProviderPath { provider: provider@, path: path@ }
            },
            ConfigValidationError::CollidingWebhookProviderPath { provider, path } => {
                ValidationIssue::CollidingWebhookProviderPath { provider: provider@, path: path@ }
            },
        }
    }
}

/// The issue a validation result reports, if any.
pub open spec fn issue_of(r: Result<(), ConfigValidationError>) -> Option<ValidationIssue> {
    match r {
        Ok(_) => None,
        Err(e) => Some(e@),
    }
}

/// The message a validation issue is reported with.
pub open spec fn issue_text(i: ValidationIssue) -> Seq<char> {
    match i {
        ValidationIssue::ChannelsMustNotBeEmpty => "channels must contain at least one channel"@,
        ValidationIssue::SinksMustNotBeEmpty => "sinks must contain at least one sink"@,
        ValidationIssue::InvalidChannelName { field, name } => "invalid channel name in "@ + field
            + ": "@ + name,
        ValidationIssue::DuplicateSinkName { sink } => "duplicate sink name: "@ + sink,
        ValidationIssue::DuplicateChannel { channel } => "duplicate channel: "@ + channel,
        ValidationIssue::ChannelSinksMustNotBeEmpty { channel } =>
            "channel must reference at least one sink: "@ + channel,
        ValidationIssue::DuplicateChannelSink { channel, sink } =>
            "duplicate sink reference in channel "@ + channel + ": "@ + sink,
        ValidationIssue::UnknownChannelSink { channel, sink } =>
            "unknown sink reference in channel "@ + channel + ": "@ + sink,
        ValidationIssue::MultipleChannelJsonlSinks { channel, sink } =>
            "multiple jsonl sinks in channel "@ + channel + ": "@ + sink,
        ValidationIssue::DefaultChannelMustExist { channel } =>
            "default channel does not exist: "@ + channel,
        ValidationIssue::ChannelDescriptionMustNotBeEmpty { channel } =>
            "channel description must not be empty: "@ + channel,
        ValidationIssue::WebhookUrlMustNotBeEmpty => "webhook url must not be empty"@,
        ValidationIssue::WebhookUrlMustBeHttp { url } =>
            "webhook url must be an http or https URL: "@ + url,
        ValidationIssue::WebhookTimeoutMsMustBePositive => "webhook timeout_ms must be positive"@,
        ValidationIssue::WebhookHeaderNameMustNotBeEmpty => "webhook header name must not be empty"@,
        ValidationIssue::WebhookHeaderEnvMustNotBeEmpty { header } =>
            "webhook header env must not be empty for header "@ + header,
        ValidationIssue::DuplicateWebhookHeader { header } => "duplicate webhook header: "@ + header,
        ValidationIssue::WebhookProviderNameMustNotBeEmpty =>
            "webhook provider name must not be empty"@,
        ValidationIssue::UnknownWebhookProvider { provider } => "unknown webhook provider: "@
            + provider,
        ValidationIssue::DuplicateWebhookProvider { provider } => "duplicate webhook provider: "@
            + provider,
        ValidationIssue::WebhookProviderMapMustNotBeEmpty { provider } =>
            "webhook provider map must not be empty: "@ + provider,
        ValidationIssue::InvalidWebhookProviderLabelKey { provider, label_key } =>
            "invalid webhook provider label key in "@ + provider + ": "@ + label_key,
        ValidationIssue::UnknownWebhookProviderField { provider, field } =>
            "unknown webhook provider field in "@ + provider + ": "@ + field,
        ValidationIssue::DuplicateWebhookProviderField { provider, field } =>
            "duplicate webhook provider field in "@ + provider + ": "@ + field,
        ValidationIssue::InvalidWebhookProviderPath { provider, field, path } =>
            "invalid webhook provider path in "@ + provider + " for "@ + field + ": "@ + path,
        ValidationIssue::DuplicateWebhookProviderPath { provider, path } =>
            "duplicate webhook provider output path in "@ + provider + ": "@ + path,
        ValidationIssue::CollidingWebhookProviderPath { provider, path } =>
            "webhook provider output path in "@ + provider + " collides with another mapped path: "@
                + path,
    }
}

/// `head` followed by `a`.
pub fn text2(head: &str, a: &str) -> (r: String)
    ensures
        r@ == head@ + a@,
{
    let mut r = head.to_owned();
    r.append(a);
    r
}

/// `head`, `a`, `mid` and `b` in turn.
pub fn text4(head: &str, a: &str, mid: &str, b: &str) -> (r: String)
    ensures
        r@ == head@ + a@ + mid@ + b@,
{
    let mut r = head.to_owned();
    r.append(a);
    r.append(mid);
    r.append(b);
    r
}

impl ConfigValidationError {
    /// The message this error is reported with.
    pub fn message(&self) -> (r: String)
        ensures
            r@ == issue_text(self@),
    {
        match self {
            ConfigValidationError::ChannelsMustNotBeEmpty => "channels must contain at least one channel".to_owned(),
            ConfigValidationError::SinksMustNotBeEmpty => "sinks must contain at least one sink".to_owned(),
            ConfigValidationError::InvalidChannelName { field, name } => text4(
                "invalid channel name in ",
                field.as_str(),
                ": ",
                name.as_str(),
            ),
            ConfigValidationError::DuplicateSinkName { sink } => text2("duplicate sink name: ", sink.as_str()),
            ConfigValidationError::DuplicateChannel { channel } => text2(
                "duplicate channel: ",
                channel.as_str(),
            ),
            ConfigValidationError::ChannelSinksMustNotBeEmpty { channel } => text2(
                "channel must reference at least one sink: ",
                channel.as_str(),
            ),
            ConfigValidationError::DuplicateChannelSink { channel, sink } => text4(
                "duplicate sink reference in channel ",
                channel.as_str(),
                ": ",
                sink.as_str(),
            ),
            ConfigValidationError::UnknownChannelSink { channel, sink } => text4(
                "unknown sink reference in channel ",
                channel.as_str(),
                ": ",
                sink.as_str(),
            ),
            ConfigValidationError::MultipleChannelJsonlSinks { channel, sink } => text4(
                "multiple jsonl sinks in channel ",
                channel.as_str(),
                ": ",
                sink.as_str(),
            ),
            ConfigValidationError::DefaultChannelMustExist { channel } => text2(
                "default channel does not exist: ",
                channel.as_str(),
            ),
            ConfigValidationError::ChannelDescriptionMustNotBeEmpty { channel } => text2(
                "channel description must not be empty: ",
                channel.as_str(),
            ),
            ConfigValidationError::WebhookUrlMustNotBeEmpty => "webhook url must not be empty".to_owned(),
            ConfigValidationError::WebhookUrlMustBeHttp { url } => text2(
                "webhook url must be an http or https URL: ",
                url.as_str(),
            ),
            ConfigValidationError::WebhookTimeoutMsMustBePositive => "webhook timeout_ms must be positive".to_owned(),
            ConfigValidationError::WebhookHeaderNameMustNotBeEmpty => "webhook header name must not be empty".to_owned(),
            ConfigValidationError::WebhookHeaderEnvMustNotBeEmpty { header } => text2(
                "webhook header env must not be empty for header ",
                header.as_str(),
            ),
            ConfigValidationError::DuplicateWebhookHeader { header } => text2(
                "duplicate webhook header: ",
                header.as_str(),
            ),
            ConfigValidationError::WebhookProviderNameMustNotBeEmpty => "webhook provider name must not be empty".to_owned(),
            ConfigValidationError::UnknownWebhookProvider { provider } => text2(
                "unknown webhook provider: ",
                provider.as_str(),
            ),
            ConfigValidationError::DuplicateWebhookProvider { provider } => text2(
                "duplicate webhook provider: ",
                provider.as_str(),
            ),
            ConfigValidationError::WebhookProviderMapMustNotBeEmpty { provider } => text2(
                "webhook provider map must not be empty: ",
                provider.as_str(),
            ),
            ConfigValidationError::InvalidWebhookProviderLabelKey { provider, label_key } => text4(
                "invalid webhook provider label key in ",
                provider.as_str(),
                ": ",
                label_key.as_str(),
            ),
            ConfigValidationError::UnknownWebhookProviderField { provider, field } => text4(
                "unknown webhook provider field in ",
                provider.as_str(),
                ": ",
                field.as_str(),
            ),
            ConfigValidationError::DuplicateWebhookProviderField { provider, field } => text4(
                "duplicate webhook provider field in ",
                provider.as_str(),
                ": ",
                field.as_str(),
            ),
            ConfigValidationError::InvalidWebhookProviderPath { provider, field, path } => {
                let mut r = text4("invalid webhook provider path in ", provider.as_str(), " for ", field.as_str());
                r.append(": ");
                r.append(path.as_str());
                r
            },
            ConfigValidationError::DuplicateWebhookProviderPath { provider, path } => text4(
                "duplicate webhook provider output path in ",
                provider.as_str(),
                ": ",
                path.as_str(),
            ),
            ConfigValidationError::CollidingWebhookProviderPath { provider, path } => text4(
                "webhook provider output path in ",
                provider.as_str(),
                " collides with another mapped path: ",
                path.as_str(),
            ),
        }
    }
}

} // verus!
