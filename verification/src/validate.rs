//! The validation policy for a configuration, stated as the first failing check
//! in the order the checks are made.

use vstd::prelude::*;
use vstd::string::StrSliceExecFns;

use crate::config::{
    issue_of, AppConfig, ChannelConfig, ConfigValidationError, SinkConfig, ValidationIssue,
    WebhookHeaderConfig, WebhookProviderConfig, WebhookSinkConfig,
};
use crate::provider::{compile_outcome, ProviderTemplate};
use crate::text::texts;
use crate::text::{
    ascii_lowercase, is_valid_name, opt_text, same_text, to_ascii_lower_text, trim_text, trimmed,
    valid_name,
};

verus! {

/// The complaint about a name that is not a valid channel-like name.
pub open spec fn name_issue(field: Seq<char>, name: Seq<char>) -> Option<ValidationIssue> {
    if is_valid_name(name) {
        None
    } else {
        Some(ValidationIssue::InvalidChannelName { field, name })
    }
}

/// Validates a channel-like name: 1 to 64 lowercase ASCII letters, digits, `_` or `-`.
pub fn validate_channel_name(name: &str, field: &str) -> (r: Result<(), ConfigValidationError>)
    ensures
        issue_of(r) == name_issue(field@, name@),
{
    if valid_name(name) {
        Ok(())
    } else {
        Err(
            ConfigValidationError::InvalidChannelName {
                field: field.to_owned(),
                name: name.to_owned(),
            },
        )
    }
}

/// Validates a provider or sink name with the rules used for channels.
pub fn validate_provider_name(name: &str, field: &str) -> (r: Result<(), ConfigValidationError>)
    ensures
        issue_of(r) == name_issue(field@, name@),
{
    validate_channel_name(name, field)
}

/// What is wrong with the `j`-th sink reference of a channel, given the earlier ones are fine.
pub open spec fn sink_ref_issue(ch: ChannelConfig, j: int) -> Option<ValidationIssue> {
    let sink = ch.sinks@[j]@;
    if !is_valid_name(sink) {
        Some(ValidationIssue::InvalidChannelName { field: "channels.sinks"@, name: sink })
    } else if exists|k: int| 0 <= k < j && #[trigger] ch.sinks@[k]@ == sink {
        Some(ValidationIssue::DuplicateChannelSink { channel: ch.name@, sink })
    } else {
        None
    }
}

/// The first issue among a channel's sink references from index `j` on.
pub open spec fn first_sink_ref_issue(ch: ChannelConfig, j: int) -> Option<ValidationIssue>
    decreases ch.sinks@.len() - j,
{
    if j < 0 || j >= ch.sinks@.len() {
        None
    } else {
        match sink_ref_issue(ch, j) {
            Some(e) => Some(e),
            None => first_sink_ref_issue(ch, j + 1),
        }
    }
}

/// What is wrong with the `i`-th channel, given the earlier ones are fine.
pub open spec fn channel_issue(cs: Seq<ChannelConfig>, i: int) -> Option<ValidationIssue> {
    let ch = cs[i];
    if !is_valid_name(ch.name@) {
        Some(ValidationIssue::InvalidChannelName { field: "channels.name"@, name: ch.name@ })
    } else if trimmed(ch.description@).len() == 0 {
        Some(ValidationIssue::ChannelDescriptionMustNotBeEmpty { channel: ch.name@ })
    } else if ch.sinks@.len() == 0 {
        Some(ValidationIssue::ChannelSinksMustNotBeEmpty { channel: ch.name@ })
    } else if first_sink_ref_issue(ch, 0) is Some {
        first_sink_ref_issue(ch, 0)
    } else if exists|k: int| 0 <= k < i && #[trigger] cs[k].name@ == ch.name@ {
        Some(ValidationIssue::DuplicateChannel { channel: ch.name@ })
    } else {
        None
    }
}

/// The first issue among the channels from index `i` on.
pub open spec fn first_channel_issue(cs: Seq<ChannelConfig>, i: int) -> Option<ValidationIssue>
    decreases cs.len() - i,
{
    if i < 0 || i >= cs.len() {
        None
    } else {
        match channel_issue(cs, i) {
            Some(e) => Some(e),
            None => first_channel_issue(cs, i + 1),
        }
    }
}

/// Some channel has this name.
pub open spec fn has_channel_named(cs: Seq<ChannelConfig>, name: Seq<char>) -> bool {
    exists|k: int| 0 <= k < cs.len() && #[trigger] cs[k].name@ == name
}

/// What is wrong with the `i`-th provider entry: its name, a name an earlier
/// entry has already, then its map.
pub open spec fn provider_issue(ps: Seq<(String, WebhookProviderConfig)>, i: int) -> Option<
    ValidationIssue,
> {
    match name_issue("providers"@, ps[i].0@) {
        Some(e) => Some(e),
        None => if exists|k: int| 0 <= k < i && #[trigger] ps[k].0@ == ps[i].0@ {
            Some(ValidationIssue::DuplicateWebhookProvider { provider: ps[i].0@ })
        } else {
            match compile_outcome(ps[i].0@, ps[i].1) {
                Err(e) => Some(e),
                Ok(_) => None,
            }
        },
    }
}

/// The first issue among the provider entries from index `i` on.
pub open spec fn first_provider_issue(ps: Seq<(String, WebhookProviderConfig)>, i: int) -> Option<
    ValidationIssue,
>
    decreases ps.len() - i,
{
    if i < 0 || i >= ps.len() {
        None
    } else {
        match provider_issue(ps, i) {
            Some(e) => Some(e),
            None => first_provider_issue(ps, i + 1),
        }
    }
}

/// Some provider entry has this name.
pub open spec fn has_provider_named(ps: Seq<(String, WebhookProviderConfig)>, name: Seq<char>) -> bool {
    exists|k: int| 0 <= k < ps.len() && #[trigger] ps[k].0@ == name
}

/// Header names are compared trimmed and ASCII-lowercased.
pub open spec fn header_key(h: WebhookHeaderConfig) -> Seq<char> {
    ascii_lowercase(trimmed(h.name@))
}

/// What is wrong with the `i`-th header of a webhook, given the earlier ones are fine.
pub open spec fn header_issue(hs: Seq<WebhookHeaderConfig>, i: int) -> Option<ValidationIssue> {
    if trimmed(hs[i].name@).len() == 0 {
        Some(ValidationIssue::WebhookHeaderNameMustNotBeEmpty)
    } else if trimmed(hs[i].env@).len() == 0 {
        Some(ValidationIssue::WebhookHeaderEnvMustNotBeEmpty { header: hs[i].name@ })
    } else if exists|k: int| 0 <= k < i && #[trigger] header_key(hs[k]) == header_key(hs[i]) {
        Some(ValidationIssue::DuplicateWebhookHeader { header: hs[i].name@ })
    } else {
        None
    }
}

/// The first issue among the headers from index `i` on.
pub open spec fn first_header_issue(hs: Seq<WebhookHeaderConfig>, i: int) -> Option<ValidationIssue>
    decreases hs.len() - i,
{
    if i < 0 || i >= hs.len() {
        None
    } else {
        match header_issue(hs, i) {
            Some(e) => Some(e),
            None => first_header_issue(hs, i + 1),
        }
    }
}

/// The scheme that `url::Url::parse` finds in `input`, or `None` when the text does not parse.
pub uninterp spec fn url_scheme(input: Seq<char>) -> Option<Seq<char>>;

/// Calls `url::Url::parse` on the text and, when it parses, `Url::scheme`.
///
/// Trusted: the result is the scheme of the parsed URL; what `Url::parse`
/// accepts is named by `url_scheme` and not stated further.
#[verifier::external_body]
fn parsed_url_scheme(input: &str) -> (r: Option<String>)
    ensures
        opt_text(r) == url_scheme(input@),
{
    match url::Url::parse(input) {
        Ok(parsed) => Some(parsed.scheme().to_string()),
        Err(_) => None,
    }
}

/// A scheme that webhooks may use.
pub open spec fn is_http_scheme(scheme: Option<Seq<char>>) -> bool {
    scheme == Some("http"@) || scheme == Some("https"@)
}

/// What is wrong with a webhook sink whose URL has the given scheme (`None`: does not parse).
pub open spec fn webhook_issue_with_scheme(
    w: WebhookSinkConfig,
    ps: Seq<(String, WebhookProviderConfig)>,
    scheme: Option<Seq<char>>,
) -> Option<ValidationIssue> {
    let provider = trimmed(w.provider->0@);
    if trimmed(w.url@).len() == 0 {
        Some(ValidationIssue::WebhookUrlMustNotBeEmpty)
    } else if !is_http_scheme(scheme) {
        Some(ValidationIssue::WebhookUrlMustBeHttp { url: w.url@ })
    } else if w.timeout_ms == 0 {
        Some(ValidationIssue::WebhookTimeoutMsMustBePositive)
    } else if w.provider is Some && provider.len() == 0 {
        Some(ValidationIssue::WebhookProviderNameMustNotBeEmpty)
    } else if w.provider is Some && name_issue("sinks.provider"@, provider) is Some {
        name_issue("sinks.provider"@, provider)
    } else if w.provider is Some && provider != "raw"@ && !has_provider_named(ps, provider) {
        Some(ValidationIssue::UnknownWebhookProvider { provider })
    } else {
        first_header_issue(w.headers@, 0)
    }
}

/// What is wrong with a webhook sink.
pub open spec fn webhook_issue(w: WebhookSinkConfig, ps: Seq<(String, WebhookProviderConfig)>) -> Option<
    ValidationIssue,
> {
    webhook_issue_with_scheme(w, ps, url_scheme(w.url@))
}

/// Name of a sink.
pub open spec fn sink_name(s: SinkConfig) -> Seq<char> {
    match s {
        SinkConfig::Jsonl(c) => c.name@,
        SinkConfig::Webhook(c) => c.name@,
    }
}

/// What is wrong with a sink's own settings.
pub open spec fn sink_settings_issue(s: SinkConfig, ps: Seq<(String, WebhookProviderConfig)>) -> Option<
    ValidationIssue,
> {
    match s {
        SinkConfig::Jsonl(_) => None,
        SinkConfig::Webhook(w) => webhook_issue(w, ps),
    }
}

/// What is wrong with the `i`-th sink: its settings, its name, then a repeated name.
pub open spec fn sink_issue(
    ss: Seq<SinkConfig>,
    ps: Seq<(String, WebhookProviderConfig)>,
    i: int,
) -> Option<ValidationIssue> {
    match sink_settings_issue(ss[i], ps) {
        Some(e) => Some(e),
        None => match name_issue("sinks.name"@, sink_name(ss[i])) {
            Some(e) => Some(e),
            None => if exists|k: int| 0 <= k < i && #[trigger] sink_name(ss[k]) == sink_name(ss[i]) {
                Some(ValidationIssue::DuplicateSinkName { sink: sink_name(ss[i]) })
            } else {
                None
            },
        },
    }
}

/// The first issue among the sinks from index `i` on.
pub open spec fn first_sink_issue(
    ss: Seq<SinkConfig>,
    ps: Seq<(String, WebhookProviderConfig)>,
    i: int,
) -> Option<ValidationIssue>
    decreases ss.len() - i,
{
    if i < 0 || i >= ss.len() {
        None
    } else {
        match sink_issue(ss, ps, i) {
            Some(e) => Some(e),
            None => first_sink_issue(ss, ps, i + 1),
        }
    }
}

/// Some sink has this name.
pub open spec fn has_sink_named(ss: Seq<SinkConfig>, name: Seq<char>) -> bool {
    exists|k: int| 0 <= k < ss.len() && #[trigger] sink_name(ss[k]) == name
}

/// The sink named `name` writes JSONL.
pub open spec fn is_jsonl_sink_named(ss: Seq<SinkConfig>, name: Seq<char>) -> bool {
    exists|k: int| 0 <= k < ss.len() && #[trigger] sink_name(ss[k]) == name && ss[k] is Jsonl
}

/// The first bad sink reference of a channel, from index `j` on: one that names
/// no sink, or a second reference to a JSONL sink (a channel writes at most one
/// JSONL log).
pub open spec fn first_unknown_ref_in(ch: ChannelConfig, ss: Seq<SinkConfig>, j: int) -> Option<
    ValidationIssue,
>
    decreases ch.sinks@.len() - j,
{
    if j < 0 || j >= ch.sinks@.len() {
        None
    } else if !has_sink_named(ss, ch.sinks@[j]@) {
        Some(ValidationIssue::UnknownChannelSink { channel: ch.name@, sink: ch.sinks@[j]@ })
    } else if is_jsonl_sink_named(ss, ch.sinks@[j]@) && exists|m: int|
        0 <= m < j && #[trigger] is_jsonl_sink_named(ss, ch.sinks@[m]@) {
        Some(ValidationIssue::MultipleChannelJsonlSinks { channel: ch.name@, sink: ch.sinks@[j]@ })
    } else {
        first_unknown_ref_in(ch, ss, j + 1)
    }
}

/// The first sink reference, over the channels from index `i` on, that names no sink.
pub open spec fn first_unknown_ref(cs: Seq<ChannelConfig>, ss: Seq<SinkConfig>, i: int) -> Option<
    ValidationIssue,
>
    decreases cs.len() - i,
{
    if i < 0 || i >= cs.len() {
        None
    } else {
        match first_unknown_ref_in(cs[i], ss, 0) {
            Some(e) => Some(e),
            None => first_unknown_ref(cs, ss, i + 1),
        }
    }
}

/// The first failing check of a configuration, or `None` when it is valid.
pub open spec fn config_issue(c: AppConfig) -> Option<ValidationIssue> {
    if name_issue("default_channel"@, c.default_channel@) is Some {
        name_issue("default_channel"@, c.default_channel@)
    } else if c.channels@.len() == 0 {
        Some(ValidationIssue::ChannelsMustNotBeEmpty)
    } else if c.sinks@.len() == 0 {
        Some(ValidationIssue::SinksMustNotBeEmpty)
    } else if first_channel_issue(c.channels@, 0) is Some {
        first_channel_issue(c.channels@, 0)
    } else if !has_channel_named(c.channels@, c.default_channel@) {
        Some(ValidationIssue::DefaultChannelMustExist { channel: c.default_channel@ })
    } else if first_provider_issue(c.providers@, 0) is Some {
        first_provider_issue(c.providers@, 0)
    } else if first_sink_issue(c.sinks@, c.providers@, 0) is Some {
        first_sink_issue(c.sinks@, c.providers@, 0)
    } else {
        first_unknown_ref(c.channels@, c.sinks@, 0)
    }
}


impl SinkConfig {
    /// The sink's name.
    pub fn name(&self) -> (r: &str)
        ensures
            r@ == sink_name(*self),
    {
        match self {
            SinkConfig::Jsonl(config) => config.name.as_str(),
            SinkConfig::Webhook(config) => config.name.as_str(),
        }
    }

    /// Validates the sink's own settings against the provider entries.
    pub fn validate(&self, providers: &Vec<(String, WebhookProviderConfig)>) -> (r: Result<
        (),
        ConfigValidationError,
    >)
        ensures
            issue_of(r) == sink_settings_issue(*self, providers@),
    {
        match self {
            SinkConfig::Jsonl(_) => Ok(()),
            SinkConfig::Webhook(config) => config.validate(providers),
        }
    }
}

/// Checks a channel's sink references: valid names, no repeats.
#[verifier::loop_isolation(false)]
fn validate_channel_sinks(ch: &ChannelConfig) -> (r: Result<(), ConfigValidationError>)
    ensures
        issue_of(r) == first_sink_ref_issue(*ch, 0),
{
    let mut j: usize = 0;
    while j < ch.sinks.len()
        invariant
            j <= ch.sinks@.len(),
            first_sink_ref_issue(*ch, 0) == first_sink_ref_issue(*ch, j as int),
        decreases ch.sinks@.len() - j,
    {
        let sink = &ch.sinks[j];
        validate_provider_name(sink.as_str(), "channels.sinks")?;
        let mut k: usize = 0;
        while k < j
            invariant
                k <= j,
                forall|m: int| 0 <= m < k ==> ch.sinks@[m]@ != ch.sinks@[j as int]@,
            decreases j - k,
        {
            if same_text(ch.sinks[k].as_str(), sink.as_str()) {
                assert(ch.sinks@[k as int]@ == ch.sinks@[j as int]@);
                return Err(
                    ConfigValidationError::DuplicateChannelSink {
                        channel: ch.name.clone(),
                        sink: sink.clone(),
                    },
                );
            }
            k = k + 1;
        }
        j = j + 1;
    }
    Ok(())
}

/// Checks every channel in order.
#[verifier::loop_isolation(false)]
fn validate_channels(cs: &Vec<ChannelConfig>) -> (r: Result<(), ConfigValidationError>)
    ensures
        issue_of(r) == first_channel_issue(cs@, 0),
{
    let mut i: usize = 0;
    while i < cs.len()
        invariant
            i <= cs@.len(),
            first_channel_issue(cs@, 0) == first_channel_issue(cs@, i as int),
        decreases cs@.len() - i,
    {
        let ch = &cs[i];
        validate_channel_name(ch.name.as_str(), "channels.name")?;
        let description = trim_text(ch.description.as_str());
        if description.as_str().unicode_len() == 0 {
            return Err(
                ConfigValidationError::ChannelDescriptionMustNotBeEmpty { channel: ch.name.clone() },
            );
        }
        if ch.sinks.len() == 0 {
            return Err(ConfigValidationError::ChannelSinksMustNotBeEmpty { channel: ch.name.clone() });
        }
        validate_channel_sinks(ch)?;
        let mut k: usize = 0;
        while k < i
            invariant
                k <= i,
                forall|m: int| 0 <= m < k ==> cs@[m].name@ != cs@[i as int].name@,
            decreases i - k,
        {
            if same_text(cs[k].name.as_str(), ch.name.as_str()) {
                assert(cs@[k as int].name@ == cs@[i as int].name@);
                return Err(ConfigValidationError::DuplicateChannel { channel: ch.name.clone() });
            }
            k = k + 1;
        }
        i = i + 1;
    }
    Ok(())
}

/// Whether some channel has the name.
#[verifier::loop_isolation(false)]
fn channel_named(cs: &Vec<ChannelConfig>, name: &str) -> (r: bool)
    ensures
        r == has_channel_named(cs@, name@),
{
    let mut k: usize = 0;
    while k < cs.len()
        invariant
            k <= cs@.len(),
            forall|m: int| 0 <= m < k ==> cs@[m].name@ != name@,
        decreases cs@.len() - k,
    {
        if same_text(cs[k].name.as_str(), name) {
            assert(cs@[k as int].name@ == name@);
            return true;
        }
        k = k + 1;
    }
    false
}

/// Checks every provider entry in order.
#[verifier::loop_isolation(false)]
fn validate_providers(ps: &Vec<(String, WebhookProviderConfig)>) -> (r: Result<
    (),
    ConfigValidationError,
>)
    ensures
        issue_of(r) == first_provider_issue(ps@, 0),
{
    let mut i: usize = 0;
    while i < ps.len()
        invariant
            i <= ps@.len(),
            first_provider_issue(ps@, 0) == first_provider_issue(ps@, i as int),
        decreases ps@.len() - i,
    {
        let entry = &ps[i];
        validate_provider_name(entry.0.as_str(), "providers")?;
        let mut k: usize = 0;
        while k < i
            invariant
                i < ps@.len(),
                k <= i,
                forall|m: int| 0 <= m < k ==> #[trigger] ps@[m].0@ != ps@[i as int].0@,
            decreases i - k,
        {
            if same_text(ps[k].0.as_str(), entry.0.as_str()) {
                assert(ps@[k as int].0@ == ps@[i as int].0@);
                return Err(ConfigValidationError::DuplicateWebhookProvider { provider: entry.0.clone() });
            }
            k = k + 1;
        }
        match ProviderTemplate::compile(entry.0.as_str(), &entry.1) {
            Ok(_) => {},
            Err(e) => {
                return Err(e);
            },
        }
        i = i + 1;
    }
    Ok(())
}

/// Whether some provider entry has the name.
#[verifier::loop_isolation(false)]
fn provider_named(ps: &Vec<(String, WebhookProviderConfig)>, name: &str) -> (r: bool)
    ensures
        r == has_provider_named(ps@, name@),
{
    let mut k: usize = 0;
    while k < ps.len()
        invariant
            k <= ps@.len(),
            forall|m: int| 0 <= m < k ==> ps@[m].0@ != name@,
        decreases ps@.len() - k,
    {
        if same_text(ps[k].0.as_str(), name) {
            assert(ps@[k as int].0@ == name@);
            return true;
        }
        k = k + 1;
    }
    false
}

/// Checks every webhook header in order.
#[verifier::loop_isolation(false)]
fn validate_headers(hs: &Vec<WebhookHeaderConfig>) -> (r: Result<(), ConfigValidationError>)
    ensures
        issue_of(r) == first_header_issue(hs@, 0),
{
    let mut seen: Vec<String> = Vec::new();
    let mut i: usize = 0;
    while i < hs.len()
        invariant
            i <= hs@.len(),
            first_header_issue(hs@, 0) == first_header_issue(hs@, i as int),
            texts(seen@) == Seq::new(i as nat, |k: int| header_key(hs@[k])),
        decreases hs@.len() - i,
    {
        let header = &hs[i];
        let name = trim_text(header.name.as_str());
        if name.as_str().unicode_len() == 0 {
            return Err(ConfigValidationError::WebhookHeaderNameMustNotBeEmpty);
        }
        let env = trim_text(header.env.as_str());
        if env.as_str().unicode_len() == 0 {
            return Err(
                ConfigValidationError::WebhookHeaderEnvMustNotBeEmpty { header: header.name.clone() },
            );
        }
        let normalized = to_ascii_lower_text(name.as_str());
        assert(normalized@ == header_key(hs@[i as int]));
        let mut k: usize = 0;
        while k < seen.len()
            invariant
                k <= seen@.len(),
                seen@.len() == i,
                forall|m: int| 0 <= m < k ==> header_key(hs@[m]) != header_key(hs@[i as int]),
            decreases seen@.len() - k,
        {
            assert(texts(seen@)[k as int] == seen@[k as int]@);
            assert(seen@[k as int]@ == header_key(hs@[k as int]));
            if same_text(seen[k].as_str(), normalized.as_str()) {
                return Err(
                    ConfigValidationError::DuplicateWebhookHeader { header: header.name.clone() },
                );
            }
            k = k + 1;
        }
        let ghost before = seen@;
        let ghost key = normalized@;
        seen.push(normalized);
        assert(texts(seen@) =~= texts(before).push(key));
        assert(texts(seen@) =~= Seq::new((i + 1) as nat, |k: int| header_key(hs@[k])));
        i = i + 1;
    }
    Ok(())
}

impl WebhookSinkConfig {
    /// Validates the sink given the scheme that its URL parsed to (`None`: it does not parse).
    pub fn validate_with_scheme(
        &self,
        providers: &Vec<(String, WebhookProviderConfig)>,
        scheme: Option<String>,
    ) -> (r: Result<(), ConfigValidationError>)
        ensures
            issue_of(r) == webhook_issue_with_scheme(*self, providers@, opt_text(scheme)),
    {
        let url = trim_text(self.url.as_str());
        if url.as_str().unicode_len() == 0 {
            return Err(ConfigValidationError::WebhookUrlMustNotBeEmpty);
        }
        let http = match &scheme {
            Some(s) => same_text(s.as_str(), "http") || same_text(s.as_str(), "https"),
            None => false,
        };
        if !http {
            return Err(ConfigValidationError::WebhookUrlMustBeHttp { url: self.url.clone() });
        }
        if self.timeout_ms == 0 {
            return Err(ConfigValidationError::WebhookTimeoutMsMustBePositive);
        }
        if let Some(raw_provider) = &self.provider {
            let provider = trim_text(raw_provider.as_str());
            if provider.as_str().unicode_len() == 0 {
                return Err(ConfigValidationError::WebhookProviderNameMustNotBeEmpty);
            }
            validate_provider_name(provider.as_str(), "sinks.provider")?;
            if !same_text(provider.as_str(), "raw") && !provider_named(providers, provider.as_str()) {
                return Err(ConfigValidationError::UnknownWebhookProvider { provider });
            }
        }
        validate_headers(&self.headers)
    }

    /// Validates one webhook sink: HTTP(S) URL, positive timeout, a known
    /// provider (or `raw`), and non-empty, distinct, environment-backed headers.
    pub fn validate(&self, providers: &Vec<(String, WebhookProviderConfig)>) -> (r: Result<
        (),
        ConfigValidationError,
    >)
        ensures
            issue_of(r) == webhook_issue(*self, providers@),
    {
        let url = trim_text(self.url.as_str());
        if url.as_str().unicode_len() == 0 {
            return Err(ConfigValidationError::WebhookUrlMustNotBeEmpty);
        }
        let scheme = parsed_url_scheme(self.url.as_str());
        self.validate_with_scheme(providers, scheme)
    }
}

/// Checks every sink in order.
#[verifier::loop_isolation(false)]
fn validate_sinks(ss: &Vec<SinkConfig>, ps: &Vec<(String, WebhookProviderConfig)>) -> (r: Result<
    (),
    ConfigValidationError,
>)
    ensures
        issue_of(r) == first_sink_issue(ss@, ps@, 0),
{
    let mut i: usize = 0;
    while i < ss.len()
        invariant
            i <= ss@.len(),
            first_sink_issue(ss@, ps@, 0) == first_sink_issue(ss@, ps@, i as int),
        decreases ss@.len() - i,
    {
        let sink = &ss[i];
        sink.validate(ps)?;
        let name = sink.name();
        validate_provider_name(name, "sinks.name")?;
        let mut k: usize = 0;
        while k < i
            invariant
                k <= i,
                forall|m: int| 0 <= m < k ==> sink_name(ss@[m]) != sink_name(ss@[i as int]),
            decreases i - k,
        {
            if same_text(ss[k].name(), name) {
                assert(sink_name(ss@[k as int]) == sink_name(ss@[i as int]));
                return Err(ConfigValidationError::DuplicateSinkName { sink: name.to_owned() });
            }
            k = k + 1;
        }
        i = i + 1;
    }
    Ok(())
}

/// Whether some sink has the name.
#[verifier::loop_isolation(false)]
fn sink_named(ss: &Vec<SinkConfig>, name: &str) -> (r: bool)
    ensures
        r == has_sink_named(ss@, name@),
{
    let mut k: usize = 0;
    while k < ss.len()
        invariant
            k <= ss@.len(),
            forall|m: int| 0 <= m < k ==> sink_name(ss@[m]) != name@,
        decreases ss@.len() - k,
    {
        if same_text(ss[k].name(), name) {
            assert(sink_name(ss@[k as int]) == name@);
            return true;
        }
        k = k + 1;
    }
    false
}

/// Whether the sink named `name` writes JSONL.
fn jsonl_sink_named(ss: &Vec<SinkConfig>, name: &str) -> (r: bool)
    ensures
        r == is_jsonl_sink_named(ss@, name@),
{
    let mut k: usize = 0;
    while k < ss.len()
        invariant
            k <= ss@.len(),
            forall|m: int| 0 <= m < k ==> !(sink_name(ss@[m]) == name@ && ss@[m] is Jsonl),
        decreases ss@.len() - k,
    {
        if same_text(ss[k].name(), name) {
            if let SinkConfig::Jsonl(_) = &ss[k] {
                assert(sink_name(ss@[k as int]) == name@ && ss@[k as int] is Jsonl);
                return true;
            }
        }
        k = k + 1;
    }
    false
}

/// Checks that every channel's sink references name a defined sink and that no
/// channel references two JSONL sinks.
#[verifier::loop_isolation(false)]
fn check_channel_sink_refs(cs: &Vec<ChannelConfig>, ss: &Vec<SinkConfig>) -> (r: Result<
    (),
    ConfigValidationError,
>)
    ensures
        issue_of(r) == first_unknown_ref(cs@, ss@, 0),
{
    let mut i: usize = 0;
    while i < cs.len()
        invariant
            i <= cs@.len(),
            first_unknown_ref(cs@, ss@, 0) == first_unknown_ref(cs@, ss@, i as int),
        decreases cs@.len() - i,
    {
        let ch = &cs[i];
        let mut seen_jsonl = false;
        let mut j: usize = 0;
        while j < ch.sinks.len()
            invariant
                j <= ch.sinks@.len(),
                first_unknown_ref_in(*ch, ss@, 0) == first_unknown_ref_in(*ch, ss@, j as int),
                seen_jsonl == exists|m: int|
                    0 <= m < j && #[trigger] is_jsonl_sink_named(ss@, ch.sinks@[m]@),
            decreases ch.sinks@.len() - j,
        {
            if !sink_named(ss, ch.sinks[j].as_str()) {
                return Err(
                    ConfigValidationError::UnknownChannelSink {
                        channel: ch.name.clone(),
                        sink: ch.sinks[j].clone(),
                    },
                );
            }
            let is_jsonl = jsonl_sink_named(ss, ch.sinks[j].as_str());
            if is_jsonl && seen_jsonl {
                return Err(
                    ConfigValidationError::MultipleChannelJsonlSinks {
                        channel: ch.name.clone(),
                        sink: ch.sinks[j].clone(),
                    },
                );
            }
            if is_jsonl {
                seen_jsonl = true;
            }
            j = j + 1;
        }
        i = i + 1;
    }
    Ok(())
}

impl AppConfig {
    /// Validates channel, provider and sink settings as one coherent policy: the
    /// result reports the first failing check (`config_issue`), or `Ok` when none fails.
    pub fn validate(&self) -> (r: Result<(), ConfigValidationError>)
        ensures
            issue_of(r) == config_issue(*self),
    {
        validate_channel_name(self.default_channel.as_str(), "default_channel")?;
        if self.channels.len() == 0 {
            return Err(ConfigValidationError::ChannelsMustNotBeEmpty);
        }
        if self.sinks.len() == 0 {
            return Err(ConfigValidationError::SinksMustNotBeEmpty);
        }
        validate_channels(&self.channels)?;
        if !channel_named(&self.channels, self.default_channel.as_str()) {
            return Err(
                ConfigValidationError::DefaultChannelMustExist {
                    channel: self.default_channel.clone(),
                },
            );
        }
        validate_providers(&self.providers)?;
        validate_sinks(&self.sinks, &self.providers)?;
        check_channel_sink_refs(&self.channels, &self.sinks)
    }
}


/// Every sink reference of every channel names a defined sink.
pub open spec fn routes_resolve(cs: Seq<ChannelConfig>, ss: Seq<SinkConfig>) -> bool {
    forall|i: int, j: int|
        0 <= i < cs.len() && 0 <= j < cs[i].sinks@.len() ==> has_sink_named(
            ss,
            #[trigger] cs[i].sinks@[j]@,
        )
}

/// No two sinks share a name.
pub open spec fn sink_names_distinct(ss: Seq<SinkConfig>) -> bool {
    forall|a: int, b: int|
        0 <= a < b < ss.len() ==> #[trigger] sink_name(ss[a]) != #[trigger] sink_name(ss[b])
}

/// No two channels share a name.
pub open spec fn channel_names_distinct(cs: Seq<ChannelConfig>) -> bool {
    forall|a: int, b: int| 0 <= a < b < cs.len() ==> #[trigger] cs[a].name@ != #[trigger] cs[b].name@
}

/// Every provider entry compiles.
pub open spec fn providers_compile(ps: Seq<(String, WebhookProviderConfig)>) -> bool {
    forall|k: int| 0 <= k < ps.len() ==> #[trigger] compile_outcome(ps[k].0@, ps[k].1) is Ok
}

/// No channel routes to two JSONL sinks.
pub open spec fn one_jsonl_per_channel(cs: Seq<ChannelConfig>, ss: Seq<SinkConfig>) -> bool {
    forall|i: int, a: int, b: int|
        0 <= i < cs.len() && 0 <= a < b < cs[i].sinks@.len() ==> !(is_jsonl_sink_named(
            ss,
            #[trigger] cs[i].sinks@[a]@,
        ) && is_jsonl_sink_named(ss, #[trigger] cs[i].sinks@[b]@))
}

proof fn lemma_refs_in_channel(ch: ChannelConfig, ss: Seq<SinkConfig>, j: int)
    requires
        0 <= j,
        first_unknown_ref_in(ch, ss, j) is None,
    ensures
        forall|m: int| j <= m < ch.sinks@.len() ==> has_sink_named(ss, #[trigger] ch.sinks@[m]@),
        forall|a: int, b: int|
            0 <= a < b < ch.sinks@.len() && j <= b ==> !(is_jsonl_sink_named(
                ss,
                #[trigger] ch.sinks@[a]@,
            ) && is_jsonl_sink_named(ss, #[trigger] ch.sinks@[b]@)),
    decreases ch.sinks@.len() - j,
{
    if j < ch.sinks@.len() {
        lemma_refs_in_channel(ch, ss, j + 1);
    }
}

proof fn lemma_refs(cs: Seq<ChannelConfig>, ss: Seq<SinkConfig>, i: int)
    requires
        0 <= i,
        first_unknown_ref(cs, ss, i) is None,
    ensures
        forall|a: int, j: int|
            i <= a < cs.len() && 0 <= j < cs[a].sinks@.len() ==> has_sink_named(
                ss,
                #[trigger] cs[a].sinks@[j]@,
            ),
        forall|c: int, a: int, b: int|
            i <= c < cs.len() && 0 <= a < b < cs[c].sinks@.len() ==> !(is_jsonl_sink_named(
                ss,
                #[trigger] cs[c].sinks@[a]@,
            ) && is_jsonl_sink_named(ss, #[trigger] cs[c].sinks@[b]@)),
    decreases cs.len() - i,
{
    if i < cs.len() {
        lemma_refs_in_channel(cs[i], ss, 0);
        lemma_refs(cs, ss, i + 1);
    }
}

proof fn lemma_sinks(ss: Seq<SinkConfig>, ps: Seq<(String, WebhookProviderConfig)>, i: int)
    requires
        0 <= i,
        first_sink_issue(ss, ps, i) is None,
    ensures
        forall|a: int, b: int|
            0 <= a < b < ss.len() && i <= b ==> #[trigger] sink_name(ss[a]) != #[trigger] sink_name(
                ss[b],
            ),
    decreases ss.len() - i,
{
    if i < ss.len() {
        lemma_sinks(ss, ps, i + 1);
        assert(forall|a: int| 0 <= a < i ==> #[trigger] sink_name(ss[a]) != sink_name(ss[i]));
    }
}

proof fn lemma_channels(cs: Seq<ChannelConfig>, i: int)
    requires
        0 <= i,
        first_channel_issue(cs, i) is None,
    ensures
        forall|a: int, b: int|
            0 <= a < b < cs.len() && i <= b ==> #[trigger] cs[a].name@ != #[trigger] cs[b].name@,
    decreases cs.len() - i,
{
    if i < cs.len() {
        lemma_channels(cs, i + 1);
        assert(forall|a: int| 0 <= a < i ==> #[trigger] cs[a].name@ != cs[i].name@);
    }
}

proof fn lemma_providers(ps: Seq<(String, WebhookProviderConfig)>, i: int)
    requires
        0 <= i,
        first_provider_issue(ps, i) is None,
    ensures
        forall|k: int| i <= k < ps.len() ==> #[trigger] compile_outcome(ps[k].0@, ps[k].1) is Ok,
    decreases ps.len() - i,
{
    if i < ps.len() {
        lemma_providers(ps, i + 1);
    }
}

/// A configuration that validates has a declared default channel, distinct
/// channel names, distinct sink names, sink references that all resolve, at
/// most one JSONL sink per channel, and provider maps that all compile.
pub proof fn lemma_valid_config_is_coherent(c: AppConfig)
    requires
        config_issue(c) is None,
    ensures
        has_channel_named(c.channels@, c.default_channel@),
        channel_names_distinct(c.channels@),
        sink_names_distinct(c.sinks@),
        routes_resolve(c.channels@, c.sinks@),
        one_jsonl_per_channel(c.channels@, c.sinks@),
        providers_compile(c.providers@),
{
    lemma_channels(c.channels@, 0);
    lemma_providers(c.providers@, 0);
    lemma_sinks(c.sinks@, c.providers@, 0);
    lemma_refs(c.channels@, c.sinks@, 0);
}


/// A channel's own settings are valid: a valid name, a description that is not
/// blank, and a non-empty list of valid, distinct sink names.
pub open spec fn channel_settings_ok(ch: ChannelConfig) -> bool {
    &&& is_valid_name(ch.name@)
    &&& trimmed(ch.description@).len() > 0
    &&& ch.sinks@.len() > 0
    &&& forall|j: int| 0 <= j < ch.sinks@.len() ==> is_valid_name(#[trigger] ch.sinks@[j]@)
    &&& forall|a: int, b: int|
        0 <= a < b < ch.sinks@.len() ==> #[trigger] ch.sinks@[a]@ != #[trigger] ch.sinks@[b]@
}

/// Provider names are valid and distinct, and every provider map compiles.
pub open spec fn providers_ok(ps: Seq<(String, WebhookProviderConfig)>) -> bool {
    &&& forall|k: int| 0 <= k < ps.len() ==> is_valid_name(#[trigger] ps[k].0@)
    &&& forall|a: int, b: int| 0 <= a < b < ps.len() ==> #[trigger] ps[a].0@ != #[trigger] ps[b].0@
    &&& providers_compile(ps)
}

/// Every sink's settings are valid, its name is valid, and no two sinks share a name.
pub open spec fn sinks_ok(ss: Seq<SinkConfig>, ps: Seq<(String, WebhookProviderConfig)>) -> bool {
    &&& forall|k: int| 0 <= k < ss.len() ==> #[trigger] sink_settings_issue(ss[k], ps) is None
    &&& forall|k: int| 0 <= k < ss.len() ==> is_valid_name(#[trigger] sink_name(ss[k]))
    &&& sink_names_distinct(ss)
}

/// The conditions under which a configuration validates, taken together.
pub open spec fn config_is_valid(c: AppConfig) -> bool {
    &&& is_valid_name(c.default_channel@)
    &&& c.channels@.len() > 0
    &&& c.sinks@.len() > 0
    &&& forall|i: int| 0 <= i < c.channels@.len() ==> channel_settings_ok(#[trigger] c.channels@[i])
    &&& channel_names_distinct(c.channels@)
    &&& has_channel_named(c.channels@, c.default_channel@)
    &&& providers_ok(c.providers@)
    &&& sinks_ok(c.sinks@, c.providers@)
    &&& routes_resolve(c.channels@, c.sinks@)
    &&& one_jsonl_per_channel(c.channels@, c.sinks@)
}

proof fn lemma_sink_refs_iff(ch: ChannelConfig, j: int)
    requires
        0 <= j,
    ensures
        first_sink_ref_issue(ch, j) is None <==> (forall|m: int|
            j <= m < ch.sinks@.len() ==> is_valid_name(#[trigger] ch.sinks@[m]@)) && (forall|a: int, b: int|
            0 <= a < b < ch.sinks@.len() && j <= b ==> #[trigger] ch.sinks@[a]@ != #[trigger] ch.sinks@[b]@),
    decreases ch.sinks@.len() - j,
{
    if j < ch.sinks@.len() {
        lemma_sink_refs_iff(ch, j + 1);
        if first_sink_ref_issue(ch, j) is None {
            assert(sink_ref_issue(ch, j) is None);
        }
    }
}

proof fn lemma_channels_iff(cs: Seq<ChannelConfig>, i: int)
    requires
        0 <= i,
    ensures
        first_channel_issue(cs, i) is None <==> (forall|m: int|
            i <= m < cs.len() ==> channel_settings_ok(#[trigger] cs[m])) && (forall|a: int, b: int|
            0 <= a < b < cs.len() && i <= b ==> #[trigger] cs[a].name@ != #[trigger] cs[b].name@),
    decreases cs.len() - i,
{
    if i < cs.len() {
        lemma_channels_iff(cs, i + 1);
        lemma_sink_refs_iff(cs[i], 0);
        if first_channel_issue(cs, i) is None {
            assert(channel_issue(cs, i) is None);
        }
    }
}

proof fn lemma_providers_iff(ps: Seq<(String, WebhookProviderConfig)>, i: int)
    requires
        0 <= i,
    ensures
        first_provider_issue(ps, i) is None <==> (forall|k: int|
            i <= k < ps.len() ==> is_valid_name(#[trigger] ps[k].0@) && compile_outcome(ps[k].0@, ps[k].1)
                is Ok) && (forall|a: int, b: int|
            0 <= a < b < ps.len() && i <= b ==> #[trigger] ps[a].0@ != #[trigger] ps[b].0@),
    decreases ps.len() - i,
{
    if i < ps.len() {
        lemma_providers_iff(ps, i + 1);
        if first_provider_issue(ps, i) is None {
            assert(provider_issue(ps, i) is None);
        }
    }
}

proof fn lemma_sinks_iff(ss: Seq<SinkConfig>, ps: Seq<(String, WebhookProviderConfig)>, i: int)
    requires
        0 <= i,
    ensures
        first_sink_issue(ss, ps, i) is None <==> (forall|k: int|
            i <= k < ss.len() ==> #[trigger] sink_settings_issue(ss[k], ps) is None && is_valid_name(
                sink_name(ss[k]),
            )) && (forall|a: int, b: int|
            0 <= a < b < ss.len() && i <= b ==> #[trigger] sink_name(ss[a]) != #[trigger] sink_name(ss[b])),
    decreases ss.len() - i,
{
    if i < ss.len() {
        lemma_sinks_iff(ss, ps, i + 1);
        if first_sink_issue(ss, ps, i) is None {
            assert(sink_issue(ss, ps, i) is None);
        }
    }
}

proof fn lemma_refs_in_channel_iff(ch: ChannelConfig, ss: Seq<SinkConfig>, j: int)
    requires
        0 <= j,
    ensures
        first_unknown_ref_in(ch, ss, j) is None <==> (forall|m: int|
            j <= m < ch.sinks@.len() ==> has_sink_named(ss, #[trigger] ch.sinks@[m]@)) && (forall|a: int, b: int|
            0 <= a < b < ch.sinks@.len() && j <= b ==> !(is_jsonl_sink_named(ss, #[trigger] ch.sinks@[a]@)
                && is_jsonl_sink_named(ss, #[trigger] ch.sinks@[b]@))),
    decreases ch.sinks@.len() - j,
{
    if j < ch.sinks@.len() {
        lemma_refs_in_channel_iff(ch, ss, j + 1);
    }
}

proof fn lemma_refs_iff(cs: Seq<ChannelConfig>, ss: Seq<SinkConfig>, i: int)
    requires
        0 <= i,
    ensures
        first_unknown_ref(cs, ss, i) is None <==> (forall|c: int|
            i <= c < cs.len() ==> #[trigger] first_unknown_ref_in(cs[c], ss, 0) is None),
    decreases cs.len() - i,
{
    if i < cs.len() {
        lemma_refs_iff(cs, ss, i + 1);
    }
}

/// A configuration validates exactly when all of its conditions hold: a valid
/// default channel that is declared, channels and sinks present, each channel
/// valid with distinct names, provider names valid and distinct with maps that
/// compile, sinks valid with distinct names, every route resolving to a sink,
/// and at most one JSONL sink per channel.
pub proof fn lemma_validation_conditions(c: AppConfig)
    ensures
        config_issue(c) is None <==> config_is_valid(c),
{
    let cs = c.channels@;
    let ss = c.sinks@;
    let ps = c.providers@;
    lemma_channels_iff(cs, 0);
    lemma_providers_iff(ps, 0);
    lemma_sinks_iff(ss, ps, 0);
    lemma_refs_iff(cs, ss, 0);
    if config_issue(c) is None {
        lemma_valid_config_is_coherent(c);
        assert(providers_ok(ps));
        assert forall|k: int| 0 <= k < ss.len() implies is_valid_name(#[trigger] sink_name(ss[k])) by {
            assert(sink_settings_issue(ss[k], ps) is None);
        }
        assert(sinks_ok(ss, ps));
        assert(config_is_valid(c));
    }
    if config_is_valid(c) {
        assert forall|i: int| 0 <= i < cs.len() implies #[trigger] first_unknown_ref_in(cs[i], ss, 0) is None by {
            lemma_refs_in_channel_iff(cs[i], ss, 0);
            assert forall|m: int| 0 <= m < cs[i].sinks@.len() implies has_sink_named(
                ss,
                #[trigger] cs[i].sinks@[m]@,
            ) by {}
            assert forall|a: int, b: int| 0 <= a < b < cs[i].sinks@.len() implies !(is_jsonl_sink_named(
                ss,
                #[trigger] cs[i].sinks@[a]@,
            ) && is_jsonl_sink_named(ss, #[trigger] cs[i].sinks@[b]@)) by {}
        }
        assert(first_unknown_ref(cs, ss, 0) is None);
        assert(first_channel_issue(cs, 0) is None);
        assert(first_provider_issue(ps, 0) is None);
        assert(first_sink_issue(ss, ps, 0) is None);
    }
}


/// The issue, if any, is the complaint about a URL scheme.
pub open spec fn is_scheme_issue(o: Option<ValidationIssue>) -> bool {
    o matches Some(ValidationIssue::WebhookUrlMustBeHttp { .. })
}

proof fn lemma_header_issues_not_scheme(hs: Seq<WebhookHeaderConfig>, i: int)
    ensures
        !is_scheme_issue(first_header_issue(hs, i)),
    decreases hs.len() - i,
{
    if 0 <= i < hs.len() {
        lemma_header_issues_not_scheme(hs, i + 1);
    }
}

/// The schemes a webhook URL may have are exactly `http` and `https`: a URL
/// that parses with either raises no scheme complaint whatever the other
/// settings, and a URL that is not blank and parses with any other scheme, or
/// does not parse, is refused for its scheme.
pub proof fn lemma_webhook_schemes(
    w: WebhookSinkConfig,
    ps: Seq<(String, WebhookProviderConfig)>,
    scheme: Option<Seq<char>>,
)
    ensures
        scheme == Some("http"@) ==> !is_scheme_issue(webhook_issue_with_scheme(w, ps, scheme)),
        scheme == Some("https"@) ==> !is_scheme_issue(webhook_issue_with_scheme(w, ps, scheme)),
        trimmed(w.url@).len() > 0 && scheme != Some("http"@) && scheme != Some("https"@)
            ==> webhook_issue_with_scheme(w, ps, scheme) == Some(
            ValidationIssue::WebhookUrlMustBeHttp { url: w.url@ },
        ),
{
    lemma_header_issues_not_scheme(w.headers@, 0);
}
} // verus!
