//! Sink dispatch decisions: which sinks an event goes to, the statuses each
//! delivery reports, the request a webhook sink sends, and the error text a
//! failed webhook delivery is reported with. Writing files and sending requests
//! happen outside; they hand their outcomes back to these functions.

use vstd::prelude::*;
use vstd::string::StrSliceExecFns;
use vstd::string::StringExecFns;

use crate::config::{SinkConfig, WebhookHeaderConfig, WebhookSinkConfig};
use crate::delivery::{unknown_channel_message, unknown_channel_text};
use crate::json::{json_of, Json, JsonValue};
use crate::provider::{webhook_body, webhook_payload};
use crate::runtime::{joined_path, path_join, RuntimeConfig};
use crate::redaction::{sanitize_webhook_error_body, sanitized};
use crate::text::{decimal, opt_text, push_decimal, same_text, texts, trim_text, trimmed};
use crate::types::{SinkDeliveryStatus, VentEvent};
use crate::validate::{has_channel_named, sink_name};

verus! {

/// File name of the JSONL log inside the JSONL directory.
pub const JSONL_FILE_NAME: &'static str = "vents.jsonl";

/// A failed status for `sink` with `message`.
pub open spec fn is_failure(s: SinkDeliveryStatus, sink: Seq<char>, message: Seq<char>) -> bool {
    &&& s.sink@ == sink
    &&& !s.ok
    &&& opt_text(s.message) == Some(message)
}

/// A failed delivery status with a human-readable message.
pub fn failed_status(sink: String, message: String) -> (r: SinkDeliveryStatus)
    ensures
        is_failure(r, sink@, message@),
{
    SinkDeliveryStatus { sink, ok: false, message: Some(message) }
}

/// A successful delivery status.
pub fn delivered_status(sink: String) -> (r: SinkDeliveryStatus)
    ensures
        r.sink@ == sink@,
        r.ok,
        r.message is None,
{
    SinkDeliveryStatus { sink, ok: true, message: None }
}

/// The label a sink's delivery status carries: its configured name.
pub fn sink_label(sink: &SinkConfig) -> (r: String)
    ensures
        r@ == sink_name(*sink),
{
    sink.name().to_owned()
}

/// `sinks` is the route of the channel named `channel`: the sinks its first
/// entry lists, in order, each one of the configured sinks.
pub open spec fn is_route(rc: RuntimeConfig, channel: Seq<char>, sinks: Seq<SinkConfig>) -> bool {
    exists|i: int|
        0 <= i < rc.channel_configs().len() && #[trigger] rc.channel_configs()[i].name@ == channel
            && sinks.len() == rc.channel_configs()[i].sinks@.len() && forall|j: int|
            0 <= j < sinks.len() ==> sink_name(#[trigger] sinks[j])
                == rc.channel_configs()[i].sinks@[j]@ && exists|k: int|
                0 <= k < rc.sink_configs().len() && sinks[j] == rc.sink_configs()[k]
}

/// Fans events out to the sinks of their channels under one runtime configuration.
pub struct SinkDispatcher {
    config: RuntimeConfig,
}

impl SinkDispatcher {
    /// The runtime configuration routed with.
    pub closed spec fn runtime(self) -> RuntimeConfig {
        self.config
    }

    /// A dispatcher for a validated runtime configuration.
    pub fn new(config: RuntimeConfig) -> (r: SinkDispatcher)
        ensures
            r.runtime() == config,
    {
        SinkDispatcher { config }
    }

    /// The runtime configuration routed with.
    pub fn config(&self) -> (r: &RuntimeConfig)
        ensures
            *r == self.runtime(),
    {
        &self.config
    }

    /// The sinks an event is delivered to, in the order its channel lists them;
    /// for an unknown channel, the one failed status that is reported instead.
    pub fn targets(&self, event: &VentEvent) -> (r: Result<Vec<&SinkConfig>, SinkDeliveryStatus>)
        ensures
            r is Err <==> !has_channel_named(self.runtime().channel_configs(), event.channel@),
            r matches Err(s) ==> is_failure(s, event.channel@, unknown_channel_text(event.channel@)),
            r matches Ok(v) ==> is_route(
                self.runtime(),
                event.channel@,
                Seq::new(v@.len(), |j: int| *v@[j]),
            ),
    {
        match self.config.sinks_for_channel(event.channel.as_str()) {
            Some(v) => {
                let ghost s = Seq::new(v@.len(), |j: int| *v@[j]);
                proof {
                    let rc = self.runtime();
                    let i = choose|i: int|
                        0 <= i < rc.channel_configs().len() && #[trigger] rc.channel_configs()[i].name@
                            == event.channel@ && v@.len() == rc.channel_configs()[i].sinks@.len()
                            && forall|j: int|
                            0 <= j < v@.len() ==> sink_name(*#[trigger] v@[j])
                                == rc.channel_configs()[i].sinks@[j]@ && exists|k: int|
                                0 <= k < rc.sink_configs().len() && *v@[j] == rc.sink_configs()[k];
                    assert forall|j: int| 0 <= j < s.len() implies sink_name(#[trigger] s[j])
                        == rc.channel_configs()[i].sinks@[j]@ && exists|k: int|
                        0 <= k < rc.sink_configs().len() && s[j] == rc.sink_configs()[k] by {
                        assert(s[j] == *v@[j]);
                    }
                }
                Ok(v)
            },
            None => Err(
                failed_status(event.channel.clone(), unknown_channel_message(event.channel.as_str())),
            ),
        }
    }

    /// The JSONL file events are appended to: `vents.jsonl` in the JSONL directory.
    pub fn jsonl_path(&self) -> (r: String)
        ensures
            r@ == joined_path(self.runtime().jsonl_dir_text(), JSONL_FILE_NAME@),
    {
        path_join(self.config.jsonl_dir(), JSONL_FILE_NAME)
    }
}

/// The request a webhook sink sends: a JSON body posted to the trimmed URL
/// with the resolved headers and the sink's timeout.
#[derive(Debug, PartialEq, Eq)]
pub struct WebhookRequest {
    pub url: String,
    pub timeout_ms: u64,
    pub headers: Vec<(String, String)>,
    pub payload: JsonValue,
}

/// The value of the first variable named `key` in an environment snapshot.
pub open spec fn env_value(env: Seq<(String, String)>, key: Seq<char>) -> Option<Seq<char>>
    decreases env.len(),
{
    if env.len() == 0 {
        None
    } else if env[0].0@ == key {
        Some(env[0].1@)
    } else {
        env_value(env.drop_first(), key)
    }
}

/// Looks a variable up in an environment snapshot.
pub fn lookup_env(env: &[(String, String)], key: &str) -> (r: Option<String>)
    ensures
        opt_text(r) == env_value(env@, key@),
{
    let mut i: usize = 0;
    assert(env@.skip(0) =~= env@);
    while i < env.len()
        invariant
            i <= env@.len(),
            env_value(env@, key@) == env_value(env@.skip(i as int), key@),
        decreases env@.len() - i,
    {
        assert(env@.skip(i as int).drop_first() =~= env@.skip(i + 1));
        if same_text(env[i].0.as_str(), key) {
            return Some(env[i].1.clone());
        }
        i = i + 1;
    }
    None
}

/// Why `HeaderName::from_bytes` refuses a name, if it does: its error's text.
pub uninterp spec fn header_name_error(name: Seq<char>) -> Option<Seq<char>>;

/// Why `HeaderValue::from_str` refuses a value, if it does: its error's text.
pub uninterp spec fn header_value_error(value: Seq<char>) -> Option<Seq<char>>;

/// `reqwest::header::HeaderName::from_bytes` on the name's UTF-8 bytes, reduced
/// to the text of its error. That error always reads `invalid HTTP header name`.
#[verifier::external_body]
fn check_header_name(name: &str) -> (r: Option<String>)
    ensures
        opt_text(r) == header_name_error(name@),
        r matches Some(e) ==> e@ == "invalid HTTP header name"@,
{
    match reqwest::header::HeaderName::from_bytes(name.as_bytes()) {
        Ok(_) => None,
        Err(error) => Some(error.to_string()),
    }
}

/// `reqwest::header::HeaderValue::from_str`, reduced to the text of its error.
/// That error always reads `failed to parse header value`.
#[verifier::external_body]
fn check_header_value(value: &str) -> (r: Option<String>)
    ensures
        opt_text(r) == header_value_error(value@),
        r matches Some(e) ==> e@ == "failed to parse header value"@,
{
    match reqwest::header::HeaderValue::from_str(value) {
        Ok(_) => None,
        Err(error) => Some(error.to_string()),
    }
}

/// The headers a webhook sink sends, from header `i` on: each name trimmed and
/// paired with the value of its trimmed environment variable; the first
/// invalid name, missing variable or invalid value is the error.
pub open spec fn resolved_headers(
    hs: Seq<WebhookHeaderConfig>,
    env: Seq<(String, String)>,
    i: int,
) -> Result<Seq<(Seq<char>, Seq<char>)>, Seq<char>>
    decreases hs.len() - i,
{
    if i < 0 || i >= hs.len() {
        Ok(Seq::empty())
    } else {
        let h = hs[i];
        match header_name_error(trimmed(h.name@)) {
            Some(e) => Err("invalid webhook header name "@ + h.name@ + ": "@ + e),
            None => match env_value(env, trimmed(h.env@)) {
                None => Err("missing environment variable "@ + trimmed(h.env@)),
                Some(v) => match header_value_error(v) {
                    Some(e) => Err("invalid value for header "@ + h.name@ + ": "@ + e),
                    None => match resolved_headers(hs, env, i + 1) {
                        Err(e) => Err(e),
                        Ok(rest) => Ok(seq![(trimmed(h.name@), v)] + rest),
                    },
                },
            },
        }
    }
}

/// The pairs of texts in a list of string pairs.
pub open spec fn text_pairs(v: Seq<(String, String)>) -> Seq<(Seq<char>, Seq<char>)> {
    v.map_values(|p: (String, String)| (p.0@, p.1@))
}

/// Resolves a webhook sink's headers against an environment snapshot: names
/// and values are checked as HTTP header parts before any request is made.
pub fn webhook_headers(headers: &[WebhookHeaderConfig], env: &[(String, String)]) -> (r: Result<
    Vec<(String, String)>,
    String,
>)
    ensures
        match r {
            Ok(v) => resolved_headers(headers@, env@, 0) == Ok::<
                Seq<(Seq<char>, Seq<char>)>,
                Seq<char>,
            >(text_pairs(v@)),
            Err(e) => resolved_headers(headers@, env@, 0) == Err::<
                Seq<(Seq<char>, Seq<char>)>,
                Seq<char>,
            >(e@),
        },
{
    let mut out: Vec<(String, String)> = Vec::new();
    let mut i: usize = 0;
    while i < headers.len()
        invariant
            i <= headers@.len(),
            resolved_headers(headers@, env@, 0) == match resolved_headers(headers@, env@, i as int) {
                Ok(rest) => Ok(text_pairs(out@) + rest),
                Err(e) => Err::<Seq<(Seq<char>, Seq<char>)>, Seq<char>>(e),
            },
        decreases headers@.len() - i,
    {
        let h = &headers[i];
        let name = trim_text(h.name.as_str());
        if let Some(e) = check_header_name(name.as_str()) {
            let mut m = "invalid webhook header name ".to_owned();
            m.append(h.name.as_str());
            m.append(": ");
            m.append(e.as_str());
            return Err(m);
        }
        let key = trim_text(h.env.as_str());
        let value = match lookup_env(env, key.as_str()) {
            Some(v) => v,
            None => {
                let mut m = "missing environment variable ".to_owned();
                m.append(key.as_str());
                return Err(m);
            },
        };
        if let Some(e) = check_header_value(value.as_str()) {
            let mut m = "invalid value for header ".to_owned();
            m.append(h.name.as_str());
            m.append(": ");
            m.append(e.as_str());
            return Err(m);
        }
        let ghost before = out@;
        out.push((name, value));
        proof {
            assert(text_pairs(out@) =~= text_pairs(before).push((trimmed(h.name@), env_value(env@, trimmed(h.env@))->0)));
            match resolved_headers(headers@, env@, i + 1) {
                Ok(rest) => {
                    assert(text_pairs(before) + (seq![(trimmed(h.name@), env_value(env@, trimmed(h.env@))->0)] + rest)
                        =~= text_pairs(out@) + rest);
                },
                Err(_) => {},
            }
        }
        i = i + 1;
    }
    assert(text_pairs(out@) + Seq::<(Seq<char>, Seq<char>)>::empty() =~= text_pairs(out@));
    Ok(out)
}

/// What a webhook sink sends for an event, or the failure it reports without
/// sending: its headers, then its body.
pub open spec fn webhook_request_model(
    rc: RuntimeConfig,
    sink: WebhookSinkConfig,
    e: VentEvent,
    env: Seq<(String, String)>,
) -> Result<(Seq<(Seq<char>, Seq<char>)>, Json), Seq<char>> {
    match resolved_headers(sink.headers@, env, 0) {
        Err(m) => Err(m),
        Ok(hs) => match webhook_body(rc, sink, e) {
            Err(m) => Err(m),
            Ok(body) => Ok((hs, body)),
        },
    }
}

impl SinkDispatcher {
    /// Prepares the request a webhook sink sends for an event. Header and body
    /// problems are reported as the sink's failed status before any network use.
    pub fn webhook_request(&self, sink: &WebhookSinkConfig, event: &VentEvent, env: &[(String, String)]) -> (r: Result<
        WebhookRequest,
        SinkDeliveryStatus,
    >)
        ensures
            match webhook_request_model(self.runtime(), *sink, *event, env@) {
                Err(m) => r matches Err(s) && is_failure(s, sink.name@, m),
                Ok((hs, body)) => r matches Ok(q) && q.url@ == trimmed(sink.url@) && q.timeout_ms
                    == sink.timeout_ms && text_pairs(q.headers@) == hs && json_of(q.payload) == body,
            },
    {
        let headers = match webhook_headers(sink.headers.as_slice(), env) {
            Ok(h) => h,
            Err(m) => {
                return Err(failed_status(sink.name.clone(), m));
            },
        };
        let payload = match webhook_payload(&self.config, sink, event) {
            Ok(p) => p,
            Err(m) => {
                return Err(failed_status(sink.name.clone(), m));
            },
        };
        Ok(WebhookRequest { url: trim_text(sink.url.as_str()), timeout_ms: sink.timeout_ms, headers, payload })
    }
}

/// `reqwest::Error`, carried through unopened.
#[verifier::external_type_specification]
#[verifier::external_body]
pub struct ExRequestError(reqwest::Error);

/// `reqwest::Error::is_timeout`. Nothing is stated of which errors it holds for.
#[verifier::external_body]
fn error_is_timeout(error: &reqwest::Error) -> bool {
    error.is_timeout()
}

/// `reqwest::Error::is_connect`. Nothing is stated of which errors it holds for.
#[verifier::external_body]
fn error_is_connect(error: &reqwest::Error) -> bool {
    error.is_connect()
}

/// The message of a webhook request that failed before a response came.
pub open spec fn request_error_text(timed_out: bool, connect_failed: bool, timeout_ms: u64) -> Seq<char> {
    if timed_out {
        "webhook timed out after "@ + decimal(timeout_ms as nat) + "ms"@
    } else if connect_failed {
        "webhook connection failed"@
    } else {
        "webhook request failed"@
    }
}

/// Builds `request_error_text`.
pub fn request_error_message(timed_out: bool, connect_failed: bool, timeout_ms: u64) -> (r: String)
    ensures
        r@ == request_error_text(timed_out, connect_failed, timeout_ms),
{
    if timed_out {
        let mut m = "webhook timed out after ".to_owned();
        push_decimal(&mut m, timeout_ms);
        m.append("ms");
        m
    } else if connect_failed {
        "webhook connection failed".to_owned()
    } else {
        "webhook request failed".to_owned()
    }
}

/// The message for a request error: a timeout names the sink's timeout, a
/// connection failure says so, anything else is a plain request failure.
pub fn webhook_request_error(error: &reqwest::Error, timeout_ms: u64) -> (r: String)
    ensures
        exists|timed_out: bool, connect_failed: bool|
            r@ == request_error_text(timed_out, connect_failed, timeout_ms),
{
    let timed_out = error_is_timeout(error);
    let connect_failed = error_is_connect(error);
    request_error_message(timed_out, connect_failed, timeout_ms)
}

/// How `reqwest::StatusCode` displays the status with this code.
pub uninterp spec fn status_display(code: u16) -> Seq<char>;

/// `reqwest::StatusCode::from_u16(code)` displayed: the code, a space and its
/// canonical reason (`<unknown status code>` where it has none).
#[verifier::external_body]
fn status_line(code: u16) -> (r: String)
    requires
        100 <= code <= 999,
    ensures
        r@ == status_display(code),
        r@.take(4) == decimal(code as nat).push(' '),
{
    match reqwest::StatusCode::from_u16(code) {
        Ok(status) => status.to_string(),
        Err(_) => String::new(),
    }
}

/// The message of a webhook that answered with a failure status.
pub open spec fn status_error_text(status: Seq<char>, body: Option<Seq<char>>, secrets: Seq<Seq<char>>) -> Seq<
    char,
> {
    let head = "webhook HTTP "@ + status;
    match body {
        Some(b) => if sanitized(b, secrets).len() > 0 {
            head + ": "@ + sanitized(b, secrets)
        } else {
            head
        },
        None => head,
    }
}

/// The message for a webhook that answered with a non-success status: the
/// status, then the sanitized body preview when there is a non-empty one.
pub fn webhook_status_error(status: u16, body: Option<&str>, secret_values: &[String]) -> (r: String)
    requires
        100 <= status <= 999,
    ensures
        r@ == status_error_text(
            status_display(status),
            match body {
                Some(b) => Some(b@),
                None => None::<Seq<char>>,
            },
            texts(secret_values@),
        ),
{
    let mut message = "webhook HTTP ".to_owned();
    let line = status_line(status);
    message.append(line.as_str());
    if let Some(b) = body {
        let preview = sanitize_webhook_error_body(b, secret_values);
        if preview.as_str().unicode_len() > 0 {
            message.append(": ");
            message.append(preview.as_str());
        }
    }
    message
}


/// Resolving a webhook's headers, when it succeeds, gives one pair per
/// configured header from index `i` on, in order: the header's trimmed name and
/// the value of its trimmed environment variable, which is set.
pub proof fn lemma_resolved_headers_one_per_header(
    hs: Seq<WebhookHeaderConfig>,
    env: Seq<(String, String)>,
    i: int,
)
    requires
        0 <= i <= hs.len(),
        resolved_headers(hs, env, i) is Ok,
    ensures
        resolved_headers(hs, env, i)->Ok_0.len() == hs.len() - i,
        forall|k: int|
            0 <= k < hs.len() - i ==> (#[trigger] resolved_headers(hs, env, i)->Ok_0[k]).0 == trimmed(
                hs[i + k].name@,
            ) && env_value(env, trimmed(hs[i + k].env@)) == Some(resolved_headers(hs, env, i)->Ok_0[k].1),
    decreases hs.len() - i,
{
    if i < hs.len() {
        lemma_resolved_headers_one_per_header(hs, env, i + 1);
        let r = resolved_headers(hs, env, i)->Ok_0;
        let rest = resolved_headers(hs, env, i + 1)->Ok_0;
        let h = hs[i];
        let v = env_value(env, trimmed(h.env@))->0;
        assert(r == seq![(trimmed(h.name@), v)] + rest);
        assert forall|k: int|
            0 <= k < hs.len() - i implies (#[trigger] resolved_headers(hs, env, i)->Ok_0[k]).0 == trimmed(
                hs[i + k].name@,
            ) && env_value(env, trimmed(hs[i + k].env@)) == Some(resolved_headers(hs, env, i)->Ok_0[k].1) by {
            if k > 0 {
                assert(r[k] == rest[k - 1]);
                let j = k - 1;
                assert(0 <= j < hs.len() - (i + 1));
                assert(rest[j].0 == trimmed(hs[i + 1 + j].name@));
                assert(env_value(env, trimmed(hs[i + 1 + j].env@)) == Some(rest[j].1));
                assert(i + 1 + j == i + k);
            } else {
                assert(r[0] == (trimmed(h.name@), v));
                assert(hs[i + k] == h);
                assert(env_value(env, trimmed(h.env@)) is Some);
            }
        }
    }
}
} // verus!
