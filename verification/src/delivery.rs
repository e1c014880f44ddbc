//! The request policy shared by the MCP tool and the CLI: trim the message,
//! choose the channel, reject empty messages and unknown channels, build one
//! event, and reduce sink statuses to the acknowledgement the caller receives.

use vstd::prelude::*;
use vstd::string::StrSliceExecFns;
use vstd::string::StringExecFns;

use crate::runtime::RuntimeConfig;
use crate::sinks::SinkDispatcher;
use crate::text::{opt_text, trim_text, trimmed};
use crate::types::{
    first_delivery_error, first_error, is_event_id, lemma_first_failure_iff_not_all_ok,
    ListChannelsOutput, SinkDeliveryStatus, VentEvent, VentOutput,
};
use crate::validate::has_channel_named;

verus! {

/// A vent message and an optional channel override.
#[derive(Debug, PartialEq, Eq)]
pub struct VentRequest {
    pub message: String,
    pub channel: Option<String>,
}

/// The text of an unknown-channel error.
pub open spec fn unknown_channel_text(channel: Seq<char>) -> Seq<char> {
    "unknown channel: "@ + channel
}

/// `unknown channel: <name>`.
pub fn unknown_channel_message(channel: &str) -> (r: String)
    ensures
        r@ == unknown_channel_text(channel@),
{
    let mut r = "unknown channel: ".to_owned();
    r.append(channel);
    r
}

/// The channel a request goes to: its trimmed channel when that is not blank,
/// else the default channel.
pub open spec fn chosen_channel(requested: Option<Seq<char>>, default_channel: Seq<char>) -> Seq<char> {
    match requested {
        Some(c) => if trimmed(c).len() > 0 {
            trimmed(c)
        } else {
            default_channel
        },
        None => default_channel,
    }
}

/// A rejection: not ok, no event id, the given channel, and the error text.
pub open spec fn is_rejection(o: VentOutput, channel: Seq<char>, error: Seq<char>) -> bool {
    &&& !o.ok
    &&& o.event_id@.len() == 0
    &&& o.channel@ == channel
    &&& opt_text(o.error) == Some(error)
}

/// What to do with a request.
#[derive(Debug, PartialEq, Eq)]
pub enum SendPlan {
    /// Refused before any sink sees it; this is the acknowledgement.
    Rejected(VentOutput),
    /// Deliver this event to the channel's sinks.
    Deliver(VentEvent),
}

/// A failed acknowledgement without an event.
fn failure_output(channel: String, message: String) -> (r: VentOutput)
    ensures
        is_rejection(r, channel@, message@),
{
    VentOutput { ok: false, event_id: String::new(), channel, error: Some(message) }
}

/// Validates vent requests against a runtime configuration and builds events
/// labelled with one project name.
pub struct VentService {
    dispatcher: SinkDispatcher,
    project: String,
}

impl VentService {
    /// The runtime configuration in use.
    pub closed spec fn runtime(self) -> RuntimeConfig {
        self.dispatcher.runtime()
    }

    /// The project label put on every event.
    pub closed spec fn project_text(self) -> Seq<char> {
        self.project@
    }

    /// A service for a validated configuration and a project directory label.
    pub fn new(config: RuntimeConfig, project: String) -> (r: VentService)
        ensures
            r.runtime() == config,
            r.project_text() == project@,
    {
        VentService { dispatcher: SinkDispatcher::new(config), project }
    }

    /// The runtime configuration in use.
    pub fn config(&self) -> (r: &RuntimeConfig)
        ensures
            *r == self.runtime(),
    {
        self.dispatcher.config()
    }

    /// The dispatcher that delivers this service's events.
    pub fn dispatcher(&self) -> (r: &SinkDispatcher)
        ensures
            r.runtime() == self.runtime(),
    {
        &self.dispatcher
    }

    /// The configured channels and the default channel name.
    pub fn list_channels(&self) -> (r: ListChannelsOutput)
        ensures
            r.default_channel@ == self.runtime().default_channel_name(),
            r.channels@.len() == self.runtime().channel_configs().len(),
            forall|k: int|
                0 <= k < r.channels@.len() ==> (#[trigger] r.channels@[k]).name@
                    == self.runtime().channel_configs()[k].name@ && r.channels@[k].description@
                    == self.runtime().channel_configs()[k].description@,
    {
        self.config().channel_list()
    }

    /// Trims the message and enforces channel policy: an empty message or an
    /// unknown channel is rejected before any sink is involved; otherwise one
    /// event with a fresh id carries the trimmed message to the chosen channel.
    pub fn plan_send(&self, request: VentRequest) -> (r: SendPlan)
        ensures
            ({
                let message = trimmed(request.message@);
                let default_channel = self.runtime().default_channel_name();
                let channel = chosen_channel(opt_text(request.channel), default_channel);
                if message.len() == 0 {
                    r matches SendPlan::Rejected(o) && is_rejection(
                        o,
                        default_channel,
                        "message must not be empty"@,
                    )
                } else if !has_channel_named(self.runtime().channel_configs(), channel) {
                    r matches SendPlan::Rejected(o) && is_rejection(
                        o,
                        channel,
                        unknown_channel_text(channel),
                    )
                } else {
                    r matches SendPlan::Deliver(event) && is_event_id(event.id@)
                        && event.timestamp@.len() > 0 && event.timestamp@.last() == 'Z'
                        && event.channel@ == channel && event.message@ == message
                        && event.project@ == self.project_text()
                }
            }),
    {
        let message = trim_text(request.message.as_str());
        if message.as_str().unicode_len() == 0 {
            return SendPlan::Rejected(
                failure_output(
                    self.config().default_channel().to_owned(),
                    "message must not be empty".to_owned(),
                ),
            );
        }
        let channel = match &request.channel {
            Some(requested) => {
                let t = trim_text(requested.as_str());
                if t.as_str().unicode_len() > 0 {
                    t
                } else {
                    self.config().default_channel().to_owned()
                }
            },
            None => self.config().default_channel().to_owned(),
        };
        if !self.config().has_channel(channel.as_str()) {
            let error = unknown_channel_message(channel.as_str());
            return SendPlan::Rejected(failure_output(channel, error));
        }
        SendPlan::Deliver(VentEvent::new(channel, message, self.project.clone()))
    }

    /// The acknowledgement for a delivered event: ok exactly when every sink
    /// succeeded, the event's id and channel, and the first sink failure.
    pub fn complete_send(event: VentEvent, statuses: &[SinkDeliveryStatus]) -> (r: VentOutput)
        ensures
            r.ok == (forall|i: int| 0 <= i < statuses@.len() ==> #[trigger] statuses@[i].ok),
            r.event_id@ == event.id@,
            r.channel@ == event.channel@,
            opt_text(r.error) == first_error(statuses@),
            r.ok <==> r.error is None,
    {
        let mut ok = true;
        let mut i: usize = 0;
        while i < statuses.len()
            invariant
                i <= statuses@.len(),
                ok == (forall|k: int| 0 <= k < i ==> #[trigger] statuses@[k].ok),
            decreases statuses@.len() - i,
        {
            if !statuses[i].ok {
                ok = false;
            }
            i = i + 1;
        }
        proof {
            lemma_first_failure_iff_not_all_ok(statuses@, 0);
        }
        let error = first_delivery_error(statuses);
        VentOutput { ok, event_id: event.id.as_str().to_owned(), channel: event.channel, error }
    }
}

} // verus!
