//! The built-in configuration written on first run and its webhook provider maps.

use vstd::prelude::*;

use crate::config::{
    AppConfig, ChannelConfig, JsonlSinkConfig, LoggingConfig, SinkConfig, WebhookProviderConfig,
    WebhookSinkConfig, DEFAULT_LOG_SINK_NAME, DEFAULT_WEBHOOK_TIMEOUT_MS,
};
use crate::provider::{
    compile_outcome, join_dots, lemma_flat_map_compiles, lemma_letter_key_piece,
    lemma_message_project_map_compiles, piece_ok, step_of, step_text,
};
use crate::text::{
    decimal, digits_value, is_valid_key, is_valid_name, is_ws, parsed_usize, trimmed, unsigned_part,
};
use crate::validate::{config_is_valid, config_issue, lemma_validation_conditions};

verus! {

/// A provider entry has the given label key and exactly the given field-to-path pairs, in order.
pub open spec fn provider_is(
    p: WebhookProviderConfig,
    label_key: Option<Seq<char>>,
    fields: Seq<(Seq<char>, Seq<char>)>,
) -> bool {
    &&& crate::text::opt_text(p.field_label_key) == label_key
    &&& p.fields@.len() == fields.len()
    &&& forall|k: int|
        0 <= k < fields.len() ==> (#[trigger] p.fields@[k]).0@ == fields[k].0 && p.fields@[k].1@
            == fields[k].1
}

/// The raw canonical event map: every event field to the path of the same name.
pub open spec fn raw_event_fields() -> Seq<(Seq<char>, Seq<char>)> {
    seq![
        ("channel"@, "channel"@),
        ("id"@, "id"@),
        ("message"@, "message"@),
        ("project"@, "project"@),
        ("timestamp"@, "timestamp"@),
    ]
}

/// IFTTT's three Maker Webhooks values.
pub open spec fn ifttt_fields() -> Seq<(Seq<char>, Seq<char>)> {
    seq![("channel"@, "value2"@), ("message"@, "value1"@), ("project"@, "value3"@)]
}

/// Message and project mapped into rich fields.
pub open spec fn labeled_fields(message_path: Seq<char>, project_path: Seq<char>) -> Seq<
    (Seq<char>, Seq<char>),
> {
    seq![("message"@, message_path), ("project"@, project_path)]
}

/// Only the message, mapped into a text field.
pub open spec fn text_fields(message_path: Seq<char>) -> Seq<(Seq<char>, Seq<char>)> {
    seq![("message"@, message_path)]
}

/// The built-in provider map, in key order: name, label key and field pairs of each entry.
pub open spec fn default_providers() -> Seq<(Seq<char>, Option<Seq<char>>, Seq<(Seq<char>, Seq<char>)>)> {
    seq![
        ("discord"@, Some("name"@), labeled_fields("content"@, "embeds.0.fields.0.value"@)),
        ("google_chat"@, None, text_fields("text"@)),
        ("ifttt"@, None, ifttt_fields()),
        ("make"@, None, raw_event_fields()),
        ("mattermost"@, Some("title"@), labeled_fields("text"@, "attachments.0.fields.0.value"@)),
        ("microsoft_teams"@, None, text_fields("text"@)),
        ("n8n"@, None, raw_event_fields()),
        ("pipedream"@, None, raw_event_fields()),
        ("slack"@, Some("title"@), labeled_fields("text"@, "attachments.0.fields.0.value"@)),
        ("webex"@, None, text_fields("markdown"@)),
        ("workato"@, None, raw_event_fields()),
        ("zapier"@, None, raw_event_fields()),
    ]
}

/// The provider entries are exactly the built-in ones.
pub open spec fn has_default_providers(ps: Seq<(String, WebhookProviderConfig)>) -> bool {
    &&& ps.len() == default_providers().len()
    &&& forall|k: int|
        0 <= k < ps.len() ==> (#[trigger] ps[k]).0@ == default_providers()[k].0 && provider_is(
            ps[k].1,
            default_providers()[k].1,
            default_providers()[k].2,
        )
}

/// The description of the default channel.
pub open spec fn default_channel_description() -> Seq<char> {
    "Blocked work, repeated failures, or confusing workflows. Avoid routine progress updates."@
}

/// The conservative default: one `feedback` channel routed to one JSONL sink named `log`,
/// no logging directory, and the built-in provider maps.
pub open spec fn is_default_config(c: AppConfig) -> bool {
    &&& c.default_channel@ == "feedback"@
    &&& c.logging.jsonl_dir is None
    &&& c.channels@.len() == 1
    &&& c.channels@[0].name@ == "feedback"@
    &&& c.channels@[0].description@ == default_channel_description()
    &&& c.channels@[0].sinks@.len() == 1
    &&& c.channels@[0].sinks@[0]@ == DEFAULT_LOG_SINK_NAME@
    &&& c.sinks@.len() == 1
    &&& c.sinks@[0] matches SinkConfig::Jsonl(j) && j.name@ == DEFAULT_LOG_SINK_NAME@
    &&& has_default_providers(c.providers@)
}

fn provider(label_key: Option<&str>, fields: &[(&str, &str)]) -> (r: WebhookProviderConfig)
    ensures
        crate::text::opt_text(r.field_label_key) == match label_key {
            Some(k) => Some(k@),
            None => None::<Seq<char>>,
        },
        r.fields@.len() == fields@.len(),
        forall|k: int|
            0 <= k < fields@.len() ==> (#[trigger] r.fields@[k]).0@ == fields@[k].0@
                && r.fields@[k].1@ == fields@[k].1@,
{
    let mut out: Vec<(String, String)> = Vec::new();
    let mut i: usize = 0;
    while i < fields.len()
        invariant
            i <= fields@.len(),
            out@.len() == i,
            forall|k: int|
                0 <= k < i ==> (#[trigger] out@[k]).0@ == fields@[k].0@ && out@[k].1@
                    == fields@[k].1@,
        decreases fields@.len() - i,
    {
        let (field, path) = fields[i];
        out.push((field.to_owned(), path.to_owned()));
        i = i + 1;
    }
    let field_label_key = match label_key {
        Some(k) => Some(k.to_owned()),
        None => None,
    };
    WebhookProviderConfig { field_label_key, fields: out }
}

/// Maps the canonical event shape unchanged.
fn raw_event_provider() -> (r: WebhookProviderConfig)
    ensures
        provider_is(r, None, raw_event_fields()),
{
    provider(
        None,
        &[
            ("channel", "channel"),
            ("id", "id"),
            ("message", "message"),
            ("project", "project"),
            ("timestamp", "timestamp"),
        ],
    )
}

/// Maps only the message into a provider's text field.
fn text_provider(message_path: &str) -> (r: WebhookProviderConfig)
    ensures
        provider_is(r, None, text_fields(message_path@)),
{
    provider(None, &[("message", message_path)])
}

/// Maps message and project into rich fields with generated labels.
fn labeled_context_provider(label_key: &str, message_path: &str, project_path: &str) -> (r:
    WebhookProviderConfig)
    ensures
        provider_is(r, Some(label_key@), labeled_fields(message_path@, project_path@)),
{
    provider(Some(label_key), &[("message", message_path), ("project", project_path)])
}

/// Maps into Slack-compatible attachment fields.
fn slack_like_provider() -> (r: WebhookProviderConfig)
    ensures
        provider_is(r, Some("title"@), labeled_fields("text"@, "attachments.0.fields.0.value"@)),
{
    labeled_context_provider("title", "text", "attachments.0.fields.0.value")
}

/// Maps the three Maker Webhooks values IFTTT exposes to applets.
fn ifttt_provider() -> (r: WebhookProviderConfig)
    ensures
        provider_is(r, None, ifttt_fields()),
{
    provider(None, &[("channel", "value2"), ("message", "value1"), ("project", "value3")])
}

/// The built-in webhook provider maps, in key order.
pub fn default_webhook_providers() -> (r: Vec<(String, WebhookProviderConfig)>)
    ensures
        has_default_providers(r@),
{
    let mut out: Vec<(String, WebhookProviderConfig)> = Vec::new();
    out.push(
        ("discord".to_owned(), labeled_context_provider("name", "content", "embeds.0.fields.0.value")),
    );
    out.push(("google_chat".to_owned(), text_provider("text")));
    out.push(("ifttt".to_owned(), ifttt_provider()));
    out.push(("make".to_owned(), raw_event_provider()));
    out.push(("mattermost".to_owned(), slack_like_provider()));
    out.push(("microsoft_teams".to_owned(), text_provider("text")));
    out.push(("n8n".to_owned(), raw_event_provider()));
    out.push(("pipedream".to_owned(), raw_event_provider()));
    out.push(("slack".to_owned(), slack_like_provider()));
    out.push(("webex".to_owned(), text_provider("markdown")));
    out.push(("workato".to_owned(), raw_event_provider()));
    out.push(("zapier".to_owned(), raw_event_provider()));
    assert forall|k: int| 0 <= k < out@.len() implies (#[trigger] out@[k]).0@ == default_providers()[k].0
        && provider_is(out@[k].1, default_providers()[k].1, default_providers()[k].2) by {}
    out
}

/// The JSONL sink of the default configuration.
pub fn default_log_sink() -> (r: SinkConfig)
    ensures
        r matches SinkConfig::Jsonl(j) && j.name@ == DEFAULT_LOG_SINK_NAME@,
{
    SinkConfig::Jsonl(JsonlSinkConfig { name: DEFAULT_LOG_SINK_NAME.to_owned() })
}

impl Default for AppConfig {
    /// Builds the conservative default config with one channel and JSONL logging.
    fn default() -> (r: AppConfig)
        ensures
            is_default_config(r),
    {
        let mut sinks: Vec<String> = Vec::new();
        sinks.push(DEFAULT_LOG_SINK_NAME.to_owned());
        let mut channels: Vec<ChannelConfig> = Vec::new();
        channels.push(
            ChannelConfig {
                name: "feedback".to_owned(),
                description: "Blocked work, repeated failures, or confusing workflows. Avoid routine progress updates.".to_owned(),
                sinks,
            },
        );
        let mut all_sinks: Vec<SinkConfig> = Vec::new();
        all_sinks.push(default_log_sink());
        AppConfig {
            default_channel: "feedback".to_owned(),
            logging: LoggingConfig { jsonl_dir: None },
            channels,
            providers: default_webhook_providers(),
            sinks: all_sinks,
        }
    }
}

impl Default for WebhookSinkConfig {
    /// A webhook sink with empty name and destination and the default timeout;
    /// validation rejects it until a real endpoint is filled in.
    fn default() -> (r: WebhookSinkConfig)
        ensures
            r.name@.len() == 0,
            r.url@.len() == 0,
            r.provider is None,
            r.headers@.len() == 0,
            r.timeout_ms == DEFAULT_WEBHOOK_TIMEOUT_MS,
    {
        WebhookSinkConfig {
            name: String::new(),
            url: String::new(),
            provider: None,
            headers: Vec::new(),
            timeout_ms: DEFAULT_WEBHOOK_TIMEOUT_MS,
        }
    }
}


proof fn lemma_zero_piece(j: int)
    requires
        j != 0,
    ensures
        piece_ok("0"@, j),
        is_valid_key("0"@),
        step_text(step_of("0"@)) == "0"@,
{
    reveal_strlit("0");
    let z = "0"@;
    assert(unsigned_part(z) == z);
    assert(z.drop_last() =~= Seq::<char>::empty());
    assert(digits_value(z.drop_last()) == 0);
    assert(z.last() == '0');
    assert(digits_value(z) == 0);
    assert(parsed_usize(z) == Some(0nat));
    assert(decimal(0) =~= z);
}

/// `first.0.fields.0.value`, piece by piece.
pub open spec fn rich_field_parts(first: Seq<char>) -> Seq<Seq<char>> {
    seq![first, "0"@, "fields"@, "0"@, "value"@]
}

proof fn lemma_rich_field_parts(first: Seq<char>)
    requires
        is_valid_key(first),
        'a' <= first[0] <= 'z',
    ensures
        forall|k: int|
            0 <= k < rich_field_parts(first).len() ==> piece_ok(#[trigger] rich_field_parts(first)[k], k)
                && is_valid_key(rich_field_parts(first)[k]) && step_text(step_of(rich_field_parts(first)[k]))
                == rich_field_parts(first)[k],
        join_dots(rich_field_parts(first)) == first + ".0.fields.0.value"@,
{
    reveal_strlit("fields");
    reveal_strlit("value");
    reveal_strlit("0");
    reveal_strlit(".0.fields.0.value");
    let parts = rich_field_parts(first);
    lemma_letter_key_piece(first, 0);
    lemma_zero_piece(1);
    lemma_zero_piece(3);
    lemma_letter_key_piece("fields"@, 2);
    lemma_letter_key_piece("value"@, 4);
    assert forall|k: int| 0 <= k < parts.len() implies piece_ok(#[trigger] parts[k], k) && is_valid_key(parts[k])
        && step_text(step_of(parts[k])) == parts[k] by {
        assert(k == 0 || k == 1 || k == 2 || k == 3 || k == 4);
    }
    let p1 = seq![first];
    let p2 = seq![first, "0"@];
    let p3 = seq![first, "0"@, "fields"@];
    let p4 = seq![first, "0"@, "fields"@, "0"@];
    assert(p2.drop_last() =~= p1);
    assert(p3.drop_last() =~= p2);
    assert(p4.drop_last() =~= p3);
    assert(parts.drop_last() =~= p4);
    assert(join_dots(p1) == first);
    assert(join_dots(p2) == join_dots(p1) + seq!['.'] + "0"@);
    assert(join_dots(p3) == join_dots(p2) + seq!['.'] + "fields"@);
    assert(join_dots(p4) == join_dots(p3) + seq!['.'] + "0"@);
    assert(join_dots(parts) == join_dots(p4) + seq!['.'] + "value"@);
    assert(join_dots(parts) =~= first + ".0.fields.0.value"@);
}

proof fn lemma_rich_map_compiles(
    name: Seq<char>,
    p: WebhookProviderConfig,
    label_key: Seq<char>,
    message_path: Seq<char>,
    first: Seq<char>,
)
    requires
        provider_is(p, Some(label_key), labeled_fields(message_path, first + ".0.fields.0.value"@)),
        is_valid_key(label_key),
        is_valid_key(message_path),
        'a' <= message_path[0] <= 'z',
        message_path != "value"@,
        is_valid_key(first),
        'a' <= first[0] <= 'z',
        first[0] != message_path[0],
    ensures
        compile_outcome(name, p) is Ok,
{
    lemma_rich_field_parts(first);
    let fields = labeled_fields(message_path, first + ".0.fields.0.value"@);
    assert(p.fields@[0].0@ == fields[0].0);
    assert(p.fields@[1].0@ == fields[1].0);
    lemma_message_project_map_compiles(name, p, rich_field_parts(first));
}

proof fn lemma_raw_map_compiles(name: Seq<char>, p: WebhookProviderConfig)
    requires
        provider_is(p, None, raw_event_fields()),
    ensures
        compile_outcome(name, p) is Ok,
{
    reveal_strlit("channel");
    reveal_strlit("id");
    reveal_strlit("message");
    reveal_strlit("project");
    reveal_strlit("timestamp");
    let fs = p.fields@;
    let want = raw_event_fields();
    assert(fs[0].0@ == want[0].0 && fs[0].1@ == want[0].1);
    assert(fs[1].0@ == want[1].0 && fs[1].1@ == want[1].1);
    assert(fs[2].0@ == want[2].0 && fs[2].1@ == want[2].1);
    assert(fs[3].0@ == want[3].0 && fs[3].1@ == want[3].1);
    assert(fs[4].0@ == want[4].0 && fs[4].1@ == want[4].1);
    assert forall|k: int| 0 <= k < fs.len() implies crate::provider::is_event_field(#[trigger] fs[k].0@)
        && is_valid_key(fs[k].1@) && 'a' <= fs[k].1@[0] <= 'z' by {
        assert(k == 0 || k == 1 || k == 2 || k == 3 || k == 4);
    }
    assert forall|a: int, b: int|
        #![trigger fs[a], fs[b]]
        0 <= a < b < fs.len() implies fs[a].0@ != fs[b].0@ && fs[a].1@ != fs[b].1@ by {
        assert(a == 0 || a == 1 || a == 2 || a == 3);
        assert(b == 1 || b == 2 || b == 3 || b == 4);
        assert(fs[a].0@[0] != fs[b].0@[0]);
    }
    lemma_flat_map_compiles(name, p);
}

proof fn lemma_ifttt_map_compiles(name: Seq<char>, p: WebhookProviderConfig)
    requires
        provider_is(p, None, ifttt_fields()),
    ensures
        compile_outcome(name, p) is Ok,
{
    reveal_strlit("channel");
    reveal_strlit("message");
    reveal_strlit("project");
    reveal_strlit("value1");
    reveal_strlit("value2");
    reveal_strlit("value3");
    let fs = p.fields@;
    let want = ifttt_fields();
    assert(fs[0].0@ == want[0].0 && fs[0].1@ == want[0].1);
    assert(fs[1].0@ == want[1].0 && fs[1].1@ == want[1].1);
    assert(fs[2].0@ == want[2].0 && fs[2].1@ == want[2].1);
    assert forall|k: int| 0 <= k < fs.len() implies crate::provider::is_event_field(#[trigger] fs[k].0@)
        && is_valid_key(fs[k].1@) && 'a' <= fs[k].1@[0] <= 'z' by {
        assert(k == 0 || k == 1 || k == 2);
    }
    assert forall|a: int, b: int|
        #![trigger fs[a], fs[b]]
        0 <= a < b < fs.len() implies fs[a].0@ != fs[b].0@ && fs[a].1@ != fs[b].1@ by {
        assert(a == 0 || a == 1);
        assert(b == 1 || b == 2);
        assert(fs[a].0@[0] != fs[b].0@[0]);
        assert(fs[a].1@[5] != fs[b].1@[5]);
    }
    lemma_flat_map_compiles(name, p);
}

proof fn lemma_text_map_compiles(name: Seq<char>, p: WebhookProviderConfig, path: Seq<char>)
    requires
        provider_is(p, None, text_fields(path)),
        is_valid_key(path),
        'a' <= path[0] <= 'z',
    ensures
        compile_outcome(name, p) is Ok,
{
    reveal_strlit("message");
    assert(p.fields@[0].0@ == text_fields(path)[0].0);
    lemma_flat_map_compiles(name, p);
}

/// A number that orders the built-in provider names: first letter, then length.
pub open spec fn name_code(s: Seq<char>) -> int {
    (s[0] as int) * 100 + s.len()
}

/// The codes of the built-in provider names, in order; they increase.
pub open spec fn default_name_codes() -> Seq<int> {
    seq![10007, 10311, 10505, 10904, 10910, 10915, 11003, 11209, 11505, 11905, 11907, 12206]
}

proof fn lemma_default_provider_ok(ps: Seq<(String, WebhookProviderConfig)>, i: int)
    requires
        has_default_providers(ps),
        0 <= i < 12,
    ensures
        is_valid_name(ps[i].0@),
        compile_outcome(ps[i].0@, ps[i].1) is Ok,
        name_code(ps[i].0@) == default_name_codes()[i],
{
    reveal_strlit("name");
    reveal_strlit("title");
    reveal_strlit("content");
    reveal_strlit("text");
    reveal_strlit("markdown");
    reveal_strlit("value");
    reveal_strlit("embeds");
    reveal_strlit("attachments");
    let entry = default_providers()[i];
    assert(ps[i].0@ == entry.0);
    assert(provider_is(ps[i].1, entry.1, entry.2));
    if i == 0 {
        reveal_strlit("discord");
        reveal_strlit("embeds.0.fields.0.value");
        reveal_strlit(".0.fields.0.value");
        assert("embeds.0.fields.0.value"@ =~= "embeds"@ + ".0.fields.0.value"@);
        lemma_rich_map_compiles(ps[i].0@, ps[i].1, "name"@, "content"@, "embeds"@);
    } else if i == 1 {
        reveal_strlit("google_chat");
        lemma_text_map_compiles(ps[i].0@, ps[i].1, "text"@);
    } else if i == 2 {
        reveal_strlit("ifttt");
        lemma_ifttt_map_compiles(ps[i].0@, ps[i].1);
    } else if i == 3 {
        reveal_strlit("make");
        lemma_raw_map_compiles(ps[i].0@, ps[i].1);
    } else if i == 4 {
        reveal_strlit("mattermost");
        reveal_strlit("attachments.0.fields.0.value");
        reveal_strlit(".0.fields.0.value");
        assert("attachments.0.fields.0.value"@ =~= "attachments"@ + ".0.fields.0.value"@);
        lemma_rich_map_compiles(ps[i].0@, ps[i].1, "title"@, "text"@, "attachments"@);
    } else if i == 5 {
        reveal_strlit("microsoft_teams");
        lemma_text_map_compiles(ps[i].0@, ps[i].1, "text"@);
    } else if i == 6 {
        reveal_strlit("n8n");
        lemma_raw_map_compiles(ps[i].0@, ps[i].1);
    } else if i == 7 {
        reveal_strlit("pipedream");
        lemma_raw_map_compiles(ps[i].0@, ps[i].1);
    } else if i == 8 {
        reveal_strlit("slack");
        reveal_strlit("attachments.0.fields.0.value");
        reveal_strlit(".0.fields.0.value");
        assert("attachments.0.fields.0.value"@ =~= "attachments"@ + ".0.fields.0.value"@);
        lemma_rich_map_compiles(ps[i].0@, ps[i].1, "title"@, "text"@, "attachments"@);
    } else if i == 9 {
        reveal_strlit("webex");
        lemma_text_map_compiles(ps[i].0@, ps[i].1, "markdown"@);
    } else if i == 10 {
        reveal_strlit("workato");
        lemma_raw_map_compiles(ps[i].0@, ps[i].1);
    } else {
        reveal_strlit("zapier");
        lemma_raw_map_compiles(ps[i].0@, ps[i].1);
    }
}

/// The built-in configuration validates: the configuration written on first
/// run is accepted as it is.
pub proof fn lemma_default_config_is_valid(c: AppConfig)
    requires
        is_default_config(c),
    ensures
        config_issue(c) is None,
{
    reveal_strlit("feedback");
    reveal_strlit("log");
    reveal_strlit("Blocked work, repeated failures, or confusing workflows. Avoid routine progress updates.");
    let cs = c.channels@;
    let ss = c.sinks@;
    let ps = c.providers@;
    lemma_validation_conditions(c);
    let d = cs[0].description@;
    assert(!is_ws(d[0]));
    assert(!is_ws(d[d.len() - 1]));
    assert(crate::text::first_non_ws_from(d, 0) == 0);
    assert(trimmed(d).len() > 0);
    assert(crate::validate::channel_settings_ok(cs[0]));
    assert forall|k: int| 0 <= k < ps.len() implies is_valid_name(#[trigger] ps[k].0@) && compile_outcome(
        ps[k].0@,
        ps[k].1,
    ) is Ok && name_code(ps[k].0@) == default_name_codes()[k] by {
        lemma_default_provider_ok(ps, k);
    }
    assert forall|a: int, b: int| 0 <= a < b < ps.len() implies #[trigger] ps[a].0@ != #[trigger] ps[b].0@ by {
        assert(name_code(ps[a].0@) == default_name_codes()[a]);
        assert(name_code(ps[b].0@) == default_name_codes()[b]);
        assert(a == 0 || a == 1 || a == 2 || a == 3 || a == 4 || a == 5 || a == 6 || a == 7 || a == 8
            || a == 9 || a == 10);
        assert(b == 1 || b == 2 || b == 3 || b == 4 || b == 5 || b == 6 || b == 7 || b == 8 || b == 9
            || b == 10 || b == 11);
        assert(default_name_codes()[a] < default_name_codes()[b]);
    }
    assert(crate::validate::providers_ok(ps));
    assert(crate::validate::has_channel_named(cs, c.default_channel@));
    assert(crate::validate::has_sink_named(ss, cs[0].sinks@[0]@));
    assert(crate::validate::routes_resolve(cs, ss));
    assert(config_is_valid(c));
}
} // verus!
