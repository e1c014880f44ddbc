use vent_mcp::config::{
    AppConfig, ChannelConfig, SinkConfig, WebhookProviderConfig, WebhookSinkConfig,
};
use vent_mcp::json::JsonValue;
use vent_mcp::provider::{
    event_field, event_value, human_field_label, path_is_ancestor, webhook_payload, OutputPath,
    ProviderTemplate,
};
use vent_mcp::runtime::RuntimeConfig;
use vent_mcp::types::VentEvent;

fn event(channel: &str, message: &str) -> VentEvent {
    VentEvent::from_parts(
        12345,
        "2024-01-02T03:04:05Z".to_string(),
        channel.to_string(),
        message.to_string(),
        "vent-mcp".to_string(),
    )
}

fn get<'a>(value: &'a JsonValue, key: &str) -> &'a JsonValue {
    match value {
        JsonValue::Object(entries) => &entries.iter().find(|(k, _)| k == key).expect("key").1,
        _ => panic!("not an object"),
    }
}

fn at(value: &JsonValue, index: usize) -> &JsonValue {
    match value {
        JsonValue::Array(items) => &items[index],
        _ => panic!("not an array"),
    }
}

fn text(value: &JsonValue) -> &str {
    match value {
        JsonValue::String(s) => s.as_str(),
        _ => panic!("not a string"),
    }
}

fn all_text(value: &JsonValue, out: &mut Vec<String>) {
    match value {
        JsonValue::Null => {}
        JsonValue::String(s) => out.push(s.clone()),
        JsonValue::Array(items) => items.iter().for_each(|i| all_text(i, out)),
        JsonValue::Object(entries) => {
            for (k, v) in entries {
                out.push(k.clone());
                all_text(v, out);
            }
        }
    }
}

fn provider(label: Option<&str>, fields: &[(&str, &str)]) -> WebhookProviderConfig {
    WebhookProviderConfig {
        field_label_key: label.map(|l| l.to_string()),
        fields: fields
            .iter()
            .map(|(f, p)| (f.to_string(), p.to_string()))
            .collect(),
    }
}

#[test]
fn output_paths_parse_and_print_canonically() {
    let path = OutputPath::parse("  embeds.0.fields.+01.value ").expect("valid path");
    assert_eq!(path.canonical(), "embeds.0.fields.1.value");
    let again = OutputPath::parse(&path.canonical()).expect("canonical parses");
    assert_eq!(again, path);

    assert!(OutputPath::parse("").is_err());
    assert!(OutputPath::parse("   ").is_err());
    assert!(OutputPath::parse("0.a").is_err());
    assert!(OutputPath::parse("a..b").is_err());
    assert!(OutputPath::parse("a.65").is_err());
    assert!(OutputPath::parse("a.64").is_ok());
    assert!(OutputPath::parse("a b").is_err());
}

#[test]
fn ancestors_are_whole_segment_prefixes() {
    assert!(path_is_ancestor("a", "a.b"));
    assert!(path_is_ancestor("a.1", "a.1.c"));
    assert!(!path_is_ancestor("a.1", "a.10"));
    assert!(!path_is_ancestor("a", "a"));
    assert!(!path_is_ancestor("a.b", "a"));
}

#[test]
fn event_fields_and_labels() {
    assert!(event_field("message"));
    assert!(event_field("timestamp"));
    assert!(!event_field("Message"));
    assert_eq!(human_field_label("project"), "Project");
    assert_eq!(human_field_label("event_id"), "Event Id");
    assert_eq!(human_field_label("a--b"), "A B");
    assert_eq!(human_field_label("_x"), " X");
    assert_eq!(human_field_label(""), "");
}

#[test]
fn compile_reports_provider_errors() {
    let empty = ProviderTemplate::compile("p", &provider(None, &[]));
    assert!(empty.is_err());
    assert_eq!(
        empty.unwrap_err().message(),
        "webhook provider map must not be empty: p"
    );
    let bad_label = ProviderTemplate::compile("p", &provider(Some("a.b"), &[("message", "m")]));
    assert_eq!(
        bad_label.unwrap_err().message(),
        "invalid webhook provider label key in p: a.b"
    );
    let duplicate = ProviderTemplate::compile("p", &provider(None, &[("id", "x"), ("message", "x")]));
    assert_eq!(
        duplicate.unwrap_err().message(),
        "duplicate webhook provider output path in p: x"
    );
}

#[test]
fn render_maps_fields_to_paths_with_labels() {
    let template = ProviderTemplate::compile(
        "discord",
        &provider(
            Some("name"),
            &[("message", "content"), ("project", "embeds.0.fields.0.value")],
        ),
    )
    .expect("template");
    let e = event("ci", "The workflow stalled after a network failure.");
    let payload = template.render(&e).expect("payload");
    assert_eq!(text(get(&payload, "content")), e.message);
    let field = at(get(at(get(&payload, "embeds"), 0), "fields"), 0);
    assert_eq!(text(get(field, "name")), "Project");
    assert_eq!(text(get(field, "value")), "vent-mcp");
    let mut texts = Vec::new();
    all_text(&payload, &mut texts);
    assert!(!texts.iter().any(|t| t.contains("ci")));
}

#[test]
fn render_pads_arrays_and_reports_conflicts() {
    let template = ProviderTemplate::compile("p", &provider(None, &[("message", "items.2")]))
        .expect("template");
    let payload = template.render(&event("c", "m")).expect("payload");
    let items = get(&payload, "items");
    assert_eq!(at(items, 0), &JsonValue::Null);
    assert_eq!(at(items, 1), &JsonValue::Null);
    assert_eq!(text(at(items, 2)), "m");
}

#[test]
fn webhook_payload_is_raw_event_or_provider_rendering() {
    let mut sink = WebhookSinkConfig {
        name: "hook".to_string(),
        url: "https://example.com/vent".to_string(),
        ..WebhookSinkConfig::default()
    };
    let config = AppConfig {
        default_channel: "general".to_string(),
        channels: vec![ChannelConfig {
            name: "general".to_string(),
            description: "General feedback.".to_string(),
            sinks: vec!["hook".to_string()],
        }],
        sinks: vec![SinkConfig::Webhook(WebhookSinkConfig {
            name: "hook".to_string(),
            url: "https://example.com/vent".to_string(),
            ..WebhookSinkConfig::default()
        })],
        ..AppConfig::default()
    };
    let runtime = RuntimeConfig::from_app_config(config, "/cfg".to_string(), None).expect("runtime");
    let e = event("general", "hello");

    let raw = webhook_payload(&runtime, &sink, &e).expect("raw payload");
    assert_eq!(raw, event_value(&e));
    assert_eq!(text(get(&raw, "id")), e.id.as_str());
    assert_eq!(text(get(&raw, "timestamp")), "2024-01-02T03:04:05Z");

    sink.provider = Some(" raw ".to_string());
    assert_eq!(webhook_payload(&runtime, &sink, &e), Ok(event_value(&e)));

    sink.provider = Some("ifttt".to_string());
    let ifttt = webhook_payload(&runtime, &sink, &e).expect("ifttt payload");
    assert_eq!(text(get(&ifttt, "value1")), "hello");
    assert_eq!(text(get(&ifttt, "value2")), "general");
    assert_eq!(text(get(&ifttt, "value3")), "vent-mcp");

    sink.provider = Some("nope".to_string());
    assert_eq!(
        webhook_payload(&runtime, &sink, &e),
        Err("unknown webhook provider: nope".to_string())
    );
}

#[test]
fn compile_rejects_repeated_fields_and_clashing_paths() {
    let repeated = ProviderTemplate::compile("p", &provider(None, &[("message", "a"), ("message", "b")]));
    assert_eq!(
        repeated.unwrap_err().message(),
        "duplicate webhook provider field in p: message"
    );

    let array_then_object =
        ProviderTemplate::compile("p", &provider(None, &[("channel", "a.0"), ("message", "a.b")]));
    assert_eq!(
        array_then_object.unwrap_err().message(),
        "webhook provider output path in p collides with another mapped path: a.b"
    );

    let object_then_array =
        ProviderTemplate::compile("p", &provider(None, &[("channel", "a.b.c"), ("message", "a.1")]));
    assert!(object_then_array.is_err());

    let under_label = ProviderTemplate::compile(
        "p",
        &provider(Some("name"), &[("message", "a.value"), ("project", "a.name.x")]),
    );
    assert_eq!(
        under_label.unwrap_err().message(),
        "webhook provider output path in p collides with another mapped path: a.name.x"
    );
    let label_first = ProviderTemplate::compile(
        "p",
        &provider(Some("name"), &[("project", "a.name.x"), ("message", "a.value")]),
    );
    assert!(label_first.is_err());

    let no_label = ProviderTemplate::compile(
        "p",
        &provider(None, &[("message", "a.value"), ("project", "a.name.x")]),
    );
    assert!(no_label.is_ok());
}

#[test]
fn compiled_maps_render_every_field_at_its_path() {
    let template = ProviderTemplate::compile(
        "p",
        &provider(
            Some("name"),
            &[
                ("channel", "a.0.x"),
                ("message", "a.2"),
                ("project", "b.value"),
                ("id", "b.name"),
            ],
        ),
    )
    .expect("template");
    let e = event("ops", "Disk filled up during the build.");
    let payload = template.render(&e).expect("payload");
    let a = get(&payload, "a");
    assert_eq!(text(get(at(a, 0), "x")), "ops");
    assert_eq!(at(a, 1), &JsonValue::Null);
    assert_eq!(text(at(a, 2)), "Disk filled up during the build.");
    let b = get(&payload, "b");
    assert_eq!(text(get(b, "value")), "vent-mcp");
    assert_eq!(text(get(b, "name")), e.id.as_str());
}
