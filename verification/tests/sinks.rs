use vent_mcp::config::{
    AppConfig, ChannelConfig, JsonlSinkConfig, LoggingConfig, SinkConfig, WebhookHeaderConfig,
    WebhookSinkConfig,
};
use vent_mcp::json::JsonValue;
use vent_mcp::provider::event_value;
use vent_mcp::runtime::RuntimeConfig;
use vent_mcp::redaction::{sanitize_webhook_error_body, webhook_secret_values};
use vent_mcp::sinks::{
    delivered_status, failed_status, lookup_env, request_error_message, sink_label,
    webhook_headers, webhook_status_error, SinkDispatcher,
};
use vent_mcp::types::VentEvent;

fn event(channel: &str) -> VentEvent {
    VentEvent::from_parts(
        7,
        "2024-01-02T03:04:05Z".to_string(),
        channel.to_string(),
        "The CI logs were hard to correlate.".to_string(),
        "vent-mcp".to_string(),
    )
}

fn channel(name: &str, sinks: &[&str]) -> ChannelConfig {
    ChannelConfig {
        name: name.to_string(),
        description: format!("{name} feedback."),
        sinks: sinks.iter().map(|s| s.to_string()).collect(),
    }
}

fn jsonl(name: &str) -> SinkConfig {
    SinkConfig::Jsonl(JsonlSinkConfig {
        name: name.to_string(),
    })
}

fn header(name: &str, env: &str) -> WebhookHeaderConfig {
    WebhookHeaderConfig {
        name: name.to_string(),
        env: env.to_string(),
    }
}

fn env(pairs: &[(&str, &str)]) -> Vec<(String, String)> {
    pairs
        .iter()
        .map(|(k, v)| (k.to_string(), v.to_string()))
        .collect()
}

#[test]
fn webhook_status_errors_are_sanitized_and_short() {
    let secret = "secret-token-value".to_string();
    let long_body = format!("request failed for secret-token-value\n{}", "x".repeat(700));

    let message = webhook_status_error(
        reqwest::StatusCode::BAD_GATEWAY.as_u16(),
        Some(&long_body),
        &[secret],
    );

    assert!(message.starts_with("webhook HTTP 502 Bad Gateway: "));
    assert!(message.contains("[redacted]"));
    assert!(!message.contains("secret-token-value"));
    assert!(message.len() < 600);
}

#[test]
fn webhook_status_errors_redact_short_secrets() {
    let secrets = vec!["abc".to_string(), "xy".to_string(), String::new()];
    let message = webhook_status_error(
        reqwest::StatusCode::UNAUTHORIZED.as_u16(),
        Some("invalid token abc for header xy"),
        &secrets,
    );

    assert!(!message.contains("abc"));
    assert!(!message.contains("xy"));
    assert!(message.contains("[redacted]"));
}

#[test]
fn status_errors_without_a_body_name_only_the_status() {
    assert_eq!(webhook_status_error(404, None, &[]), "webhook HTTP 404 Not Found");
    assert_eq!(webhook_status_error(500, Some("  \n "), &[]), "webhook HTTP 500 Internal Server Error");
    assert_eq!(
        webhook_status_error(599, Some("x"), &[]),
        "webhook HTTP 599 <unknown status code>: x"
    );
}

#[test]
fn sanitizing_redacts_longest_first_and_collapses_whitespace() {
    let secrets = vec!["tok".to_string(), "token-123".to_string()];
    assert_eq!(
        sanitize_webhook_error_body("  bad\t token-123\n\nand tok  ", &secrets),
        "bad [redacted] and [redacted]"
    );
    let long = "a".repeat(600);
    let preview = sanitize_webhook_error_body(&long, &[]);
    assert_eq!(preview.chars().count(), 515);
    assert!(preview.ends_with("..."));
    assert_eq!(sanitize_webhook_error_body(&"é".repeat(512), &[]), "é".repeat(512));
}

#[test]
fn a_redacted_secret_never_shows_again() {
    let secrets = vec!["XYZ9".to_string()];
    let body = "XYZXYZ9 then XYZ9XYZ9 and XY Z9";
    let preview = sanitize_webhook_error_body(body, &secrets);
    assert!(!preview.contains("XYZ9"));
    assert_eq!(preview, "XYZ[redacted] then [redacted][redacted] and XY Z9");

    let secrets = vec!["token-ace".to_string(), "ace".to_string()];
    let preview = sanitize_webhook_error_body("token-acetoken-ace ace-token", &secrets);
    assert_eq!(preview, "[redacted][redacted] [redacted]-token");
    assert!(!preview.contains("token-ace"));
    assert!(!preview.contains("ace"));
}

#[test]
fn a_secret_inside_the_mark_shows_through_it() {
    let preview = sanitize_webhook_error_body("red alert", &["red".to_string()]);
    assert_eq!(preview, "[redacted] alert");
    assert!(preview.contains("red"));
}

#[test]
fn secret_values_cover_url_parts_and_headers() {
    let values = webhook_secret_values(
        " https://user:pw@example.com/hooks/abcdefgh12?token=xyz&flag&k=v=w ",
        &["hv".to_string()],
    );
    assert_eq!(
        values,
        vec![
            "https://user:pw@example.com/hooks/abcdefgh12?token=xyz&flag&k=v=w".to_string(),
            "pw".to_string(),
            "xyz".to_string(),
            "v=w".to_string(),
            "abcdefgh12".to_string(),
            "hv".to_string(),
        ]
    );
    assert_eq!(webhook_secret_values("   ", &["h".to_string()]), vec!["h".to_string()]);
    assert_eq!(
        webhook_secret_values("not a url", &[]),
        vec!["not a url".to_string()]
    );
}

#[test]
fn headers_resolve_from_the_environment_in_order() {
    let snapshot = env(&[("TOKEN", "secret-token"), ("OTHER", "x")]);
    assert_eq!(lookup_env(&snapshot, "TOKEN"), Some("secret-token".to_string()));
    assert_eq!(lookup_env(&snapshot, "MISSING"), None);

    let resolved = webhook_headers(&[header(" X-Test-Token ", " TOKEN ")], &snapshot).expect("headers");
    assert_eq!(resolved, vec![("X-Test-Token".to_string(), "secret-token".to_string())]);

    assert_eq!(
        webhook_headers(&[header("X-A", "MISSING")], &snapshot),
        Err("missing environment variable MISSING".to_string())
    );
    assert_eq!(
        webhook_headers(&[header("bad name", "TOKEN")], &snapshot),
        Err("invalid webhook header name bad name: invalid HTTP header name".to_string())
    );
    let bad_value = env(&[("V", "line\nbreak")]);
    assert_eq!(
        webhook_headers(&[header("X-A", "V")], &bad_value),
        Err("invalid value for header X-A: failed to parse header value".to_string())
    );
}

#[test]
fn request_errors_name_the_failure() {
    assert_eq!(request_error_message(true, true, 2500), "webhook timed out after 2500ms");
    assert_eq!(request_error_message(false, true, 2500), "webhook connection failed");
    assert_eq!(request_error_message(false, false, 2500), "webhook request failed");
}

#[test]
fn statuses_and_labels() {
    let failed = failed_status("log".to_string(), "disk full".to_string());
    assert!(!failed.ok);
    assert_eq!(failed.sink, "log");
    assert_eq!(failed.message.as_deref(), Some("disk full"));
    let delivered = delivered_status("log".to_string());
    assert!(delivered.ok);
    assert_eq!(delivered.message, None);
    assert_eq!(sink_label(&jsonl("audit")), "audit");
}

#[test]
fn dispatch_uses_selected_channel_sinks() {
    let config = AppConfig {
        default_channel: "general".to_string(),
        logging: LoggingConfig {
            jsonl_dir: Some("/var/vent".to_string()),
        },
        channels: vec![channel("general", &["log"]), channel("ci", &["audit"])],
        sinks: vec![jsonl("log"), jsonl("audit")],
        ..AppConfig::default()
    };
    let runtime = RuntimeConfig::from_app_config(config, "/cfg".to_string(), None).expect("runtime");
    let dispatcher = SinkDispatcher::new(runtime);

    let targets = dispatcher.targets(&event("ci")).expect("known channel");
    assert_eq!(targets.len(), 1);
    assert_eq!(sink_label(targets[0]), "audit");
    assert_eq!(dispatcher.jsonl_path(), "/var/vent/vents.jsonl");

    let unknown = dispatcher.targets(&event("missing")).expect_err("unknown channel");
    assert_eq!(unknown.sink, "missing");
    assert!(!unknown.ok);
    assert_eq!(unknown.message.as_deref(), Some("unknown channel: missing"));
}

#[test]
fn webhook_sink_sends_json_and_env_backed_header() {
    let hook = WebhookSinkConfig {
        name: "webhook".to_string(),
        url: " https://example.com/vent ".to_string(),
        provider: None,
        timeout_ms: 2500,
        headers: vec![header("X-Test-Token", "VENT_MCP_TEST_TOKEN")],
    };
    let config = AppConfig {
        default_channel: "general".to_string(),
        channels: vec![channel("general", &["webhook"])],
        sinks: vec![SinkConfig::Webhook(WebhookSinkConfig {
            name: "webhook".to_string(),
            url: " https://example.com/vent ".to_string(),
            provider: None,
            timeout_ms: 2500,
            headers: vec![header("X-Test-Token", "VENT_MCP_TEST_TOKEN")],
        })],
        ..AppConfig::default()
    };
    let runtime = RuntimeConfig::from_app_config(config, "/cfg".to_string(), None).expect("runtime");
    let dispatcher = SinkDispatcher::new(runtime);
    let e = event("general");

    let request = dispatcher
        .webhook_request(&hook, &e, &env(&[("VENT_MCP_TEST_TOKEN", "secret-token")]))
        .expect("request");
    assert_eq!(request.url, "https://example.com/vent");
    assert_eq!(request.timeout_ms, 2500);
    assert_eq!(
        request.headers,
        vec![("X-Test-Token".to_string(), "secret-token".to_string())]
    );
    assert_eq!(request.payload, event_value(&e));
    assert!(matches!(request.payload, JsonValue::Object(_)));
    let mut headers = reqwest::header::HeaderMap::new();
    for (name, value) in &request.headers {
        headers.insert(
            reqwest::header::HeaderName::from_bytes(name.as_bytes()).expect("name"),
            reqwest::header::HeaderValue::from_str(value).expect("value"),
        );
    }
    assert!(headers
        .iter()
        .any(|(name, value)| name.as_str() == "x-test-token" && value == "secret-token"));

    let failed = dispatcher
        .webhook_request(&hook, &e, &[])
        .expect_err("missing variable");
    assert_eq!(failed.sink, "webhook");
    assert_eq!(
        failed.message.as_deref(),
        Some("missing environment variable VENT_MCP_TEST_TOKEN")
    );
}

#[test]
fn secrets_are_ordered_by_byte_length() {
    let secrets = vec!["éabc".to_string(), "ééé".to_string()];
    assert_eq!(sanitize_webhook_error_body("éééabc", &secrets), "[redacted]abc");
}

#[test]
fn request_errors_from_reqwest_are_classified() {
    let error = reqwest::Client::new()
        .get("not a url")
        .build()
        .expect_err("a relative URL cannot be requested");
    assert_eq!(
        vent_mcp::sinks::webhook_request_error(&error, 5),
        "webhook request failed"
    );
}

fn get<'a>(value: &'a JsonValue, key: &str) -> &'a JsonValue {
    match value {
        JsonValue::Object(entries) => &entries.iter().find(|(k, _)| k == key).expect("key").1,
        _ => panic!("not an object"),
    }
}

fn at(value: &JsonValue, index: usize) -> &JsonValue {
    match value {
        JsonValue::Array(items) => &items[index],
        _ => panic!("not an array"),
    }
}

#[test]
fn webhook_provider_maps_event_fields_to_dotted_paths_and_labels() {
    let hook = WebhookSinkConfig {
        name: "discord-ci".to_string(),
        url: "https://example.com/discord".to_string(),
        provider: Some("discord".to_string()),
        timeout_ms: 2500,
        headers: Vec::new(),
    };
    let config = AppConfig {
        default_channel: "ci".to_string(),
        channels: vec![ChannelConfig {
            name: "ci".to_string(),
            description: "CI feedback.".to_string(),
            sinks: vec!["discord-ci".to_string()],
        }],
        sinks: vec![SinkConfig::Webhook(WebhookSinkConfig {
            name: "discord-ci".to_string(),
            url: "https://example.com/discord".to_string(),
            provider: Some("discord".to_string()),
            timeout_ms: 2500,
            headers: Vec::new(),
        })],
        ..AppConfig::default()
    };
    let runtime = RuntimeConfig::from_app_config(config, "/cfg".to_string(), None).expect("runtime");
    let dispatcher = SinkDispatcher::new(runtime);
    let e = VentEvent::from_parts(
        99,
        "2024-01-02T03:04:05Z".to_string(),
        "ci".to_string(),
        "The workflow stalled after a network failure.".to_string(),
        "vent-mcp".to_string(),
    );
    let targets = dispatcher.targets(&e).expect("known channel");
    assert_eq!(targets.len(), 1);
    let request = dispatcher.webhook_request(&hook, &e, &[]).expect("request");
    let payload = &request.payload;
    assert_eq!(get(payload, "content"), &JsonValue::String(e.message.clone()));
    let field = at(get(at(get(payload, "embeds"), 0), "fields"), 0);
    assert_eq!(get(field, "name"), &JsonValue::String("Project".to_string()));
    assert_eq!(get(field, "value"), &JsonValue::String("vent-mcp".to_string()));
    let text = format!("{payload:?}");
    assert!(!text.contains("ci"));
}

#[test]
fn previews_are_single_spaced_and_capped() {
    let body = format!("\n\t {} \u{3000} {}  \r\n", "word ".repeat(150), "x".repeat(40));
    let preview = sanitize_webhook_error_body(&body, &[]);
    assert_eq!(preview.chars().count(), 515);
    assert!(preview.ends_with("..."));
    assert!(!preview.starts_with(' '));
    assert!(!preview.contains("  "));
    assert!(preview.chars().all(|c| c == ' ' || !c.is_whitespace()));
    assert!(preview.starts_with("word word "));

    let short = sanitize_webhook_error_body("  one \n two\t\tthree  ", &[]);
    assert_eq!(short, "one two three");
}
