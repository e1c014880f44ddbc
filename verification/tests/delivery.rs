use vent_mcp::cli::{channel_lines, vent_report, VentReport};
use vent_mcp::config::{AppConfig, ChannelConfig};
use vent_mcp::delivery::{SendPlan, VentRequest, VentService};
use vent_mcp::runtime::RuntimeConfig;
use vent_mcp::surface::{tool_surface, INSTRUCTIONS_DEFAULT_ONLY, INSTRUCTIONS_WITH_CHANNELS};
use vent_mcp::types::{SinkDeliveryStatus, VentEvent, VentOutput};

fn two_channel_config() -> AppConfig {
    AppConfig {
        default_channel: "general".to_string(),
        channels: vec![
            ChannelConfig {
                name: "general".to_string(),
                description: "General feedback.".to_string(),
                sinks: vec!["log".to_string()],
            },
            ChannelConfig {
                name: "ux".to_string(),
                description: "Workflow friction.".to_string(),
                sinks: vec!["log".to_string()],
            },
        ],
        ..AppConfig::default()
    }
}

fn service(config: AppConfig) -> VentService {
    let runtime = RuntimeConfig::from_app_config(config, "/cfg".to_string(), None).expect("runtime config");
    VentService::new(runtime, "vent-mcp".to_string())
}

fn request(message: &str, channel: Option<&str>) -> VentRequest {
    VentRequest {
        message: message.to_string(),
        channel: channel.map(|c| c.to_string()),
    }
}

#[test]
fn list_channels_returns_configured_channels() {
    let output = service(two_channel_config()).list_channels();
    assert_eq!(output.default_channel, "general");
    assert_eq!(output.channels.len(), 2);
    assert_eq!(output.channels[1].name, "ux");
    assert_eq!(
        channel_lines(&output),
        vec![
            "general (default) - General feedback.".to_string(),
            "ux - Workflow friction.".to_string(),
        ]
    );
}

#[test]
fn vent_uses_default_channel_when_omitted() {
    let svc = service(AppConfig::default());
    let SendPlan::Deliver(event) = svc.plan_send(request("The task queue kept changing mid-run.", None)) else {
        panic!("expected delivery");
    };
    assert_eq!(event.channel, "feedback");
    assert_eq!(event.message, "The task queue kept changing mid-run.");
    assert_eq!(event.project, "vent-mcp");
    assert!(event.timestamp.ends_with('Z'));
    let id = event.id.as_str().to_string();
    let output = VentService::complete_send(event, &[]);
    assert!(output.ok);
    assert_eq!(output.channel, "feedback");
    assert_eq!(output.event_id.len(), 8);
    assert_eq!(output.event_id, id);
    assert!(output.event_id.chars().all(|c| c.is_ascii_alphanumeric()));
    assert_eq!(output.error, None);
}

#[test]
fn blank_channel_falls_back_to_default() {
    let svc = service(two_channel_config());
    let SendPlan::Deliver(event) = svc.plan_send(request("  The task queue kept changing mid-run. ", Some("   "))) else {
        panic!("expected delivery");
    };
    assert_eq!(event.channel, "general");
    assert_eq!(event.message, "The task queue kept changing mid-run.");
}

#[test]
fn vent_rejects_unknown_channel() {
    let svc = service(AppConfig::default());
    let SendPlan::Rejected(output) = svc.plan_send(request("Something useful.", Some("missing"))) else {
        panic!("expected rejection");
    };
    assert!(!output.ok);
    assert_eq!(output.channel, "missing");
    assert_eq!(output.event_id, "");
    assert_eq!(output.error.as_deref(), Some("unknown channel: missing"));
}

#[test]
fn vent_rejects_empty_messages() {
    let svc = service(two_channel_config());
    let SendPlan::Rejected(output) = svc.plan_send(request(" \n\t ", Some("ux"))) else {
        panic!("expected rejection");
    };
    assert!(!output.ok);
    assert_eq!(output.channel, "general");
    assert_eq!(output.error.as_deref(), Some("message must not be empty"));
}

#[test]
fn acknowledgements_report_the_first_failure() {
    let event = VentEvent::from_parts(
        1,
        "t".to_string(),
        "general".to_string(),
        "m".to_string(),
        "p".to_string(),
    );
    let statuses = vec![
        SinkDeliveryStatus {
            sink: "log".to_string(),
            ok: true,
            message: None,
        },
        SinkDeliveryStatus {
            sink: "hook".to_string(),
            ok: false,
            message: Some("webhook connection failed".to_string()),
        },
    ];
    let output = VentService::complete_send(event, &statuses);
    assert!(!output.ok);
    assert_eq!(output.event_id, "10000000");
    assert_eq!(output.error.as_deref(), Some("webhook connection failed"));
}

#[test]
fn cli_reports_follow_the_acknowledgement() {
    let sent = VentOutput {
        ok: true,
        event_id: "abcd1234".to_string(),
        channel: "general".to_string(),
        error: None,
    };
    assert_eq!(
        vent_report(&sent),
        VentReport::Sent {
            line: "vented abcd1234 to general".to_string()
        }
    );
    let rejected = VentOutput {
        ok: false,
        event_id: String::new(),
        channel: "x".to_string(),
        error: Some("unknown channel: x".to_string()),
    };
    assert_eq!(
        vent_report(&rejected),
        VentReport::Failed {
            line: "Error: unknown channel: x".to_string(),
            exit_code: 2
        }
    );
    let undelivered = VentOutput {
        ok: false,
        event_id: "abcd1234".to_string(),
        channel: "general".to_string(),
        error: None,
    };
    assert_eq!(
        vent_report(&undelivered),
        VentReport::Failed {
            line: "Error: delivery failed".to_string(),
            exit_code: 1
        }
    );
}

#[test]
fn single_default_channel_hides_channel_metadata() {
    let svc = service(AppConfig::default());
    let surface = tool_surface(svc.config());
    assert!(!surface.list_channels);
    assert!(!surface.vent_takes_channel);
    assert_eq!(surface.instructions, INSTRUCTIONS_DEFAULT_ONLY);
    assert!(!surface.instructions.contains("list_channels"));
}

#[test]
fn multiple_channels_expose_channel_metadata() {
    let svc = service(two_channel_config());
    let surface = tool_surface(svc.config());
    assert!(surface.list_channels);
    assert!(surface.vent_takes_channel);
    assert_eq!(surface.instructions, INSTRUCTIONS_WITH_CHANNELS);
    assert!(surface.instructions.contains("list_channels"));
}
