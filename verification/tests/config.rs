use vent_mcp::config::{
    AppConfig, ChannelConfig, ConfigValidationError, JsonlSinkConfig, LoggingConfig, SinkConfig,
    WebhookHeaderConfig, WebhookProviderConfig, WebhookSinkConfig, DEFAULT_LOG_SINK_NAME,
    DEFAULT_WEBHOOK_TIMEOUT_MS,
};
use vent_mcp::runtime::{
    config_dir_for_path, expand_tilde, resolve_config_path_with, resolve_jsonl_dir, ConfigBootstrap,
    ConfigError, ConfigFile, ConfigPathSource, LoadedConfig, ResolvedConfigPath, RuntimeConfig,
};

fn general_channel(sinks: &[&str]) -> ChannelConfig {
    ChannelConfig {
        name: "general".to_string(),
        description: "General feedback.".to_string(),
        sinks: sinks.iter().map(|s| s.to_string()).collect(),
    }
}

fn jsonl(name: &str) -> SinkConfig {
    SinkConfig::Jsonl(JsonlSinkConfig {
        name: name.to_string(),
    })
}

fn webhook(name: &str, url: &str) -> WebhookSinkConfig {
    WebhookSinkConfig {
        name: name.to_string(),
        url: url.to_string(),
        ..WebhookSinkConfig::default()
    }
}

fn provider(fields: &[(&str, &str)]) -> WebhookProviderConfig {
    WebhookProviderConfig {
        field_label_key: None,
        fields: fields
            .iter()
            .map(|(f, p)| (f.to_string(), p.to_string()))
            .collect(),
    }
}

fn provider_named<'a>(config: &'a AppConfig, name: &str) -> Option<&'a WebhookProviderConfig> {
    config
        .providers
        .iter()
        .find(|(n, _)| n == name)
        .map(|(_, p)| p)
}

fn field_of<'a>(provider: &'a WebhookProviderConfig, field: &str) -> Option<&'a str> {
    provider
        .fields
        .iter()
        .find(|(f, _)| f == field)
        .map(|(_, p)| p.as_str())
}

#[test]
fn resolve_config_path_uses_expected_precedence() {
    let from_env = resolve_config_path_with(
        Some("/tmp/override.toml".to_string()),
        Some("/xdg".to_string()),
        Some("/Users/alice".to_string()),
    )
    .expect("env override should resolve");
    assert_eq!(from_env.path, "/tmp/override.toml");
    assert_eq!(from_env.source, ConfigPathSource::Env);

    let from_xdg = resolve_config_path_with(None, Some("/xdg".to_string()), Some("/Users/alice".to_string()))
        .expect("xdg should resolve");
    assert_eq!(from_xdg.path, "/xdg/vent-mcp/config.toml");
    assert_eq!(from_xdg.source, ConfigPathSource::Xdg);

    let from_home = resolve_config_path_with(None, None, Some("/Users/alice".to_string()))
        .expect("home should resolve");
    assert_eq!(from_home.path, "/Users/alice/.config/vent-mcp/config.toml");
    assert_eq!(from_home.source, ConfigPathSource::Home);
}

#[test]
fn resolve_config_path_ignores_empty_values_and_needs_a_home() {
    let resolved = resolve_config_path_with(Some(String::new()), Some(String::new()), Some("/h".to_string()))
        .expect("home should resolve");
    assert_eq!(resolved.path, "/h/.config/vent-mcp/config.toml");
    assert_eq!(resolved.source, ConfigPathSource::Home);

    let missing = resolve_config_path_with(None, None, None);
    assert_eq!(missing, Err(ConfigError::HomeDirectoryNotSet));
    assert_eq!(
        missing.unwrap_err().message(),
        "home directory is not set"
    );
}

#[test]
fn config_validation_rejects_missing_default_channel() {
    let config = AppConfig {
        default_channel: "missing".to_string(),
        channels: vec![general_channel(&["log"])],
        sinks: vec![jsonl("log")],
        ..AppConfig::default()
    };
    let error = config.validate().expect_err("config should fail");
    assert!(matches!(
        error,
        ConfigValidationError::DefaultChannelMustExist { .. }
    ));
}

#[test]
fn config_validation_rejects_duplicate_channels() {
    let mut duplicate = general_channel(&["log"]);
    duplicate.description = "Duplicate feedback.".to_string();
    let config = AppConfig {
        default_channel: "general".to_string(),
        channels: vec![general_channel(&["log"]), duplicate],
        sinks: vec![jsonl("log")],
        ..AppConfig::default()
    };
    let error = config.validate().expect_err("config should fail");
    assert!(matches!(error, ConfigValidationError::DuplicateChannel { .. }));
}

#[test]
fn config_validation_rejects_empty_sinks() {
    let config = AppConfig {
        default_channel: "general".to_string(),
        channels: vec![general_channel(&["log"])],
        sinks: vec![],
        ..AppConfig::default()
    };
    let error = config.validate().expect_err("config should fail");
    assert!(matches!(error, ConfigValidationError::SinksMustNotBeEmpty));
}

#[test]
fn config_validation_rejects_channel_without_sinks() {
    let config = AppConfig {
        default_channel: "general".to_string(),
        channels: vec![general_channel(&[])],
        sinks: vec![jsonl("log")],
        ..AppConfig::default()
    };
    let error = config.validate().expect_err("config should fail");
    assert!(matches!(
        error,
        ConfigValidationError::ChannelSinksMustNotBeEmpty { .. }
    ));
}

#[test]
fn config_validation_rejects_unknown_channel_sink() {
    let config = AppConfig {
        default_channel: "general".to_string(),
        channels: vec![general_channel(&["missing"])],
        sinks: vec![jsonl("log")],
        ..AppConfig::default()
    };
    let error = config.validate().expect_err("config should fail");
    assert!(matches!(
        error,
        ConfigValidationError::UnknownChannelSink { .. }
    ));
}

#[test]
fn config_validation_rejects_duplicate_sink_names() {
    let config = AppConfig {
        default_channel: "general".to_string(),
        channels: vec![general_channel(&["log"])],
        sinks: vec![jsonl("log"), jsonl("log")],
        ..AppConfig::default()
    };
    let error = config.validate().expect_err("config should fail");
    assert!(matches!(error, ConfigValidationError::DuplicateSinkName { .. }));
}

#[test]
fn config_validation_rejects_unnamed_sinks() {
    let config = AppConfig {
        default_channel: "general".to_string(),
        channels: vec![general_channel(&["log"])],
        sinks: vec![jsonl("")],
        ..AppConfig::default()
    };
    let error = config.validate().expect_err("config should fail");
    assert!(matches!(
        error,
        ConfigValidationError::InvalidChannelName { ref field, .. } if field == "sinks.name"
    ));
}

#[test]
fn config_parses_webhook_with_env_headers() {
    let mut sink = webhook("slack", "https://example.com/vent");
    sink.provider = Some("slack".to_string());
    sink.timeout_ms = 2500;
    sink.headers = vec![WebhookHeaderConfig {
        name: "Authorization".to_string(),
        env: "VENT_MCP_WEBHOOK_AUTHORIZATION".to_string(),
    }];
    let config = AppConfig {
        default_channel: "general".to_string(),
        channels: vec![general_channel(&["slack"])],
        sinks: vec![SinkConfig::Webhook(sink)],
        ..AppConfig::default()
    };
    config.validate().expect("webhook config");
    assert_eq!(config.sinks.len(), 1);
    let SinkConfig::Webhook(webhook) = &config.sinks[0] else {
        panic!("expected webhook sink");
    };
    assert_eq!(webhook.provider.as_deref(), Some("slack"));
    assert_eq!(webhook.timeout_ms, 2500);
}

#[test]
fn webhook_timeout_defaults_and_must_be_positive() {
    let config = AppConfig {
        default_channel: "general".to_string(),
        channels: vec![general_channel(&["webhook"])],
        sinks: vec![SinkConfig::Webhook(webhook("webhook", "https://example.com/vent"))],
        ..AppConfig::default()
    };
    config.validate().expect("webhook config");
    let SinkConfig::Webhook(sink) = &config.sinks[0] else {
        panic!("expected webhook sink");
    };
    assert_eq!(sink.timeout_ms, DEFAULT_WEBHOOK_TIMEOUT_MS);

    let mut zero = webhook("webhook", "https://example.com/vent");
    zero.timeout_ms = 0;
    let invalid = AppConfig {
        default_channel: "general".to_string(),
        channels: vec![general_channel(&["webhook"])],
        sinks: vec![SinkConfig::Webhook(zero)],
        ..AppConfig::default()
    };
    let error = invalid.validate().expect_err("timeout should fail");
    assert!(matches!(
        error,
        ConfigValidationError::WebhookTimeoutMsMustBePositive
    ));
}

#[test]
fn webhook_provider_config_validates_sink_references_and_paths() {
    let mut sink = webhook("webhook", "https://example.com/vent");
    sink.provider = Some("custom".to_string());
    let config = AppConfig {
        default_channel: "general".to_string(),
        channels: vec![general_channel(&["webhook"])],
        providers: vec![(
            "custom".to_string(),
            provider(&[
                ("channel", "data.content.channel"),
                ("message", "data.content.message"),
            ]),
        )],
        sinks: vec![SinkConfig::Webhook(sink)],
        ..AppConfig::default()
    };
    config.validate().expect("provider config");
    assert!(provider_named(&config, "custom").is_some());

    let mut missing_sink = webhook("webhook", "https://example.com/vent");
    missing_sink.provider = Some("missing".to_string());
    let missing = AppConfig {
        default_channel: "general".to_string(),
        channels: vec![general_channel(&["webhook"])],
        sinks: vec![SinkConfig::Webhook(missing_sink)],
        ..AppConfig::default()
    };
    let error = missing.validate().expect_err("provider should fail");
    assert!(matches!(
        error,
        ConfigValidationError::UnknownWebhookProvider { .. }
    ));

    let invalid_field = AppConfig {
        default_channel: "general".to_string(),
        channels: vec![general_channel(&["log"])],
        providers: vec![("custom".to_string(), provider(&[("unknown", "data.content")]))],
        sinks: vec![jsonl("log")],
        ..AppConfig::default()
    };
    let error = invalid_field.validate().expect_err("field should fail");
    assert!(matches!(
        error,
        ConfigValidationError::UnknownWebhookProviderField { .. }
    ));

    let invalid_path = AppConfig {
        default_channel: "general".to_string(),
        channels: vec![general_channel(&["log"])],
        providers: vec![("custom".to_string(), provider(&[("message", "data..content")]))],
        sinks: vec![jsonl("log")],
        ..AppConfig::default()
    };
    let error = invalid_path.validate().expect_err("path should fail");
    assert!(matches!(
        error,
        ConfigValidationError::InvalidWebhookProviderPath { .. }
    ));

    let colliding_path = AppConfig {
        default_channel: "general".to_string(),
        channels: vec![general_channel(&["log"])],
        providers: vec![(
            "bad".to_string(),
            provider(&[("message", "payload.body"), ("project", "payload")]),
        )],
        sinks: vec![jsonl("log")],
        ..AppConfig::default()
    };
    let error = colliding_path
        .validate()
        .expect_err("colliding path should fail");
    assert!(matches!(
        error,
        ConfigValidationError::CollidingWebhookProviderPath { .. }
    ));

    let repeated_provider = AppConfig {
        default_channel: "general".to_string(),
        channels: vec![general_channel(&["log"])],
        providers: vec![
            ("custom".to_string(), provider(&[("message", "text")])),
            ("custom".to_string(), provider(&[("message", "content")])),
        ],
        sinks: vec![jsonl("log")],
        ..AppConfig::default()
    };
    let error = repeated_provider
        .validate()
        .expect_err("repeated provider should fail");
    assert_eq!(error.message(), "duplicate webhook provider: custom");

    let oversized_index = AppConfig {
        default_channel: "general".to_string(),
        channels: vec![general_channel(&["log"])],
        providers: vec![("bad".to_string(), provider(&[("message", "items.5000000")]))],
        sinks: vec![jsonl("log")],
        ..AppConfig::default()
    };
    let error = oversized_index
        .validate()
        .expect_err("oversized index should fail");
    assert!(matches!(
        error,
        ConfigValidationError::InvalidWebhookProviderPath { .. }
    ));
}

#[test]
fn empty_jsonl_dir_falls_back_to_config_dir() {
    let config_dir = "/home/user/.config/vent-mcp";

    for value in [None, Some(String::new()), Some("   ".to_string())] {
        let logging = LoggingConfig { jsonl_dir: value };
        assert_eq!(
            resolve_jsonl_dir(&logging, config_dir, None),
            config_dir,
            "empty/omitted jsonl_dir should anchor to the config directory"
        );
    }

    let explicit = LoggingConfig {
        jsonl_dir: Some("/var/log/vent".to_string()),
    };
    assert_eq!(resolve_jsonl_dir(&explicit, config_dir, None), "/var/log/vent");
}

#[test]
fn jsonl_dir_expands_home_and_trims() {
    let logging = LoggingConfig {
        jsonl_dir: Some("  ~/vents  ".to_string()),
    };
    assert_eq!(
        resolve_jsonl_dir(&logging, "/cfg", Some("/home/u".to_string())),
        "/home/u/vents"
    );
    assert_eq!(expand_tilde("~", Some("/home/u".to_string())), "/home/u");
    assert_eq!(expand_tilde("~", Some(String::new())), "~");
    assert_eq!(expand_tilde("~/x", None), "~/x");
    assert_eq!(expand_tilde("/abs/~", Some("/home/u".to_string())), "/abs/~");
}

#[test]
fn config_dir_is_the_parent_or_dot() {
    assert_eq!(config_dir_for_path("/a/b/config.toml"), "/a/b");
    assert_eq!(config_dir_for_path("config.toml"), "");
    assert_eq!(config_dir_for_path("/"), ".");
}

#[test]
fn load_from_default_path_creates_default_config() {
    let resolved = ResolvedConfigPath {
        path: "/tmp/x/vent-mcp/config.toml".to_string(),
        source: ConfigPathSource::Home,
    };
    assert_eq!(
        LoadedConfig::bootstrap_action(&resolved, false),
        Ok(ConfigBootstrap::CreateDefault)
    );
    let loaded = LoadedConfig::load_from_path(
        resolved.path.clone(),
        ConfigFile::Parsed(AppConfig::default()),
        None,
    )
    .expect("default config should be created");
    assert_eq!(loaded.config().default_channel(), "feedback");
    assert_eq!(loaded.config_dir(), "/tmp/x/vent-mcp");
}

#[test]
fn explicit_missing_config_is_not_created() {
    let resolved = ResolvedConfigPath {
        path: "/tmp/missing.toml".to_string(),
        source: ConfigPathSource::Env,
    };
    let error = LoadedConfig::bootstrap_action(&resolved, false).expect_err("must not create");
    assert_eq!(
        error,
        ConfigError::NotFound {
            path: "/tmp/missing.toml".to_string()
        }
    );
    assert_eq!(error.message(), "config file not found at /tmp/missing.toml");
    assert_eq!(
        LoadedConfig::bootstrap_action(&resolved, true),
        Ok(ConfigBootstrap::UseExisting)
    );
}

#[test]
fn load_reports_read_parse_and_validation_errors() {
    let read = LoadedConfig::load_from_path(
        "/c.toml".to_string(),
        ConfigFile::Unreadable {
            message: "denied".to_string(),
        },
        None,
    )
    .expect_err("read should fail");
    assert_eq!(read.message(), "failed to read config file at /c.toml: denied");

    let parse = LoadedConfig::load_from_path(
        "/c.toml".to_string(),
        ConfigFile::Malformed {
            message: "bad toml".to_string(),
        },
        None,
    )
    .expect_err("parse should fail");
    assert_eq!(
        parse.message(),
        "failed to parse config file at /c.toml: bad toml"
    );

    let invalid = AppConfig {
        channels: vec![],
        ..AppConfig::default()
    };
    let validation = LoadedConfig::load_from_path("/c.toml".to_string(), ConfigFile::Parsed(invalid), None)
        .expect_err("validation should fail");
    assert_eq!(
        validation,
        ConfigError::Validation(ConfigValidationError::ChannelsMustNotBeEmpty)
    );
    assert_eq!(
        validation.message(),
        "channels must contain at least one channel"
    );
}

#[test]
fn default_config_includes_common_webhook_provider_maps() {
    let config = AppConfig::default();
    let expected = [
        "zapier",
        "make",
        "n8n",
        "pipedream",
        "workato",
        "ifttt",
        "slack",
        "mattermost",
        "discord",
        "microsoft_teams",
        "google_chat",
        "webex",
    ];

    for name in expected {
        assert!(
            provider_named(&config, name).is_some(),
            "missing default provider {name}"
        );
    }
    let teams = provider_named(&config, "microsoft_teams").unwrap();
    assert_eq!(field_of(teams, "message"), Some("text"));
    let ifttt = provider_named(&config, "ifttt").unwrap();
    assert_eq!(field_of(ifttt, "message"), Some("value1"));
    assert_eq!(config.channels[0].sinks, [DEFAULT_LOG_SINK_NAME]);
    assert_eq!(config.sinks[0].name(), DEFAULT_LOG_SINK_NAME);
    assert!(field_of(provider_named(&config, "discord").unwrap(), "channel").is_none());
    assert!(field_of(provider_named(&config, "slack").unwrap(), "channel").is_none());
}

#[test]
fn default_config_is_valid_and_providers_are_in_key_order() {
    let config = AppConfig::default();
    assert_eq!(config.validate(), Ok(()));
    let names: Vec<&str> = config.providers.iter().map(|(n, _)| n.as_str()).collect();
    let mut sorted = names.clone();
    sorted.sort();
    assert_eq!(names, sorted);
    let runtime = RuntimeConfig::from_app_config(config, "/cfg".to_string(), None).expect("runtime");
    assert_eq!(runtime.default_channel(), "feedback");
    assert_eq!(runtime.jsonl_dir(), "/cfg");
    assert!(runtime.has_only_default_channel());
    assert!(runtime.webhook_provider("discord").is_some());
    assert!(runtime.webhook_provider("raw").is_none());
}

#[test]
fn validation_messages_name_the_offending_values() {
    let config = AppConfig {
        default_channel: "Bad Name".to_string(),
        ..AppConfig::default()
    };
    let error = config.validate().expect_err("name should fail");
    assert_eq!(
        error.message(),
        "invalid channel name in default_channel: Bad Name"
    );

    let mut http = webhook("hook", "ftp://example.com/x");
    http.timeout_ms = 5;
    let config = AppConfig {
        default_channel: "general".to_string(),
        channels: vec![general_channel(&["hook"])],
        sinks: vec![SinkConfig::Webhook(http)],
        ..AppConfig::default()
    };
    let error = config.validate().expect_err("scheme should fail");
    assert_eq!(
        error,
        ConfigValidationError::WebhookUrlMustBeHttp {
            url: "ftp://example.com/x".to_string()
        }
    );
    assert_eq!(
        error.message(),
        "webhook url must be an http or https URL: ftp://example.com/x"
    );

    let mut dup = webhook("hook", "https://example.com/x");
    dup.headers = vec![
        WebhookHeaderConfig {
            name: "X-Key".to_string(),
            env: "A".to_string(),
        },
        WebhookHeaderConfig {
            name: " x-key ".to_string(),
            env: "B".to_string(),
        },
    ];
    let config = AppConfig {
        default_channel: "general".to_string(),
        channels: vec![general_channel(&["hook"])],
        sinks: vec![SinkConfig::Webhook(dup)],
        ..AppConfig::default()
    };
    let error = config.validate().expect_err("duplicate header should fail");
    assert_eq!(
        error.message(),
        "duplicate webhook header:  x-key "
    );
}

#[test]
fn channels_reference_at_most_one_jsonl_sink() {
    let config = AppConfig {
        default_channel: "general".to_string(),
        channels: vec![general_channel(&["log", "audit"])],
        sinks: vec![jsonl("log"), jsonl("audit")],
        ..AppConfig::default()
    };
    let error = config.validate().expect_err("two jsonl sinks should fail");
    assert_eq!(
        error,
        ConfigValidationError::MultipleChannelJsonlSinks {
            channel: "general".to_string(),
            sink: "audit".to_string()
        }
    );
    assert_eq!(error.message(), "multiple jsonl sinks in channel general: audit");

    let mixed = AppConfig {
        default_channel: "general".to_string(),
        channels: vec![general_channel(&["log", "hook"])],
        sinks: vec![
            jsonl("log"),
            SinkConfig::Webhook(webhook("hook", "https://example.com/x")),
        ],
        ..AppConfig::default()
    };
    assert_eq!(mixed.validate(), Ok(()));
}

#[test]
fn every_remaining_validation_error_has_an_input() {
    let dup_ref = AppConfig {
        default_channel: "general".to_string(),
        channels: vec![general_channel(&["log", "log"])],
        sinks: vec![jsonl("log")],
        ..AppConfig::default()
    };
    assert_eq!(
        dup_ref.validate(),
        Err(ConfigValidationError::DuplicateChannelSink {
            channel: "general".to_string(),
            sink: "log".to_string()
        })
    );

    let mut blank = general_channel(&["log"]);
    blank.description = "  ".to_string();
    let no_description = AppConfig {
        default_channel: "general".to_string(),
        channels: vec![blank],
        sinks: vec![jsonl("log")],
        ..AppConfig::default()
    };
    let error = no_description.validate().expect_err("description should fail");
    assert_eq!(
        error.message(),
        "channel description must not be empty: general"
    );

    let with_sink = |sink: WebhookSinkConfig| AppConfig {
        default_channel: "general".to_string(),
        channels: vec![general_channel(&["hook"])],
        sinks: vec![SinkConfig::Webhook(sink)],
        ..AppConfig::default()
    };

    let error = with_sink(webhook("hook", "   ")).validate().expect_err("url should fail");
    assert_eq!(error, ConfigValidationError::WebhookUrlMustNotBeEmpty);
    assert_eq!(error.message(), "webhook url must not be empty");

    let mut unnamed_header = webhook("hook", "https://example.com/x");
    unnamed_header.headers = vec![WebhookHeaderConfig {
        name: " ".to_string(),
        env: "A".to_string(),
    }];
    assert_eq!(
        with_sink(unnamed_header).validate(),
        Err(ConfigValidationError::WebhookHeaderNameMustNotBeEmpty)
    );

    let mut no_env = webhook("hook", "https://example.com/x");
    no_env.headers = vec![WebhookHeaderConfig {
        name: "X-A".to_string(),
        env: "".to_string(),
    }];
    let error = with_sink(no_env).validate().expect_err("env should fail");
    assert_eq!(
        error.message(),
        "webhook header env must not be empty for header X-A"
    );

    let mut blank_provider = webhook("hook", "https://example.com/x");
    blank_provider.provider = Some("  ".to_string());
    assert_eq!(
        with_sink(blank_provider).validate(),
        Err(ConfigValidationError::WebhookProviderNameMustNotBeEmpty)
    );

    let mut raw = webhook("hook", "https://example.com/x");
    raw.provider = Some(" raw ".to_string());
    assert_eq!(with_sink(raw).validate(), Ok(()));
}

#[test]
fn config_error_messages_name_path_and_cause() {
    assert_eq!(
        ConfigError::ParseToml {
            source: "x".to_string()
        }
        .message(),
        "failed to parse config: x"
    );
    assert_eq!(
        ConfigError::CreateConfigDir {
            path: "/d".to_string(),
            source: "denied".to_string()
        }
        .message(),
        "failed to create config directory at /d: denied"
    );
    assert_eq!(
        ConfigError::SerializeDefaultConfig {
            source: "bad".to_string()
        }
        .message(),
        "failed to serialize default config: bad"
    );
    assert_eq!(
        ConfigError::WriteDefaultConfig {
            path: "/c".to_string(),
            source: "full".to_string()
        }
        .message(),
        "failed to write default config at /c: full"
    );
}
