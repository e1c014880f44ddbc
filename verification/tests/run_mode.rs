use vent_mcp::cli::{CliArgs, CliCommand, CliErrorKind, CliUsageError, RunMode};

fn args(mcp: bool, channel: Option<&str>, command: Option<CliCommand>, message: &[&str]) -> CliArgs {
    CliArgs {
        mcp,
        channel: channel.map(|c| c.to_string()),
        command,
        message: message.iter().map(|m| m.to_string()).collect(),
    }
}

#[test]
fn no_args_run_mcp_server() {
    assert_eq!(args(false, None, None, &[]).into_run_mode(), Ok(RunMode::Mcp));
}

#[test]
fn list_args_run_list_channels() {
    assert_eq!(
        args(false, None, Some(CliCommand::List), &[]).into_run_mode(),
        Ok(RunMode::ListChannels)
    );
}

#[test]
fn message_args_run_cli_vent() {
    assert_eq!(
        args(false, Some("ux"), None, &["Workflow", "friction"]).into_run_mode(),
        Ok(RunMode::Vent {
            message: "Workflow friction".to_string(),
            channel: Some("ux".to_string()),
        })
    );
}

#[test]
fn mcp_flag_alone_runs_the_server() {
    assert_eq!(args(true, None, None, &[]).into_run_mode(), Ok(RunMode::Mcp));
}

#[test]
fn conflicting_arguments_are_usage_errors() {
    assert_eq!(
        args(true, None, None, &["hi"]).into_run_mode(),
        Err(CliUsageError {
            kind: CliErrorKind::ArgumentConflict,
            message: "--mcp cannot be combined with CLI arguments".to_string(),
        })
    );
    assert_eq!(
        args(false, Some("ux"), Some(CliCommand::List), &[]).into_run_mode(),
        Err(CliUsageError {
            kind: CliErrorKind::ArgumentConflict,
            message: "list cannot be combined with --channel or MESSAGE".to_string(),
        })
    );
    assert_eq!(
        args(false, Some("ux"), None, &[]).into_run_mode(),
        Err(CliUsageError {
            kind: CliErrorKind::MissingRequiredArgument,
            message: "MESSAGE is required when using CLI options".to_string(),
        })
    );
}

#[test]
fn one_word_message_is_kept_as_is() {
    assert_eq!(
        args(false, None, None, &["  spaced  "]).into_run_mode(),
        Ok(RunMode::Vent {
            message: "  spaced  ".to_string(),
            channel: None,
        })
    );
}
