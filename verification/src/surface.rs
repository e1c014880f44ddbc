//! The tool surface the MCP server shows for a configuration: with only the
//! default channel there is nothing to choose, so channel listing and the
//! channel argument are hidden and the instructions do not mention them.

use vstd::prelude::*;

use crate::runtime::RuntimeConfig;

verus! {

/// Server instructions when channels can be listed.
pub const INSTRUCTIONS_WITH_CHANNELS: &'static str = "Use list_channels to inspect available feedback channels. Use vent when something in the workflow needs to be escalated upstream to a human as a complaint or feedback message. Summarize what you tried to achieve, where it failed, and what you expected. The server records only the project directory name, not the full working directory path.";

/// Server instructions when only the default channel exists.
pub const INSTRUCTIONS_DEFAULT_ONLY: &'static str = "Use vent when something in the workflow needs to be escalated upstream to a human as a complaint or feedback message. Summarize what you tried to achieve, where it failed, and what you expected. The server records only the project directory name, not the full working directory path.";

/// What the server exposes: whether `list_channels` is a tool, whether `vent`
/// takes a `channel` argument, and the instructions given to clients.
#[derive(Debug, PartialEq, Eq)]
pub struct ToolSurface {
    pub list_channels: bool,
    pub vent_takes_channel: bool,
    pub instructions: &'static str,
}

/// The tool surface for a configuration: channel listing and the channel
/// argument exactly when more than the default channel can be chosen, with
/// instructions that mention `list_channels` only when it is offered.
pub fn tool_surface(config: &RuntimeConfig) -> (r: ToolSurface)
    ensures
        r.list_channels == !(config.channel_configs().len() == 1 && config.channel_configs()[0].name@
            == config.default_channel_name()),
        r.vent_takes_channel == r.list_channels,
        r.list_channels ==> r.instructions@ == INSTRUCTIONS_WITH_CHANNELS@,
        !r.list_channels ==> r.instructions@ == INSTRUCTIONS_DEFAULT_ONLY@,
{
    let offered = !config.has_only_default_channel();
    ToolSurface {
        list_channels: offered,
        vent_takes_channel: offered,
        instructions: if offered {
            INSTRUCTIONS_WITH_CHANNELS
        } else {
            INSTRUCTIONS_DEFAULT_ONLY
        },
    }
}

} // verus!
