//! The command line's run-mode decision: a bare invocation serves MCP, real
//! CLI input is an explicit request, and ambiguous combinations are refused
//! with the kind of usage error the argument parser reports.

use vstd::prelude::*;
use vstd::string::StrSliceExecFns;
use vstd::string::StringExecFns;

use crate::config::{text2, text4};
use crate::text::{opt_text, same_text, texts};
use crate::types::{ListChannelsOutput, VentOutput};

verus! {

/// The subcommands.
#[derive(Debug, PartialEq, Eq)]
pub enum CliCommand {
    /// List configured vent channels.
    List,
}

/// The parsed command line: `--mcp`, `--channel`, an optional subcommand and
/// the message words.
#[derive(Debug, PartialEq, Eq)]
pub struct CliArgs {
    pub mcp: bool,
    pub channel: Option<String>,
    pub command: Option<CliCommand>,
    pub message: Vec<String>,
}

/// What the binary does.
#[derive(Debug, PartialEq, Eq)]
pub enum RunMode {
    Mcp,
    ListChannels,
    Vent { message: String, channel: Option<String> },
}

/// The kinds of usage error the CLI reports.
#[derive(Debug, PartialEq, Eq)]
pub enum CliErrorKind {
    ArgumentConflict,
    MissingRequiredArgument,
}

/// A refused command line, reported as a usage error of the given kind.
#[derive(Debug, PartialEq, Eq)]
pub struct CliUsageError {
    pub kind: CliErrorKind,
    pub message: String,
}

/// The words joined by single spaces (`join(" ")`).
pub open spec fn join_spaced(words: Seq<Seq<char>>) -> Seq<char>
    decreases words.len(),
{
    if words.len() == 0 {
        Seq::empty()
    } else if words.len() == 1 {
        words[0]
    } else {
        join_spaced(words.drop_last()) + seq![' '] + words.last()
    }
}

/// `r` is the usage error of kind `kind` with message `message`.
pub open spec fn is_usage_error(r: Result<RunMode, CliUsageError>, kind: CliErrorKind, message: Seq<char>) -> bool {
    r matches Err(e) && e.kind == kind && e.message@ == message
}

/// The words joined by single spaces.
fn join_words(words: &Vec<String>) -> (r: String)
    ensures
        r@ == join_spaced(texts(words@)),
{
    let mut out = String::new();
    let mut i: usize = 0;
    while i < words.len()
        invariant
            i <= words@.len(),
            out@ == join_spaced(texts(words@).take(i as int)),
        decreases words@.len() - i,
    {
        let ghost before = out@;
        if i > 0 {
            out.append(" ");
        }
        out.append(words[i].as_str());
        proof {
            reveal_strlit(" ");
            let w = texts(words@);
            assert(w.take(i + 1).drop_last() =~= w.take(i as int));
            assert(w.take(i + 1).last() == words@[i as int]@);
            if i == 0 {
                assert(out@ =~= w.take(1)[0]);
            } else {
                assert(out@ =~= before + seq![' '] + words@[i as int]@);
            }
        }
        i = i + 1;
    }
    assert(texts(words@).take(words@.len() as int) =~= texts(words@));
    out
}

impl CliArgs {
    /// Converts parsed flags and message words into the run mode. Without any
    /// CLI input the server runs; `--mcp` alone also runs it; `list` lists
    /// channels; message words send one vent. `--mcp` with anything else and
    /// `list` with `--channel` or words are conflicts; `--channel` without
    /// words lacks the required message.
    pub fn into_run_mode(self) -> (r: Result<RunMode, CliUsageError>)
        ensures
            ({
                let words = self.message@.len() > 0;
                let has_cli_args = self.mcp || self.channel is Some || self.command is Some || words;
                if !has_cli_args {
                    r == Ok::<RunMode, CliUsageError>(RunMode::Mcp)
                } else if self.mcp {
                    if self.channel is Some || self.command is Some || words {
                        is_usage_error(
                            r,
                            CliErrorKind::ArgumentConflict,
                            "--mcp cannot be combined with CLI arguments"@,
                        )
                    } else {
                        r == Ok::<RunMode, CliUsageError>(RunMode::Mcp)
                    }
                } else if self.command is Some {
                    if self.channel is Some || words {
                        is_usage_error(
                            r,
                            CliErrorKind::ArgumentConflict,
                            "list cannot be combined with --channel or MESSAGE"@,
                        )
                    } else {
                        r == Ok::<RunMode, CliUsageError>(RunMode::ListChannels)
                    }
                } else if !words {
                    is_usage_error(
                        r,
                        CliErrorKind::MissingRequiredArgument,
                        "MESSAGE is required when using CLI options"@,
                    )
                } else {
                    r matches Ok(RunMode::Vent { message, channel }) && message@ == join_spaced(
                        texts(self.message@),
                    ) && opt_text(channel) == opt_text(self.channel)
                }
            }),
    {
        let words = self.message.len() > 0;
        let has_cli_args = self.mcp || self.channel.is_some() || self.command.is_some() || words;
        if !has_cli_args {
            return Ok(RunMode::Mcp);
        }
        if self.mcp {
            if self.channel.is_some() || self.command.is_some() || words {
                return Err(
                    CliUsageError {
                        kind: CliErrorKind::ArgumentConflict,
                        message: "--mcp cannot be combined with CLI arguments".to_owned(),
                    },
                );
            }
            return Ok(RunMode::Mcp);
        }
        match self.command {
            Some(CliCommand::List) => {
                if self.channel.is_some() || words {
                    return Err(
                        CliUsageError {
                            kind: CliErrorKind::ArgumentConflict,
                            message: "list cannot be combined with --channel or MESSAGE".to_owned(),
                        },
                    );
                }
                Ok(RunMode::ListChannels)
            },
            None => {
                if !words {
                    return Err(
                        CliUsageError {
                            kind: CliErrorKind::MissingRequiredArgument,
                            message: "MESSAGE is required when using CLI options".to_owned(),
                        },
                    );
                }
                let message = join_words(&self.message);
                Ok(RunMode::Vent { message, channel: self.channel })
            },
        }
    }
}

/// The line the channel listing prints for one channel.
pub open spec fn channel_line(name: Seq<char>, description: Seq<char>, default_channel: Seq<char>) -> Seq<
    char,
> {
    if name == default_channel {
        name + " (default) - "@ + description
    } else {
        name + " - "@ + description
    }
}

/// The lines `list` prints: one per channel, in order, the default one marked.
pub fn channel_lines(output: &ListChannelsOutput) -> (r: Vec<String>)
    ensures
        r@.len() == output.channels@.len(),
        forall|k: int|
            0 <= k < r@.len() ==> (#[trigger] r@[k])@ == channel_line(
                output.channels@[k].name@,
                output.channels@[k].description@,
                output.default_channel@,
            ),
{
    let mut lines: Vec<String> = Vec::new();
    let mut k: usize = 0;
    while k < output.channels.len()
        invariant
            k <= output.channels@.len(),
            lines@.len() == k,
            forall|m: int|
                0 <= m < k ==> (#[trigger] lines@[m])@ == channel_line(
                    output.channels@[m].name@,
                    output.channels@[m].description@,
                    output.default_channel@,
                ),
        decreases output.channels@.len() - k,
    {
        let channel = &output.channels[k];
        let line = if same_text(channel.name.as_str(), output.default_channel.as_str()) {
            text4(channel.name.as_str(), " (default) - ", channel.description.as_str(), "")
        } else {
            text4(channel.name.as_str(), " - ", channel.description.as_str(), "")
        };
        proof {
            reveal_strlit("");
            assert(line@ =~= channel_line(channel.name@, channel.description@, output.default_channel@));
        }
        lines.push(line);
        k = k + 1;
    }
    lines
}

/// How a command-line vent ends: a line for standard output on success, or a
/// line for standard error and a non-zero exit status.
#[derive(Debug, PartialEq, Eq)]
pub enum VentReport {
    Sent { line: String },
    Failed { line: String, exit_code: u8 },
}

/// Reports a vent's acknowledgement: `vented <id> to <channel>` when it went
/// through; otherwise `Error: <message>` (`delivery failed` when there is no
/// message), with exit status 2 when no event was created and 1 when one was.
pub fn vent_report(output: &VentOutput) -> (r: VentReport)
    ensures
        output.ok ==> (r matches VentReport::Sent { line } && line@ == "vented "@ + output.event_id@
            + " to "@ + output.channel@),
        !output.ok ==> (r matches VentReport::Failed { line, exit_code } && line@ == "Error: "@
            + match output.error {
            Some(e) => e@,
            None => "delivery failed"@,
        } && exit_code == (if output.event_id@.len() == 0 {
            2u8
        } else {
            1u8
        })),
{
    if output.ok {
        return VentReport::Sent {
            line: text4("vented ", output.event_id.as_str(), " to ", output.channel.as_str()),
        };
    }
    let line = match &output.error {
        Some(e) => text2("Error: ", e.as_str()),
        None => text2("Error: ", "delivery failed"),
    };
    let exit_code: u8 = if output.event_id.as_str().unicode_len() == 0 {
        2
    } else {
        1
    };
    VentReport::Failed { line, exit_code }
}


/// The total length of the words.
pub open spec fn words_len(words: Seq<Seq<char>>) -> nat
    decreases words.len(),
{
    if words.len() == 0 {
        0
    } else {
        words_len(words.drop_last()) + words.last().len()
    }
}

/// Joining with single spaces: one word is itself, and two non-empty lists
/// joined together are each joined, with one space between.
pub proof fn lemma_join_spaced_append(a: Seq<Seq<char>>, b: Seq<Seq<char>>)
    requires
        a.len() > 0,
        b.len() > 0,
    ensures
        join_spaced(seq![a[0]]) == a[0],
        join_spaced(a + b) == join_spaced(a) + seq![' '] + join_spaced(b),
    decreases b.len(),
{
    if b.len() == 1 {
        assert((a + b).drop_last() =~= a);
    } else {
        let b0 = b.drop_last();
        lemma_join_spaced_append(a, b0);
        assert((a + b).drop_last() =~= a + b0);
        assert((a + b).last() == b.last());
        assert(join_spaced(a + b) =~= join_spaced(a) + seq![' '] + join_spaced(b));
    }
}

/// The joined text is as long as all the words plus one space between each two.
pub proof fn lemma_join_spaced_len(words: Seq<Seq<char>>)
    requires
        words.len() > 0,
    ensures
        join_spaced(words).len() == words_len(words) + words.len() - 1,
    decreases words.len(),
{
    if words.len() == 1 {
        assert(words.drop_last().len() == 0);
        assert(words_len(words.drop_last()) == 0);
        assert(words.last() == words[0]);
    } else {
        lemma_join_spaced_len(words.drop_last());
        assert(join_spaced(words) == join_spaced(words.drop_last()) + seq![' '] + words.last());
    }
}
} // verus!
