# vent-mcp

`vent` gives agents a non-destructive place to send actionable feedback: an MCP
STDIO server with a `vent` tool (and `list_channels` when there is a choice),
and the same sender on the command line. Vents are routed by channel to JSONL
logs and webhooks; webhook bodies can be reshaped by provider maps.

## Layout

- `src/` is the library, verified with Verus. Its functions carry contracts
  over mathematical models (`Seq`, `Json`, `TemplateModel`, ...); the few
  calls into outside crates sit behind small trusted wrappers whose contracts
  say only what those crates document.
  - `config`, `defaults`, `validate`: the configuration model, the built-in
    defaults and the validation policy (`AppConfig::validate` reports exactly
    the first failing check).
  - `runtime`: config path resolution, bootstrap decisions and the validated
    `RuntimeConfig` that routing uses.
  - `provider`, `json`: output paths, provider compilation and payload rendering.
  - `delivery`, `sinks`, `redaction`: request policy, sink selection, webhook
    request preparation, error messages and secret redaction.
  - `cli`, `surface`: the command line's run mode and reports, and the MCP tool
    surface for a configuration.
  - `types`, `text`: event records, ids and text helpers.
- `app/` is the binary: argument parsing, TOML reading and writing, the MCP
  server, JSONL writes and webhook posts. It hands the library plain values and
  acts on the decisions the library returns.
- `tests/` runs the library on concrete values.

## Proved properties

Besides the contracts of each function, the library proves:

- a configuration validates exactly when all of its conditions hold
  (`validate::lemma_validation_conditions`), and a valid one is coherent: the
  default channel exists, names are distinct, every route resolves, each
  channel has at most one JSONL sink, and every provider map compiles
  (`validate::lemma_valid_config_is_coherent`);
- the built-in configuration written on first run validates
  (`defaults::lemma_default_config_is_valid`);
- a provider map compiles exactly when its conditions hold: event fields named
  once, paths that parse, and no two paths equal, nested, needing an array and
  an object at one place, or running beneath a generated label
  (`provider::lemma_compile_conditions`);
- the canonical form of an output path parses back to the same path
  (`provider::lemma_canonical_path_round_trip`);
- a provider map that compiles renders every event, and every mapped value is
  found at its path (`provider::lemma_compiled_provider_renders_every_field`);
- an error preview never shows a listed secret that holds no whitespace, `.`,
  `[` or `]` and is not part of `[redacted]` (`redaction::lemma_preview_hides_secret`);
- an error preview is at most 512 characters and `...`, holds no whitespace but
  single spaces between words, and ends in `...` exactly when it was cut
  (`redaction::lemma_preview_shape`).
