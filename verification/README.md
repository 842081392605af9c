# rage

Local shell secrets kept in Infisical bundles, cached on disk under age
encryption, and exported into shells, child processes and SSH sessions; plus
refreshed auth records for the Grok and Codex command-line tools.

## Layout

- `src/` — the library, verified with Verus:
  - `text`, `env`, `validate`: strings, bundles (sorted maps of variables),
    variable-name rules.
  - `render`: dotenv, JSON, shell exports, the SSH script.
  - `clock`: civil dates and ISO-8601 timestamps.
  - `remote`: folders, listings and the requests that write a bundle.
  - `cache`: identity files, cache file names, sealing and opening the cache.
  - `config`: the configuration file, `init`, keychain and project rules.
  - `agent`: agent auth records — import, freshness, refresh, redaction.
  - `tui`: the terminal UI's state machine and pane contents.
  - `outside`: the trusted contracts of the calls into base64, serde_json,
    dotenvy, age, bech32 and x25519-dalek.
- `app/` — the `rage` program: command line, files, HTTP, processes and the
  terminal, around the library.
- `tests/` — tests of the library.
