# thronglets

The verified core of Thronglets, a shared-memory substrate for AI agents:
signed traces, node identities, the network status, the workspace memory,
the learning view of a space, signal posts and the field tail.

- `src/` is the library, written in Verus. Every function carries a contract
  and is proved against it. Calls into `sha2`, `ed25519-dalek`, `bech32`,
  `rand` and `chrono` go through small trusted wrappers in `src/crypto.rs`
  and `src/clock.rs`, whose contracts name what the outside crate computes.
- `tests/` runs the library on concrete values.
- `app/` is the `thronglets` command: it reads and writes the state files
  and the agent configuration files, and hands their text to the library,
  which parses it (through `serde_json` and `toml`), decides the update and
  renders the new text.
  Agent hooks are installed into the settings file given with
  `--hook-settings`; the OpenClaw plugin files are read from the directory
  given with `--openclaw-assets`.
