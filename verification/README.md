# roster

The core of roster, a terminal multiplexer for coding agents, as a library
whose behaviour is stated in contracts and proved with Verus.

- `src/` is the verified library: the session model (windows, split
  layouts, focus, snapshots that restore a session's shape), attention
  triage, the agent detector (configuration, identification, screen
  classification, debouncing), the destructive-command guard, the
  client/server frame protocol, and the geometry and row plans behind the
  terminal UI (chrome, sidebar, hit-testing, dialogs, launcher, hotkey bar).
  Laws that span several functions are public proof functions next to the
  code they speak of (`lemma_*`).
- `tests/` runs the library on concrete scenarios.
- `app/` is the ordinary Rust around it: reading `agents.toml` and the
  statusline feed with serde, the pseudo-terminal, the terminal emulator,
  float-valued telemetry, and drawing with ratatui.
