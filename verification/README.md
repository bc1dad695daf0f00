# process_display_helper

A Windows tray helper that watches processes and applies monitor layout rules:
when a watched process starts, the display layout of its `[[watch]]` entry is
applied (primary monitor, resolution, refresh rate, orientation, window
placement); when the last watched process exits, the previous display state can
be restored. Among several active watched processes the one with the highest
priority holds display control, the newest one among equals.

## Layout

- `src/` — the verified library (Verus):
  - `config.rs` — the configuration model, its validation, and the rewrite of
    the `run_on_startup` line in `config.toml`;
  - `watcher.rs` — which watched processes are active, who holds display
    control, and what the display must do on each event (start, exit,
    configuration reload), as a state machine whose actions the caller carries
    out;
  - `monitor.rs`, `orientation.rs` — monitors, display snapshots, and the plans
    for switching the primary monitor, setting modes and restoring a snapshot;
  - `process_event.rs` — process events and the Windows file-name rules by which
    process names are matched;
  - `window_move.rs` — where a moved window lands on its new monitor;
  - `startup.rs` — the scheduled-task and registry commands for running at
    log-on, and the steps of toggling that setting;
  - `log_rotation.rs` — when the log writer starts a new file;
  - `wide.rs`, `text.rs` — UTF-16 and line/white-space handling.
- `app/` — the program around the library: the Win32 display and window calls,
  the ETW process listener, the tray icon and menu, file I/O, serde mapping of
  `config.toml`, and logging.
- `tests/` — tests of the library.
