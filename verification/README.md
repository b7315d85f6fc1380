# exfil

EXFIL keeps per-game colour presets for the display — gamma, brightness,
contrast and digital vibrance — and switches between them automatically
while bound programs run.

This crate is the verified core, written in Verus:

- `store` — the preset store: the read-only "Normal" baseline plus user
  presets with stable `p{n}` keys from a monotonic counter; adding,
  renaming, deleting, binding programs, exporting and importing.
- `scale` — the vendors' vibrance scales (the floating-point rescaling of
  a level between them lives in `app/`).
- `watcher` — the program picker list and the per-tick auto-switch state
  machine (most recent launch wins; revert to the manual pick), with its
  laws over whole sequences of polls.
- `commands` — the decisions behind the interface commands (select, edit,
  create, cycle, tray menu, URL check, start-up action).
- `gamma`, `vibrance`, `adl` — the neutral ramp and the meaning of driver
  answers, level fitting, output aggregation and AMD display admission.
- `text` — string helpers (trimming, case folding, decimal numerals) and
  their specifications.

`app/` is the Tauri application around it: the Windows GDI, NVAPI and ADL
calls, the store file, the enumeration of processes and windows, and the
shell.
