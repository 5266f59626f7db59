# renzora_plugins

The decisions behind a handful of Renzora editor plugins, written in Verus
and proved against their contracts.

- `src/polyhaven` — the Poly Haven asset browser: URLs, catalogue order,
  search, paging, which files an asset's download fetches (and that every one
  of them lands inside its folder), and how worker results fold into the
  panel's state.
- `src/terminal` — the terminal panel: key encoding, answers to the shell's
  status queries, the tab list and its invariants, selections, pastes, and
  turning one row of the emulator's grid into styled runs with a hash.
- `src/tracy` — which diagnostic group a path belongs to, the group enables,
  and the flat config file, with a proof that what is written reads back.
- `src/water`, `src/wind` — the FFT size a map size lands on, per-cascade
  spectrum seeds, which compute stages a frame dispatches (and that the
  twiddle table is built once), the grid mesh's vertex lattice and index
  buffer, and the wind's script actions.
- `src/text` — string helpers shared by all of the above, and the few trusted
  wrappers around `std` string functions.

`app/` is ordinary Rust around the library: JSON parsing with serde, the
catalogue cache and downloads, the shell's pty, the vt100 emulator, and the
Tracy client. `tests/` runs the library on concrete values.
