# umbriel-vram-booster

Keeps the focused window's VRAM from being evicted on the Umbriel compositor. A
systemd `--user` daemon follows Umbriel's IPC socket and, through the Linux dmem
cgroup controller, protects most of the VRAM for the active window's unit, taking
the protection back from the window focused before. It also protects
`session.slice`, where the compositor usually runs, and can put a ceiling on
`app.slice`.

What the daemon decides is a library, verified with Verus; what it reads and
writes is ordinary Rust around it.

- `src/` is the library. Where decisions and I/O take turns, the library holds up
  its end of a conversation: it names what it needs (`next`, or the request that
  an operation returns), and takes the answer (`answer`, `resume`).
  - `dmem`, `scope`, `units`, `tree`: dmem files, cgroup paths, the units under
    `app.slice`.
  - `pid_search`, `matcher`, `app_search`, `focus`, `resolve`: from a window to
    its unit.
  - `booster`, `slices`, `sweep`: the boost, the values kept on the slices, and
    the boosts that a killed daemon left behind.
  - `umbriel`, `json`, `tracker`, `sockets`, `follower`: Umbriel's stream and what
    each snapshot is worth.
  - `display`, `status`: the log and the control program.
  - `text`, `bytes`, `seqs`: texts, bytes and sequences.
  - The modules that end in `_laws`, and the public proof functions elsewhere,
    state what holds of the library as a whole.
- `tests/` runs the library.
- `app/` is the daemon and the control program.

Four outside calls are trusted rather than proved: `String::push`,
`String::from_utf8_lossy`, `std::str::from_utf8`, and reading JSON with
`serde_json`.
