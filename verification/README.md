# ansisnap

Snapshot testing for command-line and TUI output through a built-in
terminal emulator: a command's output is replayed on a fixed-size cell grid,
and the rendered screen (text, style spans, exit code, stripped stderr) is
stored as a reviewable `.snap` text file and compared screen to screen.

The library in `src/` is written in Verus; every function carries a
contract over a mathematical model and is proved against it.

- `parser` — incremental escape-sequence parser; its effect is
  `run_spec`, and feeding input in pieces is proved equal to feeding it
  whole.
- `style` — SGR handling and the display form of colors and styles;
  `style/roundtrip.rs` proves that display forms read back.
- `screen` — the emulator, specified by `apply_spec` on `TermView`.
- `snapshot` — frames, the `.snap` format and its reader;
  `snapshot/roundtrip.rs` proves that a snapshot's text reads back as the
  snapshot, and that decoding an encoded command gives it back.
- `differ` — frame and snapshot comparison and the failure report; an empty
  comparison is proved to mean equal frames.
- `runner`, `cli` — stderr reduction, option parsing, name validation and
  building a snapshot from a finished run.
- `text` — character-sequence helpers and the few std text functions used.

`app/` is the `ansisnap` program around the library: argument handling,
running the child process, files and terminal output.
