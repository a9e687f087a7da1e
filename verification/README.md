# SaveOwl

SaveOwl is a Windows tray application that gives arbitrary games Steam-Cloud-like
save handling: it notices when a game keeps the GPU busy, records which files the
game's processes write, takes content-addressed snapshots of them when the session
ends, and reconciles the snapshot history with an upstream folder that any file
synchronisation tool can carry between machines.

## Layout

- `src/` is the verified library (Verus):
  - `sync.rs`: the reconciliation rules between the local head, the upstream head
    and the head last seen, with their laws (conflicts are detected exactly when
    both sides moved; keeping both branches overwrites nothing; a finished
    reconciliation is stable).
  - `files.rs`: the file maps of snapshots, deletion markers, the size limit and
    the snapshot draft taken at the end of a session.
  - `watch.rs`: session start and end decisions from GPU samples.
  - `process.rs`: the process tree of a game.
  - `trace.rs`: following kernel file events to the touched save files.
  - `paths.rs`, `gpu.rs`: which paths can hold saves; process ids in counter names.
  - `ids.rs`, `digest.rs`, `text.rs`: id text, BLAKE3 blob names and game keys.
  - `icon.rs`: the tray icon's pixels.
- `app/` is the program around it: the tray, the Win32 GPU counters, the ETW file
  trace, the configuration file and the repository's file operations.
- `tests/` exercises the library.
