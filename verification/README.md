# TuwaiqOS kernel logic, verified

The logic of the TuwaiqOS v0.5 kernel, written in Verus: every function in
`src/` carries a contract that Verus proves, except the seven `str`
wrappers of `src/text.rs`, whose contracts restate what std documents and
are trusted.

- `src/tuwaiqfs.rs` — the TuwaiqFS v2 disk format: superblock and metadata
  region images, tree serialization and parsing, mount and format.
  `src/tuwaiqfs/roundtrip.rs` proves that a tree within the path, file and
  metadata limits syncs, and that what a sync writes mounts back as the
  same tree.
- `src/fs.rs` — the in-memory filesystem behind the shell commands (`ls`,
  `touch`, `mkdir`, `write`, `cat`, paths, completion), with the laws in
  `src/fs/laws.rs` (a write is read back, a created name is listed, writes
  survive a remount, every operation keeps the tree well formed).
- `src/task.rs` — the cooperative task table (`ps`, `kill`, scheduler tick).
- `src/net/` — the network driver interface, the loopback driver and `ping`.
- `src/keyboard.rs` — PS/2 scancode decoding with Shift tracking.
- `src/apps/`, `src/programs/`, `src/loader.rs`, `src/ai_bridge.rs`,
  `src/memory.rs` — the notes app, built-in programs, the AI bridge stub and
  the heap self-test.
- `src/text.rs` — the few `str` operations of std the rest relies on, each
  behind a trusted contract, and the laws of trimming.

`app/` is the unverified rest: heap allocator, GDT/TSS, serial console,
keyboard port polling, the disk as 512-byte sectors of an image file, and a
line shell that drives the library. `tests/` runs the library on concrete
values.
