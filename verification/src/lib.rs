//! TuwaiqOS kernel logic: the filesystem and its on-disk format, the task
//! table, loopback networking, built-in programs and applications, and the
//! keyboard decoder.  Hardware access lives outside this crate: callers
//! perform the sector reads and writes, port I/O and console output.

pub mod text;
pub mod tuwaiqfs;
pub mod fs;
pub mod task;
pub mod net;
pub mod ai_bridge;
pub mod loader;
pub mod programs;
pub mod apps;
pub mod keyboard;
pub mod memory;
