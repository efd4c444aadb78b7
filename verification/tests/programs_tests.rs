use kernel::ai_bridge::{self, BridgeMode, StubAiBridge};
use kernel::loader;
use kernel::memory;
use kernel::programs;

#[test]
fn run_hello() {
    assert_eq!(
        loader::run(" hello ", "").unwrap(),
        vec!["Hello from TuwaiqOS!".to_string(), "Program: hello (built-in)".to_string()]
    );
}

#[test]
fn run_demo() {
    assert_eq!(
        programs::dispatch("demo", "x").unwrap(),
        vec!["TuwaiqOS demo program".to_string(), "Future ELF binaries will load here.".to_string()]
    );
    assert_eq!(programs::demo::run("").unwrap().len(), 2);
    assert_eq!(programs::hello::run("").unwrap()[0], "Hello from TuwaiqOS!");
}

#[test]
fn unknown_program() {
    assert_eq!(loader::run("nope", "").err(), Some("program not found"));
    assert_eq!(programs::dispatch(" hello", "").err(), Some("program not found"));
}

#[test]
fn program_names() {
    assert_eq!(loader::program_names(), &["hello", "demo"]);
    assert_eq!(programs::names(), &["hello", "demo"]);
}

#[test]
fn ai_bridge_is_offline() {
    let bridge = ai_bridge::bridge();
    let status = bridge.status();
    assert!(!status.online);
    assert!(status.mode == BridgeMode::Stub);
    assert_eq!(status.phase, 8);
    assert_eq!(bridge.offline_notice(), "AI Bridge is not connected yet.");
    assert_eq!(bridge.help_lines(), ["AI commands:", "ask <question>", "ai status", "ai help"]);
}

#[test]
fn ai_ask_echoes_the_question() {
    let bridge = StubAiBridge::new();
    assert_eq!(
        bridge.ask("  what is rust?  "),
        "AI Bridge: offline\nQuestion: what is rust?\nHint: Real AI backend will be connected in Phase 9."
    );
    assert_eq!(
        bridge.ask(" \t "),
        "AI Bridge: offline\nQuestion: (empty)\nHint: Real AI backend will be connected in Phase 9."
    );
}

#[test]
fn memtest_needs_a_heap() {
    assert_eq!(memory::memtest(false).err(), Some("heap not initialized"));
    assert_eq!(memory::memtest(true), Ok(()));
    assert_eq!(memory::HEAP_SIZE, 1024 * 1024);
}
