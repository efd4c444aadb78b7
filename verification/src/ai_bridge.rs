//! AI bridge abstraction layer.
//!
//! Shell commands call into this module instead of talking to a network
//! API.  The stub formats helpful offline responses, so the shell stays
//! unchanged when a real backend is wired in.

use vstd::prelude::*;

use crate::text;

verus! {

/// Current bridge operating mode.
#[derive(Clone, Copy, Debug, PartialEq, Eq, Structural)]
pub enum BridgeMode {
    Stub,
}

/// Lightweight status snapshot for `ai status`.
pub struct BridgeStatus {
    pub online: bool,
    pub mode: BridgeMode,
    pub phase: u8,
}

/// The offline stub: no network, no model, no API keys.
pub struct StubAiBridge;

/// The answer to `ask`: the trimmed question, or `(empty)` in its place.
pub open spec fn ask_spec(question: Seq<char>) -> Seq<char> {
    let trimmed = text::trim_spec(question);
    let display = if trimmed.len() == 0 {
        "(empty)"@
    } else {
        trimmed
    };
    "AI Bridge: offline\nQuestion: "@ + display + "\nHint: Real AI backend will be connected in Phase 9."@
}

impl StubAiBridge {
    pub fn new() -> (r: Self) {
        StubAiBridge
    }

    pub fn status(&self) -> (r: BridgeStatus)
        ensures
            !r.online,
            r.mode == BridgeMode::Stub,
            r.phase == 8,
    {
        BridgeStatus { online: false, mode: BridgeMode::Stub, phase: 8 }
    }

    /// Multi-line response for `ask <question>`.
    pub fn ask(&self, question: &str) -> (r: String)
        ensures
            r@ == ask_spec(question@),
    {
        let trimmed = text::trim(question);
        let display = if trimmed.is_empty() {
            "(empty)"
        } else {
            trimmed
        };
        let mut response = String::from_str("AI Bridge: offline\nQuestion: ");
        response.append(display);
        response.append("\nHint: Real AI backend will be connected in Phase 9.");
        response
    }

    /// Lines printed by `ai help`.
    pub fn help_lines(&self) -> (r: [&'static str; 4])
        ensures
            r[0]@ == "AI commands:"@,
            r[1]@ == "ask <question>"@,
            r[2]@ == "ai status"@,
            r[3]@ == "ai help"@,
    {
        ["AI commands:", "ask <question>", "ai status", "ai help"]
    }

    /// Short message for the bare `ai` command.
    pub fn offline_notice(&self) -> (r: &'static str)
        ensures
            r@ == "AI Bridge is not connected yet."@,
    {
        "AI Bridge is not connected yet."
    }
}

/// The shell's bridge.
pub fn bridge() -> (r: StubAiBridge) {
    StubAiBridge::new()
}

} // verus!
