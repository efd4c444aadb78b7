//! Built-in hello program.

use vstd::prelude::*;

use crate::fs::strings_view;

verus! {

pub open spec fn output() -> Seq<Seq<char>> {
    seq!["Hello from TuwaiqOS!"@, "Program: hello (built-in)"@]
}

/// Output lines for the hello program (the shell prints them).
pub fn run(_args: &str) -> (r: Result<Vec<String>, &'static str>)
    ensures
        r is Ok && strings_view(r->Ok_0@) == output(),
{
    let mut lines: Vec<String> = Vec::new();
    lines.push(String::from_str("Hello from TuwaiqOS!"));
    lines.push(String::from_str("Program: hello (built-in)"));
    assert(strings_view(lines@) =~= output());
    Ok(lines)
}

} // verus!
