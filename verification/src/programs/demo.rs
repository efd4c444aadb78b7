//! Built-in demo program.

use vstd::prelude::*;

use crate::fs::strings_view;

verus! {

pub open spec fn output() -> Seq<Seq<char>> {
    seq!["TuwaiqOS demo program"@, "Future ELF binaries will load here."@]
}

/// Output lines for the demo program.
pub fn run(_args: &str) -> (r: Result<Vec<String>, &'static str>)
    ensures
        r is Ok && strings_view(r->Ok_0@) == output(),
{
    let mut lines: Vec<String> = Vec::new();
    lines.push(String::from_str("TuwaiqOS demo program"));
    lines.push(String::from_str("Future ELF binaries will load here."));
    assert(strings_view(lines@) =~= output());
    Ok(lines)
}

} // verus!
