//! Built-in user programs shipped with TuwaiqOS.

pub mod demo;
pub mod hello;

use vstd::prelude::*;

use crate::text;

verus! {

/// What `run <name>` prints for each built-in program.
pub open spec fn program_output(name: Seq<char>) -> Option<Seq<Seq<char>>> {
    if name == "hello"@ {
        Some(hello::output())
    } else if name == "demo"@ {
        Some(demo::output())
    } else {
        None
    }
}

pub open spec fn dispatch_spec(name: Seq<char>) -> Result<Seq<Seq<char>>, &'static str> {
    match program_output(name) {
        Some(lines) => Ok(lines),
        None => Err("program not found"),
    }
}

/// Runs the built-in program `name`.
pub fn dispatch(name: &str, args: &str) -> (r: Result<Vec<String>, &'static str>)
    ensures
        crate::fs::result_strings(r) == dispatch_spec(name@),
{
    if text::str_eq(name, "hello") {
        hello::run(args)
    } else if text::str_eq(name, "demo") {
        demo::run(args)
    } else {
        Err("program not found")
    }
}

/// The names of the built-in programs.
pub fn names() -> (r: &'static [&'static str])
    ensures
        r@.len() == 2,
        r@[0]@ == "hello"@,
        r@[1]@ == "demo"@,
{
    &["hello", "demo"]
}

} // verus!
