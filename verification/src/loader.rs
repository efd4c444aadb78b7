//! Program loader: the registry of built-in applications, kept apart from
//! the shell so that an ELF loader can replace it later.

use vstd::prelude::*;

use crate::programs;
use crate::text;

verus! {

/// Runs a built-in program by name and returns its output lines.
pub fn run(name: &str, args: &str) -> (r: Result<Vec<String>, &'static str>)
    ensures
        crate::fs::result_strings(r) == programs::dispatch_spec(text::trim_spec(name@)),
{
    programs::dispatch(text::trim(name), text::trim(args))
}

/// Names available for tab completion.
pub fn program_names() -> (r: &'static [&'static str])
    ensures
        r@.len() == 2,
        r@[0]@ == "hello"@,
        r@[1]@ == "demo"@,
{
    programs::names()
}

} // verus!
