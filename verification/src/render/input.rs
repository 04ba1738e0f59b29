//! What the user typed.

use vstd::prelude::*;

use crate::text::{eq_ignore_ascii_case, same_ignoring_ascii_case, trim, trimmed};

verus! {

broadcast use vstd::string::group_string_axioms;

/// The prompt of the input line.
pub const PROMPT: &'static str = " >> ";

/// The line grants a permission: `y` in either case.
pub open spec fn grants(line: Seq<char>) -> bool {
    same_ignoring_ascii_case(trim(line), "y"@)
}

/// Whether the user grants a permission, by the line that was typed; without a line it is not granted.
pub fn permission_granted(line: Option<&str>) -> (r: bool)
    ensures
        r == match line {
            Some(l) => grants(l@),
            None => false,
        },
{
    match line {
        Some(l) => eq_ignore_ascii_case(trimmed(l).as_str(), "y"),
        None => false,
    }
}

} // verus!
