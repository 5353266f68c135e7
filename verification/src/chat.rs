//! The fixed system prompt chosen for each interaction mode.

use vstd::prelude::*;

use crate::text::str_eq;

verus! {

/// Returns the system prompt for the named mode; unrecognised modes get
/// the plain assistant prompt.
pub fn system_prompt(mode: &str) -> (r: String)
    ensures
        mode@ == "agent"@ ==> r@
            == "You act as a technical assistant who proposes steps and commands for solving development tasks."@,
        mode@ != "agent"@ && mode@ == "ide"@ ==> r@
            == "You help develop and improve code, proposing changes and explanations."@,
        mode@ != "agent"@ && mode@ != "ide"@ ==> r@
            == "You are a friendly assistant who answers briefly and to the point."@,
{
    if str_eq(mode, "agent") {
        String::from_str(
            "You act as a technical assistant who proposes steps and commands for solving development tasks.",
        )
    } else if str_eq(mode, "ide") {
        String::from_str("You help develop and improve code, proposing changes and explanations.")
    } else {
        String::from_str("You are a friendly assistant who answers briefly and to the point.")
    }
}

} // verus!
