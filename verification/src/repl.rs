use vstd::prelude::*;

use crate::text::push_str;

verus! {

/// The greeting of the interactive prompt.
pub open spec fn welcome_text(name: Seq<char>, version: Seq<char>, authors: Seq<char>) -> Seq<char> {
    "Welcome to "@ + name + " version "@ + version + " by "@ + authors + "\nUse "@ + "^D"@ + " to quit"@
}

/// The greeting of the interactive prompt, for the program `name` at
/// `version` by `authors`.
pub fn welcome_message(name: &str, version: &str, authors: &str) -> (m: String)
    ensures
        m@ == welcome_text(name@, version@, authors@),
{
    let quit = "^D";
    let mut m = String::new();
    push_str(&mut m, "Welcome to ");
    push_str(&mut m, name);
    push_str(&mut m, " version ");
    push_str(&mut m, version);
    push_str(&mut m, " by ");
    push_str(&mut m, authors);
    push_str(&mut m, "\nUse ");
    push_str(&mut m, quit);
    push_str(&mut m, " to quit");
    m
}

} // verus!
