//! The greeting probe.

use vstd::prelude::*;
use vstd::string::StringExecFns;

verus! {

/// The text of the greeting for `name`: `Hello, {name}! Welcome!`.
pub open spec fn greeting_text(name: Seq<char>) -> Seq<char> {
    "Hello, "@ + name + "! Welcome!"@
}

/// Greets `name`.
pub fn greet(name: String) -> (greeting: String)
    ensures
        greeting@ == greeting_text(name@),
{
    let mut greeting = String::from_str("Hello, ");
    greeting.append(name.as_str());
    greeting.append("! Welcome!");
    greeting
}

} // verus!
