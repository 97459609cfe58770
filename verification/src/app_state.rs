//! The startup tips. Rendering them into a terminal box happens outside the
//! library.

use vstd::prelude::*;
use vstd::string::StringExecFns;

verus! {

/// The two startup tips, in order.
pub fn show_tips() -> (r: Vec<String>)
    ensures
        r@.len() == 2,
        r@[0]@ == "1) use [/h] to show available commands"@,
        r@[1]@ == "2) use [/v] to show version and check for updates"@,
{
    let mut tips: Vec<String> = Vec::new();
    tips.push(String::from_str("1) use [/h] to show available commands"));
    tips.push(String::from_str("2) use [/v] to show version and check for updates"));
    tips
}

} // verus!
