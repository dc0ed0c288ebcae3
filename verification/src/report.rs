//! What to tell the user of the answer to a check.

use vstd::prelude::*;
use vstd::string::StringExecFns;
use crate::solve::SolveError;

verus! {

/// The line that reports answer `answer` to a check of the package `name`.
pub open spec fn verdict_text(name: Seq<char>, answer: Result<bool, SolveError>) -> Seq<char> {
    match answer {
        Ok(true) => "Congratulations! Package "@ + name
            + "'s dependencies can be satisfied in the repo. :)"@,
        Ok(false) => "Sorry, package "@ + name
            + "'s dependencies can not be satisfied in the repo. :("@,
        Err(_) => "Error: something wrong happened while solving the dependency problem of package "@
            + name + "."@,
    }
}

/// The line that reports the answer to a check of the package `name`.
pub fn verdict_message(name: &str, answer: &Result<bool, SolveError>) -> (r: String)
    ensures
        r@ == verdict_text(name@, *answer),
{
    match answer {
        Ok(true) => "Congratulations! Package ".to_owned().concat(name).concat(
            "'s dependencies can be satisfied in the repo. :)",
        ),
        Ok(false) => "Sorry, package ".to_owned().concat(name).concat(
            "'s dependencies can not be satisfied in the repo. :(",
        ),
        Err(_) => "Error: something wrong happened while solving the dependency problem of package ".to_owned().concat(
            name,
        ).concat("."),
    }
}

} // verus!
