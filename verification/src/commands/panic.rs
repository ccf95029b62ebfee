//! panic - a command that fails on purpose
use vstd::prelude::*;
use crate::text::{join, join_strings, strs};

verus! {

/// The message of `panic [message]`.
pub fn message(argv: &Vec<String>) -> (r: String)
    ensures
        r@ == if argv@.len() > 1 {
            join(strs(argv@).skip(1), " "@)
        } else {
            "test panic"@
        },
{
    if argv.len() > 1 {
        join_strings(argv, 1, " ")
    } else {
        "test panic".to_owned()
    }
}

} // verus!
