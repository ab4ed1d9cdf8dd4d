//! Conversions between strings and their character sequences.
//!
//! The log, the codec and the index work on `Vec<char>`, whose view is the
//! same `Seq<char>` as a string's; these two functions carry values across.

use vstd::prelude::*;

verus! {

/// Relies on str::chars: iterating a string yields exactly its characters,
/// in order.
#[verifier::external_body]
pub fn str_to_chars(s: &str) -> (r: Vec<char>)
    ensures
        r@ == s@,
{
    s.chars().collect()
}

/// Relies on String::from_iter (via Iterator::collect): collecting
/// characters builds the string of exactly those characters, in order.
#[verifier::external_body]
pub fn chars_to_string(v: &Vec<char>) -> (r: String)
    ensures
        r@ == v@,
{
    v.iter().collect()
}

} // verus!
