//! Answer strings for yes/no questions.
//!
//! Each helper picks one of two answer strings from a flag; printing the
//! chosen string is left to the caller.

use vstd::prelude::*;

verus! {

/// Picks the answer to a polar (yes/no) question: `yes` when the flag
/// holds, `no` otherwise.
pub fn polar_question(flag: bool, yes: String, no: String) -> (r: String)
    ensures
        r@ == if flag {
            yes@
        } else {
            no@
        },
{
    if flag {
        yes
    } else {
        no
    }
}

/// Answers with `"yes"` or `"no"`.
pub fn yn(flag: bool) -> (r: String)
    ensures
        r@ == if flag {
            "yes"@
        } else {
            "no"@
        },
{
    polar_question(flag, "yes".to_owned(), "no".to_owned())
}

/// Answers with `"Yes"` or `"No"`.
#[allow(non_snake_case)]
pub fn Yn(flag: bool) -> (r: String)
    ensures
        r@ == if flag {
            "Yes"@
        } else {
            "No"@
        },
{
    polar_question(flag, "Yes".to_owned(), "No".to_owned())
}

/// Answers with `"YES"` or `"NO"`.
#[allow(non_snake_case)]
pub fn YN(flag: bool) -> (r: String)
    ensures
        r@ == if flag {
            "YES"@
        } else {
            "NO"@
        },
{
    polar_question(flag, "YES".to_owned(), "NO".to_owned())
}

} // verus!
