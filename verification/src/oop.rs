//! A tiny standalone helper kept for its callers and tests.

use vstd::prelude::*;
use vstd::string::StringExecFns;

verus! {

pub fn foosen() -> (r: String)
    ensures
        r@ == "foosen"@,
{
    String::from_str("foosen")
}

} // verus!
