pub mod canon;
pub mod crawler;
pub mod extract;

use vstd::prelude::*;

verus! {

/// A fixed greeting line.
pub fn greeting() -> (r: &'static str)
    ensures
        r@ == "I'm ready to start the course!"@,
{
    "I'm ready to start the course!"
}

} // verus!
