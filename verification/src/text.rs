//! Text building blocks.
use vstd::prelude::*;

verus! {

/// `String::push` appends the character to the end of the string (std
/// documentation: "Appends the given char to the end of this String").
pub assume_specification[ String::push ](s: &mut String, ch: char)
    ensures
        final(s)@ == old(s)@.push(ch),
;

} // verus!
