//! What can be written out as bytes.

use vstd::prelude::*;

verus! {

/// A part of a blob: a value with one encoding in bytes.
pub trait Encode {
    /// The bytes that the value is written as.
    spec fn encoding(&self) -> Seq<u8>;

    /// Appends the encoding of the value to `w`.
    fn encode(&self, w: &mut Vec<u8>)
        ensures
            final(w)@ == old(w)@ + self.encoding(),
    ;
}

} // verus!
