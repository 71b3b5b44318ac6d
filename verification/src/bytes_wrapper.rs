//! A comparable, hashable wrapper around a borrowed byte buffer.

use vstd::prelude::*;

verus! {

/// Wraps a borrowed byte slice so a buffer can be compared, ordered and
/// hashed under one name.
#[derive(Debug, PartialEq, Eq, PartialOrd, Ord, Hash, Clone, Copy)]
pub struct BytesWrapper<'a> {
    pub bytes: &'a [u8],
}

impl<'a> BytesWrapper<'a> {
    /// The wrapped bytes.
    pub fn as_bytes(&self) -> (r: &'a [u8])
        ensures
            r@ == self.bytes@,
    {
        self.bytes
    }
}

} // verus!
