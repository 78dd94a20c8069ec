//! Shader uniform buffer interface.

use vstd::prelude::*;

verus! {

/// Trait for shader uniform buffers: types with a fixed binary size that
/// can append their binary representation to a byte vector.
///
/// Implementations live with the code that owns the concrete uniform
/// structs; the encoding itself is ABI-specific and left to them.
pub trait GenericUniforms {
    /// Binary size of the uniform buffer, in bytes.
    spec fn spec_size(&self) -> usize;

    /// Binary size of the uniform buffer, in bytes.
    fn size(&self) -> (n: usize)
        ensures
            n == self.spec_size(),
    ;

    /// Append exactly `size` bytes of binary representation.
    fn encode_to(&self, bytes: &mut Vec<u8>)
        ensures
            final(bytes)@.len() == old(bytes)@.len() + self.spec_size(),
    ;
}

} // verus!
