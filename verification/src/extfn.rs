//! Opaque handle around a code address captured from the buffer.
//!
//! Turning the address into a callable function pointer is inherently
//! unverifiable (the caller asserts that the bytes pushed afterwards form a
//! valid function body); those casts live outside the library, which only
//! vouches for which address the handle carries.

use vstd::prelude::*;

verus! {

/// A captured entry point: the address of the trailing loop at the moment
/// `start_func` was called.
pub struct ExtFn {
    pub ptr: usize,
}

impl ExtFn {
    /// The raw code address this handle wraps.
    pub fn addr(&self) -> (r: usize)
        ensures
            r == self.ptr,
    {
        self.ptr
    }
}

} // verus!
