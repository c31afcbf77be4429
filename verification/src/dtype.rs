//! Element-type descriptor.
//!
//! The layer never inspects element bits itself: all it ever reads of an
//! element type is its identity (two tensors must agree on it) and its width
//! in bytes (the starting granule of a copy plan). Both are held as plain
//! values, so a backend can translate its own dtype registry into and out of
//! this descriptor at the boundary.

use vstd::prelude::*;

verus! {

/// An element type, reduced to what the execution layer reads of it: an
/// identifying tag and the byte width of one element.
#[derive(Clone, Copy, PartialEq, Eq, Structural, Debug)]
pub struct Dtype {
    /// Backend-assigned identifying tag; two dtypes are the same element type
    /// exactly when their tags and widths agree.
    pub code: u64,
    /// Width of one element in bytes.
    pub size: usize,
}

impl Dtype {
    /// Builds a descriptor from a tag and a byte width.
    pub fn new(code: u64, size: usize) -> (r: Dtype)
        ensures
            r == (Dtype { code, size }),
    {
        Dtype { code, size }
    }

    /// Width of one element in bytes.
    pub fn nbytes(&self) -> (r: usize)
        ensures
            r == self.size,
    {
        self.size
    }

    /// Half-precision float, 2 bytes.
    pub open spec fn spec_half() -> Dtype {
        Dtype { code: 1, size: 2 }
    }

    /// Half-precision float, 2 bytes.
    pub fn half() -> (r: Dtype)
        ensures
            r == Dtype::spec_half(),
    {
        Dtype { code: 1, size: 2 }
    }

    /// Single-precision float, 4 bytes.
    pub open spec fn spec_single() -> Dtype {
        Dtype { code: 2, size: 4 }
    }

    /// Single-precision float, 4 bytes.
    pub fn single() -> (r: Dtype)
        ensures
            r == Dtype::spec_single(),
    {
        Dtype { code: 2, size: 4 }
    }

    /// Double-precision float, 8 bytes.
    pub open spec fn spec_double() -> Dtype {
        Dtype { code: 3, size: 8 }
    }

    /// Double-precision float, 8 bytes.
    pub fn double() -> (r: Dtype)
        ensures
            r == Dtype::spec_double(),
    {
        Dtype { code: 3, size: 8 }
    }

    /// Unsigned 32-bit integer, 4 bytes.
    pub open spec fn spec_u32() -> Dtype {
        Dtype { code: 4, size: 4 }
    }

    /// Unsigned 32-bit integer, 4 bytes.
    pub fn u32() -> (r: Dtype)
        ensures
            r == Dtype::spec_u32(),
    {
        Dtype { code: 4, size: 4 }
    }
}

} // verus!
