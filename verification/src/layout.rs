//! The size and alignment of a request.
use vstd::arithmetic::power2::is_pow2;
use vstd::prelude::*;

use crate::arith::is_power_of_two;

verus! {

/// The size and alignment a caller asks for.
#[derive(Clone, Copy, Debug, PartialEq, Eq, Structural)]
pub struct Layout {
    size: usize,
    align: usize,
}

/// The parameters given to [`Layout::from_size_align`] do not form a layout.
#[derive(Clone, Copy, Debug, PartialEq, Eq, Structural)]
pub struct LayoutError;

/// Which pairs form a layout: the alignment is a power of two and the size, rounded up to it,
/// stays within `isize::MAX`.
pub open spec fn valid_layout(size: int, align: int) -> bool {
    &&& is_pow2(align)
    &&& 0 <= size <= isize::MAX + 1 - align
}

impl Layout {
    pub closed spec fn spec_size(&self) -> usize {
        self.size
    }

    pub closed spec fn spec_align(&self) -> usize {
        self.align
    }

    /// The layout of `size` bytes aligned to `align`.
    pub closed spec fn of(size: usize, align: usize) -> Layout {
        Layout { size, align }
    }

    /// A layout is its size and its alignment.
    pub proof fn lemma_of(size: usize, align: usize)
        ensures
            Self::of(size, align).spec_size() == size,
            Self::of(size, align).spec_align() == align,
    {
    }

    /// The size and the alignment form a layout.
    pub open spec fn wf(&self) -> bool {
        valid_layout(self.spec_size() as int, self.spec_align() as int)
    }

    /// A layout of `size` bytes aligned to `align`.
    pub fn from_size_align(size: usize, align: usize) -> (r: Result<Layout, LayoutError>)
        ensures
            r is Ok <==> valid_layout(size as int, align as int),
            r is Ok ==> r->Ok_0 == Self::of(size, align) && r->Ok_0.spec_size() == size
                && r->Ok_0.spec_align() == align && r->Ok_0.wf(),
    {
        if !is_power_of_two(align) {
            return Err(LayoutError);
        }
        let cap: usize = isize::MAX as usize + 1;
        proof {
            crate::arith::lemma_pow2_positive(align as int);
        }
        if align > cap || size > cap - align {
            return Err(LayoutError);
        }
        Ok(Layout { size, align })
    }

    /// Bytes asked for.
    #[inline]
    #[verifier::when_used_as_spec(spec_size)]
    pub fn size(&self) -> (r: usize)
        ensures
            r == self.spec_size(),
    {
        self.size
    }

    /// Alignment asked for.
    #[inline]
    #[verifier::when_used_as_spec(spec_align)]
    pub fn align(&self) -> (r: usize)
        ensures
            r == self.spec_align(),
    {
        self.align
    }
}

} // verus!
