//! A bump allocator over a caller-described memory region.
//!
//! Decoded terms own their element vectors; the arena is the byte budget
//! that bounds how much memory one parse may claim.  Every compound term
//! claims its element cells (and one frame cell per nesting level that has
//! children) exactly as a bump allocator over the region would, so a parse
//! fails with [`EtfError::ArenaExhausted`] once the region is used up.

use vstd::prelude::*;

use crate::error::EtfError;
use crate::limits::Limits;

verus! {

/// Bytes one term cell claims in the arena.
pub const TERM_CELL: usize = 24;

/// Alignment of a term cell.
pub const TERM_ALIGN: usize = 8;

/// Bytes one key-value pair claims in the arena.
pub const PAIR_CELL: usize = 48;

/// Bytes one in-flight compound frame claims in the arena.
pub const FRAME_CELL: usize = 40;

/// Alignment of a frame cell.
pub const FRAME_ALIGN: usize = 8;

/// Alignment of the first cell of an arena (that of `max_align_t`).
pub const BASE_ALIGN: usize = 16;

/// Round `addr` up to the next multiple of `align`: the smallest `x >= addr`
/// with `x % align == 0`.
pub open spec fn spec_align_up(addr: int, align: int) -> int {
    if addr % align == 0 {
        addr
    } else {
        addr + (align - addr % align)
    }
}

/// The state of a bump allocator after claiming `count` cells of `size`
/// bytes aligned to `align`, starting from `ptr` in a region that ends at
/// `end`: the address of the claimed block and the new bump pointer, or
/// `None` when the region cannot hold it.
pub open spec fn spec_alloc(ptr: int, end: int, size: int, align: int, count: int) -> Option<(int, int)> {
    let total = size * count;
    let addr = spec_align_up(ptr, align);
    if total > usize::MAX {
        None
    } else if addr >= end {
        None
    } else if total > end - addr {
        None
    } else {
        Some((addr, addr + total))
    }
}

/// One past the last byte of the `len` bytes at `start`, cut off at the
/// end of the address space.
pub open spec fn region_end(start: int, len: int) -> int {
    if start + len <= usize::MAX {
        start + len
    } else {
        usize::MAX as int
    }
}

/// Where the first cell of the region at `start` goes: `start` rounded up
/// to [`BASE_ALIGN`], or the end of the region when that lies past it.
pub open spec fn region_first(start: int, len: int) -> int {
    if spec_align_up(start, BASE_ALIGN as int) <= region_end(start, len) {
        spec_align_up(start, BASE_ALIGN as int)
    } else {
        region_end(start, len)
    }
}

/// The memory region the arena of a parse describes: `len` bytes at
/// address `start`.
#[derive(Debug, Clone, Copy)]
pub struct ArenaRegion {
    /// The address of the first byte.
    pub start: usize,
    /// The number of bytes.
    pub len: usize,
}

/// Round `addr` up to the next multiple of `align`.
///
/// `align` must be non-zero, and `addr` must not be within `align - 1`
/// bytes of `usize::MAX`.
pub fn align_up(addr: usize, align: usize) -> (r: usize)
    requires
        align > 0,
        addr + align - 1 <= usize::MAX,
    ensures
        r == spec_align_up(addr as int, align as int),
        r % align == 0,
        addr <= r < addr + align,
{
    let misalignment = addr % align;
    let adj = if misalignment == 0 {
        0
    } else {
        align - misalignment
    };
    let r = addr + adj;
    assert(r % align == 0) by (nonlinear_arith)
        requires
            align > 0,
            misalignment == addr % align,
            adj == (if misalignment == 0 { 0 } else { align - misalignment }),
            r == addr + adj,
    {
    }
    r
}

/// A bump allocator over the region `[start, start + len)`.
///
/// The first cell is placed at the region's start rounded up to
/// [`BASE_ALIGN`]; every allocation is then aligned to its own alignment.
pub struct Bump {
    ptr: usize,
    end: usize,
    limits: Limits,
}

impl Bump {
    #[verifier::type_invariant]
    spec fn inv(self) -> bool {
        self.ptr <= self.end
    }

    /// The current bump pointer.
    pub closed spec fn ptr(self) -> nat {
        self.ptr as nat
    }

    /// One past the last byte of the region.
    pub closed spec fn end(self) -> nat {
        self.end as nat
    }

    /// The limits the arena was created with.
    pub closed spec fn spec_limits(self) -> Limits {
        self.limits
    }

    /// Create a bump allocator over the `len` bytes starting at address
    /// `start` (a region that would run past the end of the address space
    /// is cut off there).  The bump pointer starts at `start` rounded up to
    /// [`BASE_ALIGN`], or at the end of the region when that lies past it.
    pub fn new(start: usize, len: usize, limits: &Limits) -> (b: Bump)
        ensures
            b.end() == region_end(start as int, len as int),
            b.ptr() == region_first(start as int, len as int),
            b.spec_limits() == *limits,
    {
        let len = if len <= usize::MAX - start {
            len
        } else {
            usize::MAX - start
        };
        let end = start + len;
        let misalignment = start % BASE_ALIGN;
        let ptr = if misalignment == 0 {
            start
        } else if BASE_ALIGN - misalignment <= len {
            start + (BASE_ALIGN - misalignment)
        } else {
            end
        };
        Bump { ptr, end, limits: *limits }
    }

    /// Access the resource limits the arena was created with.
    pub fn limits(&self) -> (r: &Limits)
        ensures
            *r == self.spec_limits(),
    {
        &self.limits
    }

    /// Claim `count` cells of `size` bytes, aligned to `align`, and return
    /// the address of the claimed block.
    ///
    /// Fails with [`EtfError::ArenaExhausted`] (leaving the arena
    /// unchanged) when `size * count` overflows or the block does not fit
    /// between the aligned pointer and the end of the region; the aligned
    /// pointer must lie strictly before the end, even for an empty block.
    pub fn alloc_slice(&mut self, size: usize, align: usize, count: usize) -> (r: Result<
        usize,
        EtfError,
    >)
        requires
            align > 0,
        ensures
            final(self).end() == old(self).end(),
            final(self).spec_limits() == old(self).spec_limits(),
            match spec_alloc(old(self).ptr() as int, old(self).end() as int, size as int, align as int, count as int) {
                Some((addr, next)) => r == Ok::<usize, EtfError>(addr as usize) && final(self).ptr() == next,
                None => r == Err::<usize, EtfError>(EtfError::ArenaExhausted) && final(self).ptr() == old(self).ptr(),
            },
    {
        proof {
            use_type_invariant(&*self);
        }
        let total = match size.checked_mul(count) {
            Some(t) => t,
            None => return Err(EtfError::ArenaExhausted),
        };
        let misalignment = self.ptr % align;
        let adj = if misalignment == 0 {
            0
        } else {
            align - misalignment
        };
        if adj >= self.end - self.ptr {
            return Err(EtfError::ArenaExhausted);
        }
        let addr = self.ptr + adj;
        if total > self.end - addr {
            return Err(EtfError::ArenaExhausted);
        }
        self.ptr = addr + total;
        Ok(addr)
    }
}

} // verus!
