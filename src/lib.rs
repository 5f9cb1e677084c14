// A per-thread object allocator and the structures it is built from: ring
// buffers with per-cell publication flags, a stack of ring-buffer nodes, a
// single-owner buffered stack, a registry of thread ids and per-thread
// values, and the allocator state machine with proofs that the objects it
// hands out are never handed out twice.
use vstd::prelude::*;

pub mod ring_buffer;
pub mod stack;
pub mod tl_buffer;
pub mod thread_local;
pub mod obj_alloc;
pub mod distinct;

verus! {

/// `a` is a non-zero power of two.
pub open spec fn is_pow2(a: usize) -> bool {
    a != 0 && a & ((a - 1) as usize) == 0
}

/// `v` is a multiple of the power of two `align`.
pub open spec fn aligned_to(v: usize, align: usize) -> bool {
    v & ((align - 1) as usize) == 0
}

/// Padding that brings `len` up to a multiple of the power of two `align`:
/// the unique `r < align` with `len + r` aligned. Other alignments give an
/// unspecified value; the arithmetic wraps.
pub fn align_padding(len: usize, align: usize) -> (r: usize)
    ensures
        is_pow2(align) && len as int + align as int - 1 <= usize::MAX as int ==> {
            &&& r < align
            &&& aligned_to((len + r) as usize, align)
        },
{
    let m = align.wrapping_sub(1);
    let len_rounded_up = len.wrapping_add(align).wrapping_sub(1) & !m;
    let r = len_rounded_up.wrapping_sub(len);
    proof {
        if is_pow2(align) && len as int + align as int - 1 <= usize::MAX as int {
            let x = (len + m) as usize;
            assert(len_rounded_up == x & !m);
            let y = x & !m;
            assert(y <= x && x - y <= m && y & m == 0) by (bit_vector)
                requires
                    y == x & !m,
            ;
            assert(y >= len);
            assert(r == y - len);
        }
    }
    r
}

} // verus!
