//! Sizes that shape the region, and the rounding every allocation goes through.

use vstd::prelude::*;
use vstd::arithmetic::div_mod::{lemma_fundamental_div_mod, lemma_fundamental_div_mod_converse};

verus! {

/// The quantum by which the region grows.
pub const PAGE_SIZE: usize = 65536;

/// Bytes reserved in front of every payload of the free-list allocator.
pub const HEADER_SIZE: usize = 16;

/// The least payload that a block split off another must be able to hold.
pub const MIN_SPLIT_PAYLOAD: usize = 8;

/// Requests above this many bytes are rounded to cache lines.
pub const LARGE_REQUEST: usize = 1024;

/// Rounding of requests above `LARGE_REQUEST`.
pub const CACHE_LINE: usize = 64;

/// Rounding of every other free-list request.
pub const WORD: usize = 8;

/// The least multiple of `align` that is not below `size`.
pub open spec fn align_up(size: int, align: int) -> int {
    ((size + align - 1) / align) * align
}

/// `align_up` is the least multiple of the alignment at or above the size.
pub proof fn lemma_align_up(size: int, align: int)
    requires
        0 <= size,
        0 < align,
    ensures
        size <= align_up(size, align) < size + align,
        align_up(size, align) % align == 0,
        size % align == 0 ==> align_up(size, align) == size,
        size % align != 0 ==> align_up(size, align) == size + align - size % align,
{
    let q = size / align;
    let r = size % align;
    lemma_fundamental_div_mod(size, align);
    assert(size == align * q + r);
    if r == 0 {
        assert(size + align - 1 == q * align + (align - 1)) by (nonlinear_arith)
            requires
                size == align * q,
        ;
        lemma_fundamental_div_mod_converse(size + align - 1, align, q, align - 1);
        assert(align_up(size, align) == size) by (nonlinear_arith)
            requires
                align_up(size, align) == q * align,
                size == align * q,
        ;
        lemma_fundamental_div_mod_converse(size, align, q, 0);
    } else {
        assert(size + align - 1 == (q + 1) * align + (r - 1)) by (nonlinear_arith)
            requires
                size == align * q + r,
        ;
        lemma_fundamental_div_mod_converse(size + align - 1, align, q + 1, r - 1);
        assert(align_up(size, align) == size + align - r) by (nonlinear_arith)
            requires
                align_up(size, align) == (q + 1) * align,
                size == align * q + r,
        ;
        assert(size + align - r == (q + 1) * align + 0) by (nonlinear_arith)
            requires
                size == align * q + r,
        ;
        lemma_fundamental_div_mod_converse(size + align - r, align, q + 1, 0);
    }
}

/// No multiple of the alignment at or above the size is below `align_up`.
pub proof fn lemma_align_up_least(size: int, align: int, count: int)
    requires
        0 <= size <= count * align,
        0 < align,
    ensures
        align_up(size, align) <= count * align,
{
    let q = (size + align - 1) / align;
    let r = (size + align - 1) % align;
    lemma_fundamental_div_mod(size + align - 1, align);
    assert(q <= count) by (nonlinear_arith)
        requires
            size + align - 1 == align * q + r,
            0 <= r < align,
            size <= count * align,
            0 < align,
    ;
    assert(q * align <= count * align) by (nonlinear_arith)
        requires
            q <= count,
            0 < align,
    ;
}

/// Rounds `size` up to a multiple of `align`, or reports that the result does not fit.
pub fn checked_align_up(size: usize, align: usize) -> (aligned: Option<usize>)
    requires
        align > 0,
    ensures
        aligned == (if align_up(size as int, align as int) <= usize::MAX {
            Some(align_up(size as int, align as int) as usize)
        } else {
            None
        }),
{
    proof {
        lemma_align_up(size as int, align as int);
    }
    let rem: usize = size % align;
    if rem == 0 {
        Some(size)
    } else {
        size.checked_add(align - rem)
    }
}

/// The number of whole pages that hold `size` bytes.
pub open spec fn pages_for(size: int) -> int {
    (size + PAGE_SIZE - 1) / (PAGE_SIZE as int)
}

/// Computes `pages_for` without leaving the machine's range.
pub fn page_count(size: usize) -> (pages: usize)
    ensures
        pages == pages_for(size as int),
        size <= pages * PAGE_SIZE < size + PAGE_SIZE,
{
    if size % PAGE_SIZE == 0 {
        size / PAGE_SIZE
    } else {
        size / PAGE_SIZE + 1
    }
}

/// The rounding applied to a free-list request of `size` bytes.
pub open spec fn request_alignment(size: int) -> int {
    if size > LARGE_REQUEST {
        CACHE_LINE as int
    } else {
        WORD as int
    }
}

/// The bytes a free-list block needs for a request of `size`: the rounded payload and its header.
pub open spec fn block_size_for(size: int) -> int {
    align_up(size, request_alignment(size)) + HEADER_SIZE
}

/// Computes `block_size_for`, or `None` where it exceeds the machine's range.
pub fn checked_block_size(size: usize) -> (needed: Option<usize>)
    ensures
        needed == (if block_size_for(size as int) <= usize::MAX {
            Some(block_size_for(size as int) as usize)
        } else {
            None
        }),
{
    let align: usize = if size > LARGE_REQUEST {
        CACHE_LINE
    } else {
        WORD
    };
    proof {
        lemma_align_up(size as int, align as int);
    }
    match checked_align_up(size, align) {
        Some(payload) => payload.checked_add(HEADER_SIZE),
        None => None,
    }
}

/// The share `percent` of `size`, rounded down, for a share of at most the whole.
pub open spec fn share_of(size: int, percent: int) -> int {
    size * percent / 100
}

/// Computes `share_of` without forming the product `size * percent`.
pub fn percent_of(size: usize, percent: usize) -> (share: usize)
    requires
        percent <= 100,
    ensures
        share == share_of(size as int, percent as int),
        share <= size,
{
    let whole: usize = size / 100;
    let rest: usize = size % 100;
    assert(rest * percent <= 9900) by (nonlinear_arith)
        requires
            rest <= 99,
            percent <= 100,
    ;
    let part: usize = rest * percent / 100;
    proof {
        let s = size as int;
        let p = percent as int;
        let q = s / 100;
        let r = s % 100;
        lemma_fundamental_div_mod(s, 100);
        let t = (r * p) / 100;
        let u = (r * p) % 100;
        lemma_fundamental_div_mod(r * p, 100);
        assert(0 <= r * p <= 99 * 100) by (nonlinear_arith)
            requires
                0 <= r <= 99,
                0 <= p <= 100,
        ;
        assert(s * p == (q * p + t) * 100 + u) by (nonlinear_arith)
            requires
                s == 100 * q + r,
                r * p == 100 * t + u,
        ;
        assert(0 <= q * p <= q * 100) by (nonlinear_arith)
            requires
                0 <= q,
                0 <= p <= 100,
        ;
        lemma_fundamental_div_mod_converse(s * p, 100, q * p + t, u);
        assert(q * p + t <= s) by (nonlinear_arith)
            requires
                s == 100 * q + r,
                r * p == 100 * t + u,
                0 <= u,
                0 <= r,
                0 <= q,
                0 <= p <= 100,
        ;
        assert(whole * percent == q * p);
    }
    whole * percent + part
}

} // verus!
