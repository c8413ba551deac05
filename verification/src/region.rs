//! The raw byte space: a buffer that only ever grows, by whole pages, at its end.

use vstd::prelude::*;
use vstd::slice::{slice_subrange, slice_to_vec};
use crate::layout::PAGE_SIZE;

verus! {

/// Why a read or a write of the region was refused.
#[derive(Clone, Copy, PartialEq, Eq, Structural, Debug)]
pub enum AccessError {
    /// The offset and the length together reach past the end of the region.
    OutOfBounds,
}

/// `count` zero bytes.
pub open spec fn zeros(count: int) -> Seq<u8> {
    Seq::new(count as nat, |i: int| 0u8)
}

/// `bytes` with `data` written over the bytes from `offset` on.
pub open spec fn overwrite(bytes: Seq<u8>, offset: int, data: Seq<u8>) -> Seq<u8> {
    Seq::new(
        bytes.len(),
        |i: int|
            if offset <= i < offset + data.len() {
                data[i - offset]
            } else {
                bytes[i]
            },
    )
}

/// A growable linear memory. Offsets into it stay valid across growth,
/// because growth only appends.
pub struct MemoryRegion {
    bytes: Vec<u8>,
    max_pages: usize,
}

impl View for MemoryRegion {
    type V = Seq<u8>;

    closed spec fn view(&self) -> Seq<u8> {
        self.bytes@
    }
}

impl MemoryRegion {
    /// The page count that growth may never exceed.
    pub closed spec fn limit(&self) -> int {
        self.max_pages as int
    }

    /// The region is a whole number of pages.
    pub open spec fn well_formed(&self) -> bool {
        self@.len() % (PAGE_SIZE as nat) == 0
    }

    /// The number of pages that the region holds.
    pub open spec fn page_total(&self) -> int {
        self@.len() as int / (PAGE_SIZE as int)
    }

    /// Whether the region can take `pages` more pages: the limit and the
    /// machine's address range both have to allow the new size.
    pub open spec fn can_grow(&self, pages: int) -> bool {
        &&& self.page_total() + pages <= self.limit()
        &&& self@.len() + pages * PAGE_SIZE <= usize::MAX
    }

    /// A zero-filled region of `initial_pages` pages that may grow to `max_pages`.
    pub fn new(initial_pages: usize, max_pages: usize) -> (region: MemoryRegion)
        requires
            initial_pages * PAGE_SIZE <= usize::MAX,
        ensures
            region.well_formed(),
            region@ == zeros(initial_pages * PAGE_SIZE),
            region.limit() == max_pages,
            region.page_total() == initial_pages,
    {
        let mut bytes: Vec<u8> = Vec::new();
        bytes.resize(initial_pages * PAGE_SIZE, 0u8);
        assert(bytes@ =~= zeros(initial_pages * PAGE_SIZE));
        assert((initial_pages * PAGE_SIZE) % (PAGE_SIZE as int) == 0 && (initial_pages * PAGE_SIZE)
            / (PAGE_SIZE as int) == initial_pages) by (nonlinear_arith);
        MemoryRegion { bytes, max_pages }
    }

    /// The current size in bytes.
    pub fn size(&self) -> (size: usize)
        ensures
            size == self@.len(),
    {
        self.bytes.len()
    }

    /// The current size in pages.
    pub fn pages(&self) -> (pages: usize)
        ensures
            pages == self.page_total(),
    {
        self.bytes.len() / PAGE_SIZE
    }

    /// The page count that growth may never exceed.
    pub fn max_pages(&self) -> (pages: usize)
        ensures
            pages == self.limit(),
    {
        self.max_pages
    }

    /// Appends `pages` zero-filled pages and returns the page count before,
    /// or leaves the region as it is where `can_grow` does not hold.
    pub fn grow(&mut self, pages: usize) -> (before: Option<usize>)
        requires
            old(self).well_formed(),
        ensures
            final(self).well_formed(),
            final(self).limit() == old(self).limit(),
            old(self).can_grow(pages as int) ==> before == Some(old(self).page_total() as usize)
                && final(self)@ == old(self)@ + zeros(pages * PAGE_SIZE),
            !old(self).can_grow(pages as int) ==> before.is_none() && final(self)@ == old(self)@,
    {
        let now: usize = self.bytes.len() / PAGE_SIZE;
        proof {
            vstd::arithmetic::div_mod::lemma_fundamental_div_mod(
                self.bytes@.len() as int,
                PAGE_SIZE as int,
            );
        }
        let total: usize = match now.checked_add(pages) {
            Some(total) => total,
            None => { return None; },
        };
        if total > self.max_pages {
            return None;
        }
        let new_size: usize = match total.checked_mul(PAGE_SIZE) {
            Some(new_size) => new_size,
            None => { return None; },
        };
        let ghost before_bytes = self.bytes@;
        self.bytes.resize(new_size, 0u8);
        proof {
            assert(new_size == before_bytes.len() + pages * PAGE_SIZE);
            assert(self.bytes@ =~= before_bytes + zeros(pages * PAGE_SIZE));
            assert(new_size % PAGE_SIZE == 0) by (nonlinear_arith)
                requires
                    new_size == total * PAGE_SIZE,
            ;
        }
        Some(now)
    }

    /// The `length` bytes from `offset` on, if they all lie inside the region.
    pub fn read_bytes(&self, offset: usize, length: usize) -> (bytes: Result<Vec<u8>, AccessError>)
        ensures
            offset + length <= self@.len() ==> bytes.is_ok() && bytes.unwrap()@ == self@.subrange(
                offset as int,
                offset + length,
            ),
            offset + length > self@.len() ==> bytes == Err::<Vec<u8>, AccessError>(
                AccessError::OutOfBounds,
            ),
    {
        let size: usize = self.bytes.len();
        match offset.checked_add(length) {
            Some(end) => {
                if end > size {
                    Err(AccessError::OutOfBounds)
                } else {
                    Ok(slice_to_vec(slice_subrange(self.bytes.as_slice(), offset, end)))
                }
            },
            None => Err(AccessError::OutOfBounds),
        }
    }

    /// Writes `data` at `offset` if all of it lands inside the region;
    /// otherwise not a single byte changes.
    pub fn write_bytes(&mut self, offset: usize, data: &[u8]) -> (done: Result<(), AccessError>)
        ensures
            final(self).limit() == old(self).limit(),
            offset + data@.len() <= old(self)@.len() ==> done.is_ok() && final(self)@ == overwrite(
                old(self)@,
                offset as int,
                data@,
            ),
            offset + data@.len() > old(self)@.len() ==> done == Err::<(), AccessError>(
                AccessError::OutOfBounds,
            ) && final(self)@ == old(self)@,
    {
        let count: usize = data.len();
        let size: usize = self.bytes.len();
        match offset.checked_add(count) {
            Some(end) => {
                if end > size {
                    return Err(AccessError::OutOfBounds);
                }
            },
            None => { return Err(AccessError::OutOfBounds); },
        }
        let ghost before = self.bytes@;
        let mut i: usize = 0;
        while i < count
            invariant
                i <= count,
                count == data@.len(),
                offset + count <= before.len() <= usize::MAX,
                self.bytes@.len() == before.len(),
                self.max_pages == old(self).max_pages,
                forall|j: int|
                    0 <= j < before.len() ==> self.bytes@[j] == (if offset <= j < offset + i {
                        data@[j - offset]
                    } else {
                        before[j]
                    }),
            decreases count - i,
        {
            self.bytes.set(offset + i, data[i]);
            i = i + 1;
        }
        assert(self.bytes@ =~= overwrite(before, offset as int, data@));
        Ok(())
    }
}

} // verus!
