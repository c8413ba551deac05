//! The single entry point: one region, one allocation strategy chosen at
//! construction, and nothing but region offsets and plain bytes at its surface.

use vstd::prelude::*;
use crate::arena::ArenaState;
use crate::free_list::DefaultAllocator;
use crate::heap::HeapState;
use crate::layout::{block_size_for, pages_for, HEADER_SIZE, PAGE_SIZE};
use crate::region::{overwrite, zeros, AccessError, MemoryRegion};
use crate::tier::Tier;
use crate::tiered::{TieredAllocator, TieredState};

verus! {

/// The way a facade hands out memory.
pub enum AllocatorStrategy {
    /// One free-list heap over the whole region.
    Default(DefaultAllocator),
    /// Three bump arenas over the region.
    Tiered(TieredAllocator),
}

/// The numbers of one tier.
#[derive(Clone, Copy, PartialEq, Eq, Structural, Debug)]
pub struct TierStats {
    /// The tier the numbers are about.
    pub tier: Tier,
    /// Bytes in use.
    pub used: usize,
    /// Bytes the tier can hold.
    pub capacity: usize,
    /// The most bytes that were ever in use.
    pub high_water_mark: usize,
    /// The sum of all sizes ever handed out.
    pub total_allocated: usize,
    /// What resets and compactions have given back: the total handed out
    /// less what is in use, or zero where that is negative.
    pub memory_saved: usize,
}

impl TierStats {
    /// Whether these are the numbers of `arena`.
    pub open spec fn describes(self, arena: ArenaState) -> bool {
        &&& self.tier == arena.tier
        &&& self.used == arena.cursor
        &&& self.capacity == arena.capacity
        &&& self.high_water_mark == arena.high_water
        &&& self.total_allocated == arena.total_allocated
        &&& self.memory_saved == if arena.total_allocated > arena.cursor {
            arena.total_allocated - arena.cursor
        } else {
            0
        }
    }
}

/// The numbers of a facade.
pub struct MemoryStats {
    /// Bytes in use: the sum over the tiers, or, without tiers, the size of
    /// the region.
    pub total_size: usize,
    /// The pages of the region.
    pub pages: usize,
    /// The bytes of the region.
    pub raw_memory_size: usize,
    /// Whether the strategy is the tiered one.
    pub tiered: bool,
    /// The numbers of `Render`, `Scene` and `Entity`, in this order, for the
    /// tiered strategy; nothing for the other.
    pub tiers: Vec<TierStats>,
}

/// Gathers the numbers of one tier.
fn tier_numbers(allocator: &TieredAllocator, tier: Tier) -> (stats: TierStats)
    requires
        allocator@.valid(),
    ensures
        stats.describes(allocator@.arena(tier)),
{
    let (used, capacity, high_water_mark, total_allocated) = allocator.tier_stats(tier);
    let memory_saved: usize = if total_allocated > used {
        total_allocated - used
    } else {
        0
    };
    TierStats { tier, used, capacity, high_water_mark, total_allocated, memory_saved }
}

/// A region together with the strategy that hands it out.
pub struct Walloc {
    strategy: AllocatorStrategy,
    region: MemoryRegion,
}

impl Walloc {
    /// The region behind the facade.
    pub closed spec fn region(&self) -> MemoryRegion {
        self.region
    }

    /// The free-list heap, where that is the strategy.
    pub closed spec fn heap(&self) -> Option<HeapState> {
        match self.strategy {
            AllocatorStrategy::Default(allocator) => Some(allocator@),
            AllocatorStrategy::Tiered(_) => None,
        }
    }

    /// The tiers, where that is the strategy.
    pub closed spec fn tiers(&self) -> Option<TieredState> {
        match self.strategy {
            AllocatorStrategy::Default(_) => None,
            AllocatorStrategy::Tiered(allocator) => Some(allocator@),
        }
    }

    /// The records of the strategy's free list are linked.
    pub closed spec fn linked(&self) -> bool {
        match self.strategy {
            AllocatorStrategy::Default(allocator) => allocator.linked(),
            AllocatorStrategy::Tiered(allocator) => allocator.fallback_linked(),
        }
    }

    /// The facade's invariant: the region is whole pages, and it holds one
    /// strategy, which is valid. A heap covers the region from its first
    /// byte to its last; tiers lie inside the region.
    pub open spec fn well_formed(&self) -> bool {
        &&& self.linked()
        &&& self.region().well_formed()
        &&& self.heap().is_some() != self.tiers().is_some()
        &&& self.heap() matches Some(heap) ==> heap.valid() && heap.start == 0 && heap.end
            == self.region()@.len()
        &&& self.tiers() matches Some(tiers) ==> tiers.valid() && tiers.within(
            self.region()@.len() as int,
        )
    }

    /// A facade over a fresh region of `initial_pages` pages, which may grow
    /// to `max_pages`, with one free-list heap over all of it.
    pub fn new(initial_pages: usize, max_pages: usize) -> (walloc: Walloc)
        requires
            initial_pages * PAGE_SIZE <= usize::MAX,
        ensures
            walloc.well_formed(),
            walloc.region()@ == zeros(initial_pages * PAGE_SIZE),
            walloc.region().limit() == max_pages,
            walloc.heap() == Some(HeapState::initial(0, initial_pages * PAGE_SIZE)),
    {
        let region = MemoryRegion::new(initial_pages, max_pages);
        let memory_size: usize = region.size();
        let strategy = AllocatorStrategy::Default(DefaultAllocator::new(0, memory_size));
        Walloc { strategy, region }
    }

    /// A facade over a fresh region of `initial_pages` pages, which may grow
    /// to `max_pages`, split among the three tiers.
    pub fn new_tiered(initial_pages: usize, max_pages: usize) -> (walloc: Walloc)
        requires
            initial_pages * PAGE_SIZE <= usize::MAX,
        ensures
            walloc.well_formed(),
            walloc.region()@ == zeros(initial_pages * PAGE_SIZE),
            walloc.region().limit() == max_pages,
            walloc.tiers() == Some(TieredState::initial(0, initial_pages * PAGE_SIZE)),
    {
        let region = MemoryRegion::new(initial_pages, max_pages);
        let memory_size: usize = region.size();
        let strategy = AllocatorStrategy::Tiered(TieredAllocator::new(0, memory_size));
        Walloc { strategy, region }
    }

    /// The bytes of the region.
    pub fn memory_size(&self) -> (size: usize)
        ensures
            size == self.region()@.len(),
    {
        self.region.size()
    }

    /// The `length` bytes from `offset` on. Refused, with nothing read,
    /// where they do not all lie inside the region.
    pub fn get_memory_view(&self, offset: usize, length: usize) -> (bytes: Result<
        Vec<u8>,
        AccessError,
    >)
        ensures
            offset + length <= self.region()@.len() ==> bytes.is_ok() && bytes.unwrap()@
                == self.region()@.subrange(offset as int, offset + length),
            offset + length > self.region()@.len() ==> bytes == Err::<Vec<u8>, AccessError>(
                AccessError::OutOfBounds,
            ),
    {
        self.region.read_bytes(offset, length)
    }

    /// Serves a request of `size` bytes from `tier_number`'s tier and
    /// returns the region offset of the bytes, or 0 where the request
    /// fails. A number that names no tier stands for `Entity`. Without
    /// tiers the answer is 0 and nothing changes.
    pub fn allocate_tiered(&mut self, size: usize, tier_number: u8) -> (offset: usize)
        requires
            old(self).well_formed(),
        ensures
            final(self).well_formed(),
            final(self).region().limit() == old(self).region().limit(),
            match old(self).tiers() {
                Some(tiers) => {
                    let tier = Tier::resolved(tier_number);
                    let growable = old(self).region().can_grow(pages_for(size as int));
                    let len = old(self).region()@.len() as int;
                    &&& final(self).tiers() == Some(
                        tiers.after_allocate(size as int, tier, len, growable),
                    )
                    &&& offset == match tiers.allocated_at(size as int, tier, len, growable) {
                        Some(at) => at as usize,
                        None => 0,
                    }
                    &&& final(self).region()@ == if tiers.allocate_grows(
                        size as int,
                        tier,
                        growable,
                    ) {
                        old(self).region()@ + zeros(pages_for(size as int) * PAGE_SIZE)
                    } else {
                        old(self).region()@
                    }
                },
                None => offset == 0 && *final(self) == *old(self),
            },
            offset != 0 ==> offset + size <= final(self).region()@.len(),
    {
        let tier: Tier = Tier::from_u8_or_entity(tier_number);
        match &mut self.strategy {
            AllocatorStrategy::Tiered(allocator) => {
                match allocator.allocate(&mut self.region, size, tier) {
                    Some(offset) => offset,
                    None => 0,
                }
            },
            AllocatorStrategy::Default(_) => 0,
        }
    }

    /// Sets the bytes in use in `tier_number`'s tier to `preserve_bytes`,
    /// growing the region where the tier cannot hold as many. A number that
    /// names no tier stands for `Entity`. Fails where the region would have
    /// to grow and cannot, and, changing nothing, without tiers.
    pub fn fast_compact_tier(&mut self, tier_number: u8, preserve_bytes: usize) -> (done: bool)
        requires
            old(self).well_formed(),
        ensures
            final(self).well_formed(),
            final(self).region().limit() == old(self).region().limit(),
            match old(self).tiers() {
                Some(tiers) => {
                    let tier = Tier::resolved(tier_number);
                    let growable = old(self).region().can_grow(pages_for(preserve_bytes as int));
                    let len = old(self).region()@.len() as int;
                    let before = tiers.arena(tier);
                    &&& done == tiers.compact_succeeds(tier, preserve_bytes as int, growable)
                    &&& final(self).tiers() == Some(
                        tiers.after_compact(tier, preserve_bytes as int, len, growable),
                    )
                    &&& final(self).region()@ == if tiers.compact_grows(
                        tier,
                        preserve_bytes as int,
                        growable,
                    ) {
                        overwrite(
                            old(self).region()@ + zeros(
                                pages_for(preserve_bytes as int) * PAGE_SIZE,
                            ),
                            len,
                            old(self).region()@.subrange(before.base, before.base + before.cursor),
                        )
                    } else {
                        old(self).region()@
                    }
                },
                None => !done && *final(self) == *old(self),
            },
    {
        let tier: Tier = Tier::from_u8_or_entity(tier_number);
        match &mut self.strategy {
            AllocatorStrategy::Tiered(allocator) => allocator.fast_compact_tier(
                &mut self.region,
                tier,
                preserve_bytes,
            ),
            AllocatorStrategy::Default(_) => false,
        }
    }

    /// Resets `tier_number`'s tier, which gives up every offset it has
    /// handed out, and says whether there was a tier to reset. A number that
    /// names no tier stands for `Entity`.
    pub fn reset_tier(&mut self, tier_number: u8) -> (done: bool)
        requires
            old(self).well_formed(),
        ensures
            final(self).well_formed(),
            final(self).region() == old(self).region(),
            match old(self).tiers() {
                Some(tiers) => {
                    let tier = Tier::resolved(tier_number);
                    done && final(self).tiers() == Some(
                        tiers.with_arena(tier, tiers.arena(tier).reset()),
                    )
                },
                None => !done && *final(self) == *old(self),
            },
    {
        let tier: Tier = Tier::from_u8_or_entity(tier_number);
        match &mut self.strategy {
            AllocatorStrategy::Tiered(allocator) => {
                allocator.reset_tier(tier);
                true
            },
            AllocatorStrategy::Default(_) => false,
        }
    }

    /// Serves a request of `size` bytes from the free-list heap and returns
    /// the region offset of the payload, or 0 where the request fails. With
    /// tiers the answer is 0 and nothing changes.
    pub fn allocate(&mut self, size: usize) -> (offset: usize)
        requires
            old(self).well_formed(),
        ensures
            final(self).well_formed(),
            final(self).region().limit() == old(self).region().limit(),
            match old(self).heap() {
                Some(heap) => {
                    let growable = old(self).region().can_grow(
                        pages_for(block_size_for(size as int)),
                    );
                    &&& final(self).heap() == Some(heap.after_malloc(size as int, growable))
                    &&& offset == match heap.malloc_result(size as int, growable) {
                        Some(at) => at as usize,
                        None => 0,
                    }
                    &&& final(self).region()@ == if heap.malloc_grows(size as int, growable) {
                        old(self).region()@ + zeros(
                            pages_for(block_size_for(size as int)) * PAGE_SIZE,
                        )
                    } else {
                        old(self).region()@
                    }
                },
                None => offset == 0 && *final(self) == *old(self),
            },
            offset != 0 ==> HEADER_SIZE <= offset && offset + size <= final(self).region()@.len(),
    {
        match &mut self.strategy {
            AllocatorStrategy::Default(allocator) => {
                match allocator.malloc(&mut self.region, size) {
                    Some(offset) => offset,
                    None => 0,
                }
            },
            AllocatorStrategy::Tiered(_) => 0,
        }
    }

    /// Releases `offset` through the strategy. The free-list heap frees the
    /// block in use whose payload starts there; the tiers ignore an offset
    /// inside a tier and pass any other to their fallback heap. Zero, an
    /// offset outside the heap, and one that names no block in use change
    /// nothing.
    pub fn free(&mut self, offset: usize)
        requires
            old(self).well_formed(),
        ensures
            final(self).well_formed(),
            final(self).region() == old(self).region(),
            old(self).heap() matches Some(heap) ==> final(self).heap() == Some(
                heap.after_free(offset as int),
            ),
            old(self).tiers() matches Some(tiers) ==> final(self).tiers() == Some(
                tiers.after_free(offset as int),
            ),
    {
        if offset == 0 {
            proof {
                if let Some(heap) = self.heap() {
                    crate::heap::lemma_free_of_nothing(heap);
                }
                if let Some(tiers) = self.tiers() {
                    crate::heap::lemma_free_of_nothing(tiers.fallback);
                }
            }
            return ;
        }
        match &mut self.strategy {
            AllocatorStrategy::Default(allocator) => allocator.free(offset),
            AllocatorStrategy::Tiered(allocator) => allocator.free(offset),
        }
    }

    /// The numbers of the facade: the region's size in pages and in bytes,
    /// the strategy, the bytes in use, and the numbers of each tier.
    pub fn memory_stats(&self) -> (stats: MemoryStats)
        requires
            self.well_formed(),
        ensures
            stats.pages == self.region().page_total(),
            stats.raw_memory_size == self.region()@.len(),
            stats.tiered == self.tiers().is_some(),
            match self.tiers() {
                Some(tiers) => {
                    &&& stats.total_size == tiers.render.cursor + tiers.scene.cursor
                        + tiers.entity.cursor
                    &&& stats.tiers@.len() == 3
                    &&& stats.tiers@[0].describes(tiers.render)
                    &&& stats.tiers@[1].describes(tiers.scene)
                    &&& stats.tiers@[2].describes(tiers.entity)
                },
                None => stats.total_size == self.region()@.len() && stats.tiers@.len() == 0,
            },
    {
        let current_pages: usize = self.region.pages();
        let current_size: usize = self.region.size();
        let mut tiers: Vec<TierStats> = Vec::new();
        let mut total_in_use: usize = current_size;
        let mut tiered: bool = false;
        match &self.strategy {
            AllocatorStrategy::Tiered(allocator) => {
                let render: TierStats = tier_numbers(allocator, Tier::Render);
                let scene: TierStats = tier_numbers(allocator, Tier::Scene);
                let entity: TierStats = tier_numbers(allocator, Tier::Entity);
                total_in_use = render.used + scene.used + entity.used;
                tiers.push(render);
                tiers.push(scene);
                tiers.push(entity);
                tiered = true;
            },
            AllocatorStrategy::Default(_) => {},
        }
        MemoryStats {
            total_size: total_in_use,
            pages: current_pages,
            raw_memory_size: current_size,
            tiered,
            tiers,
        }
    }

    /// Writes `data` at `offset`. Refused, with not a byte written, where
    /// the bytes would not all land inside the region.
    pub fn copy_from_js(&mut self, offset: usize, data: &[u8]) -> (done: Result<(), AccessError>)
        requires
            old(self).well_formed(),
        ensures
            final(self).well_formed(),
            final(self).heap() == old(self).heap(),
            final(self).tiers() == old(self).tiers(),
            final(self).region().limit() == old(self).region().limit(),
            offset + data@.len() <= old(self).region()@.len() ==> done.is_ok() && final(self).region()@ == overwrite(old(self).region()@, offset as int, data@),
            offset + data@.len() > old(self).region()@.len() ==> done == Err::<(), AccessError>(
                AccessError::OutOfBounds,
            ) && final(self).region()@ == old(self).region()@,
    {
        self.region.write_bytes(offset, data)
    }

    /// The `length` bytes from `offset` on, as `get_memory_view` gives them.
    pub fn copy_to_js(&self, offset: usize, length: usize) -> (bytes: Result<Vec<u8>, AccessError>)
        ensures
            offset + length <= self.region()@.len() ==> bytes.is_ok() && bytes.unwrap()@
                == self.region()@.subrange(offset as int, offset + length),
            offset + length > self.region()@.len() ==> bytes == Err::<Vec<u8>, AccessError>(
                AccessError::OutOfBounds,
            ),
    {
        self.get_memory_view(offset, length)
    }
}

} // verus!
