//! Three arenas over disjoint ranges of one region, with growth and
//! recycling when a tier runs out.

use vstd::prelude::*;
use crate::arena::{Arena, ArenaState};
use crate::free_list::DefaultAllocator;
use crate::heap::HeapState;
use crate::layout::{
    lemma_align_up, lemma_align_up_least, page_count, pages_for, percent_of, share_of, PAGE_SIZE,
};
use crate::region::{overwrite, zeros, MemoryRegion};
use crate::tier::Tier;

verus! {

/// The share of the initial range that goes to the `Render` tier, in percent.
pub const RENDER_SHARE: usize = 50;

/// The share of the initial range that goes to the `Scene` tier, in percent.
pub const SCENE_SHARE: usize = 30;

/// The share of the initial range that goes to the `Entity` tier, in percent.
pub const ENTITY_SHARE: usize = 20;

/// What a tiered allocator is, as mathematics: its three arenas, and the
/// free-list heap over what the tiers leave of the initial range.
pub ghost struct TieredState {
    /// The arena of the `Render` tier.
    pub render: ArenaState,
    /// The arena of the `Scene` tier.
    pub scene: ArenaState,
    /// The arena of the `Entity` tier.
    pub entity: ArenaState,
    /// The heap that takes releases of offsets outside all tiers.
    pub fallback: HeapState,
}

/// Whether two arenas share no byte.
pub open spec fn disjoint(a: ArenaState, b: ArenaState) -> bool {
    a.end() <= b.base || b.end() <= a.base
}

/// Whether an arena and a heap share no byte.
pub open spec fn clear_of(arena: ArenaState, heap: HeapState) -> bool {
    arena.end() <= heap.start || heap.end <= arena.base
}

impl TieredState {
    /// The arena that serves `tier`.
    pub open spec fn arena(self, tier: Tier) -> ArenaState {
        match tier {
            Tier::Render => self.render,
            Tier::Scene => self.scene,
            Tier::Entity => self.entity,
        }
    }

    /// This state with `arena` serving `tier`.
    pub open spec fn with_arena(self, tier: Tier, arena: ArenaState) -> TieredState {
        match tier {
            Tier::Render => TieredState { render: arena, ..self },
            Tier::Scene => TieredState { scene: arena, ..self },
            Tier::Entity => TieredState { entity: arena, ..self },
        }
    }

    /// Every arena is valid and serves its own tier, the fallback heap is
    /// valid, and no two of the four overlap.
    pub open spec fn valid(self) -> bool {
        &&& self.render.valid() && self.render.tier == Tier::Render
        &&& self.scene.valid() && self.scene.tier == Tier::Scene
        &&& self.entity.valid() && self.entity.tier == Tier::Entity
        &&& self.fallback.valid()
        &&& disjoint(self.render, self.scene)
        &&& disjoint(self.render, self.entity)
        &&& disjoint(self.scene, self.entity)
        &&& clear_of(self.render, self.fallback)
        &&& clear_of(self.scene, self.fallback)
        &&& clear_of(self.entity, self.fallback)
    }

    /// Every arena, and the fallback heap, lies inside a region of `len` bytes.
    pub open spec fn within(self, len: int) -> bool {
        &&& self.render.end() <= len
        &&& self.scene.end() <= len
        &&& self.entity.end() <= len
        &&& self.fallback.end <= len
    }

    /// Whether `offset` lies in one of the arenas.
    pub open spec fn contains(self, offset: int) -> bool {
        self.render.contains(offset) || self.scene.contains(offset) || self.entity.contains(
            offset,
        )
    }

    /// The split of the `size` bytes from `base` on: half for `Render`, then
    /// three tenths for `Scene`, then a fifth for `Entity`, each rounded
    /// down. What the rounding leaves over goes to the fallback heap.
    pub open spec fn initial(base: int, size: int) -> TieredState {
        let render = share_of(size, RENDER_SHARE as int);
        let scene = share_of(size, SCENE_SHARE as int);
        let entity = share_of(size, ENTITY_SHARE as int);
        let shared = render + scene + entity;
        TieredState {
            render: ArenaState::fresh(base, render, Tier::Render),
            scene: ArenaState::fresh(base + render, scene, Tier::Scene),
            entity: ArenaState::fresh(base + render + scene, entity, Tier::Entity),
            fallback: HeapState::initial(base + shared, size - shared),
        }
    }

    /// The allocator after the release of `offset`: nothing changes for an
    /// offset inside a tier, whose memory only a reset or a compaction gives
    /// back; any other offset is released in the fallback heap.
    pub open spec fn after_free(self, offset: int) -> TieredState {
        if self.contains(offset) {
            self
        } else {
            TieredState { fallback: self.fallback.after_free(offset), ..self }
        }
    }

    /// This state with the arena of `tier` rebuilt, empty, over the pages
    /// that a region of `region_len` bytes gains to hold `size` bytes.
    pub open spec fn rebuilt(self, tier: Tier, region_len: int, size: int) -> TieredState {
        self.with_arena(tier, ArenaState::fresh(region_len, pages_for(size) * PAGE_SIZE, tier))
    }

    /// Whether a request of `size` bytes in `tier` makes the region grow.
    pub open spec fn allocate_grows(self, size: int, tier: Tier, growable: bool) -> bool {
        !self.arena(tier).fits(size) && growable
    }

    /// The allocator after a request of `size` bytes in `tier`, where the
    /// region holds `region_len` bytes and `growable` says whether it can
    /// take the pages for `size`. In order: the tier serves the request; or
    /// it is rebuilt over new pages and serves it there; or, with more than
    /// `size` bytes in use, it is reset and serves it if it now can.
    pub open spec fn after_allocate(
        self,
        size: int,
        tier: Tier,
        region_len: int,
        growable: bool,
    ) -> TieredState {
        let arena = self.arena(tier);
        if arena.fits(size) {
            self.with_arena(tier, arena.allocate(size))
        } else if growable {
            self.with_arena(tier, self.rebuilt(tier, region_len, size).arena(tier).allocate(size))
        } else if arena.cursor > size {
            self.with_arena(tier, arena.reset().allocate(size))
        } else {
            self
        }
    }

    /// Where the bytes of that request start, if it is served.
    pub open spec fn allocated_at(
        self,
        size: int,
        tier: Tier,
        region_len: int,
        growable: bool,
    ) -> Option<int> {
        let arena = self.arena(tier);
        if arena.fits(size) {
            Some(arena.base + arena.cursor)
        } else if growable {
            Some(region_len)
        } else if arena.cursor > size && arena.reset().fits(size) {
            Some(arena.base)
        } else {
            None
        }
    }

    /// Whether compacting `tier` to `preserve` bytes makes the region grow.
    pub open spec fn compact_grows(self, tier: Tier, preserve: int, growable: bool) -> bool {
        preserve > self.arena(tier).capacity && growable
    }

    /// Whether compacting `tier` to `preserve` bytes succeeds.
    pub open spec fn compact_succeeds(self, tier: Tier, preserve: int, growable: bool) -> bool {
        preserve <= self.arena(tier).capacity || growable
    }

    /// The allocator after compacting `tier` to `preserve` bytes, where the
    /// region holds `region_len` bytes and `growable` says whether it can
    /// take the pages for `preserve`. A prefix of what is in use is kept by
    /// truncation; a longer one that the tier can hold is declared live; one
    /// beyond the tier's capacity moves the tier to new pages.
    pub open spec fn after_compact(
        self,
        tier: Tier,
        preserve: int,
        region_len: int,
        growable: bool,
    ) -> TieredState {
        let arena = self.arena(tier);
        if preserve <= arena.cursor {
            self.with_arena(tier, arena.truncate(preserve))
        } else if preserve <= arena.capacity {
            self.with_arena(tier, arena.extend(preserve))
        } else if growable {
            self.with_arena(
                tier,
                self.rebuilt(tier, region_len, preserve).arena(tier).extend(preserve),
            )
        } else {
            self
        }
    }
}

/// The pages that the region gains for a request hold the request after
/// the tier's rounding, because every alignment divides the page size.
pub proof fn lemma_pages_hold_aligned(size: int, tier: Tier)
    requires
        0 <= size,
    ensures
        tier.aligned_size(size) <= pages_for(size) * PAGE_SIZE,
        size <= pages_for(size) * PAGE_SIZE,
{
    lemma_align_up(size, PAGE_SIZE as int);
    let pages = pages_for(size);
    match tier {
        Tier::Render => lemma_align_up_least(size, 128, pages * 512),
        Tier::Scene => lemma_align_up_least(size, 64, pages * 1024),
        Tier::Entity => lemma_align_up_least(size, 8, pages * 8192),
    }
}

/// The three shares never exceed the whole.
pub proof fn lemma_shares_fit(size: int)
    requires
        0 <= size,
    ensures
        0 <= share_of(size, RENDER_SHARE as int),
        0 <= share_of(size, SCENE_SHARE as int),
        0 <= share_of(size, ENTITY_SHARE as int),
        share_of(size, RENDER_SHARE as int) + share_of(size, SCENE_SHARE as int) + share_of(
            size,
            ENTITY_SHARE as int,
        ) <= size,
{
}

/// After a tier is reset, the next request that it can hold is given the
/// tier's first byte.
pub proof fn lemma_reset_then_allocate(
    tiers: TieredState,
    tier: Tier,
    size: int,
    region_len: int,
    growable: bool,
)
    requires
        tiers.valid(),
        0 <= size,
        tier.aligned_size(size) <= tiers.arena(tier).capacity,
    ensures
        ({
            let reset = tiers.with_arena(tier, tiers.arena(tier).reset());
            &&& reset.valid()
            &&& reset.arena(tier).cursor == 0
            &&& reset.allocated_at(size, tier, region_len, growable) == Some(
                tiers.arena(tier).base,
            )
            &&& reset.after_allocate(size, tier, region_len, growable).arena(tier).cursor
                == tier.aligned_size(size)
        }),
{
    lemma_align_up(size, tier.alignment_of());
}

/// After a tier is compacted to no more bytes than it has in use, it has
/// exactly that many in use, nothing has grown, and the next request that
/// it can hold starts right behind them.
pub proof fn lemma_compact_then_allocate(
    tiers: TieredState,
    tier: Tier,
    preserve: int,
    size: int,
    region_len: int,
    growable: bool,
    growable_next: bool,
)
    requires
        tiers.valid(),
        0 <= size,
        0 <= preserve <= tiers.arena(tier).cursor,
    ensures
        ({
            let compacted = tiers.after_compact(tier, preserve, region_len, growable);
            &&& tiers.compact_succeeds(tier, preserve, growable)
            &&& !tiers.compact_grows(tier, preserve, growable)
            &&& compacted.valid()
            &&& compacted.arena(tier).cursor == preserve
            &&& compacted.arena(tier).fits(size) ==> compacted.allocated_at(
                size,
                tier,
                region_len,
                growable_next,
            ) == Some(tiers.arena(tier).base + preserve)
        }),
{
}

/// A record of what one owner has claimed in one tier: pairs of offset
/// inside the tier and size. It frees nothing; it names what is claimed.
pub struct MemoryOwner {
    tier: Tier,
    allocations: Vec<(usize, usize)>,
}

impl MemoryOwner {
    /// The tier whose arena the claims lie in.
    pub closed spec fn owner_tier(&self) -> Tier {
        self.tier
    }

    /// The claims, in the order they were made.
    pub closed spec fn claims(&self) -> Seq<(usize, usize)> {
        self.allocations@
    }

    /// The tier whose arena the claims lie in.
    pub fn tier(&self) -> (tier: Tier)
        ensures
            tier == self.owner_tier(),
    {
        self.tier
    }

    /// The claims, in the order they were made.
    pub fn allocations(&self) -> (claims: &Vec<(usize, usize)>)
        ensures
            claims@ == self.claims(),
    {
        &self.allocations
    }

    /// Gives up every claim at once and returns what was claimed.
    pub fn release_all(&mut self) -> (released: Vec<(usize, usize)>)
        ensures
            released@ == old(self).claims(),
            final(self).claims() == Seq::<(usize, usize)>::empty(),
            final(self).owner_tier() == old(self).owner_tier(),
    {
        let mut released: Vec<(usize, usize)> = Vec::new();
        released.append(&mut self.allocations);
        released
    }
}

/// Three arenas, one per tier, over disjoint ranges of one region.
pub struct TieredAllocator {
    render_arena: Arena,
    scene_arena: Arena,
    entity_arena: Arena,
    fallback: DefaultAllocator,
}

impl View for TieredAllocator {
    type V = TieredState;

    closed spec fn view(&self) -> TieredState {
        TieredState {
            render: self.render_arena@,
            scene: self.scene_arena@,
            entity: self.entity_arena@,
            fallback: self.fallback@,
        }
    }
}

impl TieredAllocator {
    /// The records of the fallback heap are linked.
    pub closed spec fn fallback_linked(&self) -> bool {
        self.fallback.linked()
    }

    /// The allocator's invariant.
    pub open spec fn well_formed(&self) -> bool {
        &&& self.fallback_linked()
        &&& self@.valid()
    }

    /// Splits the `memory_size` bytes from `memory_base` on among the tiers.
    pub fn new(memory_base: usize, memory_size: usize) -> (allocator: TieredAllocator)
        requires
            memory_base + memory_size <= usize::MAX,
        ensures
            allocator@ == TieredState::initial(memory_base as int, memory_size as int),
            allocator.well_formed(),
            allocator@.within(memory_base + memory_size),
    {
        proof {
            lemma_shares_fit(memory_size as int);
        }
        let render_size: usize = percent_of(memory_size, RENDER_SHARE);
        let scene_size: usize = percent_of(memory_size, SCENE_SHARE);
        let entity_size: usize = percent_of(memory_size, ENTITY_SHARE);
        let render_base: usize = memory_base;
        let scene_base: usize = render_base + render_size;
        let entity_base: usize = scene_base + scene_size;
        let shared: usize = render_size + scene_size + entity_size;
        TieredAllocator {
            render_arena: Arena::new(render_base, render_size, Tier::Render),
            scene_arena: Arena::new(scene_base, scene_size, Tier::Scene),
            entity_arena: Arena::new(entity_base, entity_size, Tier::Entity),
            fallback: DefaultAllocator::new(memory_base + shared, memory_size - shared),
        }
    }

    fn arena(&self, tier: Tier) -> (arena: &Arena)
        ensures
            arena@ == self@.arena(tier),
    {
        match tier {
            Tier::Render => &self.render_arena,
            Tier::Scene => &self.scene_arena,
            Tier::Entity => &self.entity_arena,
        }
    }

    fn bump(&mut self, size: usize, tier: Tier) -> (granted: Option<(usize, usize)>)
        requires
            old(self).well_formed(),
        ensures
            final(self)@ == old(self)@.with_arena(
                tier,
                old(self)@.arena(tier).allocate(size as int),
            ),
            final(self).well_formed(),
            old(self)@.arena(tier).fits(size as int) ==> granted == Some(
                (
                    (old(self)@.arena(tier).base + old(self)@.arena(tier).cursor) as usize,
                    tier.aligned_size(size as int) as usize,
                ),
            ),
            !old(self)@.arena(tier).fits(size as int) ==> granted.is_none(),
            granted matches Some(range) ==> {
                &&& final(self)@.arena(tier).base <= range.0
                &&& range.0 + size <= final(self)@.arena(tier).base + final(self)@.arena(
                    tier,
                ).cursor
            },
    {
        match tier {
            Tier::Render => self.render_arena.allocate(size),
            Tier::Scene => self.scene_arena.allocate(size),
            Tier::Entity => self.entity_arena.allocate(size),
        }
    }

    fn replace(&mut self, tier: Tier, arena: Arena)
        ensures
            final(self)@ == old(self)@.with_arena(tier, arena@),
            final(self).fallback_linked() == old(self).fallback_linked(),
    {
        match tier {
            Tier::Render => { self.render_arena = arena; },
            Tier::Scene => { self.scene_arena = arena; },
            Tier::Entity => { self.entity_arena = arena; },
        }
    }

    /// Moves `tier` to new memory: the region gains the whole pages that
    /// hold `size_needed` bytes, and the tier's arena is rebuilt, empty, over
    /// exactly those pages. Returns where they start. Where the region
    /// cannot take the pages, nothing changes.
    pub fn grow_heap(&mut self, region: &mut MemoryRegion, size_needed: usize, tier: Tier) -> (new_base:
        Option<usize>)
        requires
            old(self).well_formed(),
            old(region).well_formed(),
            old(self)@.within(old(region)@.len() as int),
        ensures
            final(self).well_formed(),
            final(region).well_formed(),
            final(self)@.within(final(region)@.len() as int),
            final(region).limit() == old(region).limit(),
            old(region).can_grow(pages_for(size_needed as int)) ==> {
                &&& new_base == Some(old(region)@.len() as usize)
                &&& final(region)@ == old(region)@ + zeros(pages_for(size_needed as int) * PAGE_SIZE)
                &&& final(self)@ == old(self)@.rebuilt(
                    tier,
                    old(region)@.len() as int,
                    size_needed as int,
                )
            },
            !old(region).can_grow(pages_for(size_needed as int)) ==> {
                &&& new_base.is_none()
                &&& final(region)@ == old(region)@
                &&& final(self)@ == old(self)@
            },
    {
        let pages_needed: usize = page_count(size_needed);
        let old_size: usize = region.size();
        match region.grow(pages_needed) {
            None => None,
            Some(_) => {
                let new_block_size: usize = pages_needed * PAGE_SIZE;
                self.replace(tier, Arena::new(old_size, new_block_size, tier));
                Some(old_size)
            },
        }
    }

    /// Serves a request of `size` bytes from `tier` and returns the region
    /// offset of the bytes. A tier that cannot serve the request is moved to
    /// new pages sized for it; where the region refuses to grow and the tier
    /// holds more than `size` bytes, the tier is reset, which gives up
    /// everything it held, and the request is tried once more.
    pub fn allocate(&mut self, region: &mut MemoryRegion, size: usize, tier: Tier) -> (offset: Option<
        usize,
    >)
        requires
            old(self).well_formed(),
            old(region).well_formed(),
            old(self)@.within(old(region)@.len() as int),
        ensures
            final(self).well_formed(),
            final(region).well_formed(),
            final(self)@.within(final(region)@.len() as int),
            final(region).limit() == old(region).limit(),
            ({
                let growable = old(region).can_grow(pages_for(size as int));
                let len = old(region)@.len() as int;
                &&& final(self)@ == old(self)@.after_allocate(size as int, tier, len, growable)
                &&& offset == match old(self)@.allocated_at(size as int, tier, len, growable) {
                    Some(at) => Some(at as usize),
                    None => None,
                }
                &&& final(region)@ == if old(self)@.allocate_grows(size as int, tier, growable) {
                    old(region)@ + zeros(pages_for(size as int) * PAGE_SIZE)
                } else {
                    old(region)@
                }
            }),
            offset matches Some(at) ==> {
                &&& final(self)@.arena(tier).base <= at
                &&& at + size <= final(self)@.arena(tier).base + final(self)@.arena(tier).cursor
                &&& at + size <= final(region)@.len()
            },
    {
        if let Some((offset, _, _)) = self.bump_or_grow(region, size, tier) {
            return Some(offset);
        }
        self.recycle(size, tier)
    }

    /// The last resort of a request: where the tier holds more than `size`
    /// bytes it is reset, and serves the request if it now can.
    fn recycle(&mut self, size: usize, tier: Tier) -> (offset: Option<usize>)
        requires
            old(self).well_formed(),
        ensures
            final(self).well_formed(),
            forall|len: int| old(self)@.within(len) ==> final(self)@.within(len),
            old(self)@.arena(tier).cursor > size ==> {
                &&& final(self)@ == old(self)@.with_arena(
                    tier,
                    old(self)@.arena(tier).reset().allocate(size as int),
                )
                &&& offset == if old(self)@.arena(tier).reset().fits(size as int) {
                    Some(old(self)@.arena(tier).base as usize)
                } else {
                    None
                }
            },
            old(self)@.arena(tier).cursor <= size ==> final(self)@ == old(self)@ && offset.is_none(),
            offset matches Some(at) ==> {
                &&& final(self)@.arena(tier).base <= at
                &&& at + size <= final(self)@.arena(tier).base + final(self)@.arena(tier).cursor
            },
    {
        let current_usage: usize = self.arena(tier).usage();
        if current_usage > size {
            self.reset_tier(tier);
            match self.bump(size, tier) {
                Some((offset, _)) => Some(offset),
                None => None,
            }
        } else {
            None
        }
    }

    /// The first two steps of every request: the tier serves it, or the
    /// tier moves to new pages and serves it there. Returns the region
    /// offset, the offset inside the tier and the rounded size.
    fn bump_or_grow(&mut self, region: &mut MemoryRegion, size: usize, tier: Tier) -> (granted: Option<
        (usize, usize, usize),
    >)
        requires
            old(self).well_formed(),
            old(region).well_formed(),
            old(self)@.within(old(region)@.len() as int),
        ensures
            final(self).well_formed(),
            final(region).well_formed(),
            final(self)@.within(final(region)@.len() as int),
            final(region).limit() == old(region).limit(),
            old(self)@.arena(tier).fits(size as int) ==> {
                &&& granted == Some(
                    (
                        (old(self)@.arena(tier).base + old(self)@.arena(tier).cursor) as usize,
                        old(self)@.arena(tier).cursor as usize,
                        tier.aligned_size(size as int) as usize,
                    ),
                )
                &&& final(self)@ == old(self)@.with_arena(
                    tier,
                    old(self)@.arena(tier).allocate(size as int),
                )
                &&& final(region)@ == old(region)@
            },
            !old(self)@.arena(tier).fits(size as int) && old(region).can_grow(
                pages_for(size as int),
            ) ==> {
                &&& granted == Some(
                    (old(region)@.len() as usize, 0usize, tier.aligned_size(size as int) as usize),
                )
                &&& final(self)@ == old(self)@.with_arena(
                    tier,
                    old(self)@.rebuilt(tier, old(region)@.len() as int, size as int).arena(
                        tier,
                    ).allocate(size as int),
                )
                &&& final(region)@ == old(region)@ + zeros(pages_for(size as int) * PAGE_SIZE)
            },
            !old(self)@.arena(tier).fits(size as int) && !old(region).can_grow(
                pages_for(size as int),
            ) ==> {
                &&& granted.is_none()
                &&& final(self)@ == old(self)@
                &&& final(region)@ == old(region)@
            },
            granted matches Some(range) ==> {
                &&& final(self)@.arena(tier).base <= range.0
                &&& range.0 + size <= final(self)@.arena(tier).base + final(self)@.arena(
                    tier,
                ).cursor
            },
    {
        let inner: usize = self.arena(tier).usage();
        if let Some((offset, aligned)) = self.bump(size, tier) {
            return Some((offset, inner, aligned));
        }
        if self.grow_heap(region, size, tier).is_none() {
            return None;
        }
        proof {
            lemma_pages_hold_aligned(size as int, tier);
        }
        match self.bump(size, tier) {
            Some((offset, aligned)) => Some((offset, 0, aligned)),
            None => None,
        }
    }

    /// Serves a request as `allocate` does, short of resetting the tier, and
    /// returns with the offset a record of the claim: the tier, the offset
    /// inside the tier's arena and the rounded size.
    pub fn allocate_with_owner(&mut self, region: &mut MemoryRegion, size: usize, tier: Tier) -> (granted:
        Option<(MemoryOwner, usize)>)
        requires
            old(self).well_formed(),
            old(region).well_formed(),
            old(self)@.within(old(region)@.len() as int),
        ensures
            final(self).well_formed(),
            final(region).well_formed(),
            final(self)@.within(final(region)@.len() as int),
            final(region).limit() == old(region).limit(),
            ({
                let growable = old(region).can_grow(pages_for(size as int));
                let len = old(region)@.len() as int;
                let before = old(self)@.arena(tier);
                &&& before.fits(size as int) || growable ==> {
                    &&& final(self)@ == old(self)@.after_allocate(size as int, tier, len, growable)
                    &&& granted.is_some()
                    &&& Some(granted.unwrap().1 as int) == old(self)@.allocated_at(
                        size as int,
                        tier,
                        len,
                        growable,
                    )
                    &&& granted.unwrap().0.owner_tier() == tier
                    &&& granted.unwrap().0.claims() == seq![
                        (
                            (if before.fits(size as int) {
                                before.cursor
                            } else {
                                0
                            }) as usize,
                            tier.aligned_size(size as int) as usize,
                        ),
                    ]
                }
                &&& !before.fits(size as int) && !growable ==> granted.is_none() && final(self)@
                    == old(self)@
                &&& final(region)@ == if old(self)@.allocate_grows(size as int, tier, growable) {
                    old(region)@ + zeros(pages_for(size as int) * PAGE_SIZE)
                } else {
                    old(region)@
                }
            }),
            granted matches Some(pair) ==> {
                &&& final(self)@.arena(tier).base <= pair.1
                &&& pair.1 + size <= final(self)@.arena(tier).base + final(self)@.arena(tier).cursor
                &&& pair.1 + size <= final(region)@.len()
            },
    {
        match self.bump_or_grow(region, size, tier) {
            Some((offset, inner, alloc_size)) => {
                let mut allocations: Vec<(usize, usize)> = Vec::new();
                allocations.push((inner, alloc_size));
                assert(allocations@ =~= seq![(inner, alloc_size)]);
                Some((MemoryOwner { tier, allocations }, offset))
            },
            None => None,
        }
    }

    /// Resets `tier`: every offset it has handed out is given up at once.
    pub fn reset_tier(&mut self, tier: Tier)
        ensures
            final(self)@ == old(self)@.with_arena(tier, old(self)@.arena(tier).reset()),
            old(self).well_formed() ==> final(self).well_formed(),
            forall|len: int| old(self)@.within(len) ==> final(self)@.within(len),
    {
        match tier {
            Tier::Render => self.render_arena.reset(),
            Tier::Scene => self.scene_arena.reset(),
            Tier::Entity => self.entity_arena.reset(),
        }
    }

    /// Sets the bytes in use in `tier` to exactly `preserve_bytes`, counted
    /// from the start of the tier. No more than is in use: the rest is given
    /// up. More, within the tier's capacity: that prefix is declared in use.
    /// More than the tier can hold: the region gains the pages that hold
    /// `preserve_bytes`, the tier moves there, and the bytes it had in use
    /// are copied to its new start. Fails, changing nothing, only where the
    /// region can not take those pages.
    pub fn fast_compact_tier(&mut self, region: &mut MemoryRegion, tier: Tier, preserve_bytes: usize) -> (done:
        bool)
        requires
            old(self).well_formed(),
            old(region).well_formed(),
            old(self)@.within(old(region)@.len() as int),
        ensures
            final(self).well_formed(),
            final(region).well_formed(),
            final(self)@.within(final(region)@.len() as int),
            final(region).limit() == old(region).limit(),
            ({
                let growable = old(region).can_grow(pages_for(preserve_bytes as int));
                let len = old(region)@.len() as int;
                let before = old(self)@.arena(tier);
                &&& done == old(self)@.compact_succeeds(tier, preserve_bytes as int, growable)
                &&& final(self)@ == old(self)@.after_compact(
                    tier,
                    preserve_bytes as int,
                    len,
                    growable,
                )
                &&& final(region)@ == if old(self)@.compact_grows(
                    tier,
                    preserve_bytes as int,
                    growable,
                ) {
                    overwrite(
                        old(region)@ + zeros(pages_for(preserve_bytes as int) * PAGE_SIZE),
                        len,
                        old(region)@.subrange(before.base, before.base + before.cursor),
                    )
                } else {
                    old(region)@
                }
            }),
    {
        let current_offset: usize = self.arena(tier).usage();
        let capacity: usize = self.arena(tier).capacity();
        if preserve_bytes <= current_offset {
            return match tier {
                Tier::Render => self.render_arena.fast_compact(preserve_bytes),
                Tier::Scene => self.scene_arena.fast_compact(preserve_bytes),
                Tier::Entity => self.entity_arena.fast_compact(preserve_bytes),
            };
        }
        if preserve_bytes <= capacity {
            self.extend_tier(tier, preserve_bytes);
            return true;
        }
        let old_base: usize = self.arena(tier).base();
        let preserve_data: Vec<u8> = match region.read_bytes(old_base, current_offset) {
            Ok(data) => data,
            Err(_) => { return false; },
        };
        let new_base: usize = match self.grow_heap(region, preserve_bytes, tier) {
            Some(new_base) => new_base,
            None => { return false; },
        };
        proof {
            lemma_pages_hold_aligned(preserve_bytes as int, tier);
        }
        let copied = region.write_bytes(new_base, preserve_data.as_slice());
        self.extend_tier(tier, preserve_bytes);
        true
    }

    fn extend_tier(&mut self, tier: Tier, preserve_bytes: usize)
        requires
            old(self).well_formed(),
            old(self)@.arena(tier).cursor < preserve_bytes <= old(self)@.arena(tier).capacity,
        ensures
            final(self)@ == old(self)@.with_arena(
                tier,
                old(self)@.arena(tier).extend(preserve_bytes as int),
            ),
            final(self).well_formed(),
            forall|len: int| old(self)@.within(len) ==> final(self)@.within(len),
    {
        match tier {
            Tier::Render => self.render_arena.extend_to(preserve_bytes),
            Tier::Scene => self.scene_arena.extend_to(preserve_bytes),
            Tier::Entity => self.entity_arena.extend_to(preserve_bytes),
        }
    }

    /// Usage, capacity, high-water mark and total allocated of `tier`.
    pub fn tier_stats(&self, tier: Tier) -> (stats: (usize, usize, usize, usize))
        ensures
            stats.0 == self@.arena(tier).cursor,
            stats.1 == self@.arena(tier).capacity,
            stats.2 == self@.arena(tier).high_water,
            stats.3 == self@.arena(tier).total_allocated,
    {
        self.arena(tier).get_stats()
    }

    fn is_ptr_in_arena(&self, offset: usize) -> (inside: bool)
        ensures
            inside == self@.contains(offset as int),
    {
        self.render_arena.contains(offset) || self.scene_arena.contains(offset)
            || self.entity_arena.contains(offset)
    }

    /// Whether `offset` lies in the range of one of the tiers.
    pub fn is_ptr_valid(&self, offset: usize) -> (valid: bool)
        ensures
            valid == self@.contains(offset as int),
    {
        self.is_ptr_in_arena(offset)
    }

    /// Releases `offset`. Inside a tier this does nothing: a tier gives its
    /// memory back only in bulk. Any other offset goes to the fallback heap,
    /// which releases the block in use there, if there is one.
    pub fn free(&mut self, offset: usize)
        requires
            old(self).well_formed(),
        ensures
            final(self).well_formed(),
            final(self)@ == old(self)@.after_free(offset as int),
            forall|len: int| old(self)@.within(len) ==> final(self)@.within(len),
    {
        if self.is_ptr_in_arena(offset) {
            return ;
        }
        self.fallback.free(offset);
    }
}

} // verus!
