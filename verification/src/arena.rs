//! One tier's bump allocator: a fixed range of the region, a cursor that
//! allocation only ever advances, and counters that never go back.

use vstd::prelude::*;
use crate::layout::lemma_align_up;
use crate::tier::Tier;

verus! {

/// What an arena is, as numbers.
pub ghost struct ArenaState {
    /// Where the arena's range starts in the region.
    pub base: int,
    /// How many bytes the range holds.
    pub capacity: int,
    /// How many bytes of the range are handed out.
    pub cursor: int,
    /// The highest value the cursor has had.
    pub high_water: int,
    /// The sum of all sizes ever handed out, held at the machine's maximum.
    pub total_allocated: int,
    /// The tier the arena serves.
    pub tier: Tier,
}

impl ArenaState {
    /// The arena's invariant: the cursor is inside the range, the high-water
    /// mark is at or above the cursor, and the range is addressable.
    pub open spec fn valid(self) -> bool {
        &&& 0 <= self.base
        &&& 0 <= self.cursor <= self.high_water <= self.capacity
        &&& self.base + self.capacity <= usize::MAX
        &&& 0 <= self.total_allocated <= usize::MAX
    }

    /// One past the last byte of the range.
    pub open spec fn end(self) -> int {
        self.base + self.capacity
    }

    /// An arena over `capacity` bytes from `base` on, with nothing handed out.
    pub open spec fn fresh(base: int, capacity: int, tier: Tier) -> ArenaState {
        ArenaState { base, capacity, cursor: 0, high_water: 0, total_allocated: 0, tier }
    }

    /// Whether a request of `size` bytes, rounded for the tier, still fits.
    pub open spec fn fits(self, size: int) -> bool {
        self.cursor + self.tier.aligned_size(size) <= self.capacity
    }

    /// The arena after a request of `size` bytes: unchanged where the request
    /// does not fit, else advanced by the rounded size.
    pub open spec fn allocate(self, size: int) -> ArenaState {
        if self.fits(size) {
            let aligned = self.tier.aligned_size(size);
            let cursor = self.cursor + aligned;
            ArenaState {
                cursor,
                high_water: if cursor > self.high_water {
                    cursor
                } else {
                    self.high_water
                },
                total_allocated: if self.total_allocated + aligned > usize::MAX {
                    usize::MAX as int
                } else {
                    self.total_allocated + aligned
                },
                ..self
            }
        } else {
            self
        }
    }

    /// The arena with everything handed back.
    pub open spec fn reset(self) -> ArenaState {
        ArenaState { cursor: 0, ..self }
    }

    /// The arena cut back to its first `preserve` bytes; unchanged where it
    /// holds fewer.
    pub open spec fn truncate(self, preserve: int) -> ArenaState {
        if preserve <= self.cursor {
            ArenaState { cursor: preserve, ..self }
        } else {
            self
        }
    }

    /// The arena with its first `preserve` bytes declared live; unchanged
    /// where it already holds as many or cannot hold that many.
    pub open spec fn extend(self, preserve: int) -> ArenaState {
        if self.cursor < preserve <= self.capacity {
            ArenaState {
                cursor: preserve,
                high_water: if preserve > self.high_water {
                    preserve
                } else {
                    self.high_water
                },
                ..self
            }
        } else {
            self
        }
    }

    /// Whether `offset` lies in the arena's range.
    pub open spec fn contains(self, offset: int) -> bool {
        self.base <= offset < self.end()
    }
}

/// One thing that can be done to an arena.
pub ghost enum ArenaOp {
    /// A request of this many bytes.
    Allocate(nat),
    /// One turn of a caller that shares the cursor with others and holds no
    /// lock: it has read the cursor as `observed`, and now exchanges that
    /// value for the one that a request of `size` bytes leads to, which
    /// takes effect only if the cursor still is what was read.
    Attempt { observed: nat, size: nat },
    /// A reset.
    Reset,
    /// A cut back to this many bytes.
    Truncate(nat),
    /// A declaration that this many bytes are live.
    Extend(nat),
}

impl ArenaOp {
    /// Whether the operation is a request, locked or not.
    pub open spec fn is_request(self) -> bool {
        self is Allocate || self is Attempt
    }

    /// The bytes that a request asks for.
    pub open spec fn size(self) -> int {
        match self {
            ArenaOp::Allocate(size) => size as int,
            ArenaOp::Attempt { observed, size } => size as int,
            _ => 0,
        }
    }
}

impl ArenaState {
    /// The arena after an exchange of the cursor value `observed` for the
    /// one that a request of `size` bytes leads to: where the cursor is not
    /// what was observed the exchange fails and nothing changes.
    pub open spec fn attempt(self, observed: int, size: int) -> ArenaState {
        if observed == self.cursor {
            self.allocate(size)
        } else {
            self
        }
    }

    /// The arena after `op`.
    pub open spec fn step(self, op: ArenaOp) -> ArenaState {
        match op {
            ArenaOp::Allocate(size) => self.allocate(size as int),
            ArenaOp::Attempt { observed, size } => self.attempt(observed as int, size as int),
            ArenaOp::Reset => self.reset(),
            ArenaOp::Truncate(preserve) => self.truncate(preserve as int),
            ArenaOp::Extend(preserve) => self.extend(preserve as int),
        }
    }

    /// Whether `op` is a request that the arena, as it is, gives a range.
    pub open spec fn serves(self, op: ArenaOp) -> bool {
        match op {
            ArenaOp::Allocate(size) => self.fits(size as int),
            ArenaOp::Attempt { observed, size } => observed == self.cursor && self.fits(
                size as int,
            ),
            _ => false,
        }
    }

    /// The arena after all of `ops`, one after the other.
    pub open spec fn run(self, ops: Seq<ArenaOp>) -> ArenaState
        decreases ops.len(),
    {
        if ops.len() == 0 {
            self
        } else {
            self.run(ops.drop_last()).step(ops.last())
        }
    }

    /// The highest cursor among the states that the arena passes through
    /// while `ops` are done to it, the first and the last included.
    pub open spec fn peak(self, ops: Seq<ArenaOp>) -> int
        decreases ops.len(),
    {
        if ops.len() == 0 {
            self.cursor
        } else {
            let before = self.peak(ops.drop_last());
            let last = self.run(ops).cursor;
            if last > before {
                last
            } else {
                before
            }
        }
    }

    /// The range that a request is given: where it starts in the region
    /// and how long it is.
    pub open spec fn grant(self, op: ArenaOp) -> (int, int) {
        (self.base + self.cursor, self.tier.aligned_size(op.size()))
    }
}

/// No operation takes an arena out of its invariant: in particular, what
/// is in use never exceeds the capacity.
pub proof fn lemma_step_valid(arena: ArenaState, op: ArenaOp)
    requires
        arena.valid(),
    ensures
        arena.step(op).valid(),
        arena.step(op).base == arena.base,
        arena.step(op).capacity == arena.capacity,
        arena.step(op).tier == arena.tier,
        arena.step(op).high_water >= arena.high_water,
        arena.step(op).total_allocated >= arena.total_allocated,
        arena.step(op).high_water == if arena.step(op).cursor > arena.high_water {
            arena.step(op).cursor
        } else {
            arena.high_water
        },
{
    lemma_align_up(op.size(), arena.tier.alignment_of());
}

/// Whatever is done to an arena, in whatever order: it stays valid, so its
/// usage never exceeds its capacity; its high-water mark and its total
/// never go down; and its high-water mark is the highest cursor it has had
/// since the mark and the cursor last agreed.
pub proof fn lemma_run_monotone(arena: ArenaState, ops: Seq<ArenaOp>)
    requires
        arena.valid(),
    ensures
        arena.run(ops).valid(),
        arena.run(ops).base == arena.base,
        arena.run(ops).capacity == arena.capacity,
        arena.run(ops).tier == arena.tier,
        arena.run(ops).cursor <= arena.run(ops).capacity,
        arena.run(ops).high_water >= arena.high_water,
        arena.run(ops).total_allocated >= arena.total_allocated,
        arena.run(ops).high_water == if arena.peak(ops) > arena.high_water {
            arena.peak(ops)
        } else {
            arena.high_water
        },
        arena.high_water == arena.cursor ==> arena.run(ops).high_water == arena.peak(ops),
    decreases ops.len(),
{
    if ops.len() > 0 {
        lemma_run_monotone(arena, ops.drop_last());
        lemma_step_valid(arena.run(ops.drop_last()), ops.last());
        lemma_peak_bounds(arena, ops.drop_last());
    }
}

/// The peak of a run is at or above the cursor at its start and at its end.
pub proof fn lemma_peak_bounds(arena: ArenaState, ops: Seq<ArenaOp>)
    ensures
        arena.peak(ops) >= arena.cursor,
        arena.peak(ops) >= arena.run(ops).cursor,
    decreases ops.len(),
{
    if ops.len() > 0 {
        lemma_peak_bounds(arena, ops.drop_last());
    }
}

/// The counters only ever go up: after any part of a run they are no
/// higher than after all of it.
pub proof fn lemma_counters_never_decrease(arena: ArenaState, ops: Seq<ArenaOp>, k: int)
    requires
        arena.valid(),
        0 <= k <= ops.len(),
    ensures
        arena.run(ops.take(k)).high_water <= arena.run(ops).high_water,
        arena.run(ops.take(k)).total_allocated <= arena.run(ops).total_allocated,
    decreases ops.len() - k,
{
    if k == ops.len() {
        assert(ops.take(k) =~= ops);
    } else {
        lemma_counters_never_decrease(arena, ops, k + 1);
        assert(ops.take(k + 1).drop_last() =~= ops.take(k));
        lemma_run_monotone(arena, ops.take(k));
        lemma_step_valid(arena.run(ops.take(k)), ops.take(k + 1).last());
    }
}

/// While an arena only serves requests, its cursor never goes back.
pub proof fn lemma_requests_advance(arena: ArenaState, ops: Seq<ArenaOp>, k: int)
    requires
        arena.valid(),
        0 <= k <= ops.len(),
        forall|i: int| 0 <= i < ops.len() ==> (#[trigger] ops[i]).is_request(),
    ensures
        arena.run(ops.take(k)).cursor <= arena.run(ops).cursor,
    decreases ops.len() - k,
{
    if k == ops.len() {
        assert(ops.take(k) =~= ops);
    } else {
        lemma_requests_advance(arena, ops, k + 1);
        assert(ops.take(k + 1).drop_last() =~= ops.take(k));
        assert(ops.take(k + 1).last() == ops[k]);
        assert(ops[k].is_request());
        lemma_run_monotone(arena, ops.take(k));
        lemma_align_up(ops[k].size(), arena.tier.alignment_of());
    }
}

/// Requests served by one arena, with nothing but requests between them,
/// are given ranges that do not overlap: the later one starts where the
/// earlier one ends, or behind, and so at another place unless the earlier
/// one asked for no byte at all. This holds of callers that take turns
/// under a lock, and as well of callers that share the cursor without one:
/// however their attempts interleave, and however stale the value that an
/// attempt has read, the attempts that succeed are given ranges that are
/// all apart and all inside the arena.
pub proof fn lemma_grants_apart(arena: ArenaState, ops: Seq<ArenaOp>, i: int, j: int)
    requires
        arena.valid(),
        0 <= i < j < ops.len(),
        forall|k: int| 0 <= k < ops.len() ==> (#[trigger] ops[k]).is_request(),
        arena.run(ops.take(i)).serves(ops[i]),
        arena.run(ops.take(j)).serves(ops[j]),
    ensures
        ({
            let first = arena.run(ops.take(i)).grant(ops[i]);
            let second = arena.run(ops.take(j)).grant(ops[j]);
            &&& arena.base <= first.0
            &&& first.0 + first.1 <= second.0
            &&& second.0 + second.1 <= arena.base + arena.capacity
            &&& ops[i].size() > 0 ==> first.0 < second.0
        }),
{
    let upto = ops.take(j);
    assert(upto.take(i + 1) =~= ops.take(i + 1));
    assert(ops.take(i + 1).drop_last() =~= ops.take(i));
    assert(ops.take(i + 1).last() == ops[i]);
    assert(ops[i].is_request());
    assert forall|k: int| 0 <= k < upto.len() implies (#[trigger] upto[k]).is_request() by {
        assert(ops[k].is_request());
    }
    lemma_requests_advance(arena, upto, i + 1);
    lemma_run_monotone(arena, ops.take(i));
    lemma_run_monotone(arena, ops.take(j));
    lemma_align_up(ops[i].size(), arena.tier.alignment_of());
}

/// One attempt to advance a cursor: given the tier, the capacity and the
/// cursor as it was read, the cursor that a request of `size` bytes would
/// move it to, together with the rounded size; or `None` where the request
/// does not fit. This is all that an arena decides on an allocation, so a
/// caller that shares a cursor between threads can retry it on each value
/// that it reads until its compare-and-exchange succeeds.
pub fn next_cursor(tier: Tier, capacity: usize, cursor: usize, size: usize) -> (next: Option<
    (usize, usize),
>)
    ensures
        cursor + tier.aligned_size(size as int) <= capacity ==> next == Some(
            (
                (cursor + tier.aligned_size(size as int)) as usize,
                tier.aligned_size(size as int) as usize,
            ),
        ),
        cursor + tier.aligned_size(size as int) > capacity ==> next.is_none(),
{
    proof {
        lemma_align_up(size as int, tier.alignment_of());
    }
    let aligned: usize = match tier.align_size(size) {
        Some(aligned) => aligned,
        None => { return None; },
    };
    if cursor > capacity || aligned > capacity - cursor {
        return None;
    }
    Some((cursor + aligned, aligned))
}

/// A bump allocator over a fixed range of the region.
pub struct Arena {
    base: usize,
    size: usize,
    current_offset: usize,
    tier: Tier,
    high_water_mark: usize,
    total_allocated: usize,
}

impl View for Arena {
    type V = ArenaState;

    closed spec fn view(&self) -> ArenaState {
        ArenaState {
            base: self.base as int,
            capacity: self.size as int,
            cursor: self.current_offset as int,
            high_water: self.high_water_mark as int,
            total_allocated: self.total_allocated as int,
            tier: self.tier,
        }
    }
}

impl Arena {
    /// An arena over the `size` bytes from `base` on, with nothing handed out.
    pub fn new(base: usize, size: usize, tier: Tier) -> (arena: Arena)
        requires
            base + size <= usize::MAX,
        ensures
            arena@ == ArenaState::fresh(base as int, size as int, tier),
            arena@.valid(),
    {
        Arena { base, size, current_offset: 0, tier, high_water_mark: 0, total_allocated: 0 }
    }

    /// Hands out the next `size` bytes, rounded up for the tier, and returns
    /// the region offset where they start together with the rounded size.
    /// Fails, changing nothing, where the rounded size no longer fits.
    pub fn allocate(&mut self, size: usize) -> (granted: Option<(usize, usize)>)
        requires
            old(self)@.valid(),
        ensures
            final(self)@.valid(),
            final(self)@ == old(self)@.allocate(size as int),
            old(self)@.fits(size as int) ==> granted == Some(
                (
                    (old(self)@.base + old(self)@.cursor) as usize,
                    old(self)@.tier.aligned_size(size as int) as usize,
                ),
            ),
            !old(self)@.fits(size as int) ==> granted.is_none(),
            granted matches Some(range) ==> {
                &&& size <= range.1
                &&& final(self)@.base <= range.0
                &&& range.0 + range.1 == final(self)@.base + final(self)@.cursor
                &&& range.0 + range.1 <= final(self)@.end()
            },
    {
        proof {
            lemma_align_up(size as int, self.tier.alignment_of());
        }
        let start: usize = self.current_offset;
        let (new_offset, aligned) = match next_cursor(self.tier, self.size, start, size) {
            Some(next) => next,
            None => { return None; },
        };
        self.current_offset = new_offset;
        if new_offset > self.high_water_mark {
            self.high_water_mark = new_offset;
        }
        self.total_allocated = self.total_allocated.saturating_add(aligned);
        Some((self.base + start, aligned))
    }

    /// Hands everything back: the cursor returns to the start of the range.
    /// The counters keep what they have seen.
    pub fn reset(&mut self)
        ensures
            final(self)@ == old(self)@.reset(),
            old(self)@.valid() ==> final(self)@.valid(),
    {
        self.current_offset = 0;
    }

    /// Whether `offset` lies in the arena's range.
    pub fn contains(&self, offset: usize) -> (inside: bool)
        ensures
            inside == self@.contains(offset as int),
    {
        offset >= self.base && offset - self.base < self.size
    }

    /// How many bytes are handed out.
    pub fn usage(&self) -> (used: usize)
        ensures
            used == self@.cursor,
    {
        self.current_offset
    }

    /// How many bytes the arena's range holds.
    pub fn capacity(&self) -> (capacity: usize)
        ensures
            capacity == self@.capacity,
    {
        self.size
    }

    /// The highest value that `usage` has had.
    pub fn high_water_mark(&self) -> (mark: usize)
        ensures
            mark == self@.high_water,
    {
        self.high_water_mark
    }

    /// The sum of all rounded sizes ever handed out, resets notwithstanding.
    pub fn total_allocated(&self) -> (total: usize)
        ensures
            total == self@.total_allocated,
    {
        self.total_allocated
    }

    /// Where the arena's range starts in the region.
    pub fn base(&self) -> (base: usize)
        ensures
            base == self@.base,
    {
        self.base
    }

    /// The tier the arena serves.
    pub fn tier(&self) -> (tier: Tier)
        ensures
            tier == self@.tier,
    {
        self.tier
    }

    /// Keeps the first `preserve_bytes` bytes and hands back the rest, in
    /// constant time. Refuses, changing nothing, to keep more than is handed out.
    pub fn fast_compact(&mut self, preserve_bytes: usize) -> (done: bool)
        ensures
            done == (preserve_bytes <= old(self)@.cursor),
            final(self)@ == old(self)@.truncate(preserve_bytes as int),
            old(self)@.valid() ==> final(self)@.valid(),
    {
        if preserve_bytes > self.current_offset {
            return false;
        }
        self.current_offset = preserve_bytes;
        true
    }

    /// Declares the first `preserve_bytes` bytes live where that is more than
    /// is handed out and no more than the range holds.
    pub(crate) fn extend_to(&mut self, preserve_bytes: usize)
        requires
            old(self)@.valid(),
            old(self)@.cursor < preserve_bytes <= old(self)@.capacity,
        ensures
            final(self)@ == old(self)@.extend(preserve_bytes as int),
            final(self)@.valid(),
    {
        self.current_offset = preserve_bytes;
        if preserve_bytes > self.high_water_mark {
            self.high_water_mark = preserve_bytes;
        }
    }

    /// Usage, capacity, high-water mark and total allocated, in this order.
    pub fn get_stats(&self) -> (stats: (usize, usize, usize, usize))
        ensures
            stats.0 == self@.cursor,
            stats.1 == self@.capacity,
            stats.2 == self@.high_water,
            stats.3 == self@.total_allocated,
    {
        (self.current_offset, self.size, self.high_water_mark, self.total_allocated)
    }
}

} // verus!
