//! The free-list heap as mathematics: a row of blocks that tiles a range,
//! and what allocation and release do to that row.

use vstd::prelude::*;
use crate::layout::{block_size_for, pages_for, HEADER_SIZE, MIN_SPLIT_PAYLOAD, PAGE_SIZE};

verus! {

/// One block of the heap: its header and the payload behind it.
pub ghost struct BlockModel {
    /// Where the block starts in the region.
    pub offset: int,
    /// How many bytes the block takes, its header included.
    pub size: int,
    /// Whether the block can be handed out.
    pub is_free: bool,
}

impl BlockModel {
    /// One past the last byte of the block.
    pub open spec fn end(self) -> int {
        self.offset + self.size
    }

    /// Where the block's payload starts: right behind its header.
    pub open spec fn payload(self) -> int {
        self.offset + HEADER_SIZE
    }

    /// Whether the block can serve a need of `needed` bytes, header included.
    pub open spec fn fits(self, needed: int) -> bool {
        self.is_free && self.size >= needed
    }
}

/// The sum of the sizes of all blocks.
pub open spec fn total_bytes(blocks: Seq<BlockModel>) -> int
    decreases blocks.len(),
{
    if blocks.len() == 0 {
        0
    } else {
        total_bytes(blocks.drop_last()) + blocks.last().size
    }
}

/// The sum of the sizes of the free blocks.
pub open spec fn free_bytes(blocks: Seq<BlockModel>) -> int
    decreases blocks.len(),
{
    if blocks.len() == 0 {
        0
    } else {
        free_bytes(blocks.drop_last()) + if blocks.last().is_free {
            blocks.last().size
        } else {
            0
        }
    }
}

/// The sum of the sizes of the blocks in use.
pub open spec fn used_bytes(blocks: Seq<BlockModel>) -> int
    decreases blocks.len(),
{
    if blocks.len() == 0 {
        0
    } else {
        used_bytes(blocks.drop_last()) + if blocks.last().is_free {
            0
        } else {
            blocks.last().size
        }
    }
}

/// Block `i` ends where its successor starts.
pub open spec fn adjoins(blocks: Seq<BlockModel>, i: int) -> bool {
    blocks[i].end() == blocks[i + 1].offset
}

/// Block `i` and its successor are not both free.
pub open spec fn apart(blocks: Seq<BlockModel>, i: int) -> bool {
    !(blocks[i].is_free && blocks[i + 1].is_free)
}

/// The blocks cover the range from `start` to `end` in address order,
/// without a gap and without an overlap, and none of them is empty.
pub open spec fn tiles(blocks: Seq<BlockModel>, start: int, end: int) -> bool {
    &&& start <= end
    &&& blocks.len() == 0 ==> start == end
    &&& blocks.len() > 0 ==> blocks[0].offset == start && blocks.last().end() == end
    &&& forall|i: int| 0 <= i < blocks.len() ==> (#[trigger] blocks[i]).size > 0
    &&& forall|i: int| 0 <= i < blocks.len() - 1 ==> #[trigger] adjoins(blocks, i)
}

/// No two neighbours are both free.
pub open spec fn coalesced(blocks: Seq<BlockModel>) -> bool {
    forall|i: int| 0 <= i < blocks.len() - 1 ==> #[trigger] apart(blocks, i)
}

/// Whether block `i` is the first that can serve a need of `needed` bytes.
pub open spec fn is_first_fit(blocks: Seq<BlockModel>, needed: int, i: int) -> bool {
    &&& 0 <= i < blocks.len()
    &&& blocks[i].fits(needed)
    &&& forall|j: int| 0 <= j < i ==> !(#[trigger] blocks[j]).fits(needed)
}

/// The first block, in address order, that can serve a need of `needed`
/// bytes, if there is one.
pub open spec fn first_fit(blocks: Seq<BlockModel>, needed: int) -> Option<int> {
    if exists|i: int| is_first_fit(blocks, needed, i) {
        Some(choose|i: int| is_first_fit(blocks, needed, i))
    } else {
        None
    }
}

/// Whether block `i` is in use and has its payload at `offset`.
pub open spec fn is_payload_block(blocks: Seq<BlockModel>, offset: int, i: int) -> bool {
    &&& 0 <= i < blocks.len()
    &&& !blocks[i].is_free
    &&& blocks[i].payload() == offset
}

/// The block in use whose payload starts at `offset`, if there is one.
pub open spec fn payload_index(blocks: Seq<BlockModel>, offset: int) -> Option<int> {
    if exists|i: int| is_payload_block(blocks, offset, i) {
        Some(choose|i: int| is_payload_block(blocks, offset, i))
    } else {
        None
    }
}

/// Whether taking `needed` bytes out of `block` leaves enough for a block
/// of its own: a header and the least payload.
pub open spec fn splits(block: BlockModel, needed: int) -> bool {
    block.size - needed >= HEADER_SIZE + MIN_SPLIT_PAYLOAD
}

/// The blocks after block `i` has served a need of `needed` bytes: it is in
/// use, and what it had beyond `needed` bytes is a free block behind it,
/// unless that would be too small to stand alone.
pub open spec fn carve(blocks: Seq<BlockModel>, i: int, needed: int) -> Seq<BlockModel> {
    let block = blocks[i];
    if splits(block, needed) {
        blocks.update(i, BlockModel { offset: block.offset, size: needed, is_free: false }).insert(
            i + 1,
            BlockModel { offset: block.offset + needed, size: block.size - needed, is_free: true },
        )
    } else {
        blocks.update(i, BlockModel { is_free: false, ..block })
    }
}

/// The blocks with block `i` and its successor made one, in the state of block `i`.
pub open spec fn merge_at(blocks: Seq<BlockModel>, i: int) -> Seq<BlockModel> {
    blocks.update(
        i,
        BlockModel {
            offset: blocks[i].offset,
            size: blocks[i].size + blocks[i + 1].size,
            is_free: blocks[i].is_free,
        },
    ).remove(i + 1)
}

/// The blocks with block `i` marked free.
pub open spec fn mark_free(blocks: Seq<BlockModel>, i: int) -> Seq<BlockModel> {
    blocks.update(i, BlockModel { is_free: true, ..blocks[i] })
}

/// The blocks after block `i` is released: it is free, it has taken in its
/// successor if that was free, and its predecessor, if free, has taken it in.
pub open spec fn release_at(blocks: Seq<BlockModel>, i: int) -> Seq<BlockModel> {
    let freed = mark_free(blocks, i);
    let forward = if i + 1 < freed.len() && freed[i + 1].is_free {
        merge_at(freed, i)
    } else {
        freed
    };
    if i > 0 && forward[i - 1].is_free {
        merge_at(forward, i - 1)
    } else {
        forward
    }
}

/// What a free-list heap is, as mathematics.
pub ghost struct HeapState {
    /// The blocks, in address order.
    pub blocks: Seq<BlockModel>,
    /// Where the managed range starts in the region.
    pub start: int,
    /// One past the last managed byte.
    pub end: int,
}

impl HeapState {
    /// The heap's invariant: the blocks tile the managed range, which is
    /// addressable; every block holds at least its header; and no two
    /// neighbours are both free.
    pub open spec fn valid(self) -> bool {
        &&& self.sound()
        &&& coalesced(self.blocks)
    }

    /// The invariant short of coalescing.
    pub open spec fn sound(self) -> bool {
        &&& 0 <= self.start
        &&& self.end <= usize::MAX
        &&& tiles(self.blocks, self.start, self.end)
        &&& forall|i: int|
            0 <= i < self.blocks.len() ==> (#[trigger] self.blocks[i]).size >= HEADER_SIZE
    }

    /// The heap over the `size` bytes from `start` on: one free block, or
    /// nothing at all where the range cannot hold a header.
    pub open spec fn initial(start: int, size: int) -> HeapState {
        if size < HEADER_SIZE {
            HeapState { blocks: Seq::empty(), start, end: start }
        } else {
            HeapState {
                blocks: seq![BlockModel { offset: start, size, is_free: true }],
                start,
                end: start + size,
            }
        }
    }

    /// Whether `offset` lies in the managed range.
    pub open spec fn contains(self, offset: int) -> bool {
        self.start <= offset < self.end
    }

    /// The heap with `pages` new pages behind it, as one free block.
    pub open spec fn grown(self, pages: int) -> HeapState {
        HeapState {
            blocks: self.blocks.push(
                BlockModel { offset: self.end, size: pages * PAGE_SIZE, is_free: true },
            ),
            start: self.start,
            end: self.end + pages * PAGE_SIZE,
        }
    }

    /// Whether a request of `size` bytes makes the heap grow: no block can
    /// serve it, and `growable` says that the region can take the pages for it.
    pub open spec fn malloc_grows(self, size: int, growable: bool) -> bool {
        &&& block_size_for(size) <= usize::MAX
        &&& first_fit(self.blocks, block_size_for(size)).is_none()
        &&& growable
    }

    /// The heap after a request of `size` bytes. The first block that fits
    /// serves it; where none does and the heap can grow, the new pages serve it.
    pub open spec fn after_malloc(self, size: int, growable: bool) -> HeapState {
        let needed = block_size_for(size);
        if needed > usize::MAX {
            self
        } else {
            match first_fit(self.blocks, needed) {
                Some(i) => HeapState { blocks: carve(self.blocks, i, needed), ..self },
                None => if growable {
                    let grown = self.grown(pages_for(needed));
                    HeapState {
                        blocks: carve(grown.blocks, self.blocks.len() as int, needed),
                        ..grown
                    }
                } else {
                    self
                },
            }
        }
    }

    /// Where the payload of that request starts, if it is served.
    pub open spec fn malloc_result(self, size: int, growable: bool) -> Option<int> {
        let needed = block_size_for(size);
        if needed > usize::MAX {
            None
        } else {
            match first_fit(self.blocks, needed) {
                Some(i) => Some(self.blocks[i].payload()),
                None => if growable {
                    Some(self.end + HEADER_SIZE)
                } else {
                    None
                },
            }
        }
    }

    /// The heap after the release of `offset`: unchanged unless the offset
    /// lies in the managed range and a block in use has its payload there.
    pub open spec fn after_free(self, offset: int) -> HeapState {
        if !self.contains(offset) {
            self
        } else {
            match payload_index(self.blocks, offset) {
                Some(i) => HeapState { blocks: release_at(self.blocks, i), ..self },
                None => self,
            }
        }
    }
}

/// In a tiling, every block lies inside the range.
pub proof fn lemma_block_bounds(blocks: Seq<BlockModel>, start: int, end: int, i: int)
    requires
        tiles(blocks, start, end),
        0 <= i < blocks.len(),
    ensures
        start <= blocks[i].offset,
        blocks[i].end() <= end,
{
    lemma_ordered(blocks, start, end, 0, i);
    lemma_ordered(blocks, start, end, i, blocks.len() - 1);
}

/// In a tiling, a block ends no later than any block behind it ends, and
/// starts no earlier than any block in front of it starts.
pub proof fn lemma_ordered(blocks: Seq<BlockModel>, start: int, end: int, i: int, j: int)
    requires
        tiles(blocks, start, end),
        0 <= i <= j < blocks.len(),
    ensures
        blocks[i].offset <= blocks[j].offset,
        blocks[i].end() <= blocks[j].end(),
        i < j ==> blocks[i].end() <= blocks[j].offset,
    decreases j - i,
{
    if i < j {
        lemma_ordered(blocks, start, end, i, j - 1);
        assert(adjoins(blocks, j - 1));
        assert(blocks[j].size > 0);
    }
}

/// The blocks of a tiling add up to the length of the range.
pub proof fn lemma_tiles_total(blocks: Seq<BlockModel>, start: int, end: int)
    requires
        tiles(blocks, start, end),
    ensures
        total_bytes(blocks) == end - start,
    decreases blocks.len(),
{
    if blocks.len() > 0 {
        let front = blocks.drop_last();
        let last = blocks.last();
        if front.len() == 0 {
            assert(total_bytes(front) == 0);
        } else {
            assert(adjoins(blocks, blocks.len() - 2));
            lemma_ordered(blocks, start, end, 0, blocks.len() - 1);
            assert(front[0] == blocks[0]);
            assert(front.last() == blocks[blocks.len() - 2]);
            assert forall|i: int| 0 <= i < front.len() - 1 implies #[trigger] adjoins(front, i) by {
                assert(adjoins(blocks, i));
            }
            assert forall|i: int| 0 <= i < front.len() implies (#[trigger] front[i]).size > 0 by {
                assert(blocks[i].size > 0);
            }
            assert(tiles(front, start, last.offset));
            lemma_tiles_total(front, start, last.offset);
        }
    }
}

/// Every byte of the blocks is either free or in use.
pub proof fn lemma_free_plus_used(blocks: Seq<BlockModel>)
    ensures
        free_bytes(blocks) + used_bytes(blocks) == total_bytes(blocks),
    decreases blocks.len(),
{
    if blocks.len() > 0 {
        lemma_free_plus_used(blocks.drop_last());
    }
}

/// In a tiling, no two blocks have their payload at the same place.
pub proof fn lemma_payload_unique(
    blocks: Seq<BlockModel>,
    start: int,
    end: int,
    offset: int,
    i: int,
    j: int,
)
    requires
        tiles(blocks, start, end),
        0 <= i < blocks.len(),
        0 <= j < blocks.len(),
        blocks[i].payload() == offset,
        blocks[j].payload() == offset,
    ensures
        i == j,
{
    if i < j {
        lemma_ordered(blocks, start, end, i, j);
        assert(blocks[i].size > 0);
    } else if j < i {
        lemma_ordered(blocks, start, end, j, i);
        assert(blocks[j].size > 0);
    }
}

/// The block that `payload_index` names is the one in use with its payload
/// at the offset, and there is no other.
pub proof fn lemma_payload_index(blocks: Seq<BlockModel>, start: int, end: int, offset: int, i: int)
    requires
        tiles(blocks, start, end),
        is_payload_block(blocks, offset, i),
    ensures
        payload_index(blocks, offset) == Some(i),
{
    let chosen = choose|k: int| is_payload_block(blocks, offset, k);
    lemma_payload_unique(blocks, start, end, offset, i, chosen);
}

/// The block that `first_fit` names is the first that fits.
pub proof fn lemma_first_fit(blocks: Seq<BlockModel>, needed: int, i: int)
    requires
        is_first_fit(blocks, needed, i),
    ensures
        first_fit(blocks, needed) == Some(i),
{
    let chosen = choose|k: int| is_first_fit(blocks, needed, k);
    if chosen < i {
        assert(!blocks[chosen].fits(needed));
    } else if i < chosen {
        assert(!blocks[i].fits(needed));
    }
}

/// Where any block fits, `first_fit` names one, and none before it fits:
/// a request that some block can serve is served by the first such block,
/// and the heap grows only where no block fits.
pub proof fn lemma_first_fit_finds(blocks: Seq<BlockModel>, needed: int, i: int)
    requires
        0 <= i < blocks.len(),
        blocks[i].fits(needed),
    ensures
        first_fit(blocks, needed).is_some(),
        first_fit(blocks, needed).unwrap() <= i,
        is_first_fit(blocks, needed, first_fit(blocks, needed).unwrap()),
    decreases i,
{
    if exists|j: int| 0 <= j < i && (#[trigger] blocks[j]).fits(needed) {
        let j = choose|j: int| 0 <= j < i && (#[trigger] blocks[j]).fits(needed);
        lemma_first_fit_finds(blocks, needed, j);
    } else {
        assert(is_first_fit(blocks, needed, i));
        lemma_first_fit(blocks, needed, i);
    }
}

/// Serving a need from a block that fits keeps the tiling, and every block
/// keeps room for its header.
pub proof fn lemma_carve_sound(heap: HeapState, i: int, needed: int)
    requires
        heap.sound(),
        0 <= i < heap.blocks.len(),
        heap.blocks[i].size >= needed >= HEADER_SIZE,
    ensures
        (HeapState { blocks: carve(heap.blocks, i, needed), ..heap }).sound(),
{
    let blocks = heap.blocks;
    let carved = carve(blocks, i, needed);
    if splits(blocks[i], needed) {
        assert forall|j: int| 0 <= j < carved.len() - 1 implies #[trigger] adjoins(carved, j) by {
            if j < i {
                assert(adjoins(blocks, j));
            } else if j > i {
                assert(adjoins(blocks, j - 1));
            }
        }
        assert forall|j: int| 0 <= j < carved.len() implies (#[trigger] carved[j]).size
            >= HEADER_SIZE by {
            if j < i {
                assert(blocks[j].size >= HEADER_SIZE);
            } else if j > i + 1 {
                assert(blocks[j - 1].size >= HEADER_SIZE);
            }
        }
    } else {
        assert forall|j: int| 0 <= j < carved.len() - 1 implies #[trigger] adjoins(carved, j) by {
            assert(adjoins(blocks, j));
        }
        assert forall|j: int| 0 <= j < carved.len() implies (#[trigger] carved[j]).size
            >= HEADER_SIZE by {
            assert(blocks[j].size >= HEADER_SIZE);
        }
    }
}

/// Serving a need from a free block whose successor is in use leaves no two
/// free neighbours, if there were none apart from that block and its predecessor.
pub proof fn lemma_carve_coalesced(blocks: Seq<BlockModel>, i: int, needed: int)
    requires
        0 <= i < blocks.len(),
        forall|j: int| 0 <= j < blocks.len() - 1 && j != i - 1 ==> #[trigger] apart(blocks, j),
        blocks[i].is_free,
    ensures
        coalesced(carve(blocks, i, needed)),
{
    let carved = carve(blocks, i, needed);
    if splits(blocks[i], needed) {
        assert forall|j: int| 0 <= j < carved.len() - 1 implies #[trigger] apart(carved, j) by {
            if j < i - 1 {
                assert(apart(blocks, j));
            } else if j == i + 1 {
                assert(apart(blocks, i));
            } else if j > i + 1 {
                assert(apart(blocks, j - 1));
            }
        }
    } else {
        assert forall|j: int| 0 <= j < carved.len() - 1 implies #[trigger] apart(carved, j) by {
            if j != i - 1 {
                assert(apart(blocks, j));
            }
        }
    }
}

/// New pages behind a heap keep the tiling.
pub proof fn lemma_grown_sound(heap: HeapState, pages: int)
    requires
        heap.sound(),
        pages >= 1,
        heap.end + pages * PAGE_SIZE <= usize::MAX,
    ensures
        heap.grown(pages).sound(),
        heap.grown(pages).blocks.len() == heap.blocks.len() + 1,
        heap.grown(pages).blocks.last().size == pages * PAGE_SIZE,
{
    let blocks = heap.blocks;
    let grown = heap.grown(pages).blocks;
    assert(pages * PAGE_SIZE >= PAGE_SIZE) by (nonlinear_arith)
        requires
            pages >= 1,
    ;
    assert forall|j: int| 0 <= j < grown.len() - 1 implies #[trigger] adjoins(grown, j) by {
        if j < blocks.len() - 1 {
            assert(adjoins(blocks, j));
        }
    }
    assert forall|j: int| 0 <= j < grown.len() implies (#[trigger] grown[j]).size
        >= HEADER_SIZE by {
        if j < blocks.len() {
            assert(blocks[j].size >= HEADER_SIZE);
        }
    }
    assert forall|j: int| 0 <= j < grown.len() implies (#[trigger] grown[j]).size > 0 by {
        if j < blocks.len() {
            assert(blocks[j].size > 0);
        }
    }
}

/// Marking a block free keeps the tiling.
pub proof fn lemma_mark_free_sound(heap: HeapState, i: int)
    requires
        heap.sound(),
        0 <= i < heap.blocks.len(),
    ensures
        (HeapState { blocks: mark_free(heap.blocks, i), ..heap }).sound(),
{
    let blocks = heap.blocks;
    let freed = mark_free(blocks, i);
    assert forall|j: int| 0 <= j < freed.len() - 1 implies #[trigger] adjoins(freed, j) by {
        assert(adjoins(blocks, j));
    }
    assert forall|j: int| 0 <= j < freed.len() implies (#[trigger] freed[j]).size
        >= HEADER_SIZE by {
        assert(blocks[j].size >= HEADER_SIZE);
    }
}

/// Making one block of two neighbours keeps the tiling.
pub proof fn lemma_merge_sound(heap: HeapState, i: int)
    requires
        heap.sound(),
        0 <= i < heap.blocks.len() - 1,
    ensures
        (HeapState { blocks: merge_at(heap.blocks, i), ..heap }).sound(),
{
    let blocks = heap.blocks;
    let merged = merge_at(blocks, i);
    assert(adjoins(blocks, i));
    assert(blocks[i].size >= HEADER_SIZE);
    assert(blocks[i + 1].size >= HEADER_SIZE);
    assert forall|j: int| 0 <= j < merged.len() - 1 implies #[trigger] adjoins(merged, j) by {
        if j < i {
            assert(adjoins(blocks, j));
        } else {
            assert(adjoins(blocks, j + 1));
        }
    }
    assert forall|j: int| 0 <= j < merged.len() implies (#[trigger] merged[j]).size
        >= HEADER_SIZE by {
        if j < i {
            assert(blocks[j].size >= HEADER_SIZE);
        } else if j > i {
            assert(blocks[j + 1].size >= HEADER_SIZE);
        }
    }
}

/// Releasing a block in use keeps the heap's invariant.
pub proof fn lemma_release_valid(heap: HeapState, i: int)
    requires
        heap.valid(),
        0 <= i < heap.blocks.len(),
        !heap.blocks[i].is_free,
    ensures
        (HeapState { blocks: release_at(heap.blocks, i), ..heap }).valid(),
{
    let blocks = heap.blocks;
    let freed = mark_free(blocks, i);
    lemma_mark_free_sound(heap, i);
    let freed_heap = HeapState { blocks: freed, ..heap };
    let forward = if i + 1 < freed.len() && freed[i + 1].is_free {
        merge_at(freed, i)
    } else {
        freed
    };
    let forward_heap = HeapState { blocks: forward, ..heap };
    if i + 1 < freed.len() && freed[i + 1].is_free {
        lemma_merge_sound(freed_heap, i);
    }
    assert(forward_heap.sound());
    let released = release_at(blocks, i);
    if i > 0 && forward[i - 1].is_free {
        lemma_merge_sound(forward_heap, i - 1);
    }
    assert forall|j: int| 0 <= j < released.len() - 1 implies #[trigger] apart(released, j) by {
        let took_next = i + 1 < freed.len() && freed[i + 1].is_free;
        let took_prev = i > 0 && forward[i - 1].is_free;
        if i > 0 {
            assert(apart(blocks, i - 1));
        }
        if i > 1 {
            assert(apart(blocks, i - 2));
        }
        if i + 1 < blocks.len() {
            assert(apart(blocks, i));
        }
        if i + 2 < blocks.len() {
            assert(apart(blocks, i + 1));
        }
        if j + 1 < blocks.len() {
            assert(apart(blocks, j));
        }
        if j + 2 < blocks.len() {
            assert(apart(blocks, j + 1));
        }
        if j + 3 < blocks.len() {
            assert(apart(blocks, j + 2));
        }
    }
}

/// A request keeps the heap's invariant.
pub proof fn lemma_malloc_valid(heap: HeapState, size: int, growable: bool)
    requires
        heap.valid(),
        0 <= size,
        growable ==> heap.end + pages_for(block_size_for(size)) * PAGE_SIZE <= usize::MAX,
    ensures
        heap.after_malloc(size, growable).valid(),
{
    let needed = block_size_for(size);
    crate::layout::lemma_align_up(size, crate::layout::request_alignment(size));
    if needed <= usize::MAX {
        match first_fit(heap.blocks, needed) {
            Some(i) => {
                lemma_carve_sound(heap, i, needed);
                lemma_carve_coalesced(heap.blocks, i, needed);
            },
            None => {
                if growable {
                    let pages = pages_for(needed);
                    crate::layout::lemma_align_up(needed, PAGE_SIZE as int);
                    assert(pages >= 1) by (nonlinear_arith)
                        requires
                            pages * PAGE_SIZE >= needed,
                            needed >= 1,
                    ;
                    lemma_grown_sound(heap, pages);
                    let grown = heap.grown(pages);
                    let last = heap.blocks.len() as int;
                    lemma_carve_sound(grown, last, needed);
                    assert forall|j: int|
                        0 <= j < grown.blocks.len() - 1 && j != last - 1 implies #[trigger] apart(
                        grown.blocks,
                        j,
                    ) by {
                        assert(apart(heap.blocks, j));
                    }
                    lemma_carve_coalesced(grown.blocks, last, needed);
                }
            },
        }
    }
}

/// A release keeps the heap's invariant.
pub proof fn lemma_free_valid(heap: HeapState, offset: int)
    requires
        heap.valid(),
    ensures
        heap.after_free(offset).valid(),
{
    if heap.contains(offset) {
        match payload_index(heap.blocks, offset) {
            Some(i) => {
                lemma_release_valid(heap, i);
            },
            None => {},
        }
    }
}

/// No payload starts at offset zero, so to release it changes nothing.
pub proof fn lemma_free_of_nothing(heap: HeapState)
    requires
        heap.sound(),
    ensures
        heap.after_free(0) == heap,
{
    assert forall|i: int| !is_payload_block(heap.blocks, 0, i) by {
        if 0 <= i < heap.blocks.len() {
            lemma_block_bounds(heap.blocks, heap.start, heap.end, i);
        }
    }
}

/// In a heap that tiles its range, the free bytes and the bytes in use add
/// up to the length of the range: no byte is lost and none is counted twice.
pub proof fn lemma_bytes_conserved(heap: HeapState)
    requires
        heap.sound(),
    ensures
        free_bytes(heap.blocks) + used_bytes(heap.blocks) == heap.end - heap.start,
{
    lemma_tiles_total(heap.blocks, heap.start, heap.end);
    lemma_free_plus_used(heap.blocks);
}

/// One thing that can be done to a heap.
pub ghost enum HeapOp {
    /// A request of `size` bytes, at a time when the region behind the heap
    /// has room below its page limit or has not, as `headroom` says.
    Allocate { size: nat, headroom: bool },
    /// The release of an offset.
    Release { offset: nat },
}

impl HeapState {
    /// The heap after `op`. A request makes the heap grow only where the
    /// grown heap stays addressable.
    pub open spec fn step(self, op: HeapOp) -> HeapState {
        match op {
            HeapOp::Allocate { size, headroom } => self.after_malloc(
                size as int,
                headroom && self.end + pages_for(block_size_for(size as int)) * PAGE_SIZE
                    <= usize::MAX,
            ),
            HeapOp::Release { offset } => self.after_free(offset as int),
        }
    }

    /// The heap after all of `ops`, one after the other.
    pub open spec fn run(self, ops: Seq<HeapOp>) -> HeapState
        decreases ops.len(),
    {
        if ops.len() == 0 {
            self
        } else {
            self.run(ops.drop_last()).step(ops.last())
        }
    }
}

/// Whatever requests and releases a valid heap goes through, in whatever
/// order, at every point the heap is valid, and the free bytes and the
/// bytes in use add up to all the bytes it manages.
pub proof fn lemma_run_conserves_bytes(heap: HeapState, ops: Seq<HeapOp>, k: int)
    requires
        heap.valid(),
        0 <= k <= ops.len(),
    ensures
        ({
            let reached = heap.run(ops.take(k));
            &&& reached.valid()
            &&& reached.start == heap.start
            &&& reached.end >= heap.end
            &&& free_bytes(reached.blocks) + used_bytes(reached.blocks) == reached.end
                - reached.start
        }),
    decreases k,
{
    let reached = heap.run(ops.take(k));
    if k > 0 {
        lemma_run_conserves_bytes(heap, ops, k - 1);
        assert(ops.take(k).drop_last() =~= ops.take(k - 1));
        let before = heap.run(ops.take(k - 1));
        match ops.take(k).last() {
            HeapOp::Allocate { size, headroom } => {
                let growable = headroom && before.end + pages_for(block_size_for(size as int))
                    * PAGE_SIZE <= usize::MAX;
                lemma_malloc_valid(before, size as int, growable);
                crate::layout::lemma_align_up(block_size_for(size as int), PAGE_SIZE as int);
            },
            HeapOp::Release { offset } => {
                lemma_free_valid(before, offset as int);
            },
        }
    }
    lemma_bytes_conserved(reached);
}

/// What serving a need from a block does to the row of blocks. Where the
/// block has a header and the least payload to spare, two blocks stand in
/// its place: first one in use of exactly the needed size, then a free one
/// with the rest, and their sizes add up to the size of the block. Where it
/// has not, the block is handed out whole, and the row is no longer than before.
pub proof fn lemma_split_or_whole(blocks: Seq<BlockModel>, i: int, needed: int)
    requires
        0 <= i < blocks.len(),
        blocks[i].size >= needed,
    ensures
        ({
            let carved = carve(blocks, i, needed);
            &&& splits(blocks[i], needed) ==> {
                &&& carved.len() == blocks.len() + 1
                &&& carved[i] == (BlockModel {
                    offset: blocks[i].offset,
                    size: needed,
                    is_free: false,
                })
                &&& carved[i + 1] == (BlockModel {
                    offset: blocks[i].offset + needed,
                    size: blocks[i].size - needed,
                    is_free: true,
                })
                &&& carved[i].size + carved[i + 1].size == blocks[i].size
                &&& carved.take(i) == blocks.take(i)
                &&& carved.skip(i + 2) == blocks.skip(i + 1)
            }
            &&& !splits(blocks[i], needed) ==> {
                &&& carved.len() == blocks.len()
                &&& carved[i] == (BlockModel { is_free: false, ..blocks[i] })
                &&& carved[i].size < needed + HEADER_SIZE + MIN_SPLIT_PAYLOAD
                &&& carved.take(i) == blocks.take(i)
                &&& carved.skip(i + 1) == blocks.skip(i + 1)
            }
            &&& total_bytes(carved) == total_bytes(blocks)
        }),
{
    let carved = carve(blocks, i, needed);
    if splits(blocks[i], needed) {
        assert(carved.take(i) =~= blocks.take(i));
        assert(carved.skip(i + 2) =~= blocks.skip(i + 1));
    } else {
        assert(carved.take(i) =~= blocks.take(i));
        assert(carved.skip(i + 1) =~= blocks.skip(i + 1));
    }
    lemma_carve_total(blocks, i, needed);
}

/// Serving a need from a block leaves the sum of all sizes as it was.
pub proof fn lemma_carve_total(blocks: Seq<BlockModel>, i: int, needed: int)
    requires
        0 <= i < blocks.len(),
    ensures
        total_bytes(carve(blocks, i, needed)) == total_bytes(blocks),
    decreases blocks.len(),
{
    let carved = carve(blocks, i, needed);
    let last = blocks.len() - 1;
    if i == last {
        if splits(blocks[i], needed) {
            assert(carved.drop_last().drop_last() =~= blocks.drop_last());
            assert(total_bytes(carved) == total_bytes(carved.drop_last()) + carved.last().size);
            assert(total_bytes(carved.drop_last()) == total_bytes(carved.drop_last().drop_last())
                + carved.drop_last().last().size);
        } else {
            assert(carved.drop_last() =~= blocks.drop_last());
        }
    } else {
        assert(carved.drop_last() =~= carve(blocks.drop_last(), i, needed));
        assert(carved.last() == blocks.last());
        lemma_carve_total(blocks.drop_last(), i, needed);
    }
}

/// The first block of the run that a release of block `i` makes one: its
/// predecessor if that is free, else the block itself.
pub open spec fn release_low(blocks: Seq<BlockModel>, i: int) -> int {
    if i > 0 && blocks[i - 1].is_free {
        i - 1
    } else {
        i
    }
}

/// The last block of the run that a release of block `i` makes one: its
/// successor if that is free, else the block itself.
pub open spec fn release_high(blocks: Seq<BlockModel>, i: int) -> int {
    if i + 1 < blocks.len() && blocks[i + 1].is_free {
        i + 1
    } else {
        i
    }
}

/// The blocks with the run from `low` to `high` replaced by one free block
/// that spans it.
pub open spec fn fused(blocks: Seq<BlockModel>, low: int, high: int) -> Seq<BlockModel> {
    blocks.take(low).push(
        BlockModel {
            offset: blocks[low].offset,
            size: blocks[high].end() - blocks[low].offset,
            is_free: true,
        },
    ) + blocks.skip(high + 1)
}

/// A release makes one free block of the released block and its free
/// neighbours, and leaves every other block as it was.
pub proof fn lemma_release_fuses(heap: HeapState, i: int)
    requires
        heap.sound(),
        0 <= i < heap.blocks.len(),
    ensures
        release_at(heap.blocks, i) == fused(
            heap.blocks,
            release_low(heap.blocks, i),
            release_high(heap.blocks, i),
        ),
{
    let blocks = heap.blocks;
    let low = release_low(blocks, i);
    let high = release_high(blocks, i);
    if low < i {
        assert(adjoins(blocks, i - 1));
    }
    if high > i {
        assert(adjoins(blocks, i));
    }
    assert(release_at(blocks, i) =~= fused(blocks, low, high));
}

/// To fuse a run and then the run that starts with the fused block is to
/// fuse the two runs as one.
proof fn lemma_fuse_onward(blocks: Seq<BlockModel>, low: int, mid: int, high: int)
    requires
        0 <= low <= mid < high < blocks.len(),
    ensures
        fused(fused(blocks, low, mid), low, low + (high - mid)) == fused(blocks, low, high),
{
    let once = fused(blocks, low, mid);
    assert(once.len() == blocks.len() - (mid - low));
    assert(once[low].offset == blocks[low].offset);
    assert(once[low + (high - mid)] == blocks[high]);
    assert(fused(once, low, low + (high - mid)) =~= fused(blocks, low, high));
}

/// To fuse a run and then a run that ends with the fused block is to fuse
/// the two runs as one.
proof fn lemma_fuse_backward(blocks: Seq<BlockModel>, low: int, mid: int, high: int)
    requires
        0 <= low < mid <= high < blocks.len(),
    ensures
        fused(fused(blocks, mid, high), low, mid) == fused(blocks, low, high),
{
    let once = fused(blocks, mid, high);
    assert(once.len() == blocks.len() - (high - mid));
    assert(once[low] == blocks[low]);
    assert(once[mid].end() == blocks[high].end());
    assert(fused(once, low, mid) =~= fused(blocks, low, high));
}

/// Two neighbours in use, the first released before the second.
proof fn lemma_release_in_order(heap: HeapState, i: int)
    requires
        heap.valid(),
        0 <= i,
        i + 1 < heap.blocks.len(),
        !heap.blocks[i].is_free,
        !heap.blocks[i + 1].is_free,
        heap.contains(heap.blocks[i + 1].payload()),
    ensures
        heap.after_free(heap.blocks[i].payload()).after_free(heap.blocks[i + 1].payload()) == (
        HeapState {
            blocks: fused(
                heap.blocks,
                release_low(heap.blocks, i),
                release_high(heap.blocks, i + 1),
            ),
            ..heap
        }),
{
    let blocks = heap.blocks;
    let first = blocks[i].payload();
    let second = blocks[i + 1].payload();
    let low = release_low(blocks, i);
    let high = release_high(blocks, i + 1);
    assert(adjoins(blocks, i));
    assert(blocks[i].size >= HEADER_SIZE);
    lemma_block_bounds(blocks, heap.start, heap.end, i);
    assert(heap.contains(first));
    lemma_payload_index(blocks, heap.start, heap.end, first, i);
    lemma_release_fuses(heap, i);
    lemma_release_valid(heap, i);
    let one = heap.after_free(first);
    assert(release_high(blocks, i) == i);
    assert(one == HeapState { blocks: fused(blocks, low, i), ..heap });
    assert(one.blocks.len() == blocks.len() - (i - low));
    assert(one.blocks[low].is_free);
    assert(one.blocks[low + 1] == blocks[i + 1]);
    assert(is_payload_block(one.blocks, second, low + 1));
    lemma_payload_index(one.blocks, one.start, one.end, second, low + 1);
    lemma_release_fuses(one, low + 1);
    assert(release_low(one.blocks, low + 1) == low);
    if i + 2 < blocks.len() {
        assert(one.blocks[low + 2] == blocks[i + 2]);
    }
    assert(release_high(one.blocks, low + 1) == low + 1 + (high - (i + 1)));
    lemma_fuse_onward(blocks, low, i, high);
}

/// Two neighbours in use, the second released before the first.
proof fn lemma_release_in_reverse(heap: HeapState, i: int)
    requires
        heap.valid(),
        0 <= i,
        i + 1 < heap.blocks.len(),
        !heap.blocks[i].is_free,
        !heap.blocks[i + 1].is_free,
        heap.contains(heap.blocks[i + 1].payload()),
    ensures
        heap.after_free(heap.blocks[i + 1].payload()).after_free(heap.blocks[i].payload()) == (
        HeapState {
            blocks: fused(
                heap.blocks,
                release_low(heap.blocks, i),
                release_high(heap.blocks, i + 1),
            ),
            ..heap
        }),
{
    let blocks = heap.blocks;
    let first = blocks[i].payload();
    let second = blocks[i + 1].payload();
    let low = release_low(blocks, i);
    let high = release_high(blocks, i + 1);
    assert(adjoins(blocks, i));
    assert(blocks[i].size >= HEADER_SIZE);
    lemma_block_bounds(blocks, heap.start, heap.end, i);
    lemma_payload_index(blocks, heap.start, heap.end, second, i + 1);
    lemma_release_fuses(heap, i + 1);
    lemma_release_valid(heap, i + 1);
    let other = heap.after_free(second);
    assert(release_low(blocks, i + 1) == i + 1);
    assert(other == HeapState { blocks: fused(blocks, i + 1, high), ..heap });
    assert(other.blocks.len() == blocks.len() - (high - (i + 1)));
    assert(other.blocks[i] == blocks[i]);
    assert(other.blocks[i + 1].is_free);
    assert(other.contains(first));
    assert(is_payload_block(other.blocks, first, i));
    lemma_payload_index(other.blocks, other.start, other.end, first, i);
    lemma_release_fuses(other, i);
    if i > 0 {
        assert(other.blocks[i - 1] == blocks[i - 1]);
    }
    assert(release_low(other.blocks, i) == low);
    assert(release_high(other.blocks, i) == i + 1);
    lemma_fuse_backward(blocks, low, i + 1, high);
}

/// Two neighbours in use, released one after the other, become one free
/// block that spans them both, together with whatever free block stood
/// before the first or behind the second; and the heap that results is the
/// same whichever of the two is released first. Where the blocks around
/// the two are in use, the free block spans exactly the two.
pub proof fn lemma_coalescing_symmetric(heap: HeapState, i: int)
    requires
        heap.valid(),
        0 <= i,
        i + 1 < heap.blocks.len(),
        !heap.blocks[i].is_free,
        !heap.blocks[i + 1].is_free,
        heap.contains(heap.blocks[i + 1].payload()),
    ensures
        ({
            let first = heap.blocks[i].payload();
            let second = heap.blocks[i + 1].payload();
            let low = release_low(heap.blocks, i);
            let high = release_high(heap.blocks, i + 1);
            &&& heap.after_free(first).after_free(second) == heap.after_free(second).after_free(
                first,
            )
            &&& heap.after_free(first).after_free(second).blocks == fused(heap.blocks, low, high)
            &&& fused(heap.blocks, low, high)[low].is_free
            &&& fused(heap.blocks, low, high)[low].offset <= heap.blocks[i].offset
            &&& fused(heap.blocks, low, high)[low].end() >= heap.blocks[i + 1].end()
            &&& low == i && high == i + 1 ==> fused(heap.blocks, low, high)[low] == (BlockModel {
                offset: heap.blocks[i].offset,
                size: heap.blocks[i].size + heap.blocks[i + 1].size,
                is_free: true,
            })
        }),
{
    lemma_release_in_order(heap, i);
    lemma_release_in_reverse(heap, i);
    lemma_fused_block(heap, i);
}

/// The block that stands for a fused run around two neighbours is free and
/// spans the two.
proof fn lemma_fused_block(heap: HeapState, i: int)
    requires
        heap.sound(),
        0 <= i,
        i + 1 < heap.blocks.len(),
    ensures
        ({
            let low = release_low(heap.blocks, i);
            let high = release_high(heap.blocks, i + 1);
            let block = fused(heap.blocks, low, high)[low];
            &&& block.is_free
            &&& block.offset <= heap.blocks[i].offset
            &&& block.end() >= heap.blocks[i + 1].end()
            &&& low == i && high == i + 1 ==> block == (BlockModel {
                offset: heap.blocks[i].offset,
                size: heap.blocks[i].size + heap.blocks[i + 1].size,
                is_free: true,
            })
        }),
{
    let blocks = heap.blocks;
    let low = release_low(blocks, i);
    let high = release_high(blocks, i + 1);
    assert(adjoins(blocks, i));
    lemma_ordered(blocks, heap.start, heap.end, low, i);
    lemma_ordered(blocks, heap.start, heap.end, i + 1, high);
}

} // verus!
