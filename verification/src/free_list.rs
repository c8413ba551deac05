//! The general-purpose allocator: a singly linked list of block headers,
//! kept as records that name each other by position, searched first-fit,
//! split on allocation and coalesced on release.

use vstd::prelude::*;
use crate::heap::{
    adjoins, carve, first_fit, free_bytes, is_first_fit, is_payload_block, lemma_block_bounds,
    lemma_first_fit, lemma_free_valid, lemma_grown_sound, lemma_malloc_valid,
    lemma_mark_free_sound, lemma_merge_sound, lemma_payload_index, lemma_payload_unique,
    mark_free, merge_at, release_at, used_bytes, BlockModel, HeapState,
};
use crate::layout::{
    block_size_for, checked_block_size, lemma_align_up, page_count, pages_for, request_alignment,
    HEADER_SIZE, MIN_SPLIT_PAYLOAD, PAGE_SIZE,
};
use crate::region::{zeros, MemoryRegion};

verus! {

/// A block as a caller sees it.
#[derive(Clone, Copy, PartialEq, Eq, Structural, Debug)]
pub struct Block {
    /// Where the block starts in the region.
    pub offset: usize,
    /// How many bytes the block takes, its header included.
    pub size: usize,
    /// Whether the block can be handed out.
    pub is_free: bool,
}

impl View for Block {
    type V = BlockModel;

    open spec fn view(&self) -> BlockModel {
        BlockModel { offset: self.offset as int, size: self.size as int, is_free: self.is_free }
    }
}

#[derive(Clone, Copy)]
struct BlockHeader {
    offset: usize,
    size: usize,
    next: Option<usize>,
    is_free: bool,
}

spec fn model_of(header: BlockHeader) -> BlockModel {
    BlockModel { offset: header.offset as int, size: header.size as int, is_free: header.is_free }
}

/// Record `order[k]` names record `order[k + 1]` as its successor, and the
/// last record names none.
spec fn links(headers: Seq<BlockHeader>, order: Seq<usize>, k: int) -> bool {
    headers[order[k] as int].next == (if k + 1 < order.len() {
        Some(order[k + 1])
    } else {
        None
    })
}

/// A first-fit allocator over a range of the region.
pub struct DefaultAllocator {
    headers: Vec<BlockHeader>,
    free_list_head: Option<usize>,
    spare: Vec<usize>,
    heap_start: usize,
    heap_end: usize,
    order: Ghost<Seq<usize>>,
}

impl View for DefaultAllocator {
    type V = HeapState;

    closed spec fn view(&self) -> HeapState {
        HeapState {
            blocks: Seq::new(
                self.order@.len(),
                |k: int| model_of(self.headers@[self.order@[k] as int]),
            ),
            start: self.heap_start as int,
            end: self.heap_end as int,
        }
    }
}

impl DefaultAllocator {
    /// The records form one list from the head on, and the spare records
    /// are apart from it.
    pub closed spec fn linked(&self) -> bool {
        let order = self.order@;
        let headers = self.headers@;
        let spare = self.spare@;
        &&& forall|k: int| 0 <= k < order.len() ==> (#[trigger] order[k]) < headers.len()
        &&& forall|k1: int, k2: int|
            0 <= k1 < k2 < order.len() ==> (#[trigger] order[k1]) != (#[trigger] order[k2])
        &&& self.free_list_head == (if order.len() > 0 {
            Some(order[0])
        } else {
            None
        })
        &&& forall|k: int| 0 <= k < order.len() ==> #[trigger] links(headers, order, k)
        &&& forall|s: int| 0 <= s < spare.len() ==> (#[trigger] spare[s]) < headers.len()
        &&& forall|s1: int, s2: int|
            0 <= s1 < s2 < spare.len() ==> (#[trigger] spare[s1]) != (#[trigger] spare[s2])
        &&& forall|s: int, k: int|
            0 <= s < spare.len() && 0 <= k < order.len() ==> (#[trigger] spare[s])
                != (#[trigger] order[k])
    }

    /// The allocator's invariant: its records are linked, and the heap they
    /// describe is valid.
    pub open spec fn well_formed(&self) -> bool {
        &&& self.linked()
        &&& self@.valid()
    }

    /// Whether a request of `size` bytes could make the heap grow into
    /// `region`: the heap ends where the region ends, and the region can
    /// take the pages that hold the block.
    pub open spec fn growable(&self, region: &MemoryRegion, size: int) -> bool {
        &&& self@.end == region@.len()
        &&& region.can_grow(pages_for(block_size_for(size)))
    }

    /// An allocator over the `heap_size` bytes from `heap_start` on: one
    /// free block that covers them all. A range too small for a header is
    /// not managed at all.
    pub fn new(heap_start: usize, heap_size: usize) -> (allocator: DefaultAllocator)
        requires
            heap_start + heap_size <= usize::MAX,
        ensures
            allocator.well_formed(),
            allocator@ == HeapState::initial(heap_start as int, heap_size as int),
    {
        if heap_size < HEADER_SIZE {
            let allocator = DefaultAllocator {
                headers: Vec::new(),
                free_list_head: None,
                spare: Vec::new(),
                heap_start,
                heap_end: heap_start,
                order: Ghost(Seq::empty()),
            };
            assert(allocator@.blocks =~= Seq::<BlockModel>::empty());
            allocator
        } else {
            let mut headers: Vec<BlockHeader> = Vec::new();
            headers.push(
                BlockHeader { offset: heap_start, size: heap_size, next: None, is_free: true },
            );
            let allocator = DefaultAllocator {
                headers,
                free_list_head: Some(0),
                spare: Vec::new(),
                heap_start,
                heap_end: heap_start + heap_size,
                order: Ghost(Seq::<usize>::empty().push(0usize)),
            };
            assert(allocator@.blocks =~= seq![
                BlockModel { offset: heap_start as int, size: heap_size as int, is_free: true },
            ]);
            assert(links(allocator.headers@, allocator.order@, 0));
            allocator
        }
    }

    /// Where the managed range starts.
    pub fn heap_start(&self) -> (start: usize)
        ensures
            start == self@.start,
    {
        self.heap_start
    }

    /// One past the last managed byte.
    pub fn heap_end(&self) -> (end: usize)
        ensures
            end == self@.end,
    {
        self.heap_end
    }

    /// Whether `offset` lies in the managed range.
    pub fn is_ptr_in_heap(&self, offset: usize) -> (inside: bool)
        ensures
            inside == self@.contains(offset as int),
    {
        offset >= self.heap_start && offset < self.heap_end
    }

    /// Finds the first block that can serve `needed` bytes.
    fn find_fit(&self, needed: usize) -> (found: Option<(usize, Ghost<int>)>)
        requires
            self.linked(),
        ensures
            match found {
                Some((idx, k)) => is_first_fit(self@.blocks, needed as int, k@) && self.order@[k@]
                    == idx,
                None => forall|j: int|
                    0 <= j < self@.blocks.len() ==> !(#[trigger] self@.blocks[j]).fits(
                        needed as int,
                    ),
            },
    {
        let mut current: Option<usize> = self.free_list_head;
        let ghost mut k: int = 0;
        while current.is_some()
            invariant
                self.linked(),
                0 <= k <= self.order@.len(),
                current == (if k < self.order@.len() {
                    Some(self.order@[k])
                } else {
                    None
                }),
                forall|j: int|
                    0 <= j < k ==> !(#[trigger] self@.blocks[j]).fits(needed as int),
            decreases self.order@.len() - k,
        {
            let idx: usize = current.unwrap();
            let header: BlockHeader = self.headers[idx];
            assert(self@.blocks[k] == model_of(header));
            if header.is_free && header.size >= needed {
                return Some((idx, Ghost(k)));
            }
            assert(links(self.headers@, self.order@, k));
            current = header.next;
            proof {
                k = k + 1;
            }
        }
        None
    }

    /// Hands out a record that is not in the list, holding `header`.
    fn take_record(&mut self, header: BlockHeader) -> (idx: usize)
        requires
            old(self).linked(),
        ensures
            final(self).linked(),
            final(self)@ == old(self)@,
            final(self).order@ == old(self).order@,
            final(self).free_list_head == old(self).free_list_head,
            final(self).heap_start == old(self).heap_start,
            final(self).heap_end == old(self).heap_end,
            idx < final(self).headers@.len(),
            final(self).headers@[idx as int] == header,
            final(self).headers@.len() >= old(self).headers@.len(),
            forall|j: int|
                0 <= j < old(self).headers@.len() && j != idx ==> final(self).headers@[j]
                    == old(self).headers@[j],
            forall|k: int| 0 <= k < final(self).order@.len() ==> final(self).order@[k] != idx,
            forall|s: int| 0 <= s < final(self).spare@.len() ==> final(self).spare@[s] != idx,
    {
        let ghost before = *self;
        let idx: usize = match self.spare.pop() {
            Some(idx) => {
                self.headers.set(idx, header);
                idx
            },
            None => {
                self.headers.push(header);
                self.headers.len() - 1
            },
        };
        proof {
            assert forall|k: int| 0 <= k < self.order@.len() implies #[trigger] links(
                self.headers@,
                self.order@,
                k,
            ) by {
                assert(links(before.headers@, before.order@, k));
            }
            assert(self@.blocks =~= before@.blocks);
        }
        idx
    }

    /// Serves `needed` bytes from the block at position `k` of the list.
    fn carve_at(&mut self, idx: usize, Ghost(k): Ghost<int>, needed: usize) -> (payload: usize)
        requires
            old(self).linked(),
            old(self)@.sound(),
            0 <= k < old(self).order@.len(),
            old(self).order@[k] == idx,
            old(self)@.blocks[k].size >= needed >= HEADER_SIZE,
        ensures
            final(self).linked(),
            final(self)@ == (HeapState {
                blocks: carve(old(self)@.blocks, k, needed as int),
                ..old(self)@
            }),
            payload == old(self)@.blocks[k].payload(),
    {
        let ghost before = *self;
        let header: BlockHeader = self.headers[idx];
        proof {
            lemma_block_bounds(before@.blocks, before@.start, before@.end, k);
            assert(before@.blocks[k] == model_of(header));
        }
        if header.size - needed >= HEADER_SIZE + MIN_SPLIT_PAYLOAD {
            let rest = BlockHeader {
                offset: header.offset + needed,
                size: header.size - needed,
                next: header.next,
                is_free: true,
            };
            let new_idx: usize = self.take_record(rest);
            let ghost taken = *self;
            self.headers.set(
                idx,
                BlockHeader {
                    offset: header.offset,
                    size: needed,
                    next: Some(new_idx),
                    is_free: false,
                },
            );
            self.order = Ghost(self.order@.insert(k + 1, new_idx));
            proof {
                let order = self.order@;
                let old_order = before.order@;
                assert(links(before.headers@, old_order, k));
                assert forall|j: int| 0 <= j < order.len() implies #[trigger] links(
                    self.headers@,
                    order,
                    j,
                ) by {
                    if j < k {
                        assert(links(before.headers@, old_order, j));
                        assert(old_order[j] != old_order[k]);
                    } else if j > k + 1 {
                        assert(links(before.headers@, old_order, j - 1));
                        assert(old_order[k] != old_order[j - 1]);
                    }
                }
                assert forall|k1: int, k2: int| 0 <= k1 < k2 < order.len() implies (
                #[trigger] order[k1]) != (#[trigger] order[k2]) by {
                    let o1 = if k1 <= k {
                        k1
                    } else {
                        k1 - 1
                    };
                    let o2 = if k2 <= k {
                        k2
                    } else {
                        k2 - 1
                    };
                    if k1 != k + 1 && k2 != k + 1 {
                        assert(old_order[o1] != old_order[o2]);
                    }
                }
                assert(self@.blocks =~= carve(before@.blocks, k, needed as int)) by {
                    let carved = carve(before@.blocks, k, needed as int);
                    assert(self@.blocks.len() == carved.len());
                    assert forall|j: int| 0 <= j < carved.len() implies self@.blocks[j]
                        == carved[j] by {
                        if j < k {
                            assert(old_order[j] != old_order[k]);
                        } else if j > k + 1 {
                            assert(old_order[k] != old_order[j - 1]);
                        }
                    }
                }
            }
        } else {
            self.headers.set(idx, BlockHeader { is_free: false, ..header });
            proof {
                let order = self.order@;
                assert forall|j: int| 0 <= j < order.len() implies #[trigger] links(
                    self.headers@,
                    order,
                    j,
                ) by {
                    assert(links(before.headers@, order, j));
                }
                assert(self@.blocks =~= carve(before@.blocks, k, needed as int)) by {
                    let carved = carve(before@.blocks, k, needed as int);
                    assert forall|j: int| 0 <= j < carved.len() implies self@.blocks[j]
                        == carved[j] by {
                        if j != k {
                            assert(order[j] != order[k]);
                        }
                    }
                }
            }
        }
        header.offset + HEADER_SIZE
    }

    /// Marks the block at position `k` of the list free.
    fn set_free(&mut self, idx: usize, Ghost(k): Ghost<int>)
        requires
            old(self).linked(),
            0 <= k < old(self).order@.len(),
            old(self).order@[k] == idx,
        ensures
            final(self).linked(),
            final(self).order@ == old(self).order@,
            final(self)@ == (HeapState { blocks: mark_free(old(self)@.blocks, k), ..old(self)@ }),
    {
        let ghost before = *self;
        let header: BlockHeader = self.headers[idx];
        self.headers.set(idx, BlockHeader { is_free: true, ..header });
        proof {
            let order = self.order@;
            assert forall|j: int| 0 <= j < order.len() implies #[trigger] links(
                self.headers@,
                order,
                j,
            ) by {
                assert(links(before.headers@, order, j));
            }
            assert(self@.blocks =~= mark_free(before@.blocks, k)) by {
                let freed = mark_free(before@.blocks, k);
                assert forall|j: int| 0 <= j < freed.len() implies self@.blocks[j] == freed[j] by {
                    if j != k {
                        assert(order[j] != order[k]);
                    }
                }
            }
        }
    }

    /// Makes one block of the block at position `k` of the list and its
    /// successor, whose record becomes spare.
    fn merge_next(&mut self, idx: usize, Ghost(k): Ghost<int>)
        requires
            old(self).linked(),
            old(self)@.sound(),
            0 <= k < old(self).order@.len() - 1,
            old(self).order@[k] == idx,
        ensures
            final(self).linked(),
            final(self).order@ == old(self).order@.remove(k + 1),
            final(self)@ == (HeapState { blocks: merge_at(old(self)@.blocks, k), ..old(self)@ }),
    {
        let ghost before = *self;
        let header: BlockHeader = self.headers[idx];
        proof {
            assert(links(before.headers@, before.order@, k));
            assert(links(before.headers@, before.order@, k + 1));
            assert(before.order@[k] != before.order@[k + 1]);
            assert(before.order@[k + 1] < before.headers@.len());
        }
        let next_idx: usize = header.next.unwrap();
        let next: BlockHeader = self.headers[next_idx];
        proof {
            assert(before@.blocks[k] == model_of(header));
            assert(before@.blocks[k + 1] == model_of(next));
            assert(adjoins(before@.blocks, k));
            lemma_block_bounds(before@.blocks, before@.start, before@.end, k);
            lemma_block_bounds(before@.blocks, before@.start, before@.end, k + 1);
        }
        self.headers.set(
            idx,
            BlockHeader {
                offset: header.offset,
                size: header.size + next.size,
                next: next.next,
                is_free: header.is_free,
            },
        );
        self.spare.push(next_idx);
        self.order = Ghost(self.order@.remove(k + 1));
        proof {
            let order = self.order@;
            let old_order = before.order@;
            assert forall|j: int| 0 <= j < order.len() implies #[trigger] links(
                self.headers@,
                order,
                j,
            ) by {
                if j < k {
                    assert(links(before.headers@, old_order, j));
                    assert(old_order[j] != old_order[k]);
                } else if j > k {
                    assert(links(before.headers@, old_order, j + 1));
                    assert(old_order[k] != old_order[j + 1]);
                }
            }
            assert forall|k1: int, k2: int| 0 <= k1 < k2 < order.len() implies (
            #[trigger] order[k1]) != (#[trigger] order[k2]) by {
                let o1 = if k1 <= k {
                    k1
                } else {
                    k1 + 1
                };
                let o2 = if k2 <= k {
                    k2
                } else {
                    k2 + 1
                };
                assert(old_order[o1] != old_order[o2]);
            }
            assert forall|s1: int, s2: int| 0 <= s1 < s2 < self.spare@.len() implies (
            #[trigger] self.spare@[s1]) != (#[trigger] self.spare@[s2]) by {
                if s2 == self.spare@.len() - 1 {
                    assert(before.spare@[s1] != old_order[k + 1]);
                } else {
                    assert(before.spare@[s1] != before.spare@[s2]);
                }
            }
            assert forall|s: int, j: int|
                0 <= s < self.spare@.len() && 0 <= j < order.len() implies (
            #[trigger] self.spare@[s]) != (#[trigger] order[j]) by {
                let o = if j <= k {
                    j
                } else {
                    j + 1
                };
                if s == self.spare@.len() - 1 {
                    assert(old_order[o] != old_order[k + 1]);
                } else {
                    assert(before.spare@[s] != old_order[o]);
                }
            }
            assert(self@.blocks =~= merge_at(before@.blocks, k)) by {
                let merged = merge_at(before@.blocks, k);
                assert forall|j: int| 0 <= j < merged.len() implies self@.blocks[j]
                    == merged[j] by {
                    if j < k {
                        assert(old_order[j] != old_order[k]);
                    } else if j > k {
                        assert(old_order[k] != old_order[j + 1]);
                    }
                }
            }
        }
    }

    /// Extends the heap by the whole pages that hold `size_needed` bytes, as
    /// one free block at the end of the list. Does nothing where the heap
    /// does not end where the region ends, or the region cannot grow.
    fn grow_heap(&mut self, region: &mut MemoryRegion, size_needed: usize) -> (grown: bool)
        requires
            old(self).linked(),
            old(self)@.sound(),
            old(region).well_formed(),
            size_needed >= 1,
        ensures
            final(self).linked(),
            final(self)@.sound(),
            final(region).well_formed(),
            final(region).limit() == old(region).limit(),
            ({
                let pages = pages_for(size_needed as int);
                let growable = old(self)@.end == old(region)@.len() && old(region).can_grow(pages);
                &&& grown == growable
                &&& growable ==> final(self)@ == old(self)@.grown(pages) && final(region)@
                    == old(region)@ + zeros(pages * PAGE_SIZE)
                &&& !growable ==> final(self)@ == old(self)@ && final(region)@ == old(region)@
            }),
    {
        let ghost before = *self;
        if self.heap_end != region.size() {
            return false;
        }
        let pages_needed: usize = page_count(size_needed);
        if region.grow(pages_needed).is_none() {
            return false;
        }
        let new_block_size: usize = pages_needed * PAGE_SIZE;
        proof {
            assert(pages_needed >= 1) by (nonlinear_arith)
                requires
                    pages_needed * PAGE_SIZE >= size_needed,
                    size_needed >= 1,
            ;
            lemma_grown_sound(before@, pages_needed as int);
        }
        let new_block = BlockHeader {
            offset: self.heap_end,
            size: new_block_size,
            next: None,
            is_free: true,
        };
        let new_idx: usize = self.take_record(new_block);
        let ghost taken = *self;
        match self.free_list_head {
            None => {
                self.free_list_head = Some(new_idx);
            },
            Some(head) => {
                let mut current: usize = head;
                let ghost mut k: int = 0;
                loop
                    invariant
                        self.linked(),
                        0 <= k < self.order@.len(),
                        current == self.order@[k],
                    ensures
                        k == self.order@.len() - 1,
                        current == self.order@[k],
                    decreases self.order@.len() - k,
                {
                    assert(links(self.headers@, self.order@, k));
                    match self.headers[current].next {
                        Some(next) => {
                            current = next;
                            proof {
                                k = k + 1;
                            }
                        },
                        None => {
                            break ;
                        },
                    }
                }
                assert(links(self.headers@, self.order@, k));
                let last: BlockHeader = self.headers[current];
                self.headers.set(current, BlockHeader { next: Some(new_idx), ..last });
            },
        }
        self.heap_end = self.heap_end + new_block_size;
        self.order = Ghost(self.order@.push(new_idx));
        proof {
            let order = self.order@;
            let old_order = before.order@;
            let last = old_order.len() as int;
            assert forall|j: int| 0 <= j < order.len() implies #[trigger] links(
                self.headers@,
                order,
                j,
            ) by {
                if j < last {
                    assert(links(taken.headers@, old_order, j));
                    if j < last - 1 {
                        assert(old_order[j] != old_order[last - 1]);
                    }
                }
            }
            assert forall|k1: int, k2: int| 0 <= k1 < k2 < order.len() implies (
            #[trigger] order[k1]) != (#[trigger] order[k2]) by {
                if k2 < last {
                    assert(old_order[k1] != old_order[k2]);
                }
            }
            assert(self@.blocks =~= before@.grown(pages_needed as int).blocks) by {
                let grown = before@.grown(pages_needed as int).blocks;
                assert forall|j: int| 0 <= j < grown.len() implies self@.blocks[j] == grown[j] by {
                    if j < last {
                        assert(taken@.blocks[j] == before@.blocks[j]);
                        if j < last - 1 {
                            assert(old_order[j] != old_order[last - 1]);
                        }
                    }
                }
            }
        }
        true
    }

    /// Serves a request of `size` bytes and returns the region offset of the
    /// payload. The size is rounded up, to 64 bytes above 1024 and to 8
    /// otherwise, and takes a header in front. The first free block that
    /// holds as much serves the request, split where enough remains. Where
    /// none does, the heap grows by the pages that hold the block and the
    /// request is served there; where it cannot grow, the request fails and
    /// nothing changes.
    pub fn malloc(&mut self, region: &mut MemoryRegion, size: usize) -> (payload: Option<usize>)
        requires
            old(self).well_formed(),
            old(region).well_formed(),
        ensures
            final(self).well_formed(),
            final(region).well_formed(),
            final(region).limit() == old(region).limit(),
            ({
                let growable = old(self).growable(old(region), size as int);
                &&& final(self)@ == old(self)@.after_malloc(size as int, growable)
                &&& payload == match old(self)@.malloc_result(size as int, growable) {
                    Some(at) => Some(at as usize),
                    None => None,
                }
                &&& final(region)@ == if old(self)@.malloc_grows(size as int, growable) {
                    old(region)@ + zeros(pages_for(block_size_for(size as int)) * PAGE_SIZE)
                } else {
                    old(region)@
                }
            }),
            payload matches Some(at) ==> {
                &&& final(self)@.start + HEADER_SIZE <= at
                &&& at + size <= final(self)@.end
            },
    {
        let ghost before = *self;
        let ghost growable = self.growable(region, size as int);
        proof {
            lemma_align_up(size as int, request_alignment(size as int));
        }
        let total_size: usize = match checked_block_size(size) {
            Some(total_size) => total_size,
            None => { return None; },
        };
        match self.find_fit(total_size) {
            Some((idx, position)) => {
                let ghost k = position@;
                proof {
                    lemma_first_fit(before@.blocks, total_size as int, k);
                    lemma_malloc_valid(before@, size as int, growable);
                    lemma_block_bounds(before@.blocks, before@.start, before@.end, k);
                }
                Some(self.carve_at(idx, Ghost(k), total_size))
            },
            None => {
                assert(first_fit(before@.blocks, total_size as int).is_none());
                if !self.grow_heap(region, total_size) {
                    return None;
                }
                proof {
                    lemma_malloc_valid(before@, size as int, growable);
                }
                let ghost grown = *self;
                match self.find_fit(total_size) {
                    Some((idx, position)) => {
                        let ghost k = position@;
                        proof {
                            let last = before@.blocks.len() as int;
                            assert(grown@.blocks[last].fits(total_size as int));
                            if k < last {
                                assert(grown@.blocks[k] == before@.blocks[k]);
                                assert(!before@.blocks[k].fits(total_size as int));
                            }
                            lemma_block_bounds(grown@.blocks, grown@.start, grown@.end, k);
                        }
                        Some(self.carve_at(idx, Ghost(k), total_size))
                    },
                    None => {
                        proof {
                            let last = before@.blocks.len() as int;
                            assert(grown@.blocks[last].fits(total_size as int));
                        }
                        None
                    },
                }
            },
        }
    }

    /// Releases the block whose payload starts at `offset`: it becomes free,
    /// takes in its successor if that is free, and is taken in by its
    /// predecessor if that is free. An offset outside the managed range, or
    /// one at which no block in use has its payload, changes nothing.
    pub fn free(&mut self, offset: usize)
        requires
            old(self).well_formed(),
        ensures
            final(self).well_formed(),
            final(self)@ == old(self)@.after_free(offset as int),
    {
        let ghost before = *self;
        proof {
            lemma_free_valid(before@, offset as int);
        }
        if !self.is_ptr_in_heap(offset) {
            return ;
        }
        let mut prev: Option<usize> = None;
        let mut current: Option<usize> = self.free_list_head;
        let ghost mut k: int = 0;
        while current.is_some()
            invariant
                *self == before,
                before == *old(self),
                before@.contains(offset as int),
                self.linked(),
                self@.valid(),
                before@.after_free(offset as int).valid(),
                0 <= k <= self.order@.len(),
                current == (if k < self.order@.len() {
                    Some(self.order@[k])
                } else {
                    None
                }),
                prev == (if 0 < k {
                    Some(self.order@[k - 1])
                } else {
                    None
                }),
                forall|j: int| 0 <= j < k ==> (#[trigger] self@.blocks[j]).payload() != offset,
            decreases self.order@.len() - k,
        {
            let idx: usize = current.unwrap();
            let header: BlockHeader = self.headers[idx];
            proof {
                assert(self@.blocks[k] == model_of(header));
                assert(self@.blocks[k].size >= HEADER_SIZE);
                lemma_block_bounds(self@.blocks, self@.start, self@.end, k);
            }
            if header.offset + HEADER_SIZE == offset {
                if header.is_free {
                    proof {
                        assert forall|i: int| !is_payload_block(
                            before@.blocks,
                            offset as int,
                            i,
                        ) by {
                            if is_payload_block(before@.blocks, offset as int, i) {
                                lemma_payload_unique(
                                    before@.blocks,
                                    before@.start,
                                    before@.end,
                                    offset as int,
                                    i,
                                    k,
                                );
                            }
                        }
                    }
                    return ;
                }
                proof {
                    lemma_payload_index(
                        before@.blocks,
                        before@.start,
                        before@.end,
                        offset as int,
                        k,
                    );
                }
                self.release(idx, prev, Ghost(k));
                return ;
            }
            assert(links(self.headers@, self.order@, k));
            prev = current;
            current = header.next;
            proof {
                k = k + 1;
            }
        }
        assert forall|i: int| !is_payload_block(before@.blocks, offset as int, i) by {
            if 0 <= i < before@.blocks.len() {
                assert(before@.blocks[i].payload() != offset);
            }
        }
    }

    /// Frees the block at position `k` of the list and coalesces it with
    /// its free neighbours.
    fn release(&mut self, idx: usize, prev: Option<usize>, Ghost(k): Ghost<int>)
        requires
            old(self).linked(),
            old(self)@.sound(),
            0 <= k < old(self).order@.len(),
            old(self).order@[k] == idx,
            prev == (if 0 < k {
                Some(old(self).order@[k - 1])
            } else {
                None
            }),
        ensures
            final(self).linked(),
            final(self)@ == (HeapState {
                blocks: release_at(old(self)@.blocks, k),
                ..old(self)@
            }),
    {
        let ghost before = *self;
        self.set_free(idx, Ghost(k));
        proof {
            lemma_mark_free_sound(before@, k);
            assert(links(self.headers@, self.order@, k));
        }
        let ghost freed = *self;
        let merge_forward: bool = match self.headers[idx].next {
            Some(next_idx) => {
                assert(freed@.blocks[k + 1] == model_of(self.headers@[next_idx as int]));
                self.headers[next_idx].is_free
            },
            None => false,
        };
        if merge_forward {
            self.merge_next(idx, Ghost(k));
            proof {
                lemma_merge_sound(freed@, k);
            }
        }
        let ghost forward = *self;
        match prev {
            Some(prev_idx) => {
                assert(forward@.blocks[k - 1] == model_of(self.headers@[prev_idx as int]));
                if self.headers[prev_idx].is_free {
                    self.merge_next(prev_idx, Ghost(k - 1));
                }
            },
            None => {},
        }
    }

    /// The free bytes and the bytes in use, headers included. Together
    /// they are all the bytes that the allocator manages.
    pub fn byte_counts(&self) -> (counts: (usize, usize))
        requires
            self.well_formed(),
        ensures
            counts.0 == free_bytes(self@.blocks),
            counts.1 == used_bytes(self@.blocks),
            counts.0 + counts.1 == self@.end - self@.start,
    {
        let mut free: usize = 0;
        let mut used: usize = 0;
        let mut current: Option<usize> = self.free_list_head;
        let ghost mut k: int = 0;
        proof {
            assert(self@.blocks.take(0) =~= Seq::<BlockModel>::empty());
        }
        while current.is_some()
            invariant
                self.linked(),
                self@.sound(),
                0 <= k <= self.order@.len(),
                current == (if k < self.order@.len() {
                    Some(self.order@[k])
                } else {
                    None
                }),
                free == free_bytes(self@.blocks.take(k)),
                used == used_bytes(self@.blocks.take(k)),
                k > 0 ==> free + used == self@.blocks[k - 1].end() - self@.start,
                k == 0 ==> free + used == 0,
            decreases self.order@.len() - k,
        {
            let idx: usize = current.unwrap();
            let header: BlockHeader = self.headers[idx];
            proof {
                let blocks = self@.blocks;
                assert(links(self.headers@, self.order@, k));
                assert(blocks[k] == model_of(header));
                assert(blocks.take(k + 1).drop_last() =~= blocks.take(k));
                assert(blocks.take(k + 1).last() == blocks[k]);
                lemma_block_bounds(blocks, self@.start, self@.end, k);
                if k > 0 {
                    assert(adjoins(blocks, k - 1));
                }
            }
            if header.is_free {
                free = free + header.size;
            } else {
                used = used + header.size;
            }
            current = header.next;
            proof {
                k = k + 1;
            }
        }
        proof {
            assert(self@.blocks.take(k) =~= self@.blocks);
        }
        (free, used)
    }

    /// The blocks as they lie in the heap, in address order.
    pub fn blocks(&self) -> (blocks: Vec<Block>)
        requires
            self.well_formed(),
        ensures
            blocks@.len() == self@.blocks.len(),
            forall|i: int| 0 <= i < blocks@.len() ==> (#[trigger] blocks@[i])@ == self@.blocks[i],
    {
        let mut blocks: Vec<Block> = Vec::new();
        let mut current: Option<usize> = self.free_list_head;
        let ghost mut k: int = 0;
        while current.is_some()
            invariant
                self.linked(),
                0 <= k <= self.order@.len(),
                current == (if k < self.order@.len() {
                    Some(self.order@[k])
                } else {
                    None
                }),
                blocks@.len() == k,
                forall|i: int| 0 <= i < k ==> (#[trigger] blocks@[i])@ == self@.blocks[i],
            decreases self.order@.len() - k,
        {
            let idx: usize = current.unwrap();
            let header: BlockHeader = self.headers[idx];
            assert(links(self.headers@, self.order@, k));
            blocks.push(Block { offset: header.offset, size: header.size, is_free: header.is_free });
            current = header.next;
            proof {
                k = k + 1;
            }
        }
        blocks
    }
}

} // verus!
