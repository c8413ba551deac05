use walloc::layout::{HEADER_SIZE, PAGE_SIZE};
use walloc::{Block, DefaultAllocator, MemoryRegion};

const MIB: usize = 1_048_576;

fn block(offset: usize, size: usize, is_free: bool) -> Block {
    Block { offset, size, is_free }
}

fn check_accounting(heap: &DefaultAllocator) {
    let blocks = heap.blocks();
    let mut free = 0;
    let mut used = 0;
    let mut at = heap.heap_start();
    for b in blocks.iter() {
        assert_eq!(b.offset, at);
        assert!(b.size >= HEADER_SIZE);
        at += b.size;
        if b.is_free {
            free += b.size;
        } else {
            used += b.size;
        }
    }
    assert_eq!(at, heap.heap_end());
    assert_eq!(heap.byte_counts(), (free, used));
    assert_eq!(free + used, heap.heap_end() - heap.heap_start());
    for pair in blocks.windows(2) {
        assert!(!(pair[0].is_free && pair[1].is_free));
    }
}

#[test]
fn a_new_heap_is_one_free_block() {
    let heap = DefaultAllocator::new(0, MIB);
    assert_eq!(heap.blocks(), vec![block(0, MIB, true)]);
    assert_eq!(heap.heap_start(), 0);
    assert_eq!(heap.heap_end(), MIB);
    assert_eq!(heap.byte_counts(), (MIB, 0));
    let shifted = DefaultAllocator::new(4096, 100);
    assert_eq!(shifted.blocks(), vec![block(4096, 100, true)]);
    assert_eq!(shifted.heap_end(), 4196);
}

#[test]
fn a_range_too_small_for_a_header_is_not_managed() {
    let heap = DefaultAllocator::new(500, HEADER_SIZE - 1);
    assert_eq!(heap.blocks(), vec![]);
    assert_eq!(heap.heap_start(), 500);
    assert_eq!(heap.heap_end(), 500);
    assert!(!heap.is_ptr_in_heap(500));
    assert_eq!(heap.byte_counts(), (0, 0));
    let exact = DefaultAllocator::new(500, HEADER_SIZE);
    assert_eq!(exact.blocks(), vec![block(500, HEADER_SIZE, true)]);
}

#[test]
fn first_fit_reuse_of_a_released_block() {
    let mut region = MemoryRegion::new(16, 16);
    let mut heap = DefaultAllocator::new(0, MIB);
    let o1 = heap.malloc(&mut region, 100);
    assert_eq!(o1, Some(16));
    let o2 = heap.malloc(&mut region, 50);
    assert_eq!(o2, Some(136));
    assert_eq!(
        heap.blocks(),
        vec![block(0, 120, false), block(120, 72, false), block(192, MIB - 192, true)]
    );
    heap.free(16);
    assert_eq!(
        heap.blocks(),
        vec![block(0, 120, true), block(120, 72, false), block(192, MIB - 192, true)]
    );
    let o3 = heap.malloc(&mut region, 60);
    assert_eq!(o3, o1);
    assert_eq!(
        heap.blocks(),
        vec![
            block(0, 80, false),
            block(80, 40, true),
            block(120, 72, false),
            block(192, MIB - 192, true)
        ]
    );
    assert_eq!(region.size(), MIB);
    check_accounting(&heap);
}

#[test]
fn large_requests_are_rounded_to_cache_lines() {
    let mut region = MemoryRegion::new(16, 16);
    let mut heap = DefaultAllocator::new(0, MIB);
    assert_eq!(heap.malloc(&mut region, 1024), Some(16));
    assert_eq!(heap.malloc(&mut region, 1025), Some(1040 + 16));
    assert_eq!(heap.malloc(&mut region, 1), Some(1040 + 1104 + 16));
    assert_eq!(
        heap.blocks(),
        vec![
            block(0, 1040, false),
            block(1040, 1104, false),
            block(2144, 24, false),
            block(2168, MIB - 2168, true)
        ]
    );
}

#[test]
fn a_split_leaves_two_blocks_that_add_up() {
    let mut region = MemoryRegion::new(1, 1);
    let mut heap = DefaultAllocator::new(0, 144);
    assert_eq!(heap.malloc(&mut region, 100), Some(16));
    assert_eq!(heap.blocks(), vec![block(0, 120, false), block(120, 24, true)]);
    check_accounting(&heap);
}

#[test]
fn a_remainder_below_the_threshold_is_not_split_off() {
    let mut region = MemoryRegion::new(1, 1);
    let mut heap = DefaultAllocator::new(0, 143);
    assert_eq!(heap.malloc(&mut region, 100), Some(16));
    assert_eq!(heap.blocks(), vec![block(0, 143, false)]);
    assert_eq!(heap.malloc(&mut region, 1), None);
    assert_eq!(heap.blocks(), vec![block(0, 143, false)]);
    let mut exact = DefaultAllocator::new(0, 120);
    assert_eq!(exact.malloc(&mut region, 100), Some(16));
    assert_eq!(exact.blocks(), vec![block(0, 120, false)]);
    check_accounting(&heap);
    check_accounting(&exact);
}

#[test]
fn freeing_two_neighbours_in_either_order_leaves_one_free_block() {
    for first_then_second in [true, false] {
        let mut region = MemoryRegion::new(16, 16);
        let mut heap = DefaultAllocator::new(0, MIB);
        let a = heap.malloc(&mut region, 100).unwrap();
        let b = heap.malloc(&mut region, 50).unwrap();
        if first_then_second {
            heap.free(a);
            heap.free(b);
        } else {
            heap.free(b);
            heap.free(a);
        }
        assert_eq!(heap.blocks(), vec![block(0, MIB, true)]);
        check_accounting(&heap);
    }
}

#[test]
fn coalescing_stops_at_blocks_in_use() {
    for first_then_second in [true, false] {
        let mut region = MemoryRegion::new(16, 16);
        let mut heap = DefaultAllocator::new(0, MIB);
        let guard_low = heap.malloc(&mut region, 8).unwrap();
        let a = heap.malloc(&mut region, 100).unwrap();
        let b = heap.malloc(&mut region, 50).unwrap();
        let guard_high = heap.malloc(&mut region, 8).unwrap();
        assert_eq!((guard_low, a, b, guard_high), (16, 40, 160, 232));
        if first_then_second {
            heap.free(a);
            heap.free(b);
        } else {
            heap.free(b);
            heap.free(a);
        }
        assert_eq!(
            heap.blocks(),
            vec![
                block(0, 24, false),
                block(24, 192, true),
                block(216, 24, false),
                block(240, MIB - 240, true)
            ]
        );
        check_accounting(&heap);
    }
}

#[test]
fn release_of_what_is_not_a_block_in_use_changes_nothing() {
    let mut region = MemoryRegion::new(16, 16);
    let mut heap = DefaultAllocator::new(0, MIB);
    let a = heap.malloc(&mut region, 100).unwrap();
    let b = heap.malloc(&mut region, 100).unwrap();
    let before = heap.blocks();
    heap.free(0);
    heap.free(a + 1);
    heap.free(a - 1);
    heap.free(MIB);
    heap.free(MIB + 16);
    heap.free(usize::MAX);
    heap.free(b + 120);
    assert_eq!(heap.blocks(), before);
    heap.free(a);
    let once = heap.blocks();
    heap.free(a);
    assert_eq!(heap.blocks(), once);
    assert_ne!(once, before);
    check_accounting(&heap);
}

#[test]
fn the_heap_grows_by_the_pages_that_hold_the_block() {
    let mut region = MemoryRegion::new(1, 4);
    let mut heap = DefaultAllocator::new(0, PAGE_SIZE);
    assert_eq!(heap.malloc(&mut region, PAGE_SIZE), Some(PAGE_SIZE + 16));
    assert_eq!(region.pages(), 3);
    assert_eq!(heap.heap_end(), 3 * PAGE_SIZE);
    assert_eq!(
        heap.blocks(),
        vec![
            block(0, PAGE_SIZE, true),
            block(PAGE_SIZE, PAGE_SIZE + 16, false),
            block(2 * PAGE_SIZE + 16, PAGE_SIZE - 16, true)
        ]
    );
    check_accounting(&heap);
    heap.free(PAGE_SIZE + 16);
    assert_eq!(heap.blocks(), vec![block(0, 3 * PAGE_SIZE, true)]);
    check_accounting(&heap);
}

#[test]
fn an_empty_heap_at_the_end_of_the_region_grows_from_nothing() {
    let mut region = MemoryRegion::new(1, 2);
    let mut heap = DefaultAllocator::new(PAGE_SIZE, 0);
    assert_eq!(heap.blocks(), vec![]);
    assert_eq!(heap.malloc(&mut region, 100), Some(PAGE_SIZE + 16));
    assert_eq!(
        heap.blocks(),
        vec![block(PAGE_SIZE, 120, false), block(PAGE_SIZE + 120, PAGE_SIZE - 120, true)]
    );
    assert_eq!(region.pages(), 2);
    check_accounting(&heap);
}

#[test]
fn a_request_fails_where_the_region_cannot_grow() {
    let mut region = MemoryRegion::new(1, 1);
    let mut heap = DefaultAllocator::new(0, PAGE_SIZE);
    assert_eq!(heap.malloc(&mut region, PAGE_SIZE), None);
    assert_eq!(heap.blocks(), vec![block(0, PAGE_SIZE, true)]);
    assert_eq!(region.pages(), 1);
    assert_eq!(heap.malloc(&mut region, usize::MAX), None);
    assert_eq!(heap.malloc(&mut region, usize::MAX - 100), None);
    assert_eq!(heap.blocks(), vec![block(0, PAGE_SIZE, true)]);
    assert_eq!(heap.malloc(&mut region, PAGE_SIZE - 16), None);
    assert_eq!(heap.malloc(&mut region, PAGE_SIZE - 64), Some(16));
    assert_eq!(
        heap.blocks(),
        vec![block(0, PAGE_SIZE - 48, false), block(PAGE_SIZE - 48, 48, true)]
    );
}

#[test]
fn a_heap_that_does_not_end_with_the_region_does_not_grow() {
    let mut region = MemoryRegion::new(2, 8);
    let mut heap = DefaultAllocator::new(0, PAGE_SIZE);
    assert_eq!(heap.malloc(&mut region, PAGE_SIZE), None);
    assert_eq!(region.pages(), 2);
    assert_eq!(heap.blocks(), vec![block(0, PAGE_SIZE, true)]);
}

#[test]
fn is_ptr_in_heap_is_the_half_open_range() {
    let heap = DefaultAllocator::new(100, 1000);
    assert!(!heap.is_ptr_in_heap(99));
    assert!(heap.is_ptr_in_heap(100));
    assert!(heap.is_ptr_in_heap(1099));
    assert!(!heap.is_ptr_in_heap(1100));
}

#[test]
fn bytes_are_conserved_through_a_long_run() {
    let mut region = MemoryRegion::new(1, 64);
    let mut heap = DefaultAllocator::new(0, PAGE_SIZE);
    let mut live: Vec<usize> = Vec::new();
    let mut seed: usize = 12345;
    for step in 0..400 {
        seed = seed.wrapping_mul(1_103_515_245).wrapping_add(12345) % 2_147_483_648;
        if step % 3 == 2 && !live.is_empty() {
            let victim = live.remove(seed % live.len());
            heap.free(victim);
        } else {
            let size = seed % 5000;
            if let Some(offset) = heap.malloc(&mut region, size) {
                assert!(!live.contains(&offset));
                live.push(offset);
            }
        }
        check_accounting(&heap);
        assert_eq!(heap.heap_end(), region.size());
    }
    for offset in live {
        heap.free(offset);
    }
    assert_eq!(heap.blocks(), vec![block(0, region.size(), true)]);
}

#[test]
fn payloads_of_live_blocks_do_not_overlap() {
    let mut region = MemoryRegion::new(1, 1);
    let mut heap = DefaultAllocator::new(0, PAGE_SIZE);
    let sizes = [100usize, 0, 7, 2000, 64, 1025, 8];
    let mut grants: Vec<(usize, usize)> = Vec::new();
    for size in sizes {
        let offset = heap.malloc(&mut region, size).unwrap();
        grants.push((offset, size));
    }
    for i in 0..grants.len() {
        for j in (i + 1)..grants.len() {
            assert!(grants[i].0 + grants[i].1 <= grants[j].0);
        }
    }
}
