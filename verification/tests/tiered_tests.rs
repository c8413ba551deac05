use walloc::layout::PAGE_SIZE;
use walloc::{MemoryRegion, Tier, TieredAllocator};

const MIB: usize = 1_048_576;

#[test]
fn the_initial_split_is_half_three_tenths_and_a_fifth() {
    let tiers = TieredAllocator::new(0, MIB);
    assert_eq!(tiers.tier_stats(Tier::Render), (0, 524_288, 0, 0));
    assert_eq!(tiers.tier_stats(Tier::Scene), (0, 314_572, 0, 0));
    assert_eq!(tiers.tier_stats(Tier::Entity), (0, 209_715, 0, 0));
    assert!(tiers.is_ptr_valid(0));
    assert!(tiers.is_ptr_valid(524_287));
    assert!(tiers.is_ptr_valid(524_288));
    assert!(tiers.is_ptr_valid(838_860));
    assert!(tiers.is_ptr_valid(1_048_574));
    assert!(!tiers.is_ptr_valid(1_048_575));
    assert!(!tiers.is_ptr_valid(MIB));
}

#[test]
fn offsets_are_relative_to_the_region_not_the_tier() {
    let mut region = MemoryRegion::new(16, 16);
    let mut tiers = TieredAllocator::new(0, MIB);
    assert_eq!(tiers.allocate(&mut region, 1, Tier::Scene), Some(524_288));
    assert_eq!(tiers.allocate(&mut region, 1, Tier::Scene), Some(524_288 + 64));
    assert_eq!(tiers.allocate(&mut region, 1, Tier::Entity), Some(838_860));
    assert_eq!(tiers.allocate(&mut region, 1, Tier::Entity), Some(838_868));
    assert_eq!(tiers.tier_stats(Tier::Scene), (128, 314_572, 128, 128));
    assert_eq!(tiers.tier_stats(Tier::Entity), (16, 209_715, 16, 16));
    assert_eq!(tiers.tier_stats(Tier::Render), (0, 524_288, 0, 0));
}

#[test]
fn render_allocations_reset_and_allocate_again() {
    let mut region = MemoryRegion::new(16, 16);
    let mut tiers = TieredAllocator::new(0, MIB);
    assert_eq!(tiers.allocate(&mut region, 100, Tier::Render), Some(0));
    assert_eq!(tiers.allocate(&mut region, 10, Tier::Render), Some(128));
    tiers.reset_tier(Tier::Render);
    assert_eq!(tiers.tier_stats(Tier::Render), (0, 524_288, 256, 256));
    assert_eq!(tiers.allocate(&mut region, 10, Tier::Render), Some(0));
    assert_eq!(tiers.tier_stats(Tier::Render), (128, 524_288, 256, 384));
}

#[test]
fn a_full_tier_moves_to_pages_sized_for_the_request() {
    let mut region = MemoryRegion::new(16, 64);
    let mut tiers = TieredAllocator::new(0, MIB);
    assert_eq!(tiers.allocate(&mut region, 100, Tier::Render), Some(0));
    assert_eq!(tiers.allocate(&mut region, 600_000, Tier::Render), Some(MIB));
    assert_eq!(region.pages(), 26);
    assert_eq!(tiers.tier_stats(Tier::Render), (600_064, 10 * PAGE_SIZE, 600_064, 600_064));
    assert!(!tiers.is_ptr_valid(0));
    assert!(tiers.is_ptr_valid(MIB));
    assert!(tiers.is_ptr_valid(MIB + 10 * PAGE_SIZE - 1));
    assert!(!tiers.is_ptr_valid(MIB + 10 * PAGE_SIZE));
    assert_eq!(tiers.allocate(&mut region, 1, Tier::Render), Some(MIB + 600_064));
    assert_eq!(tiers.tier_stats(Tier::Scene), (0, 314_572, 0, 0));
}

#[test]
fn a_tier_is_recycled_where_growth_is_refused() {
    let mut region = MemoryRegion::new(16, 16);
    let mut tiers = TieredAllocator::new(0, MIB);
    assert_eq!(tiers.allocate(&mut region, 400_000, Tier::Render), Some(0));
    assert_eq!(tiers.allocate(&mut region, 200_000, Tier::Render), Some(0));
    assert_eq!(region.pages(), 16);
    assert_eq!(tiers.tier_stats(Tier::Render), (200_064, 524_288, 400_000, 600_064));
}

#[test]
fn a_tier_that_holds_no_more_than_the_request_is_not_recycled() {
    let mut region = MemoryRegion::new(16, 16);
    let mut tiers = TieredAllocator::new(0, MIB);
    assert_eq!(tiers.allocate(&mut region, 100, Tier::Render), Some(0));
    assert_eq!(tiers.allocate(&mut region, 600_000, Tier::Render), None);
    assert_eq!(tiers.tier_stats(Tier::Render), (128, 524_288, 128, 128));
    assert_eq!(tiers.allocate(&mut region, usize::MAX, Tier::Render), None);
    assert_eq!(tiers.tier_stats(Tier::Render), (128, 524_288, 128, 128));
    assert_eq!(region.pages(), 16);
}

#[test]
fn recycling_can_still_fail_and_then_the_tier_is_empty() {
    let mut region = MemoryRegion::new(1, 1);
    let mut tiers = TieredAllocator::new(0, 1000);
    assert_eq!(tiers.tier_stats(Tier::Render), (0, 500, 0, 0));
    assert!(tiers.fast_compact_tier(&mut region, Tier::Render, 500));
    assert_eq!(tiers.tier_stats(Tier::Render), (500, 500, 500, 0));
    assert_eq!(tiers.allocate(&mut region, 499, Tier::Render), None);
    assert_eq!(tiers.tier_stats(Tier::Render), (0, 500, 500, 0));
}

#[test]
fn compaction_keeps_a_prefix_and_the_next_allocation_follows_it() {
    let mut region = MemoryRegion::new(16, 16);
    let mut tiers = TieredAllocator::new(0, MIB);
    tiers.allocate(&mut region, 1000, Tier::Scene);
    assert_eq!(tiers.tier_stats(Tier::Scene).0, 1024);
    assert!(tiers.fast_compact_tier(&mut region, Tier::Scene, 100));
    assert_eq!(tiers.tier_stats(Tier::Scene), (100, 314_572, 1024, 1024));
    assert_eq!(tiers.allocate(&mut region, 1, Tier::Scene), Some(524_288 + 100));
    assert!(tiers.fast_compact_tier(&mut region, Tier::Scene, 164));
    assert_eq!(tiers.tier_stats(Tier::Scene).0, 164);
    assert!(tiers.fast_compact_tier(&mut region, Tier::Scene, 0));
    assert_eq!(tiers.allocate(&mut region, 1, Tier::Scene), Some(524_288));
}

#[test]
fn compaction_can_declare_more_bytes_live_within_the_capacity() {
    let mut region = MemoryRegion::new(16, 16);
    let mut tiers = TieredAllocator::new(0, MIB);
    tiers.allocate(&mut region, 8, Tier::Entity);
    assert!(tiers.fast_compact_tier(&mut region, Tier::Entity, 1001));
    assert_eq!(tiers.tier_stats(Tier::Entity), (1001, 209_715, 1001, 8));
    assert_eq!(tiers.allocate(&mut region, 8, Tier::Entity), Some(838_860 + 1001));
    assert!(tiers.fast_compact_tier(&mut region, Tier::Entity, 209_715));
    assert_eq!(tiers.tier_stats(Tier::Entity), (209_715, 209_715, 209_715, 16));
    assert_eq!(region.pages(), 16);
}

#[test]
fn compaction_beyond_the_capacity_moves_the_tier_and_its_bytes() {
    let mut region = MemoryRegion::new(16, 64);
    let mut tiers = TieredAllocator::new(0, MIB);
    let at = tiers.allocate(&mut region, 200, Tier::Scene).unwrap();
    assert_eq!(at, 524_288);
    let pattern: Vec<u8> = (0..256usize).map(|i| (i % 251) as u8 + 1).collect();
    region.write_bytes(at, &pattern).unwrap();
    region.write_bytes(at + 256, &[0xEE]).unwrap();
    assert!(tiers.fast_compact_tier(&mut region, Tier::Scene, 400_000));
    assert_eq!(region.pages(), 16 + 7);
    assert_eq!(tiers.tier_stats(Tier::Scene), (400_000, 7 * PAGE_SIZE, 400_000, 0));
    assert_eq!(region.read_bytes(MIB, 256).unwrap(), pattern);
    assert_eq!(region.read_bytes(MIB + 256, 1).unwrap(), vec![0]);
    assert_eq!(region.read_bytes(at, 256).unwrap(), pattern);
    assert_eq!(tiers.allocate(&mut region, 1, Tier::Scene), Some(MIB + 400_000));
    assert!(tiers.is_ptr_valid(MIB));
    assert!(!tiers.is_ptr_valid(at));
}

#[test]
fn compaction_beyond_the_capacity_fails_where_growth_is_refused() {
    let mut region = MemoryRegion::new(16, 16);
    let mut tiers = TieredAllocator::new(0, MIB);
    tiers.allocate(&mut region, 200, Tier::Scene);
    assert!(!tiers.fast_compact_tier(&mut region, Tier::Scene, 400_000));
    assert_eq!(tiers.tier_stats(Tier::Scene), (256, 314_572, 256, 256));
    assert_eq!(region.pages(), 16);
}

#[test]
fn grow_heap_rebuilds_the_tier_over_new_pages() {
    let mut region = MemoryRegion::new(16, 20);
    let mut tiers = TieredAllocator::new(0, MIB);
    tiers.allocate(&mut region, 100, Tier::Entity);
    assert_eq!(tiers.grow_heap(&mut region, 70_000, Tier::Entity), Some(MIB));
    assert_eq!(region.pages(), 18);
    assert_eq!(tiers.tier_stats(Tier::Entity), (0, 2 * PAGE_SIZE, 0, 0));
    assert_eq!(tiers.grow_heap(&mut region, 3 * PAGE_SIZE, Tier::Entity), None);
    assert_eq!(region.pages(), 18);
    assert_eq!(tiers.tier_stats(Tier::Entity), (0, 2 * PAGE_SIZE, 0, 0));
    assert_eq!(tiers.grow_heap(&mut region, usize::MAX, Tier::Entity), None);
    assert_eq!(tiers.grow_heap(&mut region, 0, Tier::Render), Some(18 * PAGE_SIZE));
    assert_eq!(tiers.tier_stats(Tier::Render), (0, 0, 0, 0));
    assert_eq!(region.pages(), 18);
}

#[test]
fn an_owner_records_its_claim() {
    let mut region = MemoryRegion::new(16, 64);
    let mut tiers = TieredAllocator::new(0, MIB);
    tiers.allocate(&mut region, 100, Tier::Scene);
    let (mut owner, offset) = tiers.allocate_with_owner(&mut region, 70, Tier::Scene).unwrap();
    assert_eq!(offset, 524_288 + 128);
    assert_eq!(owner.tier(), Tier::Scene);
    assert_eq!(owner.allocations(), &vec![(128, 128)]);
    assert_eq!(owner.release_all(), vec![(128, 128)]);
    assert_eq!(owner.allocations(), &vec![]);
    assert_eq!(owner.tier(), Tier::Scene);
    assert_eq!(tiers.tier_stats(Tier::Scene), (256, 314_572, 256, 256));
}

#[test]
fn an_owned_allocation_grows_but_never_recycles() {
    let mut region = MemoryRegion::new(16, 27);
    let mut tiers = TieredAllocator::new(0, MIB);
    tiers.allocate(&mut region, 400_000, Tier::Render);
    let (owner, offset) = tiers.allocate_with_owner(&mut region, 600_000, Tier::Render).unwrap();
    assert_eq!(offset, MIB);
    assert_eq!(owner.allocations(), &vec![(0, 600_064)]);
    assert_eq!(region.pages(), 26);
    assert!(tiers.allocate_with_owner(&mut region, 100_000, Tier::Render).is_none());
    assert_eq!(tiers.tier_stats(Tier::Render), (600_064, 10 * PAGE_SIZE, 600_064, 600_064));
    assert_eq!(region.pages(), 26);
}

#[test]
fn release_does_nothing_to_the_tiers() {
    let mut region = MemoryRegion::new(16, 16);
    let mut tiers = TieredAllocator::new(0, MIB);
    let a = tiers.allocate(&mut region, 100, Tier::Render).unwrap();
    let b = tiers.allocate(&mut region, 100, Tier::Entity).unwrap();
    tiers.free(a);
    tiers.free(b);
    tiers.free(0);
    tiers.free(MIB - 1);
    tiers.free(MIB);
    tiers.free(usize::MAX);
    assert_eq!(tiers.tier_stats(Tier::Render), (128, 524_288, 128, 128));
    assert_eq!(tiers.tier_stats(Tier::Entity), (104, 209_715, 104, 104));
    assert_eq!(tiers.allocate(&mut region, 1, Tier::Render), Some(128));
}
