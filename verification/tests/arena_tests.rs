use walloc::arena::next_cursor;
use walloc::{Arena, Tier};

#[test]
fn a_new_arena_is_empty() {
    let arena = Arena::new(1000, 4096, Tier::Render);
    assert_eq!(arena.usage(), 0);
    assert_eq!(arena.capacity(), 4096);
    assert_eq!(arena.high_water_mark(), 0);
    assert_eq!(arena.total_allocated(), 0);
    assert_eq!(arena.base(), 1000);
    assert_eq!(arena.tier(), Tier::Render);
    assert_eq!(arena.get_stats(), (0, 4096, 0, 0));
}

#[test]
fn render_rounds_to_128_and_bumps() {
    let mut arena = Arena::new(1000, 4096, Tier::Render);
    assert_eq!(arena.allocate(100), Some((1000, 128)));
    assert_eq!(arena.allocate(10), Some((1128, 128)));
    assert_eq!(arena.allocate(129), Some((1256, 256)));
    assert_eq!(arena.usage(), 512);
    assert_eq!(arena.get_stats(), (512, 4096, 512, 512));
}

#[test]
fn scene_rounds_to_64_and_entity_to_8() {
    let mut scene = Arena::new(0, 1024, Tier::Scene);
    assert_eq!(scene.allocate(1), Some((0, 64)));
    assert_eq!(scene.allocate(64), Some((64, 64)));
    assert_eq!(scene.allocate(65), Some((128, 128)));
    let mut entity = Arena::new(0, 1024, Tier::Entity);
    assert_eq!(entity.allocate(1), Some((0, 8)));
    assert_eq!(entity.allocate(8), Some((8, 8)));
    assert_eq!(entity.allocate(9), Some((16, 16)));
    assert_eq!(entity.allocate(0), Some((32, 0)));
    assert_eq!(entity.usage(), 32);
}

#[test]
fn a_request_that_does_not_fit_fails_and_changes_nothing() {
    let mut arena = Arena::new(0, 256, Tier::Render);
    assert_eq!(arena.allocate(129), Some((0, 256)));
    assert_eq!(arena.allocate(1), None);
    assert_eq!(arena.get_stats(), (256, 256, 256, 256));
    assert_eq!(arena.allocate(0), Some((256, 0)));
    assert_eq!(arena.allocate(usize::MAX), None);
    assert_eq!(arena.get_stats(), (256, 256, 256, 256));
    let mut small = Arena::new(0, 100, Tier::Render);
    assert_eq!(small.allocate(100), None);
    assert_eq!(small.usage(), 0);
}

#[test]
fn reset_keeps_the_counters() {
    let mut arena = Arena::new(64, 1024, Tier::Scene);
    arena.allocate(100);
    arena.allocate(100);
    assert_eq!(arena.get_stats(), (256, 1024, 256, 256));
    arena.reset();
    assert_eq!(arena.get_stats(), (0, 1024, 256, 256));
    assert_eq!(arena.allocate(10), Some((64, 64)));
    assert_eq!(arena.get_stats(), (64, 1024, 256, 320));
    arena.allocate(500);
    assert_eq!(arena.get_stats(), (576, 1024, 576, 832));
}

#[test]
fn high_water_mark_is_the_highest_usage_seen() {
    let mut arena = Arena::new(0, 4096, Tier::Entity);
    let mut highest = 0;
    let sizes = [8usize, 100, 16, 2000, 1, 900, 64];
    for (i, size) in sizes.iter().enumerate() {
        arena.allocate(*size);
        if arena.usage() > highest {
            highest = arena.usage();
        }
        assert_eq!(arena.high_water_mark(), highest);
        assert!(arena.usage() <= arena.capacity());
        if i == 3 {
            arena.reset();
            assert_eq!(arena.high_water_mark(), highest);
        }
        if i == 5 {
            assert!(arena.fast_compact(8));
            assert_eq!(arena.high_water_mark(), highest);
        }
    }
    assert_eq!(highest, 2128);
}

#[test]
fn successive_grants_do_not_overlap() {
    let mut arena = Arena::new(4096, 8192, Tier::Scene);
    let mut grants = Vec::new();
    for size in [1usize, 63, 64, 65, 700, 0, 5, 4000, 4000] {
        if let Some(grant) = arena.allocate(size) {
            grants.push(grant);
        }
    }
    assert_eq!(grants.len(), 8);
    for i in 0..grants.len() {
        assert!(grants[i].0 >= 4096);
        assert!(grants[i].0 + grants[i].1 <= 4096 + 8192);
        for j in (i + 1)..grants.len() {
            assert!(grants[i].0 + grants[i].1 <= grants[j].0);
        }
    }
}

#[test]
fn fast_compact_keeps_a_prefix() {
    let mut arena = Arena::new(0, 1024, Tier::Entity);
    arena.allocate(512);
    assert!(!arena.fast_compact(513));
    assert_eq!(arena.usage(), 512);
    assert!(arena.fast_compact(512));
    assert_eq!(arena.usage(), 512);
    assert!(arena.fast_compact(100));
    assert_eq!(arena.usage(), 100);
    assert_eq!(arena.allocate(8), Some((100, 8)));
    assert!(arena.fast_compact(0));
    assert_eq!(arena.get_stats(), (0, 1024, 512, 520));
}

#[test]
fn contains_is_the_half_open_range() {
    let arena = Arena::new(100, 50, Tier::Entity);
    assert!(!arena.contains(99));
    assert!(arena.contains(100));
    assert!(arena.contains(149));
    assert!(!arena.contains(150));
    assert!(!arena.contains(0));
    assert!(!arena.contains(usize::MAX));
    let empty = Arena::new(100, 0, Tier::Entity);
    assert!(!empty.contains(100));
}

#[test]
fn total_allocated_stops_at_the_maximum() {
    let mut arena = Arena::new(0, usize::MAX, Tier::Entity);
    assert_eq!(arena.allocate(usize::MAX - 7), Some((0, usize::MAX - 7)));
    arena.reset();
    assert_eq!(arena.allocate(usize::MAX - 7), Some((0, usize::MAX - 7)));
    assert_eq!(arena.total_allocated(), usize::MAX);
    assert_eq!(arena.high_water_mark(), usize::MAX - 7);
}

#[test]
fn next_cursor_decides_one_attempt() {
    assert_eq!(next_cursor(Tier::Render, 1024, 0, 100), Some((128, 128)));
    assert_eq!(next_cursor(Tier::Render, 1024, 896, 100), Some((1024, 128)));
    assert_eq!(next_cursor(Tier::Render, 1024, 897, 100), None);
    assert_eq!(next_cursor(Tier::Scene, 1024, 960, 64), Some((1024, 64)));
    assert_eq!(next_cursor(Tier::Scene, 1024, 960, 65), None);
    assert_eq!(next_cursor(Tier::Entity, 16, 8, 8), Some((16, 8)));
    assert_eq!(next_cursor(Tier::Entity, 16, 16, 0), Some((16, 0)));
    assert_eq!(next_cursor(Tier::Entity, 16, 17, 0), None);
    assert_eq!(next_cursor(Tier::Entity, usize::MAX, 8, usize::MAX), None);
    assert_eq!(next_cursor(Tier::Entity, usize::MAX, 8, usize::MAX - 15), Some((usize::MAX - 7, usize::MAX - 15)));
}
