use walloc::layout::{
    checked_align_up, checked_block_size, page_count, percent_of, HEADER_SIZE, PAGE_SIZE,
};
use walloc::Tier;

#[test]
fn align_up_rounds_to_the_next_multiple() {
    assert_eq!(checked_align_up(0, 8), Some(0));
    assert_eq!(checked_align_up(1, 8), Some(8));
    assert_eq!(checked_align_up(8, 8), Some(8));
    assert_eq!(checked_align_up(9, 8), Some(16));
    assert_eq!(checked_align_up(100, 128), Some(128));
    assert_eq!(checked_align_up(129, 128), Some(256));
    assert_eq!(checked_align_up(1025, 64), Some(1088));
}

#[test]
fn align_up_reports_what_does_not_fit() {
    assert_eq!(checked_align_up(usize::MAX, 8), None);
    assert_eq!(checked_align_up(usize::MAX - 7, 8), Some(usize::MAX - 7));
    assert_eq!(checked_align_up(usize::MAX - 6, 8), None);
}

#[test]
fn page_count_is_the_ceiling() {
    assert_eq!(page_count(0), 0);
    assert_eq!(page_count(1), 1);
    assert_eq!(page_count(PAGE_SIZE), 1);
    assert_eq!(page_count(PAGE_SIZE + 1), 2);
    assert_eq!(page_count(600_000), 10);
    assert_eq!(page_count(usize::MAX), usize::MAX / PAGE_SIZE + 1);
}

#[test]
fn block_size_adds_the_header_to_the_rounded_payload() {
    assert_eq!(HEADER_SIZE, 16);
    assert_eq!(checked_block_size(0), Some(16));
    assert_eq!(checked_block_size(1), Some(24));
    assert_eq!(checked_block_size(100), Some(120));
    assert_eq!(checked_block_size(50), Some(72));
    assert_eq!(checked_block_size(60), Some(80));
    assert_eq!(checked_block_size(1024), Some(1040));
    assert_eq!(checked_block_size(1025), Some(1104));
    assert_eq!(checked_block_size(usize::MAX), None);
    assert_eq!(checked_block_size(usize::MAX - 20), None);
}

#[test]
fn percent_of_matches_the_wide_product() {
    assert_eq!(percent_of(1_048_576, 50), 524_288);
    assert_eq!(percent_of(1_048_576, 30), 314_572);
    assert_eq!(percent_of(1_048_576, 20), 209_715);
    assert_eq!(percent_of(1000, 30), 300);
    assert_eq!(percent_of(199, 50), 99);
    assert_eq!(percent_of(0, 50), 0);
    let wide = (usize::MAX as u128) * 30 / 100;
    assert_eq!(percent_of(usize::MAX, 30) as u128, wide);
    assert_eq!(percent_of(usize::MAX, 100), usize::MAX);
}

#[test]
fn tier_numbers_and_alignments() {
    assert_eq!(Tier::from_u8(0), Some(Tier::Render));
    assert_eq!(Tier::from_u8(1), Some(Tier::Scene));
    assert_eq!(Tier::from_u8(2), Some(Tier::Entity));
    assert_eq!(Tier::from_u8(3), None);
    assert_eq!(Tier::from_u8(255), None);
    assert_eq!(Tier::from_u8_or_entity(0), Tier::Render);
    assert_eq!(Tier::from_u8_or_entity(1), Tier::Scene);
    assert_eq!(Tier::from_u8_or_entity(2), Tier::Entity);
    assert_eq!(Tier::from_u8_or_entity(9), Tier::Entity);
    assert_eq!(Tier::Render.alignment(), 128);
    assert_eq!(Tier::Scene.alignment(), 64);
    assert_eq!(Tier::Entity.alignment(), 8);
    assert_eq!(Tier::Render.align_size(100), Some(128));
    assert_eq!(Tier::Scene.align_size(100), Some(128));
    assert_eq!(Tier::Entity.align_size(100), Some(104));
    assert_eq!(Tier::Render.align_size(usize::MAX), None);
}
