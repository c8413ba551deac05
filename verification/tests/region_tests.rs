use walloc::layout::PAGE_SIZE;
use walloc::{AccessError, MemoryRegion};

#[test]
fn a_new_region_is_zero_filled_pages() {
    let region = MemoryRegion::new(2, 8);
    assert_eq!(region.size(), 2 * PAGE_SIZE);
    assert_eq!(region.pages(), 2);
    assert_eq!(region.max_pages(), 8);
    let bytes = region.read_bytes(0, 2 * PAGE_SIZE).unwrap();
    assert_eq!(bytes.len(), 2 * PAGE_SIZE);
    assert!(bytes.iter().all(|b| *b == 0));
}

#[test]
fn growth_appends_zero_pages_and_keeps_what_was_there() {
    let mut region = MemoryRegion::new(1, 4);
    region.write_bytes(10, &[7, 8, 9]).unwrap();
    assert_eq!(region.grow(2), Some(1));
    assert_eq!(region.pages(), 3);
    assert_eq!(region.size(), 3 * PAGE_SIZE);
    assert_eq!(region.read_bytes(10, 3).unwrap(), vec![7, 8, 9]);
    let added = region.read_bytes(PAGE_SIZE, 2 * PAGE_SIZE).unwrap();
    assert!(added.iter().all(|b| *b == 0));
    assert_eq!(region.grow(0), Some(3));
    assert_eq!(region.pages(), 3);
}

#[test]
fn growth_beyond_the_limit_is_refused_and_changes_nothing() {
    let mut region = MemoryRegion::new(1, 2);
    assert_eq!(region.grow(2), None);
    assert_eq!(region.pages(), 1);
    assert_eq!(region.grow(1), Some(1));
    assert_eq!(region.grow(1), None);
    assert_eq!(region.pages(), 2);
    assert_eq!(region.grow(usize::MAX), None);
    assert_eq!(region.size(), 2 * PAGE_SIZE);
}

#[test]
fn reads_are_bounded_by_the_region() {
    let region = MemoryRegion::new(1, 1);
    assert_eq!(region.read_bytes(0, PAGE_SIZE).unwrap().len(), PAGE_SIZE);
    assert_eq!(region.read_bytes(PAGE_SIZE, 0).unwrap().len(), 0);
    assert_eq!(region.read_bytes(PAGE_SIZE, 1), Err(AccessError::OutOfBounds));
    assert_eq!(region.read_bytes(PAGE_SIZE - 1, 2), Err(AccessError::OutOfBounds));
    assert_eq!(region.read_bytes(usize::MAX, 2), Err(AccessError::OutOfBounds));
    assert_eq!(region.read_bytes(1, usize::MAX), Err(AccessError::OutOfBounds));
}

#[test]
fn a_refused_write_writes_nothing() {
    let mut region = MemoryRegion::new(1, 1);
    region.write_bytes(PAGE_SIZE - 2, &[1, 2]).unwrap();
    assert_eq!(region.write_bytes(PAGE_SIZE - 1, &[5, 6]), Err(AccessError::OutOfBounds));
    assert_eq!(region.read_bytes(PAGE_SIZE - 2, 2).unwrap(), vec![1, 2]);
    assert_eq!(region.write_bytes(usize::MAX, &[5, 6]), Err(AccessError::OutOfBounds));
    assert_eq!(region.write_bytes(PAGE_SIZE, &[]), Ok(()));
    assert_eq!(region.write_bytes(PAGE_SIZE + 1, &[]), Err(AccessError::OutOfBounds));
}

#[test]
fn a_write_changes_exactly_its_range() {
    let mut region = MemoryRegion::new(1, 1);
    region.write_bytes(100, &[1, 2, 3, 4]).unwrap();
    region.write_bytes(102, &[9]).unwrap();
    assert_eq!(region.read_bytes(99, 6).unwrap(), vec![0, 1, 2, 9, 4, 0]);
}
