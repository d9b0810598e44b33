use enigma::allocator::align_up;
use enigma::allocator::bump::BumpAllocator;
use enigma::allocator::fixed_size_block::list_index;
use enigma::allocator::fixed_size_block::FixedSizeBlockAllocator;
use enigma::allocator::linked_list::LinkedListAllocator;

#[test]
fn align_up_values() {
    assert_eq!(align_up(0, 1), 0);
    assert_eq!(align_up(5, 8), 8);
    assert_eq!(align_up(16, 8), 16);
    assert_eq!(align_up(17, 16), 32);
    assert_eq!(align_up(4095, 4096), 4096);
}

#[test]
fn list_index_classes() {
    assert_eq!(list_index(1, 1), Some(0));
    assert_eq!(list_index(8, 8), Some(0));
    assert_eq!(list_index(9, 1), Some(1));
    assert_eq!(list_index(1, 16), Some(1));
    assert_eq!(list_index(65, 1), Some(4));
    assert_eq!(list_index(2048, 1), Some(8));
    assert_eq!(list_index(100, 2048), Some(8));
    assert_eq!(list_index(2049, 1), None);
}

#[test]
fn bump_allocates_linearly() {
    let mut bump = BumpAllocator::new();
    bump.init(0, 1000);
    assert_eq!(bump.allocate(100, 8), Some(0));
    assert_eq!(bump.allocate(50, 4), Some(100));
    assert_eq!(bump.allocate(10, 2), Some(150));
    // an aligned request skips the padding bytes
    assert_eq!(bump.allocate(8, 64), Some(192));
}

#[test]
fn bump_resets_when_count_reaches_zero() {
    let mut bump = BumpAllocator::new();
    bump.init(0, 1000);
    let a = bump.allocate(100, 8).unwrap();
    let b = bump.allocate(100, 8).unwrap();
    let c = bump.allocate(100, 8).unwrap();
    // freeing some blocks does not reclaim anything yet
    bump.deallocate(a, 100, 8);
    bump.deallocate(c, 100, 8);
    assert_eq!(bump.allocate(100, 8), Some(312));
    bump.deallocate(312, 100, 8);
    bump.deallocate(b, 100, 8);
    // the count is back at zero: the next allocation resumes at heap start
    assert_eq!(bump.allocate(8, 8), Some(0));
}

#[test]
fn bump_fails_when_exhausted() {
    let mut bump = BumpAllocator::new();
    bump.init(0, 256);
    assert_eq!(bump.allocate(300, 1), None);
    assert_eq!(bump.allocate(200, 1), Some(0));
    assert_eq!(bump.allocate(100, 1), None);
    assert_eq!(bump.allocate(56, 1), Some(200));
    assert_eq!(bump.allocate(1, 1), None);
}

#[test]
fn bump_huge_alignment() {
    let mut bump = BumpAllocator::new();
    bump.init(0, 1000);
    // address 0 is a multiple of every power of two
    assert_eq!(bump.allocate(1, 1 << 62), Some(0));
    // no second 2^62-aligned address exists inside this heap
    assert_eq!(bump.allocate(1, 1 << 62), None);
}

#[test]
fn empty_heap_serves_nothing() {
    let mut heap = enigma::allocator::Heap::new(0);
    assert_eq!(heap.allocate(1, 1), None);
    let mut list = LinkedListAllocator::new();
    list.init(0, 0);
    assert_eq!(list.allocate(1, 1), None);
}

#[test]
fn linked_list_first_fit_and_slack() {
    let mut heap = LinkedListAllocator::new();
    heap.init(0, 100);
    assert_eq!(heap.allocate(4, 1), Some(0));
    // the aligned start leaves front slack [4, 8), re-inserted as free
    assert_eq!(heap.allocate(8, 8), Some(8));
    // first fit finds that slack before the tail of the heap
    assert_eq!(heap.allocate(4, 1), Some(4));
}

#[test]
fn linked_list_coalesces_adjacent_regions() {
    let mut heap = LinkedListAllocator::new();
    heap.init(0, 1024);
    let a = heap.allocate(100, 1).unwrap();
    let b = heap.allocate(100, 1).unwrap();
    let c = heap.allocate(100, 1).unwrap();
    assert_eq!((a, b, c), (0, 100, 200));
    heap.deallocate(a, 100, 1);
    heap.deallocate(b, 100, 1);
    // the two freed neighbours merged into [0, 200), so a 200-byte request
    // fits there
    assert_eq!(heap.allocate(200, 1), Some(0));
    heap.deallocate(c, 100, 1);
    heap.deallocate(0, 200, 1);
    // everything merged back into one region covering the whole heap
    assert_eq!(heap.allocate(1024, 1), Some(0));
}

#[test]
fn linked_list_fails_when_no_region_fits() {
    let mut heap = LinkedListAllocator::new();
    heap.init(0, 1024);
    assert_eq!(heap.allocate(2000, 1), None);
    let a = heap.allocate(1000, 1).unwrap();
    // 24 free bytes remain: a 30-byte request fits nowhere
    assert_eq!(heap.allocate(30, 1), None);
    heap.deallocate(a, 1000, 1);
    assert_eq!(heap.allocate(1024, 1), Some(0));
}

#[test]
fn fixed_size_block_reuses_freed_block() {
    let mut alloc = FixedSizeBlockAllocator::new();
    alloc.init(0, 4096);
    let p1 = alloc.allocate(8, 8).unwrap();
    alloc.deallocate(p1, 8, 8);
    // same size and alignment, nothing intervened: the same block returns
    let p2 = alloc.allocate(8, 8).unwrap();
    assert_eq!(p1, p2);
    alloc.deallocate(p2, 8, 8);
}

#[test]
fn fixed_size_block_classes_are_separate() {
    let mut alloc = FixedSizeBlockAllocator::new();
    alloc.init(0, 4096);
    let small = alloc.allocate(8, 8).unwrap();
    alloc.deallocate(small, 8, 8);
    // a freed 8-byte block never serves a 64-byte request
    let large = alloc.allocate(64, 8).unwrap();
    assert_ne!(small, large);
    // but the 8-byte class still holds its block
    assert_eq!(alloc.allocate(8, 8), Some(small));
}

#[test]
fn fixed_size_block_rounds_up_to_class() {
    let mut alloc = FixedSizeBlockAllocator::new();
    alloc.init(0, 4096);
    // a 20-byte request takes a whole 32-byte block: the next block starts
    // 32 bytes further
    let p1 = alloc.allocate(20, 4).unwrap();
    let p2 = alloc.allocate(20, 4).unwrap();
    assert_eq!(p1 % 32, 0);
    assert_eq!(p2 % 32, 0);
    assert!(p1.abs_diff(p2) >= 32);
    // an alignment larger than the size also drives the class
    let p3 = alloc.allocate(4, 256).unwrap();
    assert_eq!(p3 % 256, 0);
}
