use alloc_rs::align::word_size;
use alloc_rs::composite::{splits, CompositeAllocator, SLAB_REGION_BYTES};

const HEAP_ADDR: usize = 0x40_0000;
const HEAP_SIZE: usize = 1024 * 1024;

#[test]
pub fn test_composite_allocator() {
    let mut global_alloc = CompositeAllocator::new_const(64, HEAP_ADDR, HEAP_SIZE);
    global_alloc.ensure_init();
    println!("{}", global_alloc.slab_block_size());
    println!("free bytes : {}", global_alloc.free_blocks());
    let before = global_alloc.free_blocks();

    let alloc_size = core::mem::size_of::<u64>();
    let boxed = global_alloc
        .allocate(alloc_size, core::mem::align_of::<u64>())
        .expect("the slab has free blocks");
    println!("did alloc : {} and allocated {} bytes", boxed, alloc_size);
    println!("free bytes : {}", global_alloc.free_blocks());
    assert_eq!(boxed, HEAP_ADDR);
    assert_eq!(before, SLAB_REGION_BYTES / 64);
    assert_eq!(global_alloc.free_blocks(), before - 1);
}

#[test]
fn composite_sets_itself_up_on_the_first_request() {
    let mut composite = CompositeAllocator::new_const(64, HEAP_ADDR, HEAP_SIZE);
    assert_eq!(composite.free_blocks(), 0);
    assert_eq!(composite.allocate(16, 8), Some(HEAP_ADDR));
    assert_eq!(composite.free_blocks(), 2047);
    composite.ensure_init();
    assert_eq!(composite.free_blocks(), 2047);
}

#[test]
fn composite_routes_by_size_and_alignment() {
    let word = word_size();
    let slab_end = HEAP_ADDR + SLAB_REGION_BYTES;
    let mut composite = CompositeAllocator::new_const(64, HEAP_ADDR, HEAP_SIZE);
    // Small and at most word aligned: slab blocks, lowest first.
    assert_eq!(composite.allocate(64, word), Some(HEAP_ADDR));
    assert_eq!(composite.allocate(1, 1), Some(HEAP_ADDR + 64));
    assert_eq!(composite.allocate(0, 0), Some(HEAP_ADDR + 128));
    // Too large for a block: the bump part, which follows the slab part.
    assert_eq!(composite.allocate(65, 8), Some(slab_end));
    // Small, but aligned beyond a word: the bump part as well.
    assert_eq!(composite.allocate(16, 64), Some(slab_end + 128));
    assert_eq!(composite.allocate(4096, 4096), Some(slab_end + 4096));
    assert_eq!(composite.free_blocks(), 2045);
}

#[test]
fn composite_takes_back_slab_blocks_only() {
    let mut composite = CompositeAllocator::new_const(64, HEAP_ADDR, HEAP_SIZE);
    let small = composite.allocate(32, 8).unwrap();
    let other = composite.allocate(32, 8).unwrap();
    let large = composite.allocate(1000, 8).unwrap();
    assert_eq!(composite.free_blocks(), 2046);
    composite.dealloc(large, 1000, 8);
    assert_eq!(composite.free_blocks(), 2046);
    assert_eq!(composite.allocate(1000, 8), Some(large + 1000));
    composite.dealloc(small, 32, 8);
    assert_eq!(composite.free_blocks(), 2047);
    assert_eq!(composite.allocate(8, 8), Some(small));
    assert_eq!(composite.allocate(8, 8), Some(other + 64));
}

#[test]
fn composite_ignores_what_is_given_back_before_setup() {
    let mut composite = CompositeAllocator::new_const(64, HEAP_ADDR, HEAP_SIZE);
    composite.dealloc(HEAP_ADDR, 8, 8);
    assert_eq!(composite.free_blocks(), 0);
    assert_eq!(composite.allocate(8, 8), Some(HEAP_ADDR));
}

#[test]
fn composite_does_not_fall_back_to_the_other_part() {
    // A region of 256 bytes: all of it is slab, the bump part is empty.
    let mut composite = CompositeAllocator::new_const(64, HEAP_ADDR, 256);
    assert_eq!(composite.allocate(100, 8), None);
    for i in 0..4 {
        assert_eq!(composite.allocate(64, 8), Some(HEAP_ADDR + i * 64));
    }
    assert_eq!(composite.allocate(64, 8), None);
    assert_eq!(composite.allocate(0, 1), None);
    // A request of no bytes still finds a place in the empty bump part.
    assert_eq!(composite.allocate(0, 16), Some(HEAP_ADDR + 256));

    // With the slab used up, the bump part does not step in.
    let mut large = CompositeAllocator::new_const(64, HEAP_ADDR, HEAP_SIZE);
    for _ in 0..2048 {
        assert!(large.allocate(64, 8).is_some());
    }
    assert_eq!(large.allocate(64, 8), None);
    assert_eq!(large.allocate(65, 8), Some(HEAP_ADDR + SLAB_REGION_BYTES));
}

#[test]
fn composite_routes_by_the_configured_block_size() {
    let word = word_size();
    let mut composite = CompositeAllocator::new_const(3, HEAP_ADDR, HEAP_SIZE);
    assert_eq!(composite.slab_block_size(), 3);
    assert_eq!(composite.allocate(3, 1), Some(HEAP_ADDR));
    assert_eq!(composite.allocate(3, 1), Some(HEAP_ADDR + word));
    assert_eq!(composite.allocate(4, 1), Some(HEAP_ADDR + SLAB_REGION_BYTES));
}

#[test]
fn composite_splits_an_unaligned_region_at_word_boundaries() {
    let word = word_size();
    let mut composite = CompositeAllocator::new_const(64, HEAP_ADDR + 1, HEAP_SIZE);
    assert_eq!(composite.allocate(64, 8), Some(HEAP_ADDR + word));
    assert_eq!(composite.allocate(1, 1), Some(HEAP_ADDR + word + 64));
    assert_eq!(composite.allocate(512, 1), Some(HEAP_ADDR + word + SLAB_REGION_BYTES));
    assert_eq!(composite.free_blocks(), 2046);
}

#[test]
fn splits_tells_which_regions_can_be_split() {
    let word = word_size();
    assert!(splits(HEAP_ADDR, HEAP_SIZE));
    assert!(splits(HEAP_ADDR + 1, HEAP_SIZE));
    assert!(splits(HEAP_ADDR, 256));
    assert!(splits(HEAP_ADDR, 0));
    assert!(!splits(0, HEAP_SIZE));
    assert!(!splits(HEAP_ADDR, usize::MAX));
    // An unaligned start needs room for the padding in front of the slab part.
    assert!(!splits(HEAP_ADDR + 1, 256));
    assert!(splits(HEAP_ADDR + 1, SLAB_REGION_BYTES + word - 1));
    assert!(!splits(HEAP_ADDR + 1, SLAB_REGION_BYTES + word - 2));
    // A slab part that ends off a word boundary needs padding behind it.
    assert!(!splits(HEAP_ADDR, 257));
    assert!(splits(HEAP_ADDR, 256 + word));
}
