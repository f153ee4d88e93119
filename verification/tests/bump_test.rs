use alloc_rs::bump::{align_up, carve, BumpAllocator};
use alloc_rs::global_bump::GlobalBumpAllocator;
use std::alloc::Layout;

const HEAP_ADDR: usize = 0x10_0000;

#[test]
pub fn simple_alloc_and_test() {
    let test_heap = [0u8; 1024];
    let heap_addr = test_heap.as_ptr() as usize;
    let heap_size = core::mem::size_of::<[u8; 1024]>();
    println!("heap addr : {heap_addr} and heap_size : {heap_size}");
    let mut allocator = BumpAllocator::new(heap_addr, heap_size);
    let l1 = Layout::from_size_align(16, 8).unwrap();
    println!("l1: {l1:?}");
    let ptr1 = allocator.allocate(l1.size(), l1.align()).expect("expected to alloc l1");
    let ptr2 = allocator.allocate(l1.size(), l1.align()).expect("expected to alloc l1");
    println!("ptr 1 : {ptr1:?} and ptr2: {ptr2:?}");
    let p1 = ptr1;
    let p2 = ptr2;
    println!("{p1:?} {p2}");
    assert_eq!(p2 - p1, 16);
    println!("{heap_addr}");
    let big = Layout::from_size_align(2000, 8).unwrap();
    assert!(allocator.allocate(big.size(), big.align()).is_none());
    allocator.reset();
    let again = allocator.allocate(l1.size(), l1.align()).expect("this alloc will succeed");
    assert_eq!(again, p1);
    assert_eq!(again, align_up(heap_addr, 8));
}

#[test]
fn bump_scenario_over_a_region_of_1024_bytes() {
    let mut allocator = BumpAllocator::new(HEAP_ADDR, 1024);
    assert_eq!(allocator.allocate(16, 8), Some(HEAP_ADDR));
    assert_eq!(allocator.allocate(16, 8), Some(HEAP_ADDR + 16));
    assert_eq!(allocator.allocate(2000, 8), None);
    assert_eq!(allocator.free_bytes(), 1024 - 32);
    allocator.reset();
    assert_eq!(allocator.allocate(16, 8), Some(HEAP_ADDR));
}

#[test]
pub fn alloc_alignment_test() {
    let test_heap = [0u8; 1024];
    let heap_addr = test_heap.as_ptr() as usize;
    let heap_size = 1024 as usize;
    let mut allocator = BumpAllocator::new(heap_addr, heap_size);
    let l1 = Layout::from_size_align(1, 1).unwrap();
    let ptr = allocator.allocate(l1.size(), l1.align()).expect("expected to succeed");
    assert!(ptr % 1 == 0, "alignment is mismatched");
    assert_eq!(ptr, heap_addr);
}

#[test]
pub fn simple_global_alloc() {
    println!("runing test");
    let mut global = GlobalBumpAllocator::new_const();
    global.reset();
    println!("reset");

    let b = Box::new(42u64);
    println!("did alloc");
    println!("{}", *b);
    let mut vec_alloc = Vec::with_capacity(10);
    for i in 0..10 {
        vec_alloc.push(i as u16);
    }
    let free_bytes = global.free_bytes();
    println!("after box alloc free bytes are {free_bytes}");
    assert_eq!(free_bytes, 0);
    assert_eq!(vec_alloc.len(), 10);
}

#[test]
fn align_up_rounds_to_the_next_multiple() {
    assert_eq!(align_up(0, 8), 0);
    assert_eq!(align_up(1, 8), 8);
    assert_eq!(align_up(8, 8), 8);
    assert_eq!(align_up(9, 8), 16);
    assert_eq!(align_up(4095, 4096), 4096);
    assert_eq!(align_up(4097, 4096), 8192);
    assert_eq!(align_up(13, 1), 13);
}

#[test]
fn align_up_with_zero_alignment_is_the_identity() {
    assert_eq!(align_up(0, 0), 0);
    assert_eq!(align_up(13, 0), 13);
    assert_eq!(align_up(usize::MAX, 0), usize::MAX);
}

#[test]
fn align_up_reaches_the_last_multiple_in_the_address_space() {
    let last = usize::MAX - 7;
    assert_eq!(align_up(last, 8), last);
    assert_eq!(align_up(last - 1, 8), last);
    assert_eq!(align_up(usize::MAX, 1), usize::MAX);
}

#[test]
fn carve_places_the_request_at_the_aligned_cursor() {
    assert_eq!(carve(100, 200, 10, 16), Some((112, 122)));
    assert_eq!(carve(112, 200, 88, 16), Some((112, 200)));
    assert_eq!(carve(100, 200, 0, 0), Some((100, 100)));
}

#[test]
fn carve_fails_when_the_request_passes_the_end() {
    assert_eq!(carve(112, 200, 89, 16), None);
    assert_eq!(carve(193, 200, 1, 16), None);
    assert_eq!(carve(200, 200, 1, 1), None);
}

#[test]
fn carve_fails_cleanly_near_the_top_of_the_address_space() {
    // No aligned address is left above the cursor.
    assert_eq!(carve(usize::MAX - 3, usize::MAX, 0, 8), None);
    // The size would carry the cursor past the last address.
    assert_eq!(carve(16, usize::MAX, usize::MAX, 8), None);
    assert_eq!(carve(16, usize::MAX, usize::MAX - 15, 8), None);
    assert_eq!(carve(16, usize::MAX, usize::MAX - 16, 8), Some((16, usize::MAX)));
}

#[test]
fn bump_addresses_increase_and_ranges_do_not_overlap() {
    let mut allocator = BumpAllocator::new(HEAP_ADDR + 3, 4096);
    let requests = [(1usize, 1usize), (24, 8), (3, 2), (100, 64), (7, 0), (512, 256)];
    let mut previous_end = HEAP_ADDR + 3;
    for (size, align) in requests {
        let addr = allocator.allocate(size, align).expect("the region has room");
        assert!(addr >= previous_end);
        if align != 0 {
            assert_eq!(addr % align, 0);
        }
        previous_end = addr + size;
    }
    assert!(previous_end <= HEAP_ADDR + 3 + 4096);
    assert_eq!(allocator.free_bytes(), HEAP_ADDR + 3 + 4096 - previous_end);
}

#[test]
fn bump_zero_sized_requests_share_an_address() {
    let mut allocator = BumpAllocator::new(HEAP_ADDR, 64);
    let first = allocator.allocate(0, 1).unwrap();
    let second = allocator.allocate(0, 1).unwrap();
    assert_eq!(first, HEAP_ADDR);
    assert_eq!(second, HEAP_ADDR);
}

#[test]
fn bump_failure_leaves_the_cursor_in_place() {
    let mut allocator = BumpAllocator::new(HEAP_ADDR, 64);
    assert_eq!(allocator.allocate(10, 1), Some(HEAP_ADDR));
    assert_eq!(allocator.free_bytes(), 54);
    // Aligned to 16 the cursor stands at +16, so 48 bytes are left.
    assert_eq!(allocator.allocate(49, 16), None);
    assert_eq!(allocator.free_bytes(), 54);
    assert_eq!(allocator.allocate(48, 16), Some(HEAP_ADDR + 16));
    assert_eq!(allocator.free_bytes(), 0);
    assert_eq!(allocator.allocate(1, 1), None);
    assert_eq!(allocator.allocate(0, 1), Some(HEAP_ADDR + 64));
}

#[test]
fn bump_fills_the_region_exactly() {
    let mut allocator = BumpAllocator::new(HEAP_ADDR, 1024);
    assert_eq!(allocator.free_bytes(), 1024);
    assert_eq!(allocator.allocate(1024, 8), Some(HEAP_ADDR));
    assert_eq!(allocator.free_bytes(), 0);
    assert_eq!(allocator.allocate(1, 1), None);
}

#[test]
fn bump_huge_request_fails_without_wrapping() {
    let mut allocator = BumpAllocator::new(HEAP_ADDR, 1024);
    assert_eq!(allocator.allocate(usize::MAX, 8), None);
    assert_eq!(allocator.allocate(usize::MAX - HEAP_ADDR + 1, 1), None);
    assert_eq!(allocator.free_bytes(), 1024);
    assert_eq!(allocator.allocate(8, 8), Some(HEAP_ADDR));
}

#[test]
fn bump_region_at_the_top_of_the_address_space() {
    let start = usize::MAX - 64;
    let mut allocator = BumpAllocator::new(start, 64);
    assert_eq!(allocator.allocate(usize::MAX, 1), None);
    assert_eq!(allocator.allocate(65, 1), None);
    assert_eq!(allocator.allocate(60, 1), Some(start));
    // The next 8-aligned address would be past the last address.
    assert_eq!(allocator.allocate(0, 8), None);
    assert_eq!(allocator.allocate(4, 1), Some(start + 60));
    assert_eq!(allocator.free_bytes(), 0);
}

#[test]
fn bump_reset_returns_to_the_region_start() {
    let mut allocator = BumpAllocator::new(HEAP_ADDR, 256);
    assert_eq!(allocator.allocate(200, 8), Some(HEAP_ADDR));
    assert_eq!(allocator.allocate(100, 8), None);
    allocator.reset();
    assert_eq!(allocator.free_bytes(), 256);
    assert_eq!(allocator.allocate(100, 8), Some(HEAP_ADDR));
}

#[test]
fn global_bump_is_empty_until_bound() {
    let mut global = GlobalBumpAllocator::new_const();
    assert_eq!(global.free_bytes(), 0);
    global.reset();
    assert_eq!(global.free_bytes(), 0);
}

#[test]
fn global_bump_first_binding_wins() {
    let mut global = GlobalBumpAllocator::new_const();
    global.ensure_init(HEAP_ADDR, HEAP_ADDR + 1024);
    assert_eq!(global.free_bytes(), 1024);
    global.ensure_init(HEAP_ADDR + 4096, HEAP_ADDR + 8192);
    assert_eq!(global.free_bytes(), 1024);
    assert_eq!(global.try_alloc(16, 8), Some(HEAP_ADDR));
}

#[test]
fn global_bump_allocates_within_its_bounds() {
    let mut global = GlobalBumpAllocator::new_const();
    global.ensure_init(HEAP_ADDR + 1, HEAP_ADDR + 129);
    assert_eq!(global.try_alloc(16, 8), Some(HEAP_ADDR + 8));
    assert_eq!(global.try_alloc(16, 8), Some(HEAP_ADDR + 24));
    assert_eq!(global.free_bytes(), 89);
    assert_eq!(global.try_alloc(90, 1), None);
    assert_eq!(global.free_bytes(), 89);
    assert_eq!(global.try_alloc(89, 1), Some(HEAP_ADDR + 40));
    assert_eq!(global.free_bytes(), 0);
    assert_eq!(global.try_alloc(usize::MAX, 4), None);
    global.reset();
    assert_eq!(global.free_bytes(), 128);
    assert_eq!(global.try_alloc(1, 1), Some(HEAP_ADDR + 1));
}

#[test]
fn global_bump_serves_nothing_until_bound() {
    let mut global = GlobalBumpAllocator::new_const();
    assert_eq!(global.try_alloc(16, 8), None);
    assert_eq!(global.try_alloc(0, 0), None);
    assert_eq!(global.free_bytes(), 0);
    global.ensure_init(HEAP_ADDR, HEAP_ADDR + 64);
    assert_eq!(global.try_alloc(0, 0), Some(HEAP_ADDR));
    assert_eq!(global.try_alloc(64, 8), Some(HEAP_ADDR));
}
