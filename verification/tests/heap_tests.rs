use kernelcore::heap::{Heap, KernelHeap};
use kernelcore::status::ErrorCode;

const BASE: usize = 0x100000;
const BLOCK: usize = 4096;

fn arena(blocks: usize) -> Heap {
    let mut h = Heap::new(BASE, blocks * BLOCK);
    h.init().expect("init");
    h
}

#[test]
fn init_rejects_misaligned_base() {
    let mut h = Heap::new(123, 16 * BLOCK);
    assert!(matches!(h.init(), Err(ErrorCode::InvArg)));
}

#[test]
fn init_rejects_misaligned_size() {
    let mut h = Heap::new(BASE, 16 * BLOCK + 1);
    assert!(matches!(h.init(), Err(ErrorCode::InvArg)));
}

#[test]
fn init_clears_the_table() {
    let h = arena(16);
    for i in 0..16 {
        assert_eq!(h.block_entry(i), 0);
    }
}

// Arena of 16 blocks: three single-block allocations come out in order,
// and after freeing the middle one the next allocation reuses its slot.
#[test]
fn first_fit_scenario() {
    let mut h = arena(16);
    assert_eq!(h.malloc(4096).unwrap(), BASE);
    assert_eq!(h.malloc(4096).unwrap(), BASE + 4096);
    assert_eq!(h.malloc(4096).unwrap(), BASE + 8192);
    h.free(BASE + 4096).unwrap();
    assert_eq!(h.malloc(4096).unwrap(), BASE + 4096);
}

#[test]
fn malloc_returns_aligned_addresses() {
    let mut h = arena(16);
    for _ in 0..5 {
        let p = h.malloc(5000).unwrap();
        assert_eq!(p % BLOCK, 0);
    }
}

#[test]
fn malloc_zero_takes_one_block() {
    let mut h = arena(2);
    assert_eq!(h.malloc(0).unwrap(), BASE);
    assert_eq!(h.malloc(1).unwrap(), BASE + 4096);
    assert!(matches!(h.malloc(1), Err(ErrorCode::NoMem)));
}

#[test]
fn malloc_rounds_up_to_whole_blocks() {
    let mut h = arena(16);
    // 4097 bytes round up to two blocks
    assert_eq!(h.malloc(4097).unwrap(), BASE);
    assert_eq!(h.malloc(4096).unwrap(), BASE + 2 * 4096);
}

// A three-block allocation marks taken+first(+next), taken+next, taken.
#[test]
fn chain_bits_of_multi_block_allocation() {
    let mut h = arena(16);
    assert_eq!(h.malloc(3 * 4096).unwrap(), BASE);
    assert_eq!(h.block_entry(0), 0x01 | 0x02 | 0x04);
    assert_eq!(h.block_entry(1), 0x01 | 0x02);
    assert_eq!(h.block_entry(2), 0x01);
    assert_eq!(h.block_entry(3), 0);
}

#[test]
fn free_clears_the_whole_chain_and_no_more() {
    let mut h = arena(16);
    let p = h.malloc(3 * 4096).unwrap();
    let q = h.malloc(4096).unwrap();
    assert_eq!(q, BASE + 3 * 4096);
    h.free(p).unwrap();
    for i in 0..3 {
        assert_eq!(h.block_entry(i), 0);
    }
    // the fourth block still belongs to the second allocation
    assert_eq!(h.block_entry(3), 0x01 | 0x04);
}

// Round trip: free(malloc(s)) restores the table, and the same request
// lands at the same address again.
#[test]
fn malloc_free_round_trip() {
    let mut h = arena(16);
    let _keep = h.malloc(4096).unwrap();
    let p = h.malloc(2 * 4096).unwrap();
    h.free(p).unwrap();
    for i in 1..16 {
        assert_eq!(h.block_entry(i), 0);
    }
    assert_eq!(h.malloc(2 * 4096).unwrap(), p);
}

// Exhaustion: when no sufficient free run remains the allocator reports
// NoMem; freeing a sufficient run unblocks an equal-or-smaller request.
#[test]
fn exhaustion_and_recovery() {
    let mut h = arena(4);
    let a = h.malloc(2 * 4096).unwrap();
    let _b = h.malloc(2 * 4096).unwrap();
    assert!(matches!(h.malloc(4096), Err(ErrorCode::NoMem)));
    h.free(a).unwrap();
    assert_eq!(h.malloc(4096).unwrap(), a);
}

#[test]
fn fragmented_table_needs_contiguous_run() {
    let mut h = arena(4);
    let _a = h.malloc(4096).unwrap();
    let b = h.malloc(4096).unwrap();
    let _c = h.malloc(4096).unwrap();
    let _d = h.malloc(4096).unwrap();
    h.free(b).unwrap();
    // one free block, but no run of two
    assert!(matches!(h.malloc(2 * 4096), Err(ErrorCode::NoMem)));
    assert_eq!(h.malloc(4096).unwrap(), b);
}

#[test]
fn free_rejects_addresses_outside_the_arena() {
    let mut h = arena(4);
    assert!(matches!(h.free(BASE - 1), Err(ErrorCode::InvArg)));
    assert!(matches!(h.free(BASE + 4 * BLOCK), Err(ErrorCode::InvArg)));
    assert!(h.free(BASE).is_ok());
}

#[test]
fn free_of_interior_address_frees_from_its_block() {
    let mut h = arena(4);
    let p = h.malloc(2 * 4096).unwrap();
    // an address inside the second block frees only the tail of the chain
    h.free(p + 4096 + 17).unwrap();
    assert_eq!(h.block_entry(0), 0x01 | 0x02 | 0x04);
    assert_eq!(h.block_entry(1), 0);
}

#[test]
fn zalloc_zeroes_exactly_the_requested_bytes() {
    let mut h = arena(4);
    let p = h.zalloc(100).unwrap();
    assert_eq!(p, BASE);
    for off in 0..100 {
        assert_eq!(h.arena_byte(off), 0);
    }
    // zalloc still takes a whole block
    assert_eq!(h.malloc(4096).unwrap(), BASE + 4096);
}

#[test]
fn kernel_heap_comes_up_over_the_configured_arena() {
    let kh = KernelHeap::default().expect("kernel heap");
    let mut h = kh.heap;
    let p = h.malloc(4096).unwrap();
    assert_eq!(p, 0x01000000);
    assert_eq!(p % 4096, 0);
}

#[test]
fn helpers_validate_geometry() {
    assert!(kernelcore::heap::heap_validate_alignment(BASE));
    assert!(!kernelcore::heap::heap_validate_alignment(BASE + 1));
    assert!(kernelcore::heap::heap_validate_total_blocks(BASE, BASE + 8 * BLOCK, 8).is_ok());
    assert!(matches!(
        kernelcore::heap::heap_validate_total_blocks(BASE, BASE + 8 * BLOCK, 9),
        Err(ErrorCode::InvArg)
    ));
    assert_eq!(kernelcore::heap::heap_align_value_to_upper(0), 0);
    assert_eq!(kernelcore::heap::heap_align_value_to_upper(1), 4096);
    assert_eq!(kernelcore::heap::heap_align_value_to_upper(4096), 4096);
    assert_eq!(kernelcore::heap::heap_align_value_to_upper(4097), 8192);
}
