use kernelcore::heap::Heap;
use kernelcore::paging::{CurrentPageDirectory, PageMapIndexes, Paging256TBChunk};
use kernelcore::paging::{align_to_lower_page, is_aligned};
use kernelcore::pde::{PageDirectoryEntry, PDE_PRESENT, PDE_WRITEABLE};
use kernelcore::status::ErrorCode;

const BASE: usize = 0x200000;
const BLOCK: usize = 4096;

fn arena(blocks: usize) -> Heap {
    let mut h = Heap::new(BASE, blocks * BLOCK);
    h.init().expect("init");
    h
}

fn rw() -> PageDirectoryEntry {
    PageDirectoryEntry::from_value(PDE_PRESENT | PDE_WRITEABLE)
}

#[test]
fn index_decomposition() {
    let idx = PageMapIndexes::from(0x1000);
    assert_eq!(idx.p_i, 1);
    assert_eq!(idx.pt_i, 0);
    assert_eq!(idx.pd_i, 0);
    assert_eq!(idx.pdp_i, 0);
    // mixed indices at every level
    let v = (3u64 << 39) | (2u64 << 30) | (1u64 << 21) | (7u64 << 12);
    let idx = PageMapIndexes::from(v);
    assert_eq!(idx.pdp_i, 3);
    assert_eq!(idx.pd_i, 2);
    assert_eq!(idx.pt_i, 1);
    assert_eq!(idx.p_i, 7);
}

#[test]
fn alignment_helpers() {
    assert!(is_aligned(0x1000));
    assert!(!is_aligned(0x1001));
    assert_eq!(align_to_lower_page(0x1fff), 0x1000);
    assert_eq!(align_to_lower_page(0x1000), 0x1000);
}

// Fresh address space; map virtual 0x1000 to physical 0x5000; the leaf
// entry reads back present and writeable with frame 0x5.  Installing the
// space hands back the root table's physical address for the register
// write.
#[test]
fn map_and_read_back() {
    let mut heap = arena(16);
    let mut space = Paging256TBChunk::new(&mut heap).unwrap();
    space.map(&mut heap, 0x1000, 0x5000, rw()).unwrap();
    let e = space.get_or_insert(&mut heap, 0x1000, rw()).unwrap();
    assert!(e.present());
    assert!(e.writeable());
    assert_eq!(e.addr(), 0x5);

    let root = space.plm4_address();
    assert_eq!(root % 4096, 0);
    let mut current = CurrentPageDirectory::new();
    let loaded = Paging256TBChunk::switch(space, &mut current);
    assert_eq!(loaded, root);
}

// Mapping the same page twice leaves it resolving to the second frame.
#[test]
fn map_overwrite() {
    let mut heap = arena(16);
    let mut space = Paging256TBChunk::new(&mut heap).unwrap();
    space.map(&mut heap, 0x1000, 0x5000, rw()).unwrap();
    space.map(&mut heap, 0x1000, 0x9000, rw()).unwrap();
    let e = space.get_or_insert(&mut heap, 0x1000, rw()).unwrap();
    assert!(e.present());
    assert_eq!(e.addr(), 0x9);
}

// A misaligned address is rejected with InvArg and no table changes:
// an established mapping reads back the same before and after.
#[test]
fn misaligned_addresses_are_rejected() {
    let mut heap = arena(16);
    let mut space = Paging256TBChunk::new(&mut heap).unwrap();
    space.map(&mut heap, 0x1000, 0x5000, rw()).unwrap();
    let before = space.get_or_insert(&mut heap, 0x1000, rw()).unwrap();

    assert!(matches!(
        space.map(&mut heap, 0x2001, 0x6000, rw()),
        Err(ErrorCode::InvArg)
    ));
    assert!(matches!(
        space.map(&mut heap, 0x2000, 0x6001, rw()),
        Err(ErrorCode::InvArg)
    ));
    assert!(matches!(
        space.set(&mut heap, 0x2001, 0x6000, rw()),
        Err(ErrorCode::InvArg)
    ));

    let after = space.get_or_insert(&mut heap, 0x1000, rw()).unwrap();
    assert_eq!(before.value, after.value);
}

#[test]
fn map_leaves_other_pages_alone() {
    let mut heap = arena(16);
    let mut space = Paging256TBChunk::new(&mut heap).unwrap();
    space.map(&mut heap, 0x1000, 0x5000, rw()).unwrap();
    space.map(&mut heap, 0x2000, 0x7000, rw()).unwrap();
    let e1 = space.get_or_insert(&mut heap, 0x1000, rw()).unwrap();
    let e2 = space.get_or_insert(&mut heap, 0x2000, rw()).unwrap();
    assert_eq!(e1.addr(), 0x5);
    assert_eq!(e2.addr(), 0x7);
}

#[test]
fn map_range_maps_consecutive_pages() {
    let mut heap = arena(32);
    let mut space = Paging256TBChunk::new(&mut heap).unwrap();
    space.map_range(&mut heap, 0x10000, 0x40000, 3, rw()).unwrap();
    for i in 0..3u64 {
        let e = space.get_or_insert(&mut heap, 0x10000 + i * 4096, rw()).unwrap();
        assert!(e.present());
        assert_eq!(e.addr(), (0x40000 + i * 4096) >> 12);
    }
}

#[test]
fn map_to_maps_a_physical_span() {
    let mut heap = arena(32);
    let mut space = Paging256TBChunk::new(&mut heap).unwrap();
    space.map_to(&mut heap, 0x10000, 0x40000, 0x42000, rw()).unwrap();
    for i in 0..2u64 {
        let e = space.get_or_insert(&mut heap, 0x10000 + i * 4096, rw()).unwrap();
        assert_eq!(e.addr(), (0x40000 + i * 4096) >> 12);
    }
    assert!(matches!(
        space.map_to(&mut heap, 0x10000, 0x42000, 0x40000, rw()),
        Err(ErrorCode::InvArg)
    ));
    assert!(matches!(
        space.map_to(&mut heap, 0x10001, 0x40000, 0x42000, rw()),
        Err(ErrorCode::InvArg)
    ));
}

#[test]
fn get_p_addr_preserves_sub_page_offset() {
    let mut heap = arena(16);
    let mut space = Paging256TBChunk::new(&mut heap).unwrap();
    space.map(&mut heap, 0x1000, 0x5000, rw()).unwrap();
    let p = space.get_p_addr_or_insert(&mut heap, 0x1234, rw()).unwrap();
    // the mapped physical address with the sub-page offset, flag bits masked off
    assert_eq!(p, 0x5234);
}

#[test]
fn heap_exhaustion_propagates_as_no_mem() {
    let mut heap = arena(1);
    let mut space = Paging256TBChunk::new(&mut heap).unwrap();
    // the one block went to the root table; growing a PDP must fail
    assert!(matches!(
        space.map(&mut heap, 0x1000, 0x5000, rw()),
        Err(ErrorCode::NoMem)
    ));
}

#[test]
fn tables_come_from_the_heap() {
    let mut heap = arena(16);
    let space = Paging256TBChunk::new(&mut heap).unwrap();
    let root = space.plm4_address();
    assert_eq!(root, BASE as u64);
    // the root's block is taken now
    assert_eq!(heap.block_entry(0) & 0x01, 0x01);
    // a full walk allocates three more tables
    let mut space = space;
    space.map(&mut heap, 0x1000, 0x5000, rw()).unwrap();
    for i in 0..4 {
        assert_eq!(heap.block_entry(i) & 0x01, 0x01);
    }
    assert_eq!(heap.block_entry(4), 0);
}

// Resolving the same address twice returns the same entry and allocates
// nothing the second time.
#[test]
fn get_or_insert_is_idempotent() {
    let mut heap = arena(16);
    let mut space = Paging256TBChunk::new(&mut heap).unwrap();
    let e1 = space.get_or_insert(&mut heap, 0x1000, rw()).unwrap();
    let mut used = Vec::new();
    for i in 0..16 {
        used.push(heap.block_entry(i));
    }
    let e2 = space.get_or_insert(&mut heap, 0x1000, rw()).unwrap();
    assert_eq!(e1.value, e2.value);
    for i in 0..16 {
        assert_eq!(heap.block_entry(i), used[i]);
    }
}

#[test]
fn switch_replaces_the_active_space() {
    let mut heap = arena(16);
    let first = Paging256TBChunk::new(&mut heap).unwrap();
    let second = Paging256TBChunk::new(&mut heap).unwrap();
    let first_root = first.plm4_address();
    let second_root = second.plm4_address();
    assert_ne!(first_root, second_root);

    let mut current = CurrentPageDirectory::new();
    assert_eq!(Paging256TBChunk::switch(first, &mut current), first_root);
    assert_eq!(Paging256TBChunk::switch(second, &mut current), second_root);
}

// Overwriting an existing mapping walks an existing path: it must succeed
// and allocate no new table.
#[test]
fn map_overwrite_allocates_nothing() {
    let mut heap = arena(16);
    let mut space = Paging256TBChunk::new(&mut heap).unwrap();
    space.map(&mut heap, 0x1000, 0x5000, rw()).unwrap();
    let mut used = Vec::new();
    for i in 0..16 {
        used.push(heap.block_entry(i));
    }
    space.map(&mut heap, 0x1000, 0x9000, rw()).unwrap();
    for i in 0..16 {
        assert_eq!(heap.block_entry(i), used[i]);
    }
}

#[test]
fn map_range_rejects_misaligned_addresses() {
    let mut heap = arena(16);
    let mut space = Paging256TBChunk::new(&mut heap).unwrap();
    assert!(matches!(
        space.map_range(&mut heap, 0x1001, 0x5000, 2, rw()),
        Err(ErrorCode::InvArg)
    ));
    assert!(matches!(
        space.map_range(&mut heap, 0x1000, 0x5001, 2, rw()),
        Err(ErrorCode::InvArg)
    ));
    // a zero-length range has nothing to reject
    assert!(space.map_range(&mut heap, 0x1001, 0x5001, 0, rw()).is_ok());
}

// A mid-range exhaustion leaves the already-mapped prefix in place.
#[test]
fn map_range_failure_keeps_the_mapped_prefix() {
    // the root and the first page's three tables use up all four blocks,
    // so the walk for the page that crosses into the next page table
    // (0x200000, 511 pages in) cannot grow and reports exhaustion
    let mut heap = arena(4);
    let mut space = Paging256TBChunk::new(&mut heap).unwrap();
    let v = 0x1000;
    let r = space.map_range(&mut heap, v, 0x40000, 1024, rw());
    assert!(matches!(r, Err(ErrorCode::NoMem)));
    // the pages that fit are still mapped
    let first = space.get_or_insert(&mut heap, v, rw()).unwrap();
    assert!(first.present());
    assert_eq!(first.addr(), 0x40);
    let last_mapped = space.get_or_insert(&mut heap, v + 510 * 4096, rw()).unwrap();
    assert!(last_mapped.present());
    assert_eq!(last_mapped.addr(), 0x40 + 510);
    // the page past the break has no table, and none can be grown
    assert!(matches!(
        space.get_or_insert(&mut heap, 0x200000, rw()),
        Err(ErrorCode::NoMem)
    ));
}
