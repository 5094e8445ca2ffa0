//! Block-granularity heap allocator using a first-fit scan.
//!
//! The heap manages a fixed contiguous arena `[base, base + size)` divided
//! into equal blocks, with a parallel block-status table holding one packed
//! byte per block.  Three bits of each byte are meaningful: `taken`,
//! `has next` (the following block belongs to the same allocation) and
//! `is first` (the block begins an allocation).  Allocation marks the
//! earliest sufficient run of free blocks; freeing walks the `has next`
//! chain and clears it.

use vstd::prelude::*;

use crate::config::{HEAP_ADDRESS, HEAP_BLOCK_SIZE, HEAP_SIZE_BYTES};
use crate::status::ErrorCode;

verus! {

/// Bit marking a block-table entry as allocated.
pub const BLOCK_TAKEN: u8 = 0x01;

/// Bit marking that the next block belongs to the same allocation.
pub const BLOCK_HAS_NEXT: u8 = 0x02;

/// Bit marking the first block of an allocation.
pub const BLOCK_IS_FIRST: u8 = 0x04;

/// Whether a block-table entry is allocated.
pub open spec fn entry_taken(e: u8) -> bool {
    e & BLOCK_TAKEN != 0
}

/// Whether the block after this entry's block belongs to the same allocation.
pub open spec fn entry_has_next(e: u8) -> bool {
    e & BLOCK_HAS_NEXT != 0
}

/// Whether this entry's block begins an allocation.
pub open spec fn entry_is_first(e: u8) -> bool {
    e & BLOCK_IS_FIRST != 0
}

/// All `n` entries starting at `s` are free.
pub open spec fn run_is_free(t: Seq<u8>, s: int, n: int) -> bool {
    forall|i: int| s <= i < s + n ==> !entry_taken(t[i])
}

/// The earliest index at or after `j` where `n` consecutive free entries
/// begin, if any.
pub open spec fn fit_from(t: Seq<u8>, n: int, j: int) -> Option<int>
    decreases t.len() - j,
{
    if j + n > t.len() || j > t.len() {
        None
    } else if run_is_free(t, j, n) {
        Some(j)
    } else {
        fit_from(t, n, j + 1)
    }
}

/// The earliest index where `n` consecutive free entries begin — the
/// first-fit choice for an allocation of `n` blocks.
pub open spec fn first_fit(t: Seq<u8>, n: int) -> Option<int> {
    fit_from(t, n, 0)
}

/// The table entry written for block `pos` of an allocation occupying
/// blocks `s ..= e`: the first block is flagged `is first`, every block but
/// the last is flagged `has next`, and all are `taken`.
pub open spec fn entry_for(pos: int, s: int, e: int) -> u8 {
    if pos == s {
        if e > s {
            (BLOCK_TAKEN | BLOCK_IS_FIRST | BLOCK_HAS_NEXT) as u8
        } else {
            (BLOCK_TAKEN | BLOCK_IS_FIRST) as u8
        }
    } else if pos < e {
        (BLOCK_TAKEN | BLOCK_HAS_NEXT) as u8
    } else {
        BLOCK_TAKEN
    }
}

/// The table after marking blocks `s .. s + n` as one allocation.
pub open spec fn mark_taken(t: Seq<u8>, s: int, n: int) -> Seq<u8> {
    Seq::new(t.len(), |i: int| if s <= i < s + n { entry_for(i, s, s + n - 1) } else { t[i] })
}

/// The last block of the allocation chain that starts at `b`: the first
/// index at or after `b` whose entry does not carry `has next`.  Equals
/// `t.len()` when every entry from `b` on carries it.
pub open spec fn chain_end(t: Seq<u8>, b: int) -> int
    decreases t.len() - b,
{
    if b < 0 || b >= t.len() {
        b
    } else if !entry_has_next(t[b]) {
        b
    } else {
        chain_end(t, b + 1)
    }
}

/// The table after freeing the chain that starts at block `b`.
pub open spec fn mark_free(t: Seq<u8>, b: int) -> Seq<u8> {
    Seq::new(t.len(), |i: int| if b <= i <= chain_end(t, b) { 0u8 } else { t[i] })
}

/// Number of blocks an allocation of `size` bytes occupies: `size` rounded
/// up to the next multiple of the block size, with size zero rounding up to
/// one block.
pub open spec fn blocks_needed(size: int) -> int {
    if size == 0 {
        1
    } else {
        (size + HEAP_BLOCK_SIZE - 1) / (HEAP_BLOCK_SIZE as int)
    }
}

/// How many entries of the table are free.
pub open spec fn count_free(t: Seq<u8>) -> int
    decreases t.len(),
{
    if t.len() == 0 {
        0
    } else {
        (if entry_taken(t.last()) {
            0int
        } else {
            1int
        }) + count_free(t.drop_last())
    }
}

/// A table whose every entry is taken has no free entry.
pub proof fn lemma_count_free_zero(t: Seq<u8>)
    requires
        forall|i: int| 0 <= i < t.len() ==> entry_taken(#[trigger] t[i]),
    ensures
        count_free(t) == 0,
    decreases t.len(),
{
    if t.len() > 0 {
        assert(forall|i: int|
            0 <= i < t.drop_last().len() ==> entry_taken(#[trigger] t.drop_last()[i]));
        lemma_count_free_zero(t.drop_last());
    }
}

/// Taking one previously free entry lowers the free count by exactly one.
pub proof fn lemma_count_free_take_one(t1: Seq<u8>, t2: Seq<u8>, s: int)
    requires
        t1.len() == t2.len(),
        0 <= s < t1.len(),
        !entry_taken(t1[s]),
        entry_taken(t2[s]),
        forall|i: int| 0 <= i < t1.len() && i != s ==> t2[i] == t1[i],
    ensures
        count_free(t2) == count_free(t1) - 1,
    decreases t1.len(),
{
    if s == t1.len() - 1 {
        assert(t2.drop_last() =~= t1.drop_last());
    } else {
        assert(t2.last() == t1.last());
        assert(t1.drop_last().len() == t2.drop_last().len());
        assert(forall|i: int|
            0 <= i < t1.drop_last().len() && i != s ==> (#[trigger] t2.drop_last()[i])
                == t1.drop_last()[i]);
        assert(t1.drop_last()[s] == t1[s]);
        assert(t2.drop_last()[s] == t2[s]);
        lemma_count_free_take_one(t1.drop_last(), t2.drop_last(), s);
    }
}

/// The block-granularity heap.  It owns the block-status table and the
/// arena bytes it models; addresses handed out are plain integers within
/// `[base, base + size)`.
pub struct Heap {
    s_addr: usize,
    size_bytes: usize,
    table: Vec<u8>,
    mem: Vec<u8>,
}

impl Heap {
    /// Address where the arena begins.
    pub closed spec fn base(&self) -> int {
        self.s_addr as int
    }

    /// Arena capacity in bytes.
    pub closed spec fn size(&self) -> int {
        self.size_bytes as int
    }

    /// The block-status table, one packed byte per block.
    pub closed spec fn blocks(&self) -> Seq<u8> {
        self.table@
    }

    /// The arena bytes, indexed by offset from `base`.
    pub closed spec fn arena(&self) -> Seq<u8> {
        self.mem@
    }

    /// Number of blocks the arena holds.
    pub open spec fn total_blocks(&self) -> int {
        self.size() / (HEAP_BLOCK_SIZE as int)
    }

    /// The heap is initialized and consistent: the arena bounds are
    /// block-aligned and fit the address space, the table holds one entry
    /// per block, and every free entry is fully cleared.
    pub open spec fn inv(&self) -> bool {
        &&& self.base() % (HEAP_BLOCK_SIZE as int) == 0
        &&& self.size() % (HEAP_BLOCK_SIZE as int) == 0
        &&& self.base() + self.size() <= usize::MAX
        &&& self.blocks().len() == self.total_blocks()
        &&& self.arena().len() == self.size()
        &&& forall|i: int|
            0 <= i < self.blocks().len() && !entry_taken(self.blocks()[i]) ==> self.blocks()[i]
                == 0
    }

    /// Builds an uninitialized heap over the arena `[s_addr, s_addr +
    /// size_bytes)`.  `init` must run before any allocation.
    pub fn new(s_addr: usize, size_bytes: usize) -> (h: Heap)
        ensures
            h.base() == s_addr,
            h.size() == size_bytes,
            h.blocks().len() == 0,
            h.arena().len() == 0,
    {
        Heap { s_addr, size_bytes, table: Vec::new(), mem: Vec::new() }
    }

    /// Validates the arena bounds and clears the block table so that every
    /// block is free.  Fails with `InvArg` when either arena bound is not
    /// block-aligned or the arena does not fit the address space; the heap
    /// is left untouched in that case.
    pub fn init(&mut self) -> (r: Result<(), ErrorCode>)
        ensures
            final(self).base() == old(self).base(),
            final(self).size() == old(self).size(),
            r is Ok <==> {
                &&& old(self).base() + old(self).size() <= usize::MAX
                &&& old(self).base() % (HEAP_BLOCK_SIZE as int) == 0
                &&& (old(self).base() + old(self).size()) % (HEAP_BLOCK_SIZE as int) == 0
            },
            r is Err ==> r == Err::<(), ErrorCode>(ErrorCode::InvArg) && *final(self) == *old(
                self,
            ),
            r is Ok ==> {
                &&& final(self).inv()
                &&& final(self).blocks() =~= Seq::new(
                    final(self).total_blocks() as nat,
                    |i: int| 0u8,
                )
                &&& final(self).arena() =~= Seq::new(final(self).size() as nat, |i: int| 0u8)
            },
    {
        if self.s_addr > usize::MAX - self.size_bytes {
            return Err(ErrorCode::InvArg);
        }
        let end = self.s_addr + self.size_bytes;
        if !heap_validate_alignment(self.s_addr) || !heap_validate_alignment(end) {
            return Err(ErrorCode::InvArg);
        }
        let total = self.size_bytes / HEAP_BLOCK_SIZE;
        self.table = vec![0u8; total];
        self.mem = vec![0u8; self.size_bytes];
        proof {
            assert forall|i: int| 0 <= i < self.table@.len() implies self.table@[i] == 0u8 by {}
            assert((self.s_addr + self.size_bytes) % (HEAP_BLOCK_SIZE as int) == 0);
            assert(self.size_bytes as int % (HEAP_BLOCK_SIZE as int) == 0) by {
                vstd::arithmetic::div_mod::lemma_add_mod_noop(
                    self.s_addr as int,
                    self.size_bytes as int,
                    HEAP_BLOCK_SIZE as int,
                );
            }
        }
        Ok(())
    }
}

/// Whether an address is block-aligned.
pub fn heap_validate_alignment(addr: usize) -> (r: bool)
    ensures
        r == (addr as int % (HEAP_BLOCK_SIZE as int) == 0),
{
    addr % HEAP_BLOCK_SIZE == 0
}

/// Validates that a configured block count matches the arena span
/// `[start, end)`.
pub fn heap_validate_total_blocks(start: usize, end: usize, total: usize) -> (r: Result<
    (),
    ErrorCode,
>)
    requires
        start <= end,
    ensures
        r is Ok <==> total as int == (end - start) as int / (HEAP_BLOCK_SIZE as int),
        r is Err ==> r == Err::<(), ErrorCode>(ErrorCode::InvArg),
{
    let table_size = end - start;
    let total_blocks = table_size / HEAP_BLOCK_SIZE;
    if total != total_blocks {
        return Err(ErrorCode::InvArg);
    }
    Ok(())
}

/// Rounds `val` up to the next multiple of the block size.
pub fn heap_align_value_to_upper(val: usize) -> (r: usize)
    requires
        val + HEAP_BLOCK_SIZE <= usize::MAX,
    ensures
        r as int % (HEAP_BLOCK_SIZE as int) == 0,
        val <= r < val + HEAP_BLOCK_SIZE,
{
    if val % HEAP_BLOCK_SIZE == 0 {
        return val;
    }
    let r = val - (val % HEAP_BLOCK_SIZE) + HEAP_BLOCK_SIZE;
    r
}


/// Concrete bit facts about the four entry values the allocator writes.
proof fn lemma_block_entry_bits()
    by (bit_vector)
    ensures
        0u8 & 0x01u8 == 0 && 0u8 & 0x02u8 == 0 && 0u8 & 0x04u8 == 0,
        1u8 & 0x01u8 != 0 && 1u8 & 0x02u8 == 0,
        3u8 & 0x01u8 != 0 && 3u8 & 0x02u8 != 0,
        5u8 & 0x01u8 != 0 && 5u8 & 0x02u8 == 0 && 5u8 & 0x04u8 != 0,
        1u8 & 0x04u8 == 0 && 3u8 & 0x04u8 == 0,
        7u8 & 0x01u8 != 0 && 7u8 & 0x02u8 != 0 && 7u8 & 0x04u8 != 0,
        1u8 | 0x04u8 == 5 && 5u8 | 0x02u8 == 7 && 1u8 | 0x02u8 == 3,
{
}

/// What the entry written for a block of an allocation run says: it is
/// taken, it carries `has next` exactly on every block but the last, and
/// `is first` exactly on the first.
pub proof fn lemma_entry_for_bits(pos: int, s: int, e: int)
    requires
        s <= pos <= e,
    ensures
        entry_taken(entry_for(pos, s, e)),
        entry_has_next(entry_for(pos, s, e)) <==> pos < e,
        entry_is_first(entry_for(pos, s, e)) <==> pos == s,
        entry_for(pos, s, e) != 0,
{
    lemma_block_entry_bits();
}

/// Where `fit_from` answers `Some(s)`, the run at `s` is free and no
/// earlier run from `j` on is; where it answers `None`, no run from `j`
/// on is free.
pub proof fn lemma_fit_from_props(t: Seq<u8>, n: int, j: int)
    requires
        0 <= j,
        n >= 1,
    ensures
        match fit_from(t, n, j) {
            Some(s) => {
                &&& j <= s
                &&& s + n <= t.len()
                &&& run_is_free(t, s, n)
                &&& forall|k: int| j <= k < s ==> !run_is_free(t, k, n)
            },
            None => forall|k: int| j <= k && k + n <= t.len() ==> !run_is_free(t, k, n),
        },
    decreases t.len() - j,
{
    if j + n > t.len() || j > t.len() {
    } else if run_is_free(t, j, n) {
    } else {
        lemma_fit_from_props(t, n, j + 1);
    }
}

/// `fit_from` finds `s` when the run at `s` is free and no earlier one is.
proof fn lemma_fit_from_found(t: Seq<u8>, n: int, j: int, s: int)
    requires
        0 <= j <= s,
        n >= 1,
        s + n <= t.len(),
        run_is_free(t, s, n),
        forall|k: int| j <= k < s ==> !run_is_free(t, k, n),
    ensures
        fit_from(t, n, j) == Some(s),
    decreases s - j,
{
    if j < s {
        lemma_fit_from_found(t, n, j + 1, s);
    }
}

/// `fit_from` finds nothing when no run from `j` on is free.
proof fn lemma_fit_from_none(t: Seq<u8>, n: int, j: int)
    requires
        0 <= j,
        n >= 1,
        forall|k: int| j <= k && k + n <= t.len() ==> !run_is_free(t, k, n),
    ensures
        fit_from(t, n, j) is None,
    decreases t.len() - j,
{
    if j + n > t.len() || j > t.len() {
    } else {
        lemma_fit_from_none(t, n, j + 1);
    }
}

/// The chain that starts at `b` ends exactly at the first entry from `b`
/// on that does not carry `has next`.
proof fn lemma_chain_end_char(t: Seq<u8>, b: int, i: int)
    requires
        0 <= b <= i <= t.len(),
        forall|j: int| b <= j < i ==> entry_has_next(t[j]),
        i < t.len() ==> !entry_has_next(t[i]),
    ensures
        chain_end(t, b) == i,
    decreases i - b,
{
    if b < i {
        lemma_chain_end_char(t, b + 1, i);
    }
}

impl Heap {
    /// Address of block `block` within the arena.
    fn block_to_address(&self, block: usize) -> (r: usize)
        requires
            self.inv(),
            block < self.blocks().len(),
        ensures
            r == self.base() + block * (HEAP_BLOCK_SIZE as int),
            r as int % (HEAP_BLOCK_SIZE as int) == 0,
    {
        proof {
            vstd::arithmetic::div_mod::lemma_fundamental_div_mod(
                self.size_bytes as int,
                HEAP_BLOCK_SIZE as int,
            );
            vstd::arithmetic::mul::lemma_mul_inequality(
                block as int + 1,
                self.total_blocks(),
                HEAP_BLOCK_SIZE as int,
            );
            vstd::arithmetic::mul::lemma_mul_is_distributive_add_other_way(
                HEAP_BLOCK_SIZE as int,
                block as int,
                1,
            );
            vstd::arithmetic::div_mod::lemma_mod_multiples_basic(
                block as int,
                HEAP_BLOCK_SIZE as int,
            );
            vstd::arithmetic::div_mod::lemma_add_mod_noop(
                self.s_addr as int,
                (block * HEAP_BLOCK_SIZE) as int,
                HEAP_BLOCK_SIZE as int,
            );
        }
        self.s_addr + block * HEAP_BLOCK_SIZE
    }

    /// Index of the block that holds `address`.
    fn address_to_block(&self, address: usize) -> (r: usize)
        requires
            self.inv(),
            self.base() <= address,
        ensures
            r == (address - self.base()) / (HEAP_BLOCK_SIZE as int),
    {
        (address - self.s_addr) / HEAP_BLOCK_SIZE
    }

    /// First-fit scan: the earliest block index where `total_blocks`
    /// consecutive free blocks begin, or `NoMem` when no such run exists
    /// anywhere in the table.
    fn get_start_block(&self, total_blocks: usize) -> (r: Result<usize, ErrorCode>)
        requires
            self.inv(),
            total_blocks >= 1,
        ensures
            match r {
                Ok(s) => first_fit(self.blocks(), total_blocks as int) == Some(s as int),
                Err(e) => {
                    &&& e == ErrorCode::NoMem
                    &&& first_fit(self.blocks(), total_blocks as int) is None
                },
            },
    {
        let ghost t = self.blocks();
        let n = self.table.len();
        let mut curr: usize = 0;
        let mut start: usize = 0;
        let mut found: bool = false;
        let mut i: usize = 0;
        while i < n
            invariant
                self.inv(),
                t == self.blocks(),
                1 <= total_blocks,
                n == t.len(),
                i <= n,
                curr < total_blocks,
                found ==> start as int + curr as int == i as int && curr >= 1 && run_is_free(
                    t,
                    start as int,
                    curr as int,
                ),
                !found ==> curr == 0,
                forall|k: int|
                    0 <= k < (if found {
                        start as int
                    } else {
                        i as int
                    }) ==> !run_is_free(t, k, total_blocks as int),
            decreases n - i,
        {
            if self.table[i] & BLOCK_TAKEN != 0 {
                proof {
                    assert forall|k: int|
                        0 <= k < i as int + 1 implies !run_is_free(
                        t,
                        k,
                        total_blocks as int,
                    ) by {
                        if k >= (if found { start as int } else { i as int }) {
                            assert(k <= i < k + total_blocks as int);
                            assert(entry_taken(t[i as int]));
                        }
                    }
                }
                curr = 0;
                found = false;
            } else {
                if !found {
                    start = i;
                    found = true;
                }
                curr = curr + 1;
                proof {
                    assert forall|j: int|
                        start as int <= j < start as int + curr as int implies !entry_taken(
                        t[j],
                    ) by {
                        if j == i as int {
                        }
                    }
                }
                if curr == total_blocks {
                    proof {
                        lemma_fit_from_found(t, total_blocks as int, 0, start as int);
                    }
                    return Ok(start);
                }
            }
            i = i + 1;
        }
        proof {
            assert forall|k: int|
                0 <= k && k + total_blocks as int <= n as int implies !run_is_free(
                t,
                k,
                total_blocks as int,
            ) by {
                if found {
                    if k >= start as int {
                        assert(k + total_blocks as int > start as int + curr as int);
                    }
                }
            }
            lemma_fit_from_none(t, total_blocks as int, 0);
        }
        Err(ErrorCode::NoMem)
    }

    /// Marks the run of blocks `start_block .. start_block + total_blocks`
    /// as one allocation: first block `is first`, every block but the last
    /// `has next`, all taken.
    fn mark_blocks_taken(&mut self, start_block: usize, total_blocks: usize)
        requires
            old(self).inv(),
            total_blocks >= 1,
            start_block + total_blocks <= old(self).blocks().len(),
        ensures
            final(self).inv(),
            final(self).base() == old(self).base(),
            final(self).size() == old(self).size(),
            final(self).arena() == old(self).arena(),
            final(self).blocks() == mark_taken(
                old(self).blocks(),
                start_block as int,
                total_blocks as int,
            ),
    {
        let ghost t = old(self).blocks();
        let last = start_block + total_blocks - 1;
        let mut i = start_block;
        while i <= last
            invariant
                self.base() == old(self).base(),
                self.size() == old(self).size(),
                self.arena() == old(self).arena(),
                self.blocks().len() == t.len(),
                t == old(self).blocks(),
                last == start_block + total_blocks - 1,
                total_blocks >= 1,
                last < t.len(),
                start_block <= i <= last + 1,
                forall|k: int|
                    0 <= k < t.len() && !(start_block <= k < i) ==> self.blocks()[k] == t[k],
                forall|k: int|
                    start_block <= k < i as int ==> self.blocks()[k] == entry_for(
                        k,
                        start_block as int,
                        last as int,
                    ),
                old(self).inv(),
            decreases last - i + 1,
        {
            let mut e: u8 = BLOCK_TAKEN;
            if i == start_block {
                e = e | BLOCK_IS_FIRST;
            }
            if i < last {
                e = e | BLOCK_HAS_NEXT;
            }
            proof {
                lemma_block_entry_bits();
                assert(e == entry_for(i as int, start_block as int, last as int));
            }
            self.table.set(i, e);
            i = i + 1;
        }
        proof {
            assert forall|k: int|
                0 <= k < self.blocks().len() && !entry_taken(
                self.blocks()[k],
            ) implies self.blocks()[k] == 0 by {
                if start_block <= k <= last {
                    lemma_entry_for_bits(k, start_block as int, last as int);
                    assert(self.blocks()[k] == entry_for(k, start_block as int, last as int));
                } else {
                    assert(self.blocks()[k] == t[k]);
                    assert(!entry_taken(t[k]) ==> t[k] == 0);
                }
            }
            assert(self.blocks() =~= mark_taken(t, start_block as int, total_blocks as int));
        }
    }

    /// Allocates `total_blocks` consecutive blocks by first fit, returning
    /// the address of the first.
    fn malloc_blocks(&mut self, total_blocks: usize) -> (r: Result<usize, ErrorCode>)
        requires
            old(self).inv(),
            total_blocks >= 1,
        ensures
            final(self).inv(),
            final(self).base() == old(self).base(),
            final(self).size() == old(self).size(),
            final(self).arena() == old(self).arena(),
            match first_fit(old(self).blocks(), total_blocks as int) {
                Some(s) => {
                    &&& r is Ok
                    &&& r->Ok_0 == old(self).base() + s * (HEAP_BLOCK_SIZE as int)
                    &&& final(self).blocks() == mark_taken(
                        old(self).blocks(),
                        s,
                        total_blocks as int,
                    )
                },
                None => {
                    &&& r == Err::<usize, ErrorCode>(ErrorCode::NoMem)
                    &&& final(self).blocks() == old(self).blocks()
                },
            },
    {
        let start_block = match self.get_start_block(total_blocks) {
            Ok(s) => s,
            Err(e) => {
                return Err(e);
            },
        };
        proof {
            lemma_fit_from_props(self.blocks(), total_blocks as int, 0);
        }
        let address = self.block_to_address(start_block);
        self.mark_blocks_taken(start_block, total_blocks);
        Ok(address)
    }

    /// Clears the allocation chain that starts at `starting_block`: every
    /// entry from there through the first one without `has next` is zeroed.
    fn mark_blocks_free(&mut self, starting_block: usize)
        requires
            old(self).inv(),
            starting_block < old(self).blocks().len(),
        ensures
            final(self).inv(),
            final(self).base() == old(self).base(),
            final(self).size() == old(self).size(),
            final(self).arena() == old(self).arena(),
            final(self).blocks() == mark_free(old(self).blocks(), starting_block as int),
    {
        let ghost t = old(self).blocks();
        let len = self.table.len();
        let mut e = starting_block;
        while e < len && (self.table[e] & BLOCK_HAS_NEXT) != 0
            invariant
                self.inv(),
                *self == *old(self),
                t == self.blocks(),
                len == t.len(),
                starting_block <= e <= len,
                forall|j: int| starting_block <= j < e as int ==> entry_has_next(t[j]),
            decreases len - e,
        {
            e = e + 1;
        }
        proof {
            lemma_chain_end_char(t, starting_block as int, e as int);
        }
        let stop = if e < len {
            e + 1
        } else {
            len
        };
        let mut i = starting_block;
        while i < stop
            invariant
                self.base() == old(self).base(),
                self.size() == old(self).size(),
                self.arena() == old(self).arena(),
                self.blocks().len() == t.len(),
                t == old(self).blocks(),
                starting_block <= i <= stop,
                stop <= t.len(),
                forall|k: int|
                    0 <= k < t.len() && !(starting_block <= k < i) ==> self.blocks()[k] == t[k],
                forall|k: int| starting_block <= k < i as int ==> self.blocks()[k] == 0,
                old(self).inv(),
            decreases stop - i,
        {
            self.table.set(i, 0);
            i = i + 1;
        }
        proof {
            lemma_block_entry_bits();
            assert(self.blocks() =~= mark_free(t, starting_block as int));
        }
    }

    /// Allocates at least `size` bytes, rounded up to whole blocks (size
    /// zero rounds up to one block).  The earliest sufficient run of free
    /// blocks is taken and the block-aligned address of its first block is
    /// returned; `NoMem` is returned exactly when no sufficient run exists
    /// anywhere in the table, which is then left unchanged.
    pub fn malloc(&mut self, size: usize) -> (r: Result<usize, ErrorCode>)
        requires
            old(self).inv(),
        ensures
            final(self).inv(),
            final(self).base() == old(self).base(),
            final(self).size() == old(self).size(),
            final(self).arena() == old(self).arena(),
            match first_fit(old(self).blocks(), blocks_needed(size as int)) {
                Some(s) => {
                    &&& r is Ok
                    &&& r->Ok_0 == old(self).base() + s * (HEAP_BLOCK_SIZE as int)
                    &&& r->Ok_0 as int % (HEAP_BLOCK_SIZE as int) == 0
                    &&& final(self).blocks() == mark_taken(
                        old(self).blocks(),
                        s,
                        blocks_needed(size as int),
                    )
                    &&& forall|i: int|
                        s <= i < s + blocks_needed(size as int) ==> entry_taken(
                            #[trigger] final(self).blocks()[i],
                        )
                    &&& forall|i: int|
                        0 <= i < final(self).blocks().len() && !(s <= i < s + blocks_needed(
                            size as int,
                        )) ==> final(self).blocks()[i] == old(self).blocks()[i]
                },
                None => {
                    &&& r == Err::<usize, ErrorCode>(ErrorCode::NoMem)
                    &&& final(self).blocks() == old(self).blocks()
                },
            },
    {
        let total_blocks = self.blocks_for_size(size);
        let r = self.malloc_blocks(total_blocks);
        proof {
            let n = blocks_needed(size as int);
            if let Some(s) = first_fit(old(self).blocks(), n) {
                lemma_fit_from_props(old(self).blocks(), n, 0);
                assert forall|i: int| s <= i < s + n implies entry_taken(
                    #[trigger] self.blocks()[i],
                ) by {
                    lemma_entry_for_bits(i, s, s + n - 1);
                }
            }
        }
        r
    }

    /// Number of whole blocks needed to hold `size` bytes.
    fn blocks_for_size(&self, size: usize) -> (n: usize)
        ensures
            n == blocks_needed(size as int),
            n >= 1,
    {
        if size == 0 {
            1
        } else if size % HEAP_BLOCK_SIZE == 0 {
            proof {
                vstd::arithmetic::div_mod::lemma_div_is_ordered(
                    HEAP_BLOCK_SIZE as int,
                    size as int,
                    HEAP_BLOCK_SIZE as int,
                );
                vstd::arithmetic::div_mod::lemma_div_by_self(HEAP_BLOCK_SIZE as int);
                if size < HEAP_BLOCK_SIZE {
                    vstd::arithmetic::div_mod::lemma_small_mod(
                        size as nat,
                        HEAP_BLOCK_SIZE as nat,
                    );
                }
            }
            size / HEAP_BLOCK_SIZE
        } else {
            proof {
                vstd::arithmetic::div_mod::lemma_div_pos_is_pos(
                    size as int,
                    HEAP_BLOCK_SIZE as int,
                );
            }
            size / HEAP_BLOCK_SIZE + 1
        }
    }

    /// `malloc` followed by zero-filling the returned region for exactly
    /// `size` bytes (not the rounded-up size).
    pub fn zalloc(&mut self, size: usize) -> (r: Result<usize, ErrorCode>)
        requires
            old(self).inv(),
        ensures
            final(self).inv(),
            final(self).base() == old(self).base(),
            final(self).size() == old(self).size(),
            match first_fit(old(self).blocks(), blocks_needed(size as int)) {
                Some(s) => {
                    &&& r is Ok
                    &&& r->Ok_0 == old(self).base() + s * (HEAP_BLOCK_SIZE as int)
                    &&& final(self).blocks() == mark_taken(
                        old(self).blocks(),
                        s,
                        blocks_needed(size as int),
                    )
                    &&& final(self).arena() == Seq::new(
                        old(self).arena().len(),
                        |i: int|
                            if s * (HEAP_BLOCK_SIZE as int) <= i < s * (HEAP_BLOCK_SIZE as int)
                                + size {
                                0u8
                            } else {
                                old(self).arena()[i]
                            },
                    )
                },
                None => {
                    &&& r == Err::<usize, ErrorCode>(ErrorCode::NoMem)
                    &&& final(self).blocks() == old(self).blocks()
                    &&& final(self).arena() == old(self).arena()
                },
            },
    {
        let ghost n = blocks_needed(size as int);
        let ptr = match self.malloc(size) {
            Ok(p) => p,
            Err(e) => {
                return Err(e);
            },
        };
        let ghost s = first_fit(old(self).blocks(), n)->Some_0;
        proof {
            lemma_fit_from_props(old(self).blocks(), n, 0);
            // size <= n blocks, and the run lies inside the arena
            vstd::arithmetic::div_mod::lemma_fundamental_div_mod(
                size as int,
                HEAP_BLOCK_SIZE as int,
            );
            vstd::arithmetic::mul::lemma_mul_is_distributive_add_other_way(
                HEAP_BLOCK_SIZE as int,
                s,
                n,
            );
            vstd::arithmetic::mul::lemma_mul_inequality(
                s + n,
                self.total_blocks(),
                HEAP_BLOCK_SIZE as int,
            );
            vstd::arithmetic::div_mod::lemma_fundamental_div_mod(
                self.size_bytes as int,
                HEAP_BLOCK_SIZE as int,
            );
            assert(size <= n * (HEAP_BLOCK_SIZE as int));
        }
        let off = ptr - self.s_addr;
        proof {
            assert(off + size <= self.arena().len());
        }
        let mut k: usize = 0;
        while k < size
            invariant
                self.base() == old(self).base(),
                self.size() == old(self).size(),
                self.inv(),
                self.blocks() == mark_taken(old(self).blocks(), s, n),
                off + size <= self.arena().len(),
                off == s * (HEAP_BLOCK_SIZE as int),
                self.arena().len() == old(self).arena().len(),
                k <= size,
                forall|i: int|
                    0 <= i < self.arena().len() && !(off <= i < off + k) ==> self.arena()[i]
                        == old(self).arena()[i],
                forall|i: int| off <= i < off as int + k as int ==> self.arena()[i] == 0,
            decreases size - k,
        {
            self.mem.set(off + k, 0);
            k = k + 1;
        }
        proof {
            assert(self.arena() =~= Seq::new(
                old(self).arena().len(),
                |i: int|
                    if s * (HEAP_BLOCK_SIZE as int) <= i < s * (HEAP_BLOCK_SIZE as int) + size {
                        0u8
                    } else {
                        old(self).arena()[i]
                    },
            ));
        }
        Ok(ptr)
    }

    /// Frees the allocation that holds address `ptr`: computes the owning
    /// block and clears the chain from there through the first entry
    /// without `has next`.  An address outside the arena is rejected with
    /// `InvArg` and the heap is left unchanged.
    pub fn free(&mut self, ptr: usize) -> (r: Result<(), ErrorCode>)
        requires
            old(self).inv(),
        ensures
            final(self).inv(),
            final(self).base() == old(self).base(),
            final(self).size() == old(self).size(),
            final(self).arena() == old(self).arena(),
            r is Ok <==> old(self).base() <= ptr < old(self).base() + old(self).size(),
            r is Err ==> r == Err::<(), ErrorCode>(ErrorCode::InvArg) && *final(self) == *old(
                self,
            ),
            r is Ok ==> final(self).blocks() == mark_free(
                old(self).blocks(),
                (ptr - old(self).base()) / (HEAP_BLOCK_SIZE as int),
            ),
    {
        if ptr < self.s_addr || ptr - self.s_addr >= self.size_bytes {
            return Err(ErrorCode::InvArg);
        }
        let block = self.address_to_block(ptr);
        proof {
            vstd::arithmetic::div_mod::lemma_fundamental_div_mod(
                self.size_bytes as int,
                HEAP_BLOCK_SIZE as int,
            );
            vstd::arithmetic::div_mod::lemma_div_by_multiple_is_strongly_ordered(
                (ptr - self.s_addr) as int,
                self.size_bytes as int,
                self.total_blocks(),
                HEAP_BLOCK_SIZE as int,
            );
        }
        self.mark_blocks_free(block);
        Ok(())
    }
}

impl Heap {
    /// Reads one block-table entry back.
    pub fn block_entry(&self, i: usize) -> (r: u8)
        requires
            self.inv(),
            i < self.blocks().len(),
        ensures
            r == self.blocks()[i as int],
    {
        self.table[i]
    }

    /// Reads one arena byte back, by offset from the base.
    pub fn arena_byte(&self, off: usize) -> (r: u8)
        requires
            self.inv(),
            off < self.arena().len(),
        ensures
            r == self.arena()[off as int],
    {
        self.mem[off]
    }
}

/// The process-wide kernel heap: the allocator configured over the fixed
/// arena the kernel links against.
pub struct KernelHeap {
    pub heap: Heap,
}

impl KernelHeap {
    /// Builds and initializes the kernel heap over the configured arena.
    pub fn default() -> (r: Result<KernelHeap, ErrorCode>)
        ensures
            r is Ok,
            r->Ok_0.heap.inv(),
            r->Ok_0.heap.base() == HEAP_ADDRESS,
            r->Ok_0.heap.size() == HEAP_SIZE_BYTES,
            forall|i: int|
                0 <= i < r->Ok_0.heap.blocks().len() ==> r->Ok_0.heap.blocks()[i] == 0,
    {
        let mut heap = Heap::new(HEAP_ADDRESS, HEAP_SIZE_BYTES);
        match heap.init() {
            Ok(()) => Ok(KernelHeap { heap }),
            Err(e) => Err(e),
        }
    }
}


/// Chain integrity: after marking blocks `s .. s + n` as one allocation,
/// every block of the run but the last carries `has next` and the last
/// does not; the chain that starts at `s` therefore ends exactly at
/// `s + n - 1`, and freeing from `s` clears the whole run and no more.
pub proof fn lemma_chain_integrity(t: Seq<u8>, s: int, n: int)
    requires
        0 <= s,
        1 <= n,
        s + n <= t.len(),
    ensures
        forall|i: int| s <= i < s + n - 1 ==> entry_has_next(#[trigger] mark_taken(t, s, n)[i]),
        !entry_has_next(mark_taken(t, s, n)[s + n - 1]),
        entry_is_first(mark_taken(t, s, n)[s]),
        chain_end(mark_taken(t, s, n), s) == s + n - 1,
        forall|i: int|
            0 <= i < t.len() && !(s <= i < s + n) ==> mark_free(mark_taken(t, s, n), s)[i] == t[i],
        forall|i: int| s <= i < s + n ==> mark_free(mark_taken(t, s, n), s)[i] == 0,
{
    let m = mark_taken(t, s, n);
    assert forall|i: int| s <= i < s + n implies (entry_has_next(#[trigger] m[i]) <==> i < s + n
        - 1) && entry_taken(m[i]) && (entry_is_first(m[i]) <==> i == s) by {
        lemma_entry_for_bits(i, s, s + n - 1);
    }
    lemma_chain_end_char(m, s, s + n - 1);
}

/// Round trip: freeing a fresh allocation returns the block table to its
/// prior free state, and an equal-sized request is then placed at the same
/// address again (first-fit determinism).
pub proof fn lemma_malloc_free_round_trip(t: Seq<u8>, n: int, s: int)
    requires
        n >= 1,
        forall|i: int| 0 <= i < t.len() && !entry_taken(#[trigger] t[i]) ==> t[i] == 0,
        first_fit(t, n) == Some(s),
    ensures
        mark_free(mark_taken(t, s, n), s) == t,
        first_fit(mark_free(mark_taken(t, s, n), s), n) == Some(s),
{
    lemma_fit_from_props(t, n, 0);
    lemma_chain_integrity(t, s, n);
    assert forall|i: int| 0 <= i < t.len() implies mark_free(mark_taken(t, s, n), s)[i]
        == t[i] by {
        if s <= i < s + n {
            assert(!entry_taken(t[i]));
        }
    }
    assert(mark_free(mark_taken(t, s, n), s) =~= t);
}

/// Exhaustion recovery: freeing the chain of an allocation of `m` blocks
/// opens a free run of that length, so a request of `n <= m` blocks finds
/// a fit afterwards.
pub proof fn lemma_free_unblocks(t: Seq<u8>, b: int, m: int, n: int)
    requires
        0 <= b,
        1 <= n <= m,
        b + m <= t.len(),
        forall|i: int| b <= i < b + m - 1 ==> entry_has_next(#[trigger] t[i]),
        !entry_has_next(t[b + m - 1]),
    ensures
        first_fit(mark_free(t, b), n) is Some,
{
    lemma_chain_end_char(t, b, b + m - 1);
    let f = mark_free(t, b);
    lemma_block_entry_bits();
    assert forall|i: int| b <= i < b + n implies !entry_taken(#[trigger] f[i]) by {
        assert(f[i] == 0);
    }
    if first_fit(f, n) is None {
        lemma_fit_from_props(f, n, 0);
        assert(!run_is_free(f, b, n));
        assert(false);
    }
}

} // verus!
