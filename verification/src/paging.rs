//! Four-level hardware page-table management.
//!
//! An address space owns one root table (PLM4) and three layers of child
//! tables (PDP, PD, PT), each an array of 512 hardware entries.  Child
//! tables are created lazily from blocks handed out by the heap allocator;
//! an entry's frame field holds the physical address of the table (or, at
//! the deepest level, of the mapped page frame) exactly as the CPU reads
//! it.  The address space owns its tables as explicit node collections, one
//! per level, and every node records the physical address its block was
//! allocated at.

use vstd::prelude::*;

use crate::config::HEAP_BLOCK_SIZE;
use crate::heap::{blocks_needed, count_free, entry_taken, first_fit, run_is_free, Heap};
use crate::pde::{
    lemma_pde_encode, pde_child_addr, pde_encode, pde_frame, pde_present, PageDirectoryEntry,
    PDE_ADDR_MASK, PDE_MAX_PHYS, PDE_PRESENT,
};
use crate::status::ErrorCode;

verus! {

/// Entries per page table.
pub const PAGING_TOTAL_ENTRIES_PER_TABLE: usize = 512;

/// Bytes covered by one leaf entry; also the size of one table.
pub const PAGING_PAGE_SIZE: u64 = 4096;

/// The leaf index of a virtual address: bits 12–20.
pub open spec fn p_index(v: u64) -> int {
    ((v >> 12) & 0x1ff) as int
}

/// The page-table index of a virtual address: bits 21–29.
pub open spec fn pt_index(v: u64) -> int {
    ((v >> 21) & 0x1ff) as int
}

/// The page-directory index of a virtual address: bits 30–38.
pub open spec fn pd_index(v: u64) -> int {
    ((v >> 30) & 0x1ff) as int
}

/// The directory-pointer index of a virtual address: bits 39–47.
pub open spec fn pdp_index(v: u64) -> int {
    ((v >> 39) & 0x1ff) as int
}

/// Two virtual addresses select the same leaf entry: all four indices
/// agree.
pub open spec fn same_page(w: u64, v: u64) -> bool {
    &&& pdp_index(w) == pdp_index(v)
    &&& pd_index(w) == pd_index(v)
    &&& pt_index(w) == pt_index(v)
    &&& p_index(w) == p_index(v)
}

/// The four indices are consecutive 9-bit slices and each lies below 512.
proof fn lemma_index_facts(v: u64)
    by (bit_vector)
    ensures
        (v >> 12) & 0x1ff < 512,
        (v >> 21) & 0x1ff < 512,
        (v >> 30) & 0x1ff < 512,
        (v >> 39) & 0x1ff < 512,
        ((v >> 12) >> 9) == v >> 21,
        ((v >> 21) >> 9) == v >> 30,
        ((v >> 30) >> 9) == v >> 39,
{
}

/// Two distinct page-aligned addresses below the 48-bit virtual-address
/// bound differ in at least one of the four indices.
proof fn lemma_distinct_pages(v1: u64, v2: u64)
    by (bit_vector)
    requires
        v1 % 4096 == 0,
        v2 % 4096 == 0,
        v1 < 0x1_0000_0000_0000,
        v2 < 0x1_0000_0000_0000,
        (v1 >> 12) & 0x1ff == (v2 >> 12) & 0x1ff,
        (v1 >> 21) & 0x1ff == (v2 >> 21) & 0x1ff,
        (v1 >> 30) & 0x1ff == (v2 >> 30) & 0x1ff,
        (v1 >> 39) & 0x1ff == (v2 >> 39) & 0x1ff,
    ensures
        v1 == v2,
{
}

/// The indices of a page-aligned virtual address, decomposed once and then
/// used to walk the four levels.
pub struct PageMapIndexes {
    pub pdp_i: usize,
    pub pd_i: usize,
    pub pt_i: usize,
    pub p_i: usize,
}

impl PageMapIndexes {
    /// Splits a virtual address into its four 9-bit table indices,
    /// discarding the low 12 bits of page offset.
    pub fn from(v_addr: u64) -> (r: Self)
        ensures
            r.p_i == p_index(v_addr),
            r.pt_i == pt_index(v_addr),
            r.pd_i == pd_index(v_addr),
            r.pdp_i == pdp_index(v_addr),
            r.p_i < 512 && r.pt_i < 512 && r.pd_i < 512 && r.pdp_i < 512,
    {
        proof {
            lemma_index_facts(v_addr);
        }
        let mut x = v_addr >> 12u64;
        let p_i = (x & 0x1ff) as usize;
        x = x >> 9u64;
        let pt_i = (x & 0x1ff) as usize;
        x = x >> 9u64;
        let pd_i = (x & 0x1ff) as usize;
        x = x >> 9u64;
        let pdp_i = (x & 0x1ff) as usize;
        PageMapIndexes { pdp_i, pd_i, pt_i, p_i }
    }
}

/// One page table: 512 hardware entries, living in a block of physical
/// memory whose address the node records.
struct PageTable {
    entries: Vec<u64>,
    addr: u64,
}

/// `a` is the address of a block the heap has currently allocated: it lies
/// in the arena, is block-aligned relative to the base, and its block-table
/// entry is taken.
pub open spec fn addr_backed(h: Heap, a: u64) -> bool {
    &&& h.base() <= a < h.base() + h.size()
    &&& (a - h.base()) % (HEAP_BLOCK_SIZE as int) == 0
    &&& entry_taken(h.blocks()[(a - h.base()) / (HEAP_BLOCK_SIZE as int)])
}

/// The heap arena lies below the bound physical frame fields can encode.
pub open spec fn heap_fits(h: Heap) -> bool {
    h.base() + h.size() <= PDE_MAX_PHYS
}

/// The index of the first node in `s` whose recorded address is `addr`.
spec fn find_node(s: Seq<PageTable>, addr: u64) -> Option<int>
    decreases s.len(),
{
    if s.len() == 0 {
        None
    } else if s[0].addr == addr {
        Some(0)
    } else {
        match find_node(s.drop_first(), addr) {
            Some(i) => Some(i + 1),
            None => None,
        }
    }
}

/// Every node of `s` has 512 entries and a page-aligned recorded address
/// below the physical bound.
spec fn nodes_ok(s: Seq<PageTable>) -> bool {
    forall|j: int|
        0 <= j < s.len() ==> (#[trigger] s[j].entries@.len()) == 512 && s[j].addr as int % 4096
            == 0 && s[j].addr < PDE_MAX_PHYS
}

/// No two nodes of `s` share a recorded address.
spec fn addrs_distinct(s: Seq<PageTable>) -> bool {
    forall|j1: int, j2: int|
        0 <= j1 < j2 < s.len() ==> (#[trigger] s[j1].addr) != (#[trigger] s[j2].addr)
}

/// Every node of `s` lives in a block the heap has allocated.
spec fn all_backed(s: Seq<PageTable>, h: Heap) -> bool {
    forall|j: int| 0 <= j < s.len() ==> addr_backed(h, #[trigger] s[j].addr)
}

/// Every present entry of every parent node resolves to a child node.
spec fn linked(parents: Seq<PageTable>, children: Seq<PageTable>) -> bool {
    forall|j: int, k: int|
        0 <= j < parents.len() && 0 <= k < 512 && pde_present(
            #[trigger] parents[j].entries@[k],
        ) ==> find_node(children, pde_child_addr(parents[j].entries@[k])) is Some
}

/// No two present entries across the parent nodes reference the same child
/// address: the radix tree has no sharing.
spec fn targets_distinct(parents: Seq<PageTable>) -> bool {
    forall|j1: int, k1: int, j2: int, k2: int|
        0 <= j1 < parents.len() && 0 <= k1 < 512 && 0 <= j2 < parents.len() && 0 <= k2 < 512 && !(
        j1 == j2 && k1 == k2) && pde_present(#[trigger] parents[j1].entries@[k1]) && pde_present(
            #[trigger] parents[j2].entries@[k2],
        ) ==> pde_child_addr(parents[j1].entries@[k1]) != pde_child_addr(
            parents[j2].entries@[k2],
        )
}

/// Where `find_node` answers `Some(i)`, node `i` matches and is the first
/// to do so; where it answers `None`, no node matches.
proof fn lemma_find_node_props(s: Seq<PageTable>, addr: u64)
    ensures
        match find_node(s, addr) {
            Some(i) => 0 <= i < s.len() && s[i].addr == addr && forall|j: int|
                0 <= j < i ==> (#[trigger] s[j].addr) != addr,
            None => forall|j: int| 0 <= j < s.len() ==> (#[trigger] s[j].addr) != addr,
        },
    decreases s.len(),
{
    if s.len() > 0 && s[0].addr != addr {
        lemma_find_node_props(s.drop_first(), addr);
        assert(forall|j: int| 0 <= j < s.len() - 1 ==> (#[trigger] s.drop_first()[j]) == s[j + 1]);
        match find_node(s.drop_first(), addr) {
            Some(i) => {
                assert forall|j: int| 0 <= j < i + 1 implies (#[trigger] s[j].addr) != addr by {
                    if j > 0 {
                        assert(s.drop_first()[j - 1].addr != addr);
                    }
                }
            },
            None => {
                assert forall|j: int| 0 <= j < s.len() implies (#[trigger] s[j].addr) != addr by {
                    if j > 0 {
                        assert(s.drop_first()[j - 1].addr != addr);
                    }
                }
            },
        }
    }
}

/// Appending a node does not disturb existing lookups; a new address is
/// found at the end.
proof fn lemma_find_node_push(s: Seq<PageTable>, n: PageTable, addr: u64)
    ensures
        find_node(s.push(n), addr) == match find_node(s, addr) {
            Some(i) => Some(i),
            None => if n.addr == addr {
                Some(s.len() as int)
            } else {
                None::<int>
            },
        },
    decreases s.len(),
{
    if s.len() == 0 {
        assert(s.push(n).drop_first() =~= Seq::<PageTable>::empty());
        assert(s.push(n)[0] == n);
        assert(s.push(n).len() == 1);
        if n.addr == addr {
            assert(find_node(s.push(n), addr) == Some(0int));
        } else {
            assert(find_node(s.push(n).drop_first(), addr) is None);
            assert(find_node(s.push(n), addr) is None);
        }
        assert(find_node(s, addr) is None);
    } else {
        assert(s.push(n)[0] == s[0]);
        assert(s.push(n).drop_first() =~= s.drop_first().push(n));
        lemma_find_node_push(s.drop_first(), n, addr);
        if s[0].addr == addr {
            assert(find_node(s.push(n), addr) == Some(0int));
            assert(find_node(s, addr) == Some(0int));
        } else {
            assert(find_node(s.push(n), addr) == match find_node(s.drop_first().push(n), addr) {
                Some(i) => Some(i + 1),
                None => None::<int>,
            });
            assert(find_node(s, addr) == match find_node(s.drop_first(), addr) {
                Some(i) => Some(i + 1),
                None => None::<int>,
            });
            assert(s.drop_first().len() == s.len() - 1);
        }
    }
}

/// Lookups depend only on the recorded addresses, not on the entries.
proof fn lemma_find_node_same_addrs(s1: Seq<PageTable>, s2: Seq<PageTable>, addr: u64)
    requires
        s1.len() == s2.len(),
        forall|j: int| 0 <= j < s1.len() ==> (#[trigger] s1[j].addr) == s2[j].addr,
    ensures
        find_node(s1, addr) == find_node(s2, addr),
    decreases s1.len(),
{
    if s1.len() > 0 {
        assert(s1[0].addr == s2[0].addr);
        assert forall|j: int| 0 <= j < s1.drop_first().len() implies (#[trigger] s1.drop_first()[j].addr)
            == s2.drop_first()[j].addr by {
            assert(s1.drop_first()[j] == s1[j + 1]);
            assert(s2.drop_first()[j] == s2[j + 1]);
            assert(s1[j + 1].addr == s2[j + 1].addr);
        }
        lemma_find_node_same_addrs(s1.drop_first(), s2.drop_first(), addr);
    }
}

/// Builds the 512 zeroed entries of a fresh table.
fn new_table_entries() -> (v: Vec<u64>)
    ensures
        v@ == Seq::new(512, |q: int| 0u64),
{
    let mut v: Vec<u64> = Vec::new();
    while v.len() < 512
        invariant
            v@.len() <= 512,
            forall|i: int| 0 <= i < v@.len() ==> v@[i] == 0u64,
        decreases 512 - v.len(),
    {
        v.push(0);
    }
    proof {
        assert(v@ =~= Seq::new(512, |q: int| 0u64));
    }
    v
}

/// Finds the child node recorded at `addr`, scanning in insertion order.
fn find_child(children: &Vec<PageTable>, addr: u64) -> (r: Option<usize>)
    ensures
        match r {
            Some(i) => find_node(children@, addr) == Some(i as int) && i < children@.len()
                && children@[i as int].addr == addr,
            None => find_node(children@, addr) is None,
        },
{
    let mut i: usize = 0;
    while i < children.len()
        invariant
            i <= children@.len(),
            forall|j: int| 0 <= j < i ==> (#[trigger] children@[j].addr) != addr,
        decreases children@.len() - i,
    {
        if children[i].addr == addr {
            proof {
                lemma_find_node_props(children@, addr);
                if find_node(children@, addr) is None {
                    assert(false);
                }
                let k = find_node(children@, addr)->Some_0;
                if k < i {
                    assert(children@[k].addr != addr);
                    assert(false);
                }
                if k > i {
                    assert(children@[i as int].addr != addr);
                    assert(false);
                }
            }
            return Some(i);
        }
        i = i + 1;
    }
    proof {
        lemma_find_node_props(children@, addr);
        if let Some(k) = find_node(children@, addr) {
            assert(children@[k].addr != addr);
            assert(false);
        }
    }
    None
}

/// Takes one table-sized block from the heap allocator for a fresh page
/// table.  The returned address is page-aligned, newly allocated (so it
/// differs from every address already backing a node), and every address
/// that was backed stays backed.  `NoMem` is returned exactly when the
/// heap has no free block left.
fn page_alloc(heap: &mut Heap) -> (r: Result<u64, ErrorCode>)
    requires
        old(heap).inv(),
        heap_fits(*old(heap)),
    ensures
        final(heap).inv(),
        heap_fits(*final(heap)),
        final(heap).base() == old(heap).base(),
        final(heap).size() == old(heap).size(),
        final(heap).arena() == old(heap).arena(),
        forall|a: u64| addr_backed(*old(heap), a) ==> addr_backed(*final(heap), a),
        match r {
            Ok(p) => {
                &&& addr_backed(*final(heap), p)
                &&& !addr_backed(*old(heap), p)
                &&& p as int % 4096 == 0
                &&& p < PDE_MAX_PHYS
                &&& forall|a: u64| addr_backed(*old(heap), a) ==> a != p
                &&& count_free(final(heap).blocks()) == count_free(
                    old(heap).blocks(),
                ) - 1
            },
            Err(e) => {
                &&& e == ErrorCode::NoMem
                &&& first_fit(final(heap).blocks(), 1) is None
                &&& final(heap).blocks() == old(heap).blocks()
                &&& count_free(old(heap).blocks()) == 0
            },
        },
{
    let ghost h0 = *heap;
    let r = heap.malloc(HEAP_BLOCK_SIZE);
    proof {
        assert(blocks_needed(HEAP_BLOCK_SIZE as int) == 1) by {
            vstd::arithmetic::div_mod::lemma_div_by_self(HEAP_BLOCK_SIZE as int);
            vstd::arithmetic::div_mod::lemma_mod_self_0(HEAP_BLOCK_SIZE as int);
        }
        if let Some(s) = first_fit(h0.blocks(), 1) {
            crate::heap::lemma_fit_from_props(h0.blocks(), 1, 0);
            let hbs = HEAP_BLOCK_SIZE as int;
            let addr = h0.base() + s * hbs;
            vstd::arithmetic::mul::lemma_mul_inequality(s + 1, h0.total_blocks(), hbs);
            vstd::arithmetic::mul::lemma_mul_is_distributive_add_other_way(hbs, s, 1);
            vstd::arithmetic::div_mod::lemma_fundamental_div_mod(h0.size() as int, hbs);
            assert(addr < h0.base() + h0.size());
            vstd::arithmetic::div_mod::lemma_mod_multiples_basic(s, hbs);
            vstd::arithmetic::div_mod::lemma_div_by_multiple(s, hbs);
            assert((addr - h0.base()) % hbs == 0);
            assert((addr - h0.base()) / hbs == s);
            // the allocated block is now taken, every taken block stays taken
            assert(entry_taken(heap.blocks()[s])) by {
                crate::heap::lemma_entry_for_bits(s, s, s);
            }
            assert forall|a: u64| addr_backed(h0, a) implies addr_backed(*heap, a) && a
                != addr by {
                let b = (a - h0.base()) / hbs;
                vstd::arithmetic::div_mod::lemma_div_by_multiple_is_strongly_ordered(
                    a - h0.base(),
                    h0.size() as int,
                    h0.total_blocks(),
                    hbs,
                );
                assert(0 <= b < h0.blocks().len());
                assert(heap.blocks()[b] == if s <= b < s + 1 {
                    crate::heap::entry_for(b, s, s)
                } else {
                    h0.blocks()[b]
                });
                if b == s {
                    assert(!entry_taken(h0.blocks()[s]));
                    assert(false);
                }
                if a == addr {
                    vstd::arithmetic::div_mod::lemma_fundamental_div_mod(a - h0.base(), hbs);
                    assert(false);
                }
            }
            // alignment of the returned address itself
            vstd::arithmetic::div_mod::lemma_add_mod_noop(h0.base(), s * hbs, hbs);
            assert(addr % hbs == 0);
            // exactly one block left the free set
            assert(!entry_taken(h0.blocks()[s]));
            assert(forall|i: int|
                0 <= i < h0.blocks().len() && i != s ==> (#[trigger] heap.blocks()[i])
                    == h0.blocks()[i]);
            crate::heap::lemma_count_free_take_one(h0.blocks(), heap.blocks(), s);
        } else {
            // no free block anywhere: the free count is zero
            crate::heap::lemma_fit_from_props(h0.blocks(), 1, 0);
            assert forall|i: int| 0 <= i < h0.blocks().len() implies entry_taken(
                #[trigger] h0.blocks()[i],
            ) by {
                if !entry_taken(h0.blocks()[i]) {
                    assert(run_is_free(h0.blocks(), i, 1)) by {
                        assert(forall|q: int|
                            i <= q < i + 1 ==> !entry_taken(#[trigger] h0.blocks()[q]));
                    }
                    assert(false);
                }
            }
            crate::heap::lemma_count_free_zero(h0.blocks());
        }
    }
    match r {
        Ok(p) => Ok(p as u64),
        Err(e) => Err(e),
    }
}


/// Writes one entry of node `j`, leaving its recorded address and every
/// other node untouched.
fn write_node_entry(nodes: &mut Vec<PageTable>, j: usize, k: usize, x: u64)
    requires
        j < old(nodes)@.len(),
        old(nodes)@[j as int].entries@.len() == 512,
        k < 512,
    ensures
        final(nodes)@.len() == old(nodes)@.len(),
        final(nodes)@[j as int].addr == old(nodes)@[j as int].addr,
        final(nodes)@[j as int].entries@ == old(nodes)@[j as int].entries@.update(k as int, x),
        forall|i: int|
            0 <= i < old(nodes)@.len() && i != j ==> final(nodes)@[i] == old(nodes)@[i],
{
    nodes[j].entries.set(k, x);
}


/// Every present entry of the root resolves to a child node.
spec fn root_linked(root: PageTable, children: Seq<PageTable>) -> bool {
    forall|k: int|
        0 <= k < 512 && pde_present(#[trigger] root.entries@[k]) ==> find_node(
            children,
            pde_child_addr(root.entries@[k]),
        ) is Some
}

/// No two present root entries reference the same child address.
spec fn root_targets_distinct(root: PageTable) -> bool {
    forall|k1: int, k2: int|
        0 <= k1 < 512 && 0 <= k2 < 512 && k1 != k2 && pde_present(#[trigger] root.entries@[k1])
            && pde_present(#[trigger] root.entries@[k2]) ==> pde_child_addr(root.entries@[k1])
            != pde_child_addr(root.entries@[k2])
}

/// One 256 TiB address space: a root table and the three layers of child
/// tables it has grown, each node recording the physical address of the
/// heap block it lives in.
pub struct Paging256TBChunk {
    plm4: PageTable,
    pdps: Vec<PageTable>,
    pds: Vec<PageTable>,
    pts: Vec<PageTable>,
}

impl Paging256TBChunk {
    /// Physical address of the root (PLM4) table — the address space's
    /// identity for hardware purposes: the value loaded into the
    /// page-table base register on a switch.
    pub closed spec fn root_addr(self) -> u64 {
        self.plm4.addr
    }

    /// The radix tree is well formed: every table has 512 entries at a
    /// page-aligned recorded address, node addresses are distinct within a
    /// level, every present non-leaf entry resolves to exactly one child
    /// node, and no two entries share a child (no sharing in the tree).
    pub closed spec fn wf(self) -> bool {
        &&& self.plm4.entries@.len() == 512
        &&& self.plm4.addr as int % 4096 == 0
        &&& self.plm4.addr < PDE_MAX_PHYS
        &&& nodes_ok(self.pdps@)
        &&& nodes_ok(self.pds@)
        &&& nodes_ok(self.pts@)
        &&& addrs_distinct(self.pdps@)
        &&& addrs_distinct(self.pds@)
        &&& addrs_distinct(self.pts@)
        &&& root_linked(self.plm4, self.pdps@)
        &&& linked(self.pdps@, self.pds@)
        &&& linked(self.pds@, self.pts@)
        &&& root_targets_distinct(self.plm4)
        &&& targets_distinct(self.pdps@)
        &&& targets_distinct(self.pds@)
    }

    /// Every table of this address space lives in a block the heap has
    /// currently allocated.
    pub closed spec fn backed_by(self, h: Heap) -> bool {
        &&& addr_backed(h, self.plm4.addr)
        &&& all_backed(self.pdps@, h)
        &&& all_backed(self.pds@, h)
        &&& all_backed(self.pts@, h)
    }

    /// The PDP node the walk for `v` reaches, if the root entry is present
    /// and resolves.
    spec fn walk1(self, v: u64) -> Option<int> {
        let e0 = self.plm4.entries@[pdp_index(v)];
        if pde_present(e0) {
            find_node(self.pdps@, pde_child_addr(e0))
        } else {
            None
        }
    }

    /// The PD node the walk for `v` reaches.
    spec fn walk2(self, v: u64) -> Option<int> {
        match self.walk1(v) {
            Some(j1) => {
                let e1 = self.pdps@[j1].entries@[pd_index(v)];
                if pde_present(e1) {
                    find_node(self.pds@, pde_child_addr(e1))
                } else {
                    None
                }
            },
            None => None,
        }
    }

    /// The PT (leaf-table) node the walk for `v` reaches.
    spec fn walk3(self, v: u64) -> Option<int> {
        match self.walk2(v) {
            Some(j2) => {
                let e2 = self.pds@[j2].entries@[pt_index(v)];
                if pde_present(e2) {
                    find_node(self.pts@, pde_child_addr(e2))
                } else {
                    None
                }
            },
            None => None,
        }
    }

    /// The raw leaf entry the four-level walk reaches for `v`, if all
    /// three table levels exist; the entry itself may still be non-present.
    pub closed spec fn leaf_entry(self, v: u64) -> Option<u64> {
        match self.walk3(v) {
            Some(j3) => Some(self.pts@[j3].entries@[p_index(v)]),
            None => None,
        }
    }

    /// What `v` currently translates to: the leaf entry, where the walk
    /// resolves and that entry is present.
    pub open spec fn mapping(self, v: u64) -> Option<u64> {
        match self.leaf_entry(v) {
            Some(e) => if pde_present(e) {
                Some(e)
            } else {
                None
            },
            None => None,
        }
    }
}


/// Appending a fresh node and reading lookups: an address that already
/// resolved keeps its index, and the fresh address resolves to the new
/// last slot.
proof fn lemma_push_lookup(s0: Seq<PageTable>, node: PageTable)
    requires
        forall|j: int| 0 <= j < s0.len() ==> (#[trigger] s0[j].addr) != node.addr,
    ensures
        find_node(s0.push(node), node.addr) == Some(s0.len() as int),
        forall|a: u64|
            find_node(s0, a) is Some ==> find_node(s0.push(node), a) == find_node(s0, a),
{
    if find_node(s0, node.addr) is Some {
        lemma_find_node_props(s0, node.addr);
        assert(false);
    }
    lemma_find_node_push(s0, node, node.addr);
    assert forall|a: u64| find_node(s0, a) is Some implies find_node(s0.push(node), a)
        == find_node(s0, a) by {
        lemma_find_node_push(s0, node, a);
    }
}

/// Growing a child table under a previously absent root entry changes no
/// translation: the fresh table is empty, and every other path is intact.
proof fn lemma_step1_preserves(
    c0: Paging256TBChunk,
    c1: Paging256TBChunk,
    i: int,
    node: PageTable,
    ne: u64,
)
    requires
        c0.wf(),
        0 <= i < 512,
        !pde_present(c0.plm4.entries@[i]),
        node.entries@ == Seq::new(512, |q: int| 0u64),
        node.addr as int % 4096 == 0,
        node.addr < PDE_MAX_PHYS,
        forall|j: int| 0 <= j < c0.pdps@.len() ==> (#[trigger] c0.pdps@[j].addr) != node.addr,
        pde_present(ne),
        pde_child_addr(ne) == node.addr,
        c1.plm4.addr == c0.plm4.addr,
        c1.plm4.entries@ == c0.plm4.entries@.update(i, ne),
        c1.pdps@ == c0.pdps@.push(node),
        c1.pds@ == c0.pds@,
        c1.pts@ == c0.pts@,
    ensures
        c1.wf(),
        forall|w: u64| c1.mapping(w) == c0.mapping(w),
        forall|w: u64| pdp_index(w) == i ==> c1.walk1(w) == Some(c0.pdps@.len() as int),
        forall|w: u64| pdp_index(w) != i ==> c1.walk1(w) == c0.walk1(w),
{
    let pdps1 = c1.pdps@;
    let n1 = c0.pdps@.len() as int;
    crate::pde::lemma_pde_zero();
    lemma_push_lookup(c0.pdps@, node);
    assert(pdps1[n1] == node);
    assert(forall|j: int| 0 <= j < n1 ==> (#[trigger] pdps1[j]) == c0.pdps@[j]);

    // --- well-formedness of the grown tree ---
    assert(nodes_ok(pdps1));
    assert(addrs_distinct(pdps1));
    assert forall|k: int|
        0 <= k < 512 && pde_present(#[trigger] c1.plm4.entries@[k]) implies find_node(
        pdps1,
        pde_child_addr(c1.plm4.entries@[k]),
    ) is Some by {
        if k != i {
            assert(c1.plm4.entries@[k] == c0.plm4.entries@[k]);
        }
    }
    assert forall|k1: int, k2: int|
        0 <= k1 < 512 && 0 <= k2 < 512 && k1 != k2 && pde_present(
            #[trigger] c1.plm4.entries@[k1],
        ) && pde_present(#[trigger] c1.plm4.entries@[k2]) implies pde_child_addr(
        c1.plm4.entries@[k1],
    ) != pde_child_addr(c1.plm4.entries@[k2]) by {
        if k1 == i || k2 == i {
            let ko = if k1 == i {
                k2
            } else {
                k1
            };
            let t = pde_child_addr(c0.plm4.entries@[ko]);
            lemma_find_node_props(c0.pdps@, t);
            assert(t != node.addr);
        }
    }
    assert forall|j: int, k: int|
        0 <= j < pdps1.len() && 0 <= k < 512 && pde_present(
            #[trigger] pdps1[j].entries@[k],
        ) implies find_node(c1.pds@, pde_child_addr(pdps1[j].entries@[k])) is Some by {
        if j == n1 {
            assert(pdps1[j].entries@[k] == 0u64);
        }
    }
    assert forall|j1: int, k1: int, j2: int, k2: int|
        0 <= j1 < pdps1.len() && 0 <= k1 < 512 && 0 <= j2 < pdps1.len() && 0 <= k2 < 512 && !(j1
            == j2 && k1 == k2) && pde_present(#[trigger] pdps1[j1].entries@[k1]) && pde_present(
            #[trigger] pdps1[j2].entries@[k2],
        ) implies pde_child_addr(pdps1[j1].entries@[k1]) != pde_child_addr(
        pdps1[j2].entries@[k2],
    ) by {
        if j1 == n1 || j2 == n1 {
            assert(pdps1[n1].entries@[if j1 == n1 {
                k1
            } else {
                k2
            }] == 0u64);
        }
    }
    assert(c1.wf());

    // --- walks ---
    assert forall|w: u64| pdp_index(w) == i implies c1.walk1(w) == Some(n1) by {
        lemma_index_facts(w);
    }
    assert forall|w: u64| pdp_index(w) != i implies c1.walk1(w) == c0.walk1(w) by {
        lemma_index_facts(w);
        let e0 = c0.plm4.entries@[pdp_index(w)];
        assert(c1.plm4.entries@[pdp_index(w)] == e0);
        if pde_present(e0) {
            lemma_find_node_push(c0.pdps@, node, pde_child_addr(e0));
        }
    }

    // --- translations unchanged ---
    assert forall|w: u64| c1.mapping(w) == c0.mapping(w) by {
        lemma_index_facts(w);
        if pdp_index(w) == i {
            assert(c0.walk1(w) is None);
            assert(c1.walk1(w) == Some(n1));
            assert(c1.pdps@[n1].entries@[pd_index(w)] == 0u64);
            assert(c1.walk2(w) is None);
        } else {
            assert(c1.walk1(w) == c0.walk1(w));
            if let Some(j1) = c0.walk1(w) {
                lemma_find_node_props(c0.pdps@, pde_child_addr(c0.plm4.entries@[pdp_index(w)]));
                assert(0 <= j1 < n1);
                assert(c1.pdps@[j1] == c0.pdps@[j1]);
                assert(c1.walk2(w) == c0.walk2(w));
                assert(c1.walk3(w) == c0.walk3(w));
            }
        }
    }
}

/// Growing a PD table under a previously absent PDP entry changes no
/// translation.
proof fn lemma_step2_preserves(
    c0: Paging256TBChunk,
    c1: Paging256TBChunk,
    j1: int,
    i: int,
    node: PageTable,
    ne: u64,
)
    requires
        c0.wf(),
        0 <= j1 < c0.pdps@.len(),
        0 <= i < 512,
        !pde_present(c0.pdps@[j1].entries@[i]),
        node.entries@ == Seq::new(512, |q: int| 0u64),
        node.addr as int % 4096 == 0,
        node.addr < PDE_MAX_PHYS,
        forall|j: int| 0 <= j < c0.pds@.len() ==> (#[trigger] c0.pds@[j].addr) != node.addr,
        pde_present(ne),
        pde_child_addr(ne) == node.addr,
        c1.plm4 == c0.plm4,
        c1.pdps@.len() == c0.pdps@.len(),
        c1.pdps@[j1].addr == c0.pdps@[j1].addr,
        c1.pdps@[j1].entries@ == c0.pdps@[j1].entries@.update(i, ne),
        forall|j: int| 0 <= j < c0.pdps@.len() && j != j1 ==> c1.pdps@[j] == c0.pdps@[j],
        c1.pds@ == c0.pds@.push(node),
        c1.pts@ == c0.pts@,
    ensures
        c1.wf(),
        forall|w: u64| c1.mapping(w) == c0.mapping(w),
        forall|w: u64| c1.walk1(w) == c0.walk1(w),
        forall|w: u64|
            c0.walk1(w) == Some(j1) && pd_index(w) == i ==> c1.walk2(w) == Some(
                c0.pds@.len() as int,
            ),
        forall|w: u64|
            !(c0.walk1(w) == Some(j1) && pd_index(w) == i) ==> c1.walk2(w) == c0.walk2(w),
{
    let pds1 = c1.pds@;
    let n2 = c0.pds@.len() as int;
    crate::pde::lemma_pde_zero();
    lemma_push_lookup(c0.pds@, node);
    assert(pds1[n2] == node);
    assert(forall|j: int| 0 <= j < n2 ==> (#[trigger] pds1[j]) == c0.pds@[j]);
    assert(forall|j: int|
        0 <= j < c0.pdps@.len() ==> (#[trigger] c1.pdps@[j].addr) == c0.pdps@[j].addr);

    // --- well-formedness ---
    assert(nodes_ok(c1.pdps@)) by {
        assert forall|j: int|
            0 <= j < c1.pdps@.len() implies (#[trigger] c1.pdps@[j].entries@.len()) == 512
            && c1.pdps@[j].addr as int % 4096 == 0 && c1.pdps@[j].addr < PDE_MAX_PHYS by {
            if j != j1 {
                assert(c1.pdps@[j] == c0.pdps@[j]);
            }
        }
    }
    assert(addrs_distinct(c1.pdps@));
    assert(nodes_ok(pds1));
    assert(addrs_distinct(pds1));
    assert(root_linked(c1.plm4, c1.pdps@)) by {
        assert forall|k: int|
            0 <= k < 512 && pde_present(#[trigger] c1.plm4.entries@[k]) implies find_node(
            c1.pdps@,
            pde_child_addr(c1.plm4.entries@[k]),
        ) is Some by {
            lemma_find_node_same_addrs(c0.pdps@, c1.pdps@, pde_child_addr(c1.plm4.entries@[k]));
        }
    }
    assert(root_targets_distinct(c1.plm4));
    assert(linked(c1.pdps@, pds1)) by {
        assert forall|j: int, k: int|
            0 <= j < c1.pdps@.len() && 0 <= k < 512 && pde_present(
                #[trigger] c1.pdps@[j].entries@[k],
            ) implies find_node(pds1, pde_child_addr(c1.pdps@[j].entries@[k])) is Some by {
            if j == j1 && k == i {
            } else {
                assert(c1.pdps@[j].entries@[k] == c0.pdps@[j].entries@[k]);
            }
        }
    }
    assert(targets_distinct(c1.pdps@)) by {
        assert forall|ja: int, ka: int, jb: int, kb: int|
            0 <= ja < c1.pdps@.len() && 0 <= ka < 512 && 0 <= jb < c1.pdps@.len() && 0 <= kb
                < 512 && !(ja == jb && ka == kb) && pde_present(
                #[trigger] c1.pdps@[ja].entries@[ka],
            ) && pde_present(#[trigger] c1.pdps@[jb].entries@[kb]) implies pde_child_addr(
            c1.pdps@[ja].entries@[ka],
        ) != pde_child_addr(c1.pdps@[jb].entries@[kb]) by {
            if ja == j1 && ka == i {
                let t = pde_child_addr(c0.pdps@[jb].entries@[kb]);
                assert(c1.pdps@[jb].entries@[kb] == c0.pdps@[jb].entries@[kb]);
                lemma_find_node_props(c0.pds@, t);
                assert(t != node.addr);
            } else if jb == j1 && kb == i {
                let t = pde_child_addr(c0.pdps@[ja].entries@[ka]);
                assert(c1.pdps@[ja].entries@[ka] == c0.pdps@[ja].entries@[ka]);
                lemma_find_node_props(c0.pds@, t);
                assert(t != node.addr);
            } else {
                assert(c1.pdps@[ja].entries@[ka] == c0.pdps@[ja].entries@[ka]);
                assert(c1.pdps@[jb].entries@[kb] == c0.pdps@[jb].entries@[kb]);
            }
        }
    }
    assert(linked(pds1, c1.pts@)) by {
        assert forall|j: int, k: int|
            0 <= j < pds1.len() && 0 <= k < 512 && pde_present(
                #[trigger] pds1[j].entries@[k],
            ) implies find_node(c1.pts@, pde_child_addr(pds1[j].entries@[k])) is Some by {
            if j == n2 {
                assert(pds1[j].entries@[k] == 0u64);
            }
        }
    }
    assert(targets_distinct(pds1)) by {
        assert forall|ja: int, ka: int, jb: int, kb: int|
            0 <= ja < pds1.len() && 0 <= ka < 512 && 0 <= jb < pds1.len() && 0 <= kb < 512 && !(
            ja == jb && ka == kb) && pde_present(#[trigger] pds1[ja].entries@[ka])
                && pde_present(#[trigger] pds1[jb].entries@[kb]) implies pde_child_addr(
            pds1[ja].entries@[ka],
        ) != pde_child_addr(pds1[jb].entries@[kb]) by {
            if ja == n2 || jb == n2 {
                assert(pds1[n2].entries@[if ja == n2 {
                    ka
                } else {
                    kb
                }] == 0u64);
            }
        }
    }
    assert(c1.wf());

    // --- walks ---
    assert forall|w: u64| c1.walk1(w) == c0.walk1(w) by {
        lemma_index_facts(w);
        let e0 = c0.plm4.entries@[pdp_index(w)];
        if pde_present(e0) {
            lemma_find_node_same_addrs(c0.pdps@, c1.pdps@, pde_child_addr(e0));
        }
    }
    assert forall|w: u64|
        c0.walk1(w) == Some(j1) && pd_index(w) == i implies c1.walk2(w) == Some(n2) by {
        lemma_index_facts(w);
    }
    assert forall|w: u64|
        !(c0.walk1(w) == Some(j1) && pd_index(w) == i) implies c1.walk2(w) == c0.walk2(w) by {
        lemma_index_facts(w);
        if let Some(j1w) = c0.walk1(w) {
            lemma_find_node_props(c0.pdps@, pde_child_addr(c0.plm4.entries@[pdp_index(w)]));
            assert(0 <= j1w < c0.pdps@.len());
            let e1 = c0.pdps@[j1w].entries@[pd_index(w)];
            if j1w != j1 {
                assert(c1.pdps@[j1w] == c0.pdps@[j1w]);
            } else {
                assert(pd_index(w) != i);
                assert(c1.pdps@[j1w].entries@[pd_index(w)] == e1);
            }
            if pde_present(e1) {
                lemma_find_node_push(c0.pds@, node, pde_child_addr(e1));
            }
        }
    }

    // --- translations unchanged ---
    assert forall|w: u64| c1.mapping(w) == c0.mapping(w) by {
        lemma_index_facts(w);
        if c0.walk1(w) == Some(j1) && pd_index(w) == i {
            assert(c0.walk2(w) is None);
            assert(c1.walk2(w) == Some(n2));
            assert(c1.pds@[n2].entries@[pt_index(w)] == 0u64);
            assert(c1.walk3(w) is None);
        } else {
            assert(c1.walk2(w) == c0.walk2(w));
            if let Some(j2) = c0.walk2(w) {
                let j1w = c0.walk1(w)->Some_0;
                lemma_find_node_props(c0.pdps@, pde_child_addr(c0.plm4.entries@[pdp_index(w)]));
                let e1 = c0.pdps@[j1w].entries@[pd_index(w)];
                lemma_find_node_props(c0.pds@, pde_child_addr(e1));
                assert(0 <= j2 < n2);
                assert(c1.pds@[j2] == c0.pds@[j2]);
                assert(c1.walk3(w) == c0.walk3(w));
            }
        }
    }
}

/// Growing a PT table under a previously absent PD entry changes no
/// translation.
proof fn lemma_step3_preserves(
    c0: Paging256TBChunk,
    c1: Paging256TBChunk,
    j2: int,
    i: int,
    node: PageTable,
    ne: u64,
)
    requires
        c0.wf(),
        0 <= j2 < c0.pds@.len(),
        0 <= i < 512,
        !pde_present(c0.pds@[j2].entries@[i]),
        node.entries@ == Seq::new(512, |q: int| 0u64),
        node.addr as int % 4096 == 0,
        node.addr < PDE_MAX_PHYS,
        forall|j: int| 0 <= j < c0.pts@.len() ==> (#[trigger] c0.pts@[j].addr) != node.addr,
        pde_present(ne),
        pde_child_addr(ne) == node.addr,
        c1.plm4 == c0.plm4,
        c1.pdps@ == c0.pdps@,
        c1.pds@.len() == c0.pds@.len(),
        c1.pds@[j2].addr == c0.pds@[j2].addr,
        c1.pds@[j2].entries@ == c0.pds@[j2].entries@.update(i, ne),
        forall|j: int| 0 <= j < c0.pds@.len() && j != j2 ==> c1.pds@[j] == c0.pds@[j],
        c1.pts@ == c0.pts@.push(node),
    ensures
        c1.wf(),
        forall|w: u64| c1.mapping(w) == c0.mapping(w),
        forall|w: u64| c1.walk2(w) == c0.walk2(w),
        forall|w: u64|
            c0.walk2(w) == Some(j2) && pt_index(w) == i ==> c1.walk3(w) == Some(
                c0.pts@.len() as int,
            ),
        forall|w: u64|
            !(c0.walk2(w) == Some(j2) && pt_index(w) == i) ==> c1.walk3(w) == c0.walk3(w),
{
    let pts1 = c1.pts@;
    let n3 = c0.pts@.len() as int;
    crate::pde::lemma_pde_zero();
    lemma_push_lookup(c0.pts@, node);
    assert(pts1[n3] == node);
    assert(forall|j: int| 0 <= j < n3 ==> (#[trigger] pts1[j]) == c0.pts@[j]);
    assert(forall|j: int|
        0 <= j < c0.pds@.len() ==> (#[trigger] c1.pds@[j].addr) == c0.pds@[j].addr);

    // --- well-formedness ---
    assert(nodes_ok(c1.pds@)) by {
        assert forall|j: int|
            0 <= j < c1.pds@.len() implies (#[trigger] c1.pds@[j].entries@.len()) == 512
            && c1.pds@[j].addr as int % 4096 == 0 && c1.pds@[j].addr < PDE_MAX_PHYS by {
            if j != j2 {
                assert(c1.pds@[j] == c0.pds@[j]);
            }
        }
    }
    assert(addrs_distinct(c1.pds@));
    assert(nodes_ok(pts1));
    assert(addrs_distinct(pts1));
    assert(root_linked(c1.plm4, c1.pdps@));
    assert(root_targets_distinct(c1.plm4));
    assert(linked(c1.pdps@, c1.pds@)) by {
        assert forall|j: int, k: int|
            0 <= j < c1.pdps@.len() && 0 <= k < 512 && pde_present(
                #[trigger] c1.pdps@[j].entries@[k],
            ) implies find_node(c1.pds@, pde_child_addr(c1.pdps@[j].entries@[k])) is Some by {
            lemma_find_node_same_addrs(
                c0.pds@,
                c1.pds@,
                pde_child_addr(c1.pdps@[j].entries@[k]),
            );
        }
    }
    assert(targets_distinct(c1.pdps@));
    assert(linked(c1.pds@, pts1)) by {
        assert forall|j: int, k: int|
            0 <= j < c1.pds@.len() && 0 <= k < 512 && pde_present(
                #[trigger] c1.pds@[j].entries@[k],
            ) implies find_node(pts1, pde_child_addr(c1.pds@[j].entries@[k])) is Some by {
            if j == j2 && k == i {
            } else {
                assert(c1.pds@[j].entries@[k] == c0.pds@[j].entries@[k]);
            }
        }
    }
    assert(targets_distinct(c1.pds@)) by {
        assert forall|ja: int, ka: int, jb: int, kb: int|
            0 <= ja < c1.pds@.len() && 0 <= ka < 512 && 0 <= jb < c1.pds@.len() && 0 <= kb < 512
                && !(ja == jb && ka == kb) && pde_present(#[trigger] c1.pds@[ja].entries@[ka])
                && pde_present(#[trigger] c1.pds@[jb].entries@[kb]) implies pde_child_addr(
            c1.pds@[ja].entries@[ka],
        ) != pde_child_addr(c1.pds@[jb].entries@[kb]) by {
            if ja == j2 && ka == i {
                let t = pde_child_addr(c0.pds@[jb].entries@[kb]);
                assert(c1.pds@[jb].entries@[kb] == c0.pds@[jb].entries@[kb]);
                lemma_find_node_props(c0.pts@, t);
                assert(t != node.addr);
            } else if jb == j2 && kb == i {
                let t = pde_child_addr(c0.pds@[ja].entries@[ka]);
                assert(c1.pds@[ja].entries@[ka] == c0.pds@[ja].entries@[ka]);
                lemma_find_node_props(c0.pts@, t);
                assert(t != node.addr);
            } else {
                assert(c1.pds@[ja].entries@[ka] == c0.pds@[ja].entries@[ka]);
                assert(c1.pds@[jb].entries@[kb] == c0.pds@[jb].entries@[kb]);
            }
        }
    }
    assert(c1.wf());

    // --- walks ---
    assert forall|w: u64| c1.walk2(w) == c0.walk2(w) by {
        lemma_index_facts(w);
        if let Some(j1w) = c0.walk1(w) {
            lemma_find_node_props(c0.pdps@, pde_child_addr(c0.plm4.entries@[pdp_index(w)]));
            let e1 = c0.pdps@[j1w].entries@[pd_index(w)];
            if pde_present(e1) {
                lemma_find_node_same_addrs(c0.pds@, c1.pds@, pde_child_addr(e1));
            }
        }
    }
    assert forall|w: u64|
        c0.walk2(w) == Some(j2) && pt_index(w) == i implies c1.walk3(w) == Some(n3) by {
        lemma_index_facts(w);
    }
    assert forall|w: u64|
        !(c0.walk2(w) == Some(j2) && pt_index(w) == i) implies c1.walk3(w) == c0.walk3(w) by {
        lemma_index_facts(w);
        if let Some(j2w) = c0.walk2(w) {
            let j1w = c0.walk1(w)->Some_0;
            lemma_find_node_props(c0.pdps@, pde_child_addr(c0.plm4.entries@[pdp_index(w)]));
            lemma_find_node_props(
                c0.pds@,
                pde_child_addr(c0.pdps@[j1w].entries@[pd_index(w)]),
            );
            assert(0 <= j2w < c0.pds@.len());
            let e2 = c0.pds@[j2w].entries@[pt_index(w)];
            if j2w != j2 {
                assert(c1.pds@[j2w] == c0.pds@[j2w]);
            } else {
                assert(pt_index(w) != i);
                assert(c1.pds@[j2w].entries@[pt_index(w)] == e2);
            }
            if pde_present(e2) {
                lemma_find_node_push(c0.pts@, node, pde_child_addr(e2));
            }
        }
    }

    // --- translations unchanged ---
    assert forall|w: u64| c1.mapping(w) == c0.mapping(w) by {
        lemma_index_facts(w);
        if c0.walk2(w) == Some(j2) && pt_index(w) == i {
            assert(c0.walk3(w) is None);
            assert(c1.walk3(w) == Some(n3));
            assert(c1.pts@[n3].entries@[p_index(w)] == 0u64);
            assert(c1.mapping(w) is None);
        } else {
            assert(c1.walk3(w) == c0.walk3(w));
            if let Some(j3w) = c0.walk3(w) {
                let j2w = c0.walk2(w)->Some_0;
                let j1w = c0.walk1(w)->Some_0;
                lemma_find_node_props(c0.pdps@, pde_child_addr(c0.plm4.entries@[pdp_index(w)]));
                lemma_find_node_props(
                    c0.pds@,
                    pde_child_addr(c0.pdps@[j1w].entries@[pd_index(w)]),
                );
                lemma_find_node_props(
                    c0.pts@,
                    pde_child_addr(c0.pds@[j2w].entries@[pt_index(w)]),
                );
                assert(0 <= j3w < n3);
                assert(c1.pts@[j3w] == c0.pts@[j3w]);
            }
        }
    }
}


/// Two walks that reach the same leaf table share all three upper
/// indices: the tree has no sharing, so a leaf table is reachable along
/// exactly one path.
proof fn lemma_walk3_inj(c: Paging256TBChunk, w: u64, v: u64, j3: int)
    requires
        c.wf(),
        c.walk3(w) == Some(j3),
        c.walk3(v) == Some(j3),
    ensures
        pdp_index(w) == pdp_index(v),
        pd_index(w) == pd_index(v),
        pt_index(w) == pt_index(v),
{
    lemma_index_facts(w);
    lemma_index_facts(v);
    let e0w = c.plm4.entries@[pdp_index(w)];
    let e0v = c.plm4.entries@[pdp_index(v)];
    let j1w = c.walk1(w)->Some_0;
    let j1v = c.walk1(v)->Some_0;
    lemma_find_node_props(c.pdps@, pde_child_addr(e0w));
    lemma_find_node_props(c.pdps@, pde_child_addr(e0v));
    let e1w = c.pdps@[j1w].entries@[pd_index(w)];
    let e1v = c.pdps@[j1v].entries@[pd_index(v)];
    let j2w = c.walk2(w)->Some_0;
    let j2v = c.walk2(v)->Some_0;
    lemma_find_node_props(c.pds@, pde_child_addr(e1w));
    lemma_find_node_props(c.pds@, pde_child_addr(e1v));
    let e2w = c.pds@[j2w].entries@[pt_index(w)];
    let e2v = c.pds@[j2v].entries@[pt_index(v)];
    lemma_find_node_props(c.pts@, pde_child_addr(e2w));
    lemma_find_node_props(c.pts@, pde_child_addr(e2v));
    assert(pde_child_addr(e2w) == c.pts@[j3].addr);
    assert(pde_child_addr(e2v) == c.pts@[j3].addr);
    if !(j2w == j2v && pt_index(w) == pt_index(v)) {
        assert(pde_child_addr(c.pds@[j2w].entries@[pt_index(w)]) != pde_child_addr(
            c.pds@[j2v].entries@[pt_index(v)],
        ));
        assert(false);
    }
    assert(pde_child_addr(e1w) == c.pds@[j2w].addr);
    assert(pde_child_addr(e1v) == c.pds@[j2w].addr);
    if !(j1w == j1v && pd_index(w) == pd_index(v)) {
        assert(pde_child_addr(c.pdps@[j1w].entries@[pd_index(w)]) != pde_child_addr(
            c.pdps@[j1v].entries@[pd_index(v)],
        ));
        assert(false);
    }
    assert(pde_child_addr(e0w) == c.pdps@[j1w].addr);
    assert(pde_child_addr(e0v) == c.pdps@[j1w].addr);
    if pdp_index(w) != pdp_index(v) {
        assert(pde_child_addr(c.plm4.entries@[pdp_index(w)]) != pde_child_addr(
            c.plm4.entries@[pdp_index(v)],
        ));
        assert(false);
    }
}

/// Writing one leaf entry changes the translation of exactly that page:
/// every address that selects a different leaf slot keeps its mapping.
proof fn lemma_leaf_write(
    c0: Paging256TBChunk,
    c1: Paging256TBChunk,
    v: u64,
    j3: int,
    x: u64,
)
    requires
        c0.wf(),
        c0.walk3(v) == Some(j3),
        c1.plm4 == c0.plm4,
        c1.pdps@ == c0.pdps@,
        c1.pds@ == c0.pds@,
        c1.pts@.len() == c0.pts@.len(),
        0 <= j3 < c0.pts@.len(),
        c1.pts@[j3].addr == c0.pts@[j3].addr,
        c1.pts@[j3].entries@ == c0.pts@[j3].entries@.update(p_index(v), x),
        forall|j: int| 0 <= j < c0.pts@.len() && j != j3 ==> c1.pts@[j] == c0.pts@[j],
    ensures
        c1.wf(),
        c1.leaf_entry(v) == Some(x),
        forall|w: u64| !same_page(w, v) ==> c1.mapping(w) == c0.mapping(w),
{
    lemma_index_facts(v);
    assert(forall|j: int|
        0 <= j < c0.pts@.len() ==> (#[trigger] c1.pts@[j].addr) == c0.pts@[j].addr);

    // --- well-formedness ---
    assert(nodes_ok(c1.pts@)) by {
        assert forall|j: int|
            0 <= j < c1.pts@.len() implies (#[trigger] c1.pts@[j].entries@.len()) == 512
            && c1.pts@[j].addr as int % 4096 == 0 && c1.pts@[j].addr < PDE_MAX_PHYS by {
            if j != j3 {
                assert(c1.pts@[j] == c0.pts@[j]);
            } else {
                assert(c0.pts@[j3].entries@.len() == 512);
            }
        }
    }
    assert(addrs_distinct(c1.pts@));
    assert(linked(c1.pds@, c1.pts@)) by {
        assert forall|j: int, k: int|
            0 <= j < c1.pds@.len() && 0 <= k < 512 && pde_present(
                #[trigger] c1.pds@[j].entries@[k],
            ) implies find_node(c1.pts@, pde_child_addr(c1.pds@[j].entries@[k])) is Some by {
            lemma_find_node_same_addrs(
                c0.pts@,
                c1.pts@,
                pde_child_addr(c1.pds@[j].entries@[k]),
            );
        }
    }
    assert(c1.wf());

    // --- the walk to every leaf table is unchanged ---
    assert forall|w: u64| c1.walk3(w) == c0.walk3(w) by {
        lemma_index_facts(w);
        if let Some(j2w) = c0.walk2(w) {
            let j1w = c0.walk1(w)->Some_0;
            lemma_find_node_props(c0.pdps@, pde_child_addr(c0.plm4.entries@[pdp_index(w)]));
            lemma_find_node_props(
                c0.pds@,
                pde_child_addr(c0.pdps@[j1w].entries@[pd_index(w)]),
            );
            let e2 = c0.pds@[j2w].entries@[pt_index(w)];
            if pde_present(e2) {
                lemma_find_node_same_addrs(c0.pts@, c1.pts@, pde_child_addr(e2));
            }
        }
    }

    // --- the written page ---
    assert(c1.walk3(v) == Some(j3));
    assert(c1.pts@[j3].entries@[p_index(v)] == x);
    assert(c1.leaf_entry(v) == Some(x));

    // --- every other page ---
    assert forall|w: u64| !same_page(w, v) implies c1.mapping(w) == c0.mapping(w) by {
        lemma_index_facts(w);
        assert(c1.walk3(w) == c0.walk3(w));
        if let Some(j3w) = c0.walk3(w) {
            let j2w = c0.walk2(w)->Some_0;
            let j1w = c0.walk1(w)->Some_0;
            lemma_find_node_props(c0.pdps@, pde_child_addr(c0.plm4.entries@[pdp_index(w)]));
            lemma_find_node_props(
                c0.pds@,
                pde_child_addr(c0.pdps@[j1w].entries@[pd_index(w)]),
            );
            lemma_find_node_props(
                c0.pts@,
                pde_child_addr(c0.pds@[j2w].entries@[pt_index(w)]),
            );
            if j3w != j3 {
                assert(c1.pts@[j3w] == c0.pts@[j3w]);
            } else {
                lemma_walk3_inj(c0, w, v, j3);
                assert(p_index(w) != p_index(v));
                assert(c1.pts@[j3].entries@[p_index(w)] == c0.pts@[j3].entries@[p_index(w)]);
            }
        }
    }
}


impl Paging256TBChunk {
    /// Creates a fresh, otherwise-empty address space: one zeroed root
    /// table taken from the heap.  Fails with `NoMem` exactly when the
    /// heap has no free block, leaving the block table unchanged.
    pub fn new(heap: &mut Heap) -> (r: Result<Paging256TBChunk, ErrorCode>)
        requires
            old(heap).inv(),
            heap_fits(*old(heap)),
        ensures
            final(heap).inv(),
            heap_fits(*final(heap)),
            final(heap).base() == old(heap).base(),
            final(heap).size() == old(heap).size(),
            final(heap).arena() == old(heap).arena(),
            forall|a: u64| addr_backed(*old(heap), a) ==> addr_backed(*final(heap), a),
            match r {
                Ok(c) => {
                    &&& c.wf()
                    &&& c.backed_by(*final(heap))
                    &&& c.root_addr() as int % 4096 == 0
                    &&& forall|w: u64| c.mapping(w) is None
                },
                Err(e) => {
                    &&& e == ErrorCode::NoMem
                    &&& first_fit(final(heap).blocks(), 1) is None
                    &&& final(heap).blocks() == old(heap).blocks()
                },
            },
    {
        let a = match page_alloc(heap) {
            Ok(a) => a,
            Err(er) => {
                return Err(er);
            },
        };
        let c = Paging256TBChunk {
            plm4: PageTable { entries: new_table_entries(), addr: a },
            pdps: Vec::new(),
            pds: Vec::new(),
            pts: Vec::new(),
        };
        proof {
            crate::pde::lemma_pde_zero();
            assert forall|w: u64| c.mapping(w) is None by {
                lemma_index_facts(w);
                assert(c.plm4.entries@[pdp_index(w)] == 0u64);
            }
        }
        Ok(c)
    }

    /// Walks the three table levels for `v_addr`, creating any missing
    /// table from the heap along the way, and returns the index of the
    /// leaf table reached.  No leaf entry is written, and no translation
    /// changes: fresh tables are empty.  `NoMem` is returned — with every
    /// translation intact — exactly when the heap runs completely out of
    /// blocks.
    fn walk_or_insert(&mut self, heap: &mut Heap, v_addr: u64, flags: u64) -> (r: Result<
        usize,
        ErrorCode,
    >)
        requires
            old(self).wf(),
            old(heap).inv(),
            heap_fits(*old(heap)),
            old(self).backed_by(*old(heap)),
        ensures
            final(self).wf(),
            final(heap).inv(),
            heap_fits(*final(heap)),
            final(heap).base() == old(heap).base(),
            final(heap).size() == old(heap).size(),
            final(heap).arena() == old(heap).arena(),
            forall|a: u64| addr_backed(*old(heap), a) ==> addr_backed(*final(heap), a),
            final(self).backed_by(*final(heap)),
            final(self).root_addr() == old(self).root_addr(),
            forall|w: u64| final(self).mapping(w) == old(self).mapping(w),
            old(self).leaf_entry(v_addr) is Some ==> r is Ok && *final(self) == *old(self)
                && *final(heap) == *old(heap),
            count_free(final(heap).blocks()) >= count_free(old(heap).blocks()) - 3,
            r is Err ==> count_free(old(heap).blocks()) < 3,
            match r {
                Ok(j3) => {
                    &&& final(self).walk3(v_addr) == Some(j3 as int)
                    &&& j3 < final(self).pts@.len()
                    &&& final(self).pts@[j3 as int].entries@.len() == 512
                    &&& final(self).leaf_entry(v_addr) == Some(
                        match old(self).leaf_entry(v_addr) {
                            Some(e) => e,
                            None => 0u64,
                        },
                    )
                },
                Err(e) => e == ErrorCode::NoMem && first_fit(final(heap).blocks(), 1) is None,
            },
    {
        let idx = PageMapIndexes::from(v_addr);
        let ghost c0 = *self;
        let ghost h0 = *heap;

        // --- PLM4 -> PDP ---
        let e0 = self.plm4.entries[idx.pdp_i];
        let j1: usize;
        if e0 & PDE_PRESENT != 0 {
            match find_child(&self.pdps, e0 & PDE_ADDR_MASK) {
                Some(j) => {
                    j1 = j;
                },
                None => {
                    proof {
                        assert(false);
                    }
                    return Err(ErrorCode::OutOfBounds);
                },
            }
            proof {
                assert(count_free(heap.blocks()) >= count_free(h0.blocks()) - 1);
            }
        } else {
            let a = match page_alloc(heap) {
                Ok(a) => a,
                Err(er) => {
                    proof {
                        assert(c0.leaf_entry(v_addr) is None);
                    }
                    return Err(er);
                },
            };
            let node = PageTable { entries: new_table_entries(), addr: a };
            let ghost gnode = node;
            j1 = self.pdps.len();
            self.pdps.push(node);
            proof {
                lemma_pde_encode(e0, flags, a);
            }
            let mut pde = PageDirectoryEntry::from_value(e0 | flags);
            pde.set_addr(a >> 12u64);
            pde.set_present(true);
            self.plm4.entries.set(idx.pdp_i, pde.value);
            proof {
                assert(pde.value == pde_encode(e0, flags, a));
                assert forall|j: int| 0 <= j < c0.pdps@.len() implies (#[trigger] c0.pdps@[j].addr) != a by {
                    assert(addr_backed(h0, c0.pdps@[j].addr));
                }
                lemma_step1_preserves(c0, *self, idx.pdp_i as int, gnode, pde.value);
            }
        }
        let ghost c1 = *self;
        let ghost h1 = *heap;
        proof {
            assert((c1 == c0 && h1 == h0) || c0.leaf_entry(v_addr) is None);
            assert(count_free(h1.blocks()) >= count_free(h0.blocks()) - 1);
            assert(c1.wf());
            assert(c1.walk1(v_addr) == Some(j1 as int));
            assert(forall|w: u64| c1.mapping(w) == c0.mapping(w));
            assert(c1.backed_by(h1)) by {
                assert forall|j: int|
                    0 <= j < c1.pdps@.len() implies addr_backed(h1, #[trigger] c1.pdps@[j].addr) by {
                    if j < c0.pdps@.len() {
                        assert(addr_backed(h0, c0.pdps@[j].addr));
                    }
                }
                assert(all_backed(c1.pds@, h1)) by {
                    assert forall|j: int|
                        0 <= j < c1.pds@.len() implies addr_backed(h1, #[trigger] c1.pds@[j].addr) by {
                        assert(addr_backed(h0, c0.pds@[j].addr));
                    }
                }
                assert(all_backed(c1.pts@, h1)) by {
                    assert forall|j: int|
                        0 <= j < c1.pts@.len() implies addr_backed(h1, #[trigger] c1.pts@[j].addr) by {
                        assert(addr_backed(h0, c0.pts@[j].addr));
                    }
                }
            }
            assert(0 <= j1 < c1.pdps@.len());
            assert(c1.pdps@[j1 as int].entries@.len() == 512);
        }

        // --- PDP -> PD ---
        let e1 = self.pdps[j1].entries[idx.pd_i];
        let j2: usize;
        if e1 & PDE_PRESENT != 0 {
            proof {
                assert(pde_present(e1));
            }
            match find_child(&self.pds, e1 & PDE_ADDR_MASK) {
                Some(j) => {
                    j2 = j;
                },
                None => {
                    proof {
                        assert(find_node(c1.pds@, pde_child_addr(e1)) is Some);
                        assert(false);
                    }
                    return Err(ErrorCode::OutOfBounds);
                },
            }
            proof {
                assert(c1.walk2(v_addr) == Some(j2 as int));
                assert(count_free(heap.blocks()) >= count_free(h1.blocks()) - 1);
            }
        } else {
            let a = match page_alloc(heap) {
                Ok(a) => a,
                Err(er) => {
                    proof {
                        assert(c1.leaf_entry(v_addr) is None);
                        assert(c0.leaf_entry(v_addr) is None);
                        assert(count_free(h1.blocks()) == 0);
                    }
                    return Err(er);
                },
            };
            let node = PageTable { entries: new_table_entries(), addr: a };
            let ghost gnode = node;
            j2 = self.pds.len();
            self.pds.push(node);
            proof {
                lemma_pde_encode(e1, flags, a);
            }
            let mut pde = PageDirectoryEntry::from_value(e1 | flags);
            pde.set_addr(a >> 12u64);
            pde.set_present(true);
            write_node_entry(&mut self.pdps, j1, idx.pd_i, pde.value);
            proof {
                assert(pde.value == pde_encode(e1, flags, a));
                assert forall|j: int| 0 <= j < c1.pds@.len() implies (#[trigger] c1.pds@[j].addr) != a by {
                    assert(addr_backed(h1, c1.pds@[j].addr));
                }
                lemma_step2_preserves(c1, *self, j1 as int, idx.pd_i as int, gnode, pde.value);
                assert(self.walk2(v_addr) == Some(j2 as int));
            }
        }
        let ghost c2 = *self;
        let ghost h2 = *heap;
        proof {
            assert((c2 == c1 && h2 == h1) || c1.leaf_entry(v_addr) is None);
            assert((c2 == c0 && h2 == h0) || c0.leaf_entry(v_addr) is None);
            assert(count_free(h2.blocks()) >= count_free(h0.blocks()) - 2);
            assert(c2.wf());
            assert(c2.walk2(v_addr) == Some(j2 as int));
            assert(forall|w: u64| c2.mapping(w) == c1.mapping(w));
            assert(c2.backed_by(h2)) by {
                assert forall|j: int|
                    0 <= j < c2.pdps@.len() implies addr_backed(h2, #[trigger] c2.pdps@[j].addr) by {
                    assert(c2.pdps@[j].addr == c1.pdps@[j].addr);
                    assert(addr_backed(h1, c1.pdps@[j].addr));
                }
                assert forall|j: int|
                    0 <= j < c2.pds@.len() implies addr_backed(h2, #[trigger] c2.pds@[j].addr) by {
                    if j < c1.pds@.len() {
                        assert(addr_backed(h1, c1.pds@[j].addr));
                    }
                }
                assert forall|j: int|
                    0 <= j < c2.pts@.len() implies addr_backed(h2, #[trigger] c2.pts@[j].addr) by {
                    assert(addr_backed(h1, c1.pts@[j].addr));
                }
            }
            assert(0 <= j2 < c2.pds@.len());
            assert(c2.pds@[j2 as int].entries@.len() == 512);
        }

        // --- PD -> PT ---
        let e2 = self.pds[j2].entries[idx.pt_i];
        let j3: usize;
        if e2 & PDE_PRESENT != 0 {
            proof {
                assert(pde_present(e2));
            }
            match find_child(&self.pts, e2 & PDE_ADDR_MASK) {
                Some(j) => {
                    j3 = j;
                },
                None => {
                    proof {
                        assert(find_node(c2.pts@, pde_child_addr(e2)) is Some);
                        assert(false);
                    }
                    return Err(ErrorCode::OutOfBounds);
                },
            }
            proof {
                assert(c2.walk3(v_addr) == Some(j3 as int));
                assert(count_free(heap.blocks()) >= count_free(h2.blocks()) - 1);
            }
        } else {
            let a = match page_alloc(heap) {
                Ok(a) => a,
                Err(er) => {
                    proof {
                        assert(c2.leaf_entry(v_addr) is None);
                        assert(c0.leaf_entry(v_addr) is None);
                        assert(count_free(h2.blocks()) == 0);
                    }
                    return Err(er);
                },
            };
            let node = PageTable { entries: new_table_entries(), addr: a };
            let ghost gnode = node;
            j3 = self.pts.len();
            self.pts.push(node);
            proof {
                lemma_pde_encode(e2, flags, a);
            }
            let mut pde = PageDirectoryEntry::from_value(e2 | flags);
            pde.set_addr(a >> 12u64);
            pde.set_present(true);
            write_node_entry(&mut self.pds, j2, idx.pt_i, pde.value);
            proof {
                assert(pde.value == pde_encode(e2, flags, a));
                assert forall|j: int| 0 <= j < c2.pts@.len() implies (#[trigger] c2.pts@[j].addr) != a by {
                    assert(addr_backed(h2, c2.pts@[j].addr));
                }
                lemma_step3_preserves(c2, *self, j2 as int, idx.pt_i as int, gnode, pde.value);
                assert(self.walk3(v_addr) == Some(j3 as int));
            }
        }
        let ghost c3 = *self;
        let ghost h3 = *heap;
        proof {
            assert((c3 == c2 && h3 == h2) || c2.leaf_entry(v_addr) is None);
            assert((c3 == c0 && h3 == h0) || c0.leaf_entry(v_addr) is None);
            assert(count_free(h3.blocks()) >= count_free(h0.blocks()) - 3);
            assert(c3.wf());
            assert(c3.walk3(v_addr) == Some(j3 as int));
            assert(forall|w: u64| c3.mapping(w) == c2.mapping(w));
            assert(c3.backed_by(h3)) by {
                assert forall|j: int|
                    0 <= j < c3.pdps@.len() implies addr_backed(h3, #[trigger] c3.pdps@[j].addr) by {
                    assert(addr_backed(h2, c2.pdps@[j].addr));
                }
                assert forall|j: int|
                    0 <= j < c3.pds@.len() implies addr_backed(h3, #[trigger] c3.pds@[j].addr) by {
                    assert(c3.pds@[j].addr == c2.pds@[j].addr);
                    assert(addr_backed(h2, c2.pds@[j].addr));
                }
                assert forall|j: int|
                    0 <= j < c3.pts@.len() implies addr_backed(h3, #[trigger] c3.pts@[j].addr) by {
                    if j < c2.pts@.len() {
                        assert(addr_backed(h2, c2.pts@[j].addr));
                    }
                }
            }
            assert(0 <= j3 < c3.pts@.len());
            assert(c3.pts@[j3 as int].entries@.len() == 512);
            lemma_find_node_props(c3.pdps@, pde_child_addr(c3.plm4.entries@[pdp_index(v_addr)]));
            lemma_find_node_props(
                c3.pds@,
                pde_child_addr(c3.pdps@[c3.walk1(v_addr)->Some_0].entries@[pd_index(v_addr)]),
            );
            lemma_find_node_props(
                c3.pts@,
                pde_child_addr(c3.pds@[j2 as int].entries@[pt_index(v_addr)]),
            );
        }

        proof {
            assert(c3.leaf_entry(v_addr) == Some(c3.pts@[j3 as int].entries@[p_index(v_addr)]));
            assert(c3.leaf_entry(v_addr) == Some(
                match c0.leaf_entry(v_addr) {
                    Some(e) => e,
                    None => 0u64,
                },
            ));
        }
        Ok(j3)
    }

    /// The single primitive beneath `map`: requires a page-aligned virtual
    /// address (`InvArg` otherwise, with nothing touched), walks and lazily
    /// grows the three table levels, then ORs the requested flags into the
    /// leaf entry, stores `val >> 12` in its frame field and sets it
    /// present.  Growing a table takes one block from the heap; `NoMem` is
    /// returned — with every translation intact — exactly when the heap
    /// runs completely out of blocks.  Every other page keeps its
    /// translation.
    pub fn set(
        &mut self,
        heap: &mut Heap,
        v_addr: u64,
        val: u64,
        flags: PageDirectoryEntry,
    ) -> (r: Result<(), ErrorCode>)
        requires
            old(self).wf(),
            old(heap).inv(),
            heap_fits(*old(heap)),
            old(self).backed_by(*old(heap)),
            val < PDE_MAX_PHYS,
        ensures
            final(self).wf(),
            final(heap).inv(),
            heap_fits(*final(heap)),
            final(heap).base() == old(heap).base(),
            final(heap).size() == old(heap).size(),
            final(heap).arena() == old(heap).arena(),
            forall|a: u64| addr_backed(*old(heap), a) ==> addr_backed(*final(heap), a),
            final(self).backed_by(*final(heap)),
            final(self).root_addr() == old(self).root_addr(),
            r == Err::<(), ErrorCode>(ErrorCode::InvArg) <==> v_addr % 4096 != 0,
            v_addr % 4096 != 0 ==> *final(self) == *old(self) && *final(heap) == *old(heap),
            r is Ok ==> final(self).leaf_entry(v_addr) == Some(
                pde_encode(
                    match old(self).leaf_entry(v_addr) {
                        Some(e) => e,
                        None => 0u64,
                    },
                    flags.value,
                    val,
                ),
            ),
            r is Ok ==> forall|w: u64|
                !same_page(w, v_addr) ==> final(self).mapping(w) == old(self).mapping(w),
            r == Err::<(), ErrorCode>(ErrorCode::NoMem) ==> first_fit(
                final(heap).blocks(),
                1,
            ) is None && forall|w: u64| final(self).mapping(w) == old(self).mapping(w),
            r is Err ==> r == Err::<(), ErrorCode>(ErrorCode::InvArg) || r == Err::<
                (),
                ErrorCode,
            >(ErrorCode::NoMem),
            v_addr % 4096 == 0 && old(self).leaf_entry(v_addr) is Some ==> r is Ok
                && *final(heap) == *old(heap),
            r == Err::<(), ErrorCode>(ErrorCode::NoMem) ==> count_free(old(heap).blocks()) < 3,
            count_free(final(heap).blocks()) >= count_free(old(heap).blocks()) - 3,
    {
        if v_addr % PAGING_PAGE_SIZE != 0 {
            return Err(ErrorCode::InvArg);
        }
        let ghost c0 = *self;
        let j3 = match self.walk_or_insert(heap, v_addr, flags.value) {
            Ok(j) => j,
            Err(e) => {
                return Err(e);
            },
        };
        let idx = PageMapIndexes::from(v_addr);
        let ghost c3 = *self;
        let ghost h3 = *heap;
        let eleaf = self.pts[j3].entries[idx.p_i];
        proof {
            lemma_pde_encode(eleaf, flags.value, val);
        }
        let mut pde = PageDirectoryEntry::from_value(eleaf | flags.value);
        pde.set_addr(val >> 12u64);
        pde.set_present(true);
        write_node_entry(&mut self.pts, j3, idx.p_i, pde.value);
        proof {
            assert(pde.value == pde_encode(eleaf, flags.value, val));
            lemma_leaf_write(c3, *self, v_addr, j3 as int, pde.value);
            assert(eleaf == match c0.leaf_entry(v_addr) {
                Some(e) => e,
                None => 0u64,
            });
            assert forall|w: u64| !same_page(w, v_addr) implies self.mapping(w) == c0.mapping(
                w,
            ) by {
                assert(self.mapping(w) == c3.mapping(w));
            }
            assert(self.backed_by(*heap)) by {
                assert forall|j: int|
                    0 <= j < self.pts@.len() implies addr_backed(
                    h3,
                    #[trigger] self.pts@[j].addr,
                ) by {
                    assert(self.pts@[j].addr == c3.pts@[j].addr);
                    assert(addr_backed(h3, c3.pts@[j].addr));
                }
            }
        }
        Ok(())
    }
}


/// Whether an address is page-aligned.
pub fn is_aligned(addr: u64) -> (r: bool)
    ensures
        r == (addr % 4096 == 0),
{
    addr % PAGING_PAGE_SIZE == 0
}

/// Rounds an address down to the page that contains it.
pub fn align_to_lower_page(addr: u64) -> (r: u64)
    ensures
        r == addr - addr % 4096,
        r % 4096 == 0,
    {
    proof {
        vstd::arithmetic::div_mod::lemma_fundamental_div_mod(addr as int, 4096);
        vstd::arithmetic::div_mod::lemma_mod_multiples_basic(addr as int / 4096, 4096);
    }
    addr - addr % PAGING_PAGE_SIZE
}

impl Paging256TBChunk {
    /// Physical address of the root table, as the hardware register wants
    /// it.
    pub fn plm4_address(&self) -> (r: u64)
        ensures
            r == self.root_addr(),
    {
        self.plm4.addr
    }

    /// Maps exactly one page: checks that both addresses are page-aligned
    /// (`InvArg` otherwise, with every table untouched), then stores
    /// `p_addr`'s frame in the leaf entry for `v_addr` with the requested
    /// flags and the present bit.  Every other page keeps its translation.
    pub fn map(
        &mut self,
        heap: &mut Heap,
        v_addr: u64,
        p_addr: u64,
        flags: PageDirectoryEntry,
    ) -> (r: Result<(), ErrorCode>)
        requires
            old(self).wf(),
            old(heap).inv(),
            heap_fits(*old(heap)),
            old(self).backed_by(*old(heap)),
            p_addr < PDE_MAX_PHYS,
        ensures
            final(self).wf(),
            final(heap).inv(),
            heap_fits(*final(heap)),
            final(heap).base() == old(heap).base(),
            final(heap).size() == old(heap).size(),
            final(heap).arena() == old(heap).arena(),
            forall|a: u64| addr_backed(*old(heap), a) ==> addr_backed(*final(heap), a),
            final(self).backed_by(*final(heap)),
            final(self).root_addr() == old(self).root_addr(),
            r == Err::<(), ErrorCode>(ErrorCode::InvArg) <==> (v_addr % 4096 != 0 || p_addr
                % 4096 != 0),
            (v_addr % 4096 != 0 || p_addr % 4096 != 0) ==> *final(self) == *old(self)
                && *final(heap) == *old(heap),
            r is Ok ==> {
                &&& final(self).leaf_entry(v_addr) == Some(
                    pde_encode(
                        match old(self).leaf_entry(v_addr) {
                            Some(e) => e,
                            None => 0u64,
                        },
                        flags.value,
                        p_addr,
                    ),
                )
                &&& final(self).mapping(v_addr) is Some
                &&& pde_frame(final(self).mapping(v_addr)->Some_0) == p_addr >> 12
                &&& pde_frame(final(self).mapping(v_addr)->Some_0) == p_addr / 4096
            },
            r is Ok ==> forall|w: u64|
                !same_page(w, v_addr) ==> final(self).mapping(w) == old(self).mapping(w),
            r == Err::<(), ErrorCode>(ErrorCode::NoMem) ==> first_fit(
                final(heap).blocks(),
                1,
            ) is None && forall|w: u64| final(self).mapping(w) == old(self).mapping(w),
            r is Err ==> r == Err::<(), ErrorCode>(ErrorCode::InvArg) || r == Err::<
                (),
                ErrorCode,
            >(ErrorCode::NoMem),
            v_addr % 4096 == 0 && p_addr % 4096 == 0 && old(self).leaf_entry(v_addr) is Some
                ==> r is Ok && *final(heap) == *old(heap),
            r == Err::<(), ErrorCode>(ErrorCode::NoMem) ==> count_free(old(heap).blocks()) < 3,
            count_free(final(heap).blocks()) >= count_free(old(heap).blocks()) - 3,
    {
        if !is_aligned(v_addr) || !is_aligned(p_addr) {
            return Err(ErrorCode::InvArg);
        }
        let r = self.set(heap, v_addr, p_addr, flags);
        proof {
            if r is Ok {
                let e = match old(self).leaf_entry(v_addr) {
                    Some(e) => e,
                    None => 0u64,
                };
                lemma_pde_encode(e, flags.value, p_addr);
                crate::pde::lemma_shr12_is_div(p_addr);
            }
        }
        r
    }

    /// The first `j` pages of the range are mapped as requested while the
    /// remaining pages keep their old translation: what a run of `map`
    /// calls leaves behind when the `j`-th fails.
    pub open spec fn mapped_prefix(
        c0: Paging256TBChunk,
        c1: Paging256TBChunk,
        v_addr: u64,
        p_addr: u64,
        count: u64,
        j: int,
    ) -> bool {
        &&& 0 <= j <= count
        &&& forall|i: int|
            0 <= i < j ==> (#[trigger] c1.mapping((v_addr + i * 4096) as u64)) is Some
                && pde_frame(c1.mapping((v_addr + i * 4096) as u64)->Some_0) == ((p_addr + i
                * 4096) as u64) >> 12
        &&& forall|i: int|
            j <= i < count ==> (#[trigger] c1.mapping((v_addr + i * 4096) as u64)) == c0.mapping(
                (v_addr + i * 4096) as u64,
            )
    }

    /// Maps `count` consecutive pages, advancing both addresses by the
    /// page size for each; a misaligned pair fails the first page with
    /// `InvArg` and changes nothing.  There is no rollback: a `NoMem`
    /// mid-range leaves the pages already mapped in place (the
    /// mapped-prefix clause below), and it can only arise when the heap
    /// had fewer than three free blocks per requested page.
    pub fn map_range(
        &mut self,
        heap: &mut Heap,
        v_addr: u64,
        p_addr: u64,
        count: u64,
        flags: PageDirectoryEntry,
    ) -> (r: Result<(), ErrorCode>)
        requires
            old(self).wf(),
            old(heap).inv(),
            heap_fits(*old(heap)),
            old(self).backed_by(*old(heap)),
            v_addr + count * 4096 <= 0x1_0000_0000_0000,
            p_addr + count * 4096 <= PDE_MAX_PHYS,
        ensures
            final(self).wf(),
            final(heap).inv(),
            heap_fits(*final(heap)),
            final(heap).base() == old(heap).base(),
            final(heap).size() == old(heap).size(),
            final(heap).arena() == old(heap).arena(),
            forall|a: u64| addr_backed(*old(heap), a) ==> addr_backed(*final(heap), a),
            final(self).backed_by(*final(heap)),
            final(self).root_addr() == old(self).root_addr(),
            forall|w: u64|
                (forall|i: int|
                    0 <= i < count ==> !(#[trigger] same_page(w, (v_addr + i * 4096) as u64)))
                    ==> final(self).mapping(w) == old(self).mapping(w),
            r is Ok ==> forall|i: int|
                0 <= i < count ==> {
                    &&& (#[trigger] final(self).mapping((v_addr + i * 4096) as u64)) is Some
                    &&& pde_frame(final(self).mapping((v_addr + i * 4096) as u64)->Some_0) == (
                    (p_addr + i * 4096) as u64) >> 12
                },
            r == Err::<(), ErrorCode>(ErrorCode::InvArg) <==> count > 0 && (v_addr % 4096 != 0
                || p_addr % 4096 != 0),
            r == Err::<(), ErrorCode>(ErrorCode::InvArg) ==> *final(self) == *old(self)
                && *final(heap) == *old(heap),
            r == Err::<(), ErrorCode>(ErrorCode::NoMem) ==> first_fit(
                final(heap).blocks(),
                1,
            ) is None && count_free(old(heap).blocks()) < 3 * count,
            r is Err ==> r == Err::<(), ErrorCode>(ErrorCode::InvArg) || r == Err::<
                (),
                ErrorCode,
            >(ErrorCode::NoMem),
            r is Err ==> exists|j: int|
                #[trigger] Self::mapped_prefix(
                    *old(self),
                    *final(self),
                    v_addr,
                    p_addr,
                    count,
                    j,
                ),
    {
        let ghost c0 = *self;
        let ghost h0 = *heap;
        if count > 0 && (!is_aligned(v_addr) || !is_aligned(p_addr)) {
            // the first page's map call rejects the pair, touching nothing
            let r = self.map(heap, v_addr, p_addr, flags);
            proof {
                assert(r == Err::<(), ErrorCode>(ErrorCode::InvArg));
                assert(Self::mapped_prefix(c0, *self, v_addr, p_addr, count, 0));
            }
            return r;
        }
        if count == 0 {
            return Ok(());
        }
        let mut v = v_addr;
        let mut p = p_addr;
        let mut k: u64 = 0;
        while k < count
            invariant
                c0 == *old(self),
                h0 == *old(heap),
                self.wf(),
                heap.inv(),
                heap_fits(*heap),
                self.backed_by(*heap),
                heap.base() == h0.base(),
                heap.size() == h0.size(),
                heap.arena() == h0.arena(),
                forall|a: u64| addr_backed(h0, a) ==> addr_backed(*heap, a),
                self.root_addr() == c0.root_addr(),
                0 <= k <= count,
                v == v_addr + k * 4096,
                p == p_addr + k * 4096,
                v_addr % 4096 == 0,
                p_addr % 4096 == 0,
                v_addr + count * 4096 <= 0x1_0000_0000_0000,
                p_addr + count * 4096 <= PDE_MAX_PHYS,
                count_free(heap.blocks()) >= count_free(h0.blocks()) - 3 * k,
                forall|i: int|
                    0 <= i < k ==> {
                        &&& (#[trigger] self.mapping((v_addr + i * 4096) as u64)) is Some
                        &&& pde_frame(self.mapping((v_addr + i * 4096) as u64)->Some_0) == ((
                        p_addr + i * 4096) as u64) >> 12
                    },
                forall|i: int|
                    k <= i < count ==> (#[trigger] self.mapping((v_addr + i * 4096) as u64))
                        == c0.mapping((v_addr + i * 4096) as u64),
                forall|w: u64|
                    (forall|i: int|
                        0 <= i < k ==> !(#[trigger] same_page(w, (v_addr + i * 4096) as u64)))
                        ==> self.mapping(w) == c0.mapping(w),
            decreases count - k,
        {
            proof {
                vstd::arithmetic::div_mod::lemma_mod_multiples_basic(k as int, 4096);
                vstd::arithmetic::div_mod::lemma_add_mod_noop(v_addr as int, k as int * 4096, 4096);
                vstd::arithmetic::div_mod::lemma_add_mod_noop(p_addr as int, k as int * 4096, 4096);
                vstd::arithmetic::mul::lemma_mul_inequality(k as int + 1, count as int, 4096);
                vstd::arithmetic::mul::lemma_mul_is_distributive_add_other_way(
                    4096,
                    k as int,
                    1,
                );
            }
            let ghost cprev = *self;
            let ghost hprev = *heap;
            let r = self.map(heap, v, p, flags);
            match r {
                Ok(()) => {},
                Err(e) => {
                    proof {
                        assert(e == ErrorCode::NoMem);
                        // the heap was short before this call, so it was
                        // short (by at most 3 more) at entry
                        assert(count_free(hprev.blocks()) < 3);
                        assert(3 * k + 3 <= 3 * count as int) by {
                            vstd::arithmetic::mul::lemma_mul_inequality(
                                k as int + 1,
                                count as int,
                                3,
                            );
                        }
                        assert(count_free(h0.blocks()) < 3 * count as int);
                        // every translation survives the failed call
                        assert forall|w: u64|
                            (forall|i: int|
                                0 <= i < k ==> !(#[trigger] same_page(
                                    w,
                                    (v_addr + i * 4096) as u64,
                                ))) implies self.mapping(w) == c0.mapping(w) by {
                            assert(self.mapping(w) == cprev.mapping(w));
                        }
                        assert forall|i: int| 0 <= i < k implies {
                            &&& (#[trigger] self.mapping((v_addr + i * 4096) as u64)) is Some
                            &&& pde_frame(self.mapping((v_addr + i * 4096) as u64)->Some_0) == ((
                            p_addr + i * 4096) as u64) >> 12
                        } by {
                            assert(self.mapping((v_addr + i * 4096) as u64) == cprev.mapping(
                                (v_addr + i * 4096) as u64,
                            ));
                        }
                        assert forall|i: int|
                            k as int <= i < count implies (#[trigger] self.mapping(
                            (v_addr + i * 4096) as u64,
                        )) == c0.mapping((v_addr + i * 4096) as u64) by {
                            assert(self.mapping((v_addr + i * 4096) as u64) == cprev.mapping(
                                (v_addr + i * 4096) as u64,
                            ));
                        }
                        assert(Self::mapped_prefix(c0, *self, v_addr, p_addr, count, k as int));
                    }
                    return Err(e);
                },
            }
            proof {
                let page_k = (v_addr + k as int * 4096) as u64;
                // pages already mapped are distinct from the one just written
                assert forall|i: int| 0 <= i < k implies {
                    &&& (#[trigger] self.mapping((v_addr + i * 4096) as u64)) is Some
                    &&& pde_frame(self.mapping((v_addr + i * 4096) as u64)->Some_0) == ((p_addr
                        + i * 4096) as u64) >> 12
                } by {
                    let page_i = (v_addr + i * 4096) as u64;
                    vstd::arithmetic::div_mod::lemma_mod_multiples_basic(i, 4096);
                    vstd::arithmetic::div_mod::lemma_add_mod_noop(v_addr as int, i * 4096, 4096);
                    vstd::arithmetic::mul::lemma_mul_inequality(i + 1, count as int, 4096);
                    vstd::arithmetic::mul::lemma_mul_is_distributive_add_other_way(4096, i, 1);
                    if same_page(page_i, page_k) {
                        lemma_distinct_pages(page_i, page_k);
                        vstd::arithmetic::mul::lemma_mul_strict_inequality(i, k as int, 4096);
                        assert(false);
                    }
                    assert(self.mapping(page_i) == cprev.mapping(page_i));
                }
                // pages not yet reached keep their old translation
                assert forall|i: int|
                    k as int + 1 <= i < count implies (#[trigger] self.mapping(
                    (v_addr + i * 4096) as u64,
                )) == c0.mapping((v_addr + i * 4096) as u64) by {
                    let page_i = (v_addr + i * 4096) as u64;
                    vstd::arithmetic::div_mod::lemma_mod_multiples_basic(i, 4096);
                    vstd::arithmetic::div_mod::lemma_add_mod_noop(v_addr as int, i * 4096, 4096);
                    vstd::arithmetic::mul::lemma_mul_inequality(i + 1, count as int, 4096);
                    vstd::arithmetic::mul::lemma_mul_is_distributive_add_other_way(4096, i, 1);
                    if same_page(page_i, page_k) {
                        lemma_distinct_pages(page_i, page_k);
                        vstd::arithmetic::mul::lemma_mul_strict_inequality(k as int, i, 4096);
                        assert(false);
                    }
                    assert(self.mapping(page_i) == cprev.mapping(page_i));
                    assert(cprev.mapping(page_i) == c0.mapping(page_i));
                }
                assert forall|w: u64|
                    (forall|i: int|
                        0 <= i < k + 1 ==> !(#[trigger] same_page(
                            w,
                            (v_addr + i * 4096) as u64,
                        ))) implies self.mapping(w) == c0.mapping(w) by {
                    assert(!same_page(w, (v_addr + k as int * 4096) as u64));
                    assert(self.mapping(w) == cprev.mapping(w));
                    assert(cprev.mapping(w) == c0.mapping(w));
                }
                assert(3 * (k as int + 1) == 3 * k as int + 3);
            }
            k = k + 1;
            v = v + PAGING_PAGE_SIZE;
            p = p + PAGING_PAGE_SIZE;
        }
        Ok(())
    }

    /// Maps the physical span `[p_addr, p_addr_end)` starting at `v_addr`:
    /// checks that all three addresses are page-aligned and that the span
    /// is not negative (`InvArg` otherwise, with every table untouched),
    /// then maps the whole pages of the span.
    pub fn map_to(
        &mut self,
        heap: &mut Heap,
        v_addr: u64,
        p_addr: u64,
        p_addr_end: u64,
        flags: PageDirectoryEntry,
    ) -> (r: Result<(), ErrorCode>)
        requires
            old(self).wf(),
            old(heap).inv(),
            heap_fits(*old(heap)),
            old(self).backed_by(*old(heap)),
            p_addr_end <= PDE_MAX_PHYS,
            p_addr <= p_addr_end ==> v_addr + (p_addr_end - p_addr) <= 0x1_0000_0000_0000,
        ensures
            final(self).wf(),
            final(heap).inv(),
            heap_fits(*final(heap)),
            final(heap).base() == old(heap).base(),
            final(heap).size() == old(heap).size(),
            final(heap).arena() == old(heap).arena(),
            forall|a: u64| addr_backed(*old(heap), a) ==> addr_backed(*final(heap), a),
            final(self).backed_by(*final(heap)),
            final(self).root_addr() == old(self).root_addr(),
            r == Err::<(), ErrorCode>(ErrorCode::InvArg) <==> (v_addr % 4096 != 0 || p_addr
                % 4096 != 0 || p_addr_end % 4096 != 0 || p_addr_end < p_addr),
            r == Err::<(), ErrorCode>(ErrorCode::InvArg) ==> *final(self) == *old(self)
                && *final(heap) == *old(heap),
            r is Ok ==> forall|i: int|
                0 <= i < (p_addr_end - p_addr) / 4096 ==> {
                    &&& (#[trigger] final(self).mapping((v_addr + i * 4096) as u64)) is Some
                    &&& pde_frame(final(self).mapping((v_addr + i * 4096) as u64)->Some_0) == (
                    (p_addr + i * 4096) as u64) >> 12
                },
            r is Err ==> r == Err::<(), ErrorCode>(ErrorCode::InvArg) || (r == Err::<
                (),
                ErrorCode,
            >(ErrorCode::NoMem) && first_fit(final(heap).blocks(), 1) is None),
            r == Err::<(), ErrorCode>(ErrorCode::NoMem) ==> count_free(old(heap).blocks()) < 3
                * ((p_addr_end - p_addr) / 4096),
            r == Err::<(), ErrorCode>(ErrorCode::NoMem) ==> exists|j: int|
                #[trigger] Self::mapped_prefix(
                    *old(self),
                    *final(self),
                    v_addr,
                    p_addr,
                    ((p_addr_end - p_addr) / 4096) as u64,
                    j,
                ),
    {
        if !is_aligned(v_addr) || !is_aligned(p_addr) || !is_aligned(p_addr_end) {
            return Err(ErrorCode::InvArg);
        }
        if p_addr_end < p_addr {
            return Err(ErrorCode::InvArg);
        }
        let total_bytes = p_addr_end - p_addr;
        let total_pages = total_bytes / PAGING_PAGE_SIZE;
        proof {
            vstd::arithmetic::div_mod::lemma_sub_mod_noop(p_addr_end as int, p_addr as int, 4096);
            vstd::arithmetic::div_mod::lemma_fundamental_div_mod(total_bytes as int, 4096);
            assert(total_bytes as int % 4096 == 0);
            assert(total_pages as int * 4096 == total_bytes as int) by {
                vstd::arithmetic::mul::lemma_mul_is_commutative(4096, total_bytes as int / 4096);
            }
        }
        let r = self.map_range(heap, v_addr, p_addr, total_pages, flags);
        r
    }
}


impl Paging256TBChunk {
    /// Resolves `v_addr` to its current leaf entry, growing any missing
    /// intermediate table on the way (a fresh leaf entry reads as zero).
    /// No translation changes; `NoMem` is returned — with every
    /// translation intact — exactly when a table had to be created and
    /// the heap ran completely out of blocks.
    pub fn get_or_insert(
        &mut self,
        heap: &mut Heap,
        v_addr: u64,
        flags: PageDirectoryEntry,
    ) -> (r: Result<PageDirectoryEntry, ErrorCode>)
        requires
            old(self).wf(),
            old(heap).inv(),
            heap_fits(*old(heap)),
            old(self).backed_by(*old(heap)),
        ensures
            final(self).wf(),
            final(heap).inv(),
            heap_fits(*final(heap)),
            final(heap).base() == old(heap).base(),
            final(heap).size() == old(heap).size(),
            final(heap).arena() == old(heap).arena(),
            forall|a: u64| addr_backed(*old(heap), a) ==> addr_backed(*final(heap), a),
            final(self).backed_by(*final(heap)),
            final(self).root_addr() == old(self).root_addr(),
            forall|w: u64| final(self).mapping(w) == old(self).mapping(w),
            old(self).leaf_entry(v_addr) is Some ==> r is Ok && *final(self) == *old(self)
                && *final(heap) == *old(heap),
            r is Err ==> count_free(old(heap).blocks()) < 3,
            count_free(final(heap).blocks()) >= count_free(old(heap).blocks()) - 3,
            r is Ok ==> r->Ok_0.value == (match old(self).leaf_entry(v_addr) {
                Some(e) => e,
                None => 0u64,
            }),
            r is Ok ==> final(self).leaf_entry(v_addr) == Some(r->Ok_0.value),
            r is Err ==> r == Err::<PageDirectoryEntry, ErrorCode>(ErrorCode::NoMem)
                && first_fit(final(heap).blocks(), 1) is None,
    {
        let j3 = match self.walk_or_insert(heap, v_addr, flags.value) {
            Ok(j) => j,
            Err(e) => {
                return Err(e);
            },
        };
        let idx = PageMapIndexes::from(v_addr);
        let eleaf = self.pts[j3].entries[idx.p_i];
        Ok(PageDirectoryEntry::from_value(eleaf))
    }

    /// Resolves an arbitrary (not necessarily aligned) virtual address to
    /// its mapped physical address: rounds it down to its page, resolves
    /// that page's leaf entry as `get_or_insert` does, and returns the
    /// entry's physical address field with the sub-page offset added.
    pub fn get_p_addr_or_insert(
        &mut self,
        heap: &mut Heap,
        v_addr: u64,
        flags: PageDirectoryEntry,
    ) -> (r: Result<u64, ErrorCode>)
        requires
            old(self).wf(),
            old(heap).inv(),
            heap_fits(*old(heap)),
            old(self).backed_by(*old(heap)),
        ensures
            final(self).wf(),
            final(heap).inv(),
            heap_fits(*final(heap)),
            final(heap).base() == old(heap).base(),
            final(heap).size() == old(heap).size(),
            final(heap).arena() == old(heap).arena(),
            forall|a: u64| addr_backed(*old(heap), a) ==> addr_backed(*final(heap), a),
            final(self).backed_by(*final(heap)),
            final(self).root_addr() == old(self).root_addr(),
            forall|w: u64| final(self).mapping(w) == old(self).mapping(w),
            old(self).leaf_entry((v_addr - v_addr % 4096) as u64) is Some ==> r is Ok
                && *final(self) == *old(self) && *final(heap) == *old(heap),
            r is Err ==> count_free(old(heap).blocks()) < 3,
            count_free(final(heap).blocks()) >= count_free(old(heap).blocks()) - 3,
            r is Ok ==> r->Ok_0 == pde_child_addr(
                match old(self).leaf_entry((v_addr - v_addr % 4096) as u64) {
                    Some(e) => e,
                    None => 0u64,
                },
            ) + v_addr % 4096,
            r is Err ==> r == Err::<u64, ErrorCode>(ErrorCode::NoMem) && first_fit(
                final(heap).blocks(),
                1,
            ) is None,
    {
        let aligned_v_addr = align_to_lower_page(v_addr);
        let difference = v_addr - aligned_v_addr;
        let pde = match self.get_or_insert(heap, aligned_v_addr, flags) {
            Ok(p) => p,
            Err(e) => {
                return Err(e);
            },
        };
        let base = pde.value & PDE_ADDR_MASK;
        proof {
            crate::pde::lemma_child_addr_bounds(pde.value);
        }
        Ok(base + difference)
    }
}

/// The process-wide slot for the active address space: `None` at boot, set
/// by the first switch, replaced — dropping the prior occupant — on every
/// later one.  The slot owns the active space so its tables are not
/// reclaimed while the hardware walks them.
pub struct CurrentPageDirectory {
    current: Option<Paging256TBChunk>,
}

impl CurrentPageDirectory {
    /// The address space currently installed, if any.
    pub closed spec fn active(self) -> Option<Paging256TBChunk> {
        self.current
    }

    /// The empty slot of a freshly booted kernel.
    pub fn new() -> (s: Self)
        ensures
            s.active() is None,
    {
        CurrentPageDirectory { current: None }
    }
}

impl Paging256TBChunk {
    /// Installs this address space: hands back the physical address of its
    /// root table — the exact value the caller must load into the
    /// page-table base register — and moves the space into the
    /// process-wide slot, releasing whatever was active before.  After the
    /// register write, translations of the previous space are gone;
    /// arranging that the executing code stays mapped is the caller's
    /// charge.
    pub fn switch(new_space: Paging256TBChunk, current: &mut CurrentPageDirectory) -> (root:
        u64)
        ensures
            root == new_space.root_addr(),
            final(current).active() == Some(new_space),
    {
        let root = new_space.plm4_address();
        current.current = Some(new_space);
        root
    }
}


} // verus!
