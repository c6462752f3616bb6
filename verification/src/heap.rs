//! A deterministic model of the platform backend, driven by the same plans
//! as a native adapter would be.
//!
//! The model heap carves blocks out of an abstract address space that only
//! grows, so an address is never reused and live blocks are pairwise
//! disjoint.  It counts how often each platform primitive is invoked and can
//! be armed to fail its next primitive call, so that every failure path of
//! the allocator core can be exercised and specified exactly.

use vstd::prelude::*;
use vstd::pervasive::VecAdditionalExecFns;
use crate::layout::Layout;
use crate::math::{
    lemma_mod_zero_transitive, lemma_pow2_at_least_one, lemma_pow2_divides, round_up,
    spec_round_up,
};
use crate::policy::{lemma_min_align_is_pow2, spec_fits_default, MIN_ALIGN};
use crate::system::{AllocPlan, ReallocPlan, System, spec_alloc_plan, spec_realloc_plan};

verus! {

/// The byte the model writes into freshly allocated, uninitialized memory.
pub const FRESH_BYTE: u8 = 0xA5;

struct BlockRec {
    addr: usize,
    data: Vec<u8>,
    live: bool,
}

/// The model heap: live and retired blocks, a cursor past the highest
/// address ever handed out, call counters, and a one-shot failure switch.
pub struct ModelHeap {
    blocks: Vec<BlockRec>,
    cursor: usize,
    n_default: usize,
    n_aligned: usize,
    fail_one: bool,
}

/// The contents of a block of `size` fresh (uninitialized) bytes.
pub open spec fn fresh_block(size: usize) -> Seq<u8> {
    Seq::new(size as nat, |i: int| FRESH_BYTE)
}

/// The contents of a block of `size` zero bytes.
pub open spec fn zero_block(size: usize) -> Seq<u8> {
    Seq::new(size as nat, |i: int| 0u8)
}

/// A counter after one more call, saturating at the top of `usize`.
pub open spec fn bumped(c: usize) -> usize {
    if c == usize::MAX {
        c
    } else {
        (c + 1) as usize
    }
}

/// Whether a fresh block of `size` bytes aligned to `align` still fits in
/// the model's address space when the cursor stands at `high`.
pub open spec fn spec_can_fit(high: usize, size: usize, align: usize) -> bool {
    spec_round_up(high as int, align as int) + size + 1 <= usize::MAX
}

/// The alignment the platform primitive chosen for an allocation request
/// actually provides: the platform minimum on the fast path, the requested
/// alignment on the slow path.
pub open spec fn spec_used_align(layout: Layout) -> usize {
    if spec_fits_default(layout.size, layout.align) {
        MIN_ALIGN
    } else {
        layout.align
    }
}

/// The alignment the platform primitive chosen for a reallocation provides.
pub open spec fn spec_realloc_align(old_layout: Layout, new_size: usize) -> usize {
    if spec_realloc_plan(old_layout, new_size) == ReallocPlan::Native {
        MIN_ALIGN
    } else {
        old_layout.align
    }
}

/// The contents of a reallocated block: the old bytes up to the old length,
/// fresh (uninitialized) bytes beyond it.
pub open spec fn spec_moved_block(old_bytes: Seq<u8>, new_size: usize) -> Seq<u8> {
    Seq::new(
        new_size as nat,
        |i: int|
            if i < old_bytes.len() {
                old_bytes[i]
            } else {
                FRESH_BYTE
            },
    )
}

impl ModelHeap {
    /// Blocks sit at increasing addresses with at least one unused guard
    /// byte between them, so addresses are distinct and ranges disjoint.
    spec fn blocks_ordered(self) -> bool {
        &&& forall|i: int|
            0 <= i < self.blocks@.len() ==> 1 <= (#[trigger] self.blocks@[i]).addr
        &&& forall|i: int, j: int|
            0 <= i < j < self.blocks@.len() ==> (#[trigger] self.blocks@[i]).addr
                + self.blocks@[i].data@.len() < (#[trigger] self.blocks@[j]).addr
    }

    /// Well-formed: ordered blocks, all below the cursor.
    pub closed spec fn wf(self) -> bool {
        &&& self.cursor >= 1
        &&& self.blocks_ordered()
        &&& forall|i: int|
            0 <= i < self.blocks@.len() ==> (#[trigger] self.blocks@[i]).addr
                + self.blocks@[i].data@.len() < self.cursor
    }

    spec fn is_live_addr(self, a: usize) -> bool {
        exists|i: int|
            0 <= i < self.blocks@.len() && (#[trigger] self.blocks@[i]).addr == a
                && self.blocks@[i].live
    }

    spec fn index_of(self, a: usize) -> int {
        choose|i: int|
            0 <= i < self.blocks@.len() && (#[trigger] self.blocks@[i]).addr == a
                && self.blocks@[i].live
    }

    /// The live allocations: each address the model has handed out and not
    /// yet taken back, mapped to its current contents.
    pub closed spec fn contents(self) -> Map<usize, Seq<u8>> {
        Map::new(|a: usize| self.is_live_addr(a), |a: usize| self.blocks@[self.index_of(a)].data@)
    }

    /// How often the platform's default-path primitives (sized allocate,
    /// zero-filling allocate, sized reallocate) have been invoked.
    pub closed spec fn default_calls(self) -> usize {
        self.n_default
    }

    /// How often the platform's aligned-allocate primitive has been invoked.
    pub closed spec fn aligned_calls(self) -> usize {
        self.n_aligned
    }

    /// Whether the next primitive call is armed to fail.
    pub closed spec fn fail_forced(self) -> bool {
        self.fail_one
    }

    /// The cursor past the highest address ever handed out.
    pub closed spec fn high_mark(self) -> usize {
        self.cursor
    }

    /// A fresh model heap: no allocations, no calls made, nothing armed.
    pub fn new() -> (h: ModelHeap)
        ensures
            h.wf(),
            h.contents() == Map::<usize, Seq<u8>>::empty(),
            h.default_calls() == 0,
            h.aligned_calls() == 0,
            !h.fail_forced(),
            h.high_mark() == 1,
    {
        let h = ModelHeap {
            blocks: Vec::new(),
            cursor: 1,
            n_default: 0,
            n_aligned: 0,
            fail_one: false,
        };
        proof {
            assert(h.contents() =~= Map::<usize, Seq<u8>>::empty());
        }
        h
    }

    /// Reads the default-path call counter.
    pub fn default_call_count(&self) -> (n: usize)
        ensures
            n == self.default_calls(),
    {
        self.n_default
    }

    /// Reads the aligned-path call counter.
    pub fn aligned_call_count(&self) -> (n: usize)
        ensures
            n == self.aligned_calls(),
    {
        self.n_aligned
    }

    /// Arms a one-shot failure: the next platform primitive call fails.
    pub fn force_fail(&mut self)
        requires
            old(self).wf(),
        ensures
            final(self).wf(),
            final(self).fail_forced(),
            final(self).contents() == old(self).contents(),
            final(self).default_calls() == old(self).default_calls(),
            final(self).aligned_calls() == old(self).aligned_calls(),
            final(self).high_mark() == old(self).high_mark(),
    {
        self.fail_one = true;
        proof {
            Self::lemma_same_blocks_same_contents(*old(self), *self);
        }
    }

    /// Ordered blocks have pairwise distinct addresses.
    proof fn lemma_distinct_addrs(self)
        requires
            self.blocks_ordered(),
        ensures
            forall|i: int, j: int|
                0 <= i < self.blocks@.len() && 0 <= j < self.blocks@.len() && i != j
                    ==> (#[trigger] self.blocks@[i]).addr != (#[trigger] self.blocks@[j]).addr,
    {
        assert forall|i: int, j: int|
            0 <= i < self.blocks@.len() && 0 <= j < self.blocks@.len() && i != j implies (
        #[trigger] self.blocks@[i]).addr != (#[trigger] self.blocks@[j]).addr by {
            if i < j {
                assert(self.blocks@[i].addr + self.blocks@[i].data@.len() < self.blocks@[j].addr);
            } else {
                assert(self.blocks@[j].addr + self.blocks@[j].data@.len() < self.blocks@[i].addr);
            }
        }
    }

    /// Heaps with the same blocks have the same contents.
    proof fn lemma_same_blocks_same_contents(h1: ModelHeap, h2: ModelHeap)
        requires
            h1.blocks@ == h2.blocks@,
            h1.blocks_ordered(),
        ensures
            h1.contents() == h2.contents(),
    {
        h1.lemma_distinct_addrs();
        assert forall|a: usize| h1.is_live_addr(a) implies h2.is_live_addr(a) by {
            let i = choose|i: int|
                0 <= i < h1.blocks@.len() && (#[trigger] h1.blocks@[i]).addr == a
                    && h1.blocks@[i].live;
            assert((h2.blocks@[i]).addr == a && h2.blocks@[i].live);
        }
        assert forall|a: usize| h2.is_live_addr(a) implies h1.is_live_addr(a) by {
            let i = choose|i: int|
                0 <= i < h2.blocks@.len() && (#[trigger] h2.blocks@[i]).addr == a
                    && h2.blocks@[i].live;
            assert((h1.blocks@[i]).addr == a && h1.blocks@[i].live);
        }
        assert forall|a: usize| h1.is_live_addr(a) implies h1.blocks@[h1.index_of(a)].data@
            == h2.blocks@[h2.index_of(a)].data@ by {
            let i = h1.index_of(a);
            let j = h2.index_of(a);
            assert(0 <= i < h1.blocks@.len() && (h1.blocks@[i]).addr == a && h1.blocks@[i].live);
            assert(0 <= j < h2.blocks@.len() && (h2.blocks@[j]).addr == a && h2.blocks@[j].live);
            assert(i == j);
        }
        assert(h1.contents() =~= h2.contents());
    }

    /// The witness behind a live address is unique, and `contents` reads it.
    proof fn lemma_at(self, a: usize)
        requires
            self.blocks_ordered(),
            self.is_live_addr(a),
        ensures
            0 <= self.index_of(a) < self.blocks@.len(),
            self.blocks@[self.index_of(a)].addr == a,
            self.blocks@[self.index_of(a)].live,
            forall|i: int|
                0 <= i < self.blocks@.len() && (#[trigger] self.blocks@[i]).addr == a
                    && self.blocks@[i].live ==> i == self.index_of(a),
            self.contents().dom().contains(a),
            self.contents()[a] == self.blocks@[self.index_of(a)].data@,
    {
        self.lemma_distinct_addrs();
    }

    /// Appending a block past every existing one inserts exactly its
    /// contents into the heap's map.
    proof fn lemma_push_contents(pre: ModelHeap, post: ModelHeap, blk: BlockRec)
        requires
            pre.blocks_ordered(),
            blk.live,
            blk.addr >= 1,
            forall|i: int|
                0 <= i < pre.blocks@.len() ==> (#[trigger] pre.blocks@[i]).addr
                    + pre.blocks@[i].data@.len() < blk.addr,
            post.blocks@ == pre.blocks@.push(blk),
        ensures
            post.blocks_ordered(),
            !pre.contents().dom().contains(blk.addr),
            post.contents() == pre.contents().insert(blk.addr, blk.data@),
    {
        let n = pre.blocks@.len() as int;
        assert(post.blocks@[n] == blk);
        assert forall|i: int, j: int| 0 <= i < j < post.blocks@.len() implies (
        #[trigger] post.blocks@[i]).addr + post.blocks@[i].data@.len() < (
        #[trigger] post.blocks@[j]).addr by {
            if j < n {
                assert(post.blocks@[i] == pre.blocks@[i]);
                assert(post.blocks@[j] == pre.blocks@[j]);
            } else {
                assert(post.blocks@[i] == pre.blocks@[i]);
                assert(post.blocks@[j] == blk);
            }
        }
        post.lemma_distinct_addrs();
        pre.lemma_distinct_addrs();
        if pre.is_live_addr(blk.addr) {
            let i = choose|i: int|
                0 <= i < pre.blocks@.len() && (#[trigger] pre.blocks@[i]).addr == blk.addr
                    && pre.blocks@[i].live;
            assert(pre.blocks@[i].addr + pre.blocks@[i].data@.len() < blk.addr);
            assert(false);
        }
        assert(post.is_live_addr(blk.addr)) by {
            assert((post.blocks@[n]).addr == blk.addr && post.blocks@[n].live);
        }
        assert forall|a: usize| #[trigger] post.is_live_addr(a) && a != blk.addr implies
            pre.is_live_addr(a) && post.contents()[a] == pre.contents()[a] by {
            let i = choose|i: int|
                0 <= i < post.blocks@.len() && (#[trigger] post.blocks@[i]).addr == a
                    && post.blocks@[i].live;
            assert(i != n);
            assert(post.blocks@[i] == pre.blocks@[i]);
            assert((pre.blocks@[i]).addr == a && pre.blocks@[i].live);
            pre.lemma_at(a);
            post.lemma_at(a);
            assert(pre.index_of(a) == i && post.index_of(a) == i);
        }
        assert forall|a: usize| #[trigger] pre.is_live_addr(a) implies post.is_live_addr(a) by {
            let i = choose|i: int|
                0 <= i < pre.blocks@.len() && (#[trigger] pre.blocks@[i]).addr == a
                    && pre.blocks@[i].live;
            assert(post.blocks@[i] == pre.blocks@[i]);
            assert((post.blocks@[i]).addr == a && post.blocks@[i].live);
        }
        assert(post.contents()[blk.addr] == blk.data@) by {
            post.lemma_at(blk.addr);
            assert(post.index_of(blk.addr) == n);
        }
        assert(post.contents() =~= pre.contents().insert(blk.addr, blk.data@));
    }

    /// Replacing one block in place, keeping its address and length,
    /// rewrites (when it stays live) or removes (when retired) exactly its
    /// entry in the heap's map.
    proof fn lemma_update_contents(pre: ModelHeap, post: ModelHeap, i: int, nb: BlockRec)
        requires
            pre.blocks_ordered(),
            0 <= i < pre.blocks@.len(),
            nb.addr == pre.blocks@[i].addr,
            nb.data@.len() == pre.blocks@[i].data@.len(),
            post.blocks@ == pre.blocks@.update(i, nb),
        ensures
            post.blocks_ordered(),
            nb.live ==> post.contents() == pre.contents().insert(nb.addr, nb.data@),
            !nb.live ==> post.contents() == pre.contents().remove(nb.addr),
    {
        assert(post.blocks@[i] == nb);
        assert forall|p: int, q: int| 0 <= p < q < post.blocks@.len() implies (
        #[trigger] post.blocks@[p]).addr + post.blocks@[p].data@.len() < (
        #[trigger] post.blocks@[q]).addr by {
            assert(pre.blocks@[p].addr + pre.blocks@[p].data@.len() < pre.blocks@[q].addr);
            if p != i {
                assert(post.blocks@[p] == pre.blocks@[p]);
            }
            if q != i {
                assert(post.blocks@[q] == pre.blocks@[q]);
            }
        }
        pre.lemma_distinct_addrs();
        post.lemma_distinct_addrs();
        assert forall|a: usize| #[trigger] post.is_live_addr(a) && a != nb.addr implies
            pre.is_live_addr(a) && post.contents()[a] == pre.contents()[a] by {
            let j = choose|j: int|
                0 <= j < post.blocks@.len() && (#[trigger] post.blocks@[j]).addr == a
                    && post.blocks@[j].live;
            assert(j != i);
            assert(post.blocks@[j] == pre.blocks@[j]);
            assert((pre.blocks@[j]).addr == a && pre.blocks@[j].live);
            pre.lemma_at(a);
            post.lemma_at(a);
            assert(pre.index_of(a) == j && post.index_of(a) == j);
        }
        assert forall|a: usize| #[trigger] pre.is_live_addr(a) && a != nb.addr implies
            post.is_live_addr(a) by {
            let j = choose|j: int|
                0 <= j < pre.blocks@.len() && (#[trigger] pre.blocks@[j]).addr == a
                    && pre.blocks@[j].live;
            assert(j != i);
            assert(post.blocks@[j] == pre.blocks@[j]);
            assert((post.blocks@[j]).addr == a && post.blocks@[j].live);
        }
        if nb.live {
            assert(post.is_live_addr(nb.addr)) by {
                assert((post.blocks@[i]).addr == nb.addr && post.blocks@[i].live);
            }
            assert(post.contents()[nb.addr] == nb.data@) by {
                post.lemma_at(nb.addr);
                assert(post.index_of(nb.addr) == i);
            }
            assert(post.contents() =~= pre.contents().insert(nb.addr, nb.data@));
        } else {
            if post.is_live_addr(nb.addr) {
                let j = choose|j: int|
                    0 <= j < post.blocks@.len() && (#[trigger] post.blocks@[j]).addr == nb.addr
                        && post.blocks@[j].live;
                assert(j != i);
                assert(post.blocks@[j] == pre.blocks@[j]);
                assert(pre.blocks@[j].addr == pre.blocks@[i].addr);
                assert(false);
            }
            assert(post.contents() =~= pre.contents().remove(nb.addr));
        }
    }

    /// Finds the index of the live block at `addr`.
    fn find_live(&self, addr: usize) -> (i: usize)
        requires
            self.wf(),
            self.contents().dom().contains(addr),
        ensures
            i < self.blocks@.len(),
            self.blocks@[i as int].addr == addr,
            self.blocks@[i as int].live,
            i as int == self.index_of(addr),
            self.contents()[addr] == self.blocks@[i as int].data@,
    {
        proof {
            self.lemma_at(addr);
        }
        let n = self.blocks.len();
        let mut k: usize = 0;
        while k < n
            invariant
                n == self.blocks@.len(),
                k <= n,
                self.blocks_ordered(),
                self.is_live_addr(addr),
                forall|j: int|
                    0 <= j < k ==> !((#[trigger] self.blocks@[j]).addr == addr
                        && self.blocks@[j].live),
            decreases n - k,
        {
            if self.blocks[k].addr == addr && self.blocks[k].live {
                proof {
                    self.lemma_at(addr);
                }
                return k;
            }
            k += 1;
        }
        proof {
            self.lemma_at(addr);
            assert(false);
        }
        0
    }

    /// Model primitive: carves a fresh block of `size` bytes aligned to
    /// `align` out of unused address space, filled with `fill`.  Returns the
    /// sentinel `0` exactly when the block does not fit in the address
    /// space; never touches the counters or the failure switch.
    fn grab(&mut self, size: usize, align: usize, fill: u8) -> (r: usize)
        requires
            old(self).wf(),
            align >= 1,
        ensures
            final(self).wf(),
            final(self).n_default == old(self).n_default,
            final(self).n_aligned == old(self).n_aligned,
            final(self).fail_one == old(self).fail_one,
            (r == 0) <==> !spec_can_fit(old(self).cursor, size, align),
            r == 0 ==> *final(self) == *old(self),
            r != 0 ==> r == spec_round_up(old(self).cursor as int, align as int),
            r != 0 ==> r % align == 0,
            r != 0 ==> !old(self).contents().dom().contains(r),
            r != 0 ==> final(self).contents() == old(self).contents().insert(
                r,
                Seq::new(size as nat, |i: int| fill),
            ),
            r != 0 ==> final(self).cursor == r + size + 1,
    {
        let maybe = round_up(self.cursor, align);
        match maybe {
            None => 0,
            Some(base) => {
                if size < usize::MAX && base <= usize::MAX - size - 1 {
                    let data = filled_vec(size, fill);
                    let ghost pre = *self;
                    let blk = BlockRec { addr: base, data, live: true };
                    let ghost gblk = blk;
                    self.blocks.push(blk);
                    self.cursor = base + size + 1;
                    proof {
                        Self::lemma_push_contents(pre, *self, gblk);
                    }
                    base
                } else {
                    0
                }
            },
        }
    }

    /// Model primitive: retires the live block at `addr`; its address is
    /// never handed out again.
    fn kill(&mut self, addr: usize)
        requires
            old(self).wf(),
            old(self).contents().dom().contains(addr),
        ensures
            final(self).wf(),
            final(self).contents() == old(self).contents().remove(addr),
            final(self).n_default == old(self).n_default,
            final(self).n_aligned == old(self).n_aligned,
            final(self).fail_one == old(self).fail_one,
            final(self).cursor == old(self).cursor,
    {
        let i = self.find_live(addr);
        let ghost pre = *self;
        let mut blk = self.blocks.remove(i);
        blk.live = false;
        let ghost gblk = blk;
        self.blocks.insert(i, blk);
        proof {
            assert(self.blocks@ =~= pre.blocks@.update(i as int, gblk));
            Self::lemma_update_contents(pre, *self, i as int, gblk);
        }
    }

    /// Reads one byte of a live allocation.
    pub fn read_byte(&self, addr: usize, offset: usize) -> (v: u8)
        requires
            self.wf(),
            self.contents().dom().contains(addr),
            offset < self.contents()[addr].len(),
        ensures
            v == self.contents()[addr][offset as int],
    {
        let i = self.find_live(addr);
        self.blocks[i].data[offset]
    }

    /// Writes one byte of a live allocation; every other allocation is
    /// untouched.
    pub fn write_byte(&mut self, addr: usize, offset: usize, value: u8)
        requires
            old(self).wf(),
            old(self).contents().dom().contains(addr),
            offset < old(self).contents()[addr].len(),
        ensures
            final(self).wf(),
            final(self).contents() == old(self).contents().insert(
                addr,
                old(self).contents()[addr].update(offset as int, value),
            ),
            final(self).default_calls() == old(self).default_calls(),
            final(self).aligned_calls() == old(self).aligned_calls(),
            final(self).fail_forced() == old(self).fail_forced(),
            final(self).high_mark() == old(self).high_mark(),
    {
        let i = self.find_live(addr);
        let ghost pre = *self;
        let mut blk = self.blocks.remove(i);
        blk.data.set(offset, value);
        let ghost gblk = blk;
        self.blocks.insert(i, blk);
        proof {
            assert(self.blocks@ =~= pre.blocks@.update(i as int, gblk));
            Self::lemma_update_contents(pre, *self, i as int, gblk);
        }
    }

    /// Law: live allocations occupy pairwise disjoint address ranges, so
    /// writes through one allocation can never land inside another.
    pub proof fn lemma_live_ranges_disjoint(self, a: usize, b: usize)
        requires
            self.wf(),
            self.contents().dom().contains(a),
            self.contents().dom().contains(b),
            a != b,
        ensures
            a + self.contents()[a].len() <= b || b + self.contents()[b].len() <= a,
    {
        self.lemma_at(a);
        self.lemma_at(b);
        let i = self.index_of(a);
        let j = self.index_of(b);
        if i < j {
            assert(self.blocks@[i].addr + self.blocks@[i].data@.len() < self.blocks@[j].addr);
        } else {
            assert(self.blocks@[j].addr + self.blocks@[j].data@.len() < self.blocks@[i].addr);
        }
    }

    /// Zero-fills a live allocation of `size` bytes, one byte at a time.
    fn zero_fill(&mut self, addr: usize, size: usize)
        requires
            old(self).wf(),
            old(self).contents().dom().contains(addr),
            old(self).contents()[addr].len() == size,
        ensures
            final(self).wf(),
            final(self).contents() == old(self).contents().insert(addr, zero_block(size)),
            final(self).default_calls() == old(self).default_calls(),
            final(self).aligned_calls() == old(self).aligned_calls(),
            final(self).fail_forced() == old(self).fail_forced(),
            final(self).high_mark() == old(self).high_mark(),
    {
        let ghost orig = *self;
        proof {
            assert(self.contents() =~= orig.contents().insert(addr, self.contents()[addr]));
        }
        let mut k: usize = 0;
        while k < size
            invariant
                self.wf(),
                k <= size,
                self.contents().dom().contains(addr),
                self.contents()[addr].len() == size,
                forall|i: int| 0 <= i < k ==> self.contents()[addr][i] == 0u8,
                self.contents() == orig.contents().insert(addr, self.contents()[addr]),
                self.default_calls() == orig.default_calls(),
                self.aligned_calls() == orig.aligned_calls(),
                self.fail_forced() == orig.fail_forced(),
                self.high_mark() == orig.high_mark(),
            decreases size - k,
        {
            self.write_byte(addr, k, 0);
            proof {
                assert(self.contents() =~= orig.contents().insert(addr, self.contents()[addr]));
            }
            k += 1;
        }
        proof {
            assert(self.contents()[addr] =~= zero_block(size));
            assert(self.contents() =~= orig.contents().insert(addr, zero_block(size)));
        }
    }

    /// Model primitive composite: carves a fresh block of `new_size` bytes
    /// aligned to `align`, copies the old block's bytes up to the shorter of
    /// the two lengths, and retires the old block.  On failure the old block
    /// and everything else are untouched.
    fn move_block(&mut self, addr: usize, old_size: usize, new_size: usize, align: usize) -> (r:
        usize)
        requires
            old(self).wf(),
            align >= 1,
            old(self).contents().dom().contains(addr),
            old(self).contents()[addr].len() == old_size,
        ensures
            final(self).wf(),
            final(self).n_default == old(self).n_default,
            final(self).n_aligned == old(self).n_aligned,
            final(self).fail_one == old(self).fail_one,
            (r == 0) <==> !spec_can_fit(old(self).cursor, new_size, align),
            r == 0 ==> *final(self) == *old(self),
            r != 0 ==> {
                &&& r == spec_round_up(old(self).cursor as int, align as int)
                &&& r % align == 0
                &&& r != addr
                &&& !old(self).contents().dom().contains(r)
                &&& final(self).contents() == old(self).contents().remove(addr).insert(
                    r,
                    spec_moved_block(old(self).contents()[addr], new_size),
                )
                &&& final(self).cursor == r + new_size + 1
            },
    {
        let ghost orig = *self;
        let r = self.grab(new_size, align, FRESH_BYTE);
        if r == 0 {
            return 0;
        }
        let m = if old_size < new_size {
            old_size
        } else {
            new_size
        };
        let mut k: usize = 0;
        while k < m
            invariant
                self.wf(),
                k <= m,
                m <= old_size,
                m <= new_size,
                m == old_size || m == new_size,
                addr != r,
                r != 0,
                self.contents().dom().contains(addr),
                self.contents().dom().contains(r),
                !orig.contents().dom().contains(r),
                orig.contents().dom().contains(addr),
                self.contents()[addr] == orig.contents()[addr],
                orig.contents()[addr].len() == old_size,
                self.contents()[r].len() == new_size,
                forall|i: int| 0 <= i < k ==> self.contents()[r][i] == orig.contents()[addr][i],
                forall|i: int| k <= i < new_size ==> self.contents()[r][i] == FRESH_BYTE,
                self.contents() == orig.contents().insert(r, self.contents()[r]),
                self.n_default == orig.n_default,
                self.n_aligned == orig.n_aligned,
                self.fail_one == orig.fail_one,
                self.cursor == r + new_size + 1,
            decreases m - k,
        {
            let v = self.read_byte(addr, k);
            self.write_byte(r, k, v);
            proof {
                assert(self.contents() =~= orig.contents().insert(r, self.contents()[r]));
            }
            k += 1;
        }
        proof {
            assert(self.contents()[r] =~= spec_moved_block(orig.contents()[addr], new_size));
        }
        self.kill(addr);
        proof {
            assert(self.contents() =~= orig.contents().remove(addr).insert(
                r,
                spec_moved_block(orig.contents()[addr], new_size),
            ));
        }
        r
    }

    /// Allocates `layout.size` bytes at a `layout.align`-aligned address,
    /// or returns the sentinel `0`.
    ///
    /// The fast path issues one default-path platform call; the slow path
    /// one aligned-path call; an alignment above the platform bound fails
    /// without any call.  On success the address is fresh and aligned and
    /// the block holds fresh (uninitialized) bytes; on failure nothing but
    /// the counters and the armed failure switch changes.
    pub fn allocate(&mut self, layout: Layout) -> (r: usize)
        requires
            old(self).wf(),
            layout.wf(),
        ensures
            final(self).wf(),
            spec_alloc_plan(layout) == AllocPlan::UnsupportedAlign ==> r == 0 && *final(self)
                == *old(self),
            spec_alloc_plan(layout) == AllocPlan::Default ==> final(self).default_calls()
                == bumped(old(self).default_calls()) && final(self).aligned_calls() == old(self).aligned_calls(),
            spec_alloc_plan(layout) == AllocPlan::Aligned ==> final(self).aligned_calls()
                == bumped(old(self).aligned_calls()) && final(self).default_calls() == old(self).default_calls(),
            spec_alloc_plan(layout) != AllocPlan::UnsupportedAlign ==> {
                &&& !final(self).fail_forced()
                &&& (r != 0 <==> !old(self).fail_forced() && spec_can_fit(
                    old(self).high_mark(),
                    layout.size,
                    spec_used_align(layout),
                ))
                &&& (r == 0 ==> final(self).contents() == old(self).contents() && final(self).high_mark() == old(self).high_mark())
            },
            r != 0 ==> {
                &&& r == spec_round_up(
                    old(self).high_mark() as int,
                    spec_used_align(layout) as int,
                )
                &&& r % layout.align == 0
                &&& !old(self).contents().dom().contains(r)
                &&& final(self).contents() == old(self).contents().insert(
                    r,
                    fresh_block(layout.size),
                )
                &&& final(self).high_mark() == r + layout.size + 1
            },
    {
        match System::alloc_plan(layout) {
            AllocPlan::UnsupportedAlign => 0,
            AllocPlan::Default => {
                self.n_default = bump_counter(self.n_default);
                let ghost mid = *self;
                proof {
                    Self::lemma_same_blocks_same_contents(*old(self), mid);
                }
                if self.fail_one {
                    self.fail_one = false;
                    proof {
                        Self::lemma_same_blocks_same_contents(mid, *self);
                    }
                    0
                } else {
                    let r = self.grab(layout.size, MIN_ALIGN, FRESH_BYTE);
                    proof {
                        if r != 0 {
                            lemma_min_align_is_pow2();
                            lemma_pow2_at_least_one(layout.align);
                            lemma_pow2_divides(layout.align, MIN_ALIGN);
                            lemma_mod_zero_transitive(
                                r as int,
                                layout.align as int,
                                MIN_ALIGN as int,
                            );
                        }
                    }
                    r
                }
            },
            AllocPlan::Aligned => {
                proof {
                    lemma_pow2_at_least_one(layout.align);
                }
                self.n_aligned = bump_counter(self.n_aligned);
                let ghost mid = *self;
                proof {
                    Self::lemma_same_blocks_same_contents(*old(self), mid);
                }
                if self.fail_one {
                    self.fail_one = false;
                    proof {
                        Self::lemma_same_blocks_same_contents(mid, *self);
                    }
                    0
                } else {
                    self.grab(layout.size, layout.align, FRESH_BYTE)
                }
            },
        }
    }

    /// Allocates `layout.size` zero bytes at a `layout.align`-aligned
    /// address, or returns the sentinel `0`.
    ///
    /// The fast path issues one zero-filling default-path call; the slow
    /// path one aligned-path call and then zero-fills the block itself; a
    /// failure is propagated unchanged.
    pub fn allocate_zeroed(&mut self, layout: Layout) -> (r: usize)
        requires
            old(self).wf(),
            layout.wf(),
        ensures
            final(self).wf(),
            spec_alloc_plan(layout) == AllocPlan::UnsupportedAlign ==> r == 0 && *final(self)
                == *old(self),
            spec_alloc_plan(layout) == AllocPlan::Default ==> final(self).default_calls()
                == bumped(old(self).default_calls()) && final(self).aligned_calls() == old(self).aligned_calls(),
            spec_alloc_plan(layout) == AllocPlan::Aligned ==> final(self).aligned_calls()
                == bumped(old(self).aligned_calls()) && final(self).default_calls() == old(self).default_calls(),
            spec_alloc_plan(layout) != AllocPlan::UnsupportedAlign ==> {
                &&& !final(self).fail_forced()
                &&& (r != 0 <==> !old(self).fail_forced() && spec_can_fit(
                    old(self).high_mark(),
                    layout.size,
                    spec_used_align(layout),
                ))
                &&& (r == 0 ==> final(self).contents() == old(self).contents() && final(self).high_mark() == old(self).high_mark())
            },
            r != 0 ==> {
                &&& r == spec_round_up(
                    old(self).high_mark() as int,
                    spec_used_align(layout) as int,
                )
                &&& r % layout.align == 0
                &&& !old(self).contents().dom().contains(r)
                &&& final(self).contents() == old(self).contents().insert(
                    r,
                    zero_block(layout.size),
                )
                &&& final(self).high_mark() == r + layout.size + 1
            },
    {
        match System::alloc_plan(layout) {
            AllocPlan::UnsupportedAlign => 0,
            AllocPlan::Default => {
                self.n_default = bump_counter(self.n_default);
                let ghost mid = *self;
                proof {
                    Self::lemma_same_blocks_same_contents(*old(self), mid);
                }
                if self.fail_one {
                    self.fail_one = false;
                    proof {
                        Self::lemma_same_blocks_same_contents(mid, *self);
                    }
                    0
                } else {
                    let r = self.grab(layout.size, MIN_ALIGN, 0);
                    proof {
                        if r != 0 {
                            lemma_min_align_is_pow2();
                            lemma_pow2_at_least_one(layout.align);
                            lemma_pow2_divides(layout.align, MIN_ALIGN);
                            lemma_mod_zero_transitive(
                                r as int,
                                layout.align as int,
                                MIN_ALIGN as int,
                            );
                            assert(Seq::new(layout.size as nat, |i: int| 0u8) =~= zero_block(
                                layout.size,
                            ));
                        }
                    }
                    r
                }
            },
            AllocPlan::Aligned => {
                proof {
                    lemma_pow2_at_least_one(layout.align);
                }
                self.n_aligned = bump_counter(self.n_aligned);
                let ghost mid = *self;
                proof {
                    Self::lemma_same_blocks_same_contents(*old(self), mid);
                }
                if self.fail_one {
                    self.fail_one = false;
                    proof {
                        Self::lemma_same_blocks_same_contents(mid, *self);
                    }
                    0
                } else {
                    let r = self.grab(layout.size, layout.align, FRESH_BYTE);
                    if r != 0 {
                        self.zero_fill(r, layout.size);
                        proof {
                            assert(self.contents() =~= mid.contents().insert(
                                r,
                                zero_block(layout.size),
                            ));
                        }
                    }
                    r
                }
            },
        }
    }

    /// Releases a live allocation.  Delegates to the platform's release
    /// primitive, which needs the address alone; every other allocation is
    /// untouched, and the call cannot fail.
    pub fn deallocate(&mut self, addr: usize, layout: Layout)
        requires
            old(self).wf(),
            old(self).contents().dom().contains(addr),
            old(self).contents()[addr].len() == layout.size,
        ensures
            final(self).wf(),
            final(self).contents() == old(self).contents().remove(addr),
            final(self).default_calls() == old(self).default_calls(),
            final(self).aligned_calls() == old(self).aligned_calls(),
            final(self).fail_forced() == old(self).fail_forced(),
            final(self).high_mark() == old(self).high_mark(),
    {
        self.kill(addr);
    }

    /// Resizes a live allocation to `new_size` bytes, or returns the
    /// sentinel `0` with the old allocation untouched.
    ///
    /// When the old alignment still fits the default path against the new
    /// size, one native sized-reallocate call is issued; otherwise the
    /// manual allocate-copy-free fallback runs on the aligned path.  On
    /// success the bytes up to the shorter of the two sizes are preserved
    /// and the new address keeps the old alignment.
    pub fn reallocate(&mut self, addr: usize, old_layout: Layout, new_size: usize) -> (r: usize)
        requires
            old(self).wf(),
            old_layout.wf(),
            old(self).contents().dom().contains(addr),
            old(self).contents()[addr].len() == old_layout.size,
        ensures
            final(self).wf(),
            spec_realloc_plan(old_layout, new_size) == ReallocPlan::UnsupportedAlign ==> r == 0
                && *final(self) == *old(self),
            spec_realloc_plan(old_layout, new_size) == ReallocPlan::Native ==> final(self).default_calls() == bumped(old(self).default_calls()) && final(self).aligned_calls()
                == old(self).aligned_calls(),
            spec_realloc_plan(old_layout, new_size) == ReallocPlan::Fallback ==> final(self).aligned_calls() == bumped(old(self).aligned_calls()) && final(self).default_calls()
                == old(self).default_calls(),
            spec_realloc_plan(old_layout, new_size) != ReallocPlan::UnsupportedAlign ==> {
                &&& !final(self).fail_forced()
                &&& (r != 0 <==> !old(self).fail_forced() && spec_can_fit(
                    old(self).high_mark(),
                    new_size,
                    spec_realloc_align(old_layout, new_size),
                ))
                &&& (r == 0 ==> final(self).contents() == old(self).contents() && final(self).high_mark() == old(self).high_mark())
            },
            r != 0 ==> {
                &&& r == spec_round_up(
                    old(self).high_mark() as int,
                    spec_realloc_align(old_layout, new_size) as int,
                )
                &&& r % old_layout.align == 0
                &&& r != addr
                &&& !old(self).contents().dom().contains(r)
                &&& final(self).contents() == old(self).contents().remove(addr).insert(
                    r,
                    spec_moved_block(old(self).contents()[addr], new_size),
                )
                &&& forall|i: int|
                    0 <= i < old_layout.size && i < new_size ==> final(self).contents()[r][i]
                        == old(self).contents()[addr][i]
                &&& final(self).high_mark() == r + new_size + 1
            },
    {
        match System::realloc_plan(old_layout, new_size) {
            ReallocPlan::UnsupportedAlign => 0,
            ReallocPlan::Native => {
                self.n_default = bump_counter(self.n_default);
                let ghost mid = *self;
                proof {
                    Self::lemma_same_blocks_same_contents(*old(self), mid);
                }
                if self.fail_one {
                    self.fail_one = false;
                    proof {
                        Self::lemma_same_blocks_same_contents(mid, *self);
                    }
                    0
                } else {
                    let r = self.move_block(addr, old_layout.size, new_size, MIN_ALIGN);
                    proof {
                        if r != 0 {
                            lemma_min_align_is_pow2();
                            lemma_pow2_at_least_one(old_layout.align);
                            lemma_pow2_divides(old_layout.align, MIN_ALIGN);
                            lemma_mod_zero_transitive(
                                r as int,
                                old_layout.align as int,
                                MIN_ALIGN as int,
                            );
                        }
                    }
                    r
                }
            },
            ReallocPlan::Fallback => {
                proof {
                    lemma_pow2_at_least_one(old_layout.align);
                }
                self.n_aligned = bump_counter(self.n_aligned);
                let ghost mid = *self;
                proof {
                    Self::lemma_same_blocks_same_contents(*old(self), mid);
                }
                if self.fail_one {
                    self.fail_one = false;
                    proof {
                        Self::lemma_same_blocks_same_contents(mid, *self);
                    }
                    0
                } else {
                    self.move_block(addr, old_layout.size, new_size, old_layout.align)
                }
            },
        }
    }
}

/// Law: releasing one allocation and then carving any fresh one leaves every
/// other allocation present with its bytes unchanged.  Together with the
/// operations' postconditions — each touches the map only at the address it
/// releases or returns — no sequence of allocate, deallocate and reallocate
/// calls can disturb an allocation it was not handed.
pub proof fn lemma_unrelated_allocations_preserved(
    m: Map<usize, Seq<u8>>,
    freed: usize,
    carved: usize,
    bytes: Seq<u8>,
    other: usize,
)
    requires
        m.dom().contains(other),
        other != freed,
        other != carved,
    ensures
        m.remove(freed).insert(carved, bytes).dom().contains(other),
        m.remove(freed).insert(carved, bytes)[other] == m[other],
{
}

/// A saturating counter after one more call.
fn bump_counter(c: usize) -> (r: usize)
    ensures
        r == bumped(c),
{
    if c == usize::MAX {
        c
    } else {
        c + 1
    }
}

/// A vector of `size` copies of `fill`.
fn filled_vec(size: usize, fill: u8) -> (v: Vec<u8>)
    ensures
        v@ == Seq::new(size as nat, |i: int| fill),
{
    let mut v: Vec<u8> = Vec::new();
    let mut k: usize = 0;
    while k < size
        invariant
            k <= size,
            v@.len() == k,
            forall|i: int| 0 <= i < k ==> v@[i] == fill,
        decreases size - k,
    {
        v.push(fill);
        k += 1;
    }
    proof {
        assert(v@ =~= Seq::new(size as nat, |i: int| fill));
    }
    v
}

} // verus!
