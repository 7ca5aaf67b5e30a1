//! An index-level model of the paged KV cache and of the kernel's two
//! cache operations. The kernel moves per-token K and V vectors; what this
//! model verifies is the part the host is responsible for: which slot each
//! entry is written to and which slots a block-table walk reads back. An
//! entry here is one token's K and V payload, carried as two words.
//!
//! Also the host-side kernel dispatch: the single-pass attention kernel is
//! chosen for short contexts, and the partitioned two-pass kernel, which
//! splits the context dimension and then reduces, for long ones.

use vstd::prelude::*;

use crate::spec_slot_index;

verus! {

/// Context length above which the partitioned kernel is dispatched.
pub const MAX_SINGLE_PASS_CONTEXT: usize = 8192;

/// Context rows handled by one partition of the two-pass kernel.
pub const PARTITION_SIZE: usize = 512;

/// Whether the partitioned kernel must be used for this step.
pub fn use_partitioned_kernel(max_context_len: usize) -> (r: bool)
    ensures
        r == (max_context_len > MAX_SINGLE_PASS_CONTEXT),
{
    max_context_len > MAX_SINGLE_PASS_CONTEXT
}

/// Number of partitions the two-pass kernel splits a context into:
/// `ceil(max_context_len / PARTITION_SIZE)`.
pub fn num_partitions(max_context_len: usize) -> (r: usize)
    requires
        max_context_len <= usize::MAX - PARTITION_SIZE,
    ensures
        r == (max_context_len + PARTITION_SIZE - 1) / (PARTITION_SIZE as int),
        r * PARTITION_SIZE >= max_context_len,
        max_context_len > 0 ==> (r - 1) * PARTITION_SIZE < max_context_len,
{
    let r = (max_context_len + PARTITION_SIZE - 1) / PARTITION_SIZE;
    proof {
        assert(r * PARTITION_SIZE >= max_context_len && (max_context_len > 0 ==> (r - 1)
            * PARTITION_SIZE < max_context_len)) by (nonlinear_arith)
            requires
                r == (max_context_len + PARTITION_SIZE - 1) / (PARTITION_SIZE as int),
                max_context_len <= usize::MAX - PARTITION_SIZE,
        ;
    }
    r
}

/// One token's cached state: its key payload and its value payload.
#[derive(Clone, Copy, PartialEq, Eq, Structural, Debug)]
pub struct KvEntry {
    pub key: u64,
    pub value: u64,
}

/// The cache of one layer, slot by slot: entry `s` lives in block
/// `s / block_size` at offset `s % block_size`.
pub struct KvCacheModel {
    block_size: usize,
    num_blocks: usize,
    slots: Vec<KvEntry>,
}

/// Slot `s` is the target of some entry of the slot mapping.
pub open spec fn spec_slot_written(sm: Seq<i64>, s: int) -> bool {
    exists|i: int| 0 <= i < sm.len() && sm[i] == s
}

impl KvCacheModel {
    pub closed spec fn spec_block_size(&self) -> int {
        self.block_size as int
    }

    pub closed spec fn spec_num_blocks(&self) -> int {
        self.num_blocks as int
    }

    pub open spec fn spec_num_slots(&self) -> int {
        self.spec_num_blocks() * self.spec_block_size()
    }

    /// The cache contents, slot by slot.
    pub closed spec fn spec_slots(&self) -> Seq<KvEntry> {
        self.slots@
    }

    pub closed spec fn wf(&self) -> bool {
        &&& self.block_size >= 1
        &&& self.slots@.len() == self.num_blocks * self.block_size
    }

    /// An empty cache: every slot holds the zero entry.
    pub fn new(block_size: usize, num_blocks: usize) -> (r: Self)
        requires
            block_size >= 1,
            num_blocks * block_size <= usize::MAX,
        ensures
            r.wf(),
            r.spec_block_size() == block_size,
            r.spec_num_blocks() == num_blocks,
            forall|s: int|
                0 <= s < r.spec_num_slots() ==> #[trigger] r.spec_slots()[s] == (KvEntry {
                    key: 0,
                    value: 0,
                }),
    {
        proof {
            assert(num_blocks * block_size >= 0) by (nonlinear_arith)
                requires
                    block_size >= 1,
            ;
        }
        let n = num_blocks * block_size;
        let mut slots: Vec<KvEntry> = Vec::new();
        let mut i: usize = 0;
        while i < n
            invariant
                i <= n,
                slots@.len() == i,
                forall|s: int|
                    0 <= s < i ==> #[trigger] slots@[s] == (KvEntry { key: 0, value: 0 }),
            decreases n - i,
        {
            slots.push(KvEntry { key: 0, value: 0 });
            i = i + 1;
        }
        KvCacheModel { block_size, num_blocks, slots }
    }

    /// The kernel's cache write: entry `i` of this step's new K/V lands in
    /// block `slot_mapping[i] / block_size` at offset
    /// `slot_mapping[i] % block_size`; entries mapped to `-1` are skipped
    /// and every other slot keeps what it held. Two entries must not name
    /// the same slot in one call — the kernel's writes are parallel.
    pub fn reshape_and_cache(&mut self, entries: &Vec<KvEntry>, slot_mapping: &Vec<i64>)
        requires
            old(self).wf(),
            entries@.len() == slot_mapping@.len(),
            forall|i: int|
                0 <= i < slot_mapping@.len() ==> #[trigger] slot_mapping@[i] == -1 || (0
                    <= slot_mapping@[i] < old(self).spec_num_slots()),
            forall|i: int, j: int|
                0 <= i < slot_mapping@.len() && 0 <= j < slot_mapping@.len() && i != j
                    && #[trigger] slot_mapping@[i] >= 0 ==> slot_mapping@[i]
                    != #[trigger] slot_mapping@[j],
        ensures
            final(self).wf(),
            final(self).spec_block_size() == old(self).spec_block_size(),
            final(self).spec_num_blocks() == old(self).spec_num_blocks(),
            forall|i: int|
                0 <= i < slot_mapping@.len() && #[trigger] slot_mapping@[i] >= 0 ==> final(self).spec_slots()[slot_mapping@[i] as int] == entries@[i],
            forall|s: int|
                0 <= s < old(self).spec_num_slots() && !spec_slot_written(slot_mapping@, s)
                    ==> #[trigger] final(self).spec_slots()[s] == old(self).spec_slots()[s],
    {
        let n = slot_mapping.len();
        let nslots = self.slots.len();
        let mut i: usize = 0;
        while i < n
            invariant
                i <= n,
                n == slot_mapping@.len(),
                nslots == self.spec_slots().len(),
                self.spec_num_slots() == nslots,
                entries@.len() == slot_mapping@.len(),
                self.block_size == old(self).block_size,
                self.num_blocks == old(self).num_blocks,
                self.wf(),
                forall|q: int|
                    0 <= q < n ==> #[trigger] slot_mapping@[q] == -1 || (0 <= slot_mapping@[q]
                        < self.spec_num_slots()),
                forall|q: int, j: int|
                    0 <= q < n && 0 <= j < n && q != j && #[trigger] slot_mapping@[q] >= 0
                        ==> slot_mapping@[q] != #[trigger] slot_mapping@[j],
                forall|q: int|
                    0 <= q < i && #[trigger] slot_mapping@[q] >= 0 ==> self.spec_slots()[
                        slot_mapping@[q] as int] == entries@[q],
                forall|s: int|
                    0 <= s < self.spec_num_slots() && !spec_slot_written(
                        slot_mapping@.take(i as int),
                        s,
                    ) ==> #[trigger] self.spec_slots()[s] == old(self).spec_slots()[s],
            decreases n - i,
        {
            let ghost prev = *self;
            let slot = slot_mapping[i];
            if slot >= 0 {
                self.slots[slot as usize] = entries[i];
            }
            proof {
                if slot >= 0 {
                    assert(self.slots@ =~= prev.slots@.update(slot as int, entries@[i as int]));
                } else {
                    assert(self.slots@ =~= prev.slots@);
                }
                assert forall|q: int|
                    0 <= q < i + 1 && #[trigger] slot_mapping@[q] >= 0
                    implies self.spec_slots()[slot_mapping@[q] as int] == entries@[q] by {
                    if q < i {
                        assert(prev.spec_slots()[slot_mapping@[q] as int] == entries@[q]);
                        if slot >= 0 {
                            assert(slot_mapping@[q] != slot_mapping@[i as int]);
                        }
                    }
                }
                assert forall|s: int|
                    0 <= s < self.spec_num_slots() && !spec_slot_written(
                        slot_mapping@.take(i + 1),
                        s,
                    ) implies #[trigger] self.spec_slots()[s] == old(self).spec_slots()[s] by {
                    assert(slot_mapping@.take(i + 1)[i as int] == slot_mapping@[i as int]);
                    if spec_slot_written(slot_mapping@.take(i as int), s) {
                        let q = choose|q: int|
                            0 <= q < i && slot_mapping@.take(i as int)[q] == s;
                        assert(slot_mapping@.take(i + 1)[q] == s);
                        assert(false);
                    }
                    assert(prev.spec_slots()[s] == old(self).spec_slots()[s]);
                    assert(s != slot);
                }
            }
            i = i + 1;
        }
        proof {
            assert(slot_mapping@.take(n as int) =~= slot_mapping@);
        }
    }

    /// The kernel's cache read: walking a sequence's block table, token
    /// position `t` is read from block `block_table[t / block_size]` at
    /// offset `t % block_size` — the entries the attention kernel attends
    /// over, in position order.
    pub fn gather_sequence(&self, block_table: &Vec<usize>, context_len: usize) -> (r: Vec<
        KvEntry,
    >)
        requires
            self.wf(),
            context_len <= block_table@.len() * self.spec_block_size(),
            forall|b: int|
                0 <= b < block_table@.len() ==> (#[trigger] block_table@[b])
                    < self.spec_num_blocks(),
        ensures
            r@.len() == context_len,
            forall|t: int|
                0 <= t < context_len ==> #[trigger] r@[t] == self.spec_slots()[spec_slot_index(
                    block_table@[t / self.spec_block_size()] as int,
                    self.spec_block_size(),
                    t % self.spec_block_size(),
                )],
    {
        let bs = self.block_size;
        let nslots = self.slots.len();
        let mut r: Vec<KvEntry> = Vec::new();
        let mut t: usize = 0;
        while t < context_len
            invariant
                t <= context_len,
                bs == self.block_size,
                nslots == self.spec_slots().len(),
                self.spec_num_slots() == nslots,
                self.wf(),
                context_len <= block_table@.len() * self.spec_block_size(),
                forall|b: int|
                    0 <= b < block_table@.len() ==> (#[trigger] block_table@[b])
                        < self.spec_num_blocks(),
                r@.len() == t,
                forall|q: int|
                    0 <= q < t ==> #[trigger] r@[q] == self.spec_slots()[spec_slot_index(
                        block_table@[q / self.spec_block_size()] as int,
                        self.spec_block_size(),
                        q % self.spec_block_size(),
                    )],
            decreases context_len - t,
        {
            let bidx = t / bs;
            proof {
                vstd::arithmetic::div_mod::lemma_fundamental_div_mod(t as int, bs as int);
                vstd::arithmetic::div_mod::lemma_mod_bound(t as int, bs as int);
                assert(bidx < block_table@.len()) by (nonlinear_arith)
                    requires
                        bs >= 1,
                        (t as int) < block_table@.len() * (bs as int),
                        t >= 0,
                        t as int == (bs as int) * (t as int / (bs as int)) + (t as int % (
                        bs as int)),
                        0 <= (t as int % (bs as int)) < bs,
                        bidx == t as int / (bs as int),
                ;
                let blk = block_table@[bidx as int];
                assert(blk as int * bs + bs <= self.spec_num_blocks() * bs) by (nonlinear_arith)
                    requires
                        bs >= 1,
                        blk as int + 1 <= self.spec_num_blocks(),
                ;
            }
            let slot = block_table[bidx] * bs + t % bs;
            r.push(self.slots[slot]);
            t = t + 1;
        }
        r
    }
}

/// The grouped-query head mapping the attention kernel reads: query heads
/// share KV heads in contiguous groups, so query head `h` attends through
/// KV head `h / (num_heads / num_kv_heads)`.
pub fn build_head_mapping(num_heads: usize, num_kv_heads: usize) -> (r: Vec<u32>)
    requires
        1 <= num_kv_heads <= num_heads,
        num_heads % num_kv_heads == 0,
        num_heads <= u32::MAX,
    ensures
        r@.len() == num_heads,
        forall|h: int|
            0 <= h < num_heads ==> #[trigger] r@[h] == h / ((num_heads / num_kv_heads) as int),
{
    let group = num_heads / num_kv_heads;
    proof {
        assert(group >= 1) by (nonlinear_arith)
            requires
                1 <= num_kv_heads <= num_heads,
                group == num_heads as int / num_kv_heads as int,
        ;
    }
    let mut r: Vec<u32> = Vec::new();
    let mut h: usize = 0;
    while h < num_heads
        invariant
            h <= num_heads,
            num_heads <= u32::MAX,
            group >= 1,
            group == num_heads as int / (num_kv_heads as int),
            r@.len() == h,
            forall|q: int| 0 <= q < h ==> #[trigger] r@[q] == q / (group as int),
        decreases num_heads - h,
    {
        proof {
            vstd::arithmetic::div_mod::lemma_div_nonincreasing(h as int, group as int);
            vstd::arithmetic::div_mod::lemma_div_pos_is_pos(h as int, group as int);
        }
        r.push((h / group) as u32);
        h = h + 1;
    }
    r
}

/// For a sequence shorter than one block, the paged read degenerates to a
/// dense one: walking the block table reads the contiguous prefix of the
/// sequence's single block, position by position — the index-level half
/// of "paged attention equals dense attention on short sequences" (the
/// kernels' floating-point halves are outside this model).
pub proof fn lemma_single_block_walk_is_dense(
    cache: &KvCacheModel,
    block_table: Seq<usize>,
    read: Seq<KvEntry>,
    t: int,
)
    requires
        cache.wf(),
        block_table.len() >= 1,
        read.len() <= cache.spec_block_size(),
        forall|q: int|
            0 <= q < read.len() ==> #[trigger] read[q] == cache.spec_slots()[spec_slot_index(
                block_table[q / cache.spec_block_size()] as int,
                cache.spec_block_size(),
                q % cache.spec_block_size(),
            )],
        0 <= t < read.len(),
    ensures
        read[t] == cache.spec_slots()[block_table[0] as int * cache.spec_block_size() + t],
{
    vstd::arithmetic::div_mod::lemma_basic_div(t, cache.spec_block_size());
    vstd::arithmetic::div_mod::lemma_small_mod(t as nat, cache.spec_block_size() as nat);
}

/// Cache round trip: after a write with distinct nonnegative slots, a
/// block-table read that walks onto slot `slot_mapping[i]` at position `t`
/// returns entry `i` exactly as written. The write's contract places the
/// entry at its slot, and the read's contract returns the slot's content.
pub proof fn lemma_cache_round_trip(
    cache: &KvCacheModel,
    entries: Seq<KvEntry>,
    slot_mapping: Seq<i64>,
    block_table: Seq<usize>,
    read: Seq<KvEntry>,
    t: int,
    i: int,
)
    requires
        cache.wf(),
        // what reshape_and_cache guarantees of the cache afterwards
        forall|q: int|
            0 <= q < slot_mapping.len() && #[trigger] slot_mapping[q] >= 0
                ==> cache.spec_slots()[slot_mapping[q] as int] == entries[q],
        // what gather_sequence returned
        read.len() <= block_table.len() * cache.spec_block_size(),
        forall|q: int|
            0 <= q < read.len() ==> #[trigger] read[q] == cache.spec_slots()[spec_slot_index(
                block_table[q / cache.spec_block_size()] as int,
                cache.spec_block_size(),
                q % cache.spec_block_size(),
            )],
        // position t of the walk lands on the slot entry i was written to
        0 <= t < read.len(),
        0 <= i < slot_mapping.len(),
        slot_mapping[i] >= 0,
        spec_slot_index(
            block_table[t / cache.spec_block_size()] as int,
            cache.spec_block_size(),
            t % cache.spec_block_size(),
        ) == slot_mapping[i],
    ensures
        read[t] == entries[i],
{
}

} // verus!
