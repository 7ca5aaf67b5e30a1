//! Block table manager: owns the allocator and, for every live sequence,
//! the ordered list of blocks backing it and its context length. It grows
//! sequences one token at a time, frees them wholesale, and materialises
//! the slot-mapping and block-table tensors the attention kernel reads.
//!
//! Its invariant carries the two global laws of the cache: live sequences
//! own pairwise disjoint blocks (so no two sequences ever share a slot),
//! and every block is either free or owned by exactly one sequence (so
//! free plus owned equals the pool).

use vstd::prelude::*;

use crate::allocator::AllocError;
use crate::allocator::BlockAllocator;

verus! {

/// The blocks backing one live sequence: the k-th token of the sequence
/// lives in block `block_ids[k / block_size]` at offset `k % block_size`.
pub struct SequenceBlockTable {
    pub seq_id: u64,
    pub block_ids: Vec<usize>,
    pub context_len: usize,
}

/// Sum of the block counts of all live sequences.
pub open spec fn total_blocks(s: Seq<SequenceBlockTable>) -> int
    decreases s.len(),
{
    if s.len() == 0 {
        0
    } else {
        total_blocks(s.drop_last()) + s.last().block_ids@.len()
    }
}

pub proof fn lemma_total_blocks_push(s: Seq<SequenceBlockTable>, e: SequenceBlockTable)
    ensures
        total_blocks(s.push(e)) == total_blocks(s) + e.block_ids@.len(),
{
    assert(s.push(e).drop_last() =~= s);
}

pub proof fn lemma_total_blocks_remove(s: Seq<SequenceBlockTable>, i: int)
    requires
        0 <= i < s.len(),
    ensures
        total_blocks(s.remove(i)) == total_blocks(s) - s[i].block_ids@.len(),
    decreases s.len(),
{
    if i == s.len() - 1 {
        assert(s.remove(i) =~= s.drop_last());
    } else {
        lemma_total_blocks_remove(s.drop_last(), i);
        assert(s.remove(i).drop_last() =~= s.drop_last().remove(i));
        assert(s.remove(i).last() == s.last());
    }
}

pub proof fn lemma_total_blocks_update(s: Seq<SequenceBlockTable>, i: int, e: SequenceBlockTable)
    requires
        0 <= i < s.len(),
    ensures
        total_blocks(s.update(i, e)) == total_blocks(s) - s[i].block_ids@.len()
            + e.block_ids@.len(),
    decreases s.len(),
{
    if i == s.len() - 1 {
        assert(s.update(i, e).drop_last() =~= s.drop_last());
        assert(s.update(i, e).last() == e);
    } else {
        lemma_total_blocks_update(s.drop_last(), i, e);
        assert(s.update(i, e).drop_last() =~= s.drop_last().update(i, e));
        assert(s.update(i, e).last() == s.last());
    }
}


/// The sum of the live block counts dominates every single one.
pub proof fn lemma_total_blocks_component(s: Seq<SequenceBlockTable>, i: int)
    requires
        0 <= i < s.len(),
    ensures
        total_blocks(s) >= s[i].block_ids@.len(),
    decreases s.len(),
{
    lemma_total_blocks_nonneg(s.drop_last());
    if i < s.len() - 1 {
        lemma_total_blocks_component(s.drop_last(), i);
    }
}

pub proof fn lemma_total_blocks_nonneg(s: Seq<SequenceBlockTable>)
    ensures
        total_blocks(s) >= 0,
    decreases s.len(),
{
    if s.len() > 0 {
        lemma_total_blocks_nonneg(s.drop_last());
    }
}

pub struct BlockTableManager {
    block_size: usize,
    allocator: BlockAllocator,
    seqs: Vec<SequenceBlockTable>,
}

impl BlockTableManager {
    /// Tokens per block.
    pub closed spec fn spec_block_size(&self) -> int {
        self.block_size as int
    }

    /// Total number of blocks in the pool.
    pub closed spec fn spec_num_total(&self) -> int {
        self.allocator.spec_num_total()
    }

    /// The allocator's stack of free block IDs.
    pub closed spec fn spec_free_ids(&self) -> Seq<usize> {
        self.allocator.free_ids()
    }

    /// Number of free blocks.
    pub open spec fn spec_num_free(&self) -> int {
        self.spec_free_ids().len() as int
    }

    /// The IDs of the live sequences, in insertion order.
    pub closed spec fn spec_seq_ids(&self) -> Seq<u64> {
        self.seqs@.map(|i: int, e: SequenceBlockTable| e.seq_id)
    }

    /// Number of live sequences.
    pub open spec fn spec_num_seqs(&self) -> int {
        self.spec_seq_ids().len() as int
    }

    /// The block list of the sequence at slot `s` of the live list.
    pub closed spec fn spec_blocks_at(&self, s: int) -> Seq<usize> {
        self.seqs@[s].block_ids@
    }

    /// The context length of the sequence at slot `s` of the live list.
    pub closed spec fn spec_ctx_at(&self, s: int) -> int {
        self.seqs@[s].context_len as int
    }

    /// Whether a sequence with this ID is live.
    pub open spec fn spec_has_seq(&self, seq_id: u64) -> bool {
        self.spec_seq_ids().contains(seq_id)
    }

    /// The slot of a live sequence ID in the live list (IDs are unique).
    pub open spec fn spec_index_of(&self, seq_id: u64) -> int {
        self.spec_seq_ids().index_of(seq_id)
    }

    /// Blocks owned by all live sequences together.
    pub closed spec fn spec_total_seq_blocks(&self) -> int {
        total_blocks(self.seqs@)
    }

    /// Whether the allocator currently marks block `b` allocated.
    pub closed spec fn spec_is_block_allocated(&self, b: int) -> bool {
        self.allocator.spec_is_allocated(b)
    }

    /// One live entry is well formed: it owns at least one block, its
    /// context length fills the last block partially or fully, its blocks
    /// are distinct and all marked allocated.
    pub closed spec fn entry_wf(&self, s: int) -> bool {
        let e = self.seqs@[s];
        &&& e.block_ids@.len() >= 1
        &&& e.context_len <= e.block_ids@.len() * self.block_size
        &&& e.context_len > (e.block_ids@.len() - 1) * self.block_size
        &&& e.block_ids@.no_duplicates()
        &&& forall|i: int|
            0 <= i < e.block_ids@.len() ==> self.allocator.spec_is_allocated(
                #[trigger] e.block_ids@[i] as int,
            )
    }

    /// The manager's invariant.
    pub closed spec fn wf(&self) -> bool {
        &&& self.allocator.wf()
        &&& self.block_size >= 1
        &&& self.allocator.spec_num_total() * self.block_size <= i64::MAX
        &&& self.allocator.spec_num_total() * self.block_size < usize::MAX
        &&& self.spec_seq_ids().no_duplicates()
        &&& forall|s: int| 0 <= s < self.seqs@.len() ==> self.entry_wf(s)
        &&& forall|s1: int, s2: int, i1: int, i2: int|
            0 <= s1 < self.seqs@.len() && 0 <= s2 < self.seqs@.len() && s1 != s2 && 0 <= i1
                < self.seqs@[s1].block_ids@.len() && 0 <= i2 < self.seqs@[s2].block_ids@.len()
                ==> #[trigger] self.seqs@[s1].block_ids@[i1] != #[trigger] self.seqs@[s2].block_ids@[i2]
        &&& self.allocator.free_ids().len() + total_blocks(self.seqs@)
            == self.allocator.spec_num_total()
    }

    /// Bounds that follow from the invariant, in terms of the public view.
    pub proof fn lemma_wf_bounds(&self, s: int)
        requires
            self.wf(),
            0 <= s < self.spec_num_seqs(),
        ensures
            self.spec_blocks_at(s).len() >= 1,
            self.spec_ctx_at(s) <= self.spec_blocks_at(s).len() * self.spec_block_size(),
            self.spec_ctx_at(s) > (self.spec_blocks_at(s).len() - 1) * self.spec_block_size(),
            self.spec_blocks_at(s).no_duplicates(),
            forall|i: int|
                0 <= i < self.spec_blocks_at(s).len() ==> (#[trigger] self.spec_blocks_at(s)[i])
                    < self.spec_num_total(),
    {
        assert(self.entry_wf(s));
        assert forall|i: int|
            0 <= i < self.spec_blocks_at(s).len() implies (#[trigger] self.spec_blocks_at(s)[i])
            < self.spec_num_total() by {
            self.allocator.lemma_allocated_in_range(self.seqs@[s].block_ids@[i] as int);
        }
    }

    /// A pool of `num_blocks` blocks of `block_size` token slots each, with
    /// no live sequence. Slot indices must fit the kernel's signed 64-bit
    /// tensor entries.
    pub fn new(block_size: usize, num_blocks: usize) -> (r: Self)
        requires
            block_size >= 1,
            num_blocks * block_size <= i64::MAX,
            num_blocks * block_size < usize::MAX,
        ensures
            r.wf(),
            r.spec_block_size() == block_size,
            r.spec_num_total() == num_blocks,
            r.spec_num_free() == num_blocks,
            r.spec_num_seqs() == 0,
            forall|i: int|
                0 <= i < num_blocks ==> #[trigger] r.spec_free_ids()[i] == num_blocks - 1 - i,
    {
        let allocator = BlockAllocator::new(num_blocks);
        BlockTableManager { block_size, allocator, seqs: Vec::new() }
    }

    /// Number of free blocks.
    pub fn num_free(&self) -> (r: usize)
        ensures
            r == self.spec_num_free(),
    {
        self.allocator.num_free()
    }

    /// Total number of blocks in the pool.
    pub fn num_total(&self) -> (r: usize)
        ensures
            r == self.spec_num_total(),
    {
        self.allocator.num_total()
    }

    /// Tokens per block.
    pub fn block_size(&self) -> (r: usize)
        ensures
            r == self.spec_block_size(),
    {
        self.block_size
    }

    /// Finds the live-list slot of a sequence ID.
    fn find_seq(&self, seq_id: u64) -> (r: Option<usize>)
        requires
            self.wf(),
        ensures
            match r {
                Some(pos) => self.spec_has_seq(seq_id) && pos == self.spec_index_of(seq_id) && pos
                    < self.spec_num_seqs() && self.spec_seq_ids()[pos as int] == seq_id,
                None => !self.spec_has_seq(seq_id),
            },
    {
        let n = self.seqs.len();
        let mut s: usize = 0;
        while s < n
            invariant
                self.wf(),
                s <= n,
                n == self.seqs@.len(),
                forall|q: int| 0 <= q < s ==> self.spec_seq_ids()[q] != seq_id,
            decreases n - s,
        {
            if self.seqs[s].seq_id == seq_id {
                proof {
                    let ids = self.spec_seq_ids();
                    assert(ids[s as int] == seq_id);
                    assert(ids.contains(seq_id));
                    let first = ids.index_of(seq_id);
                    assert(0 <= first < ids.len() && ids[first] == seq_id);
                    if first < s as int {
                        assert(ids[first] != ids[s as int]);
                        assert(false);
                    } else if first > s as int {
                        assert(ids[s as int] != ids[first]);
                        assert(false);
                    }
                }
                return Some(s);
            }
            s = s + 1;
        }
        proof {
            // A live ID would have an index, contradicting the full scan.
            if self.spec_has_seq(seq_id) {
                let q = self.spec_seq_ids().index_of(seq_id);
            }
        }
        None
    }

    /// Admits a new sequence of `num_tokens` prompt tokens, allocating
    /// `ceil(num_tokens / block_size)` blocks for it, all or nothing: when
    /// too few blocks are free, nothing changes and `OutOfBlocks` comes
    /// back. The blocks are the top of the free stack, in vend order.
    pub fn add_sequence(&mut self, seq_id: u64, num_tokens: usize) -> (r: Result<(), AllocError>)
        requires
            old(self).wf(),
            !old(self).spec_has_seq(seq_id),
            num_tokens >= 1,
        ensures
            final(self).wf(),
            final(self).spec_block_size() == old(self).spec_block_size(),
            final(self).spec_num_total() == old(self).spec_num_total(),
            ({
                let need = (num_tokens + old(self).spec_block_size() - 1)
                    / old(self).spec_block_size();
                if old(self).spec_num_free() < need {
                    &&& r == Err::<(), AllocError>(AllocError::OutOfBlocks)
                    &&& final(self).spec_seq_ids() == old(self).spec_seq_ids()
                    &&& final(self).spec_free_ids() == old(self).spec_free_ids()
                    &&& forall|s: int|
                        0 <= s < old(self).spec_num_seqs() ==> final(self).spec_blocks_at(s)
                            == old(self).spec_blocks_at(s) && final(self).spec_ctx_at(s) == old(
                            self,
                        ).spec_ctx_at(s)
                } else {
                    &&& r == Ok::<(), AllocError>(())
                    &&& final(self).spec_seq_ids() == old(self).spec_seq_ids().push(seq_id)
                    &&& final(self).spec_num_free() == old(self).spec_num_free() - need
                    &&& final(self).spec_ctx_at(old(self).spec_num_seqs()) == num_tokens
                    &&& final(self).spec_blocks_at(old(self).spec_num_seqs()).len() == need
                    &&& forall|i: int|
                        0 <= i < need ==> #[trigger] final(self).spec_blocks_at(
                            old(self).spec_num_seqs(),
                        )[i] == old(self).spec_free_ids()[old(self).spec_num_free() - 1 - i]
                    &&& forall|s: int|
                        0 <= s < old(self).spec_num_seqs() ==> final(self).spec_blocks_at(s)
                            == old(self).spec_blocks_at(s) && final(self).spec_ctx_at(s) == old(
                            self,
                        ).spec_ctx_at(s)
                }
            }),
    {
        let bs = self.block_size;
        let q = num_tokens / bs;
        let rem = num_tokens % bs;
        proof {
            assert(rem != 0 ==> q < usize::MAX) by (nonlinear_arith)
                requires
                    bs >= 1,
                    num_tokens <= usize::MAX,
                    q == num_tokens as int / bs as int,
                    rem == num_tokens as int % bs as int,
            ;
        }
        let need = if rem == 0 {
            q
        } else {
            q + 1
        };
        proof {
            assert(need == (num_tokens + bs - 1) / (bs as int)) by (nonlinear_arith)
                requires
                    bs >= 1,
                    num_tokens >= 1,
                    need == num_tokens as int / bs as int + (if num_tokens as int % bs as int == 0 {
                        0int
                    } else {
                        1int
                    }),
            ;
        }
        let ghost pre = *self;
        let blocks = match self.allocator.allocate_n(need) {
            Err(e) => {
                proof {
                    let new = *self;
                    assert forall|s: int| 0 <= s < new.seqs@.len() implies new.entry_wf(s) by {
                        assert(pre.entry_wf(s));
                    }
                }
                return Err(e);
            },
            Ok(blocks) => blocks,
        };
        proof {
            assert(need * bs < num_tokens + bs) by (nonlinear_arith)
                requires
                    bs >= 1,
                    num_tokens >= 1,
                    need == num_tokens as int / bs as int + (if num_tokens as int % bs as int == 0 {
                        0int
                    } else {
                        1int
                    }),
            ;
            assert(need * bs >= num_tokens) by (nonlinear_arith)
                requires
                    bs >= 1,
                    num_tokens >= 1,
                    need == num_tokens as int / bs as int + (if num_tokens as int % bs as int == 0 {
                        0int
                    } else {
                        1int
                    }),
            ;
            assert(need >= 1) by (nonlinear_arith)
                requires
                    bs >= 1,
                    num_tokens >= 1,
                    need * bs >= num_tokens,
            ;
        }
        let entry = SequenceBlockTable { seq_id, block_ids: blocks, context_len: num_tokens };
        self.seqs.push(entry);
        proof {
            let new = *self;
            lemma_total_blocks_push(pre.seqs@, new.seqs@.last());
            assert(new.spec_seq_ids() =~= pre.spec_seq_ids().push(seq_id));
            assert forall|q: int| 0 <= q < pre.spec_seq_ids().len()
                implies pre.spec_seq_ids()[q] != seq_id by {
                if pre.spec_seq_ids()[q] == seq_id {
                    assert(pre.spec_seq_ids().contains(seq_id));
                }
            }
            assert(new.spec_seq_ids().no_duplicates());
            pre.allocator.lemma_free_ids_distinct();
            // The new entry's blocks are distinct: they are distinct
            // positions of the old free stack.
            let nb = new.seqs@.last().block_ids@;
            assert forall|i1: int, i2: int|
                0 <= i1 < nb.len() && 0 <= i2 < nb.len() && i1 != i2 implies nb[i1] != nb[i2] by {
                assert(nb[i1] == pre.spec_free_ids()[pre.spec_num_free() - 1 - i1]);
                assert(nb[i2] == pre.spec_free_ids()[pre.spec_num_free() - 1 - i2]);
            }
            assert(nb.no_duplicates());
            // Disjointness and per-entry well-formedness carry over: old
            // entries hold blocks that were already allocated, while the
            // new entry's blocks were free before the call.
            assert forall|s: int| 0 <= s < new.seqs@.len() implies new.entry_wf(s) by {
                if s < pre.seqs@.len() {
                    assert(pre.entry_wf(s));
                    assert(new.seqs@[s] == pre.seqs@[s]);
                } else {
                    assert(new.seqs@[s] == new.seqs@.last());
                    assert(num_tokens <= nb.len() * bs);
                    assert(num_tokens > (nb.len() - 1) * bs) by (nonlinear_arith)
                        requires
                            bs >= 1,
                            num_tokens >= 1,
                            nb.len() == num_tokens as int / bs as int + (
                            if num_tokens as int % bs as int == 0 {
                                0int
                            } else {
                                1int
                            }),
                    ;
                }
            }
            assert forall|s1: int, s2: int, i1: int, i2: int|
                0 <= s1 < new.seqs@.len() && 0 <= s2 < new.seqs@.len() && s1 != s2 && 0 <= i1
                    < new.seqs@[s1].block_ids@.len() && 0 <= i2 < new.seqs@[s2].block_ids@.len()
                implies #[trigger] new.seqs@[s1].block_ids@[i1]
                != #[trigger] new.seqs@[s2].block_ids@[i2] by {
                if s1 < pre.seqs@.len() && s2 < pre.seqs@.len() {
                    assert(pre.seqs@[s1].block_ids@[i1] != pre.seqs@[s2].block_ids@[i2]);
                } else if s1 < pre.seqs@.len() {
                    assert(pre.entry_wf(s1));
                    assert(pre.allocator.spec_is_allocated(pre.seqs@[s1].block_ids@[i1] as int));
                    assert(!pre.allocator.spec_is_allocated(nb[i2] as int));
                } else {
                    assert(pre.entry_wf(s2));
                    assert(pre.allocator.spec_is_allocated(pre.seqs@[s2].block_ids@[i2] as int));
                    assert(!pre.allocator.spec_is_allocated(nb[i1] as int));
                }
            }
        }
        Ok(())
    }



    /// Context length of a live sequence.
    pub fn context_len_of(&self, seq_id: u64) -> (r: Option<usize>)
        requires
            self.wf(),
        ensures
            match r {
                Some(ctx) => self.spec_has_seq(seq_id) && ctx == self.spec_ctx_at(
                    self.spec_index_of(seq_id),
                ),
                None => !self.spec_has_seq(seq_id),
            },
    {
        match self.find_seq(seq_id) {
            None => None,
            Some(pos) => Some(self.seqs[pos].context_len),
        }
    }

    /// Number of blocks backing a live sequence.
    pub fn num_seq_blocks(&self, seq_id: u64) -> (r: Option<usize>)
        requires
            self.wf(),
        ensures
            match r {
                Some(c) => self.spec_has_seq(seq_id) && c == self.spec_blocks_at(
                    self.spec_index_of(seq_id),
                ).len(),
                None => !self.spec_has_seq(seq_id),
            },
    {
        match self.find_seq(seq_id) {
            None => None,
            Some(pos) => Some(self.seqs[pos].block_ids.len()),
        }
    }

    /// Extends a live sequence by one token. A fresh block is allocated
    /// exactly when the current context fills its blocks to the brim; the
    /// result is the flat slot index where the new token's K/V belongs.
    /// When a block is needed and none is free, nothing changes and
    /// `OutOfBlocks` comes back.
    pub fn append_slot(&mut self, seq_id: u64) -> (r: Result<usize, AllocError>)
        requires
            old(self).wf(),
            old(self).spec_has_seq(seq_id),
        ensures
            final(self).wf(),
            final(self).spec_block_size() == old(self).spec_block_size(),
            final(self).spec_num_total() == old(self).spec_num_total(),
            final(self).spec_seq_ids() == old(self).spec_seq_ids(),
            ({
                let pos = old(self).spec_index_of(seq_id);
                let ctx0 = old(self).spec_ctx_at(pos);
                let bs = old(self).spec_block_size();
                let frame = forall|s: int|
                    0 <= s < old(self).spec_num_seqs() && s != pos
                        ==> final(self).spec_blocks_at(s) == old(self).spec_blocks_at(s)
                        && final(self).spec_ctx_at(s) == old(self).spec_ctx_at(s);
                if ctx0 % bs == 0 {
                    if old(self).spec_num_free() == 0 {
                        &&& r == Err::<usize, AllocError>(AllocError::OutOfBlocks)
                        &&& final(self).spec_free_ids() == old(self).spec_free_ids()
                        &&& final(self).spec_blocks_at(pos) == old(self).spec_blocks_at(pos)
                        &&& final(self).spec_ctx_at(pos) == old(self).spec_ctx_at(pos)
                        &&& frame
                    } else {
                        let nb = old(self).spec_free_ids().last();
                        &&& r is Ok
                        &&& r.unwrap() == nb * bs
                        &&& final(self).spec_free_ids() == old(self).spec_free_ids().drop_last()
                        &&& final(self).spec_blocks_at(pos) == old(self).spec_blocks_at(pos).push(
                            nb,
                        )
                        &&& final(self).spec_ctx_at(pos) == ctx0 + 1
                        &&& frame
                    }
                } else {
                    &&& r is Ok
                    &&& r.unwrap() == crate::spec_slot_index(
                        old(self).spec_blocks_at(pos)[ctx0 / bs] as int,
                        bs,
                        ctx0 % bs,
                    )
                    &&& final(self).spec_free_ids() == old(self).spec_free_ids()
                    &&& final(self).spec_blocks_at(pos) == old(self).spec_blocks_at(pos)
                    &&& final(self).spec_ctx_at(pos) == ctx0 + 1
                    &&& frame
                }
            }),
    {
        let pos = match self.find_seq(seq_id) {
            None => {
                proof {
                    assert(false);
                }
                return Err(AllocError::NotAllocated);
            },
            Some(pos) => pos,
        };
        let bs = self.block_size;
        let ctx = self.seqs[pos].context_len;
        let ghost pre = *self;
        proof {
            assert(pre.entry_wf(pos as int));
            lemma_total_blocks_component(pre.seqs@, pos as int);
            assert(pre.seqs@[pos as int].block_ids@.len() * bs
                <= pre.allocator.spec_num_total() * bs) by (nonlinear_arith)
                requires
                    bs >= 1,
                    pre.seqs@[pos as int].block_ids@.len() <= pre.allocator.spec_num_total(),
            ;
            assert(ctx < usize::MAX);
        }
        if ctx % bs == 0 {
            // The context exactly fills its blocks: grow by one block.
            proof {
                let len = pre.seqs@[pos as int].block_ids@.len() as int;
                assert(ctx == len * bs) by (nonlinear_arith)
                    requires
                        bs >= 1,
                        len >= 1,
                        ctx as int % bs as int == 0,
                        ctx <= len * bs,
                        ctx > (len - 1) * bs,
                ;
            }
            let nb = match self.allocator.allocate() {
                Err(e) => {
                    proof {
                        let new = *self;
                        assert forall|s: int| 0 <= s < new.seqs@.len() implies new.entry_wf(s) by {
                            assert(pre.entry_wf(s));
                        }
                    }
                    return Err(e);
                },
                Ok(nb) => nb,
            };
            let mut entry = self.seqs.remove(pos);
            entry.block_ids.push(nb);
            entry.context_len = ctx + 1;
            self.seqs.insert(pos, entry);
            proof {
                let new = *self;
                assert(new.seqs@ =~= pre.seqs@.update(pos as int, new.seqs@[pos as int]));
                lemma_total_blocks_update(pre.seqs@, pos as int, new.seqs@[pos as int]);
                assert(new.spec_seq_ids() =~= pre.spec_seq_ids());
                let e = new.seqs@[pos as int];
                let len0 = pre.seqs@[pos as int].block_ids@.len() as int;
                assert(e.block_ids@ == pre.seqs@[pos as int].block_ids@.push(nb));
                assert(e.context_len == ctx + 1);
                assert(ctx + 1 <= (len0 + 1) * bs && ctx + 1 > len0 * bs) by (nonlinear_arith)
                    requires
                        bs >= 1,
                        ctx == len0 * bs,
                ;
                assert forall|s: int| 0 <= s < new.seqs@.len() implies new.entry_wf(s) by {
                    assert(pre.entry_wf(s));
                    if s == pos {
                        assert forall|i1: int, i2: int|
                            0 <= i1 < e.block_ids@.len() && 0 <= i2 < e.block_ids@.len() && i1
                                != i2 implies e.block_ids@[i1] != e.block_ids@[i2] by {
                            if i1 < len0 && i2 < len0 {
                            } else if i1 == len0 {
                                assert(pre.allocator.spec_is_allocated(
                                    pre.seqs@[pos as int].block_ids@[i2] as int,
                                ));
                            } else {
                                assert(pre.allocator.spec_is_allocated(
                                    pre.seqs@[pos as int].block_ids@[i1] as int,
                                ));
                            }
                        }
                        assert(e.block_ids@.no_duplicates());
                    } else {
                        assert(new.seqs@[s] == pre.seqs@[s]);
                    }
                }
                assert forall|s1: int, s2: int, i1: int, i2: int|
                    0 <= s1 < new.seqs@.len() && 0 <= s2 < new.seqs@.len() && s1 != s2 && 0 <= i1
                        < new.seqs@[s1].block_ids@.len() && 0 <= i2
                        < new.seqs@[s2].block_ids@.len()
                    implies #[trigger] new.seqs@[s1].block_ids@[i1]
                    != #[trigger] new.seqs@[s2].block_ids@[i2] by {
                    if s1 == pos && i1 == len0 {
                        assert(pre.entry_wf(s2));
                        assert(new.seqs@[s2] == pre.seqs@[s2]);
                        assert(pre.allocator.spec_is_allocated(
                            pre.seqs@[s2].block_ids@[i2] as int,
                        ));
                    } else if s2 == pos && i2 == len0 {
                        assert(pre.entry_wf(s1));
                        assert(new.seqs@[s1] == pre.seqs@[s1]);
                        assert(pre.allocator.spec_is_allocated(
                            pre.seqs@[s1].block_ids@[i1] as int,
                        ));
                    } else {
                        assert(new.seqs@[s1].block_ids@[i1] == pre.seqs@[s1].block_ids@[i1]);
                        assert(new.seqs@[s2].block_ids@[i2] == pre.seqs@[s2].block_ids@[i2]);
                    }
                }
                pre.allocator.lemma_free_id_bounds(pre.allocator.free_ids().len() - 1);
                assert(nb < pre.allocator.spec_num_total());
                assert(nb * bs + bs <= pre.allocator.spec_num_total() * bs) by (nonlinear_arith)
                    requires
                        bs >= 1,
                        nb as int + 1 <= pre.allocator.spec_num_total(),
                ;
            }
            Ok(nb * bs)
        } else {
            // Room in the last block: place the token at the next offset.
            let bidx = ctx / bs;
            proof {
                let len0 = pre.seqs@[pos as int].block_ids@.len() as int;
                vstd::arithmetic::div_mod::lemma_fundamental_div_mod(ctx as int, bs as int);
                vstd::arithmetic::div_mod::lemma_mod_bound(ctx as int, bs as int);
                vstd::arithmetic::div_mod::lemma_mod_multiples_basic(len0, bs as int);
                assert(ctx < len0 * bs);
                assert(bidx < len0) by (nonlinear_arith)
                    requires
                        bs >= 1,
                        ctx < len0 * bs,
                        ctx >= 0,
                        ctx as int == (bs as int) * (ctx as int / (bs as int)) + (ctx as int % (
                        bs as int)),
                        0 <= (ctx as int % (bs as int)) < bs,
                        bidx == ctx as int / (bs as int),
                ;
                let blk = pre.seqs@[pos as int].block_ids@[bidx as int];
                self.allocator.lemma_allocated_in_range(blk as int);
                assert(blk as int * bs + bs <= pre.allocator.spec_num_total() * bs)
                    by (nonlinear_arith)
                    requires
                        bs >= 1,
                        blk as int + 1 <= pre.allocator.spec_num_total(),
                ;
            }
            let slot = self.seqs[pos].block_ids[bidx] * bs + ctx % bs;
            let mut entry = self.seqs.remove(pos);
            entry.context_len = ctx + 1;
            self.seqs.insert(pos, entry);
            proof {
                let new = *self;
                assert(new.seqs@ =~= pre.seqs@.update(pos as int, new.seqs@[pos as int]));
                lemma_total_blocks_update(pre.seqs@, pos as int, new.seqs@[pos as int]);
                assert(new.spec_seq_ids() =~= pre.spec_seq_ids());
                let len0 = pre.seqs@[pos as int].block_ids@.len() as int;
                assert forall|s: int| 0 <= s < new.seqs@.len() implies new.entry_wf(s) by {
                    assert(pre.entry_wf(s));
                    if s == pos {
                        assert(ctx + 1 <= len0 * bs);
                    } else {
                        assert(new.seqs@[s] == pre.seqs@[s]);
                    }
                }
                assert forall|s1: int, s2: int, i1: int, i2: int|
                    0 <= s1 < new.seqs@.len() && 0 <= s2 < new.seqs@.len() && s1 != s2 && 0 <= i1
                        < new.seqs@[s1].block_ids@.len() && 0 <= i2
                        < new.seqs@[s2].block_ids@.len()
                    implies #[trigger] new.seqs@[s1].block_ids@[i1]
                    != #[trigger] new.seqs@[s2].block_ids@[i2] by {
                    assert(new.seqs@[s1].block_ids@[i1] == pre.seqs@[s1].block_ids@[i1]);
                    assert(new.seqs@[s2].block_ids@[i2] == pre.seqs@[s2].block_ids@[i2]);
                }
            }
            Ok(slot)
        }
    }

    /// Retires a live sequence and returns all its blocks to the pool, in
    /// the order the sequence held them.
    pub fn free_sequence(&mut self, seq_id: u64) -> (r: Result<(), AllocError>)
        requires
            old(self).wf(),
        ensures
            final(self).wf(),
            final(self).spec_block_size() == old(self).spec_block_size(),
            final(self).spec_num_total() == old(self).spec_num_total(),
            !old(self).spec_has_seq(seq_id) ==> r == Err::<(), AllocError>(
                AllocError::NotAllocated,
            ) && final(self).spec_seq_ids() == old(self).spec_seq_ids() && final(self).spec_free_ids() == old(self).spec_free_ids(),
            old(self).spec_has_seq(seq_id) ==> {
                let pos = old(self).spec_index_of(seq_id);
                &&& r == Ok::<(), AllocError>(())
                &&& final(self).spec_seq_ids() == old(self).spec_seq_ids().remove(pos)
                &&& final(self).spec_free_ids() == old(self).spec_free_ids() + old(
                    self,
                ).spec_blocks_at(pos)
                &&& forall|s: int|
                    0 <= s < pos ==> final(self).spec_blocks_at(s) == old(self).spec_blocks_at(s)
                        && final(self).spec_ctx_at(s) == old(self).spec_ctx_at(s)
                &&& forall|s: int|
                    pos < s < old(self).spec_num_seqs() ==> final(self).spec_blocks_at(s - 1)
                        == old(self).spec_blocks_at(s) && final(self).spec_ctx_at(s - 1) == old(
                        self,
                    ).spec_ctx_at(s)
            },
    {
        let pos = match self.find_seq(seq_id) {
            None => {
                return Err(AllocError::NotAllocated);
            },
            Some(pos) => pos,
        };
        let ghost pre = *self;
        let entry = self.seqs.remove(pos);
        proof {
            lemma_total_blocks_remove(pre.seqs@, pos as int);
            assert(self.spec_seq_ids() =~= pre.spec_seq_ids().remove(pos as int));
        }
        let n = entry.block_ids.len();
        let mut i: usize = 0;
        while i < n
            invariant
                i <= n,
                n == entry.block_ids@.len(),
                self.block_size == pre.block_size,
                self.seqs@ == pre.seqs@.remove(pos as int),
                0 <= pos < pre.seqs@.len(),
                entry == pre.seqs@[pos as int],
                pre.wf(),
                self.allocator.wf(),
                self.allocator.spec_num_total() == pre.allocator.spec_num_total(),
                self.allocator.free_ids() == pre.allocator.free_ids() + entry.block_ids@.take(
                    i as int,
                ),
                // Blocks of the removed entry beyond `i` are still allocated;
                // those before `i` are free now.
                forall|b: usize|
                    self.allocator.spec_is_allocated(b as int) <==> (
                    pre.allocator.spec_is_allocated(b as int) && !entry.block_ids@.take(
                        i as int,
                    ).contains(b)),
            decreases n - i,
        {
            let ghost alloc_pre = self.allocator;
            proof {
                assert(pre.entry_wf(pos as int));
                assert(entry.block_ids@[i as int] == pre.seqs@[pos as int].block_ids@[i as int]);
                assert(pre.allocator.spec_is_allocated(entry.block_ids@[i as int] as int));
                if entry.block_ids@.take(i as int).contains(entry.block_ids@[i as int]) {
                    let j = entry.block_ids@.take(i as int).lemma_contains_to_index(
                        entry.block_ids@[i as int],
                    );
                }
                assert(self.allocator.spec_is_allocated(entry.block_ids@[i as int] as int));
            }
            let res = self.allocator.free(entry.block_ids[i]);
            proof {
                assert(res is Ok);
                assert(self.allocator.free_ids() =~= pre.allocator.free_ids()
                    + entry.block_ids@.take(i + 1));
                assert forall|b: usize|
                    self.allocator.spec_is_allocated(b as int) <==> (
                    pre.allocator.spec_is_allocated(b as int) && !entry.block_ids@.take(
                        i + 1,
                    ).contains(b)) by {
                    let tk = entry.block_ids@.take(i + 1);
                    let tk0 = entry.block_ids@.take(i as int);
                    assert(tk =~= tk0.push(entry.block_ids@[i as int]));
                    if tk.contains(b) {
                        let j = tk.lemma_contains_to_index(b);
                        if j < i {
                            assert(tk0[j] == b);
                            assert(tk0.contains(b));
                        }
                    }
                    if tk0.contains(b) {
                        let j = tk0.lemma_contains_to_index(b);
                        assert(tk[j] == b);
                    }
                    assert(tk[i as int] == entry.block_ids@[i as int]);
                }
            }
            i = i + 1;
        }
        proof {
            let new = *self;
            assert(entry.block_ids@.take(n as int) =~= entry.block_ids@);
            assert(new.spec_free_ids() == pre.spec_free_ids() + pre.spec_blocks_at(pos as int));
            // Remaining entries are untouched and their blocks cannot be
            // among the freed ones, by disjointness.
            assert forall|s: int| 0 <= s < new.seqs@.len() implies new.entry_wf(s) by {
                let sp: int = if s < pos {
                    s
                } else {
                    s + 1
                };
                assert(pre.entry_wf(sp));
                assert(new.seqs@[s] == pre.seqs@[sp]);
                assert forall|i2: int|
                    0 <= i2 < new.seqs@[s].block_ids@.len() implies new.allocator.spec_is_allocated(
                    #[trigger] new.seqs@[s].block_ids@[i2] as int,
                ) by {
                    assert(pre.allocator.spec_is_allocated(pre.seqs@[sp].block_ids@[i2] as int));
                    if entry.block_ids@.contains(new.seqs@[s].block_ids@[i2]) {
                        let j = entry.block_ids@.lemma_contains_to_index(
                            new.seqs@[s].block_ids@[i2],
                        );
                        assert(pre.seqs@[pos as int].block_ids@[j]
                            == pre.seqs@[sp].block_ids@[i2]);
                        assert(false);
                    }
                }
            }
            assert forall|s1: int, s2: int, i1: int, i2: int|
                0 <= s1 < new.seqs@.len() && 0 <= s2 < new.seqs@.len() && s1 != s2 && 0 <= i1
                    < new.seqs@[s1].block_ids@.len() && 0 <= i2 < new.seqs@[s2].block_ids@.len()
                implies #[trigger] new.seqs@[s1].block_ids@[i1]
                != #[trigger] new.seqs@[s2].block_ids@[i2] by {
                let sp1: int = if s1 < pos {
                    s1
                } else {
                    s1 + 1
                };
                let sp2: int = if s2 < pos {
                    s2
                } else {
                    s2 + 1
                };
                assert(new.seqs@[s1].block_ids@[i1] == pre.seqs@[sp1].block_ids@[i1]);
                assert(new.seqs@[s2].block_ids@[i2] == pre.seqs@[sp2].block_ids@[i2]);
            }
            assert forall|q1: int, q2: int|
                0 <= q1 < new.spec_seq_ids().len() && 0 <= q2 < new.spec_seq_ids().len() && q1
                    != q2 implies new.spec_seq_ids()[q1] != new.spec_seq_ids()[q2] by {
                let r1: int = if q1 < pos {
                    q1
                } else {
                    q1 + 1
                };
                let r2: int = if q2 < pos {
                    q2
                } else {
                    q2 + 1
                };
                assert(new.spec_seq_ids()[q1] == pre.spec_seq_ids()[r1]);
                assert(new.spec_seq_ids()[q2] == pre.spec_seq_ids()[r2]);
            }
            assert(new.spec_seq_ids().no_duplicates());
        }
        Ok(())
    }
}


/// The per-step bundle the scheduler hands to the model forward pass:
/// where each new token's K/V is written (`-1` marks padding), each row's
/// block table padded rectangular with `-1`, each row's context length,
/// and the largest context in the batch for kernel tiling.
pub struct InputMetadata {
    pub slot_mapping: Vec<Vec<i64>>,
    pub block_tables: Vec<Vec<i64>>,
    pub context_lens: Vec<usize>,
    pub max_context_len: usize,
    pub is_prompt: bool,
}

/// The flat slot backing token `p` of the live sequence at slot `s`.
pub open spec fn spec_slot_of(m: &BlockTableManager, s: int, p: int) -> int {
    crate::spec_slot_index(
        m.spec_blocks_at(s)[p / m.spec_block_size()] as int,
        m.spec_block_size(),
        p % m.spec_block_size(),
    )
}

/// Largest block count among the batch rows.
pub open spec fn spec_max_blocks(m: &BlockTableManager, batch: Seq<u64>) -> int
    decreases batch.len(),
{
    if batch.len() == 0 {
        0
    } else {
        let rest = spec_max_blocks(m, batch.drop_last());
        let l = m.spec_blocks_at(m.spec_index_of(batch.last())).len() as int;
        if l > rest {
            l
        } else {
            rest
        }
    }
}

/// Largest context length among the batch rows.
pub open spec fn spec_max_ctx(m: &BlockTableManager, batch: Seq<u64>) -> int
    decreases batch.len(),
{
    if batch.len() == 0 {
        0
    } else {
        let rest = spec_max_ctx(m, batch.drop_last());
        let l = m.spec_ctx_at(m.spec_index_of(batch.last()));
        if l > rest {
            l
        } else {
            rest
        }
    }
}

impl BlockTableManager {
    /// The flat slot backing token `p` of the live sequence at slot `pos`,
    /// as the kernel's signed tensor entry.
    fn slot_at(&self, pos: usize, p: usize) -> (r: i64)
        requires
            self.wf(),
            pos < self.spec_num_seqs(),
            p < self.spec_ctx_at(pos as int),
        ensures
            r == spec_slot_of(self, pos as int, p as int),
            r >= 0,
    {
        let bs = self.block_size;
        let bidx = p / bs;
        proof {
            lemma_token_block_in_range(self, pos as int, p as int);
            assert(self.entry_wf(pos as int));
            let blk = self.seqs@[pos as int].block_ids@[bidx as int];
            self.allocator.lemma_allocated_in_range(blk as int);
            vstd::arithmetic::div_mod::lemma_mod_bound(p as int, bs as int);
            assert(blk as int * bs + bs <= self.allocator.spec_num_total() * bs)
                by (nonlinear_arith)
                requires
                    bs >= 1,
                    blk as int + 1 <= self.allocator.spec_num_total(),
            ;
        }
        let slot = self.seqs[pos].block_ids[bidx] * bs + p % bs;
        slot as i64
    }

    /// Materialises the tensors of one decoding step for the given batch
    /// rows, in batch order. For a prefill step the slot mapping covers
    /// every prompt position of each row; for a decode step it holds the
    /// single slot of each row's newest token. Rows are padded with `-1`
    /// to the widest row of the batch.
    pub fn build_metadata(&self, batch: &Vec<u64>, is_prompt: bool) -> (r: InputMetadata)
        requires
            self.wf(),
            forall|b: int| 0 <= b < batch@.len() ==> self.spec_has_seq(#[trigger] batch@[b]),
        ensures
            ({
                let w = spec_max_blocks(self, batch@);
                let tw: int = if is_prompt {
                    spec_max_ctx(self, batch@)
                } else {
                    1
                };
                &&& r.is_prompt == is_prompt
                &&& r.max_context_len == spec_max_ctx(self, batch@)
                &&& r.context_lens@.len() == batch@.len()
                &&& forall|b: int|
                    0 <= b < batch@.len() ==> #[trigger] r.context_lens@[b] == self.spec_ctx_at(
                        self.spec_index_of(batch@[b]),
                    )
                &&& r.block_tables@.len() == batch@.len()
                &&& forall|b: int|
                    0 <= b < batch@.len() ==> (#[trigger] r.block_tables@[b])@.len() == w
                &&& forall|b: int, i: int|
                    0 <= b < batch@.len() && 0 <= i < self.spec_blocks_at(
                        self.spec_index_of(batch@[b]),
                    ).len() ==> #[trigger] r.block_tables@[b]@[i] == self.spec_blocks_at(
                        self.spec_index_of(batch@[b]),
                    )[i]
                &&& forall|b: int, i: int|
                    0 <= b < batch@.len() && self.spec_blocks_at(
                        self.spec_index_of(batch@[b]),
                    ).len() <= i < w ==> #[trigger] r.block_tables@[b]@[i] == -1
                &&& r.slot_mapping@.len() == batch@.len()
                &&& forall|b: int|
                    0 <= b < batch@.len() ==> (#[trigger] r.slot_mapping@[b])@.len() == tw
                &&& is_prompt ==> forall|b: int, t: int|
                    0 <= b < batch@.len() && 0 <= t < self.spec_ctx_at(
                        self.spec_index_of(batch@[b]),
                    ) ==> #[trigger] r.slot_mapping@[b]@[t] == spec_slot_of(
                        self,
                        self.spec_index_of(batch@[b]),
                        t,
                    )
                &&& is_prompt ==> forall|b: int, t: int|
                    0 <= b < batch@.len() && self.spec_ctx_at(self.spec_index_of(batch@[b])) <= t
                        < tw ==> #[trigger] r.slot_mapping@[b]@[t] == -1
                &&& !is_prompt ==> forall|b: int|
                    0 <= b < batch@.len() ==> (#[trigger] r.slot_mapping@[b])@[0]
                        == spec_slot_of(
                        self,
                        self.spec_index_of(batch@[b]),
                        self.spec_ctx_at(self.spec_index_of(batch@[b])) - 1,
                    )
            }),
    {
        let n = batch.len();
        // Widest row and largest context of the batch.
        let mut w: usize = 0;
        let mut maxctx: usize = 0;
        let mut b: usize = 0;
        while b < n
            invariant
                b <= n,
                n == batch@.len(),
                self.wf(),
                forall|q: int| 0 <= q < n ==> self.spec_has_seq(#[trigger] batch@[q]),
                w == spec_max_blocks(self, batch@.take(b as int)),
                maxctx == spec_max_ctx(self, batch@.take(b as int)),
            decreases n - b,
        {
            let pos = match self.find_seq(batch[b]) {
                None => {
                    proof {
                        assert(false);
                    }
                    return InputMetadata {
                        slot_mapping: Vec::new(),
                        block_tables: Vec::new(),
                        context_lens: Vec::new(),
                        max_context_len: 0,
                        is_prompt,
                    };
                },
                Some(pos) => pos,
            };
            let blen = self.seqs[pos].block_ids.len();
            let ctx = self.seqs[pos].context_len;
            if blen > w {
                w = blen;
            }
            if ctx > maxctx {
                maxctx = ctx;
            }
            proof {
                assert(batch@.take(b + 1).drop_last() =~= batch@.take(b as int));
                assert(batch@.take(b + 1).last() == batch@[b as int]);
            }
            b = b + 1;
        }
        proof {
            assert(batch@.take(n as int) =~= batch@);
        }
        // The three tensors, row by row in batch order.
        let mut slot_mapping: Vec<Vec<i64>> = Vec::new();
        let mut block_tables: Vec<Vec<i64>> = Vec::new();
        let mut context_lens: Vec<usize> = Vec::new();
        let tw: usize = if is_prompt {
            maxctx
        } else {
            1
        };
        let mut b: usize = 0;
        while b < n
            invariant
                b <= n,
                n == batch@.len(),
                self.wf(),
                forall|q: int| 0 <= q < n ==> self.spec_has_seq(#[trigger] batch@[q]),
                w == spec_max_blocks(self, batch@),
                maxctx == spec_max_ctx(self, batch@),
                tw == if is_prompt {
                    spec_max_ctx(self, batch@)
                } else {
                    1int
                },
                context_lens@.len() == b,
                forall|q: int|
                    0 <= q < b ==> #[trigger] context_lens@[q] == self.spec_ctx_at(
                        self.spec_index_of(batch@[q]),
                    ),
                block_tables@.len() == b,
                forall|q: int| 0 <= q < b ==> (#[trigger] block_tables@[q])@.len() == w,
                forall|q: int, i: int|
                    0 <= q < b && 0 <= i < self.spec_blocks_at(
                        self.spec_index_of(batch@[q]),
                    ).len() ==> #[trigger] block_tables@[q]@[i] == self.spec_blocks_at(
                        self.spec_index_of(batch@[q]),
                    )[i]
                    ,
                forall|q: int, i: int|
                    0 <= q < b && self.spec_blocks_at(self.spec_index_of(batch@[q])).len() <= i
                        < w ==> #[trigger] block_tables@[q]@[i] == -1,
                slot_mapping@.len() == b,
                forall|q: int| 0 <= q < b ==> (#[trigger] slot_mapping@[q])@.len() == tw,
                is_prompt ==> forall|q: int, t: int|
                    0 <= q < b && 0 <= t < self.spec_ctx_at(self.spec_index_of(batch@[q]))
                        ==> #[trigger] slot_mapping@[q]@[t] == spec_slot_of(
                        self,
                        self.spec_index_of(batch@[q]),
                        t,
                    ),
                is_prompt ==> forall|q: int, t: int|
                    0 <= q < b && self.spec_ctx_at(self.spec_index_of(batch@[q])) <= t < tw
                        ==> #[trigger] slot_mapping@[q]@[t] == -1,
                !is_prompt ==> forall|q: int|
                    0 <= q < b ==> (#[trigger] slot_mapping@[q])@[0] == spec_slot_of(
                        self,
                        self.spec_index_of(batch@[q]),
                        self.spec_ctx_at(self.spec_index_of(batch@[q])) - 1,
                    ),
            decreases n - b,
        {
            let pos = match self.find_seq(batch[b]) {
                None => {
                    proof {
                        assert(false);
                    }
                    return InputMetadata {
                        slot_mapping: Vec::new(),
                        block_tables: Vec::new(),
                        context_lens: Vec::new(),
                        max_context_len: 0,
                        is_prompt,
                    };
                },
                Some(pos) => pos,
            };
            let ctx = self.seqs[pos].context_len;
            context_lens.push(ctx);
            // The row's block table, padded to the widest of the batch.
            proof {
                lemma_max_blocks_bound(self, batch@, b as int);
                assert(self.entry_wf(pos as int));
            }
            let blen = self.seqs[pos].block_ids.len();
            let mut row: Vec<i64> = Vec::new();
            let mut i: usize = 0;
            while i < blen
                invariant
                    i <= blen,
                    self.wf(),
                    pos < self.seqs@.len(),
                    blen == self.spec_blocks_at(pos as int).len(),
                    row@.len() == i,
                    forall|j: int|
                        0 <= j < i ==> #[trigger] row@[j] == self.spec_blocks_at(pos as int)[j],
                decreases blen - i,
            {
                proof {
                    assert(self.entry_wf(pos as int));
                    self.allocator.lemma_allocated_in_range(
                        self.seqs@[pos as int].block_ids@[i as int] as int,
                    );
                    let blk = self.seqs@[pos as int].block_ids@[i as int];
                    assert(blk as int <= blk as int * self.block_size) by (nonlinear_arith)
                        requires
                            self.block_size >= 1,
                            blk as int >= 0,
                    ;
                    assert(blk as int * self.block_size
                        <= self.allocator.spec_num_total() * self.block_size)
                        by (nonlinear_arith)
                        requires
                            self.block_size >= 1,
                            blk as int <= self.allocator.spec_num_total(),
                    ;
                }
                row.push(self.seqs[pos].block_ids[i] as i64);
                i = i + 1;
            }
            while i < w
                invariant
                    blen <= i <= w || (i == blen && blen >= w),
                    i >= blen,
                    i <= w || i == blen,
                    self.wf(),
                    pos < self.seqs@.len(),
                    blen == self.spec_blocks_at(pos as int).len(),
                    row@.len() == i,
                    forall|j: int|
                        0 <= j < blen ==> #[trigger] row@[j] == self.spec_blocks_at(pos as int)[j],
                    forall|j: int| blen <= j < i ==> #[trigger] row@[j] == -1,
                decreases w - i,
            {
                row.push(-1);
                i = i + 1;
            }
            block_tables.push(row);
            // The row's slot mapping.
            let mut srow: Vec<i64> = Vec::new();
            if is_prompt {
                let mut t: usize = 0;
                proof {
                    lemma_max_ctx_bound(self, batch@, b as int);
                }
                while t < ctx
                    invariant
                        t <= ctx,
                        self.wf(),
                        pos < self.seqs@.len(),
                        ctx == self.spec_ctx_at(pos as int),
                        srow@.len() == t,
                        forall|j: int|
                            0 <= j < t ==> #[trigger] srow@[j] == spec_slot_of(
                                self,
                                pos as int,
                                j,
                            ),
                    decreases ctx - t,
                {
                    srow.push(self.slot_at(pos, t));
                    t = t + 1;
                }
                while t < tw
                    invariant
                        t >= ctx,
                        t <= tw || t == ctx,
                        self.wf(),
                        pos < self.seqs@.len(),
                        ctx == self.spec_ctx_at(pos as int),
                        srow@.len() == t,
                        forall|j: int|
                            0 <= j < ctx ==> #[trigger] srow@[j] == spec_slot_of(
                                self,
                                pos as int,
                                j,
                            ),
                        forall|j: int| ctx <= j < t ==> #[trigger] srow@[j] == -1,
                    decreases tw - t,
                {
                    srow.push(-1);
                    t = t + 1;
                }
            } else {
                proof {
                    assert(self.entry_wf(pos as int));
                    assert(ctx >= 1) by (nonlinear_arith)
                        requires
                            ctx as int > (self.spec_blocks_at(pos as int).len() - 1)
                                * self.spec_block_size(),
                            self.spec_blocks_at(pos as int).len() >= 1,
                            self.spec_block_size() >= 1,
                    ;
                }
                srow.push(self.slot_at(pos, ctx - 1));
            }
            slot_mapping.push(srow);
            b = b + 1;
        }
        InputMetadata { slot_mapping, block_tables, context_lens, max_context_len: maxctx, is_prompt }
    }
}

/// Every batch row's block count is bounded by the batch maximum.
pub proof fn lemma_max_blocks_bound(m: &BlockTableManager, batch: Seq<u64>, b: int)
    requires
        0 <= b < batch.len(),
    ensures
        m.spec_blocks_at(m.spec_index_of(batch[b])).len() <= spec_max_blocks(m, batch),
    decreases batch.len(),
{
    if b == batch.len() - 1 {
    } else {
        lemma_max_blocks_bound(m, batch.drop_last(), b);
        assert(batch.drop_last()[b] == batch[b]);
    }
}

/// Every batch row's context length is bounded by the batch maximum.
pub proof fn lemma_max_ctx_bound(m: &BlockTableManager, batch: Seq<u64>, b: int)
    requires
        0 <= b < batch.len(),
    ensures
        m.spec_ctx_at(m.spec_index_of(batch[b])) <= spec_max_ctx(m, batch),
    decreases batch.len(),
{
    if b == batch.len() - 1 {
    } else {
        lemma_max_ctx_bound(m, batch.drop_last(), b);
        assert(batch.drop_last()[b] == batch[b]);
    }
}


/// Every slot the metadata can name lies inside a block that the naming
/// row itself owns and that the allocator marks allocated: the slot of
/// token `p` of the row at live slot `s` is built from that row's own
/// block list.
pub proof fn lemma_slot_ownership(m: &BlockTableManager, s: int, p: int)
    requires
        m.wf(),
        0 <= s < m.spec_num_seqs(),
        0 <= p < m.spec_ctx_at(s),
    ensures
        ({
            let bs = m.spec_block_size();
            let blk = m.spec_blocks_at(s)[p / bs];
            &&& m.spec_blocks_at(s).contains(blk)
            &&& m.spec_is_block_allocated(blk as int)
            &&& spec_slot_of(m, s, p) == blk * bs + p % bs
            &&& 0 <= spec_slot_of(m, s, p) < m.spec_num_total() * bs
        }),
{
    let bs = m.spec_block_size();
    lemma_token_block_in_range(m, s, p);
    assert(m.entry_wf(s));
    let blk = m.spec_blocks_at(s)[p / bs];
    m.allocator.lemma_allocated_in_range(blk as int);
    vstd::arithmetic::div_mod::lemma_mod_bound(p, bs);
    assert(0 <= blk as int * bs + p % bs < m.spec_num_total() * bs) by (nonlinear_arith)
        requires
            bs >= 1,
            0 <= blk as int + 1 <= m.spec_num_total(),
            0 <= p % bs < bs,
    ;
}

/// Slot uniqueness, across sequences and within one: the physical slot of
/// token `p1` of live sequence `s1` and that of token `p2` of live
/// sequence `s2` coincide only when both name the same token of the same
/// sequence. Distinct sequences own disjoint blocks, and within a sequence
/// distinct tokens land on a distinct block or a distinct offset.
pub proof fn lemma_slot_uniqueness(
    m: &BlockTableManager,
    s1: int,
    s2: int,
    p1: int,
    p2: int,
)
    requires
        m.wf(),
        0 <= s1 < m.spec_num_seqs(),
        0 <= s2 < m.spec_num_seqs(),
        0 <= p1 < m.spec_ctx_at(s1),
        0 <= p2 < m.spec_ctx_at(s2),
        (s1, p1) != (s2, p2),
    ensures
        crate::spec_slot_index(
            m.spec_blocks_at(s1)[p1 / m.spec_block_size()] as int,
            m.spec_block_size(),
            p1 % m.spec_block_size(),
        ) != crate::spec_slot_index(
            m.spec_blocks_at(s2)[p2 / m.spec_block_size()] as int,
            m.spec_block_size(),
            p2 % m.spec_block_size(),
        ),
{
    let bs = m.spec_block_size();
    m.lemma_wf_bounds(s1);
    m.lemma_wf_bounds(s2);
    lemma_token_block_in_range(m, s1, p1);
    lemma_token_block_in_range(m, s2, p2);
    let b1 = m.spec_blocks_at(s1)[p1 / bs] as int;
    let b2 = m.spec_blocks_at(s2)[p2 / bs] as int;
    let o1 = p1 % bs;
    let o2 = p2 % bs;
    vstd::arithmetic::div_mod::lemma_mod_bound(p1, bs);
    vstd::arithmetic::div_mod::lemma_mod_bound(p2, bs);
    let slot1 = b1 * bs + o1;
    let slot2 = b2 * bs + o2;
    vstd::arithmetic::div_mod::lemma_fundamental_div_mod_converse(slot1, bs, b1, o1);
    vstd::arithmetic::div_mod::lemma_fundamental_div_mod_converse(slot2, bs, b2, o2);
    if s1 != s2 {
        assert(b1 != b2);
        assert(slot1 / bs == b1 && slot2 / bs == b2);
    } else {
        assert(p1 != p2);
        vstd::arithmetic::div_mod::lemma_fundamental_div_mod(p1, bs);
        vstd::arithmetic::div_mod::lemma_fundamental_div_mod(p2, bs);
        if p1 / bs == p2 / bs {
            assert(o1 != o2);
            assert(slot1 % bs == o1 && slot2 % bs == o2);
        } else {
            assert(b1 != b2) by {
                let e = m.spec_blocks_at(s1);
                assert(e.no_duplicates());
            }
            assert(slot1 / bs == b1 && slot2 / bs == b2);
        }
    }
}

/// The block index a token position maps to lies inside the block list.
pub proof fn lemma_token_block_in_range(m: &BlockTableManager, s: int, p: int)
    requires
        m.wf(),
        0 <= s < m.spec_num_seqs(),
        0 <= p < m.spec_ctx_at(s),
    ensures
        0 <= p / m.spec_block_size() < m.spec_blocks_at(s).len(),
{
    let bs = m.spec_block_size();
    let len = m.spec_blocks_at(s).len() as int;
    m.lemma_wf_bounds(s);
    vstd::arithmetic::div_mod::lemma_fundamental_div_mod(p, bs);
    vstd::arithmetic::div_mod::lemma_mod_bound(p, bs);
    assert(p / bs >= 0) by {
        vstd::arithmetic::div_mod::lemma_div_pos_is_pos(p, bs);
    }
    assert(p / bs < len) by (nonlinear_arith)
        requires
            bs >= 1,
            p < len * bs,
            p >= 0,
            p == bs * (p / bs) + p % bs,
            0 <= p % bs < bs,
    ;
}

/// Allocator conservation: the free blocks and the blocks owned by live
/// sequences partition the pool, so their counts always sum to its size.
pub proof fn lemma_allocator_conservation(m: &BlockTableManager)
    requires
        m.wf(),
    ensures
        m.spec_num_free() + m.spec_total_seq_blocks() == m.spec_num_total(),
{
}

} // verus!
