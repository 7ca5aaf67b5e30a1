//! Block allocator: owns the fixed pool of KV-cache blocks and vends block
//! IDs to sequences. Blocks are identified by integers dense in
//! `[0, num_total)`; the allocator keeps a stack of free IDs, so allocation
//! order is deterministic for a given call trace.

use vstd::prelude::*;

verus! {

/// Errors of the allocator: the pool is exhausted, or a block was handed
/// back that is not currently allocated (a double free or a bad ID).
#[derive(Clone, Copy, PartialEq, Eq, Structural, Debug)]
pub enum AllocError {
    OutOfBlocks,
    NotAllocated,
}

pub struct BlockAllocator {
    /// Stack of free block IDs; the last element is vended next.
    free_list: Vec<usize>,
    /// `allocated[b]` is true iff block `b` is currently handed out.
    allocated: Vec<bool>,
}

impl BlockAllocator {
    /// Total number of blocks in the pool (fixed at construction).
    pub closed spec fn spec_num_total(&self) -> int {
        self.allocated@.len() as int
    }

    /// The stack of free block IDs, bottom first.
    pub closed spec fn free_ids(&self) -> Seq<usize> {
        self.free_list@
    }

    /// Whether block `b` is currently allocated.
    pub closed spec fn spec_is_allocated(&self, b: int) -> bool {
        0 <= b < self.allocated@.len() && self.allocated@[b]
    }

    /// Structural invariant: the free stack holds exactly the IDs of the
    /// pool that are not allocated, each once.
    pub closed spec fn wf(&self) -> bool {
        &&& self.free_list@.no_duplicates()
        &&& forall|i: int|
            0 <= i < self.free_list@.len() ==> #[trigger] self.free_list@[i]
                < self.allocated@.len() && !self.allocated@[self.free_list@[i] as int]
        &&& forall|b: usize|
            b < self.allocated@.len() && !self.allocated@[b as int] ==> self.free_list@.contains(b)
    }

    /// An allocated block lies inside the pool.
    pub proof fn lemma_allocated_in_range(&self, b: int)
        requires
            self.spec_is_allocated(b),
        ensures
            0 <= b < self.spec_num_total(),
    {
    }

    /// The free stack never lists a block twice.
    pub proof fn lemma_free_ids_distinct(&self)
        requires
            self.wf(),
        ensures
            self.free_ids().no_duplicates(),
    {
    }

    /// A free ID is inside the pool and not allocated.
    pub proof fn lemma_free_id_bounds(&self, i: int)
        requires
            self.wf(),
            0 <= i < self.free_ids().len(),
        ensures
            self.free_ids()[i] < self.spec_num_total(),
            !self.spec_is_allocated(self.free_ids()[i] as int),
    {
    }

    /// Creates a pool of `num_blocks` blocks, all free. The free stack is
    /// seeded in descending order so that blocks are vended as 0, 1, 2, ...
    pub fn new(num_blocks: usize) -> (r: Self)
        ensures
            r.wf(),
            r.spec_num_total() == num_blocks,
            r.free_ids().len() == num_blocks,
            forall|i: int| 0 <= i < num_blocks ==> #[trigger] r.free_ids()[i] == num_blocks - 1 - i,
            forall|b: int| !r.spec_is_allocated(b),
    {
        let mut free_list: Vec<usize> = Vec::new();
        let mut allocated: Vec<bool> = Vec::new();
        let mut i: usize = 0;
        while i < num_blocks
            invariant
                i <= num_blocks,
                free_list@.len() == i,
                allocated@.len() == i,
                forall|j: int| 0 <= j < i ==> #[trigger] free_list@[j] == num_blocks - 1 - j,
                forall|j: int| 0 <= j < i ==> !allocated@[j],
            decreases num_blocks - i,
        {
            free_list.push(num_blocks - 1 - i);
            allocated.push(false);
            i = i + 1;
        }
        let r = BlockAllocator { free_list, allocated };
        proof {
            assert forall|b: usize| b < r.allocated@.len() && !r.allocated@[b as int]
                implies r.free_list@.contains(b) by {
                assert(r.free_list@[num_blocks - 1 - b] == b);
            }
        }
        r
    }

    /// Number of free blocks.
    pub fn num_free(&self) -> (r: usize)
        ensures
            r == self.free_ids().len(),
    {
        self.free_list.len()
    }

    /// Total number of blocks in the pool.
    pub fn num_total(&self) -> (r: usize)
        ensures
            r == self.spec_num_total(),
    {
        self.allocated.len()
    }

    /// Whether block `block_id` is currently allocated.
    pub fn is_allocated(&self, block_id: usize) -> (r: bool)
        ensures
            r == self.spec_is_allocated(block_id as int),
    {
        block_id < self.allocated.len() && self.allocated[block_id]
    }

    /// Vends one free block, or fails with `OutOfBlocks` when none is left.
    /// The block vended is the top of the free stack; it was not allocated
    /// before the call and is allocated after it.
    pub fn allocate(&mut self) -> (r: Result<usize, AllocError>)
        requires
            old(self).wf(),
        ensures
            final(self).wf(),
            final(self).spec_num_total() == old(self).spec_num_total(),
            old(self).free_ids().len() == 0 ==> r == Err::<usize, AllocError>(
                AllocError::OutOfBlocks,
            ) && final(self).free_ids() == old(self).free_ids() && forall|b: int|
                final(self).spec_is_allocated(b) == old(self).spec_is_allocated(b),
            old(self).free_ids().len() > 0 ==> {
                &&& r is Ok
                &&& r.unwrap() == old(self).free_ids()[old(self).free_ids().len() - 1]
                &&& final(self).free_ids() == old(self).free_ids().drop_last()
                &&& !old(self).spec_is_allocated(r.unwrap() as int)
                &&& forall|b: usize|
                    final(self).spec_is_allocated(b as int) <==> (old(self).spec_is_allocated(
                        b as int,
                    ) || b == r.unwrap())
            },
    {
        match self.free_list.pop() {
            None => Err(AllocError::OutOfBlocks),
            Some(block_id) => {
                self.allocated[block_id] = true;
                proof {
                    let new = self;
                    assert forall|b: usize|
                        b < new.allocated@.len() && !new.allocated@[b as int]
                        implies new.free_list@.contains(b) by {
                        assert(old(self).free_list@.contains(b));
                        let i = old(self).free_list@.lemma_contains_to_index(b);
                        assert(old(self).free_list@[old(self).free_list@.len() - 1] == block_id);
                        assert(i < old(self).free_list@.len() - 1);
                        assert(new.free_list@[i] == b);
                    }
                }
                Ok(block_id)
            },
        }
    }

    /// `allocate` repeated `n` times, all or nothing: when fewer than `n`
    /// blocks are free, nothing changes and `OutOfBlocks` comes back;
    /// otherwise the result lists the `n` vended blocks in allocation order.
    pub fn allocate_n(&mut self, n: usize) -> (r: Result<Vec<usize>, AllocError>)
        requires
            old(self).wf(),
        ensures
            final(self).wf(),
            final(self).spec_num_total() == old(self).spec_num_total(),
            old(self).free_ids().len() < n ==> r == Err::<Vec<usize>, AllocError>(
                AllocError::OutOfBlocks,
            ) && final(self).free_ids() == old(self).free_ids() && forall|b: int|
                final(self).spec_is_allocated(b) == old(self).spec_is_allocated(b),
            old(self).free_ids().len() >= n ==> {
                &&& r is Ok
                &&& r.unwrap()@.len() == n
                &&& forall|i: int|
                    0 <= i < n ==> #[trigger] r.unwrap()@[i] == old(self).free_ids()[old(
                        self,
                    ).free_ids().len() - 1 - i]
                &&& final(self).free_ids() == old(self).free_ids().take(
                    old(self).free_ids().len() - n,
                )
                &&& forall|i: int| 0 <= i < n ==> !old(self).spec_is_allocated(r.unwrap()@[i] as int)
                &&& forall|b: usize|
                    final(self).spec_is_allocated(b as int) <==> (old(self).spec_is_allocated(
                        b as int,
                    ) || r.unwrap()@.contains(b))
            },
    {
        if self.free_list.len() < n {
            return Err(AllocError::OutOfBlocks);
        }
        let ghost len0 = self.free_ids().len() as int;
        let mut out: Vec<usize> = Vec::new();
        let mut i: usize = 0;
        while i < n
            invariant
                self.wf(),
                i <= n,
                n <= len0,
                len0 == old(self).free_ids().len(),
                self.spec_num_total() == old(self).spec_num_total(),
                self.free_ids() == old(self).free_ids().take(len0 - i),
                out@.len() == i,
                forall|j: int|
                    0 <= j < i ==> #[trigger] out@[j] == old(self).free_ids()[len0 - 1 - j],
                forall|j: int| 0 <= j < i ==> !old(self).spec_is_allocated(out@[j] as int),
                forall|b: usize|
                    self.spec_is_allocated(b as int) <==> (old(self).spec_is_allocated(b as int)
                        || out@.contains(b)),
            decreases n - i,
        {
            let ghost pre = *self;
            let ghost out_pre = out@;
            let block_id = match self.allocate() {
                Ok(b) => b,
                Err(_) => {
                    proof {
                        assert(false);
                    }
                    0
                },
            };
            proof {
                assert(pre.free_ids() == old(self).free_ids().take(len0 - i));
                assert(pre.free_ids()[pre.free_ids().len() - 1] == old(self).free_ids()[len0 - 1
                    - i]);
                assert(self.free_ids() =~= old(self).free_ids().take(len0 - (i + 1)));
            }
            out.push(block_id);
            proof {
                assert forall|b: usize|
                    self.spec_is_allocated(b as int) <==> (old(self).spec_is_allocated(b as int)
                        || out@.contains(b)) by {
                    assert(out@ == out_pre.push(block_id));
                    assert(out@[out@.len() - 1] == block_id);
                    if out_pre.contains(b) {
                        let j = out_pre.lemma_contains_to_index(b);
                        assert(out@[j] == b);
                    }
                    if out@.contains(b) && b != block_id {
                        let j = out@.lemma_contains_to_index(b);
                        assert(j < out_pre.len());
                        assert(out_pre[j] == b);
                    }
                }
            }
            i = i + 1;
        }
        Ok(out)
    }

    /// Returns a block to the pool. Fails with `NotAllocated` when the block
    /// is not currently allocated (a double free) or the ID is out of range;
    /// in that case nothing changes.
    pub fn free(&mut self, block_id: usize) -> (r: Result<(), AllocError>)
        requires
            old(self).wf(),
        ensures
            final(self).wf(),
            final(self).spec_num_total() == old(self).spec_num_total(),
            !old(self).spec_is_allocated(block_id as int) ==> r == Err::<(), AllocError>(
                AllocError::NotAllocated,
            ) && final(self).free_ids() == old(self).free_ids() && forall|b: int|
                final(self).spec_is_allocated(b) == old(self).spec_is_allocated(b),
            old(self).spec_is_allocated(block_id as int) ==> {
                &&& r == Ok::<(), AllocError>(())
                &&& final(self).free_ids() == old(self).free_ids().push(block_id)
                &&& forall|b: usize|
                    final(self).spec_is_allocated(b as int) <==> (old(self).spec_is_allocated(
                        b as int,
                    ) && b != block_id)
            },
    {
        if block_id >= self.allocated.len() || !self.allocated[block_id] {
            return Err(AllocError::NotAllocated);
        }
        self.allocated[block_id] = false;
        self.free_list.push(block_id);
        proof {
            let new = self;
            assert forall|i1: int, i2: int|
                0 <= i1 < new.free_list@.len() && 0 <= i2 < new.free_list@.len() && i1 != i2
                implies new.free_list@[i1] != new.free_list@[i2] by {
                if i1 < new.free_list@.len() - 1 && i2 < new.free_list@.len() - 1 {
                    assert(old(self).free_list@[i1] != old(self).free_list@[i2]);
                } else if i1 == new.free_list@.len() - 1 {
                    assert(!old(self).allocated@[old(self).free_list@[i2] as int]);
                } else {
                    assert(!old(self).allocated@[old(self).free_list@[i1] as int]);
                }
            }
            assert(new.free_list@.no_duplicates());
            assert forall|b: usize|
                b < new.allocated@.len() && !new.allocated@[b as int]
                implies new.free_list@.contains(b) by {
                if b == block_id {
                    assert(new.free_list@[new.free_list@.len() - 1] == block_id);
                } else {
                    assert(old(self).free_list@.contains(b));
                    let i = old(self).free_list@.lemma_contains_to_index(b);
                    assert(new.free_list@[i] == b);
                }
            }
        }
        Ok(())
    }
}

} // verus!
