//! Block-based paged KV allocator over a fixed-size block pool. O(1)
//! allocation and release through a free-list stack; blocks are refcounted so
//! that a shared prompt prefix can be reused across sequences without copying.

use crate::kv_model::AllocState;
pub use crate::kv_model::{BlockId, SeqId};
use std::collections::HashMap;
use vstd::prelude::*;

verus! {

broadcast use vstd::std_specs::hash::group_hash_axioms;

/// Bookkeeping of one physical block. The KV tensor storage itself lives with
/// whoever maps block ids to device memory.
#[derive(Debug, Clone, Copy)]
struct BlockMeta {
    refcount: u32,
}

/// Owner of the block pool. Operations take `&mut self`: an allocator that
/// several threads share goes behind a lock.
pub struct BlockAllocator {
    meta: Vec<BlockMeta>,
    free_stack: Vec<BlockId>,
    /// seq_id -> ordered list of block ids (the sequence's page table)
    page_tables: HashMap<SeqId, Vec<BlockId>>,
    block_size: u32,
    total_blocks: u32,
}

/// Why an allocator refused an operation.
#[derive(Debug, PartialEq, Eq, Clone, Copy)]
pub enum AllocError {
    /// Not enough free blocks.
    OutOfMemory,
    /// The sequence is not registered.
    UnknownSeq(SeqId),
    /// The sequence is registered already; overwriting its page table would
    /// leak the blocks it holds.
    SeqAlreadyExists(SeqId),
}

impl View for BlockAllocator {
    type V = AllocState;

    closed spec fn view(&self) -> AllocState {
        AllocState {
            free: self.free_stack@,
            tables: self.page_tables@.map_values(|v: Vec<BlockId>| v@),
        }
    }
}

impl BlockAllocator {
    /// The pool is well formed and the refcounts are right.
    pub open spec fn wf(&self) -> bool {
        &&& self@.wf(self.total_blocks() as nat)
        &&& self.counted()
    }

    /// Every refcount is the number of page tables that list the block.
    pub closed spec fn counted(&self) -> bool {
        &&& self.meta@.len() == self.total_blocks
        &&& forall|b: BlockId|
            #![trigger self@.refs(b)]
            #![trigger self.meta@[b as int]]
            b < self.total_blocks ==> self.meta@[b as int].refcount == self@.refs(b)
    }

    pub closed spec fn spec_block_size(&self) -> u32 {
        self.block_size
    }

    pub closed spec fn spec_total_blocks(&self) -> u32 {
        self.total_blocks
    }

    /// How many tokens one block holds.
    #[verifier::when_used_as_spec(spec_block_size)]
    pub fn block_size(&self) -> (n: u32)
        ensures
            n == self.block_size(),
    {
        self.block_size
    }

    /// How many blocks the pool has.
    #[verifier::when_used_as_spec(spec_total_blocks)]
    pub fn total_blocks(&self) -> (n: u32)
        ensures
            n == self.total_blocks(),
    {
        self.total_blocks
    }

    /// A pool of `total_blocks` free blocks of `block_size` tokens each.
    pub fn new(total_blocks: u32, block_size: u32) -> (a: Self)
        ensures
            a.wf(),
            a@ == AllocState::fresh(total_blocks as nat),
            a.total_blocks() == total_blocks,
            a.block_size() == block_size,
    {
        let mut free_stack: Vec<BlockId> = Vec::with_capacity(total_blocks as usize);
        let mut meta: Vec<BlockMeta> = Vec::with_capacity(total_blocks as usize);
        let mut next: u32 = total_blocks;
        while next > 0
            invariant
                next <= total_blocks,
                free_stack@ == AllocState::fresh(total_blocks as nat).free.take(
                    total_blocks - next,
                ),
                meta@.len() == total_blocks - next,
                forall|i: int| 0 <= i < meta@.len() ==> (#[trigger] meta@[i]).refcount == 0,
            decreases next,
        {
            next = next - 1;
            free_stack.push(next);
            meta.push(BlockMeta { refcount: 0 });
        }
        let a = BlockAllocator {
            meta,
            free_stack,
            page_tables: HashMap::new(),
            block_size,
            total_blocks,
        };
        proof {
            assert(a@ =~= AllocState::fresh(total_blocks as nat));
            crate::kv_model::lemma_fresh_wf(total_blocks as nat);
            assert forall|b: BlockId| #![trigger a@.refs(b)] #![trigger a.meta@[b as int]]
                b < a.total_blocks implies a.meta@[b as int].refcount == a@.refs(b) by {
                crate::kv_model::lemma_refs_zero(a@, b);
            }
        }
        a
    }

    /// How many blocks are free.
    pub fn num_free_blocks(&self) -> (n: u32)
        requires
            self.wf(),
        ensures
            n == self@.free.len(),
    {
        proof {
            crate::kv_model::lemma_free_len(self@, self.total_blocks as nat);
        }
        self.free_stack.len() as u32
    }

    /// Number of blocks required to hold `num_tokens` tokens for a new
    /// sequence. The addition saturates, so that a pathological `num_tokens`
    /// fails the allocation instead of wrapping around.
    pub fn blocks_needed(&self, num_tokens: u32) -> (n: u32)
        requires
            self.block_size() > 0,
        ensures
            n == AllocState::blocks_for(num_tokens, self.block_size()),
    {
        num_tokens.saturating_add(self.block_size - 1) / self.block_size
    }

    /// Register a sequence and reserve `num_tokens` worth of blocks for it.
    /// Fails clean (nothing changes) if the blocks do not suffice, or if
    /// `seq_id` is registered already.
    pub fn allocate_seq(&mut self, seq_id: SeqId, num_tokens: u32) -> (r: Result<(), AllocError>)
        requires
            old(self).wf(),
            old(self).block_size() > 0,
        ensures
            final(self).wf(),
            final(self).block_size() == old(self).block_size(),
            final(self).total_blocks() == old(self).total_blocks(),
            ({
                let needed = AllocState::blocks_for(num_tokens, old(self).block_size());
                if old(self)@.tables.contains_key(seq_id) {
                    &&& r == Err::<(), AllocError>(AllocError::SeqAlreadyExists(seq_id))
                    &&& final(self)@ == old(self)@
                } else if old(self)@.free.len() < needed {
                    &&& r == Err::<(), AllocError>(AllocError::OutOfMemory)
                    &&& final(self)@ == old(self)@
                } else {
                    &&& r == Ok::<(), AllocError>(())
                    &&& final(self)@ == old(self)@.allocated(seq_id, needed)
                }
            }),
    {
        let needed = self.blocks_needed(num_tokens);
        if self.page_tables.contains_key(&seq_id) {
            return Err(AllocError::SeqAlreadyExists(seq_id));
        }
        if self.free_stack.len() < needed as usize {
            return Err(AllocError::OutOfMemory);
        }
        let ghost before = self@;
        let ghost total = self.total_blocks;
        let ghost table = before.top_blocks(needed as nat);
        proof {
            crate::kv_model::lemma_allocated_wf(before, total as nat, seq_id, needed as nat);
        }
        let mut blocks: Vec<BlockId> = Vec::with_capacity(needed as usize);
        let mut taken: u32 = 0;
        while taken < needed
            invariant
                taken <= needed,
                needed <= before.free.len(),
                total == self.total_blocks,
                self.block_size == old(self).block_size,
                self.page_tables == old(self).page_tables,
                before.wf(total as nat),
                before == old(self)@,
                total == old(self).total_blocks,
                table == before.top_blocks(needed as nat),
                self.free_stack@ == before.free.take(before.free.len() - taken),
                blocks@ == table.take(taken as int),
                self.meta@.len() == total,
                forall|b: BlockId| #![trigger self.meta@[b as int]]
                    b < total ==> self.meta@[b as int].refcount == if table.take(
                        taken as int,
                    ).contains(b) {
                        1
                    } else {
                        before.refs(b)
                    },
            decreases needed - taken,
        {
            let id = self.free_stack.pop().unwrap();
            assert(id == table[taken as int]);
            assert(before.free.contains(id));
            let ghost meta_before = self.meta@;
            self.meta[id as usize].refcount = 1;
            blocks.push(id);
            proof {
                let shorter = table.take(taken as int);
                let longer = table.take(taken + 1);
                assert(longer =~= shorter.push(id));
                assert forall|b: BlockId| #![trigger self.meta@[b as int]]
                    b < total implies self.meta@[b as int].refcount == if longer.contains(b) {
                    1
                } else {
                    before.refs(b)
                } by {
                    assert(longer[taken as int] == id);
                    if b == id {
                        assert(longer.contains(b));
                    } else {
                        assert(self.meta@[b as int] == meta_before[b as int]);
                        assert(longer.contains(b) == shorter.contains(b)) by {
                            if shorter.contains(b) {
                                let i = choose|i: int| 0 <= i < shorter.len() && shorter[i] == b;
                                assert(longer[i] == b);
                            }
                        }
                    }
                }
            }
            taken = taken + 1;
        }
        self.page_tables.insert(seq_id, blocks);
        proof {
            assert(table.take(needed as int) =~= table);
            assert(self@ =~= before.allocated(seq_id, needed as nat));
        }
        Ok(())
    }

    /// Append one block to a sequence once it decodes past its current
    /// capacity. An unknown `seq_id` is refused before anything is taken from
    /// the free stack, so that no block is lost.
    pub fn grow_seq(&mut self, seq_id: SeqId) -> (r: Result<BlockId, AllocError>)
        requires
            old(self).wf(),
        ensures
            final(self).wf(),
            final(self).block_size() == old(self).block_size(),
            final(self).total_blocks() == old(self).total_blocks(),
            if !old(self)@.tables.contains_key(seq_id) {
                &&& r == Err::<BlockId, AllocError>(AllocError::UnknownSeq(seq_id))
                &&& final(self)@ == old(self)@
            } else if old(self)@.free.len() == 0 {
                &&& r == Err::<BlockId, AllocError>(AllocError::OutOfMemory)
                &&& final(self)@ == old(self)@
            } else {
                &&& r == Ok::<BlockId, AllocError>(old(self)@.free.last())
                &&& final(self)@ == old(self)@.grown(seq_id)
            },
    {
        let ghost before = self@;
        let ghost total = self.total_blocks;
        if !self.page_tables.contains_key(&seq_id) {
            return Err(AllocError::UnknownSeq(seq_id));
        }
        let id = match self.free_stack.pop() {
            Some(id) => id,
            None => {
                assert(self@ =~= before);
                return Err(AllocError::OutOfMemory);
            },
        };
        proof {
            crate::kv_model::lemma_grown_wf(before, total as nat, seq_id);
        }
        self.meta[id as usize].refcount = 1;
        let mut blocks = self.page_tables.remove(&seq_id).unwrap();
        blocks.push(id);
        self.page_tables.insert(seq_id, blocks);
        proof {
            assert(self@ =~= before.grown(seq_id));
        }
        Ok(id)
    }

    /// Fork a sequence's page table for beam search or parallel sampling
    /// without copying KV: the refcount of every shared block goes up, and only
    /// the blocks that diverge later get an allocation of their own. A `dst`
    /// that is registered already is refused, so that its blocks are not lost.
    pub fn fork_seq(&mut self, src: SeqId, dst: SeqId) -> (r: Result<(), AllocError>)
        requires
            old(self).wf(),
            old(self)@.tables.contains_key(src) && !old(self)@.tables.contains_key(dst)
                ==> forall|b: BlockId| #[trigger]
                old(self)@.tables[src].contains(b) ==> old(self)@.refs(b) < u32::MAX,
        ensures
            final(self).wf(),
            final(self).block_size() == old(self).block_size(),
            final(self).total_blocks() == old(self).total_blocks(),
            if !old(self)@.tables.contains_key(src) {
                &&& r == Err::<(), AllocError>(AllocError::UnknownSeq(src))
                &&& final(self)@ == old(self)@
            } else if old(self)@.tables.contains_key(dst) {
                &&& r == Err::<(), AllocError>(AllocError::SeqAlreadyExists(dst))
                &&& final(self)@ == old(self)@
            } else {
                &&& r == Ok::<(), AllocError>(())
                &&& final(self)@ == old(self)@.forked(src, dst)
            },
    {
        let ghost before = self@;
        let ghost total = self.total_blocks;
        let src_blocks = match self.page_tables.get(&src) {
            Some(blocks) => blocks.clone(),
            None => {
                return Err(AllocError::UnknownSeq(src));
            },
        };
        if self.page_tables.contains_key(&dst) {
            return Err(AllocError::SeqAlreadyExists(dst));
        }
        let ghost table = before.tables[src];
        assert(src_blocks@ =~= table);
        proof {
            crate::kv_model::lemma_forked_wf(before, total as nat, src, dst);
        }
        let mut i: usize = 0;
        while i < src_blocks.len()
            invariant
                i <= src_blocks@.len(),
                src_blocks@ == table,
                table == before.tables[src],
                before.tables.contains_key(src),
                before.wf(total as nat),
                total == self.total_blocks,
                total == old(self).total_blocks,
                before == old(self)@,
                self.block_size == old(self).block_size,
                self.free_stack == old(self).free_stack,
                self.page_tables == old(self).page_tables,
                self.meta@.len() == total,
                forall|b: BlockId| #[trigger] table.contains(b) ==> before.refs(b) < u32::MAX,
                forall|b: BlockId| #![trigger self.meta@[b as int]]
                    b < total ==> self.meta@[b as int].refcount == before.refs(b) + (
                    if table.take(i as int).contains(b) {
                        1nat
                    } else {
                        0nat
                    }),
            decreases src_blocks@.len() - i,
        {
            let b = src_blocks[i];
            let ghost meta_before = self.meta@;
            let ghost shorter = table.take(i as int);
            let ghost longer = table.take(i + 1);
            proof {
                assert(before.tables[src][i as int] < total);
                assert(table.contains(b));
                assert(!shorter.contains(b));
                assert(meta_before[b as int].refcount == before.refs(b));
            }
            self.meta[b as usize].refcount += 1;
            proof {
                assert(longer =~= shorter.push(b));
                assert forall|c: BlockId| #![trigger self.meta@[c as int]]
                    c < total implies self.meta@[c as int].refcount == before.refs(c) + (
                if longer.contains(c) {
                    1nat
                } else {
                    0nat
                }) by {
                    assert(longer[i as int] == b);
                    if c != b {
                        assert(self.meta@[c as int] == meta_before[c as int]);
                        assert(longer.contains(c) == shorter.contains(c)) by {
                            if shorter.contains(c) {
                                let j = choose|j: int| 0 <= j < shorter.len() && shorter[j] == c;
                                assert(longer[j] == c);
                            }
                        }
                    }
                }
            }
            i = i + 1;
        }
        self.page_tables.insert(dst, src_blocks);
        proof {
            assert(table.take(table.len() as int) =~= table);
            assert(self@ =~= before.forked(src, dst));
        }
        Ok(())
    }

    /// Free every block owned by a sequence: shared refcounts go down, and only
    /// the blocks left without a reference return to the free stack. An unknown
    /// `seq_id` changes nothing.
    pub fn free_seq(&mut self, seq_id: SeqId)
        requires
            old(self).wf(),
        ensures
            final(self).wf(),
            final(self).block_size() == old(self).block_size(),
            final(self).total_blocks() == old(self).total_blocks(),
            final(self)@ == old(self)@.freed(seq_id),
    {
        let ghost before = self@;
        let ghost total = self.total_blocks;
        proof {
            crate::kv_model::lemma_freed_wf(before, total as nat, seq_id);
        }
        if let Some(blocks) = self.page_tables.remove(&seq_id) {
            let ghost table = before.tables[seq_id];
            let ghost sole = |b: BlockId| before.refs(b) == 1;
            let ghost tables_after = self.page_tables;
            let mut i: usize = 0;
            assert(table.take(0).filter(sole) =~= Seq::<BlockId>::empty()) by {
                reveal(Seq::filter);
            }
            while i < blocks.len()
                invariant
                    i <= blocks@.len(),
                    blocks@ == table,
                    table == before.tables[seq_id],
                    before.tables.contains_key(seq_id),
                    before.wf(total as nat),
                    total == self.total_blocks,
                    total == old(self).total_blocks,
                    before == old(self)@,
                    self.block_size == old(self).block_size,
                    self.page_tables == tables_after,
                    sole == (|b: BlockId| before.refs(b) == 1),
                    self.free_stack@ == before.free + table.take(i as int).filter(sole),
                    self.meta@.len() == total,
                    forall|b: BlockId| #![trigger self.meta@[b as int]]
                        b < total ==> self.meta@[b as int].refcount == before.refs(b) - (
                        if table.take(i as int).contains(b) {
                            1int
                        } else {
                            0int
                        }),
                decreases blocks@.len() - i,
            {
                let b = blocks[i];
                let ghost meta_before = self.meta@;
                let ghost shorter = table.take(i as int);
                let ghost longer = table.take(i + 1);
                proof {
                    assert(before.tables[seq_id][i as int] < total);
                    assert(table.contains(b));
                    assert(!shorter.contains(b));
                    assert(meta_before[b as int].refcount == before.refs(b));
                    crate::kv_model::lemma_refs_zero(before, b);
                    assert(before.in_use(b));
                    assert(longer =~= shorter.push(b));
                    assert(longer.drop_last() =~= shorter);
                    assert(longer.filter(sole) == if sole(b) {
                        shorter.filter(sole).push(b)
                    } else {
                        shorter.filter(sole)
                    }) by {
                        reveal(Seq::filter);
                    }
                }
                let left = self.meta[b as usize].refcount.saturating_sub(1);
                self.meta[b as usize].refcount = left;
                if left == 0 {
                    self.free_stack.push(b);
                }
                proof {
                    assert(self.free_stack@ =~= before.free + longer.filter(sole));
                    assert forall|c: BlockId| #![trigger self.meta@[c as int]]
                        c < total implies self.meta@[c as int].refcount == before.refs(c) - (
                    if longer.contains(c) {
                        1int
                    } else {
                        0int
                    }) by {
                        assert(longer[i as int] == b);
                        if c != b {
                            assert(self.meta@[c as int] == meta_before[c as int]);
                            assert(longer.contains(c) == shorter.contains(c)) by {
                                if shorter.contains(c) {
                                    let j = choose|j: int| 0 <= j < shorter.len() && shorter[j] == c;
                                    assert(longer[j] == c);
                                }
                            }
                        }
                    }
                }
                i = i + 1;
            }
            proof {
                assert(table.take(table.len() as int) =~= table);
                assert(self@ =~= before.freed(seq_id));
            }
        } else {
            assert(self@ =~= before);
        }
    }

    /// The page table of a sequence, if it is registered.
    pub fn page_table(&self, seq_id: SeqId) -> (r: Option<Vec<BlockId>>)
        ensures
            r is Some <==> self@.tables.contains_key(seq_id),
            r matches Some(blocks) ==> blocks@ == self@.tables[seq_id],
    {
        match self.page_tables.get(&seq_id) {
            Some(blocks) => {
                let copy = blocks.clone();
                assert(copy@ =~= blocks@);
                Some(copy)
            },
            None => None,
        }
    }
}

} // verus!
