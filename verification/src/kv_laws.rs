//! Laws of the paged KV allocator, stated over the model that the contracts of
//! `BlockAllocator` speak of.

use crate::kv_model::{AllocState, BlockId, SeqId};
use vstd::prelude::*;

verus! {

/// No block leaks: the free blocks and the blocks in use make up the pool.
pub proof fn law_blocks_conserved(s: AllocState, total: nat)
    requires
        s.wf(total),
        total <= u32::MAX,
    ensures
        s.used_blocks().finite(),
        s.free.len() + s.used_blocks().len() == total,
{
    let free = s.free.to_set();
    let used = s.used_blocks();
    let pool = Set::new(|b: BlockId| b < total);
    lemma_pool_size(total);
    s.free.unique_seq_to_set();
    assert(used.subset_of(pool)) by {
        assert forall|b: BlockId| used.contains(b) implies pool.contains(b) by {
            let id = choose|id: SeqId| #[trigger] s.tables.contains_key(id) && s.tables[id].contains(b);
            let i = choose|i: int| 0 <= i < s.tables[id].len() && s.tables[id][i] == b;
            assert(s.tables[id][i] < total);
        }
    }
    vstd::set_lib::lemma_len_subset(used, pool);
    assert forall|b: BlockId| free.contains(b) <==> pool.contains(b) && !used.contains(b) by {
        assert(s.free.contains(b) <==> b < total && !s.in_use(b));
    }
    assert(free.disjoint(used));
    assert(free + used =~= pool);
    vstd::set_lib::lemma_set_disjoint_lens(free, used);
}

proof fn lemma_pool_size(total: nat)
    requires
        total <= u32::MAX,
    ensures
        Set::new(|b: BlockId| b < total).finite(),
        Set::new(|b: BlockId| b < total).len() == total,
    decreases total,
{
    let pool = Set::new(|b: BlockId| b < total);
    if total == 0 {
        assert(pool =~= Set::<BlockId>::empty());
    } else {
        let smaller = Set::new(|b: BlockId| b < total - 1);
        lemma_pool_size((total - 1) as nat);
        assert(Set::new(|b: BlockId| b < (total - 1) as nat) =~= smaller);
        assert(pool =~= smaller.insert((total - 1) as BlockId));
    }
}

/// When no sequence is registered, the whole pool is free.
pub proof fn law_all_free_without_sequences(s: AllocState, total: nat)
    requires
        s.wf(total),
        total <= u32::MAX,
        s.tables.dom() == Set::<SeqId>::empty(),
    ensures
        s.free.len() == total,
{
    law_blocks_conserved(s, total);
    assert forall|b: BlockId| !s.in_use(b) by {
        if s.in_use(b) {
            let id = choose|id: SeqId| #[trigger] s.tables.contains_key(id) && s.tables[id].contains(b);
            assert(s.tables.dom().contains(id));
        }
    }
    assert(s.used_blocks() =~= Set::<BlockId>::empty());
}

/// The blocks of a newly registered sequence belong to no other sequence.
pub proof fn law_allocated_blocks_unshared(
    s: AllocState,
    total: nat,
    id: SeqId,
    needed: nat,
    other: SeqId,
    b: BlockId,
)
    requires
        s.wf(total),
        !s.tables.contains_key(id),
        needed <= s.free.len(),
        other != id,
        s.tables.contains_key(other),
        s.allocated(id, needed).tables[id].contains(b),
    ensures
        !s.allocated(id, needed).tables[other].contains(b),
        s.allocated(id, needed).refs(b) == 1,
{
    crate::kv_model::lemma_allocated_wf(s, total, id, needed);
    crate::kv_model::lemma_refs_zero(s, b);
    assert(s.top_blocks(needed).contains(b));
    assert(s.allocated(id, needed).refs(b) == 1);
}

impl AllocState {
    /// The pool after `k` calls to grow sequence `id`, those that found no block
    /// included.
    pub open spec fn grown_times(self, id: SeqId, k: nat) -> AllocState
        decreases k,
    {
        if k == 0 {
            self
        } else {
            let before = self.grown_times(id, (k - 1) as nat);
            if before.tables.contains_key(id) && before.free.len() > 0 {
                before.grown(id)
            } else {
                before
            }
        }
    }

    /// The same sequences with the same page tables, and the same blocks free.
    pub open spec fn same_pool(self, other: AllocState) -> bool {
        &&& self.tables == other.tables
        &&& self.free.to_set() == other.free.to_set()
        &&& self.free.len() == other.free.len()
    }
}

/// Freeing a sequence undoes its registration, however often it has grown since:
/// the pool is what it was before. Freeing it once more changes nothing.
pub proof fn law_free_undoes_allocation(s: AllocState, total: nat, id: SeqId, needed: nat, k: nat)
    requires
        s.wf(total),
        !s.tables.contains_key(id),
        needed <= s.free.len(),
    ensures
        s.allocated(id, needed).grown_times(id, k).freed(id).same_pool(s),
        s.allocated(id, needed).grown_times(id, k).freed(id).freed(id) == s.allocated(
            id,
            needed,
        ).grown_times(id, k).freed(id),
{
    let t = s.allocated(id, needed);
    crate::kv_model::lemma_allocated_wf(s, total, id, needed);
    assert(t.tables.remove(id) =~= s.tables);
    lemma_grown_times(t, total, id, k);
    lemma_free_restores(s, t.grown_times(id, k), total, id);
}

/// Freeing a sequence undoes the fork that made it, however often it has grown
/// since: the pool, the page table of the source included, is what it was before.
/// Freeing it once more changes nothing.
pub proof fn law_free_undoes_fork(s: AllocState, total: nat, src: SeqId, id: SeqId, k: nat)
    requires
        s.wf(total),
        s.tables.contains_key(src),
        !s.tables.contains_key(id),
    ensures
        s.forked(src, id).grown_times(id, k).freed(id).same_pool(s),
        s.forked(src, id).grown_times(id, k).freed(id).freed(id) == s.forked(
            src,
            id,
        ).grown_times(id, k).freed(id),
{
    let t = s.forked(src, id);
    crate::kv_model::lemma_forked_wf(s, total, src, id);
    assert(t.tables.remove(id) =~= s.tables);
    lemma_grown_times(t, total, id, k);
    lemma_free_restores(s, t.grown_times(id, k), total, id);
}

proof fn lemma_grown_times(t: AllocState, total: nat, id: SeqId, k: nat)
    requires
        t.wf(total),
        t.tables.contains_key(id),
    ensures
        t.grown_times(id, k).wf(total),
        t.grown_times(id, k).tables.contains_key(id),
        t.grown_times(id, k).tables.remove(id) == t.tables.remove(id),
    decreases k,
{
    if k > 0 {
        let before = t.grown_times(id, (k - 1) as nat);
        lemma_grown_times(t, total, id, (k - 1) as nat);
        if before.free.len() > 0 {
            crate::kv_model::lemma_grown_wf(before, total, id);
            assert(before.grown(id).tables.remove(id) =~= before.tables.remove(id));
        }
    }
}

/// Which blocks are free follows from the page tables.
proof fn lemma_free_restores(s: AllocState, t: AllocState, total: nat, id: SeqId)
    requires
        s.wf(total),
        t.wf(total),
        t.tables.contains_key(id),
        t.tables.remove(id) == s.tables,
    ensures
        t.freed(id).same_pool(s),
{
    let u = t.freed(id);
    crate::kv_model::lemma_freed_wf(t, total, id);
    assert forall|b: BlockId| u.in_use(b) == s.in_use(b) by {
        assert(u.tables == s.tables);
    }
    assert forall|b: BlockId| u.free.to_set().contains(b) <==> s.free.to_set().contains(b) by {
        assert(u.free.contains(b) <==> b < total && !u.in_use(b));
        assert(s.free.contains(b) <==> b < total && !s.in_use(b));
    }
    assert(u.free.to_set() =~= s.free.to_set());
    u.free.unique_seq_to_set();
    s.free.unique_seq_to_set();
}

/// No block has more references than there are sequences.
pub proof fn law_refs_bounded(s: AllocState, b: BlockId)
    requires
        s.tables.dom().finite(),
    ensures
        s.refs(b) <= s.tables.dom().len(),
{
    vstd::set_lib::lemma_len_subset(s.holders(b), s.tables.dom());
}

/// Freeing a sequence twice is freeing it once.
pub proof fn law_free_twice(s: AllocState, id: SeqId)
    ensures
        s.freed(id).freed(id) == s.freed(id),
{
}

/// Growing a sequence hands it a block that no sequence held and takes exactly
/// that block from the free stack.
pub proof fn law_grown_block_unshared(s: AllocState, total: nat, id: SeqId)
    requires
        s.wf(total),
        s.tables.contains_key(id),
        s.free.len() > 0,
    ensures
        !s.in_use(s.free.last()),
        s.grown(id).refs(s.free.last()) == 1,
        s.grown(id).free.len() == s.free.len() - 1,
{
    assert(s.free.contains(s.free.last()));
    crate::kv_model::lemma_grown_wf(s, total, id);
}

/// A fork takes no block, and freeing either side of it frees none either: the
/// other side keeps the page table and the free stack stays as it was.
pub proof fn law_fork_shares_blocks(s: AllocState, total: nat, src: SeqId, dst: SeqId)
    requires
        s.wf(total),
        s.tables.contains_key(src),
        !s.tables.contains_key(dst),
    ensures
        s.forked(src, dst).free == s.free,
        s.forked(src, dst).freed(dst) == s,
        s.forked(src, dst).freed(src).free == s.free,
        s.forked(src, dst).freed(src).tables[dst] == s.tables[src],
{
    let t = s.forked(src, dst);
    crate::kv_model::lemma_forked_wf(s, total, src, dst);
    lemma_shared_table_frees_nothing(s, t, src, src);
    lemma_shared_table_frees_nothing(s, t, src, dst);
    assert(t.freed(dst) =~= s);
    assert(t.freed(src).free =~= s.free);
}

proof fn lemma_shared_table_frees_nothing(s: AllocState, t: AllocState, src: SeqId, id: SeqId)
    requires
        s.tables.dom().finite(),
        s.tables.contains_key(src),
        t.tables.contains_key(id),
        t.tables[id] == s.tables[src],
        forall|b: BlockId| #[trigger]
            t.refs(b) == s.refs(b) + (if s.tables[src].contains(b) {
                1nat
            } else {
                0nat
            }),
    ensures
        t.sole_blocks(id) == Seq::<BlockId>::empty(),
{
    let sole = |b: BlockId| t.refs(b) == 1;
    let back = t.sole_blocks(id);
    if back.len() > 0 {
        broadcast use vstd::seq_lib::group_filter_ensures;

        let b = back[0];
        assert(sole(b));
        assert(back.contains(b));
        t.tables[id].lemma_filter_contains_rev(sole, b);
        crate::kv_model::lemma_refs_zero(s, b);
        assert(s.in_use(b));
        assert(t.refs(b) >= 2);
    }
}

/// Freeing both sides of a fork frees what freeing the source alone would have
/// freed before the fork.
pub proof fn law_fork_then_free_both(s: AllocState, total: nat, src: SeqId, dst: SeqId)
    requires
        s.wf(total),
        s.tables.contains_key(src),
        !s.tables.contains_key(dst),
    ensures
        s.forked(src, dst).freed(src).freed(dst) == s.freed(src),
        s.forked(src, dst).freed(dst).freed(src) == s.freed(src),
{
    let t = s.forked(src, dst);
    let u = t.freed(src);
    law_fork_shares_blocks(s, total, src, dst);
    crate::kv_model::lemma_forked_wf(s, total, src, dst);
    crate::kv_model::lemma_freed_wf(t, total, src);
    let in_u = |b: BlockId| u.refs(b) == 1;
    let in_s = |b: BlockId| s.refs(b) == 1;
    assert forall|b: BlockId| #[trigger] in_u(b) == in_s(b) by {
        assert(t.refs(b) == s.refs(b) + (if s.tables[src].contains(b) { 1nat } else { 0nat }));
        assert(t.refs(b) == u.refs(b) + (if t.tables[src].contains(b) { 1nat } else { 0nat }));
    }
    assert(in_u =~= in_s);
    assert(u.sole_blocks(dst) == s.sole_blocks(src));
    assert(u.freed(dst) =~= s.freed(src));
}

/// The blocks reserved for a number of tokens hold them, and one block fewer
/// would not, as long as the padded count fits in `u32`.
pub proof fn law_blocks_for_is_ceiling(num_tokens: u32, block_size: u32)
    requires
        block_size > 0,
        num_tokens + block_size - 1 <= u32::MAX,
    ensures
        AllocState::blocks_for(num_tokens, block_size) * block_size >= num_tokens,
        num_tokens > 0 ==> (AllocState::blocks_for(num_tokens, block_size) - 1) * block_size
            < num_tokens,
{
    let p = (num_tokens + block_size - 1) as int;
    let d = block_size as int;
    vstd::arithmetic::div_mod::lemma_fundamental_div_mod(p, d);
    let q = p / d;
    assert(q * d >= num_tokens && (q - 1) * d < num_tokens || num_tokens == 0) by (nonlinear_arith)
        requires
            p == d * q + p % d,
            0 <= p % d < d,
            p == num_tokens + d - 1,
            d > 0,
    ;
    assert(q * d >= 0) by (nonlinear_arith)
        requires
            p == d * q + p % d,
            0 <= p % d < d,
            p >= 0,
            d > 0,
    ;
}

impl AllocState {
    /// No block is in two page tables.
    pub open spec fn unshared(self) -> bool {
        forall|b: BlockId| #[trigger] self.refs(b) <= 1
    }
}

/// Only a fork makes sequences share blocks: registering, growing and freeing
/// keep every block in one page table at most.
pub proof fn law_only_forks_share(s: AllocState, total: nat, id: SeqId, needed: nat)
    requires
        s.wf(total),
        s.unshared(),
    ensures
        !s.tables.contains_key(id) && needed <= s.free.len() ==> s.allocated(
            id,
            needed,
        ).unshared(),
        s.tables.contains_key(id) && s.free.len() > 0 ==> s.grown(id).unshared(),
        s.freed(id).unshared(),
{
    if !s.tables.contains_key(id) && needed <= s.free.len() {
        crate::kv_model::lemma_allocated_wf(s, total, id, needed);
        assert forall|b: BlockId| #[trigger] s.allocated(id, needed).refs(b) <= 1 by {
            assert(s.refs(b) <= 1);
            if s.top_blocks(needed).contains(b) {
                assert(s.refs(b) == 0);
            }
        }
    }
    if s.tables.contains_key(id) && s.free.len() > 0 {
        crate::kv_model::lemma_grown_wf(s, total, id);
        assert forall|b: BlockId| #[trigger] s.grown(id).refs(b) <= 1 by {
            assert(s.refs(b) <= 1);
        }
    }
    crate::kv_model::lemma_freed_wf(s, total, id);
    assert forall|b: BlockId| #[trigger] s.freed(id).refs(b) <= 1 by {
        assert(s.refs(b) <= 1);
    }
}

/// The block count is monotone, so it grows with the tokens also where padding
/// saturates, and no count asks for more tokens than a `u32` can number. With the
/// ceiling law this fixes every count.
pub proof fn law_blocks_for_is_monotone(fewer: u32, more: u32, block_size: u32)
    requires
        block_size > 0,
        fewer <= more,
    ensures
        AllocState::blocks_for(fewer, block_size) <= AllocState::blocks_for(more, block_size),
        AllocState::blocks_for(more, block_size) * block_size <= u32::MAX,
        more > 0 ==> AllocState::blocks_for(more, block_size) > 0,
{
    let cap = |n: int| if n > u32::MAX { u32::MAX as int } else { n };
    let low = cap(fewer + block_size - 1);
    let high = cap(more + block_size - 1);
    let d = block_size as int;
    vstd::arithmetic::div_mod::lemma_div_is_ordered(low, high, d);
    vstd::arithmetic::div_mod::lemma_fundamental_div_mod(high, d);
    let q = high / d;
    assert(q * d <= high) by (nonlinear_arith)
        requires
            high == d * q + high % d,
            0 <= high % d,
    ;
    if more > 0 {
        vstd::arithmetic::div_mod::lemma_div_is_ordered(d, high, d);
        vstd::arithmetic::div_mod::lemma_div_by_self(d);
    }
}

/// A fresh pool numbers its blocks from 0 and hands them out in that order: a
/// sequence that takes `needed` of them first gets blocks 0 to `needed - 1`.
pub proof fn law_fresh_pool_hands_out_in_order(total: nat, id: SeqId, needed: nat)
    requires
        total <= u32::MAX,
        needed <= total,
    ensures
        AllocState::fresh(total).free.len() == total,
        AllocState::fresh(total).tables.dom() == Set::<SeqId>::empty(),
        AllocState::fresh(total).allocated(id, needed).tables[id].len() == needed,
        forall|i: int|
            0 <= i < needed ==> #[trigger] AllocState::fresh(total).allocated(
                id,
                needed,
            ).tables[id][i] == i,
        AllocState::fresh(total).allocated(id, needed).free.len() == total - needed,
{
    assert(AllocState::fresh(total).tables.dom() =~= Set::<SeqId>::empty());
}

/// Registering a sequence moves exactly `needed` blocks, the latest freed first,
/// from the free stack to its page table, and touches no other page table.
pub proof fn law_allocation_moves_blocks(s: AllocState, id: SeqId, needed: nat)
    requires
        needed <= s.free.len(),
    ensures
        ({
            let t = s.allocated(id, needed);
            let left = s.free.len() - needed;
            &&& t.tables.contains_key(id)
            &&& t.tables[id].len() == needed
            &&& forall|i: int| 0 <= i < needed ==> #[trigger] t.tables[id][i] == s.free[s.free.len()
                - 1 - i]
            &&& t.free.len() == left
            &&& forall|i: int| 0 <= i < left ==> #[trigger] t.free[i] == s.free[i]
            &&& forall|other: SeqId|
                other != id ==> (#[trigger] t.tables.contains_key(other) <==> s.tables.contains_key(
                    other,
                )) && t.tables[other] == s.tables[other]
        }),
{
}

/// Growing a sequence appends the latest freed block to its page table, keeps
/// the blocks it had in place, and touches no other page table.
pub proof fn law_growth_appends_one_block(s: AllocState, id: SeqId)
    requires
        s.tables.contains_key(id),
        s.free.len() > 0,
    ensures
        ({
            let t = s.grown(id);
            let n = s.tables[id].len() as int;
            &&& t.tables[id].len() == n + 1
            &&& t.tables[id][n] == s.free[s.free.len() - 1]
            &&& forall|i: int| 0 <= i < n ==> #[trigger] t.tables[id][i] == s.tables[id][i]
            &&& t.free.len() == s.free.len() - 1
            &&& forall|i: int| 0 <= i < s.free.len() - 1 ==> #[trigger] t.free[i] == s.free[i]
            &&& forall|other: SeqId|
                other != id ==> (#[trigger] t.tables.contains_key(other) <==> s.tables.contains_key(
                    other,
                )) && t.tables[other] == s.tables[other]
        }),
{
}

/// A fork gives the new sequence the very blocks of its source, in order, and
/// changes nothing else.
pub proof fn law_fork_copies_the_table(s: AllocState, src: SeqId, dst: SeqId)
    requires
        s.tables.contains_key(src),
        !s.tables.contains_key(dst),
    ensures
        ({
            let t = s.forked(src, dst);
            &&& t.free == s.free
            &&& t.tables.contains_key(dst)
            &&& t.tables[dst] == s.tables[src]
            &&& forall|other: SeqId|
                other != dst ==> (#[trigger] t.tables.contains_key(other)
                    <==> s.tables.contains_key(other)) && t.tables[other] == s.tables[other]
        }),
{
}

/// Freeing a sequence drops its page table and no other, and returns to the free
/// stack, on top of what is there, exactly those of its blocks that no other
/// sequence holds: all of them, in page table order, if it shares none.
pub proof fn law_free_returns_unshared_blocks(s: AllocState, total: nat, id: SeqId)
    requires
        s.wf(total),
        s.tables.contains_key(id),
    ensures
        ({
            let t = s.freed(id);
            &&& !t.tables.contains_key(id)
            &&& forall|other: SeqId|
                other != id ==> (#[trigger] t.tables.contains_key(other) <==> s.tables.contains_key(
                    other,
                )) && t.tables[other] == s.tables[other]
            &&& forall|b: BlockId| #[trigger]
                t.free.contains(b) <==> s.free.contains(b) || (s.tables[id].contains(b) && forall|
                    other: SeqId,
                |
                    other != id && s.tables.contains_key(other) ==> !(
                    #[trigger] s.tables[other]).contains(b))
            &&& t.free.len() >= s.free.len()
            &&& forall|i: int| 0 <= i < s.free.len() ==> #[trigger] t.free[i] == s.free[i]
            &&& t.free.skip(s.free.len() as int) == s.tables[id].filter(
                |b: BlockId| t.free.contains(b),
            )
            &&& (forall|other: SeqId, b: BlockId|
                other != id && s.tables.contains_key(other) && #[trigger] s.tables[id].contains(b)
                    ==> !(#[trigger] s.tables[other]).contains(b)) ==> t.free == s.free
                + s.tables[id]
        }),
{
    let t = s.freed(id);
    crate::kv_model::lemma_freed_wf(s, total, id);
    assert forall|b: BlockId| #[trigger]
        t.free.contains(b) <==> s.free.contains(b) || (s.tables[id].contains(b) && forall|
            other: SeqId,
        |
            other != id && s.tables.contains_key(other) ==> !(#[trigger] s.tables[other]).contains(
                b,
            )) by {
        assert(t.free.contains(b) <==> b < total && !t.in_use(b));
        assert(s.free.contains(b) <==> b < total && !s.in_use(b));
        if s.tables[id].contains(b) {
            let i = choose|i: int| 0 <= i < s.tables[id].len() && s.tables[id][i] == b;
            assert(s.tables[id][i] < total);
            assert(s.tables.contains_key(id));
            assert(s.in_use(b));
        }
        if s.in_use(b) {
            let x = choose|x: SeqId| #[trigger] s.tables.contains_key(x) && s.tables[x].contains(b);
            if x != id {
                assert(t.tables.contains_key(x) && t.tables[x] == s.tables[x]);
            }
        }
        if t.in_use(b) {
            let x = choose|x: SeqId| #[trigger] t.tables.contains_key(x) && t.tables[x].contains(b);
            assert(s.tables.contains_key(x) && s.tables[x].contains(b) && x != id);
        }
    }
    let returned = |b: BlockId| t.free.contains(b);
    let unshared = |b: BlockId| s.refs(b) == 1;
    assert forall|i: int| 0 <= i < s.tables[id].len() implies returned(#[trigger] s.tables[id][i])
        == unshared(s.tables[id][i]) by {
        let b = s.tables[id][i];
        assert(s.tables[id].contains(b));
        assert(b < total);
        crate::kv_model::lemma_refs_zero(t, b);
        assert(s.refs(b) == t.refs(b) + 1);
        assert(t.free.contains(b) <==> b < total && !t.in_use(b));
    }
    crate::sched_lemmas::lemma_filter_agree(s.tables[id], returned, unshared);
    assert(t.free.skip(s.free.len() as int) =~= s.sole_blocks(id));
    if forall|other: SeqId, b: BlockId|
        other != id && s.tables.contains_key(other) && #[trigger] s.tables[id].contains(b) ==> !(
        #[trigger] s.tables[other]).contains(b) {
        let sole = |b: BlockId| s.refs(b) == 1;
        assert forall|i: int| 0 <= i < s.tables[id].len() implies sole(#[trigger] s.tables[id][i]) by {
            let b = s.tables[id][i];
            assert(s.tables[id].contains(b));
            assert(s.holders(b) =~= Set::empty().insert(id));
        }
        crate::sched_lemmas::lemma_filter_all(s.tables[id], sole);
    }
}

} // verus!
