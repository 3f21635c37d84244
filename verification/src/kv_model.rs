//! Mathematical model of the paged KV allocator: the stack of free blocks and
//! the page table of every registered sequence.

use vstd::prelude::*;

verus! {

/// Index of a physical KV block.
pub type BlockId = u32;

/// Identifier of a sequence.
pub type SeqId = u64;

/// What an allocator holds. `free` is a stack whose top is its last element.
#[verifier::ext_equal]
pub struct AllocState {
    pub free: Seq<BlockId>,
    pub tables: Map<SeqId, Seq<BlockId>>,
}

impl AllocState {
    /// How many blocks `num_tokens` tokens take. The padding before the
    /// division saturates at the largest `u32`.
    pub open spec fn blocks_for(num_tokens: u32, block_size: u32) -> nat
        recommends
            block_size > 0,
    {
        let padded = num_tokens + block_size - 1;
        (if padded > u32::MAX {
            u32::MAX as nat
        } else {
            padded as nat
        }) / block_size as nat
    }

    /// A pool of `total` blocks that are all free, block 0 on top.
    pub open spec fn fresh(total: nat) -> AllocState {
        AllocState {
            free: Seq::new(total, |i: int| (total - 1 - i) as BlockId),
            tables: Map::empty(),
        }
    }

    /// The sequences whose page table lists `b`.
    pub open spec fn holders(self, b: BlockId) -> Set<SeqId> {
        self.tables.dom().filter(|s: SeqId| self.tables[s].contains(b))
    }

    /// How many sequences share block `b`.
    pub open spec fn refs(self, b: BlockId) -> nat {
        self.holders(b).len()
    }

    /// Some sequence holds block `b`.
    pub open spec fn in_use(self, b: BlockId) -> bool {
        exists|s: SeqId| #[trigger] self.tables.contains_key(s) && self.tables[s].contains(b)
    }

    /// The blocks of a pool that some sequence holds.
    pub open spec fn used_blocks(self) -> Set<BlockId> {
        Set::new(|b: BlockId| self.in_use(b))
    }

    /// Every block of the pool is either on the free stack, once, or in some
    /// page table, and no page table lists a block twice.
    pub open spec fn wf(self, total: nat) -> bool {
        &&& self.tables.dom().finite()
        &&& self.free.no_duplicates()
        &&& forall|b: BlockId| #[trigger]
            self.free.contains(b) <==> b < total && !self.in_use(b)
        &&& forall|s: SeqId, i: int|
            #![trigger self.tables[s][i]]
            self.tables.contains_key(s) && 0 <= i < self.tables[s].len() ==> self.tables[s][i]
                < total
        &&& forall|s: SeqId|
            #![trigger self.tables[s]]
            self.tables.contains_key(s) ==> self.tables[s].no_duplicates()
    }

    /// The top `needed` blocks of the free stack, topmost first.
    pub open spec fn top_blocks(self, needed: nat) -> Seq<BlockId> {
        Seq::new(needed, |i: int| self.free[self.free.len() - 1 - i])
    }

    /// Sequence `id` registered with the top `needed` blocks.
    pub open spec fn allocated(self, id: SeqId, needed: nat) -> AllocState {
        AllocState {
            free: self.free.take(self.free.len() - needed),
            tables: self.tables.insert(id, self.top_blocks(needed)),
        }
    }

    /// The top block moved to the end of the page table of `id`.
    pub open spec fn grown(self, id: SeqId) -> AllocState {
        AllocState {
            free: self.free.drop_last(),
            tables: self.tables.insert(id, self.tables[id].push(self.free.last())),
        }
    }

    /// The page table of `src` shared with `dst`.
    pub open spec fn forked(self, src: SeqId, dst: SeqId) -> AllocState {
        AllocState { free: self.free, tables: self.tables.insert(dst, self.tables[src]) }
    }

    /// The blocks that no sequence but `id` holds, in page table order.
    pub open spec fn sole_blocks(self, id: SeqId) -> Seq<BlockId> {
        self.tables[id].filter(|b: BlockId| self.refs(b) == 1)
    }

    /// Sequence `id` dropped, its unshared blocks back on the free stack.
    pub open spec fn freed(self, id: SeqId) -> AllocState {
        if self.tables.contains_key(id) {
            AllocState {
                free: self.free + self.sole_blocks(id),
                tables: self.tables.remove(id),
            }
        } else {
            self
        }
    }

    /// `freed` for every sequence of `ids`, first to last.
    pub open spec fn freed_all(self, ids: Seq<SeqId>) -> AllocState
        decreases ids.len(),
    {
        if ids.len() == 0 {
            self
        } else {
            self.freed_all(ids.drop_last()).freed(ids.last())
        }
    }
}

/// A block has no reference exactly when no page table lists it.
pub proof fn lemma_refs_zero(s: AllocState, b: BlockId)
    requires
        s.tables.dom().finite(),
    ensures
        s.holders(b).finite(),
        s.refs(b) == 0 <==> !s.in_use(b),
{
    let h = s.holders(b);
    if s.in_use(b) {
        let id = choose|id: SeqId| #[trigger] s.tables.contains_key(id) && s.tables[id].contains(b);
        assert(h.contains(id));
    } else if h.len() != 0 {
        let id = h.choose();
        assert(h.contains(id));
        assert(s.tables.contains_key(id));
    }
}

/// The free stack of a pool never outgrows the pool.
pub proof fn lemma_free_len(s: AllocState, total: nat)
    requires
        s.wf(total),
    ensures
        s.free.len() <= total,
{
    let ids = s.free.map_values(|b: BlockId| b as int);
    assert(ids.no_duplicates());
    ids.unique_seq_to_set();
    let pool = vstd::set_lib::set_int_range(0, total as int);
    vstd::set_lib::lemma_int_range(0, total as int);
    assert forall|x: int| ids.to_set().contains(x) implies pool.contains(x) by {
        let i = choose|i: int| 0 <= i < ids.len() && ids[i] == x;
        assert(s.free.contains(s.free[i]));
    }
    vstd::set_lib::lemma_len_subset(ids.to_set(), pool);
}

/// Registering a new sequence adds one reference to each block it lists.
pub proof fn lemma_refs_insert(s: AllocState, t: AllocState, id: SeqId, table: Seq<BlockId>, b: BlockId)
    requires
        s.tables.dom().finite(),
        !s.tables.contains_key(id),
        t.tables == s.tables.insert(id, table),
    ensures
        t.refs(b) == s.refs(b) + (if table.contains(b) { 1nat } else { 0nat }),
{
    lemma_refs_zero(s, b);
    if table.contains(b) {
        assert(t.holders(b) =~= s.holders(b).insert(id));
    } else {
        assert(t.holders(b) =~= s.holders(b));
    }
}

/// Dropping a sequence takes one reference from each block it lists.
pub proof fn lemma_refs_remove(s: AllocState, t: AllocState, id: SeqId, b: BlockId)
    requires
        s.tables.dom().finite(),
        s.tables.contains_key(id),
        t.tables == s.tables.remove(id),
    ensures
        s.refs(b) == t.refs(b) + (if s.tables[id].contains(b) { 1nat } else { 0nat }),
{
    lemma_refs_zero(s, b);
    if s.tables[id].contains(b) {
        assert(t.holders(b) =~= s.holders(b).remove(id));
    } else {
        assert(t.holders(b) =~= s.holders(b));
    }
}

/// Appending a block to a page table leaves the references to every other
/// block alone.
pub proof fn lemma_refs_grow(s: AllocState, id: SeqId, b: BlockId)
    requires
        s.tables.dom().finite(),
        s.tables.contains_key(id),
        !s.in_use(s.free.last()),
    ensures
        s.grown(id).refs(b) == if b == s.free.last() { 1 } else { s.refs(b) },
{
    let t = s.grown(id);
    let old_table = s.tables[id];
    let new_table = old_table.push(s.free.last());
    lemma_refs_zero(s, b);
    if b == s.free.last() {
        assert(new_table[old_table.len() as int] == b);
        assert(t.holders(b) =~= s.holders(b).insert(id));
    } else {
        assert(new_table.contains(b) == old_table.contains(b)) by {
            if new_table.contains(b) {
                let i = choose|i: int| 0 <= i < new_table.len() && new_table[i] == b;
                assert(old_table[i] == b);
            }
            if old_table.contains(b) {
                let i = choose|i: int| 0 <= i < old_table.len() && old_table[i] == b;
                assert(new_table[i] == b);
            }
        }
        assert(t.holders(b) =~= s.holders(b));
    }
}

/// A fresh pool is well formed.
pub proof fn lemma_fresh_wf(total: nat)
    requires
        total <= u32::MAX + 1,
    ensures
        AllocState::fresh(total).wf(total),
{
    let s = AllocState::fresh(total);
    assert forall|b: BlockId| #[trigger] s.free.contains(b) <==> b < total && !s.in_use(b) by {
        if b < total {
            assert(s.free[total - 1 - b] == b);
        }
    }
}

/// Registering a sequence keeps the pool well formed, gives the new sequence
/// one reference to each of its blocks and leaves every other count alone.
pub proof fn lemma_allocated_wf(s: AllocState, total: nat, id: SeqId, needed: nat)
    requires
        s.wf(total),
        !s.tables.contains_key(id),
        needed <= s.free.len(),
    ensures
        s.allocated(id, needed).wf(total),
        forall|b: BlockId| #[trigger]
            s.allocated(id, needed).refs(b) == s.refs(b) + (if s.top_blocks(needed).contains(b) {
                1nat
            } else {
                0nat
            }),
        forall|b: BlockId| #[trigger] s.top_blocks(needed).contains(b) ==> s.refs(b) == 0,
{
    let t = s.allocated(id, needed);
    let table = s.top_blocks(needed);
    let n = s.free.len();
    assert forall|b: BlockId| #[trigger] t.refs(b) == s.refs(b) + (if table.contains(b) {
        1nat
    } else {
        0nat
    }) by {
        lemma_refs_insert(s, t, id, table, b);
    }
    assert forall|i: int| 0 <= i < table.len() implies s.free.contains(#[trigger] table[i]) by {
        assert(table[i] == s.free[n - 1 - i]);
    }
    assert forall|b: BlockId| #[trigger] table.contains(b) implies s.refs(b) == 0 by {
        lemma_refs_zero(s, b);
        assert(s.free.contains(b));
    }
    assert forall|b: BlockId| #[trigger] t.free.contains(b) <==> b < total && !t.in_use(b) by {
        assert(t.in_use(b) <==> s.in_use(b) || table.contains(b)) by {
            if s.in_use(b) {
                let x = choose|x: SeqId| #[trigger] s.tables.contains_key(x) && s.tables[x].contains(b);
                assert(t.tables.contains_key(x) && t.tables[x] == s.tables[x]);
            }
            if table.contains(b) {
                assert(t.tables.contains_key(id) && t.tables[id] == table);
            }
            if t.in_use(b) {
                let x = choose|x: SeqId| #[trigger] t.tables.contains_key(x) && t.tables[x].contains(b);
                assert(x == id || s.tables.contains_key(x) && t.tables[x] == s.tables[x]);
            }
        }
        if t.free.contains(b) {
            let i = choose|i: int| 0 <= i < t.free.len() && t.free[i] == b;
            assert(s.free[i] == b);
            assert(s.free.contains(b));
            if table.contains(b) {
                let j = choose|j: int| 0 <= j < table.len() && table[j] == b;
                assert(s.free[n - 1 - j] == b);
            }
        }
        if s.free.contains(b) && !table.contains(b) {
            let i = choose|i: int| 0 <= i < s.free.len() && s.free[i] == b;
            if i >= n - needed {
                assert(table[n - 1 - i] == b);
            }
            assert(t.free[i] == b);
        }
    }
    assert(t.tables[id].no_duplicates());
    assert forall|x: SeqId, i: int|
        #![trigger t.tables[x][i]]
        t.tables.contains_key(x) && 0 <= i < t.tables[x].len() implies t.tables[x][i] < total by {
        if x == id {
            assert(s.free.contains(table[i]));
        } else {
            assert(t.tables[x] == s.tables[x]);
        }
    }
}

/// Growing a sequence keeps the pool well formed.
pub proof fn lemma_grown_wf(s: AllocState, total: nat, id: SeqId)
    requires
        s.wf(total),
        s.tables.contains_key(id),
        s.free.len() > 0,
    ensures
        s.grown(id).wf(total),
        s.refs(s.free.last()) == 0,
        s.free.last() < total,
        forall|b: BlockId| #[trigger]
            s.grown(id).refs(b) == if b == s.free.last() { 1 } else { s.refs(b) },
{
    let t = s.grown(id);
    let fresh = s.free.last();
    let old_table = s.tables[id];
    let table = old_table.push(fresh);
    assert(s.free.contains(fresh));
    lemma_refs_zero(s, fresh);
    assert forall|b: BlockId| #[trigger] t.refs(b) == if b == fresh { 1 } else { s.refs(b) } by {
        lemma_refs_grow(s, id, b);
    }
    assert(!old_table.contains(fresh));
    assert(t.tables[id].no_duplicates());
    assert forall|b: BlockId| #[trigger] t.free.contains(b) <==> b < total && !t.in_use(b) by {
        lemma_refs_zero(s, b);
        lemma_refs_zero(t, b);
        assert(t.refs(b) == if b == fresh { 1 } else { s.refs(b) });
        if t.free.contains(b) {
            let i = choose|i: int| 0 <= i < t.free.len() && t.free[i] == b;
            assert(s.free[i] == b);
            assert(s.free.contains(b));
        }
        if s.free.contains(b) && b != fresh {
            let i = choose|i: int| 0 <= i < s.free.len() && s.free[i] == b;
            assert(t.free[i] == b);
        }
    }
    assert forall|x: SeqId, i: int|
        #![trigger t.tables[x][i]]
        t.tables.contains_key(x) && 0 <= i < t.tables[x].len() implies t.tables[x][i] < total by {
        if x == id {
            if i < old_table.len() {
                assert(table[i] == s.tables[id][i]);
            }
        } else {
            assert(t.tables[x] == s.tables[x]);
        }
    }
}

/// Forking a sequence keeps the pool well formed and adds one reference to
/// each shared block.
pub proof fn lemma_forked_wf(s: AllocState, total: nat, src: SeqId, dst: SeqId)
    requires
        s.wf(total),
        s.tables.contains_key(src),
        !s.tables.contains_key(dst),
    ensures
        s.forked(src, dst).wf(total),
        forall|b: BlockId| #[trigger]
            s.forked(src, dst).refs(b) == s.refs(b) + (if s.tables[src].contains(b) {
                1nat
            } else {
                0nat
            }),
{
    let t = s.forked(src, dst);
    assert forall|b: BlockId| #[trigger] t.refs(b) == s.refs(b) + (if s.tables[src].contains(b) {
        1nat
    } else {
        0nat
    }) by {
        lemma_refs_insert(s, t, dst, s.tables[src], b);
    }
    assert forall|b: BlockId| #[trigger] t.free.contains(b) <==> b < total && !t.in_use(b) by {
        lemma_refs_zero(s, b);
        lemma_refs_zero(t, b);
        assert(t.refs(b) == s.refs(b) + (if s.tables[src].contains(b) { 1nat } else { 0nat }));
        if s.tables[src].contains(b) {
            assert(s.tables.contains_key(src));
            assert(s.in_use(b));
        }
        assert(s.free.contains(b) <==> b < total && !s.in_use(b));
    }
    assert forall|x: SeqId, i: int|
        #![trigger t.tables[x][i]]
        t.tables.contains_key(x) && 0 <= i < t.tables[x].len() implies t.tables[x][i] < total by {
        if x == dst {
            assert(t.tables[x][i] == s.tables[src][i]);
        } else {
            assert(t.tables[x][i] == s.tables[x][i]);
        }
    }
}

/// Filtering a sequence without repetitions leaves none, and keeps exactly the
/// elements that satisfy the predicate.
pub proof fn lemma_filter_distinct<A>(s: Seq<A>, pred: spec_fn(A) -> bool)
    requires
        s.no_duplicates(),
    ensures
        s.filter(pred).no_duplicates(),
        forall|x: A| #[trigger] s.filter(pred).contains(x) <==> s.contains(x) && pred(x),
    decreases s.len(),
{
    reveal(Seq::filter);
    if s.len() > 0 {
        let rest = s.drop_last();
        lemma_filter_distinct(rest, pred);
        assert(s =~= rest.push(s.last()));
        assert(!rest.contains(s.last()));
        assert(!rest.filter(pred).contains(s.last()));
        assert forall|x: A| #[trigger] s.filter(pred).contains(x) <==> s.contains(x) && pred(x) by {
            let f = rest.filter(pred);
            assert(s.contains(x) <==> rest.contains(x) || x == s.last()) by {
                if rest.contains(x) {
                    let i = choose|i: int| 0 <= i < rest.len() && rest[i] == x;
                    assert(s[i] == x);
                }
            }
            assert(f.push(s.last()).contains(x) <==> f.contains(x) || x == s.last()) by {
                assert(f.push(s.last())[f.len() as int] == s.last());
                if f.contains(x) {
                    let i = choose|i: int| 0 <= i < f.len() && f[i] == x;
                    assert(f.push(s.last())[i] == x);
                }
            }
        }
    }
}

/// Dropping a sequence keeps the pool well formed.
pub proof fn lemma_freed_wf(s: AllocState, total: nat, id: SeqId)
    requires
        s.wf(total),
    ensures
        s.freed(id).wf(total),
        s.tables.contains_key(id) ==> forall|b: BlockId| #[trigger]
            s.refs(b) == s.freed(id).refs(b) + (if s.tables[id].contains(b) {
                1nat
            } else {
                0nat
            }),
{
    if s.tables.contains_key(id) {
        let t = s.freed(id);
        let table = s.tables[id];
        let sole = |b: BlockId| s.refs(b) == 1;
        let back = s.sole_blocks(id);
        assert forall|b: BlockId| #[trigger] s.refs(b) == t.refs(b) + (if table.contains(b) {
            1nat
        } else {
            0nat
        }) by {
            lemma_refs_remove(s, t, id, b);
        }
        lemma_filter_distinct(table, sole);
        assert forall|b: BlockId| back.contains(b) implies !s.free.contains(b) by {
            assert(table.contains(b));
            assert(s.tables.contains_key(id));
            assert(s.in_use(b));
        }
        assert forall|b: BlockId| #[trigger] t.free.contains(b) <==> b < total && !t.in_use(b) by {
            lemma_refs_zero(s, b);
            lemma_refs_zero(t, b);
            assert(s.refs(b) == t.refs(b) + (if table.contains(b) { 1nat } else { 0nat }));
            assert(t.free.contains(b) <==> s.free.contains(b) || back.contains(b)) by {
                if s.free.contains(b) {
                    let i = choose|i: int| 0 <= i < s.free.len() && s.free[i] == b;
                    assert(t.free[i] == b);
                }
                if back.contains(b) {
                    let i = choose|i: int| 0 <= i < back.len() && back[i] == b;
                    assert(t.free[s.free.len() + i] == b);
                }
            }
            if table.contains(b) {
                let i = choose|i: int| 0 <= i < table.len() && table[i] == b;
                assert(s.tables[id][i] < total);
            }
        }
        assert(t.free.no_duplicates()) by {
            assert forall|i: int, j: int|
                0 <= i < t.free.len() && 0 <= j < t.free.len() && i != j implies t.free[i]
                != t.free[j] by {
                let n = s.free.len() as int;
                if i < n && j >= n {
                    assert(s.free.contains(s.free[i]));
                    assert(back.contains(back[j - n]));
                } else if i >= n && j < n {
                    assert(s.free.contains(s.free[j]));
                    assert(back.contains(back[i - n]));
                }
            }
        }
        assert forall|x: SeqId, i: int|
            #![trigger t.tables[x][i]]
            t.tables.contains_key(x) && 0 <= i < t.tables[x].len() implies t.tables[x][i]
            < total by {
            assert(t.tables[x][i] == s.tables[x][i]);
        }
    }
}

} // verus!
