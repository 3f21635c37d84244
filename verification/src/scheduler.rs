//! Continuous batching scheduler. Every decode step admits whatever new
//! requests fit, advances the whole running batch by one token, and evicts
//! what just finished.

use crate::kv_cache::{BlockAllocator, SeqId};
pub use crate::request::Request;
use crate::sched_model::{Answer, Entry, SchedState};
use crate::token_source::TokenSource;
use std::collections::{HashMap, VecDeque};
use vstd::prelude::*;

verus! {

broadcast use vstd::std_specs::hash::group_hash_axioms;

/// Errors returned by [`Scheduler::enqueue`].
#[derive(Debug, PartialEq, Eq, Clone, Copy)]
pub enum SchedulerError {
    /// The prompt alone is bigger than `max_batch_tokens`, so the request could
    /// never be admitted. Admission is strictly first come, first served:
    /// queueing it would block everyone behind it forever.
    PromptExceedsBatchBudget { seq_id: SeqId, prompt_tokens: u32, max_batch_tokens: u32 },
}

/// The admission caps.
pub struct SchedulerConfig {
    /// Cap on the total tokens (prompt and already generated) of the whole
    /// running batch, which bounds accelerator memory and step latency. Whenever
    /// a request joins, the batch is within the cap with it; from there it grows
    /// by the tokens that it decodes. A preempted request that has outgrown the
    /// cap by itself is taken in when nothing else runs, and runs alone.
    pub max_batch_tokens: u32,
    pub max_running_seqs: usize,
}

/// The waiting queue, the running batch and the KV block pool.
pub struct Scheduler {
    cfg: SchedulerConfig,
    allocator: BlockAllocator,
    waiting: VecDeque<Request>,
    running: Vec<Request>,
}

/// What one decode step did.
pub struct StepReport {
    /// The sequences that got a token that stands.
    pub ran: Vec<SeqId>,
    pub admitted: Vec<SeqId>,
    pub finished: Vec<SeqId>,
    /// The sequences sent back to the queue for want of a KV block. Their token
    /// of this step is not announced: they are not in `ran`.
    pub preempted: Vec<SeqId>,
    /// seq_id -> `generated` count *after* this step, for every seq_id in
    /// `ran`.
    pub generated_counts: HashMap<SeqId, u32>,
}

impl View for Scheduler {
    type V = SchedState;

    closed spec fn view(&self) -> SchedState {
        SchedState {
            max_batch_tokens: self.cfg.max_batch_tokens,
            max_running_seqs: self.cfg.max_running_seqs,
            block_size: self.allocator.block_size(),
            alloc: self.allocator@,
            waiting: self.waiting@,
            running: self.running@,
        }
    }
}

impl StepReport {
    /// The report is that of a step from state `s` with these answers.
    pub open spec fn tells(&self, s: SchedState, answers: Seq<Answer>) -> bool {
        let es = s.admitted().decoded(answers).entries;
        &&& self.admitted@ == Request::ids(s.waiting.take(s.admissions() as int))
        &&& self.ran@ == Entry::ids(Entry::served(es))
        &&& self.finished@ == Entry::ids(Entry::ending(es))
        &&& self.preempted@ == Entry::ids(Entry::displaced(es))
        &&& self.generated_counts@ == Entry::counts(es)
    }
}

/// The backend may be asked for a token of every request that still wants one.
pub open spec fn may_ask<F: FnMut(&SeqId) -> bool>(step_fn: F, rs: Seq<Request>) -> bool {
    forall|i: int|
        0 <= i < rs.len() && !(#[trigger] rs[i]).done() ==> call_requires(
            step_fn,
            (&rs[i].seq_id,),
        )
}

/// `answers` holds, for every request that still wanted a token, what the
/// backend may say to it, and for its first token what the clock may say.
pub open spec fn answered_by<F: FnMut(&SeqId) -> bool>(
    step_fn: F,
    rs: Seq<Request>,
    answers: Seq<Answer>,
) -> bool {
    &&& answers.len() == rs.len()
    &&& forall|i: int|
        0 <= i < rs.len() && !(#[trigger] rs[i]).done() ==> call_ensures(
            step_fn,
            (&rs[i].seq_id,),
            answers[i].eos,
        )
    &&& forall|i: int|
        0 <= i < rs.len() && !(#[trigger] rs[i]).done() && rs[i].first_token_at is None
            ==> crate::request::clock_may_say(answers[i].now)
}

/// Whether `id` is in `list`.
pub(crate) fn contains_id(list: &Vec<SeqId>, id: SeqId) -> (b: bool)
    ensures
        b == list@.contains(id),
{
    let mut i: usize = 0;
    while i < list.len()
        invariant
            i <= list@.len(),
            forall|k: int| 0 <= k < i ==> list@[k] != id,
        decreases list@.len() - i,
    {
        if list[i] == id {
            assert(list@[i as int] == id);
            return true;
        }
        i = i + 1;
    }
    false
}

impl Scheduler {
    /// The block pool.
    pub closed spec fn pool(&self) -> BlockAllocator {
        self.allocator
    }

    /// The pool is well formed, and each running request is there once and has
    /// its page table.
    pub open spec fn wf(&self) -> bool {
        &&& self.pool().wf()
        &&& self@.wf(self.pool().total_blocks() as nat)
    }

    /// A scheduler with nothing to do.
    pub fn new(cfg: SchedulerConfig, allocator: BlockAllocator) -> (s: Self)
        ensures
            s.pool() == allocator,
            s@ == (SchedState {
                max_batch_tokens: cfg.max_batch_tokens,
                max_running_seqs: cfg.max_running_seqs,
                block_size: allocator.block_size(),
                alloc: allocator@,
                waiting: Seq::empty(),
                running: Seq::empty(),
            }),
            allocator.wf() ==> s.wf(),
    {
        Scheduler { cfg, allocator, waiting: VecDeque::new(), running: Vec::new() }
    }

    /// Queue a request for admission. A request whose prompt alone exceeds
    /// `max_batch_tokens` is rejected and not queued.
    pub fn enqueue(&mut self, req: Request) -> (r: Result<(), SchedulerError>)
        ensures
            final(self).pool() == old(self).pool(),
            old(self).wf() ==> final(self).wf(),
            if req.prompt_tokens > old(self)@.max_batch_tokens {
                &&& r == Err::<(), SchedulerError>(
                    SchedulerError::PromptExceedsBatchBudget {
                        seq_id: req.seq_id,
                        prompt_tokens: req.prompt_tokens,
                        max_batch_tokens: old(self)@.max_batch_tokens,
                    },
                )
                &&& final(self)@ == old(self)@
            } else {
                &&& r == Ok::<(), SchedulerError>(())
                &&& final(self)@.waiting == old(self)@.waiting.push(req)
                &&& final(self)@.running == old(self)@.running
                &&& final(self)@ == old(self)@.enqueued(req)
            },
    {
        if req.prompt_tokens > self.cfg.max_batch_tokens {
            return Err(
                SchedulerError::PromptExceedsBatchBudget {
                    seq_id: req.seq_id,
                    prompt_tokens: req.prompt_tokens,
                    max_batch_tokens: self.cfg.max_batch_tokens,
                },
            );
        }
        self.waiting.push_back(req);
        Ok(())
    }

    /// The tokens of the running batch.
    fn running_token_budget(&self) -> (n: u128)
        ensures
            n == Request::batch_tokens(self@.running),
            n <= usize::MAX * 0x2_0000_0000,
    {
        let mut sum: u128 = 0;
        let mut i: usize = 0;
        assert(self.running@.take(0) =~= Seq::<Request>::empty());
        while i < self.running.len()
            invariant
                i <= self.running@.len(),
                sum == Request::batch_tokens(self.running@.take(i as int)),
                sum <= i * 0x2_0000_0000,
            decreases self.running@.len() - i,
        {
            assert(self.running@.take(i + 1).drop_last() =~= self.running@.take(i as int));
            let r = &self.running[i];
            sum = sum + (r.prompt_tokens as u128 + r.generated as u128);
            i = i + 1;
        }
        assert(self.running@.take(i as int) =~= self.running@);
        sum
    }

    /// Whether the caps let the head of the queue join the batch.
    fn head_within_caps(&self) -> (b: bool)
        requires
            self@.waiting.len() > 0,
        ensures
            b == self@.caps_allow(0),
    {
        assert(self@.running + self@.waiting.take(0) =~= self@.running);
        if self.running.len() >= self.cfg.max_running_seqs {
            return false;
        }
        let front = &self.waiting[0];
        if self.running.len() == 0 {
            return front.prompt_tokens <= self.cfg.max_batch_tokens;
        }
        let context_tokens = front.prompt_tokens as u128 + front.generated as u128;
        self.running_token_budget() + context_tokens <= self.cfg.max_batch_tokens as u128
    }

    /// Whether the next step has to know how many tokens a block holds.
    pub fn needs_block_size(&self) -> (b: bool)
        ensures
            b == self@.needs_block_size(),
    {
        self.running.len() > 0 || (self.waiting.len() > 0 && self.head_within_caps())
    }

    /// Admit as many waiting requests as fit under the batch-token and
    /// max-running-seqs caps, respecting KV block availability. A request that
    /// does not fit stays at the front of the queue; no later, smaller request
    /// jumps it.
    fn admit_waiting(&mut self) -> (admitted: Vec<SeqId>)
        requires
            old(self).wf(),
            old(self)@.admits_cleanly(),
            old(self)@.needs_block_size() ==> old(self)@.block_size > 0,
        ensures
            final(self).wf(),
            final(self).pool().total_blocks() == old(self).pool().total_blocks(),
            final(self)@ == old(self)@.admitted(),
            admitted@ == Request::ids(
                old(self)@.waiting.take(old(self)@.admissions() as int),
            ),
    {
        let mut admitted: Vec<SeqId> = Vec::new();
        let ghost s = self@;
        let ghost total = self.pool().total_blocks();
        let ghost mut j: nat = 0;
        proof {
            crate::sched_lemmas::lemma_admit_count(s, 0);
            assert(s.waiting.skip(0) =~= s.waiting);
            assert(s.running + s.waiting.take(0) =~= s.running);
        }
        while self.waiting.len() > 0
            invariant
                self.pool().wf(),
                self.pool().total_blocks() == total,
                total == old(self).pool().total_blocks(),
                s == old(self)@,
                s.wf(total as nat),
                s.admits_cleanly(),
                s.needs_block_size() ==> s.block_size > 0,
                j > 0 ==> s.needs_block_size(),
                j <= s.admissions() <= s.waiting.len(),
                s.admit_count(j) == s.admissions(),
                self@ == (SchedState {
                    alloc: s.alloc_after(j),
                    waiting: s.waiting.skip(j as int),
                    running: s.running + s.waiting.take(j as int),
                    ..s
                }),
                admitted@ == Request::ids(s.waiting.take(j as int)),
            ensures
                j == s.admissions(),
            decreases self.waiting@.len(),
        {
            assert(self.waiting@[0] == s.waiting[j as int]);
            proof {
                assert(self@.running + self@.waiting.take(0) =~= self@.running);
                assert(self@.caps_allow(0) == s.caps_allow(j));
            }
            if !self.head_within_caps() {
                break;
            }
            assert(s.caps_allow(j));
            let req = self.waiting.pop_front().unwrap();
            // Reserve blocks for the request's full context so far, not just
            // its prompt: one that comes back from a preemption already has
            // tokens behind it.
            let context_tokens = req.prompt_tokens.saturating_add(req.generated);
            match self.allocator.allocate_seq(req.seq_id, context_tokens) {
                Ok(()) => {
                    admitted.push(req.seq_id);
                    self.running.push(req);
                    proof {
                        assert(s.fits(j));
                        assert(s.waiting.take(j + 1int) =~= s.waiting.take(j as int).push(req));
                        assert(s.waiting.skip(j + 1int) =~= s.waiting.skip(j as int).subrange(
                            1,
                            s.waiting.len() - j,
                        ));
                        assert(self.running@ =~= s.running + s.waiting.take(j + 1int));
                        assert(admitted@ =~= Request::ids(s.waiting.take(j + 1int)));
                        crate::sched_lemmas::lemma_admit_count(s, j + 1);
                        j = j + 1;
                    }
                },
                Err(_) => {
                    // out of blocks: put it back, stop admitting this step
                    self.waiting.push_front(req);
                    proof {
                        assert(!s.fits(j));
                        assert(self.waiting@ =~= s.waiting.skip(j as int));
                    }
                    break;
                },
            }
        }
        proof {
            crate::sched_lemmas::lemma_admitted_prefix_wf(s, total as nat, j);
        }
        admitted
    }

    /// Take the finished requests out of the batch and free their blocks.
    fn drop_finished(&mut self, finished: &Vec<SeqId>)
        requires
            old(self).pool().wf(),
        ensures
            final(self).pool().wf(),
            final(self).pool().total_blocks() == old(self).pool().total_blocks(),
            final(self)@ == (SchedState {
                alloc: old(self)@.alloc.freed_all(finished@),
                running: old(self)@.running.filter(
                    |r: Request| !finished@.contains(r.seq_id),
                ),
                ..old(self)@
            }),
    {
        let ghost s = self@;
        let ghost total = self.pool().total_blocks();
        let ghost keep = |r: Request| !finished@.contains(r.seq_id);
        let ghost mut seen: int = 0;
        let mut i: usize = 0;
        proof {
            reveal(Seq::filter);
            assert(s.running.take(0).filter(keep) =~= Seq::<Request>::empty());
            assert(self.running@ =~= s.running.take(0).filter(keep) + s.running.skip(0));
        }
        while i < self.running.len()
            invariant
                0 <= seen <= s.running.len(),
                s == old(self)@,
                keep == (|r: Request| !finished@.contains(r.seq_id)),
                self.pool() == old(self).pool(),
                self@ == (SchedState { running: self.running@, ..s }),
                self.running@ == s.running.take(seen).filter(keep) + s.running.skip(seen),
                i == s.running.take(seen).filter(keep).len(),
            decreases s.running.len() - seen,
        {
            let ghost r = s.running[seen];
            proof {
                assert(self.running@[i as int] == r);
                assert(s.running.take(seen + 1) =~= s.running.take(seen).push(r));
                crate::sched_lemmas::lemma_filter_push(s.running.take(seen), r, keep);
            }
            if contains_id(finished, self.running[i].seq_id) {
                self.running.remove(i);
                assert(self.running@ =~= s.running.take(seen + 1).filter(keep) + s.running.skip(
                    seen + 1,
                ));
            } else {
                i = i + 1;
                assert(self.running@ =~= s.running.take(seen + 1).filter(keep) + s.running.skip(
                    seen + 1,
                ));
            }
            proof {
                seen = seen + 1;
            }
        }
        assert(s.running.take(seen) =~= s.running);
        assert(self.running@ =~= s.running.filter(keep));
        let mut k: usize = 0;
        assert(finished@.take(0) =~= Seq::<SeqId>::empty());
        while k < finished.len()
            invariant
                k <= finished@.len(),
                s == old(self)@,
                total == old(self).pool().total_blocks(),
                self.pool().wf(),
                self.pool().total_blocks() == total,
                self@ == (SchedState {
                    alloc: s.alloc.freed_all(finished@.take(k as int)),
                    running: s.running.filter(keep),
                    ..s
                }),
            decreases finished@.len() - k,
        {
            self.allocator.free_seq(finished[k]);
            assert(finished@.take(k + 1).drop_last() =~= finished@.take(k as int));
            k = k + 1;
        }
        assert(finished@.take(k as int) =~= finished@);
    }

    /// Move the preempted requests to the front of the queue, in the order in
    /// which they came, and free their blocks.
    fn requeue_preempted(&mut self, preempted: &Vec<SeqId>)
        requires
            old(self).pool().wf(),
        ensures
            final(self).pool().wf(),
            final(self).pool().total_blocks() == old(self).pool().total_blocks(),
            ({
                let moved = old(self)@.running.filter(
                    |r: Request| preempted@.contains(r.seq_id),
                );
                final(self)@ == (SchedState {
                    alloc: old(self)@.alloc.freed_all(Request::ids(moved)),
                    waiting: moved + old(self)@.waiting,
                    running: old(self)@.running.filter(
                        |r: Request| !preempted@.contains(r.seq_id),
                    ),
                    ..old(self)@
                })
            }),
    {
        let ghost s = self@;
        let ghost total = self.pool().total_blocks();
        let ghost go = |r: Request| preempted@.contains(r.seq_id);
        let ghost keep = |r: Request| !preempted@.contains(r.seq_id);
        let ghost mut seen: int = 0;
        let mut moved: Vec<Request> = Vec::new();
        let mut i: usize = 0;
        proof {
            reveal(Seq::filter);
            assert(s.running.take(0).filter(keep) =~= Seq::<Request>::empty());
            assert(s.running.take(0).filter(go) =~= Seq::<Request>::empty());
            assert(self.running@ =~= s.running.take(0).filter(keep) + s.running.skip(0));
            assert(Request::ids(s.running.take(0).filter(go)) =~= Seq::<SeqId>::empty());
        }
        while i < self.running.len()
            invariant
                0 <= seen <= s.running.len(),
                s == old(self)@,
                total == old(self).pool().total_blocks(),
                go == (|r: Request| preempted@.contains(r.seq_id)),
                keep == (|r: Request| !preempted@.contains(r.seq_id)),
                self.pool().wf(),
                self.pool().total_blocks() == total,
                self@ == (SchedState {
                    alloc: s.alloc.freed_all(Request::ids(s.running.take(seen).filter(go))),
                    running: self.running@,
                    ..s
                }),
                moved@ == s.running.take(seen).filter(go),
                self.running@ == s.running.take(seen).filter(keep) + s.running.skip(seen),
                i == s.running.take(seen).filter(keep).len(),
            decreases s.running.len() - seen,
        {
            let ghost r = s.running[seen];
            let ghost so_far = s.running.take(seen).filter(go);
            proof {
                assert(self.running@[i as int] == r);
                assert(s.running.take(seen + 1) =~= s.running.take(seen).push(r));
                crate::sched_lemmas::lemma_filter_push(s.running.take(seen), r, keep);
                crate::sched_lemmas::lemma_filter_push(s.running.take(seen), r, go);
            }
            if contains_id(preempted, self.running[i].seq_id) {
                let req = self.running.remove(i);
                self.allocator.free_seq(req.seq_id);
                moved.push(req);
                proof {
                    assert(self.running@ =~= s.running.take(seen + 1).filter(keep)
                        + s.running.skip(seen + 1));
                    assert(Request::ids(so_far.push(r)) =~= Request::ids(so_far).push(r.seq_id));
                    assert(Request::ids(so_far).push(r.seq_id).drop_last() =~= Request::ids(
                        so_far,
                    ));
                }
            } else {
                i = i + 1;
                assert(self.running@ =~= s.running.take(seen + 1).filter(keep) + s.running.skip(
                    seen + 1,
                ));
            }
            proof {
                seen = seen + 1;
            }
        }
        assert(s.running.take(seen) =~= s.running);
        assert(self.running@ =~= s.running.filter(keep));
        let ghost all = moved@;
        assert(self.waiting@ =~= all.skip(all.len() as int) + s.waiting);
        assert(moved@ =~= all.take(all.len() as int));
        while moved.len() > 0
            invariant
                s == old(self)@,
                total == old(self).pool().total_blocks(),
                go == (|r: Request| preempted@.contains(r.seq_id)),
                keep == (|r: Request| !preempted@.contains(r.seq_id)),
                all == s.running.filter(go),
                moved@.len() <= all.len(),
                moved@ == all.take(moved@.len() as int),
                self.pool().wf(),
                self.pool().total_blocks() == total,
                self@ == (SchedState {
                    alloc: s.alloc.freed_all(Request::ids(all)),
                    waiting: all.skip(moved@.len() as int) + s.waiting,
                    running: s.running.filter(keep),
                    ..s
                }),
            decreases moved@.len(),
        {
            let ghost n = moved@.len() as int;
            let req = moved.pop().unwrap();
            self.waiting.push_front(req);
            proof {
                assert(req == all[n - 1]);
                assert(moved@ =~= all.take(n - 1));
                assert(self.waiting@ =~= all.skip(n - 1) + s.waiting);
            }
        }
        assert(all.skip(0) =~= all);
    }

    /// One decode step: take in new work, then advance every running sequence
    /// by one token via `step_fn` (the compute backend), growing KV blocks as
    /// needed, and retire what just finished. The backend is asked once, in batch
    /// order, for each sequence that still wants a token, and for no other.
    ///
    /// A sequence that needs a block when none is left goes back to the front of
    /// the queue; it is then neither in `ran` nor in `finished`.
    pub fn step<F>(&mut self, step_fn: &mut TokenSource<F>) -> (report: StepReport) where
        F: FnMut(&SeqId) -> bool,

        requires
            old(self).wf(),
            old(self)@.admits_cleanly(),
            old(self)@.needs_block_size() ==> old(self)@.block_size > 0,
            may_ask(old(step_fn).asked(), old(self)@.admitted().running),
        ensures
            final(self).wf(),
            final(self).pool().total_blocks() == old(self).pool().total_blocks(),
            final(step_fn).asked() == old(step_fn).asked(),
            exists|answers: Seq<Answer>|
                {
                    &&& answered_by(
                        old(step_fn).asked(),
                        old(self)@.admitted().running,
                        answers,
                    )
                    &&& final(step_fn).log() == old(step_fn).log() + SchedState::calls_of(
                        old(self)@.admitted().running,
                        answers,
                    )
                    &&& final(self)@ == #[trigger] old(self)@.stepped(answers)
                    &&& report.tells(old(self)@, answers)
                },
    {
        let ghost s0 = self@;
        let ghost total = self.pool().total_blocks();
        let ghost asked = step_fn.asked();
        let ghost log = step_fn.log();
        let admitted = self.admit_waiting();
        let ghost s = self@;
        proof {
            crate::sched_lemmas::lemma_admit_count(s0, 0);
            if s0.admissions() > 0 {
                assert(s0.fits(0));
            }
        }
        let mut ran: Vec<SeqId> = Vec::with_capacity(self.running.len());
        let mut finished: Vec<SeqId> = Vec::new();
        let mut preempted: Vec<SeqId> = Vec::new();
        let mut generated_counts: HashMap<SeqId, u32> = HashMap::new();
        let ghost mut answers: Seq<Answer> = Seq::empty();
        let mut i: usize = 0;
        proof {
            reveal(Seq::filter);
            let none = Seq::<Entry>::empty();
            assert(Entry::ids(Entry::served(none)) =~= Seq::<SeqId>::empty());
            assert(Entry::ids(Entry::ending(none)) =~= Seq::<SeqId>::empty());
            assert(Entry::ids(Entry::displaced(none)) =~= Seq::<SeqId>::empty());
            assert(self.running@ =~= Entry::requests(none) + s.running.skip(0));
            assert(log =~= log + SchedState::calls_of(s.running.take(0), answers));
        }
        while i < self.running.len()
            invariant
                i <= s.running.len(),
                self.running@.len() == s.running.len(),
                s.wf(total as nat),
                s.block_size > 0 || s.running.len() == 0,
                self.pool().wf(),
                self.pool().total_blocks() == total,
                step_fn.asked() == asked,
                may_ask(asked, s.running),
                step_fn.log() == log + SchedState::calls_of(s.running.take(i as int), answers),
                answers.len() == i,
                self@ == (SchedState {
                    alloc: s.decoded(answers).alloc,
                    running: Entry::requests(s.decoded(answers).entries) + s.running.skip(i as int),
                    ..s
                }),
                ran@ == Entry::ids(Entry::served(s.decoded(answers).entries)),
                finished@ == Entry::ids(Entry::ending(s.decoded(answers).entries)),
                preempted@ == Entry::ids(Entry::displaced(s.decoded(answers).entries)),
                generated_counts@ == Entry::counts(s.decoded(answers).entries),
                forall|k: int|
                    0 <= k < i && !(#[trigger] s.running[k]).done() ==> call_ensures(
                        asked,
                        (&s.running[k].seq_id,),
                        answers[k].eos,
                    ),
                forall|k: int|
                    0 <= k < i && !(#[trigger] s.running[k]).done() && s.running[k].first_token_at
                        is None ==> crate::request::clock_may_say(answers[k].now),
            decreases s.running.len() - i,
        {
            let ghost d = s.decoded(answers);
            let ghost r = s.running[i as int];
            proof {
                crate::sched_lemmas::lemma_decoded(s, total as nat, answers);
                assert(self.running@[i as int] == r);
                assert(s.alloc.tables.contains_key(r.seq_id));
                assert(d.alloc.tables.dom().contains(r.seq_id));
            }
            let seq_id = self.running[i].seq_id;
            if self.running[i].is_done() {
                // it was done the moment it was admitted: no token to ask for
                finished.push(seq_id);
                proof {
                    let answer = Answer { eos: false, now: r.arrival };
                    let more = answers.push(answer);
                    let (alloc, entry) = Entry::decode(d.alloc, s.block_size, r, answer);
                    assert(more.drop_last() =~= answers);
                    crate::sched_lemmas::lemma_calls_push(s.running, answers, answer);
                    crate::sched_lemmas::lemma_push_entry(d.entries, entry);
                    assert(self.running@ =~= Entry::requests(d.entries.push(entry))
                        + s.running.skip(i + 1));
                    answers = more;
                }
                i = i + 1;
                continue ;
            }
            let eos = step_fn.ask(&seq_id);
            self.running[i].generated += 1;
            if self.running[i].first_token_at.is_none() {
                self.running[i].first_token_at = Some(crate::request::read_now());
            }
            let generated = self.running[i].generated;
            let ghost now = self.running@[i as int].first_token_at->0;
            let ghost answer = Answer { eos, now };
            let ghost more = answers.push(answer);
            let ghost (alloc, entry) = Entry::decode(d.alloc, s.block_size, r, answer);
            proof {
                assert(more.drop_last() =~= answers);
                crate::sched_lemmas::lemma_calls_push(s.running, answers, answer);
                crate::sched_lemmas::lemma_push_entry(d.entries, entry);
                assert(self.running@[i as int] == r.with_token(now));
                assert(self.running@ =~= Entry::requests(d.entries.push(entry)) + s.running.skip(
                    i + 1,
                ));
            }
            // Grow the KV cache every block_size tokens. Out of blocks, the
            // sequence is preempted rather than left to decode with nowhere to
            // put its KV.
            if generated % self.allocator.block_size() == 0 && self.allocator.grow_seq(
                seq_id,
            ).is_err() {
                preempted.push(seq_id);
            } else {
                ran.push(seq_id);
                generated_counts.insert(seq_id, generated);
                if eos || self.running[i].is_done() {
                    finished.push(seq_id);
                }
            }
            proof {
                answers = more;
            }
            i = i + 1;
        }
        let ghost d = s.decoded(answers);
        proof {
            crate::sched_lemmas::lemma_decoded(s, total as nat, answers);
            assert(self.running@ =~= Entry::requests(d.entries));
            assert(s.running.take(i as int) =~= s.running);
            assert(Entry::ids(d.entries) =~= Request::ids(s.running));
            crate::sched_lemmas::lemma_split_by_outcome(d.entries);
            assert forall|k: int| 0 <= k < d.entries.len() implies d.alloc.tables.contains_key(
                (#[trigger] d.entries[k]).request.seq_id,
            ) by {
                assert(s.alloc.tables.contains_key(s.running[k].seq_id));
                assert(d.alloc.tables.dom().contains(s.running[k].seq_id));
            }
            crate::sched_lemmas::lemma_retired_wf(s, total as nat, d);
        }
        self.drop_finished(&finished);
        self.requeue_preempted(&preempted);
        let report = StepReport { ran, admitted, finished, preempted, generated_counts };
        assert(self@ == s0.stepped(answers));
        assert(report.tells(s0, answers));
        report
    }

    /// Whether anything waits or runs.
    pub fn has_work(&self) -> (b: bool)
        ensures
            b == (self@.waiting.len() > 0 || self@.running.len() > 0),
            b == !self@.idle(),
    {
        self.waiting.len() != 0 || self.running.len() != 0
    }

    /// How many sequences run.
    pub fn running_count(&self) -> (n: usize)
        ensures
            n == self@.running.len(),
    {
        self.running.len()
    }

    /// How many requests wait.
    pub fn waiting_count(&self) -> (n: usize)
        ensures
            n == self@.waiting.len(),
    {
        self.waiting.len()
    }

    /// How many KV blocks are free.
    pub fn free_kv_blocks(&self) -> (n: u32)
        requires
            self.wf(),
        ensures
            n == self@.alloc.free.len(),
    {
        self.allocator.num_free_blocks()
    }

    /// The block pool, to read.
    pub fn allocator(&self) -> (a: &BlockAllocator)
        ensures
            *a == self.pool(),
            a@ == self@.alloc,
            a.block_size() == self@.block_size,
    {
        &self.allocator
    }

    /// The block pool, to reserve blocks in beside the scheduler or to free
    /// such blocks.
    pub fn allocator_mut(&mut self) -> (a: &mut BlockAllocator)
        ensures
            *a == old(self).pool(),
            a@ == old(self)@.alloc,
            a.block_size() == old(self)@.block_size,
            final(self).pool() == *final(a),
            final(self)@ == (SchedState {
                block_size: final(a).block_size(),
                alloc: final(a)@,
                ..old(self)@
            }),
    {
        &mut self.allocator
    }
}

/// A backend that may be asked for any sequence may be asked for a batch.
pub proof fn law_total_backend_may_be_asked<F: FnMut(&SeqId) -> bool>(
    step_fn: F,
    rs: Seq<Request>,
)
    requires
        forall|id: SeqId| #[trigger] call_requires(step_fn, (&id,)),
    ensures
        may_ask(step_fn, rs),
{
}

} // verus!
