//! Mathematical model of the continuous batching scheduler: which requests a
//! step admits, what it does to each running request, and what it reports.

use crate::kv_model::{AllocState, SeqId};
use crate::request::Request;
use std::time::Instant;
use vstd::prelude::*;

verus! {

/// What the compute backend and the clock gave for one running request.
pub struct Answer {
    /// The backend emitted an end of sequence.
    pub eos: bool,
    /// When the token arrived.
    pub now: Instant,
}

/// What one decode step did to one running request.
pub enum Outcome {
    /// The request had all its tokens before the step; the backend was not asked.
    AlreadyDone,
    /// It got a token and goes on.
    Continued,
    /// It got its last token.
    Finished,
    /// It got a token, needed a KV block for it and found none.
    Preempted,
}

impl Outcome {
    /// The request leaves the batch for good.
    pub open spec fn ends(self) -> bool {
        self is AlreadyDone || self is Finished
    }

    /// The request got a token that stands.
    pub open spec fn ran(self) -> bool {
        self is Continued || self is Finished
    }
}

/// A running request after a decode step, with what the step did to it.
pub struct Entry {
    pub request: Request,
    pub outcome: Outcome,
}

/// The block pool and the running requests part-way through a decode step.
pub struct Decoded {
    pub alloc: AllocState,
    pub entries: Seq<Entry>,
}

impl Entry {
    /// The requests of a list of entries.
    pub open spec fn requests(es: Seq<Entry>) -> Seq<Request> {
        es.map_values(|e: Entry| e.request)
    }

    /// The ids of a list of entries.
    pub open spec fn ids(es: Seq<Entry>) -> Seq<SeqId> {
        Request::ids(Entry::requests(es))
    }

    /// The entries that end with this step.
    pub open spec fn ending(es: Seq<Entry>) -> Seq<Entry> {
        es.filter(|e: Entry| e.outcome.ends())
    }

    /// The entries that got a token that stands.
    pub open spec fn served(es: Seq<Entry>) -> Seq<Entry> {
        es.filter(|e: Entry| e.outcome.ran())
    }

    /// The entries that are preempted.
    pub open spec fn displaced(es: Seq<Entry>) -> Seq<Entry> {
        es.filter(|e: Entry| e.outcome is Preempted)
    }

    /// The entries that stay in the batch.
    pub open spec fn staying(es: Seq<Entry>) -> Seq<Entry> {
        es.filter(|e: Entry| e.outcome is Continued)
    }

    /// The token count after the step of every request that ran.
    pub open spec fn counts(es: Seq<Entry>) -> Map<SeqId, u32>
        decreases es.len(),
    {
        if es.len() == 0 {
            Map::empty()
        } else {
            let rest = Entry::counts(es.drop_last());
            if es.last().outcome.ran() {
                rest.insert(es.last().request.seq_id, es.last().request.generated)
            } else {
                rest
            }
        }
    }

    /// One running request after the backend was asked for its next token, and
    /// the pool with the block that the token may have needed.
    pub open spec fn decode(alloc: AllocState, block_size: u32, r: Request, a: Answer) -> (
        AllocState,
        Entry,
    ) {
        if r.done() {
            (alloc, Entry { request: r, outcome: Outcome::AlreadyDone })
        } else {
            let next = r.with_token(a.now);
            let needs_block = next.generated % block_size == 0;
            if needs_block && alloc.free.len() == 0 {
                (alloc, Entry { request: next, outcome: Outcome::Preempted })
            } else {
                (
                    if needs_block {
                        alloc.grown(r.seq_id)
                    } else {
                        alloc
                    },
                    Entry {
                        request: next,
                        outcome: if a.eos || next.done() {
                            Outcome::Finished
                        } else {
                            Outcome::Continued
                        },
                    },
                )
            }
        }
    }
}

/// What a scheduler holds.
#[verifier::ext_equal]
pub struct SchedState {
    pub max_batch_tokens: u32,
    pub max_running_seqs: usize,
    pub block_size: u32,
    pub alloc: AllocState,
    /// The queue, first in line first.
    pub waiting: Seq<Request>,
    pub running: Seq<Request>,
}

impl SchedState {
    /// The pool is well formed, no two running requests share an id, and each
    /// has a page table.
    pub open spec fn wf(self, total: nat) -> bool {
        &&& self.alloc.wf(total)
        &&& Request::ids(self.running).no_duplicates()
        &&& forall|i: int|
            0 <= i < self.running.len() ==> self.alloc.tables.contains_key(
                (#[trigger] self.running[i]).seq_id,
            )
    }

    /// Nothing waits and nothing runs.
    pub open spec fn idle(self) -> bool {
        self.waiting.len() == 0 && self.running.len() == 0
    }

    pub open spec fn enqueued(self, r: Request) -> SchedState {
        SchedState { waiting: self.waiting.push(r), ..self }
    }

    /// The blocks that the `j`-th waiting request reserves on admission: those
    /// of its full context so far, not just of its prompt.
    pub open spec fn blocks_of(self, j: int) -> nat {
        AllocState::blocks_for(self.waiting[j].reserved_tokens(), self.block_size)
    }

    /// The pool once the first `j` waiting requests are admitted.
    pub open spec fn alloc_after(self, j: nat) -> AllocState
        decreases j,
    {
        if j == 0 {
            self.alloc
        } else {
            let i = (j - 1) as nat;
            self.alloc_after(i).allocated(self.waiting[i as int].seq_id, self.blocks_of(i as int))
        }
    }

    /// With the first `j` waiting requests admitted, the next one fits under
    /// the batch-token and the running-sequences caps. One that comes back from a
    /// preemption counts with what it has generated, as the running ones do. An
    /// empty batch takes it for its prompt alone, so that a request that has
    /// outgrown the token cap runs by itself and does not block the queue.
    pub open spec fn caps_allow(self, j: nat) -> bool {
        let next = self.waiting[j as int];
        let batch = self.running + self.waiting.take(j as int);
        &&& batch.len() < self.max_running_seqs
        &&& {
            ||| Request::batch_tokens(batch) + next.context_tokens() <= self.max_batch_tokens
            ||| batch.len() == 0 && next.prompt_tokens <= self.max_batch_tokens
        }
    }

    /// With the first `j` waiting requests admitted, the next one fits.
    pub open spec fn fits(self, j: nat) -> bool {
        &&& self.caps_allow(j)
        &&& self.blocks_of(j as int) <= self.alloc_after(j).free.len()
    }

    /// How many requests are admitted in all, given that the first `j` are: the
    /// queue is served in order up to the first request that does not fit.
    pub open spec fn admit_count(self, j: nat) -> nat
        decreases self.waiting.len() - j,
    {
        if j < self.waiting.len() && self.fits(j) {
            self.admit_count(j + 1)
        } else {
            j
        }
    }

    /// How many waiting requests the next step admits.
    pub open spec fn admissions(self) -> nat {
        self.admit_count(0)
    }

    /// No request is considered for admission while its id has a page table.
    pub open spec fn admits_cleanly(self) -> bool {
        forall|j: nat|
            j <= self.admissions() && j < self.waiting.len() && #[trigger] self.caps_allow(j)
                ==> !self.alloc_after(j).tables.contains_key(self.waiting[j as int].seq_id)
    }

    /// A step has to know how many tokens a block holds: something runs, or the
    /// head of the queue is considered for admission.
    pub open spec fn needs_block_size(self) -> bool {
        self.running.len() > 0 || (self.waiting.len() > 0 && self.caps_allow(0))
    }

    /// What a step asks the backend, given what it says: the next token of each
    /// request of the batch that still wants one, once and in batch order.
    pub open spec fn calls_of(rs: Seq<Request>, answers: Seq<Answer>) -> Seq<(SeqId, bool)>
        decreases rs.len(),
    {
        if rs.len() == 0 {
            Seq::empty()
        } else {
            let before = SchedState::calls_of(rs.drop_last(), answers.take(rs.len() - 1));
            if rs.last().done() {
                before
            } else {
                before.push((rs.last().seq_id, answers[rs.len() - 1].eos))
            }
        }
    }

    /// The state after admission.
    pub open spec fn admitted(self) -> SchedState {
        let k = self.admissions();
        SchedState {
            alloc: self.alloc_after(k),
            waiting: self.waiting.skip(k as int),
            running: self.running + self.waiting.take(k as int),
            ..self
        }
    }

    /// The first `answers.len()` running requests advanced by one token each.
    pub open spec fn decoded(self, answers: Seq<Answer>) -> Decoded
        decreases answers.len(),
    {
        if answers.len() == 0 {
            Decoded { alloc: self.alloc, entries: Seq::empty() }
        } else {
            let prev = self.decoded(answers.drop_last());
            let (alloc, entry) = Entry::decode(
                prev.alloc,
                self.block_size,
                self.running[answers.len() - 1],
                answers.last(),
            );
            Decoded { alloc, entries: prev.entries.push(entry) }
        }
    }

    /// Finished requests dropped with their blocks, then preempted requests
    /// moved with theirs freed to the front of the queue, in batch order.
    pub open spec fn retired(self, d: Decoded) -> SchedState {
        SchedState {
            alloc: d.alloc.freed_all(Entry::ids(Entry::ending(d.entries))).freed_all(
                Entry::ids(Entry::displaced(d.entries)),
            ),
            waiting: Entry::requests(Entry::displaced(d.entries)) + self.waiting,
            running: Entry::requests(Entry::staying(d.entries)),
            ..self
        }
    }

    /// One whole decode step: admission, one token each, retirement.
    pub open spec fn stepped(self, answers: Seq<Answer>) -> SchedState {
        self.admitted().retired(self.admitted().decoded(answers))
    }

    /// Ids are unique over the queue and the batch, and no waiting request has
    /// a page table.
    pub open spec fn unique_ids(self) -> bool {
        &&& Request::ids(self.running + self.waiting).no_duplicates()
        &&& forall|i: int|
            0 <= i < self.waiting.len() ==> !self.alloc.tables.contains_key(
                (#[trigger] self.waiting[i]).seq_id,
            )
    }

    /// The page tables are those of the running requests, and no others.
    pub open spec fn exclusive(self) -> bool {
        self.alloc.tables.dom() == Request::ids(self.running).to_set()
    }
}

} // verus!
