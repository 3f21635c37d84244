//! Compute backends. The scheduler does not know whether a decode step runs on
//! a mocked loop, a model server or an accelerator: it asks a `Backend` for one
//! token at a time. Beside the trait stand the decisions of two backends: the
//! random draws of a mock, and the token buffering of one that fetches tokens in
//! batches from a model server.

use crate::kv_model::SeqId;
use std::collections::{HashMap, VecDeque};
use vstd::prelude::*;
use vstd::string::StringExecFns;

verus! {

broadcast use vstd::std_specs::hash::group_hash_axioms;

/// A source of tokens that may be shared between threads.
pub trait Backend: Send + Sync {
    /// Advance one sequence by one decode step. Returns true on an end of
    /// sequence.
    fn advance_token(&self, seq_id: &SeqId) -> bool;

    /// Called when a sequence finishes or is cancelled, so that the backend can
    /// drop what it holds for it.
    fn free_seq(&self, seq_id: &SeqId);
}

/// Random draws per sequence, the same for every run: each sequence has a
/// generator of its own, seeded from its id.
pub struct MockBackend {
    rng_state: HashMap<SeqId, u64>,
}

/// What a sequence's generator starts from.
pub open spec fn seed_of(seq_id: SeqId) -> u64 {
    seq_id ^ 0x9E3779B97F4A7C15
}

/// The xorshift step with shifts 13, 7 and 17.
pub open spec fn xorshift(x: u64) -> u64 {
    let a = x ^ (x << 13);
    let b = a ^ (a >> 7);
    b ^ (b << 17)
}

/// The next draw of a sequence from these generators.
pub open spec fn next_draw(generators: Map<SeqId, u64>, id: SeqId) -> u64 {
    xorshift(
        if generators.contains_key(id) {
            generators[id]
        } else {
            seed_of(id)
        },
    )
}

impl View for MockBackend {
    type V = Map<SeqId, u64>;

    closed spec fn view(&self) -> Map<SeqId, u64> {
        self.rng_state@
    }
}

impl MockBackend {
    /// A mock that has drawn for no sequence yet.
    pub fn new() -> (b: Self)
        ensures
            b@ == Map::<SeqId, u64>::empty(),
    {
        MockBackend { rng_state: HashMap::new() }
    }

    /// The next draw of a sequence, over all 64-bit numbers.
    pub fn next_rand(&mut self, seq_id: &SeqId) -> (draw: u64)
        ensures
            draw == next_draw(old(self)@, *seq_id),
            final(self)@ == old(self)@.insert(*seq_id, draw),
    {
        let mut state: u64 = match self.rng_state.get(seq_id) {
            Some(x) => *x,
            None => *seq_id ^ 0x9E3779B97F4A7C15,
        };
        state = state ^ (state << 13);
        state = state ^ (state >> 7);
        state = state ^ (state << 17);
        self.rng_state.insert(*seq_id, state);
        state
    }

    /// Advance one sequence by one decode step: draw, and let `is_eos` say
    /// whether the draw is an end of sequence.
    pub fn advance_token<F: Fn(u64) -> bool>(&mut self, seq_id: &SeqId, is_eos: F) -> (eos: bool)
        requires
            call_requires(is_eos, (next_draw(old(self)@, *seq_id),)),
        ensures
            call_ensures(is_eos, (next_draw(old(self)@, *seq_id),), eos),
            final(self)@ == old(self)@.insert(*seq_id, next_draw(old(self)@, *seq_id)),
    {
        let draw = self.next_rand(seq_id);
        is_eos(draw)
    }

    /// Forget a sequence, so that the table does not grow over the server's
    /// lifetime.
    pub fn free_seq(&mut self, seq_id: &SeqId)
        ensures
            final(self)@ == old(self)@.remove(*seq_id),
    {
        self.rng_state.remove(seq_id);
    }
}

/// One thing done to a mock.
pub enum MockOp {
    /// A draw for a sequence.
    Draw(SeqId),
    /// A sequence forgotten.
    Free(SeqId),
}

impl MockOp {
    /// The generators after a run of operations on a new mock, as the contracts
    /// of [`MockBackend`] have them.
    pub open spec fn after(ops: Seq<MockOp>) -> Map<SeqId, u64>
        decreases ops.len(),
    {
        if ops.len() == 0 {
            Map::empty()
        } else {
            let before = MockOp::after(ops.drop_last());
            match ops.last() {
                MockOp::Draw(id) => before.insert(id, next_draw(before, id)),
                MockOp::Free(id) => before.remove(id),
            }
        }
    }

    /// The draws for `id` since the run began or last forgot it.
    pub open spec fn draws_of(ops: Seq<MockOp>, id: SeqId) -> nat
        decreases ops.len(),
    {
        if ops.len() == 0 {
            0
        } else {
            let before = MockOp::draws_of(ops.drop_last(), id);
            match ops.last() {
                MockOp::Draw(x) => if x == id {
                    before + 1
                } else {
                    before
                },
                MockOp::Free(x) => if x == id {
                    0
                } else {
                    before
                },
            }
        }
    }
}

/// The `k`-th number of a sequence's generator, counting from its seed.
pub open spec fn nth_draw(id: SeqId, k: nat) -> u64
    decreases k,
{
    if k == 0 {
        seed_of(id)
    } else {
        xorshift(nth_draw(id, (k - 1) as nat))
    }
}

/// A draw is fixed by the sequence and by how many it had before: after any run
/// of draws and forgettings, the next draw for `id` is the one that follows those
/// since the run began or last forgot it. What was done for other sequences does
/// not matter.
pub proof fn law_draws_fixed_by_id_and_count(ops: Seq<MockOp>, id: SeqId)
    ensures
        next_draw(MockOp::after(ops), id) == nth_draw(id, MockOp::draws_of(ops, id) + 1),
        MockOp::after(ops).contains_key(id) <==> MockOp::draws_of(ops, id) > 0,
    decreases ops.len(),
{
    if ops.len() > 0 {
        law_draws_fixed_by_id_and_count(ops.drop_last(), id);
    }
    assert(nth_draw(id, 1) == xorshift(nth_draw(id, 0)));
}

/// Whatever two runs did for other sequences, after as many draws for `id` the
/// test of [`MockBackend::advance_token`] is handed the same draw in both: what it
/// says is fixed by the sequence, by that count and by the test alone.
pub proof fn law_advance_fixed_by_id_and_count(a: Seq<MockOp>, b: Seq<MockOp>, id: SeqId)
    requires
        MockOp::draws_of(a, id) == MockOp::draws_of(b, id),
    ensures
        next_draw(MockOp::after(a), id) == next_draw(MockOp::after(b), id),
{
    law_draws_fixed_by_id_and_count(a, id);
    law_draws_fixed_by_id_and_count(b, id);
}

/// A generator that is not stuck at zero never gets there.
pub proof fn law_draws_never_stick(x: u64)
    requires
        x != 0,
    ensures
        xorshift(x) != 0,
{
    let a = x ^ (x << 13);
    let b = a ^ (a >> 7);
    assert(x != 0 ==> x ^ (x << 13) != 0) by (bit_vector);
    assert(a != 0 ==> a ^ (a >> 7) != 0) by (bit_vector);
    assert(b != 0 ==> b ^ (b << 17) != 0) by (bit_vector);
}

/// How many tokens to fetch from the model server per call, to spread the cost
/// of the round trip.
pub const BATCH_SIZE: usize = 16;

/// How many tokens of history to send per call at most, so that the payload does
/// not grow with the sequence.
pub const HISTORY_CAP: usize = 512;

/// What the model server is sent.
#[derive(Debug, PartialEq, Eq)]
pub struct BatchRequest {
    pub token_ids: Vec<u32>,
    pub num_tokens: usize,
}

/// What the model server answers.
#[derive(Debug, PartialEq, Eq)]
pub struct BatchResponse {
    pub token_ids: Vec<u32>,
    pub eos: bool,
}

/// What to do about the next token of a sequence.
#[derive(Debug, PartialEq, Eq)]
pub enum Advance {
    /// A buffered token was served; true on an end of sequence.
    Served(bool),
    /// The buffer is empty: send this to the model server and hand what comes
    /// back to [`RealBackend::refill`].
    Refill(BatchRequest),
}

struct SeqState {
    history: VecDeque<u32>,
    pending: VecDeque<u32>,
    eos_pending: bool,
}

/// The token buffer of one sequence.
#[verifier::ext_equal]
pub struct SeqView {
    /// The latest tokens, prompt included.
    pub history: Seq<u32>,
    /// The tokens that were fetched and not served yet.
    pub pending: Seq<u32>,
    /// The sequence ends with the last pending token.
    pub eos_pending: bool,
}

impl View for SeqState {
    type V = SeqView;

    closed spec fn view(&self) -> SeqView {
        SeqView { history: self.history@, pending: self.pending@, eos_pending: self.eos_pending }
    }
}

impl SeqView {
    /// The last `cap` tokens.
    pub open spec fn tail(tokens: Seq<u32>, cap: nat) -> Seq<u32> {
        if tokens.len() <= cap {
            tokens
        } else {
            tokens.skip(tokens.len() - cap)
        }
    }

    /// A sequence of which nothing was fetched yet.
    pub open spec fn fresh(prompt: Seq<u32>) -> SeqView {
        SeqView {
            history: SeqView::tail(prompt, HISTORY_CAP as nat),
            pending: Seq::empty(),
            eos_pending: false,
        }
    }

    /// A fetched batch added.
    pub open spec fn absorbed(self, token_ids: Seq<u32>, eos: bool) -> SeqView {
        SeqView {
            history: SeqView::tail(self.history + token_ids, HISTORY_CAP as nat),
            pending: self.pending + token_ids,
            eos_pending: eos,
        }
    }

    /// The next token is the last one.
    pub open spec fn at_end(self) -> bool {
        self.pending.len() == 1 && self.eos_pending
    }

    /// The next pending token served, if there is one.
    pub open spec fn served(self) -> SeqView {
        SeqView {
            pending: if self.pending.len() > 0 {
                self.pending.skip(1)
            } else {
                self.pending
            },
            ..self
        }
    }
}

impl SeqState {
    /// A sequence of which nothing was fetched yet.
    fn fresh(prompt: &Vec<u32>) -> (s: Self)
        ensures
            s@ == SeqView::fresh(prompt@),
    {
        let mut s = SeqState {
            history: VecDeque::new(),
            pending: VecDeque::new(),
            eos_pending: false,
        };
        let mut i: usize = 0;
        while i < prompt.len()
            invariant
                i <= prompt@.len(),
                s.history@ == SeqView::tail(prompt@.take(i as int), HISTORY_CAP as nat),
                s.pending@ == Seq::<u32>::empty(),
                !s.eos_pending,
            decreases prompt@.len() - i,
        {
            proof {
                lemma_tail_push(prompt@.take(i as int), prompt@[i as int], HISTORY_CAP as nat);
                assert(prompt@.take(i + 1) =~= prompt@.take(i as int).push(prompt@[i as int]));
            }
            s.remember(prompt[i]);
            i = i + 1;
        }
        assert(prompt@.take(i as int) =~= prompt@);
        s
    }

    /// Add one token to the history, dropping the oldest over the cap.
    fn remember(&mut self, token: u32)
        requires
            old(self)@.history.len() <= HISTORY_CAP,
        ensures
            final(self)@ == (SeqView {
                history: SeqView::tail(old(self)@.history.push(token), HISTORY_CAP as nat),
                ..old(self)@
            }),
    {
        let ghost longer = self.history@.push(token);
        self.history.push_back(token);
        if self.history.len() > HISTORY_CAP {
            self.history.pop_front();
            assert(self.history@ =~= longer.skip(1));
        }
    }

    /// Add a fetched batch.
    fn absorb(&mut self, token_ids: &Vec<u32>, eos: bool)
        requires
            old(self)@.history.len() <= HISTORY_CAP,
        ensures
            final(self)@ == old(self)@.absorbed(token_ids@, eos),
    {
        let ghost before = self@;
        let mut i: usize = 0;
        proof {
            assert(before.history + token_ids@.take(0) =~= before.history);
            assert(before.pending + token_ids@.take(0) =~= before.pending);
        }
        while i < token_ids.len()
            invariant
                i <= token_ids@.len(),
                self.history@ == SeqView::tail(
                    before.history + token_ids@.take(i as int),
                    HISTORY_CAP as nat,
                ),
                self.pending@ == before.pending + token_ids@.take(i as int),
            decreases token_ids@.len() - i,
        {
            let ghost t = token_ids@[i as int];
            let ghost so_far = token_ids@.take(i as int);
            proof {
                lemma_tail_push(before.history + so_far, t, HISTORY_CAP as nat);
                assert(token_ids@.take(i + 1) =~= so_far.push(t));
                assert((before.history + so_far).push(t) =~= before.history + so_far.push(t));
                assert((before.pending + so_far).push(t) =~= before.pending + so_far.push(t));
            }
            self.remember(token_ids[i]);
            self.pending.push_back(token_ids[i]);
            i = i + 1;
        }
        assert(token_ids@.take(i as int) =~= token_ids@);
        self.eos_pending = eos;
    }

    /// Serve the next pending token; true if the sequence ends with it.
    fn serve(&mut self) -> (eos: bool)
        ensures
            eos == old(self)@.at_end(),
            final(self)@ == old(self)@.served(),
    {
        let ghost before = self@;
        let is_last = self.pending.len() == 1;
        self.pending.pop_front();
        assert(self.pending@ =~= before.served().pending);
        is_last && self.eos_pending
    }

    /// The history as the model server is sent it.
    fn history_tokens(&self) -> (token_ids: Vec<u32>)
        ensures
            token_ids@ == self@.history,
    {
        let mut token_ids: Vec<u32> = Vec::with_capacity(self.history.len());
        let mut i: usize = 0;
        while i < self.history.len()
            invariant
                i <= self.history@.len(),
                token_ids@ == self.history@.take(i as int),
            decreases self.history@.len() - i,
        {
            token_ids.push(self.history[i]);
            assert(token_ids@ =~= self.history@.take(i + 1));
            i = i + 1;
        }
        assert(token_ids@ =~= self.history@);
        token_ids
    }
}

/// Serves the tokens of a model server, which it has fetched in batches. Sending
/// the request is left to the caller: see [`Advance`].
pub struct RealBackend {
    endpoint: String,
    seqs: HashMap<SeqId, SeqState>,
    default_prompt: Vec<u32>,
}

impl View for RealBackend {
    type V = Map<SeqId, SeqView>;

    closed spec fn view(&self) -> Map<SeqId, SeqView> {
        self.seqs@.map_values(|s: SeqState| s@)
    }
}

impl RealBackend {
    /// No history is longer than what may be sent.
    pub open spec fn wf(&self) -> bool {
        forall|id: SeqId| #[trigger]
            self@.contains_key(id) ==> self@[id].history.len() <= HISTORY_CAP
    }

    /// The address of the model server.
    pub closed spec fn address(&self) -> Seq<char> {
        self.endpoint@
    }

    /// What every sequence starts from.
    pub closed spec fn prompt(&self) -> Seq<u32> {
        self.default_prompt@
    }

    /// The buffer of a sequence, a fresh one if it has none yet.
    pub open spec fn buffer(&self, seq_id: SeqId) -> SeqView {
        if self@.contains_key(seq_id) {
            self@[seq_id]
        } else {
            SeqView::fresh(self.prompt())
        }
    }

    /// A backend that has fetched nothing yet.
    pub fn new(endpoint: String, default_prompt: Vec<u32>) -> (b: Self)
        ensures
            b.wf(),
            b@ == Map::<SeqId, SeqView>::empty(),
            b.address() == endpoint@,
            b.prompt() == default_prompt@,
    {
        let b = RealBackend { endpoint, seqs: HashMap::new(), default_prompt };
        assert(b@ =~= Map::<SeqId, SeqView>::empty());
        b
    }

    /// Where batches are fetched from.
    pub fn refill_url(&self) -> (url: String)
        ensures
            url@ == self.address() + "/generate_batch"@,
    {
        self.endpoint.clone().concat("/generate_batch")
    }

    fn take_buffer(&mut self, seq_id: &SeqId) -> (state: SeqState)
        requires
            old(self).wf(),
        ensures
            state@ == old(self).buffer(*seq_id),
            state@.history.len() <= HISTORY_CAP,
            final(self)@ == old(self)@.remove(*seq_id),
            final(self).prompt() == old(self).prompt(),
            final(self).address() == old(self).address(),
    {
        let ghost before = self@;
        let taken = self.seqs.remove(seq_id);
        assert(self@ =~= before.remove(*seq_id));
        match taken {
            Some(state) => state,
            None => SeqState::fresh(&self.default_prompt),
        }
    }

    fn put_buffer(&mut self, seq_id: &SeqId, state: SeqState)
        ensures
            final(self)@ == old(self)@.insert(*seq_id, state@),
            final(self).prompt() == old(self).prompt(),
            final(self).address() == old(self).address(),
    {
        let ghost before = self@;
        self.seqs.insert(*seq_id, state);
        assert(self@ =~= before.insert(*seq_id, state@));
    }

    /// Advance one sequence by one token: serve a buffered one, or say what to
    /// fetch. After the last token of a sequence that ended, every further call
    /// reports the end again.
    pub fn advance_token(&mut self, seq_id: &SeqId) -> (r: Advance)
        requires
            old(self).wf(),
        ensures
            final(self).wf(),
            final(self).prompt() == old(self).prompt(),
            final(self).address() == old(self).address(),
            ({
                let buffer = old(self).buffer(*seq_id);
                let after = final(self)@[*seq_id];
                if buffer.pending.len() > 0 {
                    &&& r == Advance::Served(buffer.pending.len() == 1 && buffer.eos_pending)
                    &&& after.pending == buffer.pending.skip(1)
                    &&& after.history == buffer.history
                    &&& after.eos_pending == buffer.eos_pending
                    &&& r == Advance::Served(buffer.at_end())
                    &&& final(self)@ == old(self)@.insert(*seq_id, buffer.served())
                } else if buffer.eos_pending {
                    &&& r == Advance::Served(true)
                    &&& final(self)@ == old(self)@.insert(*seq_id, buffer)
                } else {
                    &&& r matches Advance::Refill(request) && request.token_ids@ == buffer.history
                        && request.num_tokens == BATCH_SIZE && request.num_tokens == 16
                    &&& final(self)@ == old(self)@.insert(*seq_id, buffer)
                }
            }),
    {
        let ghost before = self@;
        let mut state = self.take_buffer(seq_id);
        let r = if state.pending.len() > 0 {
            Advance::Served(state.serve())
        } else if state.eos_pending {
            Advance::Served(true)
        } else {
            Advance::Refill(
                BatchRequest { token_ids: state.history_tokens(), num_tokens: BATCH_SIZE },
            )
        };
        self.put_buffer(seq_id, state);
        assert(self@ =~= before.insert(*seq_id, state@));
        r
    }

    /// Finish an advance that had to fetch a batch: buffer what the model server
    /// answered and serve its first token. Returns true on an end of sequence.
    /// A failed fetch (`None`) ends the sequence, so that it drains cleanly.
    pub fn refill(&mut self, seq_id: &SeqId, response: Option<BatchResponse>) -> (eos: bool)
        requires
            old(self).wf(),
        ensures
            final(self).wf(),
            final(self).prompt() == old(self).prompt(),
            final(self).address() == old(self).address(),
            ({
                let buffer = old(self).buffer(*seq_id);
                match response {
                    Some(answer) => {
                        let filled = buffer.absorbed(answer.token_ids@, answer.eos);
                        let after = final(self)@[*seq_id];
                        let seen = buffer.history + answer.token_ids@;
                        let queue = buffer.pending + answer.token_ids@;
                        &&& after.history == if seen.len() <= 512 {
                            seen
                        } else {
                            seen.skip(seen.len() - 512)
                        }
                        &&& after.pending == if queue.len() == 0 {
                            queue
                        } else {
                            queue.skip(1)
                        }
                        &&& after.eos_pending == answer.eos
                        &&& eos == (queue.len() == 1 && answer.eos)
                        &&& eos == filled.at_end()
                        &&& final(self)@ == old(self)@.insert(*seq_id, filled.served())
                    },
                    None => {
                        &&& eos
                        &&& final(self)@ == old(self)@.insert(*seq_id, buffer)
                    },
                }
            }),
    {
        let ghost before = self@;
        let mut state = self.take_buffer(seq_id);
        let eos = match response {
            Some(answer) => {
                state.absorb(&answer.token_ids, answer.eos);
                state.serve()
            },
            None => true,
        };
        self.put_buffer(seq_id, state);
        assert(self@ =~= before.insert(*seq_id, state@));
        eos
    }

    /// Forget a sequence.
    pub fn free_seq(&mut self, seq_id: &SeqId)
        requires
            old(self).wf(),
        ensures
            final(self).wf(),
            final(self).prompt() == old(self).prompt(),
            final(self).address() == old(self).address(),
            final(self)@ == old(self)@.remove(*seq_id),
    {
        let ghost before = self@;
        self.seqs.remove(seq_id);
        assert(self@ =~= before.remove(*seq_id));
    }
}

proof fn lemma_tail_push(s: Seq<u32>, x: u32, cap: nat)
    requires
        cap > 0,
    ensures
        SeqView::tail(SeqView::tail(s, cap).push(x), cap) == SeqView::tail(s.push(x), cap),
{
    assert(SeqView::tail(SeqView::tail(s, cap).push(x), cap) =~= SeqView::tail(s.push(x), cap));
}

/// What is sent is a sliding window: capping the history before a batch is added
/// and after it is capping the whole history once, so a request carries exactly
/// the latest tokens of everything seen, up to the cap.
pub proof fn law_history_is_sliding_window(seen: Seq<u32>, batch: Seq<u32>, cap: nat)
    ensures
        SeqView::tail(SeqView::tail(seen, cap) + batch, cap) == SeqView::tail(seen + batch, cap),
        SeqView::tail(seen, cap).len() <= cap,
{
    assert(SeqView::tail(SeqView::tail(seen, cap) + batch, cap) =~= SeqView::tail(
        seen + batch,
        cap,
    ));
}

/// A batch that ends the sequence is served whole, in order, before the end is
/// reported, and the end comes with its last token: after `k` of its tokens the
/// rest is pending, and only the last one is at the end.
pub proof fn law_end_comes_with_last_token(buffer: SeqView, k: nat)
    requires
        k < buffer.pending.len(),
        buffer.eos_pending,
    ensures
        ({
            let left = served_times(buffer, k);
            &&& left.pending == buffer.pending.skip(k as int)
            &&& left.at_end() <==> k == buffer.pending.len() - 1
        }),
    decreases k,
{
    if k == 0 {
        assert(buffer.pending.skip(0) =~= buffer.pending);
    } else {
        law_end_comes_with_last_token(buffer, (k - 1) as nat);
        assert(buffer.pending.skip(k - 1).skip(1) =~= buffer.pending.skip(k as int));
        lemma_served_keeps_eos(buffer, k);
    }
}

/// A buffer after `k` tokens were served.
pub open spec fn served_times(buffer: SeqView, k: nat) -> SeqView
    decreases k,
{
    if k == 0 {
        buffer
    } else {
        served_times(buffer, (k - 1) as nat).served()
    }
}

proof fn lemma_served_keeps_eos(buffer: SeqView, k: nat)
    ensures
        served_times(buffer, k).eos_pending == buffer.eos_pending,
    decreases k,
{
    if k > 0 {
        lemma_served_keeps_eos(buffer, (k - 1) as nat);
    }
}

/// No two states give the same draw, drawing is linear over the bits, and a draw
/// is the state mixed by three shifts, of 13 to the left, 7 to the right and 17 to
/// the left. The seed of a sequence differs from its id in the same bits for every
/// sequence.
pub proof fn law_draws_mix_the_state(x: u64, y: u64, id: SeqId)
    ensures
        seed_of(id) ^ id == 0x9E3779B97F4A7C15,
        xorshift(x) == xorshift(y) <==> x == y,
        xorshift(x ^ y) == xorshift(x) ^ xorshift(y),
        ({
            let a = x ^ (x << 13);
            let b = a ^ (a >> 7);
            xorshift(x) == b ^ (b << 17)
        }),
{
    assert((id ^ 0x9E3779B97F4A7C15) ^ id == 0x9E3779B97F4A7C15) by (bit_vector);
    let z = x ^ y;
    assert(z ^ (z << 13) == (x ^ (x << 13)) ^ (y ^ (y << 13))) by (bit_vector)
        requires
            z == x ^ y,
    ;
    let ax = x ^ (x << 13);
    let ay = y ^ (y << 13);
    let az = z ^ (z << 13);
    assert(az ^ (az >> 7) == (ax ^ (ax >> 7)) ^ (ay ^ (ay >> 7))) by (bit_vector)
        requires
            az == ax ^ ay,
    ;
    let bx = ax ^ (ax >> 7);
    let by_ = ay ^ (ay >> 7);
    let bz = az ^ (az >> 7);
    assert(bz ^ (bz << 17) == (bx ^ (bx << 17)) ^ (by_ ^ (by_ << 17))) by (bit_vector)
        requires
            bz == bx ^ by_,
    ;
    assert(xorshift(x) == bx ^ (bx << 17));
    if x != y {
        assert(x ^ y != 0) by (bit_vector)
            requires
                x != y,
        ;
        law_draws_never_stick(x ^ y);
        let p = xorshift(x);
        let q = xorshift(y);
        assert(p ^ q != 0 ==> p != q) by (bit_vector);
    }
}

/// What a model server is sent is the tokens of the prompt, up to the last 512,
/// before anything was fetched.
pub proof fn law_fresh_buffer_is_the_prompt(prompt: Seq<u32>)
    ensures
        SeqView::fresh(prompt).history == if prompt.len() <= 512 {
            prompt
        } else {
            prompt.skip(prompt.len() - 512)
        },
        SeqView::fresh(prompt).pending.len() == 0,
        !SeqView::fresh(prompt).eos_pending,
{
}

/// One thing done to a backend that fetches.
pub enum FetchOp {
    /// A token asked for.
    Advance(SeqId),
    /// A fetch that was answered with these tokens, and whether they are the last.
    Answered(SeqId, Seq<u32>, bool),
    /// A fetch that failed.
    Failed(SeqId),
    /// A sequence forgotten.
    Free(SeqId),
}

impl FetchOp {
    /// The buffer of a sequence, a fresh one if it has none yet.
    pub open spec fn buffer(
        buffers: Map<SeqId, SeqView>,
        prompt: Seq<u32>,
        id: SeqId,
    ) -> SeqView {
        if buffers.contains_key(id) {
            buffers[id]
        } else {
            SeqView::fresh(prompt)
        }
    }

    /// The buffers after a run of operations on a new backend, as the contracts of
    /// [`RealBackend`] have them.
    pub open spec fn after(prompt: Seq<u32>, ops: Seq<FetchOp>) -> Map<SeqId, SeqView>
        decreases ops.len(),
    {
        if ops.len() == 0 {
            Map::empty()
        } else {
            let before = FetchOp::after(prompt, ops.drop_last());
            match ops.last() {
                FetchOp::Advance(id) => {
                    let buffer = FetchOp::buffer(before, prompt, id);
                    before.insert(
                        id,
                        if buffer.pending.len() > 0 {
                            buffer.served()
                        } else {
                            buffer
                        },
                    )
                },
                FetchOp::Answered(id, token_ids, eos) => before.insert(
                    id,
                    FetchOp::buffer(before, prompt, id).absorbed(token_ids, eos).served(),
                ),
                FetchOp::Failed(id) => before.insert(id, FetchOp::buffer(before, prompt, id)),
                FetchOp::Free(id) => before.remove(id),
            }
        }
    }

    /// The tokens that were fetched for `id` since the run began or last forgot
    /// it.
    pub open spec fn fetched(ops: Seq<FetchOp>, id: SeqId) -> Seq<u32>
        decreases ops.len(),
    {
        if ops.len() == 0 {
            Seq::empty()
        } else {
            let before = FetchOp::fetched(ops.drop_last(), id);
            match ops.last() {
                FetchOp::Answered(x, token_ids, _) => if x == id {
                    before + token_ids
                } else {
                    before
                },
                FetchOp::Free(x) => if x == id {
                    Seq::empty()
                } else {
                    before
                },
                _ => before,
            }
        }
    }
}

/// What a request to the model server carries, over any run of advances, answers
/// and failures for any sequences: the last 512 tokens of the prompt followed by
/// everything that was fetched for the sequence since it was last forgotten; all
/// of them if there are no more. What is still to be served is the end of what was
/// fetched.
pub proof fn law_request_carries_latest_tokens(prompt: Seq<u32>, ops: Seq<FetchOp>, id: SeqId)
    ensures
        ({
            let seen = prompt + FetchOp::fetched(ops, id);
            let buffer = FetchOp::buffer(FetchOp::after(prompt, ops), prompt, id);
            let left = buffer.pending.len() as int;
            let fetched = FetchOp::fetched(ops, id);
            &&& buffer.history == if seen.len() <= 512 {
                seen
            } else {
                seen.skip(seen.len() - 512)
            }
            &&& left <= fetched.len()
            &&& buffer.pending == fetched.skip(fetched.len() - left)
        }),
    decreases ops.len(),
{
    let fetched = FetchOp::fetched(ops, id);
    let buffer = FetchOp::buffer(FetchOp::after(prompt, ops), prompt, id);
    if ops.len() == 0 {
        assert(prompt + fetched =~= prompt);
        assert(buffer.pending =~= fetched.skip(0));
    } else {
        let rest = ops.drop_last();
        let before = FetchOp::fetched(rest, id);
        let old_buffer = FetchOp::buffer(FetchOp::after(prompt, rest), prompt, id);
        law_request_carries_latest_tokens(prompt, rest, id);
        match ops.last() {
            FetchOp::Advance(x) => {
                if x == id && old_buffer.pending.len() > 0 {
                    assert(buffer.pending =~= fetched.skip(
                        fetched.len() - buffer.pending.len(),
                    ));
                }
            },
            FetchOp::Answered(x, token_ids, _) => {
                if x == id {
                    law_history_is_sliding_window(prompt + before, token_ids, 512);
                    assert((prompt + before) + token_ids =~= prompt + fetched);
                    assert(buffer.pending =~= fetched.skip(
                        fetched.len() - buffer.pending.len(),
                    ));
                }
            },
            FetchOp::Failed(_) => {},
            FetchOp::Free(x) => {
                if x == id {
                    assert(prompt + fetched =~= prompt);
                    assert(buffer.pending =~= fetched.skip(0));
                }
            },
        }
    }
}

/// How many calls a batch lasts: a batch of `n` tokens that came into an empty
/// buffer serves its first token with the fetch and one with each call after it,
/// so after `k` more calls `n - 1 - k` are left. The end of the sequence comes with
/// the last of them and not before, and only if the batch was said to be the last.
pub proof fn law_batch_is_served_token_by_token(
    buffer: SeqView,
    token_ids: Seq<u32>,
    eos: bool,
    k: nat,
)
    requires
        buffer.pending.len() == 0,
        k < token_ids.len(),
    ensures
        ({
            let left = served_times(buffer.absorbed(token_ids, eos), k);
            &&& left.pending.len() == token_ids.len() - k
            &&& left.pending[0] == token_ids[k as int]
            &&& left.at_end() <==> eos && k == token_ids.len() - 1
            &&& left.eos_pending == eos
        }),
    decreases k,
{
    let filled = buffer.absorbed(token_ids, eos);
    assert(filled.pending =~= token_ids);
    lemma_served_pending(filled, k);
    lemma_served_keeps_eos(filled, k);
}

proof fn lemma_served_pending(buffer: SeqView, k: nat)
    requires
        k <= buffer.pending.len(),
    ensures
        served_times(buffer, k).pending == buffer.pending.skip(k as int),
    decreases k,
{
    if k == 0 {
        assert(buffer.pending.skip(0) =~= buffer.pending);
    } else {
        lemma_served_pending(buffer, (k - 1) as nat);
        assert(buffer.pending.skip(k - 1).skip(1) =~= buffer.pending.skip(k as int));
    }
}

/// A backend keeps the buffer of a sequence that it has one for, and starts every
/// other from the prompt.
pub proof fn law_buffer_is_kept(b: RealBackend, id: SeqId)
    ensures
        b@.contains_key(id) ==> b.buffer(id) == b@[id],
        !b@.contains_key(id) ==> {
            let prompt = b.prompt();
            &&& b.buffer(id).history == if prompt.len() <= 512 {
                prompt
            } else {
                prompt.skip(prompt.len() - 512)
            }
            &&& b.buffer(id).pending.len() == 0
            &&& !b.buffer(id).eos_pending
        },
        b.buffer(id) == FetchOp::buffer(b@, b.prompt(), id),
{
}

} // verus!
