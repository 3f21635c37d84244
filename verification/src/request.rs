//! A generation request as the scheduler sees it.

use crate::kv_model::SeqId;
use std::time::Instant;
use vstd::prelude::*;

verus! {

/// A point of the monotonic clock. Requests carry such points; no contract
/// looks inside one.
#[verifier::external_type_specification]
#[verifier::external_body]
pub struct ExInstant(std::time::Instant);

/// Reads the monotonic clock with `std::time::Instant::now`. Nothing is
/// claimed of the result, which depends on when the call is made.
#[verifier::external_body]
pub(crate) fn clock_now() -> Instant {
    Instant::now()
}

/// `at` is what the clock may say: a result that [`clock_now`] may give. Only a call
/// shows this of a point.
pub closed spec fn clock_may_say(at: Instant) -> bool {
    call_ensures(clock_now, (), at)
}

/// Calls a function without arguments.
fn read_with<F: Fn() -> Instant>(clock: F) -> (at: Instant)
    requires
        call_requires(clock, ()),
    ensures
        call_ensures(clock, (), at),
{
    clock()
}

/// Reads the clock.
pub(crate) fn read_now() -> (at: Instant)
    ensures
        clock_may_say(at),
{
    read_with(clock_now)
}

/// One sequence to generate.
pub struct Request {
    pub seq_id: SeqId,
    pub prompt_tokens: u32,
    pub max_new_tokens: u32,
    /// Tokens generated so far.
    pub generated: u32,
    pub arrival: Instant,
    pub first_token_at: Option<Instant>,
}

impl Request {
    /// The request has all the tokens it asked for.
    pub open spec fn done(self) -> bool {
        self.generated >= self.max_new_tokens
    }

    /// Prompt and generated tokens together.
    pub open spec fn context_tokens(self) -> nat {
        (self.prompt_tokens + self.generated) as nat
    }

    /// The context that KV blocks are reserved for. It saturates at the
    /// largest `u32`, as the block count does.
    pub open spec fn reserved_tokens(self) -> u32 {
        if self.context_tokens() > u32::MAX {
            u32::MAX
        } else {
            self.context_tokens() as u32
        }
    }

    /// The request with one more token, which arrived at `now`.
    pub open spec fn with_token(self, now: Instant) -> Request {
        Request {
            generated: (self.generated + 1) as u32,
            first_token_at: if self.first_token_at is Some {
                self.first_token_at
            } else {
                Some(now)
            },
            ..self
        }
    }

    /// The ids of a list of requests.
    pub open spec fn ids(rs: Seq<Request>) -> Seq<SeqId> {
        rs.map_values(|r: Request| r.seq_id)
    }

    /// The tokens, prompt and generated, that a batch of requests carries.
    pub open spec fn batch_tokens(rs: Seq<Request>) -> nat
        decreases rs.len(),
    {
        if rs.len() == 0 {
            0
        } else {
            Request::batch_tokens(rs.drop_last()) + rs.last().context_tokens()
        }
    }

    /// Whether the request has all the tokens it asked for.
    pub fn is_done(&self) -> (b: bool)
        ensures
            b == (self.generated >= self.max_new_tokens),
            b == self.done(),
    {
        self.generated >= self.max_new_tokens
    }
}

/// A request in numbers: it is done once it has as many tokens as it asked for, its
/// context is its prompt and its tokens, a token adds one to its count and nothing
/// else but the time of the first.
pub proof fn law_request_counts_its_tokens(r: Request, now: Instant)
    ensures
        r.done() <==> r.generated >= r.max_new_tokens,
        r.context_tokens() == r.prompt_tokens + r.generated,
        r.prompt_tokens + r.generated <= u32::MAX ==> r.reserved_tokens() == r.prompt_tokens
            + r.generated,
        r.prompt_tokens + r.generated > u32::MAX ==> r.reserved_tokens() == u32::MAX,
        r.generated < u32::MAX ==> {
            let next = r.with_token(now);
            &&& next.generated == r.generated + 1
            &&& next.seq_id == r.seq_id
            &&& next.prompt_tokens == r.prompt_tokens
            &&& next.max_new_tokens == r.max_new_tokens
            &&& next.arrival == r.arrival
            &&& r.first_token_at is None ==> next.first_token_at == Some(now)
            &&& r.first_token_at is Some ==> next.first_token_at == r.first_token_at
        },
{
}

} // verus!
