//! The compute backend as a step sees it: something to ask for one token at a
//! time, with a ghost record of what it was asked and what it said.

use crate::kv_model::SeqId;
use vstd::prelude::*;

verus! {

/// A function that yields tokens. Every call of it goes through
/// [`TokenSource::ask`], which enters the call in the record: the record tells
/// how often the function was called, for which sequences and in which order.
pub struct TokenSource<F> {
    f: F,
    log: Ghost<Seq<(SeqId, bool)>>,
}

impl<F: FnMut(&SeqId) -> bool> TokenSource<F> {
    /// The function that is asked.
    pub closed spec fn asked(&self) -> F {
        self.f
    }

    /// The calls so far, oldest first: whose token was asked for, and whether it
    /// was the last of its sequence.
    pub closed spec fn log(&self) -> Seq<(SeqId, bool)> {
        self.log@
    }

    /// A source that has not been asked yet. `f` advances one sequence by one
    /// token and returns true on an end of sequence.
    pub fn new(f: F) -> (s: Self)
        ensures
            s.asked() == f,
            s.log() == Seq::<(SeqId, bool)>::empty(),
    {
        TokenSource { f, log: Ghost(Seq::empty()) }
    }

    /// Ask for the next token of a sequence. Returns true on an end of sequence.
    pub fn ask(&mut self, id: &SeqId) -> (eos: bool)
        requires
            call_requires(old(self).asked(), (id,)),
        ensures
            call_ensures(old(self).asked(), (id,), eos),
            final(self).asked() == old(self).asked(),
            final(self).log() == old(self).log().push((*id, eos)),
    {
        let eos = (self.f)(id);
        proof {
            self.log@ = self.log@.push((*id, eos));
        }
        eos
    }
}

} // verus!
