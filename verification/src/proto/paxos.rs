//! The four messages that proposers and acceptors exchange.

use vstd::prelude::*;
use vstd::slice::slice_to_vec;

verus! {

/// Phase 1 request: "will you promise ballot `ballot_num`?"
pub struct Prepare {
    pub ballot_num: u64,
}

/// Phase 1 reply. When `ok`, `ballot_num` and `value` carry the proposal the
/// acceptor has already accepted (zero and empty when there is none). When
/// not `ok`, `ballot_num` is the ballot that outranked the request.
pub struct Promise {
    pub ok: bool,
    pub ballot_num: u64,
    pub value: Vec<u8>,
}

/// Phase 2 request: "accept `value` under ballot `ballot_num`".
pub struct Propose {
    pub ballot_num: u64,
    pub value: Vec<u8>,
}

/// Phase 2 reply.
pub struct Accept {
    pub ok: bool,
}

/// A [`Promise`] as a mathematical value.
pub struct PromiseView {
    pub ok: bool,
    pub ballot_num: u64,
    pub value: Seq<u8>,
}

impl View for Promise {
    type V = PromiseView;

    open spec fn view(&self) -> PromiseView {
        PromiseView { ok: self.ok, ballot_num: self.ballot_num, value: self.value@ }
    }
}

impl Promise {
    /// The reply that stands in for an acceptor that could not be reached.
    pub open spec fn spec_negative() -> PromiseView {
        PromiseView { ok: false, ballot_num: 0, value: Seq::empty() }
    }

    /// Builds the reply that stands in for an acceptor that could not be
    /// reached.
    pub fn negative() -> (p: Promise)
        ensures
            p@ == Self::spec_negative(),
    {
        Promise { ok: false, ballot_num: 0, value: Vec::new() }
    }

    /// Copies the message.
    pub fn duplicate(&self) -> (p: Promise)
        ensures
            p@ == self@,
    {
        Promise { ok: self.ok, ballot_num: self.ballot_num, value: slice_to_vec(self.value.as_slice()) }
    }
}

impl Accept {
    /// Builds the reply that stands in for an acceptor that could not be
    /// reached.
    pub fn negative() -> (a: Accept)
        ensures
            !a.ok,
    {
        Accept { ok: false }
    }
}

} // verus!
