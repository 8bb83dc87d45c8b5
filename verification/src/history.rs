//! What holds of one acceptor over any sequence of requests.

use crate::classic::decode_accepted;
use crate::classic::encode_accepted;
use crate::classic::lemma_accepted_round_trip;
use crate::classic::AcceptorState;
use crate::classic::ClientView;
use crate::classic::cluster_acks;
use crate::classic::PersistView;
use crate::classic::Proposal;
use crate::quorum::count_acks;
use crate::quorum::spec_majority;
use vstd::prelude::*;

verus! {

/// A request as an acceptor receives it.
pub enum Request {
    Prepare(u64),
    Accept(u64, Seq<u8>),
}

impl Request {
    /// The ballot the request is made under.
    pub open spec fn ballot(self) -> u64 {
        match self {
            Request::Prepare(b) => b,
            Request::Accept(b, _) => b,
        }
    }
}

/// The state of an acceptor after it handled `r`.
pub open spec fn apply(s: AcceptorState, r: Request) -> AcceptorState {
    match r {
        Request::Prepare(b) => s.after_prepare(b),
        Request::Accept(b, v) => s.after_accept(b, v),
    }
}

/// The state of an acceptor after it handled `rs`, first to last.
pub open spec fn run(s: AcceptorState, rs: Seq<Request>) -> AcceptorState
    decreases rs.len(),
{
    if rs.len() == 0 {
        s
    } else {
        apply(run(s, rs.drop_last()), rs.last())
    }
}

/// Whether, starting from `s`, the acceptor takes none of the Accept
/// requests among `rs`.
pub open spec fn takes_no_accept(s: AcceptorState, rs: Seq<Request>) -> bool
    decreases rs.len(),
{
    if rs.len() == 0 {
        true
    } else {
        &&& takes_no_accept(s, rs.drop_last())
        &&& match rs.last() {
            Request::Prepare(_) => true,
            Request::Accept(b, _) => run(s, rs.drop_last()).rejects(b),
        }
    }
}

/// No request lowers the highest ballot seen, and a fresh or ordered
/// acceptor stays ordered.
pub proof fn lemma_step_monotonic(s: AcceptorState, r: Request)
    ensures
        apply(s, r).max_seen_ballot >= s.max_seen_ballot,
        s.ordered() ==> apply(s, r).ordered(),
        AcceptorState::fresh().ordered(),
{
}

/// Over any sequence of requests the highest ballot seen never goes down.
pub proof fn lemma_max_seen_monotonic(s: AcceptorState, rs: Seq<Request>)
    ensures
        run(s, rs).max_seen_ballot >= s.max_seen_ballot,
        s.ordered() ==> run(s, rs).ordered(),
    decreases rs.len(),
{
    if rs.len() > 0 {
        lemma_max_seen_monotonic(s, rs.drop_last());
        lemma_step_monotonic(run(s, rs.drop_last()), rs.last());
    }
}

/// A request under a ballot below the highest one seen is turned down and
/// leaves the acceptor as it was.
pub proof fn lemma_stale_rejected(s: AcceptorState, r: Request)
    requires
        r.ballot() < s.max_seen_ballot,
    ensures
        apply(s, r) == s,
        !s.promise(r.ballot()).ok,
        s.rejects(r.ballot()),
{
}

/// Requests among which no Accept is taken leave the accepted proposal as it
/// was.
pub proof fn lemma_accepted_kept(s: AcceptorState, rs: Seq<Request>)
    requires
        takes_no_accept(s, rs),
    ensures
        run(s, rs).accepted == s.accepted,
    decreases rs.len(),
{
    if rs.len() > 0 {
        lemma_accepted_kept(s, rs.drop_last());
    }
}

/// Once an acceptor has accepted `v` under `b`, a later Prepare under a
/// higher ballot that it promises reports exactly `(b, v)`, as long as it
/// took no other Accept in between.
pub proof fn lemma_promise_reports_accepted(
    s: AcceptorState,
    b: u64,
    v: Seq<u8>,
    between: Seq<Request>,
    later: u64,
)
    requires
        !s.rejects(b),
        takes_no_accept(s.after_accept(b, v), between),
        later > b,
    ensures
        ({
            let reply = run(s.after_accept(b, v), between).promise(later);
            reply.ok ==> reply.ballot_num == b && reply.value == v
        }),
{
    lemma_accepted_kept(s.after_accept(b, v), between);
}

/// Whatever an acceptor took in between, after it accepted under `b` it
/// reports a proposal of ballot `b` or higher.
pub proof fn lemma_promise_reports_at_least(
    s: AcceptorState,
    b: u64,
    v: Seq<u8>,
    between: Seq<Request>,
)
    requires
        !s.rejects(b),
    ensures
        ({
            let t = run(s.after_accept(b, v), between);
            t.accepted is Some && t.accepted.unwrap().ballot_num >= b
        }),
    decreases between.len(),
{
    if between.len() > 0 {
        lemma_promise_reports_at_least(s, b, v, between.drop_last());
        let t = run(s.after_accept(b, v), between.drop_last());
        lemma_max_seen_monotonic(s.after_accept(b, v), between.drop_last());
        match between.last() {
            Request::Prepare(_) => {},
            Request::Accept(b2, _) => {
                if !t.rejects(b2) {
                    assert(b2 >= t.max_seen_ballot);
                }
            },
        }
    }
}

/// A store into which `p` was written as the accepted proposal gives back
/// exactly `p` when it is read after a restart, whatever else it holds.
pub proof fn lemma_store_round_trip(store: PersistView, p: Proposal)
    ensures
        ({
            let written = PersistView { acceptor_accepted: Some(encode_accepted(p)), ..store };
            &&& written.wf()
            &&& written.accepted() == Some(p)
            &&& AcceptorState::recovered(written).accepted == Some(p)
        }),
{
    lemma_accepted_round_trip(p);
    let written = PersistView { acceptor_accepted: Some(encode_accepted(p)), ..store };
    assert(written.accepted() == Some(decode_accepted(encode_accepted(p))));
}

/// The number of acceptors that a call with the full retry budget reaches.
pub open spec fn count_reachable(c: Seq<ClientView>) -> nat
    decreases c.len(),
{
    if c.len() == 0 {
        0
    } else {
        count_reachable(c.drop_last()) + if c.last().reachable() {
            1nat
        } else {
            0nat
        }
    }
}

/// No more acceptors acknowledge than can be reached.
pub proof fn lemma_acks_need_reach(c: Seq<ClientView>, b: u64)
    ensures
        count_acks(cluster_acks(c, b)) <= count_reachable(c),
    decreases c.len(),
{
    if c.len() > 0 {
        lemma_acks_need_reach(c.drop_last(), b);
        assert(cluster_acks(c, b).drop_last() =~= cluster_acks(c.drop_last(), b));
    }
}

/// An Accept phase run against acceptors of which fewer than a majority can
/// be reached does not gather a majority.
pub proof fn lemma_no_quorum_no_success(c: Seq<ClientView>, b: u64)
    requires
        count_reachable(c) < spec_majority(c.len()),
    ensures
        !(count_acks(cluster_acks(c, b)) >= spec_majority(c.len())),
{
    lemma_acks_need_reach(c, b);
}

} // verus!
