//! Why no two rounds agree on different values.
//!
//! The system is a fixed list of acceptors, driven by three kinds of steps
//! that may interleave in any order and repeat: an acceptor handles a
//! Prepare, a proposer fixes the value of its ballot from the replies it
//! tallied, an acceptor handles an Accept. Messages are not modelled: a
//! request may reach an acceptor at any time, any number of times, or
//! never.
//!
//! Two things are asked of a proposer that fixes a value. Its ballot is its
//! own (no value was fixed under it before), which distinct proposer ids and
//! durable round counters give. And its tally reached a majority of
//! promises, with a value of its own that is not empty.

use crate::classic::cluster_acks;
use crate::classic::cluster_after_accept;
use crate::classic::cluster_after_prepare;
use crate::classic::cluster_promises;
use crate::classic::value_to_propose;
use crate::classic::ClientView;
use crate::classic::Proposal;
use crate::quorum::count_acks;
use crate::classic::AcceptorState;
use crate::proto::paxos::PromiseView;
use crate::quorum::carries_value;
use crate::quorum::consumed;
use crate::quorum::count_ok;
use crate::quorum::is_highest;
use crate::quorum::lemma_tally_chosen;
use crate::quorum::lemma_tally_consumed;
use crate::quorum::lemma_tally_count;
use crate::quorum::spec_majority;
use crate::quorum::tally;
use vstd::prelude::*;
use vstd::set_lib::lemma_int_range;
use vstd::set_lib::lemma_len_subset;
use vstd::set_lib::lemma_set_disjoint_lens;
use vstd::set_lib::set_int_range;

verus! {

/// A promise that an acceptor made: the reply it gave to a Prepare under
/// `ballot`.
pub struct PromiseRecord {
    pub acceptor: int,
    pub ballot: u64,
    pub reply: PromiseView,
}

/// A vote: an acceptor took the Accept of ballot `ballot`.
pub struct Vote {
    pub acceptor: int,
    pub ballot: u64,
}

/// The replies that a proposer tallied, in the order of their arrival, and
/// the acceptor that each came from.
pub struct Basis {
    pub from: Seq<int>,
    pub replies: Seq<PromiseView>,
}

/// The acceptors, and what has happened so far.
pub struct System {
    /// The state of each acceptor.
    pub acceptors: Seq<AcceptorState>,
    /// Every promise made.
    pub promises: Set<PromiseRecord>,
    /// Every vote cast.
    pub votes: Set<Vote>,
    /// The value fixed for each ballot that a proposer went into Phase 2
    /// with.
    pub issued: Map<u64, Seq<u8>>,
    /// The tally on which each such value rests.
    pub basis: Map<u64, Basis>,
}

/// One step of the system.
pub enum Step {
    /// Acceptor `acceptor` handles a Prepare under `ballot`.
    Prepare { acceptor: int, ballot: u64 },
    /// The proposer of `ballot` fixes its value from the tally of
    /// `basis`, falling back on `own`.
    Issue { ballot: u64, own: Seq<u8>, basis: Basis },
    /// Acceptor `acceptor` handles the Accept of `ballot`.
    Accept { acceptor: int, ballot: u64 },
}

/// `n` fresh acceptors, and nothing has happened.
pub open spec fn init(n: nat) -> System {
    System {
        acceptors: Seq::new(n, |i: int| AcceptorState::fresh()),
        promises: Set::empty(),
        votes: Set::empty(),
        issued: Map::empty(),
        basis: Map::empty(),
    }
}

/// Whether no acceptor stands twice in `from`.
pub open spec fn distinct(from: Seq<int>) -> bool {
    forall|j: int, k: int| 0 <= j < k < from.len() ==> from[j] != from[k]
}

/// Whether `basis` is a tally that the proposer of `ballot` may rest on:
/// each reply comes from another acceptor, each positive reply is a promise
/// that the acceptor made for this ballot, and a majority promised.
pub open spec fn admissible(s: System, ballot: u64, basis: Basis) -> bool {
    &&& basis.from.len() == basis.replies.len()
    &&& distinct(basis.from)
    &&& forall|k: int|
        0 <= k < basis.from.len() ==> 0 <= #[trigger] basis.from[k] < s.acceptors.len()
    &&& forall|k: int|
        0 <= k < basis.replies.len() && (#[trigger] basis.replies[k]).ok ==> s.promises.contains(
            PromiseRecord { acceptor: basis.from[k], ballot, reply: basis.replies[k] },
        )
    &&& tally(s.acceptors.len(), ballot, basis.replies).done()
}

/// Whether `t` comes from `s` by `step`.
pub open spec fn next(s: System, t: System, step: Step) -> bool {
    match step {
        Step::Prepare { acceptor, ballot } => {
            &&& 0 <= acceptor < s.acceptors.len()
            &&& t == (System {
                acceptors: s.acceptors.update(
                    acceptor,
                    s.acceptors[acceptor].after_prepare(ballot),
                ),
                promises: if s.acceptors[acceptor].rejects(ballot) {
                    s.promises
                } else {
                    s.promises.insert(
                        PromiseRecord {
                            acceptor,
                            ballot,
                            reply: s.acceptors[acceptor].promise(ballot),
                        },
                    )
                },
                ..s
            })
        },
        Step::Issue { ballot, own, basis } => {
            &&& !s.issued.contains_key(ballot)
            &&& own.len() > 0
            &&& admissible(s, ballot, basis)
            &&& t == (System {
                issued: s.issued.insert(
                    ballot,
                    value_to_propose(tally(s.acceptors.len(), ballot, basis.replies).chosen, own),
                ),
                basis: s.basis.insert(ballot, basis),
                ..s
            })
        },
        Step::Accept { acceptor, ballot } => {
            &&& 0 <= acceptor < s.acceptors.len()
            &&& s.issued.contains_key(ballot)
            &&& t == (System {
                acceptors: s.acceptors.update(
                    acceptor,
                    s.acceptors[acceptor].after_accept(ballot, s.issued[ballot]),
                ),
                votes: if s.acceptors[acceptor].rejects(ballot) {
                    s.votes
                } else {
                    s.votes.insert(Vote { acceptor, ballot })
                },
                ..s
            })
        },
    }
}

/// Whether `states` is a run of `n` acceptors from the start, by `steps`.
pub open spec fn is_run(n: nat, states: Seq<System>, steps: Seq<Step>) -> bool {
    &&& states.len() == steps.len() + 1
    &&& states[0] == init(n)
    &&& forall|k: int| 0 <= k < steps.len() ==> next(states[k], #[trigger] states[k + 1], steps[k])
}

/// Whether `quorum` is a majority of the acceptors that all voted in
/// `ballot`.
pub open spec fn voted_by(s: System, ballot: u64, quorum: Set<int>) -> bool {
    &&& quorum.finite()
    &&& quorum.len() >= spec_majority(s.acceptors.len())
    &&& forall|i: int| #[trigger]
        quorum.contains(i) ==> 0 <= i < s.acceptors.len() && s.votes.contains(
            Vote { acceptor: i, ballot },
        )
}

/// Whether the round of `ballot` succeeded with `value`: a majority of the
/// acceptors took its Accept.
pub open spec fn chosen(s: System, ballot: u64, value: Seq<u8>) -> bool {
    &&& s.issued.contains_key(ballot)
    &&& s.issued[ballot] == value
    &&& exists|quorum: Set<int>| voted_by(s, ballot, quorum)
}

/// What holds of a vote.
pub open spec fn vote_ok(s: System, v: Vote) -> bool {
    &&& 0 <= v.acceptor < s.acceptors.len()
    &&& s.issued.contains_key(v.ballot)
    &&& s.acceptors[v.acceptor].accepted is Some
    &&& s.acceptors[v.acceptor].accepted.unwrap().ballot_num >= v.ballot
    &&& s.acceptors[v.acceptor].max_seen_ballot >= v.ballot
}

/// What holds of the proposal that acceptor `i` has accepted.
pub open spec fn accepted_ok(s: System, i: int) -> bool {
    match s.acceptors[i].accepted {
        Some(p) => {
            &&& s.votes.contains(Vote { acceptor: i, ballot: p.ballot_num })
            &&& s.issued.contains_key(p.ballot_num)
            &&& s.issued[p.ballot_num] == p.value
            &&& p.ballot_num <= s.acceptors[i].max_seen_ballot
        },
        None => true,
    }
}

/// What holds of a promise.
pub open spec fn promise_ok(s: System, r: PromiseRecord) -> bool {
    &&& 0 <= r.acceptor < s.acceptors.len()
    &&& r.reply.ok
    &&& s.acceptors[r.acceptor].max_seen_ballot >= r.ballot
    &&& (carries_value(r.reply) ==> {
        &&& s.votes.contains(Vote { acceptor: r.acceptor, ballot: r.reply.ballot_num })
        &&& s.issued.contains_key(r.reply.ballot_num)
        &&& s.issued[r.reply.ballot_num] == r.reply.value
        &&& r.reply.ballot_num <= r.ballot
    })
    &&& forall|b: u64| #[trigger]
        s.votes.contains(Vote { acceptor: r.acceptor, ballot: b }) && b < r.ballot
            ==> carries_value(r.reply) && b <= r.reply.ballot_num
}

/// What holds of the value fixed for ballot `b`.
pub open spec fn issued_ok(s: System, b: u64) -> bool {
    &&& s.issued[b].len() > 0
    &&& s.basis.contains_key(b)
    &&& admissible(s, b, s.basis[b])
    &&& forall|k: int|
        0 <= k < s.basis[b].replies.len() && carries_value(#[trigger] s.basis[b].replies[k])
            ==> s.basis[b].replies[k].ballot_num < b
    &&& ({
        let bound = tally(s.acceptors.len(), b, s.basis[b].replies).chosen;
        bound.value.len() > 0 ==> s.issued[b] == bound.value
    })
}

/// What holds in every state of a run.
pub open spec fn inv(s: System) -> bool {
    &&& forall|v: Vote| #[trigger] s.votes.contains(v) ==> vote_ok(s, v)
    &&& forall|i: int| 0 <= i < s.acceptors.len() ==> #[trigger] accepted_ok(s, i)
    &&& forall|r: PromiseRecord| #[trigger] s.promises.contains(r) ==> promise_ok(s, r)
    &&& forall|b: u64| #[trigger] s.issued.contains_key(b) ==> issued_ok(s, b)
}

/// It holds at the start.
pub proof fn lemma_inv_init(n: nat)
    ensures
        inv(init(n)),
{
}

/// A Prepare keeps it.
proof fn lemma_inv_prepare(s: System, t: System, acceptor: int, ballot: u64)
    requires
        inv(s),
        next(s, t, Step::Prepare { acceptor, ballot }),
    ensures
        inv(t),
{
    let a = s.acceptors[acceptor];
    assert(accepted_ok(s, acceptor));
    assert forall|v: Vote| #[trigger] t.votes.contains(v) implies vote_ok(t, v) by {
        assert(vote_ok(s, v));
    }
    assert forall|i: int| 0 <= i < t.acceptors.len() implies #[trigger] accepted_ok(t, i) by {
        assert(accepted_ok(s, i));
    }
    assert forall|r: PromiseRecord| #[trigger] t.promises.contains(r) implies promise_ok(t, r) by {
        if s.promises.contains(r) {
            assert(promise_ok(s, r));
        } else {
            assert(r.acceptor == acceptor && r.ballot == ballot && r.reply == a.promise(ballot));
            assert forall|b: u64| #[trigger]
                t.votes.contains(Vote { acceptor: r.acceptor, ballot: b }) && b
                    < r.ballot implies carries_value(r.reply) && b <= r.reply.ballot_num by {
                let v = Vote { acceptor, ballot: b };
                assert(vote_ok(s, v));
                let p = a.accepted.unwrap();
                assert(s.issued.contains_key(p.ballot_num));
                assert(issued_ok(s, p.ballot_num));
            }
        }
    }
    assert forall|b: u64| #[trigger] t.issued.contains_key(b) implies issued_ok(t, b) by {
        assert(issued_ok(s, b));
    }
}

/// An Accept keeps it.
proof fn lemma_inv_accept(s: System, t: System, acceptor: int, ballot: u64)
    requires
        inv(s),
        next(s, t, Step::Accept { acceptor, ballot }),
    ensures
        inv(t),
{
    let a = s.acceptors[acceptor];
    assert(accepted_ok(s, acceptor));
    assert forall|v: Vote| #[trigger] t.votes.contains(v) implies vote_ok(t, v) by {
        if s.votes.contains(v) {
            assert(vote_ok(s, v));
        }
    }
    assert forall|i: int| 0 <= i < t.acceptors.len() implies #[trigger] accepted_ok(t, i) by {
        assert(accepted_ok(s, i));
    }
    assert forall|r: PromiseRecord| #[trigger] t.promises.contains(r) implies promise_ok(t, r) by {
        assert(promise_ok(s, r));
        assert forall|b: u64| #[trigger]
            t.votes.contains(Vote { acceptor: r.acceptor, ballot: b }) && b
                < r.ballot implies carries_value(r.reply) && b <= r.reply.ballot_num by {
            assert(s.votes.contains(Vote { acceptor: r.acceptor, ballot: b }));
        }
    }
    assert forall|b: u64| #[trigger] t.issued.contains_key(b) implies issued_ok(t, b) by {
        assert(issued_ok(s, b));
    }
}

/// Fixing a value keeps it.
proof fn lemma_inv_issue(s: System, t: System, ballot: u64, own: Seq<u8>, basis: Basis)
    requires
        inv(s),
        next(s, t, Step::Issue { ballot, own, basis }),
    ensures
        inv(t),
{
    assert forall|v: Vote| #[trigger] t.votes.contains(v) implies vote_ok(t, v) by {
        assert(vote_ok(s, v));
    }
    assert forall|i: int| 0 <= i < t.acceptors.len() implies #[trigger] accepted_ok(t, i) by {
        assert(accepted_ok(s, i));
    }
    assert forall|r: PromiseRecord| #[trigger] t.promises.contains(r) implies promise_ok(t, r) by {
        assert(promise_ok(s, r));
    }
    assert forall|b: u64| #[trigger] t.issued.contains_key(b) implies issued_ok(t, b) by {
        if b == ballot {
            assert forall|k: int|
                0 <= k < basis.replies.len() && carries_value(
                    #[trigger] basis.replies[k],
                ) implies basis.replies[k].ballot_num < b by {
                let r = PromiseRecord { acceptor: basis.from[k], ballot, reply: basis.replies[k] };
                assert(promise_ok(s, r));
                let v = Vote { acceptor: r.acceptor, ballot: r.reply.ballot_num };
                assert(vote_ok(s, v));
            }
        } else {
            assert(issued_ok(s, b));
        }
    }
}

/// Every step keeps it.
pub proof fn lemma_inv_next(s: System, t: System, step: Step)
    requires
        inv(s),
        next(s, t, step),
    ensures
        inv(t),
{
    match step {
        Step::Prepare { acceptor, ballot } => lemma_inv_prepare(s, t, acceptor, ballot),
        Step::Issue { ballot, own, basis } => lemma_inv_issue(s, t, ballot, own, basis),
        Step::Accept { acceptor, ballot } => lemma_inv_accept(s, t, acceptor, ballot),
    }
}

/// It holds in every state of a run.
pub proof fn lemma_inv_run(n: nat, states: Seq<System>, steps: Seq<Step>, k: int)
    requires
        is_run(n, states, steps),
        0 <= k < states.len(),
    ensures
        inv(states[k]),
    decreases k,
{
    if k == 0 {
        lemma_inv_init(n);
    } else {
        lemma_inv_run(n, states, steps, k - 1);
        assert(next(states[k - 1], states[k - 1 + 1], steps[k - 1]));
        lemma_inv_next(states[k - 1], states[k], steps[k - 1]);
    }
}

/// The acceptors that sent one of the first `c` replies and promised.
pub open spec fn promisers(basis: Basis, c: int) -> Set<int>
    decreases c,
{
    if c <= 0 {
        Set::empty()
    } else if basis.replies[c - 1].ok {
        promisers(basis, c - 1).insert(basis.from[c - 1])
    } else {
        promisers(basis, c - 1)
    }
}

/// There are as many promisers as positive replies, and each of them sent
/// one.
pub proof fn lemma_promisers(basis: Basis, c: int)
    requires
        basis.from.len() == basis.replies.len(),
        distinct(basis.from),
        0 <= c <= basis.replies.len(),
    ensures
        promisers(basis, c).finite(),
        promisers(basis, c).len() == count_ok(basis.replies.subrange(0, c)),
        forall|i: int| #[trigger]
            promisers(basis, c).contains(i) ==> exists|k: int|
                0 <= k < c && basis.from[k] == i && basis.replies[k].ok,
    decreases c,
{
    if c > 0 {
        lemma_promisers(basis, c - 1);
        assert(basis.replies.subrange(0, c).drop_last() =~= basis.replies.subrange(0, c - 1));
        let before = promisers(basis, c - 1);
        if basis.replies[c - 1].ok {
            if before.contains(basis.from[c - 1]) {
                let k = choose|k: int|
                    0 <= k < c - 1 && basis.from[k] == basis.from[c - 1] && basis.replies[k].ok;
                assert(false);
            }
        }
        assert forall|i: int| #[trigger] promisers(basis, c).contains(i) implies exists|k: int|
            0 <= k < c && basis.from[k] == i && basis.replies[k].ok by {
            if before.contains(i) {
                let k = choose|k: int| 0 <= k < c - 1 && basis.from[k] == i && basis.replies[k].ok;
                assert(0 <= k < c && basis.from[k] == i && basis.replies[k].ok);
            } else {
                assert(basis.from[c - 1] == i && basis.replies[c - 1].ok);
            }
        }
    } else {
        assert(basis.replies.subrange(0, c) =~= Seq::<PromiseView>::empty());
    }
}

/// Any two majorities of the same acceptors have an acceptor in common.
pub proof fn lemma_majorities_meet(n: nat, a: Set<int>, b: Set<int>)
    requires
        a.finite(),
        b.finite(),
        a.len() >= spec_majority(n),
        b.len() >= spec_majority(n),
        forall|i: int| #[trigger] a.contains(i) ==> 0 <= i < n,
        forall|i: int| #[trigger] b.contains(i) ==> 0 <= i < n,
    ensures
        exists|i: int| a.contains(i) && b.contains(i),
{
    if a.disjoint(b) {
        lemma_set_disjoint_lens(a, b);
        lemma_int_range(0, n as int);
        assert((a + b).subset_of(set_int_range(0, n as int)));
        lemma_len_subset(a + b, set_int_range(0, n as int));
        assert(false);
    }
}

/// Once a round has succeeded with a value, every higher ballot is fixed to
/// that value.
pub proof fn lemma_higher_ballots_keep_value(s: System, low: u64, value: Seq<u8>, high: u64)
    requires
        inv(s),
        chosen(s, low, value),
        s.issued.contains_key(high),
        low < high,
    ensures
        s.issued[high] == value,
    decreases high,
{
    let n = s.acceptors.len();
    let basis = s.basis[high];
    assert(issued_ok(s, high));
    let m = spec_majority(n);
    let c = consumed(m, basis.replies) as int;
    let seen = basis.replies.subrange(0, c);
    lemma_tally_consumed(n, high, basis.replies);
    lemma_tally_count(n, high, basis.replies);
    lemma_tally_count(n, high, seen);
    lemma_tally_chosen(n, high, basis.replies);
    lemma_promisers(basis, c);
    let quorum = choose|quorum: Set<int>| voted_by(s, low, quorum);
    let mine = promisers(basis, c);
    assert forall|i: int| #[trigger] mine.contains(i) implies 0 <= i < n by {
        let k = choose|k: int| 0 <= k < c && basis.from[k] == i && basis.replies[k].ok;
        assert(0 <= basis.from[k] < n);
    }
    lemma_majorities_meet(n, mine, quorum);
    let i = choose|i: int| mine.contains(i) && quorum.contains(i);
    let k = choose|k: int| 0 <= k < c && basis.from[k] == i && basis.replies[k].ok;
    let r = PromiseRecord { acceptor: i, ballot: high, reply: basis.replies[k] };
    assert(s.promises.contains(r));
    assert(promise_ok(s, r));
    assert(s.votes.contains(Vote { acceptor: i, ballot: low }));
    assert(carries_value(seen[k]) && low <= seen[k].ballot_num);
    let bound = tally(n, high, basis.replies).chosen;
    assert(is_highest(seen, bound));
    let w = choose|w: int|
        0 <= w < seen.len() && carries_value(#[trigger] seen[w]) && seen[w].ballot_num
            == bound.ballot_num && seen[w].value == bound.value;
    assert(seen[w] == basis.replies[w]);
    let rw = PromiseRecord { acceptor: basis.from[w], ballot: high, reply: basis.replies[w] };
    assert(s.promises.contains(rw));
    assert(promise_ok(s, rw));
    assert(carries_value(basis.replies[w]));
    assert(bound.ballot_num < high);
    assert(seen[k].ballot_num <= bound.ballot_num);
    if bound.ballot_num > low {
        lemma_higher_ballots_keep_value(s, low, value, bound.ballot_num);
    }
}

/// In a state where the invariant holds, two rounds that both succeeded
/// did so with the same value.
pub proof fn lemma_agreement(s: System, b1: u64, v1: Seq<u8>, b2: u64, v2: Seq<u8>)
    requires
        inv(s),
        chosen(s, b1, v1),
        chosen(s, b2, v2),
    ensures
        v1 == v2,
{
    if b1 < b2 {
        lemma_higher_ballots_keep_value(s, b1, v1, b2);
    } else if b2 < b1 {
        lemma_higher_ballots_keep_value(s, b2, v2, b1);
    }
}

/// Single-value safety. In any run of the system, from fresh acceptors and
/// by steps in any order, two rounds that both succeeded did so with the
/// same value.
pub proof fn theorem_single_value(
    n: nat,
    states: Seq<System>,
    steps: Seq<Step>,
    b1: u64,
    v1: Seq<u8>,
    b2: u64,
    v2: Seq<u8>,
)
    requires
        is_run(n, states, steps),
        chosen(states.last(), b1, v1),
        chosen(states.last(), b2, v2),
    ensures
        v1 == v2,
{
    lemma_inv_run(n, states, steps, states.len() - 1);
    lemma_agreement(states.last(), b1, v1, b2, v2);
}

/// Once a round has succeeded, what a majority has accepted does not
/// change any more: every acceptor that votes in a higher ballot accepts
/// the value of that round.
pub proof fn theorem_chosen_value_stays(
    n: nat,
    states: Seq<System>,
    steps: Seq<Step>,
    low: u64,
    value: Seq<u8>,
    i: int,
)
    requires
        is_run(n, states, steps),
        chosen(states.last(), low, value),
        0 <= i < states.last().acceptors.len(),
        states.last().acceptors[i].accepted is Some,
        states.last().acceptors[i].accepted.unwrap().ballot_num >= low,
    ensures
        states.last().acceptors[i].accepted.unwrap().value == value,
{
    let s = states.last();
    lemma_inv_run(n, states, steps, states.len() - 1);
    assert(accepted_ok(s, i));
    let p = s.acceptors[i].accepted.unwrap();
    if p.ballot_num > low {
        lemma_higher_ballots_keep_value(s, low, value, p.ballot_num);
    }
}

/// Whether `states` are the states that the system goes through from `s`
/// to `t` by `steps`.
pub open spec fn is_walk(s: System, states: Seq<System>, steps: Seq<Step>, t: System) -> bool {
    &&& states.len() == steps.len() + 1
    &&& states[0] == s
    &&& states.last() == t
    &&& forall|k: int| 0 <= k < steps.len() ==> next(states[k], #[trigger] states[k + 1], steps[k])
}

/// Whether the system can get from `s` to `t` by steps.
pub open spec fn leads_to(s: System, t: System) -> bool {
    exists|states: Seq<System>, steps: Seq<Step>| #[trigger] is_walk(s, states, steps, t)
}

/// The system gets from any state to itself.
pub proof fn lemma_leads_refl(s: System)
    ensures
        leads_to(s, s),
{
    let states = seq![s];
    let steps = Seq::<Step>::empty();
    assert(is_walk(s, states, steps, s));
}

/// The system gets on by one more step.
pub proof fn lemma_leads_step(s: System, t: System, u: System, step: Step)
    requires
        leads_to(s, t),
        next(t, u, step),
    ensures
        leads_to(s, u),
{
    let (states, steps) = choose|states: Seq<System>, steps: Seq<Step>| #[trigger]
        is_walk(s, states, steps, t);
    let states2 = states.push(u);
    let steps2 = steps.push(step);
    assert forall|k: int| 0 <= k < steps2.len() implies next(
        states2[k],
        #[trigger] states2[k + 1],
        steps2[k],
    ) by {
        if k < steps.len() {
            assert(next(states[k], states[k + 1], steps[k]));
        }
    }
    assert(is_walk(s, states2, steps2, u));
}

/// A run that is taken further is a run.
pub proof fn lemma_run_extends(n: nat, states: Seq<System>, steps: Seq<Step>, t: System)
    requires
        is_run(n, states, steps),
        leads_to(states.last(), t),
    ensures
        exists|states2: Seq<System>, steps2: Seq<Step>| #[trigger]
            is_run(n, states2, steps2) && states2.last() == t,
{
    let (more, msteps) = choose|more: Seq<System>, msteps: Seq<Step>| #[trigger]
        is_walk(states.last(), more, msteps, t);
    let states2 = states + more.subrange(1, more.len() as int);
    let steps2 = steps + msteps;
    assert forall|k: int| 0 <= k < steps2.len() implies next(
        states2[k],
        #[trigger] states2[k + 1],
        steps2[k],
    ) by {
        if k < steps.len() {
            assert(next(states[k], states[k + 1], steps[k]));
        } else {
            let j = k - steps.len();
            assert(next(more[j], more[j + 1], msteps[j]));
        }
    }
    assert(is_run(n, states2, steps2));
}

/// The states of the acceptors behind the handles of a configuration.
pub open spec fn states_of(c: Seq<ClientView>) -> Seq<AcceptorState> {
    c.map_values(|x: ClientView| x.state)
}

/// The tally that a proposer makes of the replies of a configuration, each
/// acceptor named by its place.
pub open spec fn basis_of(c: Seq<ClientView>, b: u64) -> Basis {
    Basis { from: Seq::new(c.len(), |i: int| i), replies: cluster_promises(c, b) }
}

/// The system while the Prepare of ballot `b` goes round: it has reached
/// the first `k` acceptors of the configuration.
pub open spec fn preparing(s: System, c: Seq<ClientView>, b: u64, k: int) -> System {
    System {
        acceptors: Seq::new(
            c.len(),
            |i: int|
                if i < k {
                    c[i].after_prepare(b).state
                } else {
                    c[i].state
                },
        ),
        promises: s.promises.union(
            Set::new(
                |r: PromiseRecord|
                    0 <= r.acceptor < k && r.ballot == b && r.reply == c[r.acceptor].promise(b)
                        && r.reply.ok,
            ),
        ),
        ..s
    }
}

/// The system while the Accept of ballot `b` goes round: it has reached
/// the first `k` acceptors of the configuration.
pub open spec fn accepting(s: System, c: Seq<ClientView>, b: u64, v: Seq<u8>, k: int) -> System {
    System {
        acceptors: Seq::new(
            c.len(),
            |i: int|
                if i < k {
                    c[i].after_accept(Proposal { ballot_num: b, value: v }).state
                } else {
                    c[i].state
                },
        ),
        votes: s.votes.union(
            Set::new(|w: Vote| 0 <= w.acceptor < k && w.ballot == b && c[w.acceptor].ack(b)),
        ),
        ..s
    }
}

/// Sending a Prepare round the configuration is a run of Prepare steps.
pub proof fn lemma_prepare_round(s: System, c: Seq<ClientView>, b: u64, k: int)
    requires
        s.acceptors == states_of(c),
        0 <= k <= c.len(),
    ensures
        leads_to(s, preparing(s, c, b, k)),
    decreases k,
{
    if k == 0 {
        assert(preparing(s, c, b, 0).acceptors =~= s.acceptors);
        assert(preparing(s, c, b, 0).promises =~= s.promises);
        lemma_leads_refl(s);
    } else {
        lemma_prepare_round(s, c, b, k - 1);
        let t = preparing(s, c, b, k - 1);
        let u = preparing(s, c, b, k);
        let i = k - 1;
        if c[i].reachable() {
            assert(t.acceptors[i] == c[i].state);
            assert(u.acceptors =~= t.acceptors.update(i, t.acceptors[i].after_prepare(b)));
            if c[i].state.rejects(b) {
                assert(u.promises =~= t.promises);
            } else {
                assert(u.promises =~= t.promises.insert(
                    PromiseRecord { acceptor: i, ballot: b, reply: t.acceptors[i].promise(b) },
                ));
            }
            assert(next(t, u, Step::Prepare { acceptor: i, ballot: b }));
            lemma_leads_step(s, t, u, Step::Prepare { acceptor: i, ballot: b });
        } else {
            assert(u.acceptors =~= t.acceptors);
            assert(u.promises =~= t.promises);
        }
    }
}

/// Sending an Accept round the configuration is a run of Accept steps.
pub proof fn lemma_accept_round(s: System, c: Seq<ClientView>, b: u64, k: int)
    requires
        s.acceptors == states_of(c),
        s.issued.contains_key(b),
        0 <= k <= c.len(),
    ensures
        leads_to(s, accepting(s, c, b, s.issued[b], k)),
    decreases k,
{
    let v = s.issued[b];
    if k == 0 {
        assert(accepting(s, c, b, v, 0).acceptors =~= s.acceptors);
        assert(accepting(s, c, b, v, 0).votes =~= s.votes);
        lemma_leads_refl(s);
    } else {
        lemma_accept_round(s, c, b, k - 1);
        let t = accepting(s, c, b, v, k - 1);
        let u = accepting(s, c, b, v, k);
        let i = k - 1;
        if c[i].reachable() {
            assert(t.acceptors[i] == c[i].state);
            assert(u.acceptors =~= t.acceptors.update(i, t.acceptors[i].after_accept(b, v)));
            if c[i].state.rejects(b) {
                assert(u.votes =~= t.votes);
            } else {
                assert(u.votes =~= t.votes.insert(Vote { acceptor: i, ballot: b }));
            }
            assert(next(t, u, Step::Accept { acceptor: i, ballot: b }));
            lemma_leads_step(s, t, u, Step::Accept { acceptor: i, ballot: b });
        } else {
            assert(u.acceptors =~= t.acceptors);
            assert(u.votes =~= t.votes);
        }
    }
}

/// The acceptors among the first `k` that acknowledge.
pub open spec fn ackers(acks: Seq<bool>, k: int) -> Set<int>
    decreases k,
{
    if k <= 0 {
        Set::empty()
    } else if acks[k - 1] {
        ackers(acks, k - 1).insert(k - 1)
    } else {
        ackers(acks, k - 1)
    }
}

/// There are as many of them as there are acknowledgements.
pub proof fn lemma_ackers(acks: Seq<bool>, k: int)
    requires
        0 <= k <= acks.len(),
    ensures
        ackers(acks, k).finite(),
        ackers(acks, k).len() == count_acks(acks.subrange(0, k)),
        forall|i: int| #[trigger] ackers(acks, k).contains(i) ==> 0 <= i < k && acks[i],
    decreases k,
{
    if k > 0 {
        lemma_ackers(acks, k - 1);
        assert(acks.subrange(0, k).drop_last() =~= acks.subrange(0, k - 1));
    } else {
        assert(acks.subrange(0, k) =~= Seq::<bool>::empty());
    }
}

/// The steps of one round. When a proposer takes a ballot of its own,
/// sends the Prepare round its configuration, gets a majority of
/// promises, goes on with the value it is bound to (or else its own, not
/// empty) and sends the Accept round, then the system made a run of
/// steps: it ends with the acceptors as the round left them, and if a
/// majority acknowledged, the round has succeeded with that value.
pub proof fn theorem_round_is_a_run(s: System, c: Seq<ClientView>, b: u64, own: Seq<u8>) -> (t:
    System)
    requires
        s.acceptors == states_of(c),
        !s.issued.contains_key(b),
        own.len() > 0,
        tally(c.len(), b, cluster_promises(c, b)).done(),
    ensures
        leads_to(s, t),
        ({
            let v = value_to_propose(tally(c.len(), b, cluster_promises(c, b)).chosen, own);
            let prepared = cluster_after_prepare(c, b);
            &&& t.issued == s.issued.insert(b, v)
            &&& t.acceptors == states_of(
                cluster_after_accept(prepared, Proposal { ballot_num: b, value: v }),
            )
            &&& count_acks(cluster_acks(prepared, b)) >= spec_majority(c.len()) ==> chosen(t, b, v)
        }),
{
    let n = c.len();
    let v = value_to_propose(tally(n, b, cluster_promises(c, b)).chosen, own);
    let prepared = cluster_after_prepare(c, b);
    // Phase 1.
    lemma_prepare_round(s, c, b, n as int);
    let s1 = preparing(s, c, b, n as int);
    assert(s1.acceptors =~= states_of(prepared));
    // The value is fixed.
    let basis = basis_of(c, b);
    assert(admissible(s1, b, basis)) by {
        assert forall|k: int|
            0 <= k < basis.replies.len() && (#[trigger] basis.replies[k]).ok implies s1.promises.contains(
            PromiseRecord { acceptor: basis.from[k], ballot: b, reply: basis.replies[k] },
        ) by {
            let r = PromiseRecord { acceptor: k, ballot: b, reply: c[k].promise(b) };
            assert(basis.replies[k] == c[k].promise(b));
            assert(Set::new(
                |r: PromiseRecord|
                    0 <= r.acceptor < n && r.ballot == b && r.reply == c[r.acceptor].promise(b)
                        && r.reply.ok,
            ).contains(r));
        }
    }
    let s2 = System { issued: s1.issued.insert(b, v), basis: s1.basis.insert(b, basis), ..s1 };
    assert(next(s1, s2, Step::Issue { ballot: b, own, basis }));
    lemma_leads_step(s, s1, s2, Step::Issue { ballot: b, own, basis });
    // Phase 2.
    lemma_accept_round(s2, prepared, b, n as int);
    let t = accepting(s2, prepared, b, v, n as int);
    assert(forall|x: System| leads_to(s2, x) ==> leads_to(s, x)) by {
        assert forall|x: System| leads_to(s2, x) implies leads_to(s, x) by {
            lemma_leads_trans(s, s2, x);
        }
    }
    assert(t.acceptors =~= states_of(
        cluster_after_accept(prepared, Proposal { ballot_num: b, value: v }),
    ));
    let acks = cluster_acks(prepared, b);
    if count_acks(acks) >= spec_majority(n) {
        lemma_ackers(acks, n as int);
        assert(acks.subrange(0, n as int) =~= acks);
        let quorum = ackers(acks, n as int);
        assert forall|i: int| #[trigger] quorum.contains(i) implies 0 <= i < t.acceptors.len()
            && t.votes.contains(Vote { acceptor: i, ballot: b }) by {
            assert(acks[i] == prepared[i].ack(b));
            assert(Set::new(
                |w: Vote| 0 <= w.acceptor < n && w.ballot == b && prepared[w.acceptor].ack(b),
            ).contains(Vote { acceptor: i, ballot: b }));
        }
        assert(voted_by(t, b, quorum));
    }
    t
}

/// The system gets on from where it got.
pub proof fn lemma_leads_trans(s: System, t: System, u: System)
    requires
        leads_to(s, t),
        leads_to(t, u),
    ensures
        leads_to(s, u),
{
    let (more, msteps) = choose|more: Seq<System>, msteps: Seq<Step>| #[trigger]
        is_walk(t, more, msteps, u);
    lemma_leads_along(s, more, msteps, msteps.len() as int);
}

/// The system gets to every state of a run that starts where it got.
proof fn lemma_leads_along(s: System, more: Seq<System>, msteps: Seq<Step>, i: int)
    requires
        more.len() == msteps.len() + 1,
        leads_to(s, more[0]),
        forall|k: int| 0 <= k < msteps.len() ==> next(more[k], #[trigger] more[k + 1], msteps[k]),
        0 <= i <= msteps.len(),
    ensures
        leads_to(s, more[i]),
    decreases i,
{
    if i > 0 {
        lemma_leads_along(s, more, msteps, i - 1);
        assert(next(more[i - 1], more[i - 1 + 1], msteps[i - 1]));
        lemma_leads_step(s, more[i - 1], more[i], msteps[i - 1]);
    }
}

} // verus!
