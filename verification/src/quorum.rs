//! Counting votes: how a proposer turns the replies of its acceptors into the
//! outcome of a phase.
//!
//! Replies are taken in the order in which they arrive. Counting stops as
//! soon as a majority of positive replies is in; what arrives later is not
//! looked at.

use crate::buf::bytes_view;
use crate::classic::Promised;
use crate::classic::Proposal;
use crate::proto::paxos::Accept;
use crate::proto::paxos::Promise;
use crate::proto::paxos::PromiseView;
use bytes::Bytes;
use vstd::prelude::*;

verus! {

/// The number of attempts an acceptor is given per phase before it is
/// counted as a negative vote.
pub const MAX_ATTEMPTS: usize = 3;

/// Size of the smallest group of acceptors that overlaps every other group
/// of that size.
pub open spec fn spec_majority(n: nat) -> nat {
    n / 2 + 1
}

/// Computes the quorum size for `n` acceptors.
pub fn majority(n: usize) -> (m: usize)
    ensures
        m == spec_majority(n as nat),
        m >= 1,
{
    n / 2 + 1
}

/// The views of a list of promises, in order.
pub open spec fn promise_views(rs: Seq<Promise>) -> Seq<PromiseView> {
    rs.map_values(|p: Promise| p@)
}

/// The number of positive replies in `rs`.
pub open spec fn count_ok(rs: Seq<PromiseView>) -> nat
    decreases rs.len(),
{
    if rs.len() == 0 {
        0
    } else {
        count_ok(rs.drop_last()) + if rs.last().ok {
            1nat
        } else {
            0nat
        }
    }
}

/// The number of `true` in `acks`.
pub open spec fn count_acks(acks: Seq<bool>) -> nat
    decreases acks.len(),
{
    if acks.len() == 0 {
        0
    } else {
        count_acks(acks.drop_last()) + if acks.last() {
            1nat
        } else {
            0nat
        }
    }
}

/// Whether a promise reports a proposal that the acceptor had accepted.
pub open spec fn carries_value(p: PromiseView) -> bool {
    p.ok && p.value.len() > 0
}

/// The running state of a Prepare phase.
pub struct PromiseTallyView {
    /// Positive replies needed.
    pub majority: nat,
    /// Positive replies counted so far.
    pub promised: nat,
    /// The proposal the round is bound to so far. An empty value means that
    /// no counted reply carried one.
    pub chosen: Proposal,
}

impl PromiseTallyView {
    /// The state before any reply, for `n` acceptors and ballot `ballot_num`.
    pub open spec fn start(n: nat, ballot_num: u64) -> PromiseTallyView {
        PromiseTallyView {
            majority: spec_majority(n),
            promised: 0,
            chosen: Proposal { ballot_num, value: Seq::empty() },
        }
    }

    /// Whether a majority of positive replies is in.
    pub open spec fn done(self) -> bool {
        self.promised >= self.majority
    }

    /// The proposal to be bound to after a positive reply `p`: the reported
    /// one when it is the first to carry a value or outranks the one held.
    pub open spec fn adopt(self, p: PromiseView) -> Proposal {
        if p.value.len() > 0 && (self.chosen.value.len() == 0 || p.ballot_num
            > self.chosen.ballot_num) {
            Proposal { ballot_num: p.ballot_num, value: p.value }
        } else {
            self.chosen
        }
    }

    /// The state after one more reply.
    pub open spec fn step(self, p: PromiseView) -> PromiseTallyView {
        if self.done() || !p.ok {
            self
        } else {
            PromiseTallyView {
                majority: self.majority,
                promised: self.promised + 1,
                chosen: self.adopt(p),
            }
        }
    }

    /// The state after the replies `rs`, taken first to last.
    pub open spec fn run(self, rs: Seq<PromiseView>) -> PromiseTallyView
        decreases rs.len(),
    {
        if rs.len() == 0 {
            self
        } else {
            self.run(rs.drop_last()).step(rs.last())
        }
    }
}

/// The outcome of a Prepare phase for `n` acceptors under `ballot_num` whose
/// replies arrive as `rs`.
pub open spec fn tally(n: nat, ballot_num: u64, rs: Seq<PromiseView>) -> PromiseTallyView {
    PromiseTallyView::start(n, ballot_num).run(rs)
}

/// How many replies of `rs` the tally looks at: up to and including the one
/// that completes the majority.
pub open spec fn consumed(majority: nat, rs: Seq<PromiseView>) -> nat
    decreases rs.len(),
{
    if rs.len() == 0 {
        0
    } else if count_ok(rs.drop_last()) >= majority {
        consumed(majority, rs.drop_last())
    } else {
        rs.len()
    }
}

/// Whether `p` is, among the replies `rs`, one that carries a value under
/// the highest ballot.
pub open spec fn is_highest(rs: Seq<PromiseView>, p: Proposal) -> bool {
    &&& exists|i: int|
        0 <= i < rs.len() && carries_value(#[trigger] rs[i]) && rs[i].ballot_num == p.ballot_num
            && rs[i].value == p.value
    &&& forall|i: int|
        0 <= i < rs.len() && carries_value(#[trigger] rs[i]) ==> rs[i].ballot_num <= p.ballot_num
}

/// The tally counts the positive replies up to the majority and no further.
pub proof fn lemma_tally_count(n: nat, ballot_num: u64, rs: Seq<PromiseView>)
    ensures
        tally(n, ballot_num, rs).majority == spec_majority(n),
        tally(n, ballot_num, rs).promised == if count_ok(rs) <= spec_majority(n) {
            count_ok(rs)
        } else {
            spec_majority(n)
        },
        tally(n, ballot_num, rs).done() <==> count_ok(rs) >= spec_majority(n),
    decreases rs.len(),
{
    if rs.len() > 0 {
        lemma_tally_count(n, ballot_num, rs.drop_last());
    }
}

/// The replies that the tally looks at form a prefix, and the tally of the
/// whole is the tally of that prefix.
pub proof fn lemma_tally_consumed(n: nat, ballot_num: u64, rs: Seq<PromiseView>)
    ensures
        consumed(spec_majority(n), rs) <= rs.len(),
        tally(n, ballot_num, rs) == tally(
            n,
            ballot_num,
            rs.subrange(0, consumed(spec_majority(n), rs) as int),
        ),
        count_ok(rs.subrange(0, consumed(spec_majority(n), rs) as int)) <= spec_majority(n),
    decreases rs.len(),
{
    let m = spec_majority(n);
    if rs.len() == 0 {
        assert(rs.subrange(0, 0) =~= rs);
    } else {
        let init = rs.drop_last();
        lemma_tally_count(n, ballot_num, init);
        lemma_tally_consumed(n, ballot_num, init);
        if count_ok(init) >= m {
            let k = consumed(m, init) as int;
            assert(init.subrange(0, k) =~= rs.subrange(0, k));
        } else {
            assert(rs.subrange(0, rs.len() as int) =~= rs);
        }
    }
}

/// What the tally binds the round to: nothing (an empty value under the
/// round's own ballot) when no reply it looked at carried a value; else the
/// value of such a reply under the highest ballot among them.
pub proof fn lemma_tally_chosen(n: nat, ballot_num: u64, rs: Seq<PromiseView>)
    ensures
        ({
            let seen = rs.subrange(0, consumed(spec_majority(n), rs) as int);
            let chosen = tally(n, ballot_num, rs).chosen;
            if exists|i: int| 0 <= i < seen.len() && carries_value(#[trigger] seen[i]) {
                chosen.value.len() > 0 && is_highest(seen, chosen)
            } else {
                chosen == (Proposal { ballot_num, value: Seq::empty() })
            }
        }),
    decreases rs.len(),
{
    let m = spec_majority(n);
    lemma_tally_consumed(n, ballot_num, rs);
    if rs.len() == 0 {
    } else {
        let init = rs.drop_last();
        lemma_tally_count(n, ballot_num, init);
        lemma_tally_chosen(n, ballot_num, init);
        lemma_tally_consumed(n, ballot_num, init);
        if count_ok(init) >= m {
            let k = consumed(m, init) as int;
            assert(init.subrange(0, k) =~= rs.subrange(0, k));
        } else {
            let k = consumed(m, init) as int;
            assert(tally(n, ballot_num, init).promised == count_ok(init));
            // Before the majority is reached every reply is looked at.
            lemma_consumed_all(m, init);
            assert(k == init.len());
            assert(init.subrange(0, k) =~= init);
            assert(rs.subrange(0, rs.len() as int) =~= rs);
            let prev = tally(n, ballot_num, init);
            let last = rs.last();
            let chosen = tally(n, ballot_num, rs).chosen;
            if carries_value(last) {
                assert(carries_value(rs[rs.len() - 1]));
                if exists|i: int| 0 <= i < init.len() && carries_value(#[trigger] init[i]) {
                    let w = choose|i: int|
                        0 <= i < init.len() && carries_value(#[trigger] init[i])
                            && init[i].ballot_num == prev.chosen.ballot_num && init[i].value
                            == prev.chosen.value;
                    assert(rs[w] == init[w]);
                    assert forall|i: int|
                        0 <= i < rs.len() && carries_value(#[trigger] rs[i]) implies rs[i].ballot_num
                        <= chosen.ballot_num by {
                        if i < init.len() {
                            assert(rs[i] == init[i]);
                        }
                    }
                } else {
                    assert forall|i: int|
                        0 <= i < rs.len() && carries_value(#[trigger] rs[i]) implies rs[i].ballot_num
                        <= chosen.ballot_num by {
                        if i < init.len() {
                            assert(rs[i] == init[i]);
                        }
                    }
                }
            } else {
                if exists|i: int| 0 <= i < init.len() && carries_value(#[trigger] init[i]) {
                    let w = choose|i: int|
                        0 <= i < init.len() && carries_value(#[trigger] init[i])
                            && init[i].ballot_num == prev.chosen.ballot_num && init[i].value
                            == prev.chosen.value;
                    assert(rs[w] == init[w]);
                    assert forall|i: int|
                        0 <= i < rs.len() && carries_value(#[trigger] rs[i]) implies rs[i].ballot_num
                        <= chosen.ballot_num by {
                        if i < init.len() {
                            assert(rs[i] == init[i]);
                        }
                    }
                } else {
                    assert forall|i: int| 0 <= i < rs.len() implies !carries_value(
                        #[trigger] rs[i],
                    ) by {
                        if i < init.len() {
                            assert(rs[i] == init[i]);
                        }
                    }
                }
            }
        }
    }
}

/// While the positive replies stay below the majority, every reply is looked
/// at.
pub proof fn lemma_consumed_all(majority: nat, rs: Seq<PromiseView>)
    requires
        count_ok(rs) < majority,
    ensures
        consumed(majority, rs) == rs.len(),
    decreases rs.len(),
{
    if rs.len() > 0 {
        lemma_consumed_all(majority, rs.drop_last());
    }
}

/// The running tally of a Prepare phase.
pub struct PromiseTally {
    majority: usize,
    promised: usize,
    chosen: Promised,
}

impl View for PromiseTally {
    type V = PromiseTallyView;

    closed spec fn view(&self) -> PromiseTallyView {
        PromiseTallyView {
            majority: self.majority as nat,
            promised: self.promised as nat,
            chosen: self.chosen@,
        }
    }
}

impl PromiseTally {
    /// The counters never pass the majority, so they cannot overflow.
    #[verifier::type_invariant]
    spec fn bounded(&self) -> bool {
        self.promised <= self.majority && self.majority >= 1
    }

    /// Opens the tally of a phase run against `n` acceptors under
    /// `ballot_num`.
    pub fn new(n: usize, ballot_num: u64) -> (t: Self)
        ensures
            t@ == PromiseTallyView::start(n as nat, ballot_num),
    {
        PromiseTally {
            majority: majority(n),
            promised: 0,
            chosen: Promised { ballot_num, value: Bytes::new() },
        }
    }

    /// Whether a majority of positive replies is in.
    pub fn is_done(&self) -> (r: bool)
        ensures
            r == self@.done(),
    {
        self.promised >= self.majority
    }

    /// Takes one more reply into account.
    pub fn record(&mut self, promise: Promise)
        ensures
            final(self)@ == old(self)@.step(promise@),
    {
        proof {
            use_type_invariant(&*self);
        }
        if self.promised >= self.majority || !promise.ok {
            return ;
        }
        if !promise.value.is_empty() {
            if self.chosen.value.is_empty() || promise.ballot_num > self.chosen.ballot_num {
                self.chosen = Promised {
                    ballot_num: promise.ballot_num,
                    value: Bytes::from(promise.value),
                };
            }
        }
        self.promised = self.promised + 1;
    }

    /// Closes the tally and hands out the proposal the round is bound to.
    pub fn finish(self) -> (chosen: Promised)
        ensures
            chosen@ == self@.chosen,
    {
        self.chosen
    }
}

/// Runs a whole Prepare tally over the replies in `responses`, in order.
pub fn tally_promises(n: usize, ballot_num: u64, responses: Vec<Promise>) -> (chosen: Promised)
    ensures
        chosen@ == tally(n as nat, ballot_num, promise_views(responses@)).chosen,
{
    let mut t = PromiseTally::new(n, ballot_num);
    let ghost all = promise_views(responses@);
    let mut i: usize = 0;
    while i < responses.len()
        invariant
            i <= responses@.len(),
            all == promise_views(responses@),
            t@ == tally(n as nat, ballot_num, all.subrange(0, i as int)),
        decreases responses@.len() - i,
    {
        let p = responses[i].duplicate();
        proof {
            let upto = all.subrange(0, i + 1);
            assert(upto.drop_last() =~= all.subrange(0, i as int));
            assert(upto.last() == responses@[i as int]@);
        }
        t.record(p);
        i += 1;
    }
    assert(all.subrange(0, i as int) =~= all);
    t.finish()
}

/// The running state of an Accept phase.
pub struct AckTallyView {
    /// Positive replies needed.
    pub majority: nat,
    /// Positive replies counted so far.
    pub accepted: nat,
}

impl AckTallyView {
    /// The state before any reply, for `n` acceptors.
    pub open spec fn start(n: nat) -> AckTallyView {
        AckTallyView { majority: spec_majority(n), accepted: 0 }
    }

    /// Whether a majority of positive replies is in.
    pub open spec fn done(self) -> bool {
        self.accepted >= self.majority
    }

    /// The state after one more reply.
    pub open spec fn step(self, ok: bool) -> AckTallyView {
        if self.done() || !ok {
            self
        } else {
            AckTallyView { majority: self.majority, accepted: self.accepted + 1 }
        }
    }

    /// The state after the replies `acks`, taken first to last.
    pub open spec fn run(self, acks: Seq<bool>) -> AckTallyView
        decreases acks.len(),
    {
        if acks.len() == 0 {
            self
        } else {
            self.run(acks.drop_last()).step(acks.last())
        }
    }
}

/// An Accept phase for `n` acceptors succeeds exactly when at least a
/// majority of the replies are positive.
pub proof fn lemma_ack_tally(n: nat, acks: Seq<bool>)
    ensures
        AckTallyView::start(n).run(acks).majority == spec_majority(n),
        AckTallyView::start(n).run(acks).accepted == if count_acks(acks) <= spec_majority(n) {
            count_acks(acks)
        } else {
            spec_majority(n)
        },
        AckTallyView::start(n).run(acks).done() <==> count_acks(acks) >= spec_majority(n),
    decreases acks.len(),
{
    if acks.len() > 0 {
        lemma_ack_tally(n, acks.drop_last());
    }
}

/// No more replies can be positive than there are replies.
pub proof fn lemma_count_acks_bound(acks: Seq<bool>)
    ensures
        count_acks(acks) <= acks.len(),
    decreases acks.len(),
{
    if acks.len() > 0 {
        lemma_count_acks_bound(acks.drop_last());
    }
}

/// The running tally of an Accept phase.
pub struct AckTally {
    majority: usize,
    accepted: usize,
}

impl View for AckTally {
    type V = AckTallyView;

    closed spec fn view(&self) -> AckTallyView {
        AckTallyView { majority: self.majority as nat, accepted: self.accepted as nat }
    }
}

impl AckTally {
    /// The counter never passes the majority, so it cannot overflow.
    #[verifier::type_invariant]
    spec fn bounded(&self) -> bool {
        self.accepted <= self.majority && self.majority >= 1
    }

    /// Opens the tally of a phase run against `n` acceptors.
    pub fn new(n: usize) -> (t: Self)
        ensures
            t@ == AckTallyView::start(n as nat),
    {
        AckTally { majority: majority(n), accepted: 0 }
    }

    /// Whether a majority of positive replies is in.
    pub fn is_done(&self) -> (r: bool)
        ensures
            r == self@.done(),
    {
        self.accepted >= self.majority
    }

    /// Takes one more reply into account.
    pub fn record(&mut self, ack: &Accept)
        ensures
            final(self)@ == old(self)@.step(ack.ok),
    {
        proof {
            use_type_invariant(&*self);
        }
        if self.accepted >= self.majority || !ack.ok {
            return ;
        }
        self.accepted = self.accepted + 1;
    }
}

/// The views of a list of acknowledgements, in order.
pub open spec fn ack_views(acks: Seq<Accept>) -> Seq<bool> {
    acks.map_values(|a: Accept| a.ok)
}

/// Runs a whole Accept tally over the replies in `responses`, in order, and
/// tells whether a majority acknowledged.
pub fn tally_acks(n: usize, responses: &Vec<Accept>) -> (ok: bool)
    ensures
        ok == AckTallyView::start(n as nat).run(ack_views(responses@)).done(),
        ok == (count_acks(ack_views(responses@)) >= spec_majority(n as nat)),
{
    let mut t = AckTally::new(n);
    let ghost all = ack_views(responses@);
    let mut i: usize = 0;
    while i < responses.len()
        invariant
            i <= responses@.len(),
            all == ack_views(responses@),
            t@ == AckTallyView::start(n as nat).run(all.subrange(0, i as int)),
        decreases responses@.len() - i,
    {
        proof {
            let upto = all.subrange(0, i + 1);
            assert(upto.drop_last() =~= all.subrange(0, i as int));
            assert(upto.last() == responses@[i as int].ok);
        }
        t.record(&responses[i]);
        i += 1;
    }
    proof {
        assert(all.subrange(0, i as int) =~= all);
        lemma_ack_tally(n as nat, all);
    }
    t.is_done()
}

/// What to do after an attempt to reach an acceptor.
pub enum Attempt<T> {
    /// The attempt failed and the budget allows another one; the field is
    /// the number of failures so far.
    Retry(usize),
    /// Hand this reply to the tally.
    Deliver(T),
}

/// Decides what follows an attempt. `fails` counts the failures before it,
/// `outcome` is the reply, or `None` for a transport failure, and `negative`
/// is the reply that stands in for an acceptor that is given up on.
///
/// A reply is delivered as it is. A failure is retried until `MAX_ATTEMPTS`
/// attempts have failed; then `negative` is delivered.
pub fn after_attempt<T>(fails: usize, outcome: Option<T>, negative: T) -> (next: Attempt<T>)
    requires
        fails < MAX_ATTEMPTS,
    ensures
        next == match outcome {
            Some(reply) => Attempt::Deliver(reply),
            None => if fails + 1 < MAX_ATTEMPTS {
                Attempt::Retry((fails + 1) as usize)
            } else {
                Attempt::Deliver(negative)
            },
        },
{
    match outcome {
        Some(reply) => Attempt::Deliver(reply),
        None => {
            if fails + 1 < MAX_ATTEMPTS {
                Attempt::Retry(fails + 1)
            } else {
                Attempt::Deliver(negative)
            }
        },
    }
}

} // verus!
