//! Single-decree Paxos: the stable store, the acceptor and the proposer.

use crate::buf::bytes_as_slice;
use crate::buf::bytes_mut_as_slice;
use crate::buf::bytes_slice_from;
use crate::buf::bytes_view;
use crate::buf::bytes_mut_view;
use crate::decimal::digits_of;
use crate::decimal::format_u64;
use crate::decimal::lemma_digits_of;
use crate::decimal::lemma_parse_format;
use crate::decimal::parse_u64;
use crate::decimal::parsed_or_zero;
use crate::proto::paxos::Accept;
use crate::proto::paxos::Prepare;
use crate::proto::paxos::Promise;
use crate::proto::paxos::PromiseView;
use crate::proto::paxos::Propose;
use crate::quorum::after_attempt;
use crate::quorum::count_acks;
use crate::quorum::spec_majority;
use crate::quorum::tally;
use crate::quorum::tally_acks;
use crate::quorum::tally_promises;
use crate::quorum::Attempt;
use crate::quorum::MAX_ATTEMPTS;
use bytes::Bytes;
use bytes::BytesMut;
use vstd::prelude::*;
use vstd::slice::slice_to_vec;

verus! {

/// The byte that parts the ballot from the value in an accepted record.
pub const NEWLINE: u8 = 10;

/// A ballot number together with the value proposed under it.
pub struct Proposal {
    pub ballot_num: u64,
    pub value: Seq<u8>,
}

/// An accepted proposal, or the proposal a round has settled on.
pub struct Promised {
    pub ballot_num: u64,
    pub value: Bytes,
}

impl View for Promised {
    type V = Proposal;

    open spec fn view(&self) -> Proposal {
        Proposal { ballot_num: self.ballot_num, value: bytes_view(self.value) }
    }
}

impl Clone for Promised {
    fn clone(&self) -> (r: Self)
        ensures
            r@ == self@,
    {
        Promised { ballot_num: self.ballot_num, value: self.value.clone() }
    }
}

/// Whether `i` is the place of the first `b` in `s`.
pub open spec fn first_at(s: Seq<u8>, b: u8, i: int) -> bool {
    &&& 0 <= i < s.len()
    &&& s[i] == b
    &&& forall|j: int| 0 <= j < i ==> s[j] != b
}

/// The place of the first `b` in `s`, if there is one.
pub open spec fn position(s: Seq<u8>, b: u8) -> Option<int> {
    if exists|i: int| first_at(s, b, i) {
        Some(choose|i: int| first_at(s, b, i))
    } else {
        None
    }
}

/// The first occurrence is the only place that `position` can name.
pub proof fn lemma_position_found(s: Seq<u8>, b: u8, i: int)
    requires
        first_at(s, b, i),
    ensures
        position(s, b) == Some(i),
{
    let k = choose|k: int| first_at(s, b, k);
    if k < i {
        assert(s[k] != b);
    } else if i < k {
        assert(s[i] != b);
    }
}

/// Finds the first `b` in `s`.
pub fn find_byte(s: &[u8], b: u8) -> (r: Option<usize>)
    ensures
        match r {
            Some(i) => position(s@, b) == Some(i as int),
            None => position(s@, b) is None,
        },
{
    let mut i: usize = 0;
    while i < s.len()
        invariant
            i <= s@.len(),
            forall|j: int| 0 <= j < i ==> s@[j] != b,
        decreases s@.len() - i,
    {
        if s[i] == b {
            proof {
                lemma_position_found(s@, b, i as int);
            }
            return Some(i);
        }
        i += 1;
    }
    assert forall|k: int| !first_at(s@, b, k) by {}
    None
}

/// The bytes of an accepted record: the ballot in decimal, a newline, the
/// value.
pub open spec fn encode_accepted(p: Proposal) -> Seq<u8> {
    digits_of(p.ballot_num as nat) + seq![10u8] + p.value
}

/// Where an accepted record is cut: at its first newline, or at the start
/// when it has none.
pub open spec fn cut_point(record: Seq<u8>) -> int {
    match position(record, 10) {
        Some(i) => i,
        None => 0,
    }
}

/// The proposal that an accepted record holds. The ballot is what stands
/// before the cut, zero when that does not read as a number; the value is
/// what follows the byte at the cut.
pub open spec fn decode_accepted(record: Seq<u8>) -> Proposal {
    let ln = cut_point(record);
    Proposal {
        ballot_num: parsed_or_zero(record.subrange(0, ln)),
        value: record.subrange(ln + 1, record.len() as int),
    }
}

/// An accepted record reads back as the proposal that was written.
pub proof fn lemma_accepted_round_trip(p: Proposal)
    ensures
        encode_accepted(p).len() > 0,
        decode_accepted(encode_accepted(p)) == p,
{
    let d = digits_of(p.ballot_num as nat);
    let record = encode_accepted(p);
    lemma_digits_of(p.ballot_num as nat);
    lemma_parse_format(p.ballot_num);
    let ln = d.len() as int;
    assert(record[ln] == 10u8);
    assert forall|j: int| 0 <= j < ln implies record[j] != 10u8 by {
        assert(record[j] == d[j]);
        assert(crate::decimal::is_digit(d[j]));
    }
    lemma_position_found(record, 10, ln);
    assert(record.subrange(0, ln) =~= d);
    assert(record.subrange(ln + 1, record.len() as int) =~= p.value);
}

/// The three records of one replica's stable store, each as the bytes last
/// written to it, or `None` where nothing was written yet.
///
/// Storing replaces a record whole. Whoever owns the store writes a changed
/// record through to disk before acting on the result of the operation that
/// changed it.
pub struct Persist {
    pub proposer_ballot: Option<Vec<u8>>,
    pub acceptor_ballot: Option<Vec<u8>>,
    pub acceptor_accepted: Option<Vec<u8>>,
}

/// A [`Persist`] as a mathematical value.
pub struct PersistView {
    pub proposer_ballot: Option<Seq<u8>>,
    pub acceptor_ballot: Option<Seq<u8>>,
    pub acceptor_accepted: Option<Seq<u8>>,
}

/// The bytes of an optional record.
pub open spec fn record_view(r: Option<Vec<u8>>) -> Option<Seq<u8>> {
    match r {
        Some(v) => Some(v@),
        None => None,
    }
}

/// The counter that a scalar record holds: zero when the record is absent or
/// does not read as a number.
pub open spec fn scalar_of(r: Option<Seq<u8>>) -> u64 {
    match r {
        Some(s) => parsed_or_zero(s),
        None => 0,
    }
}

impl PersistView {
    /// An accepted record, when present, has at least one byte.
    pub open spec fn wf(self) -> bool {
        self.acceptor_accepted is Some ==> self.acceptor_accepted.unwrap().len() > 0
    }

    /// The proposer's last used round.
    pub open spec fn proposer_round(self) -> u64 {
        scalar_of(self.proposer_ballot)
    }

    /// The highest ballot the acceptor has seen.
    pub open spec fn max_seen_ballot(self) -> u64 {
        scalar_of(self.acceptor_ballot)
    }

    /// The proposal the acceptor has accepted, if any.
    pub open spec fn accepted(self) -> Option<Proposal> {
        match self.acceptor_accepted {
            Some(record) => Some(decode_accepted(record)),
            None => None,
        }
    }
}

impl View for Persist {
    type V = PersistView;

    open spec fn view(&self) -> PersistView {
        PersistView {
            proposer_ballot: record_view(self.proposer_ballot),
            acceptor_ballot: record_view(self.acceptor_ballot),
            acceptor_accepted: record_view(self.acceptor_accepted),
        }
    }
}

/// Copies an optional record.
fn copy_record(r: &Option<Vec<u8>>) -> (c: Option<Vec<u8>>)
    ensures
        record_view(c) == record_view(*r),
{
    match r {
        Some(v) => Some(slice_to_vec(v.as_slice())),
        None => None,
    }
}

/// Reads a scalar record.
fn load_scalar(r: &Option<Vec<u8>>) -> (n: u64)
    ensures
        n == scalar_of(record_view(*r)),
{
    match r {
        Some(v) => match parse_u64(v.as_slice()) {
            Some(n) => n,
            None => 0,
        },
        None => 0,
    }
}

impl Persist {
    /// A store in which nothing was written yet.
    pub fn new() -> (p: Self)
        ensures
            p@.proposer_ballot is None,
            p@.acceptor_ballot is None,
            p@.acceptor_accepted is None,
            p@.wf(),
    {
        Persist { proposer_ballot: None, acceptor_ballot: None, acceptor_accepted: None }
    }

    /// The proposer's last used round; zero when none was stored.
    pub fn load_proposer_ballot(&self) -> (n: u64)
        ensures
            n == self@.proposer_round(),
    {
        load_scalar(&self.proposer_ballot)
    }

    /// Replaces the proposer's round record.
    pub fn store_proposer_ballot(&mut self, ballot_num: u64)
        ensures
            final(self)@ == (PersistView {
                proposer_ballot: Some(digits_of(ballot_num as nat)),
                ..old(self)@
            }),
            final(self)@.proposer_round() == ballot_num,
    {
        proof {
            lemma_parse_format(ballot_num);
        }
        self.proposer_ballot = Some(format_u64(ballot_num));
    }

    /// The highest ballot the acceptor has seen; zero when none was stored.
    pub fn load_acceptor_ballot(&self) -> (n: u64)
        ensures
            n == self@.max_seen_ballot(),
    {
        load_scalar(&self.acceptor_ballot)
    }

    /// Replaces the acceptor's highest-seen-ballot record.
    pub fn store_acceptor_ballot(&mut self, ballot_num: u64)
        ensures
            final(self)@ == (PersistView {
                acceptor_ballot: Some(digits_of(ballot_num as nat)),
                ..old(self)@
            }),
            final(self)@.max_seen_ballot() == ballot_num,
    {
        proof {
            lemma_parse_format(ballot_num);
        }
        self.acceptor_ballot = Some(format_u64(ballot_num));
    }

    /// The proposal the acceptor has accepted; `None` when none was stored.
    pub fn load_acceptor_state(&self) -> (r: Option<Promised>)
        requires
            self@.wf(),
        ensures
            match r {
                Some(p) => self@.accepted() == Some(p@),
                None => self@.accepted() is None,
            },
    {
        match &self.acceptor_accepted {
            None => None,
            Some(record) => {
                let mut payload = Bytes::from(slice_to_vec(record.as_slice()));
                let ln = match find_byte(bytes_as_slice(&payload), NEWLINE) {
                    Some(i) => i,
                    None => 0,
                };
                let head = payload.split_to(ln);
                let ballot_num = match parse_u64(bytes_as_slice(&head)) {
                    Some(n) => n,
                    None => 0,
                };
                let value = bytes_slice_from(&payload, 1);
                assert(bytes_view(value) =~= record@.subrange(ln + 1, record@.len() as int));
                Some(Promised { ballot_num, value })
            },
        }
    }

    /// Replaces the accepted record with `state`. Storing `None` leaves the
    /// record as it is.
    pub fn store_acceptor_state(&mut self, state: &Option<Promised>)
        ensures
            match *state {
                Some(p) => final(self)@ == (PersistView {
                    acceptor_accepted: Some(encode_accepted(p@)),
                    ..old(self)@
                }) && final(self)@.accepted() == Some(p@),
                None => final(self)@ == old(self)@,
            },
            old(self)@.wf() ==> final(self)@.wf(),
    {
        if let Some(state) = state {
            let mut buf = BytesMut::new();
            let digits = format_u64(state.ballot_num);
            buf.extend_from_slice(digits.as_slice());
            let sep: [u8; 1] = [NEWLINE];
            buf.extend_from_slice(sep.as_slice());
            buf.extend_from_slice(bytes_as_slice(&state.value));
            proof {
                lemma_accepted_round_trip(state@);
                assert(sep@ =~= seq![10u8]);
            }
            self.acceptor_accepted = Some(slice_to_vec(bytes_mut_as_slice(&buf)));
        }
    }

    /// Copies the store.
    pub fn duplicate(&self) -> (p: Self)
        ensures
            p@ == self@,
    {
        Persist {
            proposer_ballot: copy_record(&self.proposer_ballot),
            acceptor_ballot: copy_record(&self.acceptor_ballot),
            acceptor_accepted: copy_record(&self.acceptor_accepted),
        }
    }
}

/// What one acceptor remembers: the highest ballot it has seen and the
/// proposal it has accepted, if any.
pub struct AcceptorState {
    pub max_seen_ballot: u64,
    pub accepted: Option<Proposal>,
}

impl AcceptorState {
    /// The state of an acceptor that has never been used.
    pub open spec fn fresh() -> AcceptorState {
        AcceptorState { max_seen_ballot: 0, accepted: None }
    }

    /// The accepted proposal never outranks the highest ballot seen.
    pub open spec fn ordered(self) -> bool {
        self.accepted is Some ==> self.accepted.unwrap().ballot_num <= self.max_seen_ballot
    }

    /// The state that a restarted acceptor takes from its store.
    pub open spec fn recovered(store: PersistView) -> AcceptorState {
        AcceptorState { max_seen_ballot: store.max_seen_ballot(), accepted: store.accepted() }
    }

    /// What the acceptor reports as accepted in a promise.
    pub open spec fn report(self) -> PromiseView {
        match self.accepted {
            Some(p) => PromiseView { ok: true, ballot_num: p.ballot_num, value: p.value },
            None => PromiseView { ok: true, ballot_num: 0, value: Seq::empty() },
        }
    }

    /// A request under ballot `b` is stale when a higher ballot was seen.
    pub open spec fn rejects(self, b: u64) -> bool {
        b < self.max_seen_ballot
    }

    /// The state after a Prepare under ballot `b`.
    pub open spec fn after_prepare(self, b: u64) -> AcceptorState {
        if self.rejects(b) {
            self
        } else {
            AcceptorState { max_seen_ballot: b, accepted: self.accepted }
        }
    }

    /// The reply to a Prepare under ballot `b`.
    pub open spec fn promise(self, b: u64) -> PromiseView {
        if self.rejects(b) {
            PromiseView { ok: false, ballot_num: self.max_seen_ballot, value: Seq::empty() }
        } else {
            self.report()
        }
    }

    /// The state after an Accept of `v` under ballot `b`.
    pub open spec fn after_accept(self, b: u64, v: Seq<u8>) -> AcceptorState {
        if self.rejects(b) {
            self
        } else {
            AcceptorState {
                max_seen_ballot: b,
                accepted: Some(Proposal { ballot_num: b, value: v }),
            }
        }
    }
}

/// The in-memory mirror of an acceptor's durable state.
pub struct AcceptorInner {
    pub max_seen_ballot: u64,
    pub accepted: Option<Promised>,
}

impl View for AcceptorInner {
    type V = AcceptorState;

    open spec fn view(&self) -> AcceptorState {
        AcceptorState {
            max_seen_ballot: self.max_seen_ballot,
            accepted: match self.accepted {
                Some(p) => Some(p@),
                None => None,
            },
        }
    }
}

/// One replica's acceptor: its state and the stable store that backs it.
pub struct Acceptor {
    inner: AcceptorInner,
    persist: Persist,
}

impl View for Acceptor {
    type V = AcceptorState;

    closed spec fn view(&self) -> AcceptorState {
        self.inner@
    }
}

impl Acceptor {
    /// The contents of the acceptor's stable store.
    pub closed spec fn store(&self) -> PersistView {
        self.persist@
    }

    /// The store is readable, and a restart from it would bring back exactly
    /// the state the acceptor is in.
    pub open spec fn wf(&self) -> bool {
        &&& self.store().wf()
        &&& AcceptorState::recovered(self.store()) == self@
    }

    /// Starts an acceptor from what its store holds.
    pub fn new(persist: Persist) -> (a: Self)
        requires
            persist@.wf(),
        ensures
            a.wf(),
            a.store() == persist@,
            a@ == AcceptorState::recovered(persist@),
    {
        let max_seen_ballot = persist.load_acceptor_ballot();
        let accepted = persist.load_acceptor_state();
        Acceptor { inner: AcceptorInner { max_seen_ballot, accepted }, persist }
    }

    /// Handles a Prepare. A ballot below the highest one seen is turned down
    /// and nothing changes. Otherwise the ballot is stored as the highest one
    /// seen and the reply carries the accepted proposal, if any.
    pub fn prepare(&mut self, request: &Prepare) -> (r: Promise)
        requires
            old(self).wf(),
        ensures
            final(self).wf(),
            final(self)@ == old(self)@.after_prepare(request.ballot_num),
            r@ == old(self)@.promise(request.ballot_num),
            final(self)@.max_seen_ballot >= old(self)@.max_seen_ballot,
            old(self)@.rejects(request.ballot_num) ==> !r.ok && final(self)@ == old(self)@,
            old(self)@.rejects(request.ballot_num) ==> final(self).store() == old(self).store(),
            !old(self)@.rejects(request.ballot_num) ==> final(self).store() == (PersistView {
                acceptor_ballot: Some(digits_of(request.ballot_num as nat)),
                ..old(self).store()
            }),
    {
        if self.inner.max_seen_ballot > request.ballot_num {
            return Promise { ok: false, ballot_num: self.inner.max_seen_ballot, value: Vec::new() };
        }
        self.persist.store_acceptor_ballot(request.ballot_num);
        self.inner.max_seen_ballot = request.ballot_num;
        match &self.inner.accepted {
            Some(accepted) => Promise {
                ok: true,
                ballot_num: accepted.ballot_num,
                value: slice_to_vec(bytes_as_slice(&accepted.value)),
            },
            None => Promise { ok: true, ballot_num: 0, value: Vec::new() },
        }
    }

    /// Handles an Accept. A ballot below the highest one seen is turned down
    /// and nothing changes. Otherwise the ballot is stored as the highest one
    /// seen, and the proposal as the accepted one.
    pub fn accept(&mut self, request: Propose) -> (r: Accept)
        requires
            old(self).wf(),
        ensures
            final(self).wf(),
            final(self)@ == old(self)@.after_accept(request.ballot_num, request.value@),
            r.ok == !old(self)@.rejects(request.ballot_num),
            final(self)@.max_seen_ballot >= old(self)@.max_seen_ballot,
            old(self)@.rejects(request.ballot_num) ==> final(self)@ == old(self)@,
            old(self)@.rejects(request.ballot_num) ==> final(self).store() == old(self).store(),
            !old(self)@.rejects(request.ballot_num) ==> final(self).store() == (PersistView {
                acceptor_ballot: Some(digits_of(request.ballot_num as nat)),
                acceptor_accepted: Some(
                    encode_accepted(
                        Proposal { ballot_num: request.ballot_num, value: request.value@ },
                    ),
                ),
                ..old(self).store()
            }),
    {
        if self.inner.max_seen_ballot > request.ballot_num {
            return Accept { ok: false };
        }
        self.persist.store_acceptor_ballot(request.ballot_num);
        let state = Some(
            Promised { ballot_num: request.ballot_num, value: Bytes::from(request.value) },
        );
        self.persist.store_acceptor_state(&state);
        self.inner.max_seen_ballot = request.ballot_num;
        self.inner.accepted = state;
        Accept { ok: true }
    }

    /// The highest ballot seen so far.
    pub fn max_seen_ballot(&self) -> (b: u64)
        ensures
            b == self@.max_seen_ballot,
    {
        self.inner.max_seen_ballot
    }

    /// The accepted proposal, if any.
    pub fn accepted(&self) -> (r: Option<Promised>)
        ensures
            match r {
                Some(p) => self@.accepted == Some(p@),
                None => self@.accepted is None,
            },
    {
        match &self.inner.accepted {
            Some(p) => Some(p.clone()),
            None => None,
        }
    }

    /// The stable store, for writing through to disk.
    pub fn persist(&self) -> (p: &Persist)
        ensures
            p@ == self.store(),
    {
        &self.persist
    }
}

/// The stride between the ballots of consecutive rounds. It must exceed
/// every proposer id.
pub const BALLOT_STRIDE: u64 = 1000;

/// The ballot number that proposer `id` uses in round `round`.
pub open spec fn ballot_of(round: nat, id: nat) -> nat {
    round * 1000 + id
}

/// Ballots tell rounds and proposers apart: with ids below the stride, two
/// ballots are equal only if both the round and the proposer are.
pub proof fn lemma_ballots_unique(round1: nat, id1: nat, round2: nat, id2: nat)
    requires
        id1 < BALLOT_STRIDE,
        id2 < BALLOT_STRIDE,
        ballot_of(round1, id1) == ballot_of(round2, id2),
    ensures
        round1 == round2,
        id1 == id2,
{
}

/// A proposer's ballots grow with its rounds, and a later round outranks
/// every ballot of an earlier round, whoever made it.
pub proof fn lemma_ballots_grow(round1: nat, id1: nat, round2: nat, id2: nat)
    requires
        round1 < round2,
        id1 < BALLOT_STRIDE,
    ensures
        ballot_of(round1, id1) < ballot_of(round2, id2),
{
}

/// One proposer: its identity, the last round it used and the stable store
/// that backs the round counter.
pub struct Proposer {
    id: u64,
    ballot_num: u64,
    persist: Persist,
}

impl Proposer {
    /// The proposer's identity.
    pub closed spec fn id(&self) -> u64 {
        self.id
    }

    /// The last round the proposer used.
    pub closed spec fn round(&self) -> u64 {
        self.ballot_num
    }

    /// The contents of the proposer's stable store.
    pub closed spec fn store(&self) -> PersistView {
        self.persist@
    }

    /// A restart from the store would bring back the round counter.
    pub open spec fn wf(&self) -> bool {
        self.store().proposer_round() == self.round()
    }

    /// Whether the next round's ballot still fits the ballot type.
    pub open spec fn has_next(&self) -> bool {
        ballot_of((self.round() + 1) as nat, self.id() as nat) <= u64::MAX
    }

    /// Starts a proposer from what its store holds.
    pub fn new(id: u64, persist: Persist) -> (p: Self)
        ensures
            p.wf(),
            p.id() == id,
            p.round() == persist@.proposer_round(),
            p.store() == persist@,
    {
        let ballot_num = persist.load_proposer_ballot();
        Proposer { id, ballot_num, persist }
    }

    /// Tells whether [`Proposer::next_ballot_num`] may be called.
    pub fn can_advance(&self) -> (r: bool)
        ensures
            r == self.has_next(),
    {
        if self.ballot_num == u64::MAX {
            return false;
        }
        match (self.ballot_num + 1).checked_mul(BALLOT_STRIDE) {
            Some(base) => base.checked_add(self.id).is_some(),
            None => false,
        }
    }

    /// Moves to the next round, stores the new round counter, and returns
    /// the round's ballot number.
    pub fn next_ballot_num(&mut self) -> (b: u64)
        requires
            old(self).has_next(),
        ensures
            b == ballot_of((old(self).round() + 1) as nat, old(self).id() as nat),
            final(self).round() == old(self).round() + 1,
            final(self).id() == old(self).id(),
            final(self).wf(),
            final(self).store() == (PersistView {
                proposer_ballot: Some(digits_of((old(self).round() + 1) as nat)),
                ..old(self).store()
            }),
    {
        let ballot_num = self.ballot_num + 1;
        self.persist.store_proposer_ballot(ballot_num);
        self.ballot_num = ballot_num;
        ballot_num * BALLOT_STRIDE + self.id
    }

    /// Phase 1. Sends a Prepare under `ballot_num` to every acceptor of
    /// `cfg`, each within its retry budget, and tallies the replies in the
    /// order of the configuration. Returns the proposal the round is bound
    /// to; its value is empty when the round is free to propose its own.
    pub fn prepare(&self, cfg: &mut Configuraion, ballot_num: u64) -> (chosen: Promised)
        requires
            old(cfg).wf(),
        ensures
            final(cfg).wf(),
            final(cfg)@ == cluster_after_prepare(old(cfg)@, ballot_num),
            chosen@ == tally(
                old(cfg)@.len(),
                ballot_num,
                cluster_promises(old(cfg)@, ballot_num),
            ).chosen,
    {
        let n = cfg.acceptors.len();
        let mut responses: Vec<Promise> = Vec::new();
        let mut i: usize = 0;
        while i < n
            invariant
                i <= n,
                n == old(cfg)@.len(),
                cfg.acceptors@.len() == n,
                responses@.len() == i,
                forall|k: int| 0 <= k < n ==> (#[trigger] cfg.acceptors@[k]).wf(),
                forall|k: int|
                    0 <= k < i ==> (#[trigger] cfg.acceptors@[k])@ == old(cfg)@[k].after_prepare(
                        ballot_num,
                    ),
                forall|k: int| i <= k < n ==> (#[trigger] cfg.acceptors@[k])@ == old(cfg)@[k],
                forall|k: int|
                    0 <= k < i ==> (#[trigger] responses@[k])@ == old(cfg)@[k].promise(ballot_num),
            decreases n - i,
        {
            let mut client = cfg.acceptors.remove(i);
            let reply = prepare_with_retry(&mut client, ballot_num);
            cfg.acceptors.insert(i, client);
            responses.push(reply);
            i += 1;
        }
        assert(cfg@ =~= cluster_after_prepare(old(cfg)@, ballot_num));
        assert(crate::quorum::promise_views(responses@) =~= cluster_promises(
            old(cfg)@,
            ballot_num,
        ));
        tally_promises(n, ballot_num, responses)
    }

    /// Phase 2. Sends an Accept of `chosen` to every acceptor of `cfg`, each
    /// within its retry budget, and tallies the replies in the order of the
    /// configuration. Returns whether a majority acknowledged.
    pub fn accept(&self, cfg: &mut Configuraion, chosen: Promised) -> (ok: bool)
        requires
            old(cfg).wf(),
        ensures
            final(cfg).wf(),
            final(cfg)@ == cluster_after_accept(old(cfg)@, chosen@),
            ok == (count_acks(cluster_acks(old(cfg)@, chosen.ballot_num)) >= spec_majority(
                old(cfg)@.len(),
            )),
    {
        let n = cfg.acceptors.len();
        let mut responses: Vec<Accept> = Vec::new();
        let mut i: usize = 0;
        while i < n
            invariant
                i <= n,
                n == old(cfg)@.len(),
                cfg.acceptors@.len() == n,
                responses@.len() == i,
                forall|k: int| 0 <= k < n ==> (#[trigger] cfg.acceptors@[k]).wf(),
                forall|k: int|
                    0 <= k < i ==> (#[trigger] cfg.acceptors@[k])@ == old(cfg)@[k].after_accept(
                        chosen@,
                    ),
                forall|k: int| i <= k < n ==> (#[trigger] cfg.acceptors@[k])@ == old(cfg)@[k],
                forall|k: int|
                    0 <= k < i ==> (#[trigger] responses@[k]).ok == old(cfg)@[k].ack(
                        chosen.ballot_num,
                    ),
            decreases n - i,
        {
            let mut client = cfg.acceptors.remove(i);
            let reply = accept_with_retry(&mut client, &chosen);
            cfg.acceptors.insert(i, client);
            responses.push(reply);
            i += 1;
        }
        assert(cfg@ =~= cluster_after_accept(old(cfg)@, chosen@));
        assert(crate::quorum::ack_views(responses@) =~= cluster_acks(
            old(cfg)@,
            chosen.ballot_num,
        ));
        tally_acks(n, &responses)
    }

    /// The stable store, for writing through to disk.
    pub fn persist(&self) -> (p: &Persist)
        ensures
            p@ == self.store(),
    {
        &self.persist
    }
}

/// A call that did not get through to the acceptor.
pub struct Unreachable {}

/// A handle on one acceptor as a proposer reaches it: the acceptor, and how
/// the link to it behaves. A link that is down fails every call; a link with
/// drops pending fails that many calls and then works.
pub struct AcceptorClient {
    acceptor: Acceptor,
    drops: usize,
    down: bool,
}

/// An [`AcceptorClient`] as a mathematical value.
pub struct ClientView {
    pub state: AcceptorState,
    pub drops: nat,
    pub down: bool,
}

impl ClientView {
    /// Whether the next call fails.
    pub open spec fn fails_next(self) -> bool {
        self.down || self.drops > 0
    }

    /// The link after one failed call.
    pub open spec fn after_failure(self) -> ClientView {
        if self.down {
            self
        } else {
            ClientView { drops: (self.drops - 1) as nat, ..self }
        }
    }

    /// Whether one of `MAX_ATTEMPTS` calls in a row gets through.
    pub open spec fn reachable(self) -> bool {
        !self.down && self.drops < MAX_ATTEMPTS
    }

    /// The link after a call made with the full retry budget.
    pub open spec fn after_call(self) -> ClientView {
        if self.down {
            self
        } else if self.drops < MAX_ATTEMPTS {
            ClientView { drops: 0, ..self }
        } else {
            ClientView { drops: (self.drops - MAX_ATTEMPTS) as nat, ..self }
        }
    }

    /// The handle after a Prepare made with the full retry budget.
    pub open spec fn after_prepare(self, b: u64) -> ClientView {
        if self.reachable() {
            ClientView { state: self.state.after_prepare(b), ..self.after_call() }
        } else {
            self.after_call()
        }
    }

    /// The reply that the proposer tallies for a Prepare made with the full
    /// retry budget.
    pub open spec fn promise(self, b: u64) -> PromiseView {
        if self.reachable() {
            self.state.promise(b)
        } else {
            Promise::spec_negative()
        }
    }

    /// The handle after an Accept made with the full retry budget.
    pub open spec fn after_accept(self, p: Proposal) -> ClientView {
        if self.reachable() {
            ClientView { state: self.state.after_accept(p.ballot_num, p.value), ..self.after_call() }
        } else {
            self.after_call()
        }
    }

    /// Whether the proposer tallies a positive reply for an Accept made with
    /// the full retry budget.
    pub open spec fn ack(self, b: u64) -> bool {
        self.reachable() && !self.state.rejects(b)
    }
}

impl View for AcceptorClient {
    type V = ClientView;

    closed spec fn view(&self) -> ClientView {
        ClientView { state: self.acceptor@, drops: self.drops as nat, down: self.down }
    }
}

impl AcceptorClient {
    /// The acceptor behind the handle is well-formed.
    pub closed spec fn wf(&self) -> bool {
        self.acceptor.wf()
    }

    /// A handle on `acceptor` over a link that works.
    pub fn new(acceptor: Acceptor) -> (c: Self)
        requires
            acceptor.wf(),
        ensures
            c.wf(),
            c@ == (ClientView { state: acceptor@, drops: 0, down: false }),
    {
        AcceptorClient { acceptor, drops: 0, down: false }
    }

    /// Takes the link down, or brings it back up.
    pub fn set_down(&mut self, down: bool)
        ensures
            final(self).wf() == old(self).wf(),
            final(self)@ == (ClientView { down, ..old(self)@ }),
    {
        self.down = down;
    }

    /// Makes the link fail the next `drops` calls.
    pub fn set_drops(&mut self, drops: usize)
        ensures
            final(self).wf() == old(self).wf(),
            final(self)@ == (ClientView { drops: drops as nat, ..old(self)@ }),
    {
        self.drops = drops;
    }

    /// Whether the call goes through; a failed call uses up one drop.
    fn connect(&mut self) -> (ok: bool)
        ensures
            ok == !old(self)@.fails_next(),
            ok ==> *final(self) == *old(self),
            !ok ==> final(self)@ == old(self)@.after_failure() && final(self).wf() == old(
                self,
            ).wf(),
    {
        if self.down {
            false
        } else if self.drops > 0 {
            self.drops = self.drops - 1;
            false
        } else {
            true
        }
    }

    /// One attempt at a Prepare.
    pub fn prepare(&mut self, request: &Prepare) -> (r: Result<Promise, Unreachable>)
        requires
            old(self).wf(),
        ensures
            final(self).wf(),
            match r {
                Ok(p) => !old(self)@.fails_next() && p@ == old(self)@.state.promise(
                    request.ballot_num,
                ) && final(self)@ == (ClientView {
                    state: old(self)@.state.after_prepare(request.ballot_num),
                    ..old(self)@
                }),
                Err(_) => old(self)@.fails_next() && final(self)@ == old(self)@.after_failure(),
            },
    {
        if self.connect() {
            Ok(self.acceptor.prepare(request))
        } else {
            Err(Unreachable {  })
        }
    }

    /// One attempt at an Accept.
    pub fn accept(&mut self, request: Propose) -> (r: Result<Accept, Unreachable>)
        requires
            old(self).wf(),
        ensures
            final(self).wf(),
            match r {
                Ok(a) => !old(self)@.fails_next() && a.ok == !old(self)@.state.rejects(
                    request.ballot_num,
                ) && final(self)@ == (ClientView {
                    state: old(self)@.state.after_accept(request.ballot_num, request.value@),
                    ..old(self)@
                }),
                Err(_) => old(self)@.fails_next() && final(self)@ == old(self)@.after_failure(),
            },
    {
        if self.connect() {
            Ok(self.acceptor.accept(request))
        } else {
            Err(Unreachable {  })
        }
    }

    /// The acceptor behind the handle.
    pub fn acceptor(&self) -> (a: &Acceptor)
        ensures
            a@ == self@.state,
    {
        &self.acceptor
    }
}

/// Turns the outcome of a call into what the retry rule takes.
fn reply_of<T>(r: Result<T, Unreachable>) -> (o: Option<T>)
    ensures
        o == match r {
            Ok(t) => Some(t),
            Err(_) => None::<T>,
        },
{
    match r {
        Ok(t) => Some(t),
        Err(_) => None,
    }
}

/// Sends a Prepare to one acceptor, trying again after a failed call until
/// the retry budget is spent, and returns the reply to tally.
pub fn prepare_with_retry(client: &mut AcceptorClient, ballot_num: u64) -> (r: Promise)
    requires
        old(client).wf(),
    ensures
        final(client).wf(),
        final(client)@ == old(client)@.after_prepare(ballot_num),
        r@ == old(client)@.promise(ballot_num),
{
    let mut fails: usize = 0;
    loop
        invariant
            client.wf(),
            fails < MAX_ATTEMPTS,
            client@.state == old(client)@.state,
            client@.down == old(client)@.down,
            !client@.down ==> client@.drops + fails == old(client)@.drops,
            client@.down ==> client@.drops == old(client)@.drops,
        decreases MAX_ATTEMPTS - fails,
    {
        let res = client.prepare(&Prepare { ballot_num });
        match after_attempt(fails, reply_of(res), Promise::negative()) {
            Attempt::Deliver(reply) => {
                return reply;
            },
            Attempt::Retry(f) => {
                fails = f;
            },
        }
    }
}

/// Sends an Accept to one acceptor, trying again after a failed call until
/// the retry budget is spent, and returns the reply to tally.
pub fn accept_with_retry(client: &mut AcceptorClient, chosen: &Promised) -> (r: Accept)
    requires
        old(client).wf(),
    ensures
        final(client).wf(),
        final(client)@ == old(client)@.after_accept(chosen@),
        r.ok == old(client)@.ack(chosen.ballot_num),
{
    let mut fails: usize = 0;
    loop
        invariant
            client.wf(),
            fails < MAX_ATTEMPTS,
            client@.state == old(client)@.state,
            client@.down == old(client)@.down,
            !client@.down ==> client@.drops + fails == old(client)@.drops,
            client@.down ==> client@.drops == old(client)@.drops,
        decreases MAX_ATTEMPTS - fails,
    {
        let request = Propose {
            ballot_num: chosen.ballot_num,
            value: slice_to_vec(bytes_as_slice(&chosen.value)),
        };
        let res = client.accept(request);
        match after_attempt(fails, reply_of(res), Accept::negative()) {
            Attempt::Deliver(reply) => {
                return reply;
            },
            Attempt::Retry(f) => {
                fails = f;
            },
        }
    }
}

/// The fixed list of acceptors that a proposer runs its rounds against.
pub struct Configuraion {
    pub acceptors: Vec<AcceptorClient>,
}

impl View for Configuraion {
    type V = Seq<ClientView>;

    open spec fn view(&self) -> Seq<ClientView> {
        self.acceptors@.map_values(|c: AcceptorClient| c@)
    }
}

impl Configuraion {
    /// Every acceptor of the configuration is well-formed.
    pub open spec fn wf(&self) -> bool {
        forall|k: int| 0 <= k < self.acceptors@.len() ==> (#[trigger] self.acceptors@[k]).wf()
    }
}

/// The acceptors after each was sent a Prepare under `b`.
pub open spec fn cluster_after_prepare(c: Seq<ClientView>, b: u64) -> Seq<ClientView> {
    c.map_values(|x: ClientView| x.after_prepare(b))
}

/// The replies to a Prepare under `b`, in the order of the configuration.
pub open spec fn cluster_promises(c: Seq<ClientView>, b: u64) -> Seq<PromiseView> {
    c.map_values(|x: ClientView| x.promise(b))
}

/// The acceptors after each was sent an Accept of `p`.
pub open spec fn cluster_after_accept(c: Seq<ClientView>, p: Proposal) -> Seq<ClientView> {
    c.map_values(|x: ClientView| x.after_accept(p))
}

/// The replies to an Accept under `b`, in the order of the configuration.
pub open spec fn cluster_acks(c: Seq<ClientView>, b: u64) -> Seq<bool> {
    c.map_values(|x: ClientView| x.ack(b))
}

/// The value a round proposes: the one it is bound to, or its own when it
/// is bound to none.
pub open spec fn value_to_propose(chosen: Proposal, own: Seq<u8>) -> Seq<u8> {
    if chosen.value.len() == 0 {
        own
    } else {
        chosen.value
    }
}

/// One whole round. Takes a fresh ballot, runs Phase 1, takes over the value
/// the round is bound to (or `value` when it is bound to none), runs Phase 2
/// under the same ballot and returns whether a majority accepted.
pub fn paxos(proposer: &mut Proposer, cfg: &mut Configuraion, value: Bytes) -> (ok: bool)
    requires
        old(proposer).has_next(),
        old(cfg).wf(),
    ensures
        final(cfg).wf(),
        final(proposer).wf(),
        final(proposer).id() == old(proposer).id(),
        final(proposer).round() == old(proposer).round() + 1,
        ({
            let b = ballot_of((old(proposer).round() + 1) as nat, old(proposer).id() as nat) as u64;
            let n = old(cfg)@.len();
            let bound = tally(n, b, cluster_promises(old(cfg)@, b)).chosen;
            let promised = cluster_after_prepare(old(cfg)@, b);
            let proposal = Proposal {
                ballot_num: b,
                value: value_to_propose(bound, bytes_view(value)),
            };
            &&& final(cfg)@ == cluster_after_accept(promised, proposal)
            &&& ok == (count_acks(cluster_acks(promised, b)) >= spec_majority(n))
        }),
{
    let ballot_num = proposer.next_ballot_num();
    let promised = proposer.prepare(cfg, ballot_num);
    let value = if promised.value.is_empty() {
        value
    } else {
        promised.value
    };
    assert(cluster_after_prepare(old(cfg)@, ballot_num).len() == old(cfg)@.len());
    proposer.accept(cfg, Promised { ballot_num, value })
}

} // verus!

