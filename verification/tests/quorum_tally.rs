use paxos::proto::paxos::Accept;
use paxos::proto::paxos::Promise;
use paxos::quorum::after_attempt;
use paxos::quorum::majority;
use paxos::quorum::tally_acks;
use paxos::quorum::tally_promises;
use paxos::quorum::AckTally;
use paxos::quorum::Attempt;
use paxos::quorum::PromiseTally;

fn yes(ballot_num: u64, value: &[u8]) -> Promise {
    Promise { ok: true, ballot_num, value: value.to_vec() }
}

fn no(ballot_num: u64) -> Promise {
    Promise { ok: false, ballot_num, value: Vec::new() }
}

#[test]
fn majority_is_half_plus_one() {
    let expected = [1usize, 1, 2, 2, 3, 3, 4, 4];
    for n in 0..8 {
        assert_eq!(majority(n), expected[n]);
    }
    assert_eq!(majority(usize::MAX), usize::MAX / 2 + 1);
}

#[test]
fn tally_without_accepted_values_leaves_round_free() {
    let chosen = tally_promises(3, 1001, vec![yes(0, b""), yes(0, b""), yes(0, b"")]);
    assert_eq!(chosen.ballot_num, 1001);
    assert!(chosen.value.is_empty());
}

#[test]
fn tally_binds_to_highest_accepted_ballot() {
    let chosen = tally_promises(
        5,
        9009,
        vec![yes(1001, b"a"), no(0), yes(3003, b"c"), yes(2002, b"b"), yes(7007, b"late")],
    );
    assert_eq!(chosen.ballot_num, 3003);
    assert_eq!(&chosen.value[..], b"c");
}

#[test]
fn tally_stops_at_majority() {
    let chosen = tally_promises(3, 9009, vec![yes(0, b""), yes(1001, b"a"), yes(5005, b"e")]);
    assert_eq!(chosen.ballot_num, 1001);
    assert_eq!(&chosen.value[..], b"a");
}

#[test]
fn tally_ignores_negative_replies() {
    let chosen = tally_promises(3, 9009, vec![no(8008), no(8008), yes(1001, b"a")]);
    assert_eq!(chosen.ballot_num, 1001);
    assert_eq!(&chosen.value[..], b"a");
    let chosen = tally_promises(3, 9009, vec![no(8008), no(8008), no(8008)]);
    assert_eq!(chosen.ballot_num, 9009);
    assert!(chosen.value.is_empty());
}

#[test]
fn promise_tally_counts_step_by_step() {
    let mut t = PromiseTally::new(3, 1002);
    assert!(!t.is_done());
    t.record(no(5));
    assert!(!t.is_done());
    t.record(yes(1001, b"x"));
    assert!(!t.is_done());
    t.record(yes(0, b""));
    assert!(t.is_done());
    t.record(yes(4004, b"z"));
    let chosen = t.finish();
    assert_eq!(chosen.ballot_num, 1001);
    assert_eq!(&chosen.value[..], b"x");
}

#[test]
fn ack_tally_needs_majority() {
    let ok = Accept { ok: true };
    let ko = Accept { ok: false };
    assert!(tally_acks(3, &vec![Accept { ok: true }, Accept { ok: false }, Accept { ok: true }]));
    assert!(!tally_acks(3, &vec![Accept { ok: true }, Accept { ok: false }, Accept { ok: false }]));
    assert!(!tally_acks(3, &vec![]));
    assert!(!tally_acks(0, &vec![]));
    assert!(!tally_acks(4, &vec![Accept { ok: true }, Accept { ok: true }]));
    let mut t = AckTally::new(3);
    t.record(&ko);
    assert!(!t.is_done());
    t.record(&ok);
    assert!(!t.is_done());
    t.record(&ok);
    assert!(t.is_done());
}

#[test]
fn attempts_are_retried_three_times() {
    assert!(matches!(after_attempt(0, None, 0u8), Attempt::Retry(1)));
    assert!(matches!(after_attempt(1, None, 0u8), Attempt::Retry(2)));
    assert!(matches!(after_attempt(2, None, 0u8), Attempt::Deliver(0)));
    assert!(matches!(after_attempt(0, Some(9u8), 0u8), Attempt::Deliver(9)));
    assert!(matches!(after_attempt(2, Some(9u8), 0u8), Attempt::Deliver(9)));
}

#[test]
fn negative_replies_are_not_ok() {
    let p = Promise::negative();
    assert!(!p.ok);
    assert_eq!(p.ballot_num, 0);
    assert!(p.value.is_empty());
    assert!(!Accept::negative().ok);
    let q = yes(3, b"abc").duplicate();
    assert!(q.ok);
    assert_eq!(q.ballot_num, 3);
    assert_eq!(q.value, b"abc".to_vec());
}
