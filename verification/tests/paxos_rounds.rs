use bytes::Bytes;
use paxos::classic::paxos;
use paxos::classic::accept_with_retry;
use paxos::classic::prepare_with_retry;
use paxos::classic::Acceptor;
use paxos::classic::AcceptorClient;
use paxos::classic::Configuraion;
use paxos::classic::Persist;
use paxos::classic::Promised;
use paxos::classic::Proposer;
use paxos::proto::paxos::Prepare;
use paxos::proto::paxos::Propose;

fn fresh_cluster(n: usize) -> Configuraion {
    let mut acceptors = Vec::new();
    for _ in 0..n {
        acceptors.push(AcceptorClient::new(Acceptor::new(Persist::new())));
    }
    Configuraion { acceptors }
}

fn accepted_of(cfg: &Configuraion, i: usize) -> Option<(u64, Vec<u8>)> {
    cfg.acceptors[i]
        .acceptor()
        .accepted()
        .map(|p| (p.ballot_num, p.value.to_vec()))
}

#[test]
fn three_fresh_acceptors_accept_first_value() {
    let mut cfg = fresh_cluster(3);
    let mut proposer = Proposer::new(1, Persist::new());
    assert!(proposer.can_advance());
    assert!(paxos(&mut proposer, &mut cfg, Bytes::from("x")));
    for i in 0..3 {
        assert_eq!(accepted_of(&cfg, i), Some((1001, b"x".to_vec())));
        assert_eq!(cfg.acceptors[i].acceptor().max_seen_ballot(), 1001);
    }
}

#[test]
fn first_ballot_of_proposer_one_is_1001() {
    let mut proposer = Proposer::new(1, Persist::new());
    assert_eq!(proposer.next_ballot_num(), 1001);
    assert_eq!(proposer.next_ballot_num(), 2001);
    assert_eq!(proposer.persist().load_proposer_ballot(), 2);
    assert_eq!(proposer.persist().proposer_ballot, Some(b"2".to_vec()));
}

#[test]
fn fresh_acceptors_promise_with_nothing_accepted() {
    let mut cfg = fresh_cluster(3);
    for i in 0..3 {
        let p = cfg.acceptors[i].prepare(&Prepare { ballot_num: 1001 });
        let p = p.ok().unwrap();
        assert!(p.ok);
        assert_eq!(p.ballot_num, 0);
        assert!(p.value.is_empty());
    }
}

#[test]
fn second_proposer_adopts_committed_value() {
    let mut cfg = fresh_cluster(3);
    let mut first = Proposer::new(1, Persist::new());
    assert!(paxos(&mut first, &mut cfg, Bytes::from("x")));

    let mut second = Proposer::new(2, Persist::new());
    let ballot = second.next_ballot_num();
    assert_eq!(ballot, 1002);
    let bound = second.prepare(&mut cfg, ballot);
    assert_eq!(bound.ballot_num, 1001);
    assert_eq!(&bound.value[..], b"x");

    let mut third = Proposer::new(3, Persist::new());
    assert!(paxos(&mut third, &mut cfg, Bytes::from("y")));
    for i in 0..3 {
        assert_eq!(accepted_of(&cfg, i), Some((1003, b"x".to_vec())));
    }
}

#[test]
fn second_proposer_round_keeps_value() {
    let mut cfg = fresh_cluster(3);
    let mut first = Proposer::new(1, Persist::new());
    assert!(paxos(&mut first, &mut cfg, Bytes::from("x")));
    let mut second = Proposer::new(2, Persist::new());
    assert!(paxos(&mut second, &mut cfg, Bytes::from("y")));
    for i in 0..3 {
        assert_eq!(accepted_of(&cfg, i), Some((1002, b"x".to_vec())));
    }
}

#[test]
fn round_succeeds_with_one_acceptor_unreachable() {
    let mut cfg = fresh_cluster(3);
    cfg.acceptors[2].set_down(true);
    let mut proposer = Proposer::new(1, Persist::new());
    assert!(paxos(&mut proposer, &mut cfg, Bytes::from("x")));
    assert_eq!(accepted_of(&cfg, 0), Some((1001, b"x".to_vec())));
    assert_eq!(accepted_of(&cfg, 1), Some((1001, b"x".to_vec())));
    assert_eq!(accepted_of(&cfg, 2), None);
    assert_eq!(cfg.acceptors[2].acceptor().max_seen_ballot(), 0);
}

#[test]
fn round_fails_without_a_reachable_majority() {
    let mut cfg = fresh_cluster(3);
    cfg.acceptors[0].set_down(true);
    cfg.acceptors[2].set_down(true);
    let mut proposer = Proposer::new(1, Persist::new());
    assert!(!paxos(&mut proposer, &mut cfg, Bytes::from("x")));
    assert_eq!(accepted_of(&cfg, 1), Some((1001, b"x".to_vec())));
}

#[test]
fn unreachable_acceptor_counts_as_negative_vote() {
    let mut client = AcceptorClient::new(Acceptor::new(Persist::new()));
    client.set_down(true);
    let p = prepare_with_retry(&mut client, 7);
    assert!(!p.ok);
    assert_eq!(p.ballot_num, 0);
    assert!(p.value.is_empty());
    let chosen = Promised { ballot_num: 7, value: Bytes::from("v") };
    assert!(!accept_with_retry(&mut client, &chosen).ok);
    assert_eq!(client.acceptor().max_seen_ballot(), 0);
}

#[test]
fn two_dropped_calls_are_retried() {
    let mut client = AcceptorClient::new(Acceptor::new(Persist::new()));
    client.set_drops(2);
    let p = prepare_with_retry(&mut client, 7);
    assert!(p.ok);
    assert_eq!(client.acceptor().max_seen_ballot(), 7);
}

#[test]
fn three_dropped_calls_spend_the_budget() {
    let mut client = AcceptorClient::new(Acceptor::new(Persist::new()));
    client.set_drops(3);
    let p = prepare_with_retry(&mut client, 7);
    assert!(!p.ok);
    assert_eq!(client.acceptor().max_seen_ballot(), 0);
    let p = prepare_with_retry(&mut client, 8);
    assert!(p.ok);
    assert_eq!(client.acceptor().max_seen_ballot(), 8);
}

#[test]
fn single_attempt_reports_transport_failure() {
    let mut client = AcceptorClient::new(Acceptor::new(Persist::new()));
    client.set_drops(1);
    assert!(client.prepare(&Prepare { ballot_num: 1 }).is_err());
    assert!(client.prepare(&Prepare { ballot_num: 1 }).is_ok());
    client.set_down(true);
    assert!(client.accept(Propose { ballot_num: 1, value: b"v".to_vec() }).is_err());
    client.set_down(false);
    let ack = client.accept(Propose { ballot_num: 1, value: b"v".to_vec() });
    assert!(ack.ok().unwrap().ok);
}

#[test]
fn stale_prepare_is_rejected_and_changes_nothing() {
    let mut a = Acceptor::new(Persist::new());
    assert!(a.prepare(&Prepare { ballot_num: 2005 }).ok);
    let before = a.persist().duplicate();
    let p = a.prepare(&Prepare { ballot_num: 1001 });
    assert!(!p.ok);
    assert_eq!(p.ballot_num, 2005);
    assert!(p.value.is_empty());
    assert_eq!(a.max_seen_ballot(), 2005);
    assert_eq!(a.persist().acceptor_ballot, before.acceptor_ballot);
    assert_eq!(a.persist().acceptor_accepted, before.acceptor_accepted);
}

#[test]
fn stale_accept_is_rejected_and_changes_nothing() {
    let mut a = Acceptor::new(Persist::new());
    assert!(a.accept(Propose { ballot_num: 2005, value: b"keep".to_vec() }).ok);
    let before = a.persist().duplicate();
    assert!(!a.accept(Propose { ballot_num: 1001, value: b"lose".to_vec() }).ok);
    assert_eq!(a.max_seen_ballot(), 2005);
    let acc = a.accepted().unwrap();
    assert_eq!(acc.ballot_num, 2005);
    assert_eq!(&acc.value[..], b"keep");
    assert_eq!(a.persist().acceptor_ballot, before.acceptor_ballot);
    assert_eq!(a.persist().acceptor_accepted, before.acceptor_accepted);
}

#[test]
fn equal_ballot_is_not_stale() {
    let mut a = Acceptor::new(Persist::new());
    assert!(a.prepare(&Prepare { ballot_num: 5 }).ok);
    assert!(a.prepare(&Prepare { ballot_num: 5 }).ok);
    assert!(a.accept(Propose { ballot_num: 5, value: b"v".to_vec() }).ok);
}

#[test]
fn max_seen_ballot_never_goes_down() {
    let mut a = Acceptor::new(Persist::new());
    let ballots = [3u64, 1, 7, 7, 2, 9, 0];
    let mut last = a.max_seen_ballot();
    for (i, b) in ballots.iter().enumerate() {
        if i % 2 == 0 {
            a.prepare(&Prepare { ballot_num: *b });
        } else {
            a.accept(Propose { ballot_num: *b, value: vec![i as u8] });
        }
        assert!(a.max_seen_ballot() >= last);
        last = a.max_seen_ballot();
    }
    assert_eq!(last, 9);
}

#[test]
fn later_prepare_reports_accepted_proposal() {
    let mut a = Acceptor::new(Persist::new());
    assert!(a.accept(Propose { ballot_num: 1001, value: b"x".to_vec() }).ok);
    assert!(a.prepare(&Prepare { ballot_num: 1500 }).ok);
    let p = a.prepare(&Prepare { ballot_num: 2002 });
    assert!(p.ok);
    assert_eq!(p.ballot_num, 1001);
    assert_eq!(p.value, b"x".to_vec());
}

#[test]
fn restart_recovers_acceptor_state() {
    let mut a = Acceptor::new(Persist::new());
    assert!(a.prepare(&Prepare { ballot_num: 1001 }).ok);
    assert!(a.accept(Propose { ballot_num: 1001, value: b"x\ny".to_vec() }).ok);
    assert!(a.prepare(&Prepare { ballot_num: 3002 }).ok);
    let b = Acceptor::new(a.persist().duplicate());
    assert_eq!(b.max_seen_ballot(), 3002);
    let acc = b.accepted().unwrap();
    assert_eq!(acc.ballot_num, 1001);
    assert_eq!(&acc.value[..], b"x\ny");
}

#[test]
fn restart_recovers_proposer_round() {
    let mut p = Proposer::new(4, Persist::new());
    assert_eq!(p.next_ballot_num(), 1004);
    assert_eq!(p.next_ballot_num(), 2004);
    let mut q = Proposer::new(4, p.persist().duplicate());
    assert_eq!(q.next_ballot_num(), 3004);
}

#[test]
fn proposer_at_the_end_of_the_ballot_space_cannot_advance() {
    let mut store = Persist::new();
    store.store_proposer_ballot(u64::MAX / 1000);
    let p = Proposer::new(999, store);
    assert!(!p.can_advance());
    let mut store = Persist::new();
    store.store_proposer_ballot(u64::MAX / 1000 - 1);
    let p = Proposer::new(615, store);
    assert!(p.can_advance());
    let mut store = Persist::new();
    store.store_proposer_ballot(u64::MAX / 1000 - 1);
    let p = Proposer::new(616, store);
    assert!(!p.can_advance());
    let mut store = Persist::new();
    store.store_proposer_ballot(u64::MAX);
    assert!(!Proposer::new(0, store).can_advance());
}

fn value_under(cfg: &Configuraion, ballot: u64) -> Option<Vec<u8>> {
    for i in 0..cfg.acceptors.len() {
        if let Some((b, v)) = accepted_of(cfg, i) {
            if b == ballot {
                return Some(v);
            }
        }
    }
    None
}

#[test]
fn rounds_with_a_majority_of_promises_agree() {
    let mut cfg = fresh_cluster(5);
    let mut proposers: Vec<Proposer> = (1..=3).map(|id| Proposer::new(id, Persist::new())).collect();
    let mut seed: u64 = 42;
    let mut agreed: Option<Vec<u8>> = None;
    let mut successes = 0;
    for round in 0..60u64 {
        // Up to two acceptors are out of reach for the whole round.
        for i in 0..5 {
            cfg.acceptors[i].set_down(false);
        }
        seed = seed.wrapping_mul(1103515245).wrapping_add(12345);
        let a = (seed >> 16) as usize % 5;
        seed = seed.wrapping_mul(1103515245).wrapping_add(12345);
        let b = (seed >> 16) as usize % 5;
        cfg.acceptors[a].set_down(true);
        if round % 2 == 0 {
            cfg.acceptors[b].set_down(true);
        }
        // Proposers take turns; each keeps stepping until its ballot outranks all seen.
        let p = &mut proposers[(round % 3) as usize];
        let highest = (0..5).map(|i| cfg.acceptors[i].acceptor().max_seen_ballot()).max().unwrap();
        let mut ballot = p.next_ballot_num();
        while ballot <= highest {
            ballot = p.next_ballot_num();
        }
        let bound = p.prepare(&mut cfg, ballot);
        let own = format!("value-{}", round).into_bytes();
        let value = if bound.value.is_empty() { Bytes::from(own) } else { bound.value };
        let ok = p.accept(&mut cfg, Promised { ballot_num: ballot, value });
        assert!(ok);
        successes += 1;
        let chosen = value_under(&cfg, ballot).unwrap();
        match &agreed {
            None => agreed = Some(chosen),
            Some(v) => assert_eq!(&chosen, v),
        }
    }
    assert_eq!(successes, 60);
    assert_eq!(agreed, Some(b"value-0".to_vec()));
}

#[test]
fn round_goes_on_without_a_majority_of_promises() {
    let mut cfg = fresh_cluster(3);
    cfg.acceptors[2].set_down(true);
    let mut first = Proposer::new(1, Persist::new());
    assert!(paxos(&mut first, &mut cfg, Bytes::from("x")));
    assert_eq!(value_under(&cfg, 1001), Some(b"x".to_vec()));

    // The two acceptors that hold "x" drop exactly the calls of the next Prepare.
    cfg.acceptors[2].set_down(false);
    cfg.acceptors[0].set_drops(3);
    cfg.acceptors[1].set_drops(3);
    let mut second = Proposer::new(2, Persist::new());
    assert!(paxos(&mut second, &mut cfg, Bytes::from("y")));
    for i in 0..3 {
        assert_eq!(accepted_of(&cfg, i), Some((1002, b"y".to_vec())));
    }
}

#[test]
fn empty_value_is_taken_for_none() {
    let mut cfg = fresh_cluster(3);
    let mut first = Proposer::new(1, Persist::new());
    assert!(paxos(&mut first, &mut cfg, Bytes::new()));
    let mut second = Proposer::new(2, Persist::new());
    assert!(paxos(&mut second, &mut cfg, Bytes::from("y")));
    assert_eq!(accepted_of(&cfg, 0), Some((1002, b"y".to_vec())));
}
