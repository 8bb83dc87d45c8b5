use bytes::Bytes;
use paxos::classic::find_byte;
use paxos::classic::Persist;
use paxos::classic::Promised;
use paxos::decimal::format_u64;
use paxos::decimal::parse_u64;

#[test]
fn empty_store_reads_as_never_used() {
    let store = Persist::new();
    assert_eq!(store.load_proposer_ballot(), 0);
    assert_eq!(store.load_acceptor_ballot(), 0);
    assert!(store.load_acceptor_state().is_none());
}

#[test]
fn accepted_proposal_round_trips() {
    let mut store = Persist::new();
    let p = Promised { ballot_num: 1001, value: Bytes::from("x") };
    store.store_acceptor_state(&Some(p));
    assert_eq!(store.acceptor_accepted, Some(b"1001\nx".to_vec()));
    let back = store.load_acceptor_state().unwrap();
    assert_eq!(back.ballot_num, 1001);
    assert_eq!(&back.value[..], b"x");
}

#[test]
fn accepted_value_may_hold_newlines_and_be_empty() {
    let mut store = Persist::new();
    let p = Promised { ballot_num: u64::MAX, value: Bytes::from("\n\na\nb") };
    store.store_acceptor_state(&Some(p));
    let back = store.load_acceptor_state().unwrap();
    assert_eq!(back.ballot_num, u64::MAX);
    assert_eq!(&back.value[..], b"\n\na\nb");
    let p = Promised { ballot_num: 0, value: Bytes::new() };
    store.store_acceptor_state(&Some(p));
    assert_eq!(store.acceptor_accepted, Some(b"0\n".to_vec()));
    let back = store.load_acceptor_state().unwrap();
    assert_eq!(back.ballot_num, 0);
    assert!(back.value.is_empty());
}

#[test]
fn storing_none_keeps_the_record() {
    let mut store = Persist::new();
    store.store_acceptor_state(&None);
    assert!(store.acceptor_accepted.is_none());
    store.store_acceptor_state(&Some(Promised { ballot_num: 5, value: Bytes::from("v") }));
    store.store_acceptor_state(&None);
    assert_eq!(store.load_acceptor_state().unwrap().ballot_num, 5);
}

#[test]
fn scalar_records_round_trip() {
    let mut store = Persist::new();
    store.store_proposer_ballot(42);
    store.store_acceptor_ballot(1001);
    assert_eq!(store.proposer_ballot, Some(b"42".to_vec()));
    assert_eq!(store.acceptor_ballot, Some(b"1001".to_vec()));
    assert_eq!(store.load_proposer_ballot(), 42);
    assert_eq!(store.load_acceptor_ballot(), 1001);
    let copy = store.duplicate();
    assert_eq!(copy.load_proposer_ballot(), 42);
    assert_eq!(copy.load_acceptor_ballot(), 1001);
}

#[test]
fn unreadable_scalar_reads_as_zero() {
    let mut store = Persist::new();
    store.proposer_ballot = Some(b"12a".to_vec());
    store.acceptor_ballot = Some(b"7\n".to_vec());
    assert_eq!(store.load_proposer_ballot(), 0);
    assert_eq!(store.load_acceptor_ballot(), 0);
}

#[test]
fn record_without_newline_is_cut_at_the_start() {
    let mut store = Persist::new();
    store.acceptor_accepted = Some(b"123abc".to_vec());
    let back = store.load_acceptor_state().unwrap();
    assert_eq!(back.ballot_num, 0);
    assert_eq!(&back.value[..], b"23abc");
}

#[test]
fn record_with_unreadable_ballot_reads_as_ballot_zero() {
    let mut store = Persist::new();
    store.acceptor_accepted = Some(b"1x\nvalue".to_vec());
    let back = store.load_acceptor_state().unwrap();
    assert_eq!(back.ballot_num, 0);
    assert_eq!(&back.value[..], b"value");
}

#[test]
fn format_u64_writes_decimal() {
    assert_eq!(format_u64(0), b"0".to_vec());
    assert_eq!(format_u64(7), b"7".to_vec());
    assert_eq!(format_u64(1001), b"1001".to_vec());
    assert_eq!(format_u64(u64::MAX), b"18446744073709551615".to_vec());
}

#[test]
fn parse_u64_reads_what_std_reads() {
    let cases: [&str; 14] = [
        "0", "7", "007", "+5", "1001", "18446744073709551615", "18446744073709551616",
        "", "+", "-1", "++1", "1 ", " 1", "12a",
    ];
    for c in cases.iter() {
        assert_eq!(parse_u64(c.as_bytes()), c.parse::<u64>().ok(), "{:?}", c);
    }
    assert_eq!(parse_u64(b"18446744073709551615"), Some(u64::MAX));
    assert_eq!(parse_u64(b"99999999999999999999999"), None);
    assert_eq!(parse_u64(&[0xff, 0x31]), None);
}

#[test]
fn parse_undoes_format() {
    let ns = [0u64, 1, 9, 10, 99, 100, 1001, 123456789, u64::MAX - 1, u64::MAX];
    for n in ns.iter() {
        assert_eq!(parse_u64(&format_u64(*n)), Some(*n));
    }
}

#[test]
fn find_byte_gives_first_place() {
    assert_eq!(find_byte(b"ab\ncd\n", b'\n'), Some(2));
    assert_eq!(find_byte(b"\n", b'\n'), Some(0));
    assert_eq!(find_byte(b"abc", b'\n'), None);
    assert_eq!(find_byte(b"", b'\n'), None);
}
