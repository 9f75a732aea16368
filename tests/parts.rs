use sharded_gossip::arc::{ArcInterval, ArcSet};
use sharded_gossip::bloom::Bloom;
use sharded_gossip::cert::PeerCert;
use sharded_gossip::codec::{decode_message, encode_message, get_u32, put_u32, read_frame, write_frame};
use sharded_gossip::wire::{Accept, Agents, Initiate, MissingAgents, MissingOps, Ops, ShardedGossipWire};
use sharded_gossip::event::{full_time_window, MetricDatum, MetricKind};
use sharded_gossip::metrics::{record_instant, Metrics, NodeInfo, RoundOutcome, MAX_HISTORY, MAX_TRIGGERS};
use sharded_gossip::types::{loc_of, AgentInfoSigned, StoredOp};
use std::collections::VecDeque;

fn cert(n: u8) -> PeerCert {
    PeerCert::new(vec![n; 4])
}

#[test]
fn history_keeps_at_most_eleven_entries() {
    let mut buf: VecDeque<u64> = VecDeque::new();
    for t in 0..30u64 {
        record_instant(&mut buf, t);
        assert!(buf.len() <= MAX_HISTORY + 1);
    }
    assert_eq!(buf.len(), MAX_HISTORY + 1);
    assert_eq!(buf.front(), Some(&19));
    assert_eq!(buf.back(), Some(&29));
}

#[test]
fn history_grows_to_eleven_before_dropping() {
    let mut buf: VecDeque<u64> = VecDeque::new();
    for t in 0..11u64 {
        record_instant(&mut buf, t);
    }
    assert_eq!(buf.len(), 11);
    assert_eq!(buf.front(), Some(&0));
    record_instant(&mut buf, 11);
    assert_eq!(buf.len(), 11);
    assert_eq!(buf.front(), Some(&1));
}

#[test]
fn new_node_info_was_not_initiated_by_us() {
    assert!(!NodeInfo::new().is_initiate_round());
}

#[test]
fn metrics_outcomes() {
    let mut m = Metrics::new();
    let a = cert(1);
    assert!(m.last_outcome(&a).is_none());
    assert!(m.last_success(&a).is_none());
    assert!(!m.is_current_round(&a));

    m.record_initiate(a.clone(), 10);
    assert!(m.is_current_round(&a));
    m.record_error(a.clone(), 20);
    assert!(!m.is_current_round(&a));
    assert_eq!(m.last_outcome(&a), Some(RoundOutcome::Error(20)));

    m.record_remote_round(a.clone(), 25);
    assert!(m.is_current_round(&a));
    m.record_success(a.clone(), 30);
    assert_eq!(m.last_success(&a), Some(30));
    assert_eq!(m.last_outcome(&a), Some(RoundOutcome::Success(30)));

    m.record_error(a.clone(), 30);
    assert_eq!(m.last_outcome(&a), Some(RoundOutcome::Success(30)));
    m.record_error(a.clone(), 31);
    assert_eq!(m.last_outcome(&a), Some(RoundOutcome::Error(31)));
}

#[test]
fn forced_initiates_are_used_by_our_own_rounds_only() {
    let mut m = Metrics::new();
    let a = cert(1);
    let b = cert(2);
    assert!(!m.forced_initiate());
    m.record_force_initiate();
    assert!(m.forced_initiate());

    // A round the remote started uses nothing up.
    m.record_remote_round(b.clone(), 1);
    m.record_success(b.clone(), 2);
    assert!(m.forced_initiate());

    for t in 0..MAX_TRIGGERS as u64 {
        m.record_initiate(a.clone(), 10 + 2 * t);
        m.record_success(a.clone(), 11 + 2 * t);
    }
    assert!(!m.forced_initiate());

    // The counter saturates at zero.
    m.record_initiate(a.clone(), 100);
    m.record_success(a.clone(), 101);
    assert!(!m.forced_initiate());
}

#[test]
fn bloom_round_trip_reports_nothing_missing() {
    let keys: Vec<Vec<u8>> = (0..50u8).map(|i| vec![i, i.wrapping_mul(7), 3, 200 - i]).collect();
    let b = Bloom::from_keys(&keys);
    assert!(b.missing_from(&keys).is_empty());
    for k in &keys {
        assert!(b.may_contain(k));
    }
}

#[test]
fn empty_bloom_reports_everything_missing() {
    let keys: Vec<Vec<u8>> = vec![vec![1, 2, 3], vec![4, 5, 6], vec![]];
    let b = Bloom::empty();
    assert!(b.is_empty());
    assert_eq!(b.bit_count(), 2048);
    assert_eq!(b.missing_from(&keys), keys);
}

#[test]
fn bloom_bits_round_trip() {
    let keys: Vec<Vec<u8>> = vec![vec![9, 9, 9]];
    let b = Bloom::from_keys(&keys);
    assert!(!b.is_empty());
    let bits = b.to_bits();
    assert_eq!(bits.iter().filter(|x| **x).count() <= 3, true);
    let back = Bloom::from_bits(bits).unwrap();
    assert_eq!(back, b);
    assert!(Bloom::from_bits(vec![false; 10]).is_none());
}

#[test]
fn wrapping_arc_contains() {
    let arc = ArcInterval { start: u32::MAX - 9, len: 20 };
    assert!(arc.contains(u32::MAX));
    assert!(arc.contains(0));
    assert!(arc.contains(9));
    assert!(!arc.contains(10));
    assert!(!arc.contains(u32::MAX - 10));
    assert!(ArcInterval::full().contains(12345));
    assert!(!ArcInterval::empty().contains(0));
}

#[test]
fn arc_set_intersection_and_union() {
    let a = ArcSet::from_interval(&ArcInterval { start: u32::MAX - 9, len: 20 });
    let b = ArcSet::from_interval(&ArcInterval { start: 5, len: 100 });
    let both = a.intersection(&b);
    assert!(both.contains(5));
    assert!(both.contains(9));
    assert!(!both.contains(10));
    assert!(!both.contains(4));
    assert!(!both.contains(u32::MAX));
    let either = a.union(&b);
    assert!(either.contains(u32::MAX));
    assert!(either.contains(104));
    assert!(!either.contains(105));
    assert!(!ArcSet::new().contains(0));
    let part = ArcSet::keyspace_part(1);
    assert!(part.contains(1 << 30));
    assert!(!part.contains((1 << 30) - 1));
    assert!(!part.contains(1 << 31));
}

#[test]
fn op_location_is_last_four_bytes() {
    assert_eq!(loc_of(&vec![9, 9, 1, 0, 0, 0]), 1);
    assert_eq!(loc_of(&vec![0x78, 0x56, 0x34, 0x12]), 0x1234_5678);
    assert_eq!(loc_of(&vec![1, 2, 3]), 0);
}

#[test]
fn cert_order_and_equality() {
    assert!(PeerCert::new(vec![1, 2]).precedes(&PeerCert::new(vec![1, 3])));
    assert!(PeerCert::new(vec![1]).precedes(&PeerCert::new(vec![1, 0])));
    assert!(!PeerCert::new(vec![2]).precedes(&PeerCert::new(vec![1, 9])));
    assert!(!cert(1).precedes(&cert(1)));
    assert!(cert(1).same_as(&cert(1).duplicate()));
    assert!(!cert(1).same_as(&cert(2)));
}

#[test]
fn time_window_covers_everything() {
    let w = full_time_window();
    assert_eq!(w.start, 0);
    assert_eq!(w.end, u64::MAX);
}

#[test]
fn metric_data_order_by_time_then_agent() {
    let d = |agent: u8, t: u64| MetricDatum { agent: vec![agent], kind: MetricKind::QuickGossip, timestamp: t };
    assert_eq!(d(9, 1).compare(&d(1, 2)), std::cmp::Ordering::Less);
    assert_eq!(d(1, 2).compare(&d(9, 1)), std::cmp::Ordering::Greater);
    assert_eq!(d(1, 5).compare(&d(2, 5)), std::cmp::Ordering::Less);
    assert_eq!(d(2, 5).compare(&d(2, 5)), std::cmp::Ordering::Equal);
    assert_eq!(MetricKind::ConnectError.name(), "ConnectError");
    assert!(d(9, 1) < d(1, 2));
    assert!(d(1, 5) < d(2, 5));
    assert_eq!(d(3, 4).partial_cmp(&d(3, 4)), Some(std::cmp::Ordering::Equal));
}

#[test]
fn frames_round_trip() {
    let mut out = Vec::new();
    put_u32(&mut out, 0x1234_5678);
    assert_eq!(out, vec![0x78, 0x56, 0x34, 0x12]);
    assert_eq!(get_u32(&out, 0), Some((0x1234_5678, 4)));
    assert_eq!(get_u32(&out, 1), None);

    let mut buf = Vec::new();
    write_frame(&mut buf, 4, &vec![9, 8, 7]);
    write_frame(&mut buf, 5, &vec![]);
    assert_eq!(buf, vec![4, 0, 0, 0, 4, 9, 8, 7, 1, 0, 0, 0, 5]);
    let (tag, body, next) = read_frame(&buf, 0).unwrap();
    assert_eq!((tag, body, next), (4, vec![9, 8, 7], 8));
    let (tag, body, next) = read_frame(&buf, next).unwrap();
    assert_eq!((tag, body, next), (5, vec![], 13));
    assert!(read_frame(&buf, next).is_none());
    // A cut frame is not read.
    assert!(read_frame(&buf[..7].to_vec(), 0).is_none());
    // A length of zero leaves no room for the tag.
    assert!(read_frame(&vec![0, 0, 0, 0, 1], 0).is_none());
}

#[test]
fn message_tags() {
    let m = ShardedGossipWire::MissingOps(MissingOps { ops: vec![], finished: true });
    assert_eq!(m.tag(), 5);
}

fn sample_messages() -> Vec<ShardedGossipWire> {
    let arc = ArcSet::from_interval(&ArcInterval { start: u32::MAX - 9, len: 20 });
    let keys: Vec<Vec<u8>> = vec![vec![1, 2, 3], vec![], vec![9; 40]];
    let filter = Bloom::from_keys(&keys);
    vec![
        ShardedGossipWire::Initiate(Initiate { intended_arc_set: arc.duplicate(), agent_list: keys.clone() }),
        ShardedGossipWire::Accept(Accept { intended_arc_set: ArcSet::new(), agent_list: vec![] }),
        ShardedGossipWire::Agents(Agents { filter: filter.duplicate() }),
        ShardedGossipWire::MissingAgents(MissingAgents {
            agents: vec![AgentInfoSigned {
                agent: vec![7; 36],
                storage_arc: ArcInterval { start: 123_456, len: 1 << 32 },
                cert: PeerCert::new(vec![5; 32]),
                signature: vec![1, 2],
            }],
        }),
        ShardedGossipWire::Ops(Ops { arc_set: arc, missing_hashes: filter, finished: true }),
        ShardedGossipWire::MissingOps(MissingOps {
            ops: vec![StoredOp { hash: vec![3; 36], data: vec![4, 5] }, StoredOp { hash: vec![], data: vec![] }],
            finished: false,
        }),
    ]
}

#[test]
fn messages_round_trip_through_frames() {
    let mut stream = Vec::new();
    let msgs = sample_messages();
    for m in &msgs {
        stream.extend(encode_message(m).unwrap());
    }
    let mut pos = 0;
    for m in &msgs {
        let (back, next) = decode_message(&stream, pos).unwrap();
        assert_eq!(&back, m);
        assert_eq!(encode_message(&back), encode_message(m));
        pos = next;
    }
    assert_eq!(pos, stream.len());
    assert!(decode_message(&stream, pos).is_none());
}

#[test]
fn malformed_frames_are_rejected() {
    let m = ShardedGossipWire::MissingOps(MissingOps { ops: vec![], finished: true });
    let bytes = encode_message(&m).unwrap();
    // length, tag 5, one field: the flag.
    assert_eq!(bytes, vec![10, 0, 0, 0, 5, 1, 0, 0, 0, 1, 0, 0, 0, 1]);
    let mut bad_flag = bytes.clone();
    bad_flag[13] = 2;
    assert!(decode_message(&bad_flag, 0).is_none());
    let mut bad_tag = bytes.clone();
    bad_tag[4] = 9;
    assert!(decode_message(&bad_tag, 0).is_none());
    assert!(decode_message(&bytes[..bytes.len() - 1].to_vec(), 0).is_none());
}

#[test]
fn filter_of_keys_sets_only_their_positions() {
    assert!(Bloom::from_keys(&vec![]).is_empty());
    let keys: Vec<Vec<u8>> = vec![vec![1, 2, 3]];
    let b = Bloom::from_keys(&keys);
    let set = b.to_bits().iter().filter(|x| **x).count();
    assert!(set >= 1 && set <= 3);
    let mut by_insert = Bloom::empty();
    by_insert.insert(&keys[0]);
    assert_eq!(by_insert, b);
    // Inserting again changes nothing; another key keeps the earlier bits.
    by_insert.insert(&keys[0]);
    assert_eq!(by_insert, b);
    by_insert.insert(&vec![200, 100]);
    assert!(by_insert.may_contain(&keys[0]));
    assert!(by_insert.may_contain(&vec![200, 100]));
}

#[test]
fn filter_parameters_are_checked_on_decode() {
    let m = ShardedGossipWire::Agents(Agents { filter: Bloom::empty() });
    let bytes = encode_message(&m).unwrap();
    // length, tag, two fields: the header (2048 bits, 3 positions) and the bits.
    assert_eq!(&bytes[4..9], &[2, 2, 0, 0, 0]);
    assert_eq!(&bytes[9..21], &[8, 0, 0, 0, 0, 8, 0, 0, 3, 0, 0, 0]);
    assert!(decode_message(&bytes, 0).is_some());
    let mut other_hashes = bytes.clone();
    other_hashes[17] = 4;
    assert!(decode_message(&other_hashes, 0).is_none());
}
