use sharded_gossip::arc::{ArcInterval, ArcSet};
use sharded_gossip::bloom::Bloom;
use sharded_gossip::cert::PeerCert;
use sharded_gossip::gossip::{GossipType, ShardedGossip};
use sharded_gossip::round::RoundState;
use sharded_gossip::wire::{MissingOps, Ops, ShardedGossipWire};
use sharded_gossip::types::{AgentInfoSigned, StoredOp};

const NOW: u64 = 1_000;

fn space() -> Vec<u8> {
    vec![42; 32]
}

fn cert(n: u8) -> PeerCert {
    PeerCert::new(vec![n; 32])
}

fn agent_info(n: u8) -> AgentInfoSigned {
    AgentInfoSigned {
        agent: vec![n; 36],
        storage_arc: ArcInterval::full(),
        cert: cert(n),
        signature: vec![n, n, 7],
    }
}

fn op(seed: u8) -> StoredOp {
    let mut hash = vec![seed; 32];
    hash.extend_from_slice(&[seed, seed.wrapping_mul(3), seed.wrapping_add(40), seed]);
    StoredOp { hash, data: vec![seed, 1, 2, 3] }
}

/// A node of id `me` that knows the agent of node `other`.
fn empty_player(me: u8, other: u8) -> ShardedGossip {
    let mut g = ShardedGossip::new(space(), cert(me), GossipType::Historical, u32::MAX, vec![agent_info(me)]);
    g.add_agent_infos(vec![agent_info(me), agent_info(other)]);
    g
}

/// Like `empty_player`, holding a few ops of its own.
fn standard_player(me: u8, other: u8) -> ShardedGossip {
    let mut g = empty_player(me, other);
    g.add_ops(vec![op(me), op(me.wrapping_add(100)), op(me.wrapping_add(200))]);
    g
}

fn full_round(num_sent_ops_blooms: u8, received_all_incoming_ops_blooms: bool) -> RoundState {
    RoundState {
        common_arc_set: ArcSet::full(),
        num_sent_ops_blooms,
        received_all_incoming_ops_blooms,
        created_at_ms: NOW,
        round_timeout_ms: u32::MAX,
    }
}

fn player_with_round(me: u8, peer: &PeerCert, round: RoundState) -> ShardedGossip {
    let mut g = standard_player(me, 99);
    g.insert_round(peer.clone(), round);
    g
}

fn deliver(to: &mut ShardedGossip, from: &PeerCert, msgs: Vec<ShardedGossipWire>) -> Vec<ShardedGossipWire> {
    let mut out = Vec::new();
    for m in msgs {
        out.extend(to.process_incoming(from.clone(), m, NOW));
    }
    out
}

#[test]
fn sharded_sanity_test() {
    let mut alice = standard_player(1, 2);
    let mut bob = standard_player(2, 1);
    let bob_cert = cert(2);

    let (alices_cert, bob_initiate) = bob.try_initiate(NOW).unwrap();
    assert_eq!(alices_cert, cert(1));

    let alice_outgoing = alice.process_incoming(bob_cert.clone(), bob_initiate, NOW);
    assert_eq!(alice_outgoing.len(), 5);
    assert_eq!(alice.current_rounds(), 1);

    let bob_outgoing = deliver(&mut bob, &alices_cert, alice_outgoing);
    assert_eq!(bob_outgoing.len(), 8);
    assert_eq!(bob.current_rounds(), 1);

    let alice_outgoing = deliver(&mut alice, &bob_cert, bob_outgoing);
    assert_eq!(alice_outgoing.len(), 4);
    assert!(alice.initiate_target().is_none());
    assert_eq!(alice.current_rounds(), 0);

    let bob_outgoing = deliver(&mut bob, &alices_cert, alice_outgoing);
    assert_eq!(bob_outgoing.len(), 0);
    assert!(bob.initiate_target().is_none());
    assert_eq!(bob.current_rounds(), 0);
}

#[test]
fn partial_missing_doesnt_finish() {
    let c = cert(9);
    let mut bob = player_with_round(2, &c, full_round(1, true));
    let incoming = ShardedGossipWire::MissingOps(MissingOps { ops: vec![], finished: false });
    let outgoing = bob.process_incoming(c.clone(), incoming, NOW);
    assert_eq!(outgoing.len(), 0);
    assert!(bob.initiate_target().is_none());
    assert_eq!(bob.current_rounds(), 1);
}

#[test]
fn missing_ops_finishes() {
    let c = cert(9);
    let mut bob = player_with_round(2, &c, full_round(1, true));
    let incoming = ShardedGossipWire::MissingOps(MissingOps { ops: vec![], finished: true });
    let outgoing = bob.process_incoming(c.clone(), incoming, NOW);
    assert_eq!(outgoing.len(), 0);
    assert!(bob.initiate_target().is_none());
    assert_eq!(bob.current_rounds(), 0);
}

#[test]
fn missing_ops_doesnt_finish_awaiting_bloom_responses() {
    let c = cert(9);
    let mut bob = player_with_round(2, &c, full_round(1, false));
    let incoming = ShardedGossipWire::MissingOps(MissingOps { ops: vec![], finished: true });
    let outgoing = bob.process_incoming(c.clone(), incoming, NOW);
    assert_eq!(outgoing.len(), 0);
    assert!(bob.initiate_target().is_none());
    assert_eq!(bob.current_rounds(), 1);
}

fn final_empty_ops() -> ShardedGossipWire {
    ShardedGossipWire::Ops(Ops {
        arc_set: ArcSet::full(),
        missing_hashes: Bloom::empty(),
        finished: true,
    })
}

#[test]
fn bloom_response_finishes() {
    let c = cert(9);
    let mut bob = player_with_round(2, &c, full_round(0, false));
    let outgoing = bob.process_incoming(c.clone(), final_empty_ops(), NOW);
    assert_eq!(outgoing.len(), 1);
    assert!(bob.initiate_target().is_none());
    assert_eq!(bob.current_rounds(), 0);
}

#[test]
fn bloom_response_doesnt_finish_outstanding_incoming() {
    let c = cert(9);
    let mut bob = player_with_round(2, &c, full_round(1, false));
    let outgoing = bob.process_incoming(c.clone(), final_empty_ops(), NOW);
    assert_eq!(outgoing.len(), 1);
    assert!(bob.initiate_target().is_none());
    assert_eq!(bob.current_rounds(), 1);
}

#[test]
fn no_data_still_finishes() {
    let alice_cert = cert(1);
    let bob_cert = cert(2);
    let mut alice = empty_player(1, 2);
    alice.insert_round(bob_cert.clone(), full_round(0, false));
    let mut bob = empty_player(2, 1);
    bob.insert_round(alice_cert.clone(), full_round(1, true));

    let outgoing = alice.process_incoming(bob_cert.clone(), final_empty_ops(), NOW);
    assert_eq!(outgoing.len(), 1);
    match &outgoing[0] {
        ShardedGossipWire::MissingOps(m) => {
            assert!(m.ops.is_empty());
            assert!(m.finished);
        }
        other => panic!("unexpected {:?}", other),
    }

    let outgoing = deliver(&mut bob, &alice_cert, outgoing);
    assert_eq!(outgoing.len(), 0);

    assert!(alice.initiate_target().is_none());
    assert_eq!(alice.current_rounds(), 0);
    assert!(bob.initiate_target().is_none());
    assert_eq!(bob.current_rounds(), 0);
}

#[test]
fn double_initiate_is_handled() {
    let mut alice = empty_player(1, 2);
    let mut bob = empty_player(2, 1);

    let (alice_tgt, alice_initiate) = alice.try_initiate(NOW).unwrap();
    let (bob_tgt, bob_initiate) = bob.try_initiate(NOW).unwrap();
    let bob_cert = alice_tgt;
    let alice_cert = bob_tgt;

    let alice_outgoing = alice.process_incoming(bob_cert, bob_initiate, NOW);
    let bob_outgoing = bob.process_incoming(alice_cert, alice_initiate, NOW);

    assert!(bob_outgoing.len() == 0 || alice_outgoing.len() == 0);
}

#[test]
fn initiate_after_target_is_set() {
    let mut alice = empty_player(1, 2);
    let mut bob = empty_player(2, 1);

    let (tgt, alice_initiate) = alice.try_initiate(NOW).unwrap();
    assert_eq!(tgt, cert(2));
    let bob_outgoing = bob.process_incoming(cert(1), alice_initiate, NOW);
    assert_eq!(bob_outgoing.len(), 5);

    let bob_initiate = bob.try_initiate(NOW);
    assert!(bob_initiate.is_none());
}

fn recent_player(me: u8, other: u8) -> ShardedGossip {
    let mut g = ShardedGossip::new(space(), cert(me), GossipType::Recent, u32::MAX, vec![agent_info(me)]);
    g.add_agent_infos(vec![agent_info(me), agent_info(other)]);
    g.add_ops(vec![op(me), op(me.wrapping_add(50))]);
    g
}

/// Runs a whole round between two nodes, delivering each batch in turn.
fn run_round(a: &mut ShardedGossip, a_cert: &PeerCert, b: &mut ShardedGossip, b_cert: &PeerCert) {
    let (_, initiate) = a.try_initiate(NOW).unwrap();
    let mut to_b = vec![initiate];
    let mut to_a = Vec::new();
    while !to_b.is_empty() || !to_a.is_empty() {
        to_a = deliver(b, a_cert, std::mem::take(&mut to_b));
        to_b = deliver(a, b_cert, std::mem::take(&mut to_a));
    }
}

#[test]
fn round_syncs_ops_both_ways() {
    let mut alice = standard_player(1, 2);
    let mut bob = standard_player(2, 1);
    assert_eq!(alice.held_op_count(), 3);
    assert_eq!(bob.held_op_count(), 3);
    run_round(&mut bob, &cert(2), &mut alice, &cert(1));
    assert_eq!(alice.held_op_count(), 6);
    assert_eq!(bob.held_op_count(), 6);
    assert_eq!(alice.current_rounds(), 0);
    assert_eq!(bob.current_rounds(), 0);
    assert_eq!(alice.metrics().last_success(&cert(2)), Some(NOW));
    assert_eq!(bob.metrics().last_success(&cert(1)), Some(NOW));
    assert!(!bob.metrics().is_current_round(&cert(1)));
}

#[test]
fn recent_gossip_sends_agents_filter() {
    let mut alice = recent_player(1, 2);
    let mut bob = recent_player(2, 1);
    bob.add_agent_infos(vec![agent_info(3)]);
    let (_, initiate) = bob.try_initiate(NOW).unwrap();
    let out = alice.process_incoming(cert(2), initiate, NOW);
    // Accept, the agents filter, and four ops filters.
    assert_eq!(out.len(), 6);
    assert!(matches!(out[0], ShardedGossipWire::Accept(_)));
    assert!(matches!(out[1], ShardedGossipWire::Agents(_)));
    let mut agents_filter = None;
    let mut rest = Vec::new();
    let mut accept = Vec::new();
    for m in out {
        match m {
            ShardedGossipWire::Agents(a) => agents_filter = Some(a),
            ShardedGossipWire::Accept(a) => accept.push(ShardedGossipWire::Accept(a)),
            other => rest.push(other),
        }
    }
    // Bob enters the round on the accept: his own agents filter and four ops filters.
    let bob_out = deliver(&mut bob, &cert(1), accept);
    assert_eq!(bob_out.len(), 5);
    let reply = bob.process_incoming(cert(1), ShardedGossipWire::Agents(agents_filter.unwrap()), NOW);
    assert_eq!(reply.len(), 1);
    match &reply[0] {
        ShardedGossipWire::MissingAgents(m) => {
            assert_eq!(m.agents.len(), 1);
            assert_eq!(m.agents[0].signature, agent_info(3).signature);
        }
        other => panic!("unexpected {:?}", other),
    }
    assert_eq!(alice.known_agent_count(), 2);
    let none = deliver(&mut alice, &cert(2), reply);
    assert!(none.is_empty());
    assert_eq!(alice.known_agent_count(), 3);
    let _ = deliver(&mut bob, &cert(1), rest);
}

#[test]
fn message_without_round_is_an_error() {
    let mut bob = standard_player(2, 1);
    let out = bob.process_incoming(cert(7), final_empty_ops(), NOW);
    assert!(out.is_empty());
    assert_eq!(bob.current_rounds(), 0);
    assert!(matches!(bob.metrics().last_outcome(&cert(7)), Some(sharded_gossip::metrics::RoundOutcome::Error(NOW))));
}

#[test]
fn accept_without_target_is_an_error() {
    let mut alice = standard_player(1, 2);
    let mut bob = standard_player(2, 1);
    let (_, initiate) = bob.try_initiate(NOW).unwrap();
    let out = alice.process_incoming(cert(2), initiate, NOW);
    let accept = out.into_iter().next().unwrap();
    // Carol never courted Alice.
    let mut carol = standard_player(3, 1);
    let reply = carol.process_incoming(cert(1), accept, NOW);
    assert!(reply.is_empty());
    assert_eq!(carol.current_rounds(), 0);
    assert!(matches!(carol.metrics().last_outcome(&cert(1)), Some(sharded_gossip::metrics::RoundOutcome::Error(_))));
}

#[test]
fn finished_missing_ops_with_none_outstanding_closes_round() {
    let c = cert(9);
    let mut bob = player_with_round(2, &c, full_round(0, false));
    let incoming = ShardedGossipWire::MissingOps(MissingOps { ops: vec![op(42)], finished: true });
    let out = bob.process_incoming(c.clone(), incoming, NOW);
    assert!(out.is_empty());
    assert_eq!(bob.current_rounds(), 0);
    // The ops still came in.
    assert_eq!(bob.held_op_count(), 4);
    assert!(matches!(bob.metrics().last_outcome(&c), Some(sharded_gossip::metrics::RoundOutcome::Error(_))));
}

#[test]
fn duplicate_ops_are_held_once() {
    let c = cert(9);
    let mut bob = player_with_round(2, &c, full_round(2, false));
    let incoming = ShardedGossipWire::MissingOps(MissingOps { ops: vec![op(2), op(42), op(42)], finished: false });
    let _ = bob.process_incoming(c.clone(), incoming, NOW);
    assert_eq!(bob.held_op_count(), 4);
}

#[test]
fn expired_round_closes_on_next_message() {
    let c = cert(9);
    let mut bob = standard_player(2, 1);
    bob.insert_round(c.clone(), RoundState {
        common_arc_set: ArcSet::full(),
        num_sent_ops_blooms: 2,
        received_all_incoming_ops_blooms: false,
        created_at_ms: NOW,
        round_timeout_ms: 10,
    });
    let incoming = ShardedGossipWire::MissingOps(MissingOps { ops: vec![], finished: false });
    let out = bob.process_incoming(c.clone(), incoming, NOW + 11);
    assert!(out.is_empty());
    assert_eq!(bob.current_rounds(), 0);
    assert_eq!(bob.metrics().last_outcome(&c), Some(sharded_gossip::metrics::RoundOutcome::Error(NOW + 11)));
}

#[test]
fn sweep_closes_expired_rounds_and_target() {
    let mut bob = ShardedGossip::new(space(), cert(2), GossipType::Historical, 10, vec![agent_info(2)]);
    bob.add_agent_infos(vec![agent_info(1)]);
    bob.insert_round(cert(8), full_round(1, false));
    let mut short = full_round(1, false);
    short.round_timeout_ms = 5;
    bob.insert_round(cert(9), short);
    let _ = bob.try_initiate(NOW).unwrap();
    assert!(bob.initiate_target().is_some());

    bob.check_timeouts(NOW + 5);
    assert_eq!(bob.current_rounds(), 2);
    assert!(bob.initiate_target().is_some());

    bob.check_timeouts(NOW + 6);
    assert_eq!(bob.current_rounds(), 1);
    assert!(bob.round_with(&cert(8)).is_some());
    assert!(bob.initiate_target().is_some());

    bob.check_timeouts(NOW + 11);
    assert!(bob.initiate_target().is_none());
    assert_eq!(bob.metrics().last_outcome(&cert(1)), Some(sharded_gossip::metrics::RoundOutcome::Error(NOW + 11)));
    assert_eq!(bob.metrics().last_outcome(&cert(9)), Some(sharded_gossip::metrics::RoundOutcome::Error(NOW + 6)));
}

#[test]
fn failed_peer_cools_down_unless_forced() {
    let mut bob = standard_player(2, 1);
    bob.insert_round(cert(1), full_round(0, false));
    // A finished answer with nothing outstanding fails the round.
    let incoming = ShardedGossipWire::MissingOps(MissingOps { ops: vec![], finished: true });
    let _ = bob.process_incoming(cert(1), incoming, NOW);
    assert!(bob.try_initiate(NOW + 1).is_none());
    bob.force_initiate();
    let (tgt, _) = bob.try_initiate(NOW + 1).unwrap();
    assert_eq!(tgt, cert(1));
}

#[test]
fn cooldown_ends() {
    let mut bob = standard_player(2, 1);
    bob.insert_round(cert(1), full_round(0, false));
    let incoming = ShardedGossipWire::MissingOps(MissingOps { ops: vec![], finished: true });
    let _ = bob.process_incoming(cert(1), incoming, NOW);
    assert!(bob.try_initiate(NOW + 59_999).is_none());
    assert!(bob.try_initiate(NOW + 60_000).is_some());
}

#[test]
fn initiate_prefers_oldest_success() {
    let mut alice = standard_player(1, 2);
    alice.add_agent_infos(vec![agent_info(3)]);
    let mut bob = standard_player(2, 1);
    // Alice completes a round with Bob, so Carol, never synced, comes first.
    run_round(&mut alice, &cert(1), &mut bob, &cert(2));
    let (tgt, msg) = alice.try_initiate(NOW + 1).unwrap();
    assert_eq!(tgt, cert(3));
    assert!(matches!(msg, ShardedGossipWire::Initiate(_)));
    // Only one peer is courted at a time.
    assert!(alice.try_initiate(NOW + 2).is_none());
}

#[test]
fn initiate_from_round_peer_is_ignored() {
    let mut alice = standard_player(1, 2);
    let mut bob = standard_player(2, 1);
    let (_, initiate) = bob.try_initiate(NOW).unwrap();
    let _ = alice.process_incoming(cert(2), initiate, NOW);
    let mut carol = standard_player(2, 1);
    let (_, again) = carol.try_initiate(NOW).unwrap();
    let out = alice.process_incoming(cert(2), again, NOW);
    assert!(out.is_empty());
    assert_eq!(alice.current_rounds(), 1);
}

#[test]
fn message_of_another_space_is_ignored() {
    let c = cert(9);
    let mut bob = player_with_round(2, &c, full_round(1, true));
    let incoming = ShardedGossipWire::MissingOps(MissingOps { ops: vec![op(77)], finished: true });
    let out = bob.receive(&vec![1; 32], c.clone(), incoming, NOW);
    assert!(out.is_empty());
    assert_eq!(bob.current_rounds(), 1);
    assert_eq!(bob.held_op_count(), 3);
    let incoming = ShardedGossipWire::MissingOps(MissingOps { ops: vec![op(77)], finished: true });
    let out = bob.receive(&space(), c.clone(), incoming, NOW);
    assert!(out.is_empty());
    assert_eq!(bob.current_rounds(), 0);
    assert_eq!(bob.held_op_count(), 4);
}

#[test]
fn dropped_connection_closes_round_as_error() {
    let c = cert(9);
    let mut bob = player_with_round(2, &c, full_round(2, false));
    bob.peer_closed(c.clone(), NOW + 3);
    assert_eq!(bob.current_rounds(), 0);
    assert_eq!(bob.metrics().last_outcome(&c), Some(sharded_gossip::metrics::RoundOutcome::Error(NOW + 3)));
    // A peer we are not engaged with records nothing.
    bob.peer_closed(cert(8), NOW + 4);
    assert!(bob.metrics().last_outcome(&cert(8)).is_none());
}

#[test]
fn dropped_connection_ends_courting() {
    let mut alice = empty_player(1, 2);
    let (tgt, _) = alice.try_initiate(NOW).unwrap();
    alice.peer_closed(tgt.clone(), NOW + 1);
    assert!(alice.initiate_target().is_none());
    assert!(!alice.metrics().is_current_round(&tgt));
}
