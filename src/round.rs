//! The state of one gossip round and when it ends.
use vstd::prelude::*;
use crate::arc::{ArcSet, NUM_PARTS};
use crate::metrics::Metrics;

verus! {

/// The state of one round with one peer.
#[derive(Debug)]
pub struct RoundState {
    /// The locations both sides hold: what the round exchanges.
    pub common_arc_set: ArcSet,
    /// Op blooms we sent whose `MissingOps` answer has not finished yet.
    pub num_sent_ops_blooms: u8,
    /// Whether the remote has sent its last op bloom.
    pub received_all_incoming_ops_blooms: bool,
    /// When the round was entered, in milliseconds.
    pub created_at_ms: u64,
    /// How long the round may last before it is closed as an error.
    pub round_timeout_ms: u32,
}

/// A round is complete once no sent bloom awaits its answer and the remote
/// has sent all of its own.
pub open spec fn round_complete(s: RoundState) -> bool {
    s.num_sent_ops_blooms == 0 && s.received_all_incoming_ops_blooms
}

/// A round has expired once it has lasted longer than its timeout.
pub open spec fn round_expired(s: RoundState, now: u64) -> bool {
    now as int - s.created_at_ms as int > s.round_timeout_ms as int
}

/// A round just entered at `now` over the locations `common`, with one op
/// bloom sent for each part of the keyspace.
pub open spec fn fresh_round(s: RoundState, common: Set<u32>, now: u64, timeout: u32) -> bool {
    &&& s.common_arc_set@ == common
    &&& s.num_sent_ops_blooms == NUM_PARTS
    &&& !s.received_all_incoming_ops_blooms
    &&& s.created_at_ms == now
    &&& s.round_timeout_ms == timeout
}

/// The round table after a message changed the round of `peer` to `s`: the
/// round leaves the table once complete or expired.
pub open spec fn settle(
    rounds: Map<Seq<u8>, RoundState>,
    peer: Seq<u8>,
    s: RoundState,
    now: u64,
) -> Map<Seq<u8>, RoundState> {
    if round_complete(s) || round_expired(s, now) {
        rounds.remove(peer)
    } else {
        rounds.insert(peer, s)
    }
}

/// What the metrics record when a round settles: a success once complete, an
/// error once expired, nothing otherwise.
pub open spec fn settled(before: Metrics, after: Metrics, peer: Seq<u8>, s: RoundState, now: u64) -> bool {
    if round_complete(s) {
        before.recorded_success(after, peer, now)
    } else if round_expired(s, now) {
        before.recorded_error(after, peer, now)
    } else {
        before.same_as(after)
    }
}

/// The round table without the rounds that have expired at `now`.
pub open spec fn unexpired(rounds: Map<Seq<u8>, RoundState>, now: u64) -> Map<Seq<u8>, RoundState> {
    Map::new(
        |k: Seq<u8>| rounds.contains_key(k) && !round_expired(rounds[k], now),
        |k: Seq<u8>| rounds[k],
    )
}

} // verus!
