//! Per-peer history of gossip rounds, used to choose whom to gossip with next.
use std::collections::VecDeque;
use vstd::prelude::*;
use crate::cert::{CertTable, PeerCert};

verus! {

/// How many instants each history keeps before it starts dropping the oldest.
pub const MAX_HISTORY: usize = 10;

/// How many rounds a force-initiate signal asks for.
pub const MAX_TRIGGERS: u8 = 2;

/// What is known about one remote peer, as plain sequences of instants (milliseconds).
pub struct NodeHistory {
    pub errors: Seq<u64>,
    pub initiates: Seq<u64>,
    pub remote_rounds: Seq<u64>,
    pub complete_rounds: Seq<u64>,
    pub current_round: bool,
}

/// The history of a peer that nothing has been recorded for.
pub open spec fn empty_history() -> NodeHistory {
    NodeHistory {
        errors: Seq::empty(),
        initiates: Seq::empty(),
        remote_rounds: Seq::empty(),
        complete_rounds: Seq::empty(),
        current_round: false,
    }
}

/// A history after recording `t`: the oldest entry goes first once more than
/// `MAX_HISTORY` are held, so a history never holds more than `MAX_HISTORY + 1`.
pub open spec fn pushed(s: Seq<u64>, t: u64) -> Seq<u64> {
    if s.len() > MAX_HISTORY {
        s.drop_first().push(t)
    } else {
        s.push(t)
    }
}

/// Every history of a peer is within its bound.
pub open spec fn history_bounded(h: NodeHistory) -> bool {
    &&& h.errors.len() <= MAX_HISTORY + 1
    &&& h.initiates.len() <= MAX_HISTORY + 1
    &&& h.remote_rounds.len() <= MAX_HISTORY + 1
    &&& h.complete_rounds.len() <= MAX_HISTORY + 1
}

/// Was the last round with this peer started by us? Decided by the latest
/// initiate against the latest remote round.
pub open spec fn initiated_last(h: NodeHistory) -> bool {
    if h.initiates.len() == 0 {
        false
    } else if h.remote_rounds.len() == 0 {
        true
    } else {
        h.initiates.last() > h.remote_rounds.last()
    }
}

/// Outcome of a gossip round, with the instant it was recorded.
#[derive(Clone, Copy, Debug, PartialEq, Eq)]
pub enum RoundOutcome {
    Success(u64),
    Error(u64),
}

/// The outcome of the latest round: the later of the last error and the last
/// success, the success when both share an instant.
pub open spec fn last_outcome_of(h: NodeHistory) -> Option<RoundOutcome> {
    if h.errors.len() == 0 && h.complete_rounds.len() == 0 {
        None
    } else if h.complete_rounds.len() == 0 {
        Some(RoundOutcome::Error(h.errors.last()))
    } else if h.errors.len() == 0 {
        Some(RoundOutcome::Success(h.complete_rounds.last()))
    } else if h.errors.last() > h.complete_rounds.last() {
        Some(RoundOutcome::Error(h.errors.last()))
    } else {
        Some(RoundOutcome::Success(h.complete_rounds.last()))
    }
}

/// A history after recording a round we initiated at `now`.
pub open spec fn after_initiate(h: NodeHistory, now: u64) -> NodeHistory {
    NodeHistory { initiates: pushed(h.initiates, now), current_round: true, ..h }
}

/// A history after recording a round the remote peer started at `now`.
pub open spec fn after_remote_round(h: NodeHistory, now: u64) -> NodeHistory {
    NodeHistory { remote_rounds: pushed(h.remote_rounds, now), current_round: true, ..h }
}

/// A history after recording a round that completed at `now`.
pub open spec fn after_success(h: NodeHistory, now: u64) -> NodeHistory {
    NodeHistory { complete_rounds: pushed(h.complete_rounds, now), current_round: false, ..h }
}

/// A history after recording a round that failed at `now`.
pub open spec fn after_error(h: NodeHistory, now: u64) -> NodeHistory {
    NodeHistory { errors: pushed(h.errors, now), current_round: false, ..h }
}

/// The force counter after a success with a peer of history `h`: one less,
/// saturating at zero, when we initiated the last round with that peer.
pub open spec fn force_after_success(h: NodeHistory, force: u8) -> u8 {
    if initiated_last(h) && force > 0 {
        (force - 1) as u8
    } else {
        force
    }
}

/// Information about a remote node.
pub struct NodeInfo {
    errors: VecDeque<u64>,
    initiates: VecDeque<u64>,
    remote_rounds: VecDeque<u64>,
    complete_rounds: VecDeque<u64>,
    current_round: bool,
}

impl View for NodeInfo {
    type V = NodeHistory;

    closed spec fn view(&self) -> NodeHistory {
        NodeHistory {
            errors: self.errors@,
            initiates: self.initiates@,
            remote_rounds: self.remote_rounds@,
            complete_rounds: self.complete_rounds@,
            current_round: self.current_round,
        }
    }
}

/// Appends `now` to a history, first dropping the oldest entry when the
/// history already holds more than `MAX_HISTORY`.
pub fn record_instant(buffer: &mut VecDeque<u64>, now: u64)
    ensures
        final(buffer)@ == pushed(old(buffer)@, now),
{
    if buffer.len() > MAX_HISTORY {
        buffer.pop_front();
    }
    buffer.push_back(now);
}

fn latest(buffer: &VecDeque<u64>) -> (r: Option<u64>)
    ensures
        r == (if buffer@.len() == 0 { None } else { Some(buffer@.last()) }),
{
    let n = buffer.len();
    if n == 0 {
        None
    } else {
        Some(buffer[n - 1])
    }
}

impl NodeInfo {
    pub fn new() -> (r: NodeInfo)
        ensures
            r@ == empty_history(),
    {
        let r = NodeInfo {
            errors: VecDeque::new(),
            initiates: VecDeque::new(),
            remote_rounds: VecDeque::new(),
            complete_rounds: VecDeque::new(),
            current_round: false,
        };
        proof {
            assert(r@.errors =~= Seq::<u64>::empty());
            assert(r@.initiates =~= Seq::<u64>::empty());
            assert(r@.remote_rounds =~= Seq::<u64>::empty());
            assert(r@.complete_rounds =~= Seq::<u64>::empty());
        }
        r
    }

    /// Was the last round for this node initiated by us?
    pub fn is_initiate_round(&self) -> (r: bool)
        ensures
            r == initiated_last(self@),
    {
        match (latest(&self.remote_rounds), latest(&self.initiates)) {
            (None, None) | (Some(_), None) => false,
            (None, Some(_)) => true,
            (Some(remote), Some(initiate)) => initiate > remote,
        }
    }
}

/// Metrics tracking for remote nodes to help choose which remote node to
/// initiate the next round with.
pub struct Metrics {
    map: CertTable<NodeInfo>,
    force_initiates: u8,
}

impl Metrics {
    /// The recorded history of each peer that has one.
    pub closed spec fn nodes(&self) -> Map<Seq<u8>, NodeHistory> {
        Map::new(|k: Seq<u8>| self.map@.contains_key(k), |k: Seq<u8>| self.map@[k]@)
    }

    /// The history of `key`, empty when nothing was recorded for it.
    pub open spec fn history(&self, key: Seq<u8>) -> NodeHistory {
        if self.nodes().contains_key(key) {
            self.nodes()[key]
        } else {
            empty_history()
        }
    }

    /// `after` is `self` with an initiate to `key` recorded at `now`.
    pub open spec fn recorded_initiate(&self, after: Metrics, key: Seq<u8>, now: u64) -> bool {
        &&& after.nodes() == self.nodes().insert(key, after_initiate(self.history(key), now))
        &&& after.force_count() == self.force_count()
    }

    /// `after` is `self` with a remote round of `key` recorded at `now`.
    pub open spec fn recorded_remote_round(&self, after: Metrics, key: Seq<u8>, now: u64) -> bool {
        &&& after.nodes() == self.nodes().insert(key, after_remote_round(self.history(key), now))
        &&& after.force_count() == self.force_count()
    }

    /// `after` is `self` with a success with `key` recorded at `now`.
    pub open spec fn recorded_success(&self, after: Metrics, key: Seq<u8>, now: u64) -> bool {
        &&& after.nodes() == self.nodes().insert(key, after_success(self.history(key), now))
        &&& after.force_count() == force_after_success(self.history(key), self.force_count())
    }

    /// `after` is `self` with an error with `key` recorded at `now`.
    pub open spec fn recorded_error(&self, after: Metrics, key: Seq<u8>, now: u64) -> bool {
        &&& after.nodes() == self.nodes().insert(key, after_error(self.history(key), now))
        &&& after.force_count() == self.force_count()
    }

    /// `after` holds what `self` holds.
    pub open spec fn same_as(&self, after: Metrics) -> bool {
        &&& after.nodes() == self.nodes()
        &&& after.force_count() == self.force_count()
    }

    /// How many more rounds are to be force-initiated.
    pub closed spec fn force_count(&self) -> u8 {
        self.force_initiates
    }

    /// The table is sound, the force counter is at most `MAX_TRIGGERS`, and
    /// every history is within its bound.
    pub open spec fn wf(&self) -> bool {
        &&& self.table_wf()
        &&& self.force_count() <= MAX_TRIGGERS
        &&& forall|k: Seq<u8>| #[trigger]
            self.nodes().contains_key(k) ==> history_bounded(self.nodes()[k])
    }

    pub closed spec fn table_wf(&self) -> bool {
        self.map.wf()
    }

    pub fn new() -> (r: Metrics)
        ensures
            r.wf(),
            r.nodes() == Map::<Seq<u8>, NodeHistory>::empty(),
            r.force_count() == 0,
    {
        let r = Metrics { map: CertTable::new(), force_initiates: 0 };
        proof {
            assert(r.nodes() =~= Map::<Seq<u8>, NodeHistory>::empty());
        }
        r
    }

    /// Takes the node's entry out of the table, or a fresh one.
    fn take_entry(&mut self, key: &PeerCert) -> (r: NodeInfo)
        requires
            old(self).wf(),
        ensures
            final(self).table_wf(),
            final(self).nodes() == old(self).nodes().remove(key@),
            final(self).force_count() == old(self).force_count(),
            r@ == old(self).history(key@),
    {
        let r = match self.map.remove(key) {
            Some(info) => info,
            None => NodeInfo::new(),
        };
        proof {
            assert(self.nodes() =~= old(self).nodes().remove(key@));
        }
        r
    }

    /// Puts the node's entry back.
    fn put_entry(&mut self, key: PeerCert, info: NodeInfo)
        requires
            old(self).table_wf(),
        ensures
            final(self).table_wf(),
            final(self).nodes() == old(self).nodes().insert(key@, info@),
            final(self).force_count() == old(self).force_count(),
    {
        self.map.insert(key, info);
        proof {
            assert(self.nodes() =~= old(self).nodes().insert(key@, info@));
        }
    }

    /// Record a gossip round has been initiated by us.
    pub fn record_initiate(&mut self, key: PeerCert, now: u64)
        requires
            old(self).wf(),
        ensures
            final(self).wf(),
            old(self).recorded_initiate(*final(self), key@, now),
    {
        let mut info = self.take_entry(&key);
        record_instant(&mut info.initiates, now);
        info.current_round = true;
        assert(info@ == after_initiate(old(self).history(key@), now));
        let ghost h = info@;
        self.put_entry(key, info);
        proof {
            assert(self.nodes() =~= old(self).nodes().insert(key@, h));
            self.lemma_bounded_after_put(old(self));
        }
    }

    /// Record a remote gossip round has started.
    pub fn record_remote_round(&mut self, key: PeerCert, now: u64)
        requires
            old(self).wf(),
        ensures
            final(self).wf(),
            old(self).recorded_remote_round(*final(self), key@, now),
    {
        let mut info = self.take_entry(&key);
        record_instant(&mut info.remote_rounds, now);
        info.current_round = true;
        assert(info@ == after_remote_round(old(self).history(key@), now));
        let ghost h = info@;
        self.put_entry(key, info);
        proof {
            assert(self.nodes() =~= old(self).nodes().insert(key@, h));
            self.lemma_bounded_after_put(old(self));
        }
    }

    /// Record a gossip round has completed successfully. When the last round
    /// with this node was initiated by us, one forced initiate is used up.
    pub fn record_success(&mut self, key: PeerCert, now: u64)
        requires
            old(self).wf(),
        ensures
            final(self).wf(),
            old(self).recorded_success(*final(self), key@, now),
    {
        let mut info = self.take_entry(&key);
        record_instant(&mut info.complete_rounds, now);
        info.current_round = false;
        let initiated = info.is_initiate_round();
        self.put_entry(key, info);
        if initiated {
            self.force_initiates = self.force_initiates.saturating_sub(1);
        }
        proof {
            assert(self.nodes() == old(self).nodes().insert(key@, info@));
            self.lemma_bounded_after_put(old(self));
        }
    }

    /// Record a gossip round has finished with an error.
    pub fn record_error(&mut self, key: PeerCert, now: u64)
        requires
            old(self).wf(),
        ensures
            final(self).wf(),
            old(self).recorded_error(*final(self), key@, now),
    {
        let mut info = self.take_entry(&key);
        record_instant(&mut info.errors, now);
        info.current_round = false;
        assert(info@ == after_error(old(self).history(key@), now));
        let ghost h = info@;
        self.put_entry(key, info);
        proof {
            assert(self.nodes() =~= old(self).nodes().insert(key@, h));
            self.lemma_bounded_after_put(old(self));
        }
    }

    /// The histories of all other nodes are as before, and each history of the
    /// changed node grew by at most one entry through `pushed`, so all stay bounded.
    proof fn lemma_bounded_after_put(&self, before: &Metrics)
        requires
            before.wf(),
            self.table_wf(),
            self.force_count() <= MAX_TRIGGERS,
            forall|k: Seq<u8>| #[trigger]
                self.nodes().contains_key(k) ==> before.nodes().contains_key(k) && self.nodes()[k]
                    == before.nodes()[k] || history_bounded(self.nodes()[k]),
        ensures
            self.wf(),
    {
    }

    /// Record that we should force initiate the next few rounds.
    pub fn record_force_initiate(&mut self)
        requires
            old(self).wf(),
        ensures
            final(self).wf(),
            final(self).nodes() == old(self).nodes(),
            final(self).force_count() == MAX_TRIGGERS,
    {
        self.force_initiates = MAX_TRIGGERS;
        proof {
            assert(self.nodes() =~= old(self).nodes());
        }
    }

    /// Get the last successful round time.
    pub fn last_success(&self, key: &PeerCert) -> (r: Option<u64>)
        requires
            self.wf(),
        ensures
            r == (if self.history(key@).complete_rounds.len() == 0 {
                None
            } else {
                Some(self.history(key@).complete_rounds.last())
            }),
    {
        match self.map.get(key) {
            Some(info) => latest(&info.complete_rounds),
            None => None,
        }
    }

    /// Is this node currently in an active round?
    pub fn is_current_round(&self, key: &PeerCert) -> (r: bool)
        requires
            self.wf(),
        ensures
            r == self.history(key@).current_round,
    {
        match self.map.get(key) {
            Some(info) => info.current_round,
            None => false,
        }
    }

    /// What was the last outcome for this node's gossip round?
    pub fn last_outcome(&self, key: &PeerCert) -> (r: Option<RoundOutcome>)
        requires
            self.wf(),
        ensures
            r == last_outcome_of(self.history(key@)),
    {
        match self.map.get(key) {
            Some(info) => match (latest(&info.errors), latest(&info.complete_rounds)) {
                (Some(error), Some(success)) => {
                    if error > success {
                        Some(RoundOutcome::Error(error))
                    } else {
                        Some(RoundOutcome::Success(success))
                    }
                },
                (Some(error), None) => Some(RoundOutcome::Error(error)),
                (None, Some(success)) => Some(RoundOutcome::Success(success)),
                (None, None) => None,
            },
            None => None,
        }
    }

    /// Should we force initiate the next round?
    pub fn forced_initiate(&self) -> (r: bool)
        ensures
            r == (self.force_count() > 0),
    {
        self.force_initiates > 0
    }
}

/// Recording an instant keeps a history within `MAX_HISTORY + 1` entries.
pub proof fn lemma_pushed_bounded(s: Seq<u64>, t: u64)
    requires
        s.len() <= MAX_HISTORY + 1,
    ensures
        pushed(s, t).len() <= MAX_HISTORY + 1,
        pushed(s, t).last() == t,
{
}

/// In well-formed metrics every history of every peer holds at most
/// `MAX_HISTORY + 1` instants, and the force counter is at most `MAX_TRIGGERS`.
pub proof fn lemma_metrics_bounded(m: Metrics, key: Seq<u8>)
    requires
        m.wf(),
    ensures
        history_bounded(m.history(key)),
        0 <= m.force_count() <= MAX_TRIGGERS,
{
    if m.nodes().contains_key(key) {
        assert(history_bounded(m.nodes()[key]));
    }
}

} // verus!
