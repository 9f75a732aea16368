//! The two-party gossip round: the round table, the state machine that
//! answers each wire message, and the choice of whom to gossip with next.
use vstd::prelude::*;
use crate::arc::{part_set, ArcInterval, ArcSet, NUM_PARTS};
use crate::bloom::{bloom_bits, Bloom};
use crate::cert::{bytes_equal, lex_lt, CertTable, PeerCert};
use crate::metrics::{last_outcome_of, Metrics, RoundOutcome};
use crate::round::{fresh_round, round_complete, round_expired, settle, settled, unexpired, RoundState};
use crate::types::{
    agent_views, agents_missing, agents_within, hashes_of, ingest_agents, ingest_ops, loc_of,
    op_views, ops_missing, ops_within, signatures_of, Agent, AgentInfoSigned, StoredOp,
};
use crate::types::{holds_hash, holds_signature};
use crate::wire::{
    agents_bloom_for, ops_blooms_for, Accept, Agents, Initiate, MissingAgents, MissingOps, Ops,
    ShardedGossipWire,
};

verus! {

/// How long after a failed round a peer is passed over, unless initiates are forced.
pub const ERROR_COOLDOWN_MS: u64 = 60_000;

/// What a round exchanges: recent gossip also syncs agent infos, historical
/// gossip only ops.
#[derive(Clone, Copy, Debug, PartialEq, Eq, Structural)]
pub enum GossipType {
    Recent,
    Historical,
}

/// The peer we sent an `Initiate` to and await an `Accept` from.
#[derive(Debug)]
struct InitiateTarget {
    cert: PeerCert,
    sent_at_ms: u64,
}

/// One node's side of sharded gossip: its agents and data, its rounds, and
/// its metrics about remote peers.
pub struct ShardedGossip {
    space: Vec<u8>,
    cert: PeerCert,
    gossip_type: GossipType,
    round_timeout_ms: u32,
    local_agents: Vec<AgentInfoSigned>,
    local_arc_set: ArcSet,
    round_map: CertTable<RoundState>,
    initiate_tgt: Option<InitiateTarget>,
    metrics: Metrics,
    ops: Vec<StoredOp>,
    agent_infos: Vec<AgentInfoSigned>,
}

/// The locations the agents of a list hold.
pub open spec fn arcs_of(agents: Seq<AgentInfoSigned>) -> Set<u32> {
    Set::new(
        |loc: u32|
            exists|i: int|
                0 <= i < agents.len() && #[trigger] agents[i].storage_arc.locations().contains(loc),
    )
}

impl ShardedGossip {
    /// The space this node gossips in.
    pub closed spec fn space(&self) -> Seq<u8> {
        self.space@
    }

    /// Our own transport identity.
    pub closed spec fn local_cert(&self) -> Seq<u8> {
        self.cert@
    }

    pub closed spec fn kind(&self) -> GossipType {
        self.gossip_type
    }

    pub closed spec fn timeout(&self) -> u32 {
        self.round_timeout_ms
    }

    /// The agents this node hosts.
    pub closed spec fn local_agent_infos(&self) -> Seq<(Seq<u8>, ArcInterval, Seq<u8>, Seq<u8>)> {
        agent_views(self.local_agents@)
    }

    /// The union of the arcs of the agents this node hosts.
    pub closed spec fn local_arcs(&self) -> Set<u32> {
        self.local_arc_set@
    }

    /// The round of each peer we are in a round with.
    pub closed spec fn rounds(&self) -> Map<Seq<u8>, RoundState> {
        self.round_map@
    }

    /// The peer we are courting, if any.
    pub closed spec fn target(&self) -> Option<Seq<u8>> {
        match self.initiate_tgt {
            Some(t) => Some(t.cert@),
            None => None,
        }
    }

    pub closed spec fn metrics_state(&self) -> Metrics {
        self.metrics
    }

    /// The ops this node holds.
    pub closed spec fn held_ops(&self) -> Seq<(Seq<u8>, Seq<u8>)> {
        op_views(self.ops@)
    }

    /// The agent infos this node knows, its own and its peers'.
    pub closed spec fn known_agents(&self) -> Seq<(Seq<u8>, ArcInterval, Seq<u8>, Seq<u8>)> {
        agent_views(self.agent_infos@)
    }

    pub closed spec fn inner_wf(&self) -> bool {
        &&& self.round_map.wf()
        &&& self.local_arc_set@ == arcs_of(self.local_agents@)
    }

    /// The node's invariants: at most one round per peer (the table is a map),
    /// the peer we court is not in a round with us, no complete round stays in
    /// the table, and the metrics are within their bounds.
    pub open spec fn wf(&self) -> bool {
        &&& self.inner_wf()
        &&& self.metrics_state().wf()
        &&& self.target_not_in_round()
        &&& forall|k: Seq<u8>| #[trigger]
            self.rounds().contains_key(k) ==> !round_complete(self.rounds()[k])
    }

    /// The peer we court, if any, is not in a round with us.
    pub open spec fn target_not_in_round(&self) -> bool {
        match self.target() {
            Some(c) => !self.rounds().contains_key(c),
            None => true,
        }
    }

    /// What a message never changes: who we are and what we host.
    pub open spec fn same_node(&self, after: ShardedGossip) -> bool {
        &&& after.space() == self.space()
        &&& after.local_cert() == self.local_cert()
        &&& after.kind() == self.kind()
        &&& after.timeout() == self.timeout()
        &&& after.local_agent_infos() == self.local_agent_infos()
        &&& after.local_arcs() == self.local_arcs()
    }

    /// A node with the given identity and agents, holding no data and no rounds.
    pub fn new(
        space: Vec<u8>,
        cert: PeerCert,
        gossip_type: GossipType,
        round_timeout_ms: u32,
        local_agents: Vec<AgentInfoSigned>,
    ) -> (r: ShardedGossip)
        requires
            forall|i: int| 0 <= i < local_agents@.len() ==> (#[trigger] local_agents@[i]).storage_arc.valid(),
        ensures
            r.wf(),
            r.space() == space@,
            r.local_cert() == cert@,
            r.kind() == gossip_type,
            r.timeout() == round_timeout_ms,
            r.local_agent_infos() == agent_views(local_agents@),
            r.local_arcs() == arcs_of(local_agents@),
            r.rounds() == Map::<Seq<u8>, RoundState>::empty(),
            r.target() == None::<Seq<u8>>,
            r.metrics_state().nodes() == Map::<Seq<u8>, crate::metrics::NodeHistory>::empty(),
            r.metrics_state().force_count() == 0,
            r.held_ops() == Seq::<(Seq<u8>, Seq<u8>)>::empty(),
            r.known_agents() == Seq::<(Seq<u8>, ArcInterval, Seq<u8>, Seq<u8>)>::empty(),
    {
        let local_arc_set = union_of_arcs(&local_agents);
        let r = ShardedGossip {
            space,
            cert,
            gossip_type,
            round_timeout_ms,
            local_agents,
            local_arc_set,
            round_map: CertTable::new(),
            initiate_tgt: None,
            metrics: Metrics::new(),
            ops: Vec::new(),
            agent_infos: Vec::new(),
        };
        proof {
            assert(r.held_ops() =~= Seq::<(Seq<u8>, Seq<u8>)>::empty());
            assert(r.known_agents() =~= Seq::<(Seq<u8>, ArcInterval, Seq<u8>, Seq<u8>)>::empty());
        }
        r
    }
}

/// The union of the arcs of a list of agents.
fn union_of_arcs(agents: &Vec<AgentInfoSigned>) -> (r: ArcSet)
    requires
        forall|i: int| 0 <= i < agents@.len() ==> (#[trigger] agents@[i]).storage_arc.valid(),
    ensures
        r@ == arcs_of(agents@),
{
    let mut acc = ArcSet::new();
    let mut i: usize = 0;
    while i < agents.len()
        invariant
            0 <= i <= agents@.len(),
            forall|j: int| 0 <= j < agents@.len() ==> (#[trigger] agents@[j]).storage_arc.valid(),
            acc@ == Set::new(
                |loc: u32|
                    exists|j: int|
                        0 <= j < i && #[trigger] agents@[j].storage_arc.locations().contains(loc),
            ),
        decreases agents@.len() - i,
    {
        let one = ArcSet::from_interval(&agents[i].storage_arc);
        let ghost before = acc@;
        acc = acc.union(&one);
        proof {
            assert forall|loc: u32|
                acc@.contains(loc) == exists|j: int|
                    0 <= j < i + 1 && #[trigger] agents@[j].storage_arc.locations().contains(loc) by {
                if agents@[i as int].storage_arc.locations().contains(loc) {
                    assert(0 <= i < i + 1);
                }
                if exists|j: int|
                    0 <= j < i + 1 && #[trigger] agents@[j].storage_arc.locations().contains(loc) {
                    let j = choose|j: int|
                        0 <= j < i + 1 && #[trigger] agents@[j].storage_arc.locations().contains(loc);
                    if j < i {
                        assert(before.contains(loc));
                    }
                }
            }
            assert(acc@ =~= Set::new(
                |loc: u32|
                    exists|j: int|
                        0 <= j < i + 1 && #[trigger] agents@[j].storage_arc.locations().contains(loc),
            ));
        }
        i = i + 1;
    }
    proof {
        assert(acc@ =~= arcs_of(agents@));
    }
    acc
}


/// Whether an op of `ops` has the hash `hash`.
fn has_op(ops: &Vec<StoredOp>, hash: &Vec<u8>) -> (r: bool)
    ensures
        r == holds_hash(op_views(ops@), hash@),
{
    let mut i: usize = 0;
    while i < ops.len()
        invariant
            0 <= i <= ops@.len(),
            forall|j: int| 0 <= j < i ==> (#[trigger] op_views(ops@)[j]).0 != hash@,
        decreases ops@.len() - i,
    {
        if bytes_equal(&ops[i].hash, hash) {
            assert(op_views(ops@)[i as int].0 == hash@);
            return true;
        }
        i = i + 1;
    }
    false
}

/// Whether an agent info of `infos` has the signature `sig`.
fn has_signature(infos: &Vec<AgentInfoSigned>, sig: &Vec<u8>) -> (r: bool)
    ensures
        r == holds_signature(agent_views(infos@), sig@),
{
    let mut i: usize = 0;
    while i < infos.len()
        invariant
            0 <= i <= infos@.len(),
            forall|j: int| 0 <= j < i ==> (#[trigger] agent_views(infos@)[j]).3 != sig@,
        decreases infos@.len() - i,
    {
        if bytes_equal(&infos[i].signature, sig) {
            assert(agent_views(infos@)[i as int].3 == sig@);
            return true;
        }
        i = i + 1;
    }
    false
}

impl ShardedGossip {
    /// The hashes of the ops we hold in `set`.
    fn hashes_within(&self, set: &ArcSet) -> (r: Vec<Vec<u8>>)
        ensures
            crate::bloom::key_views(r@) == hashes_of(ops_within(self.held_ops(), set@)),
    {
        let ghost held = self.held_ops();
        let mut out: Vec<Vec<u8>> = Vec::new();
        let mut i: usize = 0;
        proof {
            assert(crate::bloom::key_views(out@) =~= hashes_of(ops_within(held.take(0), set@)));
        }
        while i < self.ops.len()
            invariant
                held == self.held_ops(),
                0 <= i <= self.ops@.len(),
                crate::bloom::key_views(out@) == hashes_of(ops_within(held.take(i as int), set@)),
            decreases self.ops@.len() - i,
        {
            proof {
                assert(held.take(i + 1).drop_last() =~= held.take(i as int));
                assert(held.take(i + 1).last() == self.ops@[i as int]@);
            }
            let loc = loc_of(&self.ops[i].hash);
            if set.contains(loc) {
                let h = self.ops[i].hash.clone();
                proof {
                    assert(h@ =~= self.ops@[i as int].hash@);
                }
                let ghost before = out@;
                out.push(h);
                proof {
                    assert(crate::bloom::key_views(out@) =~= crate::bloom::key_views(before).push(h@));
                    assert(hashes_of(ops_within(held.take(i + 1), set@)) =~= hashes_of(
                        ops_within(held.take(i as int), set@),
                    ).push(h@));
                }
            }
            i = i + 1;
        }
        proof {
            assert(held.take(i as int) =~= held);
        }
        out
    }

    /// The ops we hold in `set` whose hash `filter` surely does not hold.
    fn missing_ops(&self, set: &ArcSet, filter: &Bloom) -> (r: Vec<StoredOp>)
        ensures
            op_views(r@) == ops_missing(self.held_ops(), set@, filter@),
    {
        let ghost held = self.held_ops();
        let mut out: Vec<StoredOp> = Vec::new();
        let mut i: usize = 0;
        proof {
            assert(op_views(out@) =~= ops_missing(held.take(0), set@, filter@));
        }
        while i < self.ops.len()
            invariant
                held == self.held_ops(),
                0 <= i <= self.ops@.len(),
                op_views(out@) == ops_missing(held.take(i as int), set@, filter@),
            decreases self.ops@.len() - i,
        {
            proof {
                assert(held.take(i + 1).drop_last() =~= held.take(i as int));
                assert(held.take(i + 1).last() == self.ops@[i as int]@);
            }
            let loc = loc_of(&self.ops[i].hash);
            if set.contains(loc) && !filter.may_contain(&self.ops[i].hash) {
                let o = self.ops[i].duplicate();
                let ghost before = out@;
                out.push(o);
                proof {
                    assert(op_views(out@) =~= op_views(before).push(o@));
                }
            }
            i = i + 1;
        }
        proof {
            assert(held.take(i as int) =~= held);
        }
        out
    }

    /// The signatures of the agent infos we know in `set`.
    fn signatures_within(&self, set: &ArcSet) -> (r: Vec<Vec<u8>>)
        ensures
            crate::bloom::key_views(r@) == signatures_of(agents_within(self.known_agents(), set@)),
    {
        let ghost known = self.known_agents();
        let mut out: Vec<Vec<u8>> = Vec::new();
        let mut i: usize = 0;
        proof {
            assert(crate::bloom::key_views(out@) =~= signatures_of(
                agents_within(known.take(0), set@),
            ));
        }
        while i < self.agent_infos.len()
            invariant
                known == self.known_agents(),
                0 <= i <= self.agent_infos@.len(),
                crate::bloom::key_views(out@) == signatures_of(
                    agents_within(known.take(i as int), set@),
                ),
            decreases self.agent_infos@.len() - i,
        {
            proof {
                assert(known.take(i + 1).drop_last() =~= known.take(i as int));
                assert(known.take(i + 1).last() == self.agent_infos@[i as int]@);
            }
            if set.contains(self.agent_infos[i].storage_arc.start) {
                let h = self.agent_infos[i].signature.clone();
                proof {
                    assert(h@ =~= self.agent_infos@[i as int].signature@);
                }
                let ghost before = out@;
                out.push(h);
                proof {
                    assert(crate::bloom::key_views(out@) =~= crate::bloom::key_views(before).push(h@));
                    assert(signatures_of(agents_within(known.take(i + 1), set@)) =~= signatures_of(
                        agents_within(known.take(i as int), set@),
                    ).push(h@));
                }
            }
            i = i + 1;
        }
        proof {
            assert(known.take(i as int) =~= known);
        }
        out
    }

    /// The agent infos we know in `set` whose signature `filter` surely does not hold.
    fn missing_agents(&self, set: &ArcSet, filter: &Bloom) -> (r: Vec<AgentInfoSigned>)
        ensures
            agent_views(r@) == agents_missing(self.known_agents(), set@, filter@),
    {
        let ghost known = self.known_agents();
        let mut out: Vec<AgentInfoSigned> = Vec::new();
        let mut i: usize = 0;
        proof {
            assert(agent_views(out@) =~= agents_missing(known.take(0), set@, filter@));
        }
        while i < self.agent_infos.len()
            invariant
                known == self.known_agents(),
                0 <= i <= self.agent_infos@.len(),
                agent_views(out@) == agents_missing(known.take(i as int), set@, filter@),
            decreases self.agent_infos@.len() - i,
        {
            proof {
                assert(known.take(i + 1).drop_last() =~= known.take(i as int));
                assert(known.take(i + 1).last() == self.agent_infos@[i as int]@);
            }
            if set.contains(self.agent_infos[i].storage_arc.start) && !filter.may_contain(
                &self.agent_infos[i].signature,
            ) {
                let a = self.agent_infos[i].duplicate();
                let ghost before = out@;
                out.push(a);
                proof {
                    assert(agent_views(out@) =~= agent_views(before).push(a@));
                }
            }
            i = i + 1;
        }
        proof {
            assert(known.take(i as int) =~= known);
        }
        out
    }
}


impl ShardedGossip {
    /// One `Ops` filter per part of the keyspace over `common`, the last one finished.
    fn ops_blooms(&self, common: &ArcSet) -> (r: Vec<ShardedGossipWire>)
        ensures
            ops_blooms_for(r@, common@, self.held_ops()),
    {
        let mut out: Vec<ShardedGossipWire> = Vec::new();
        let mut p: u64 = 0;
        while p < NUM_PARTS
            invariant
                p <= NUM_PARTS,
                out@.len() == p,
                forall|q: int|
                    0 <= q < p ==> match #[trigger] out@[q] {
                        ShardedGossipWire::Ops(m) => {
                            &&& m.arc_set@ == common@.intersect(part_set(q))
                            &&& m.finished == (q == NUM_PARTS - 1)
                            &&& m.missing_hashes@ == bloom_bits(
                                hashes_of(ops_within(self.held_ops(), m.arc_set@)),
                            )
                        },
                        _ => false,
                    },
            decreases NUM_PARTS - p,
        {
            let part = ArcSet::keyspace_part(p);
            let region = common.intersection(&part);
            proof {
                assert(part@ =~= part_set(p as int));
            }
            let keys = self.hashes_within(&region);
            let filter = Bloom::from_keys(&keys);
            out.push(ShardedGossipWire::Ops(Ops {
                arc_set: region,
                missing_hashes: filter,
                finished: p == NUM_PARTS - 1,
            }));
            p = p + 1;
        }
        out
    }

    /// The `Agents` filter of every signature we know in `common`.
    fn agents_bloom(&self, common: &ArcSet) -> (r: ShardedGossipWire)
        ensures
            agents_bloom_for(r, common@, self.known_agents()),
    {
        let keys = self.signatures_within(common);
        let filter = Bloom::from_keys(&keys);
        ShardedGossipWire::Agents(Agents { filter })
    }

    /// Takes in ops: each one whose hash we do not hold yet is appended.
    pub fn add_ops(&mut self, incoming: Vec<StoredOp>)
        requires
            old(self).wf(),
        ensures
            final(self).wf(),
            final(self).same_node(*old(self)),
            final(self).rounds() == old(self).rounds(),
            final(self).target() == old(self).target(),
            final(self).metrics_state() == old(self).metrics_state(),
            final(self).known_agents() == old(self).known_agents(),
            final(self).held_ops() == ingest_ops(old(self).held_ops(), op_views(incoming@)),
    {
        let ghost inc = op_views(incoming@);
        let mut i: usize = 0;
        proof {
            assert(inc.take(0) =~= Seq::<(Seq<u8>, Seq<u8>)>::empty());
        }
        while i < incoming.len()
            invariant
                self.wf(),
                self.same_node(*old(self)),
                self.rounds() == old(self).rounds(),
                self.target() == old(self).target(),
                self.metrics_state() == old(self).metrics_state(),
                self.known_agents() == old(self).known_agents(),
                inc == op_views(incoming@),
                0 <= i <= incoming@.len(),
                self.held_ops() == ingest_ops(old(self).held_ops(), inc.take(i as int)),
            decreases incoming@.len() - i,
        {
            proof {
                assert(inc.take(i + 1).drop_last() =~= inc.take(i as int));
                assert(inc.take(i + 1).last() == incoming@[i as int]@);
            }
            if !has_op(&self.ops, &incoming[i].hash) {
                let o = incoming[i].duplicate();
                let ghost before = self.ops@;
                self.ops.push(o);
                proof {
                    assert(op_views(self.ops@) =~= op_views(before).push(o@));
                }
            }
            i = i + 1;
        }
        proof {
            assert(inc.take(i as int) =~= inc);
        }
    }

    /// Takes in agent infos: each one whose signature we do not know yet is appended.
    pub fn add_agent_infos(&mut self, incoming: Vec<AgentInfoSigned>)
        requires
            old(self).wf(),
        ensures
            final(self).wf(),
            final(self).same_node(*old(self)),
            final(self).rounds() == old(self).rounds(),
            final(self).target() == old(self).target(),
            final(self).metrics_state() == old(self).metrics_state(),
            final(self).held_ops() == old(self).held_ops(),
            final(self).known_agents() == ingest_agents(
                old(self).known_agents(),
                agent_views(incoming@),
            ),
    {
        let ghost inc = agent_views(incoming@);
        let mut i: usize = 0;
        proof {
            assert(inc.take(0) =~= Seq::<(Seq<u8>, ArcInterval, Seq<u8>, Seq<u8>)>::empty());
        }
        while i < incoming.len()
            invariant
                self.wf(),
                self.same_node(*old(self)),
                self.rounds() == old(self).rounds(),
                self.target() == old(self).target(),
                self.metrics_state() == old(self).metrics_state(),
                self.held_ops() == old(self).held_ops(),
                inc == agent_views(incoming@),
                0 <= i <= incoming@.len(),
                self.known_agents() == ingest_agents(old(self).known_agents(), inc.take(i as int)),
            decreases incoming@.len() - i,
        {
            proof {
                assert(inc.take(i + 1).drop_last() =~= inc.take(i as int));
                assert(inc.take(i + 1).last() == incoming@[i as int]@);
            }
            if !has_signature(&self.agent_infos, &incoming[i].signature) {
                let a = incoming[i].duplicate();
                let ghost before = self.agent_infos@;
                self.agent_infos.push(a);
                proof {
                    assert(agent_views(self.agent_infos@) =~= agent_views(before).push(a@));
                }
            }
            i = i + 1;
        }
        proof {
            assert(inc.take(i as int) =~= inc);
        }
    }
}


/// The agent keys of a list of agent infos.
pub open spec fn agent_keys_of(infos: Seq<(Seq<u8>, ArcInterval, Seq<u8>, Seq<u8>)>) -> Seq<Seq<u8>> {
    infos.map_values(|a: (Seq<u8>, ArcInterval, Seq<u8>, Seq<u8>)| a.0)
}

impl ShardedGossip {
    /// A message that changes nothing and gets no answer.
    pub open spec fn ignored(&self, after: ShardedGossip, out: Seq<ShardedGossipWire>) -> bool {
        &&& out.len() == 0
        &&& after.rounds() == self.rounds()
        &&& after.target() == self.target()
        &&& self.metrics_state().same_as(after.metrics_state())
        &&& after.held_ops() == self.held_ops()
        &&& after.known_agents() == self.known_agents()
    }

    /// A message that breaks the protocol: no answer, the round with `peer`
    /// (if any) is closed, and an error with `peer` is recorded.
    pub open spec fn protocol_error(
        &self,
        after: ShardedGossip,
        peer: Seq<u8>,
        now: u64,
        out: Seq<ShardedGossipWire>,
    ) -> bool {
        &&& out.len() == 0
        &&& after.rounds() == self.rounds().remove(peer)
        &&& after.target() == self.target()
        &&& self.metrics_state().recorded_error(after.metrics_state(), peer, now)
        &&& after.held_ops() == self.held_ops()
        &&& after.known_agents() == self.known_agents()
    }

    /// Entering a round with `peer` over `common` at `now`: a fresh round in
    /// the table, and out go the agents filter (recent gossip only) and one
    /// ops filter per part.
    pub open spec fn entered(
        &self,
        after: ShardedGossip,
        peer: Seq<u8>,
        common: Set<u32>,
        now: u64,
        out: Seq<ShardedGossipWire>,
    ) -> bool {
        let n: int = if self.kind() == GossipType::Recent { 1 } else { 0 };
        &&& after.rounds().contains_key(peer)
        &&& fresh_round(after.rounds()[peer], common, now, self.timeout())
        &&& after.rounds().remove(peer) == self.rounds().remove(peer)
        &&& after.held_ops() == self.held_ops()
        &&& after.known_agents() == self.known_agents()
        &&& out.len() == n + NUM_PARTS
        &&& (n == 1 ==> agents_bloom_for(out[0], common, self.known_agents()))
        &&& ops_blooms_for(out.skip(n), common, self.held_ops())
    }

    /// The answer to a round message once the round of `peer` has become `s`.
    pub open spec fn round_step(&self, after: ShardedGossip, peer: Seq<u8>, s: RoundState, now: u64) -> bool {
        &&& after.rounds() == settle(self.rounds(), peer, s, now)
        &&& after.target() == self.target()
        &&& settled(self.metrics_state(), after.metrics_state(), peer, s, now)
    }

    /// `Initiate` from `peer` offering the locations `remote`. Ignored when a
    /// round with `peer` exists, or when we court `peer` ourselves and our
    /// certificate comes first. Otherwise we answer `Accept` with our own
    /// locations and agents, enter the round, stop courting `peer`, and record
    /// a remote round.
    pub open spec fn initiate_step(
        &self,
        after: ShardedGossip,
        peer: Seq<u8>,
        remote: Set<u32>,
        now: u64,
        out: Seq<ShardedGossipWire>,
    ) -> bool {
        if self.rounds().contains_key(peer) || (self.target() == Some(peer) && lex_lt(
            self.local_cert(),
            peer,
        )) {
            self.ignored(after, out)
        } else {
            &&& out.len() >= 1
            &&& match out[0] {
                ShardedGossipWire::Accept(a) => {
                    &&& a.intended_arc_set@ == self.local_arcs()
                    &&& crate::bloom::key_views(a.agent_list@) == agent_keys_of(
                        self.local_agent_infos(),
                    )
                },
                _ => false,
            }
            &&& self.entered(after, peer, self.local_arcs().intersect(remote), now, out.skip(1))
            &&& after.target() == (if self.target() == Some(peer) {
                None
            } else {
                self.target()
            })
            &&& self.metrics_state().recorded_remote_round(after.metrics_state(), peer, now)
        }
    }

    /// `Accept` from `peer` offering the locations `remote`: when we court
    /// `peer`, we enter the round and stop courting; otherwise it breaks the protocol.
    pub open spec fn accept_step(
        &self,
        after: ShardedGossip,
        peer: Seq<u8>,
        remote: Set<u32>,
        now: u64,
        out: Seq<ShardedGossipWire>,
    ) -> bool {
        if self.target() == Some(peer) {
            &&& self.entered(after, peer, self.local_arcs().intersect(remote), now, out)
            &&& after.target() == None::<Seq<u8>>
            &&& self.metrics_state().same_as(after.metrics_state())
        } else {
            self.protocol_error(after, peer, now, out)
        }
    }
}

impl ShardedGossip {
    /// The keys of the agents we host.
    fn local_agent_keys(&self) -> (r: Vec<Agent>)
        ensures
            crate::bloom::key_views(r@) == agent_keys_of(self.local_agent_infos()),
    {
        let mut out: Vec<Agent> = Vec::new();
        let mut i: usize = 0;
        while i < self.local_agents.len()
            invariant
                0 <= i <= self.local_agents@.len(),
                crate::bloom::key_views(out@) == agent_keys_of(self.local_agent_infos()).take(i as int),
            decreases self.local_agents@.len() - i,
        {
            let k = self.local_agents[i].agent.clone();
            proof {
                assert(k@ =~= self.local_agents@[i as int].agent@);
            }
            let ghost before = out@;
            out.push(k);
            proof {
                assert(crate::bloom::key_views(out@) =~= crate::bloom::key_views(before).push(k@));
                assert(agent_keys_of(self.local_agent_infos()).take(i + 1) =~= agent_keys_of(
                    self.local_agent_infos(),
                ).take(i as int).push(k@));
            }
            i = i + 1;
        }
        proof {
            assert(agent_keys_of(self.local_agent_infos()).take(i as int) =~= agent_keys_of(
                self.local_agent_infos(),
            ));
        }
        out
    }

    /// Enters a fresh round with `peer` over `common` and returns the filters
    /// to send.
    fn enter_round(&mut self, peer: PeerCert, common: ArcSet, now: u64) -> (out: Vec<ShardedGossipWire>)
        requires
            old(self).wf(),
            old(self).target() != Some(peer@),
        ensures
            final(self).wf(),
            final(self).same_node(*old(self)),
            old(self).entered(*final(self), peer@, common@, now, out@),
            final(self).target() == old(self).target(),
            final(self).metrics_state() == old(self).metrics_state(),
    {
        let mut out: Vec<ShardedGossipWire> = Vec::new();
        let recent = match self.gossip_type {
            GossipType::Recent => true,
            GossipType::Historical => false,
        };
        if recent {
            out.push(self.agents_bloom(&common));
        }
        let blooms = self.ops_blooms(&common);
        let ghost first = out@;
        let mut blooms = blooms;
        out.append(&mut blooms);
        let ghost common_set = common@;
        let round = RoundState {
            common_arc_set: common,
            num_sent_ops_blooms: NUM_PARTS as u8,
            received_all_incoming_ops_blooms: false,
            created_at_ms: now,
            round_timeout_ms: self.round_timeout_ms,
        };
        let ghost key = peer@;
        self.round_map.insert(peer, round);
        proof {
            let n: int = if recent { 1 } else { 0 };
            assert(out@.skip(n) =~= out@.subrange(n, out@.len() as int));
            assert(out@.skip(n).len() == NUM_PARTS);
            assert forall|p: int| 0 <= p < NUM_PARTS implies #[trigger] out@.skip(n)[p] == out@[n + p] by {}
            assert(self.rounds().remove(key) =~= old(self).rounds().remove(key));
            assert forall|k: Seq<u8>| #[trigger]
                self.rounds().contains_key(k) implies !round_complete(self.rounds()[k]) by {
                if k != key {
                    assert(old(self).rounds().contains_key(k));
                }
            }
        }
        out
    }
}


impl ShardedGossip {
    /// `Agents` from `peer` with filter `bits`: we answer with the agent infos
    /// we know in the round's common arc set that the filter lacks.
    pub open spec fn agents_step(
        &self,
        after: ShardedGossip,
        peer: Seq<u8>,
        bits: Seq<bool>,
        now: u64,
        out: Seq<ShardedGossipWire>,
    ) -> bool {
        if !self.rounds().contains_key(peer) {
            self.protocol_error(after, peer, now, out)
        } else {
            let s = self.rounds()[peer];
            &&& self.round_step(after, peer, s, now)
            &&& after.held_ops() == self.held_ops()
            &&& after.known_agents() == self.known_agents()
            &&& out.len() == 1
            &&& match out[0] {
                ShardedGossipWire::MissingAgents(m) => agent_views(m.agents@) == agents_missing(
                    self.known_agents(),
                    s.common_arc_set@,
                    bits,
                ),
                _ => false,
            }
        }
    }

    /// `MissingAgents` from `peer`: we take in the agent infos, with no answer.
    pub open spec fn missing_agents_step(
        &self,
        after: ShardedGossip,
        peer: Seq<u8>,
        incoming: Seq<(Seq<u8>, ArcInterval, Seq<u8>, Seq<u8>)>,
        now: u64,
        out: Seq<ShardedGossipWire>,
    ) -> bool {
        if !self.rounds().contains_key(peer) {
            self.protocol_error(after, peer, now, out)
        } else {
            &&& self.round_step(after, peer, self.rounds()[peer], now)
            &&& after.held_ops() == self.held_ops()
            &&& after.known_agents() == ingest_agents(self.known_agents(), incoming)
            &&& out.len() == 0
        }
    }

    /// `Ops` from `peer` with filter `bits` over `region`: we answer with one
    /// finished `MissingOps` holding the ops we hold in the common arc set and
    /// `region` that the filter lacks (none at all is still an answer), and a
    /// finished filter marks all of the remote's filters received.
    pub open spec fn ops_step(
        &self,
        after: ShardedGossip,
        peer: Seq<u8>,
        region: Set<u32>,
        bits: Seq<bool>,
        finished: bool,
        now: u64,
        out: Seq<ShardedGossipWire>,
    ) -> bool {
        if !self.rounds().contains_key(peer) {
            self.protocol_error(after, peer, now, out)
        } else {
            let s = self.rounds()[peer];
            &&& self.round_step(
                after,
                peer,
                RoundState {
                    received_all_incoming_ops_blooms: s.received_all_incoming_ops_blooms
                        || finished,
                    ..s
                },
                now,
            )
            &&& after.held_ops() == self.held_ops()
            &&& after.known_agents() == self.known_agents()
            &&& out.len() == 1
            &&& match out[0] {
                ShardedGossipWire::MissingOps(m) => {
                    &&& m.finished
                    &&& op_views(m.ops@) == ops_missing(
                        self.held_ops(),
                        s.common_arc_set@.intersect(region),
                        bits,
                    )
                },
                _ => false,
            }
        }
    }

    /// `MissingOps` from `peer`: we take in the ops, with no answer; a
    /// finished batch answers one of our filters, and one more finished batch
    /// than filters sent breaks the protocol.
    pub open spec fn missing_ops_step(
        &self,
        after: ShardedGossip,
        peer: Seq<u8>,
        incoming: Seq<(Seq<u8>, Seq<u8>)>,
        finished: bool,
        now: u64,
        out: Seq<ShardedGossipWire>,
    ) -> bool {
        if !self.rounds().contains_key(peer) {
            self.protocol_error(after, peer, now, out)
        } else {
            let s = self.rounds()[peer];
            &&& out.len() == 0
            &&& after.held_ops() == ingest_ops(self.held_ops(), incoming)
            &&& after.known_agents() == self.known_agents()
            &&& if finished && s.num_sent_ops_blooms == 0 {
                &&& after.rounds() == self.rounds().remove(peer)
                &&& after.target() == self.target()
                &&& self.metrics_state().recorded_error(after.metrics_state(), peer, now)
            } else {
                self.round_step(
                    after,
                    peer,
                    RoundState {
                        num_sent_ops_blooms: if finished {
                            (s.num_sent_ops_blooms - 1) as u8
                        } else {
                            s.num_sent_ops_blooms
                        },
                        ..s
                    },
                    now,
                )
            }
        }
    }
}

impl ShardedGossip {
    /// Records an error with `peer`, whose round is not in the table.
    fn fail(&mut self, peer: PeerCert, now: u64)
        requires
            old(self).wf(),
            !old(self).rounds().contains_key(peer@),
        ensures
            final(self).wf(),
            final(self).same_node(*old(self)),
            final(self).rounds() == old(self).rounds(),
            final(self).target() == old(self).target(),
            old(self).metrics_state().recorded_error(final(self).metrics_state(), peer@, now),
            final(self).held_ops() == old(self).held_ops(),
            final(self).known_agents() == old(self).known_agents(),
    {
        self.metrics.record_error(peer, now);
    }

    /// Puts the round of `peer`, taken out of the table, back as `s`; or closes
    /// it with a success when complete, or with an error when expired.
    fn settle_round(&mut self, peer: PeerCert, s: RoundState, now: u64)
        requires
            old(self).inner_wf(),
            old(self).metrics_state().wf(),
            old(self).target() != Some(peer@),
            old(self).target_not_in_round(),
            forall|k: Seq<u8>| #[trigger]
                old(self).rounds().contains_key(k) ==> !round_complete(old(self).rounds()[k]),
            !old(self).rounds().contains_key(peer@),
        ensures
            final(self).wf(),
            final(self).same_node(*old(self)),
            final(self).rounds() == settle(old(self).rounds(), peer@, s, now),
            final(self).target() == old(self).target(),
            final(self).target_sent_at() == old(self).target_sent_at(),
            settled(old(self).metrics_state(), final(self).metrics_state(), peer@, s, now),
            final(self).held_ops() == old(self).held_ops(),
            final(self).known_agents() == old(self).known_agents(),
    {
        let complete = s.num_sent_ops_blooms == 0 && s.received_all_incoming_ops_blooms;
        let expired = now >= s.created_at_ms && now - s.created_at_ms > s.round_timeout_ms as u64;
        if complete {
            self.metrics.record_success(peer, now);
            proof {
                assert(self.rounds() =~= old(self).rounds().remove(peer@));
            }
        } else if expired {
            self.metrics.record_error(peer, now);
            proof {
                assert(self.rounds() =~= old(self).rounds().remove(peer@));
            }
        } else {
            let ghost key = peer@;
            self.round_map.insert(peer, s);
            proof {
                assert forall|k: Seq<u8>| #[trigger]
                    self.rounds().contains_key(k) implies !round_complete(self.rounds()[k]) by {
                    if k != key {
                        assert(old(self).rounds().contains_key(k));
                    }
                }
            }
        }
    }

    /// Handles `Initiate` from `peer`.
    fn incoming_initiate(&mut self, peer: PeerCert, m: Initiate, now: u64) -> (out: Vec<ShardedGossipWire>)
        requires
            old(self).wf(),
        ensures
            final(self).wf(),
            final(self).same_node(*old(self)),
            old(self).initiate_step(*final(self), peer@, m.intended_arc_set@, now, out@),
    {
        if self.round_map.contains_key(&peer) {
            return Vec::new();
        }
        let is_target = match &self.initiate_tgt {
            Some(t) => t.cert.same_as(&peer),
            None => false,
        };
        if is_target && self.cert.precedes(&peer) {
            return Vec::new();
        }
        if is_target {
            self.initiate_tgt = None;
        }
        let ghost mid = *self;
        let common = self.local_arc_set.intersection(&m.intended_arc_set);
        let mut out: Vec<ShardedGossipWire> = Vec::new();
        out.push(
            ShardedGossipWire::Accept(
                Accept {
                    intended_arc_set: self.local_arc_set.duplicate(),
                    agent_list: self.local_agent_keys(),
                },
            ),
        );
        let key = peer.duplicate();
        let mut blooms = self.enter_round(key, common, now);
        let ghost sent = blooms@;
        out.append(&mut blooms);
        self.metrics.record_remote_round(peer, now);
        proof {
            assert(out@.skip(1) =~= sent);
            assert(mid.entered(*self, peer@, old(self).local_arcs().intersect(m.intended_arc_set@), now, sent));
        }
        out
    }

    /// Handles `Accept` from `peer`.
    fn incoming_accept(&mut self, peer: PeerCert, m: Accept, now: u64) -> (out: Vec<ShardedGossipWire>)
        requires
            old(self).wf(),
        ensures
            final(self).wf(),
            final(self).same_node(*old(self)),
            old(self).accept_step(*final(self), peer@, m.intended_arc_set@, now, out@),
    {
        let is_target = match &self.initiate_tgt {
            Some(t) => t.cert.same_as(&peer),
            None => false,
        };
        if !is_target {
            let _ = self.round_map.remove(&peer);
            proof {
                assert forall|k: Seq<u8>| #[trigger]
                    self.rounds().contains_key(k) implies !round_complete(self.rounds()[k]) by {
                    assert(old(self).rounds().contains_key(k));
                }
            }
            self.fail(peer, now);
            return Vec::new();
        }
        self.initiate_tgt = None;
        proof {
            assert(self.target() == None::<Seq<u8>>);
        }
        let common = self.local_arc_set.intersection(&m.intended_arc_set);
        self.enter_round(peer, common, now)
    }
}


impl ShardedGossip {
    /// Takes the round of `peer` out of the table, keeping the other invariants.
    fn take_round(&mut self, peer: &PeerCert) -> (r: Option<RoundState>)
        requires
            old(self).wf(),
        ensures
            final(self).inner_wf(),
            final(self).metrics_state() == old(self).metrics_state(),
            final(self).same_node(*old(self)),
            final(self).target() == old(self).target(),
            final(self).held_ops() == old(self).held_ops(),
            final(self).known_agents() == old(self).known_agents(),
            final(self).rounds() == old(self).rounds().remove(peer@),
            final(self).target_not_in_round(),
            final(self).target_sent_at() == old(self).target_sent_at(),
            forall|k: Seq<u8>| #[trigger]
                final(self).rounds().contains_key(k) ==> !round_complete(final(self).rounds()[k]),
            match r {
                Some(s) => old(self).rounds().contains_key(peer@) && s == old(self).rounds()[peer@]
                    && old(self).target() != Some(peer@),
                None => !old(self).rounds().contains_key(peer@),
            },
    {
        let r = self.round_map.remove(peer);
        proof {
            assert forall|k: Seq<u8>| #[trigger]
                self.rounds().contains_key(k) implies !round_complete(self.rounds()[k]) by {
                assert(old(self).rounds().contains_key(k));
            }
        }
        r
    }

    /// Handles `Agents` from `peer`.
    fn incoming_agents(&mut self, peer: PeerCert, m: Agents, now: u64) -> (out: Vec<ShardedGossipWire>)
        requires
            old(self).wf(),
        ensures
            final(self).wf(),
            final(self).same_node(*old(self)),
            old(self).agents_step(*final(self), peer@, m.filter@, now, out@),
    {
        match self.take_round(&peer) {
            None => {
                self.fail(peer, now);
                Vec::new()
            },
            Some(s) => {
                let agents = self.missing_agents(&s.common_arc_set, &m.filter);
                let ghost st = s;
                self.settle_round(peer, s, now);
                let mut out: Vec<ShardedGossipWire> = Vec::new();
                out.push(ShardedGossipWire::MissingAgents(MissingAgents { agents }));
                proof {
                    assert(settle(old(self).rounds().remove(peer@), peer@, st, now) =~= settle(
                        old(self).rounds(),
                        peer@,
                        st,
                        now,
                    ));
                }
                out
            },
        }
    }

    /// Handles `MissingAgents` from `peer`.
    fn incoming_missing_agents(&mut self, peer: PeerCert, m: MissingAgents, now: u64) -> (out: Vec<
        ShardedGossipWire,
    >)
        requires
            old(self).wf(),
        ensures
            final(self).wf(),
            final(self).same_node(*old(self)),
            old(self).missing_agents_step(*final(self), peer@, agent_views(m.agents@), now, out@),
    {
        match self.take_round(&peer) {
            None => {
                self.fail(peer, now);
                Vec::new()
            },
            Some(s) => {
                let ghost st = s;
                self.settle_round(peer, s, now);
                self.add_agent_infos(m.agents);
                proof {
                    assert(settle(old(self).rounds().remove(peer@), peer@, st, now) =~= settle(
                        old(self).rounds(),
                        peer@,
                        st,
                        now,
                    ));
                }
                Vec::new()
            },
        }
    }

    /// Handles `Ops` from `peer`.
    fn incoming_ops(&mut self, peer: PeerCert, m: Ops, now: u64) -> (out: Vec<ShardedGossipWire>)
        requires
            old(self).wf(),
        ensures
            final(self).wf(),
            final(self).same_node(*old(self)),
            old(self).ops_step(
                *final(self),
                peer@,
                m.arc_set@,
                m.missing_hashes@,
                m.finished,
                now,
                out@,
            ),
    {
        match self.take_round(&peer) {
            None => {
                self.fail(peer, now);
                Vec::new()
            },
            Some(s) => {
                let ghost st = s;
                let region = s.common_arc_set.intersection(&m.arc_set);
                let ops = self.missing_ops(&region, &m.missing_hashes);
                let mut s = s;
                if m.finished {
                    s.received_all_incoming_ops_blooms = true;
                }
                let ghost st2 = s;
                proof {
                    assert(st2 == RoundState {
                        received_all_incoming_ops_blooms: st.received_all_incoming_ops_blooms
                            || m.finished,
                        ..st
                    });
                }
                self.settle_round(peer, s, now);
                let mut out: Vec<ShardedGossipWire> = Vec::new();
                out.push(ShardedGossipWire::MissingOps(MissingOps { ops, finished: true }));
                proof {
                    assert(settle(old(self).rounds().remove(peer@), peer@, st2, now) =~= settle(
                        old(self).rounds(),
                        peer@,
                        st2,
                        now,
                    ));
                }
                out
            },
        }
    }

    /// Handles `MissingOps` from `peer`.
    fn incoming_missing_ops(&mut self, peer: PeerCert, m: MissingOps, now: u64) -> (out: Vec<
        ShardedGossipWire,
    >)
        requires
            old(self).wf(),
        ensures
            final(self).wf(),
            final(self).same_node(*old(self)),
            old(self).missing_ops_step(*final(self), peer@, op_views(m.ops@), m.finished, now, out@),
    {
        match self.take_round(&peer) {
            None => {
                self.fail(peer, now);
                Vec::new()
            },
            Some(s) => {
                let ghost st = s;
                if m.finished && s.num_sent_ops_blooms == 0 {
                    self.metrics.record_error(peer, now);
                } else {
                    let mut s = s;
                    if m.finished {
                        s.num_sent_ops_blooms = s.num_sent_ops_blooms - 1;
                    }
                    let ghost st2 = s;
                    self.settle_round(peer, s, now);
                    proof {
                        assert(settle(old(self).rounds().remove(peer@), peer@, st2, now) =~= settle(
                            old(self).rounds(),
                            peer@,
                            st2,
                            now,
                        ));
                    }
                }
                self.add_ops(m.ops);
                Vec::new()
            },
        }
    }

    /// What answering `msg` from `peer` at `now` does, by message kind.
    pub open spec fn step(
        &self,
        after: ShardedGossip,
        peer: Seq<u8>,
        msg: ShardedGossipWire,
        now: u64,
        out: Seq<ShardedGossipWire>,
    ) -> bool {
        match msg {
            ShardedGossipWire::Initiate(m) => self.initiate_step(
                after,
                peer,
                m.intended_arc_set@,
                now,
                out,
            ),
            ShardedGossipWire::Accept(m) => self.accept_step(
                after,
                peer,
                m.intended_arc_set@,
                now,
                out,
            ),
            ShardedGossipWire::Agents(m) => self.agents_step(
                after,
                peer,
                m.filter@,
                now,
                out,
            ),
            ShardedGossipWire::MissingAgents(m) => self.missing_agents_step(
                after,
                peer,
                agent_views(m.agents@),
                now,
                out,
            ),
            ShardedGossipWire::Ops(m) => self.ops_step(
                after,
                peer,
                m.arc_set@,
                m.missing_hashes@,
                m.finished,
                now,
                out,
            ),
            ShardedGossipWire::MissingOps(m) => self.missing_ops_step(
                after,
                peer,
                op_views(m.ops@),
                m.finished,
                now,
                out,
            ),
        }
    }

    /// Answers one message from `peer` at `now`: the messages to send back,
    /// with the round table, our target and the metrics updated.
    pub fn process_incoming(&mut self, peer: PeerCert, msg: ShardedGossipWire, now: u64) -> (out: Vec<
        ShardedGossipWire,
    >)
        requires
            old(self).wf(),
        ensures
            final(self).wf(),
            final(self).same_node(*old(self)),
            old(self).step(*final(self), peer@, msg, now, out@),
    {
        match msg {
            ShardedGossipWire::Initiate(m) => self.incoming_initiate(peer, m, now),
            ShardedGossipWire::Accept(m) => self.incoming_accept(peer, m, now),
            ShardedGossipWire::Agents(m) => self.incoming_agents(peer, m, now),
            ShardedGossipWire::MissingAgents(m) => self.incoming_missing_agents(peer, m, now),
            ShardedGossipWire::Ops(m) => self.incoming_ops(peer, m, now),
            ShardedGossipWire::MissingOps(m) => self.incoming_missing_ops(peer, m, now),
        }
    }

    /// The connection to `peer` dropped at `now`: a round with `peer` closes as
    /// an error, and we stop courting `peer`. Without either nothing changes.
    pub fn peer_closed(&mut self, peer: PeerCert, now: u64)
        requires
            old(self).wf(),
        ensures
            final(self).wf(),
            final(self).same_node(*old(self)),
            final(self).held_ops() == old(self).held_ops(),
            final(self).known_agents() == old(self).known_agents(),
            final(self).rounds() == old(self).rounds().remove(peer@),
            final(self).target() == (if old(self).target() == Some(peer@) {
                None
            } else {
                old(self).target()
            }),
            if old(self).rounds().contains_key(peer@) || old(self).target() == Some(peer@) {
                old(self).metrics_state().recorded_error(final(self).metrics_state(), peer@, now)
            } else {
                old(self).metrics_state().same_as(final(self).metrics_state())
            },
    {
        let had_round = match self.take_round(&peer) {
            Some(_) => true,
            None => false,
        };
        let is_target = match &self.initiate_tgt {
            Some(t) => t.cert.same_as(&peer),
            None => false,
        };
        if is_target {
            self.initiate_tgt = None;
        }
        if had_round || is_target {
            self.metrics.record_error(peer, now);
        }
        proof {
            assert(self.metrics_state() == old(self).metrics_state() ==> old(self).metrics_state().same_as(
                self.metrics_state(),
            ));
        }
    }

    /// Answers a message of the space `space` from `peer` at `now`; a
    /// message of another space is ignored.
    pub fn receive(&mut self, space: &Vec<u8>, peer: PeerCert, msg: ShardedGossipWire, now: u64) -> (out: Vec<
        ShardedGossipWire,
    >)
        requires
            old(self).wf(),
        ensures
            final(self).wf(),
            final(self).same_node(*old(self)),
            if space@ == old(self).space() {
                old(self).step(*final(self), peer@, msg, now, out@)
            } else {
                old(self).ignored(*final(self), out@)
            },
    {
        if !bytes_equal(&self.space, space) {
            return Vec::new();
        }
        self.process_incoming(peer, msg, now)
    }
}


/// Whether a peer with history `h` failed its last round less than
/// `ERROR_COOLDOWN_MS` before `now`.
pub open spec fn cooling_down(h: crate::metrics::NodeHistory, now: u64) -> bool {
    match last_outcome_of(h) {
        Some(RoundOutcome::Error(t)) => (now as int) < t as int + ERROR_COOLDOWN_MS as int,
        _ => false,
    }
}

/// How fresh the last success with a peer is: older first, never first of all.
pub open spec fn success_rank(h: crate::metrics::NodeHistory) -> int {
    if h.complete_rounds.len() == 0 {
        -1
    } else {
        h.complete_rounds.last() as int
    }
}

impl ShardedGossip {
    /// Whether the node of agent info `a` may be courted at `now`: not us, its
    /// agent within our arcs, not in a round with us or marked as in one, and
    /// not cooling down after an error unless initiates are forced.
    pub open spec fn eligible(&self, a: (Seq<u8>, ArcInterval, Seq<u8>, Seq<u8>), now: u64) -> bool {
        let h = self.metrics_state().history(a.2);
        &&& a.2 != self.local_cert()
        &&& self.local_arcs().contains(a.1.start)
        &&& !self.rounds().contains_key(a.2)
        &&& !h.current_round
        &&& (self.metrics_state().force_count() > 0 || !cooling_down(h, now))
    }

    /// Whether some known agent info may be courted at `now`.
    pub open spec fn has_candidate(&self, now: u64) -> bool {
        exists|i: int|
            0 <= i < self.known_agents().len() && self.eligible(#[trigger] self.known_agents()[i], now)
    }

    /// Whether the node of known agent info `i` may be courted at `now` and none
    /// that may has an older last success.
    pub open spec fn best_candidate(&self, i: int, now: u64) -> bool {
        &&& 0 <= i < self.known_agents().len()
        &&& self.eligible(self.known_agents()[i], now)
        &&& forall|j: int|
            0 <= j < self.known_agents().len() && self.eligible(#[trigger] self.known_agents()[j], now)
                ==> success_rank(self.metrics_state().history(self.known_agents()[i].2))
                <= success_rank(self.metrics_state().history(self.known_agents()[j].2))
    }

    fn is_eligible(&self, i: usize, now: u64) -> (r: bool)
        requires
            self.wf(),
            i < self.known_agents().len(),
        ensures
            r == self.eligible(self.known_agents()[i as int], now),
    {
        let a = &self.agent_infos[i];
        if a.cert.same_as(&self.cert) || !self.local_arc_set.contains(a.storage_arc.start) {
            return false;
        }
        if self.round_map.contains_key(&a.cert) || self.metrics.is_current_round(&a.cert) {
            return false;
        }
        if self.metrics.forced_initiate() {
            return true;
        }
        match self.metrics.last_outcome(&a.cert) {
            Some(RoundOutcome::Error(t)) => !(now < t || now - t < ERROR_COOLDOWN_MS),
            _ => true,
        }
    }

    /// Whether the last success of `a` is no later than that of `b`.
    fn no_fresher(&self, a: &PeerCert, b: &PeerCert) -> (r: bool)
        requires
            self.wf(),
        ensures
            r == (success_rank(self.metrics_state().history(a@)) <= success_rank(
                self.metrics_state().history(b@),
            )),
    {
        match (self.metrics.last_success(a), self.metrics.last_success(b)) {
            (None, _) => true,
            (Some(_), None) => false,
            (Some(x), Some(y)) => x <= y,
        }
    }

    /// Picks a peer to gossip with at `now` and courts it: among the nodes of
    /// the agent infos we know, one that may be courted and whose last success
    /// is oldest. Nothing happens while we already court a peer, or when no
    /// node may be courted.
    pub fn try_initiate(&mut self, now: u64) -> (r: Option<(PeerCert, ShardedGossipWire)>)
        requires
            old(self).wf(),
        ensures
            final(self).wf(),
            final(self).same_node(*old(self)),
            final(self).rounds() == old(self).rounds(),
            final(self).held_ops() == old(self).held_ops(),
            final(self).known_agents() == old(self).known_agents(),
            r is None <==> (old(self).target() is Some || !old(self).has_candidate(now)),
            match r {
                None => {
                    &&& final(self).target() == old(self).target()
                    &&& old(self).metrics_state().same_as(final(self).metrics_state())
                },
                Some((c, m)) => {
                    &&& old(self).target() is None
                    &&& exists|i: int|
                        old(self).best_candidate(i, now) && #[trigger] old(self).known_agents()[i].2
                            == c@
                    &&& final(self).target() == Some(c@)
                    &&& old(self).metrics_state().recorded_initiate(
                        final(self).metrics_state(),
                        c@,
                        now,
                    )
                    &&& match m {
                        ShardedGossipWire::Initiate(msg) => {
                            &&& msg.intended_arc_set@ == old(self).local_arcs()
                            &&& crate::bloom::key_views(msg.agent_list@) == agent_keys_of(
                                old(self).local_agent_infos(),
                            )
                        },
                        _ => false,
                    }
                },
            },
    {
        if self.initiate_tgt.is_some() {
            return None;
        }
        let mut best: Option<usize> = None;
        let mut i: usize = 0;
        while i < self.agent_infos.len()
            invariant
                self.wf(),
                0 <= i <= self.known_agents().len(),
                self.known_agents().len() == self.agent_infos@.len(),
                match best {
                    None => forall|j: int|
                        0 <= j < i ==> !self.eligible(#[trigger] self.known_agents()[j], now),
                    Some(b) => {
                        &&& b < i
                        &&& self.eligible(self.known_agents()[b as int], now)
                        &&& forall|j: int|
                            0 <= j < i && self.eligible(#[trigger] self.known_agents()[j], now)
                                ==> success_rank(
                                self.metrics_state().history(self.known_agents()[b as int].2),
                            ) <= success_rank(
                                self.metrics_state().history(self.known_agents()[j].2),
                            )
                    },
                },
            decreases self.agent_infos@.len() - i,
        {
            if self.is_eligible(i, now) {
                match best {
                    None => {
                        best = Some(i);
                    },
                    Some(b) => {
                        if !self.no_fresher(&self.agent_infos[b].cert, &self.agent_infos[i].cert) {
                            best = Some(i);
                        }
                    },
                }
            }
            i = i + 1;
        }
        match best {
            None => {
                proof {
                    assert forall|j: int| 0 <= j < self.known_agents().len() implies !self.eligible(
                        #[trigger] self.known_agents()[j],
                        now,
                    ) by {}
                }
                None
            },
            Some(b) => {
                let cert = self.agent_infos[b].cert.duplicate();
                proof {
                    assert(self.known_agents()[b as int].2 == cert@);
                    assert(old(self).best_candidate(b as int, now));
                }
                self.metrics.record_initiate(cert.duplicate(), now);
                self.initiate_tgt = Some(InitiateTarget { cert: cert.duplicate(), sent_at_ms: now });
                let msg = ShardedGossipWire::Initiate(
                    Initiate {
                        intended_arc_set: self.local_arc_set.duplicate(),
                        agent_list: self.local_agent_keys(),
                    },
                );
                Some((cert, msg))
            },
        }
    }
}

impl ShardedGossip {
    /// The certificates of the round table, as stored.
    pub closed spec fn round_keys(&self) -> Seq<Seq<u8>> {
        self.round_map.key_seq()
    }

    /// How many rounds are in progress.
    pub fn current_rounds(&self) -> (r: usize)
        requires
            self.wf(),
        ensures
            r == self.rounds().dom().len(),
    {
        self.round_map.len()
    }

    /// The round with `peer`, if one is in progress.
    pub fn round_with(&self, peer: &PeerCert) -> (r: Option<&RoundState>)
        requires
            self.wf(),
        ensures
            match r {
                Some(s) => self.rounds().contains_key(peer@) && *s == self.rounds()[peer@],
                None => !self.rounds().contains_key(peer@),
            },
    {
        self.round_map.get(peer)
    }

    /// The peer we court, if any.
    pub fn initiate_target(&self) -> (r: Option<PeerCert>)
        ensures
            match r {
                Some(c) => self.target() == Some(c@),
                None => self.target() == None::<Seq<u8>>,
            },
    {
        match &self.initiate_tgt {
            Some(t) => Some(t.cert.duplicate()),
            None => None,
        }
    }

    /// The metrics about remote peers.
    pub fn metrics(&self) -> (r: &Metrics)
        ensures
            *r == self.metrics_state(),
    {
        &self.metrics
    }

    /// How many ops we hold.
    pub fn held_op_count(&self) -> (r: usize)
        ensures
            r == self.held_ops().len(),
    {
        self.ops.len()
    }

    /// How many agent infos we know.
    pub fn known_agent_count(&self) -> (r: usize)
        ensures
            r == self.known_agents().len(),
    {
        self.agent_infos.len()
    }

    /// Marks that the next rounds should be initiated regardless of cooldowns.
    pub fn force_initiate(&mut self)
        requires
            old(self).wf(),
        ensures
            final(self).wf(),
            final(self).same_node(*old(self)),
            final(self).rounds() == old(self).rounds(),
            final(self).target() == old(self).target(),
            final(self).held_ops() == old(self).held_ops(),
            final(self).known_agents() == old(self).known_agents(),
            final(self).metrics_state().nodes() == old(self).metrics_state().nodes(),
            final(self).metrics_state().force_count() == crate::metrics::MAX_TRIGGERS,
    {
        self.metrics.record_force_initiate();
        proof {
            assert forall|k: Seq<u8>| #[trigger]
                self.rounds().contains_key(k) implies !round_complete(self.rounds()[k]) by {
                assert(old(self).rounds().contains_key(k));
            }
        }
    }

    /// Puts a round with `peer` in the table, replacing any it had.
    pub fn insert_round(&mut self, peer: PeerCert, s: RoundState)
        requires
            old(self).wf(),
            old(self).target() != Some(peer@),
            !round_complete(s),
        ensures
            final(self).wf(),
            final(self).same_node(*old(self)),
            final(self).rounds() == old(self).rounds().insert(peer@, s),
            final(self).target() == old(self).target(),
            final(self).metrics_state() == old(self).metrics_state(),
            final(self).held_ops() == old(self).held_ops(),
            final(self).known_agents() == old(self).known_agents(),
    {
        let ghost key = peer@;
        self.round_map.insert(peer, s);
        proof {
            assert forall|k: Seq<u8>| #[trigger]
                self.rounds().contains_key(k) implies !round_complete(self.rounds()[k]) by {
                if k != key {
                    assert(old(self).rounds().contains_key(k));
                }
            }
        }
    }
}

/// The round table holds exactly one round per peer in it.
pub proof fn lemma_one_round_per_peer(g: &ShardedGossip, peer: Seq<u8>)
    requires
        g.wf(),
        g.rounds().contains_key(peer),
    ensures
        exists|i: int|
            0 <= i < g.round_keys().len() && g.round_keys()[i] == peer && forall|j: int|
                0 <= j < g.round_keys().len() && #[trigger] g.round_keys()[j] == peer ==> j == i,
{
    g.round_map.lemma_stored_once(peer);
    let ks = g.round_map.key_seq();
    assert(g.round_keys() == ks);
    let i = choose|i: int|
        0 <= i < ks.len() && ks[i] == peer && forall|j: int|
            0 <= j < ks.len() && #[trigger] ks[j] == peer ==> j == i;
    assert(0 <= i < g.round_keys().len() && g.round_keys()[i] == peer);
}

/// The peer we court is never in the round table: its round enters the table
/// only when its `Accept` arrives, which ends the courting.
pub proof fn lemma_target_not_in_round(g: &ShardedGossip)
    requires
        g.wf(),
    ensures
        forall|c: Seq<u8>| g.target() == Some(c) ==> !g.rounds().contains_key(c),
{
}

/// After a message, a round (not expired) stays in the table exactly when a
/// sent filter still awaits its answer or the remote has filters left to send;
/// and no round in a well-formed table is complete.
pub proof fn lemma_round_survival(
    g: &ShardedGossip,
    rounds: Map<Seq<u8>, RoundState>,
    peer: Seq<u8>,
    s: RoundState,
    now: u64,
)
    requires
        g.wf(),
        !round_expired(s, now),
    ensures
        settle(rounds, peer, s, now).contains_key(peer) <==> (s.num_sent_ops_blooms > 0
            || !s.received_all_incoming_ops_blooms),
        forall|k: Seq<u8>| #[trigger]
            g.rounds().contains_key(k) ==> (g.rounds()[k].num_sent_ops_blooms > 0
                || !g.rounds()[k].received_all_incoming_ops_blooms),
{
    assert forall|k: Seq<u8>| #[trigger] g.rounds().contains_key(k) implies (
    g.rounds()[k].num_sent_ops_blooms > 0 || !g.rounds()[k].received_all_incoming_ops_blooms) by {
        assert(!round_complete(g.rounds()[k]));
    }
}

impl ShardedGossip {
    /// When we sent the `Initiate` to the peer we court.
    pub closed spec fn target_sent_at(&self) -> u64 {
        match self.initiate_tgt {
            Some(t) => t.sent_at_ms,
            None => 0,
        }
    }

    /// Whether we court a peer whose `Accept` is overdue at `now`.
    pub open spec fn target_expired(&self, now: u64) -> bool {
        self.target() is Some && now as int - self.target_sent_at() as int > self.timeout() as int
    }

    /// Whether a sweep at `now` closes something with `k` as an error.
    pub open spec fn times_out(&self, k: Seq<u8>, now: u64) -> bool {
        ||| self.rounds().contains_key(k) && round_expired(self.rounds()[k], now)
        ||| self.target_expired(now) && self.target() == Some(k)
    }

    /// Closes every round that has lasted longer than its timeout, and stops
    /// courting a peer whose `Accept` is overdue, recording an error for each.
    pub fn check_timeouts(&mut self, now: u64)
        requires
            old(self).wf(),
        ensures
            final(self).wf(),
            final(self).same_node(*old(self)),
            final(self).held_ops() == old(self).held_ops(),
            final(self).known_agents() == old(self).known_agents(),
            final(self).rounds() == unexpired(old(self).rounds(), now),
            final(self).target() == (if old(self).target_expired(now) {
                None
            } else {
                old(self).target()
            }),
            final(self).metrics_state().force_count() == old(self).metrics_state().force_count(),
            forall|k: Seq<u8>|
                #[trigger] final(self).metrics_state().history(k) == if old(self).times_out(k, now) {
                    crate::metrics::after_error(old(self).metrics_state().history(k), now)
                } else {
                    old(self).metrics_state().history(k)
                },
    {
        let keys = self.round_map.keys();
        let ghost ks = self.round_map.key_seq();
        let ghost old_rounds = old(self).rounds();
        let ghost old_m = old(self).metrics_state();
        let mut i: usize = 0;
        proof {
            assert(self.rounds() =~= Map::new(
                |k: Seq<u8>| old_rounds.contains_key(k) && !(ks.take(0).contains(k) && round_expired(old_rounds[k], now)),
                |k: Seq<u8>| old_rounds[k],
            ));
        }
        while i < keys.len()
            invariant
                self.wf(),
                self.same_node(*old(self)),
                self.held_ops() == old(self).held_ops(),
                self.known_agents() == old(self).known_agents(),
                self.target() == old(self).target(),
                self.target_sent_at() == old(self).target_sent_at(),
                old_rounds == old(self).rounds(),
                old_m == old(self).metrics_state(),
                keys@.map_values(|c: PeerCert| c@) == ks,
                ks.no_duplicates(),
                forall|k: Seq<u8>| old_rounds.contains_key(k) <==> ks.contains(k),
                0 <= i <= keys@.len(),
                self.rounds() == Map::new(
                    |k: Seq<u8>| old_rounds.contains_key(k) && !(ks.take(i as int).contains(k) && round_expired(old_rounds[k], now)),
                    |k: Seq<u8>| old_rounds[k],
                ),
                self.metrics_state().force_count() == old_m.force_count(),
                forall|k: Seq<u8>|
                    #[trigger] self.metrics_state().history(k) == if ks.take(i as int).contains(k)
                        && old_rounds.contains_key(k) && round_expired(old_rounds[k], now) {
                        crate::metrics::after_error(old_m.history(k), now)
                    } else {
                        old_m.history(k)
                    },
            decreases keys@.len() - i,
        {
            let peer = keys[i].duplicate();
            let ghost p = peer@;
            let ghost before_m = self.metrics_state();
            let ghost before_rounds = self.rounds();
            proof {
                assert(ks[i as int] == p);
                assert(ks.contains(p));
                assert(!ks.take(i as int).contains(p)) by {
                    if ks.take(i as int).contains(p) {
                        let j = choose|j: int| 0 <= j < i && #[trigger] ks.take(i as int)[j] == p;
                        assert(ks[j] == ks[i as int]);
                    }
                }
                assert(before_rounds.contains_key(p));
                assert(ks.take(i + 1) =~= ks.take(i as int).push(p));
            }
            proof {
                assert forall|k: Seq<u8>| ks.take(i + 1).contains(k) == (ks.take(i as int).contains(k) || k == p) by {
                    if ks.take(i + 1).contains(k) {
                        let j = choose|j: int| 0 <= j < i + 1 && #[trigger] ks.take(i + 1)[j] == k;
                        if j < i {
                            assert(ks.take(i as int)[j] == k);
                        }
                    }
                    if ks.take(i as int).contains(k) {
                        let j = choose|j: int| 0 <= j < i && #[trigger] ks.take(i as int)[j] == k;
                        assert(ks.take(i + 1)[j] == k);
                    }
                    if k == p {
                        assert(ks.take(i + 1)[i as int] == p);
                    }
                }
                assert(before_m.history(p) == old_m.history(p));
            }
            match self.take_round(&peer) {
                Some(st) => {
                    let ghost s0 = st;
                    self.settle_round(peer, st, now);
                    proof {
                        assert(s0 == old_rounds[p]);
                        assert(!round_complete(s0));
                        if round_expired(s0, now) {
                            assert(self.rounds() == before_rounds.remove(p));
                            assert(before_m.recorded_error(self.metrics_state(), p, now));
                        } else {
                            assert(self.rounds() == before_rounds.remove(p).insert(p, s0));
                            assert(before_m.same_as(self.metrics_state()));
                        }
                    }
                },
                None => {},
            }
            proof {
                assert(self.rounds() =~= Map::new(
                    |k: Seq<u8>| old_rounds.contains_key(k) && !(ks.take(i + 1).contains(k) && round_expired(old_rounds[k], now)),
                    |k: Seq<u8>| old_rounds[k],
                ));
                assert forall|k: Seq<u8>|
                    #[trigger] self.metrics_state().history(k) == if ks.take(i + 1).contains(k)
                        && old_rounds.contains_key(k) && round_expired(old_rounds[k], now) {
                        crate::metrics::after_error(old_m.history(k), now)
                    } else {
                        old_m.history(k)
                    } by {
                    assert(before_m.history(k) == if ks.take(i as int).contains(k)
                        && old_rounds.contains_key(k) && round_expired(old_rounds[k], now) {
                        crate::metrics::after_error(old_m.history(k), now)
                    } else {
                        old_m.history(k)
                    });
                }
            }
            i = i + 1;
        }
        proof {
            assert(ks.take(i as int) =~= ks);
            assert(self.rounds() =~= unexpired(old_rounds, now));
        }
        let ghost mid_m = self.metrics_state();
        let expired_target = match &self.initiate_tgt {
            Some(t) => now >= t.sent_at_ms && now - t.sent_at_ms > self.round_timeout_ms as u64,
            None => false,
        };
        if expired_target {
            match self.initiate_tgt.take() {
                Some(t) => {
                    proof {
                        assert(!old_rounds.contains_key(t.cert@));
                    }
                    self.metrics.record_error(t.cert, now);
                },
                None => {},
            }
        }
        proof {
            assert forall|k: Seq<u8>|
                #[trigger] self.metrics_state().history(k) == if old(self).times_out(k, now) {
                    crate::metrics::after_error(old_m.history(k), now)
                } else {
                    old_m.history(k)
                } by {
                assert(mid_m.history(k) == if ks.contains(k)
                    && old_rounds.contains_key(k) && round_expired(old_rounds[k], now) {
                    crate::metrics::after_error(old_m.history(k), now)
                } else {
                    old_m.history(k)
                });
            }
        }
    }
}

/// When two nodes court each other and each answers the other's `Initiate`
/// while no round between them exists, exactly one of them proceeds: the one
/// whose certificate comes second; the other sends nothing.
pub proof fn lemma_double_initiate(
    a: &ShardedGossip,
    b: &ShardedGossip,
    a_after: ShardedGossip,
    b_after: ShardedGossip,
    a_remote: Set<u32>,
    b_remote: Set<u32>,
    now: u64,
    a_out: Seq<ShardedGossipWire>,
    b_out: Seq<ShardedGossipWire>,
)
    requires
        a.local_cert() != b.local_cert(),
        a.target() == Some(b.local_cert()),
        b.target() == Some(a.local_cert()),
        !a.rounds().contains_key(b.local_cert()),
        !b.rounds().contains_key(a.local_cert()),
        a.initiate_step(a_after, b.local_cert(), b_remote, now, a_out),
        b.initiate_step(b_after, a.local_cert(), a_remote, now, b_out),
    ensures
        (a_out.len() == 0) != (b_out.len() == 0),
        (a_out.len() == 0) == lex_lt(a.local_cert(), b.local_cert()),
{
    crate::cert::lemma_lex_lt_total(a.local_cert(), b.local_cert());
    crate::cert::lemma_lex_lt_asymmetric(a.local_cert(), b.local_cert());
}

} // verus!
