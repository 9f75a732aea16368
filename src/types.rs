//! The data that gossip moves between peers: agents, their signed infos, and ops.
use vstd::prelude::*;
use crate::arc::ArcInterval;
use crate::bloom::bloom_has;
use crate::cert::PeerCert;

verus! {

/// The identifier of a space: every message is scoped to one.
pub type Space = Vec<u8>;

/// An agent's signing public key.
pub type Agent = Vec<u8>;

/// The content address of a DHT operation.
pub type OpHash = Vec<u8>;

/// The location of an op in the keyspace: the last four bytes of its hash,
/// little-endian, or zero for a hash shorter than that.
pub open spec fn op_loc(hash: Seq<u8>) -> u32 {
    let n = hash.len() as int;
    if n < 4 {
        0
    } else {
        (hash[n - 4] as int + hash[n - 3] as int * 0x100 + hash[n - 2] as int * 0x1_0000
            + hash[n - 1] as int * 0x100_0000) as u32
    }
}

/// The location of an op hash in the keyspace.
pub fn loc_of(hash: &OpHash) -> (r: u32)
    ensures
        r == op_loc(hash@),
{
    let n = hash.len();
    if n < 4 {
        0
    } else {
        let b0 = hash[n - 4] as u32;
        let b1 = hash[n - 3] as u32;
        let b2 = hash[n - 2] as u32;
        let b3 = hash[n - 1] as u32;
        assert(b0 + b1 * 0x100 + b2 * 0x1_0000 + b3 * 0x100_0000 <= 0xffff_ffff) by (nonlinear_arith)
            requires
                b0 <= 255,
                b1 <= 255,
                b2 <= 255,
                b3 <= 255,
        ;
        b0 + b1 * 0x100 + b2 * 0x1_0000 + b3 * 0x100_0000
    }
}

/// What an agent publishes about itself: its key, the arc it holds, the
/// transport identity of the node that hosts it, and its signature.
#[derive(Clone, Debug, PartialEq, Eq)]
pub struct AgentInfoSigned {
    pub agent: Agent,
    pub storage_arc: ArcInterval,
    pub cert: PeerCert,
    pub signature: Vec<u8>,
}

impl AgentInfoSigned {
    /// A copy with the same contents.
    pub fn duplicate(&self) -> (r: AgentInfoSigned)
        ensures
            r@ == self@,
    {
        let agent = self.agent.clone();
        let signature = self.signature.clone();
        proof {
            assert(agent@ =~= self.agent@);
            assert(signature@ =~= self.signature@);
        }
        AgentInfoSigned {
            agent,
            storage_arc: self.storage_arc,
            cert: self.cert.duplicate(),
            signature,
        }
    }
}

/// An op as a node holds it: its hash and its payload.
#[derive(Clone, Debug, PartialEq, Eq)]
pub struct StoredOp {
    pub hash: OpHash,
    pub data: Vec<u8>,
}

impl View for StoredOp {
    type V = (Seq<u8>, Seq<u8>);

    open spec fn view(&self) -> (Seq<u8>, Seq<u8>) {
        (self.hash@, self.data@)
    }
}

impl View for AgentInfoSigned {
    type V = (Seq<u8>, ArcInterval, Seq<u8>, Seq<u8>);

    open spec fn view(&self) -> (Seq<u8>, ArcInterval, Seq<u8>, Seq<u8>) {
        (self.agent@, self.storage_arc, self.cert@, self.signature@)
    }
}

impl StoredOp {
    /// A copy with the same contents.
    pub fn duplicate(&self) -> (r: StoredOp)
        ensures
            r@ == self@,
    {
        let hash = self.hash.clone();
        let data = self.data.clone();
        proof {
            assert(hash@ =~= self.hash@);
            assert(data@ =~= self.data@);
        }
        StoredOp { hash, data }
    }
}

/// The ops of a list, as (hash, payload) pairs.
pub open spec fn op_views(ops: Seq<StoredOp>) -> Seq<(Seq<u8>, Seq<u8>)> {
    ops.map_values(|o: StoredOp| o@)
}

/// The agent infos of a list, as plain values.
pub open spec fn agent_views(infos: Seq<AgentInfoSigned>) -> Seq<
    (Seq<u8>, ArcInterval, Seq<u8>, Seq<u8>),
> {
    infos.map_values(|a: AgentInfoSigned| a@)
}

/// The hashes of a list of ops.
pub open spec fn hashes_of(ops: Seq<(Seq<u8>, Seq<u8>)>) -> Seq<Seq<u8>> {
    ops.map_values(|o: (Seq<u8>, Seq<u8>)| o.0)
}

/// The signatures of a list of agent infos.
pub open spec fn signatures_of(infos: Seq<(Seq<u8>, ArcInterval, Seq<u8>, Seq<u8>)>) -> Seq<Seq<u8>> {
    infos.map_values(|a: (Seq<u8>, ArcInterval, Seq<u8>, Seq<u8>)| a.3)
}

/// The ops, in order, whose location lies in `set`.
pub open spec fn ops_within(ops: Seq<(Seq<u8>, Seq<u8>)>, set: Set<u32>) -> Seq<(Seq<u8>, Seq<u8>)>
    decreases ops.len(),
{
    if ops.len() == 0 {
        Seq::empty()
    } else {
        let rest = ops_within(ops.drop_last(), set);
        if set.contains(op_loc(ops.last().0)) {
            rest.push(ops.last())
        } else {
            rest
        }
    }
}

/// The ops, in order, whose location lies in `set` and whose hash the filter
/// `bits` surely does not hold: what the filter's sender is missing.
pub open spec fn ops_missing(
    ops: Seq<(Seq<u8>, Seq<u8>)>,
    set: Set<u32>,
    bits: Seq<bool>,
) -> Seq<(Seq<u8>, Seq<u8>)>
    decreases ops.len(),
{
    if ops.len() == 0 {
        Seq::empty()
    } else {
        let rest = ops_missing(ops.drop_last(), set, bits);
        if set.contains(op_loc(ops.last().0)) && !bloom_has(bits, ops.last().0) {
            rest.push(ops.last())
        } else {
            rest
        }
    }
}

/// The agent infos, in order, whose arc starts in `set`.
pub open spec fn agents_within(
    infos: Seq<(Seq<u8>, ArcInterval, Seq<u8>, Seq<u8>)>,
    set: Set<u32>,
) -> Seq<(Seq<u8>, ArcInterval, Seq<u8>, Seq<u8>)>
    decreases infos.len(),
{
    if infos.len() == 0 {
        Seq::empty()
    } else {
        let rest = agents_within(infos.drop_last(), set);
        if set.contains(infos.last().1.start) {
            rest.push(infos.last())
        } else {
            rest
        }
    }
}

/// The agent infos, in order, whose arc starts in `set` and whose signature
/// the filter `bits` surely does not hold.
pub open spec fn agents_missing(
    infos: Seq<(Seq<u8>, ArcInterval, Seq<u8>, Seq<u8>)>,
    set: Set<u32>,
    bits: Seq<bool>,
) -> Seq<(Seq<u8>, ArcInterval, Seq<u8>, Seq<u8>)>
    decreases infos.len(),
{
    if infos.len() == 0 {
        Seq::empty()
    } else {
        let rest = agents_missing(infos.drop_last(), set, bits);
        if set.contains(infos.last().1.start) && !bloom_has(bits, infos.last().3) {
            rest.push(infos.last())
        } else {
            rest
        }
    }
}

/// Whether some op of `ops` has hash `h`.
pub open spec fn holds_hash(ops: Seq<(Seq<u8>, Seq<u8>)>, h: Seq<u8>) -> bool {
    exists|j: int| 0 <= j < ops.len() && #[trigger] ops[j].0 == h
}

/// The held ops after taking in `incoming`: each op whose hash is not held yet
/// is appended, in order.
pub open spec fn ingest_ops(
    held: Seq<(Seq<u8>, Seq<u8>)>,
    incoming: Seq<(Seq<u8>, Seq<u8>)>,
) -> Seq<(Seq<u8>, Seq<u8>)>
    decreases incoming.len(),
{
    if incoming.len() == 0 {
        held
    } else {
        let h = ingest_ops(held, incoming.drop_last());
        if holds_hash(h, incoming.last().0) {
            h
        } else {
            h.push(incoming.last())
        }
    }
}

/// Whether some agent info of `infos` has signature `sig`.
pub open spec fn holds_signature(
    infos: Seq<(Seq<u8>, ArcInterval, Seq<u8>, Seq<u8>)>,
    sig: Seq<u8>,
) -> bool {
    exists|j: int| 0 <= j < infos.len() && #[trigger] infos[j].3 == sig
}

/// The known agent infos after taking in `incoming`: each info whose
/// signature is not known yet is appended, in order.
pub open spec fn ingest_agents(
    known: Seq<(Seq<u8>, ArcInterval, Seq<u8>, Seq<u8>)>,
    incoming: Seq<(Seq<u8>, ArcInterval, Seq<u8>, Seq<u8>)>,
) -> Seq<(Seq<u8>, ArcInterval, Seq<u8>, Seq<u8>)>
    decreases incoming.len(),
{
    if incoming.len() == 0 {
        known
    } else {
        let k = ingest_agents(known, incoming.drop_last());
        if holds_signature(k, incoming.last().3) {
            k
        } else {
            k.push(incoming.last())
        }
    }
}

} // verus!
