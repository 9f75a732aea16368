//! The messages of a gossip round.
use vstd::prelude::*;
use crate::arc::{part_set, ArcInterval, ArcSet, NUM_PARTS};
use crate::bloom::{bloom_bits, Bloom};
use crate::types::{agents_within, hashes_of, ops_within, signatures_of, Agent, AgentInfoSigned, StoredOp};

verus! {

/// Opens a round: the sender's locations and agents.
#[derive(Debug, PartialEq, Eq)]
pub struct Initiate {
    pub intended_arc_set: ArcSet,
    pub agent_list: Vec<Agent>,
}

/// Accepts a round: the accepter's locations and agents.
#[derive(Debug, PartialEq, Eq)]
pub struct Accept {
    pub intended_arc_set: ArcSet,
    pub agent_list: Vec<Agent>,
}

/// A filter of the agent-info signatures the sender holds in the common arc set.
#[derive(Debug, PartialEq, Eq)]
pub struct Agents {
    pub filter: Bloom,
}

/// The agent infos the recipient of an `Agents` filter found missing from it.
#[derive(Debug, PartialEq, Eq)]
pub struct MissingAgents {
    pub agents: Vec<AgentInfoSigned>,
}

/// A filter of the op hashes the sender holds in `arc_set`; `finished` on the
/// sender's last one.
#[derive(Debug, PartialEq, Eq)]
pub struct Ops {
    pub arc_set: ArcSet,
    pub missing_hashes: Bloom,
    pub finished: bool,
}

/// The ops the recipient of an `Ops` filter found missing from it; `finished`
/// on the last batch that answers one filter.
#[derive(Debug, PartialEq, Eq)]
pub struct MissingOps {
    pub ops: Vec<StoredOp>,
    pub finished: bool,
}

/// The messages of a gossip round.
#[derive(Debug, PartialEq, Eq)]
pub enum ShardedGossipWire {
    Initiate(Initiate),
    Accept(Accept),
    Agents(Agents),
    MissingAgents(MissingAgents),
    Ops(Ops),
    MissingOps(MissingOps),
}

/// The variant tag of a message in its frame.
pub open spec fn wire_tag(m: ShardedGossipWire) -> u8 {
    match m {
        ShardedGossipWire::Initiate(_) => 0,
        ShardedGossipWire::Accept(_) => 1,
        ShardedGossipWire::Agents(_) => 2,
        ShardedGossipWire::MissingAgents(_) => 3,
        ShardedGossipWire::Ops(_) => 4,
        ShardedGossipWire::MissingOps(_) => 5,
    }
}

impl ShardedGossipWire {
    /// The variant tag of the message in its frame.
    pub fn tag(&self) -> (r: u8)
        ensures
            r == wire_tag(*self),
    {
        match self {
            ShardedGossipWire::Initiate(_) => 0,
            ShardedGossipWire::Accept(_) => 1,
            ShardedGossipWire::Agents(_) => 2,
            ShardedGossipWire::MissingAgents(_) => 3,
            ShardedGossipWire::Ops(_) => 4,
            ShardedGossipWire::MissingOps(_) => 5,
        }
    }
}

/// The `Ops` filters a side sends on entering a round over `common`: one per
/// part of the keyspace, each the filter of exactly the op hashes we hold in
/// its part, the last
/// one finished.
pub open spec fn ops_blooms_for(
    out: Seq<ShardedGossipWire>,
    common: Set<u32>,
    held: Seq<(Seq<u8>, Seq<u8>)>,
) -> bool {
    &&& out.len() == NUM_PARTS
    &&& forall|p: int|
        0 <= p < NUM_PARTS ==> match #[trigger] out[p] {
            ShardedGossipWire::Ops(m) => {
                &&& m.arc_set@ == common.intersect(part_set(p))
                &&& m.finished == (p == NUM_PARTS - 1)
                &&& m.missing_hashes@ == bloom_bits(hashes_of(ops_within(held, m.arc_set@)))
            },
            _ => false,
        }
}

/// The `Agents` filter a recent-gossip side sends on entering a round over
/// `common`: the filter of exactly the signatures we know in `common`.
pub open spec fn agents_bloom_for(
    m: ShardedGossipWire,
    common: Set<u32>,
    known: Seq<(Seq<u8>, ArcInterval, Seq<u8>, Seq<u8>)>,
) -> bool {
    match m {
        ShardedGossipWire::Agents(a) => a.filter@ == bloom_bits(
            signatures_of(agents_within(known, common)),
        ),
        _ => false,
    }
}

} // verus!
