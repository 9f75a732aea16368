//! The requests the gossip engine makes of its host: storage, signing and metrics.
use vstd::prelude::*;
use crate::arc::{ArcInterval, ArcSet};
use crate::cert::{bytes_precede, lex_lt};
use crate::types::{Agent, AgentInfoSigned, OpHash, Space};

verus! {

/// A UNIX timestamp, measured in milliseconds.
pub type TimestampMs = u64;

/// A range of timestamps, measured in milliseconds, start included and end excluded.
pub type TimeWindowMs = std::ops::Range<TimestampMs>;

/// A time window which covers all of recordable time.
pub fn full_time_window() -> (r: TimeWindowMs)
    ensures
        r.start == u64::MIN,
        r.end == u64::MAX,
{
    std::ops::Range { start: u64::MIN, end: u64::MAX }
}

/// Gather a list of op-hashes from the host that meet criteria, with the
/// start and end times of the ops within a time window, up to a maximum number.
#[derive(Debug)]
pub struct QueryOpHashesEvt {
    /// The "space" context.
    pub space: Space,
    /// The agents from which to fetch, along with an arc set to filter by.
    pub agents: Vec<(Agent, ArcSet)>,
    /// The time window to search within.
    pub window_ms: TimeWindowMs,
    /// Maximum number of ops to return.
    pub max_ops: usize,
    /// Include ops that are still in limbo (not yet validated or integrated).
    pub include_limbo: bool,
}

/// Gather all op-hash data for a list of op-hashes from the host.
#[derive(Debug)]
pub struct FetchOpDataEvt {
    /// The "space" context.
    pub space: Space,
    /// The "agent" context.
    pub agents: Vec<Agent>,
    /// The op-hashes to fetch.
    pub op_hashes: Vec<OpHash>,
}

/// Request that the host sign some data on behalf of an agent.
#[derive(Debug)]
pub struct SignNetworkDataEvt {
    /// The "space" context.
    pub space: Space,
    /// The "agent" context.
    pub agent: Agent,
    /// The data to sign.
    pub data: Vec<u8>,
}

/// Store the agent info as signed by the agents themselves.
#[derive(Debug)]
pub struct PutAgentInfoSignedEvt {
    /// The "space" context.
    pub space: Space,
    /// A batch of signed agent info for this space.
    pub peer_data: Vec<AgentInfoSigned>,
}

/// Get agent info for a single agent, as previously signed and put.
#[derive(Debug)]
pub struct GetAgentInfoSignedEvt {
    /// The "space" context.
    pub space: Space,
    /// The "agent" context.
    pub agent: Agent,
}

/// Get agent info which satisfies a query.
#[derive(Debug)]
pub struct QueryAgentInfoSignedEvt {
    /// The "space" context.
    pub space: Space,
    /// The optional list of agents to filter by.
    pub agents: Option<Vec<Agent>>,
}

/// Get the agents, with their arcs, that fit into an arc set for gossip.
#[derive(Debug)]
pub struct QueryGossipAgentsEvt {
    /// The "space" context.
    pub space: Space,
    /// The optional list of agents to filter by.
    pub agents: Option<Vec<Agent>>,
    /// Start of the time window.
    pub since_ms: u64,
    /// End of the time window.
    pub until_ms: u64,
    /// The set that we need agents to fit into.
    pub arc_set: ArcSet,
}

/// The answer to a gossip-agents query: each agent with its arc.
pub type GossipAgents = Vec<(Agent, ArcInterval)>;

/// The kind of a metric datum about an agent.
#[derive(Clone, Copy, Debug, PartialEq, Eq, Structural, PartialOrd, Ord, Hash)]
pub enum MetricKind {
    /// Our fast gossip loop synced this node up to this timestamp.
    /// The next quick loop can sync from this timestamp forward.
    QuickGossip,
    /// The last time a full slow gossip loop completed was at this timestamp.
    /// If that is too recent, we won't run another slow loop.
    SlowGossip,
    /// The last time we got a connection/timeout error with this node,
    /// ignoring inactivity timeouts.
    /// Lets us skip recently unreachable nodes in gossip loops.
    ConnectError,
}

impl MetricKind {
    /// The name of the kind.
    pub fn name(&self) -> (r: &'static str)
        ensures
            r@ == match self {
                MetricKind::QuickGossip => "QuickGossip"@,
                MetricKind::SlowGossip => "SlowGossip"@,
                MetricKind::ConnectError => "ConnectError"@,
            },
    {
        match self {
            MetricKind::QuickGossip => "QuickGossip",
            MetricKind::SlowGossip => "SlowGossip",
            MetricKind::ConnectError => "ConnectError",
        }
    }
}

/// The order of metric data: by timestamp, then by agent.
pub open spec fn datum_before(a: (Seq<u8>, u64), b: (Seq<u8>, u64)) -> bool {
    a.1 < b.1 || (a.1 == b.1 && lex_lt(a.0, b.0))
}

/// How two metric data compare: by timestamp, then by agent.
pub open spec fn datum_cmp(a: (Seq<u8>, u64), b: (Seq<u8>, u64)) -> std::cmp::Ordering {
    if datum_before(a, b) {
        std::cmp::Ordering::Less
    } else if datum_before(b, a) {
        std::cmp::Ordering::Greater
    } else {
        std::cmp::Ordering::Equal
    }
}

/// A single row in the metrics database.
#[derive(Clone, Debug, PartialEq, Eq)]
pub struct MetricDatum {
    /// The agent this event is about.
    pub agent: Agent,
    /// The kind of event.
    pub kind: MetricKind,
    /// The time at which this occurred.
    pub timestamp: TimestampMs,
}

impl MetricDatum {
    /// Orders data so that the earliest and latest are easy to find: by
    /// timestamp, and by agent where the timestamps are equal.
    pub fn compare(&self, other: &MetricDatum) -> (r: std::cmp::Ordering)
        ensures
            r == datum_cmp((self.agent@, self.timestamp), (other.agent@, other.timestamp)),
    {
        if self.timestamp < other.timestamp {
            std::cmp::Ordering::Less
        } else if self.timestamp > other.timestamp {
            std::cmp::Ordering::Greater
        } else {
            proof {
                crate::cert::lemma_lex_lt_asymmetric(self.agent@, other.agent@);
            }
            if bytes_precede(&self.agent, &other.agent) {
                std::cmp::Ordering::Less
            } else if bytes_precede(&other.agent, &self.agent) {
                std::cmp::Ordering::Greater
            } else {
                std::cmp::Ordering::Equal
            }
        }
    }
}

/// Metric data are ordered so that the earliest and latest are easy to find.
impl PartialOrd for MetricDatum {
    fn partial_cmp(&self, other: &MetricDatum) -> Option<std::cmp::Ordering> {
        Some(self.compare(other))
    }
}

impl vstd::std_specs::cmp::PartialOrdSpecImpl for MetricDatum {
    open spec fn obeys_partial_cmp_spec() -> bool {
        true
    }

    open spec fn partial_cmp_spec(&self, other: &MetricDatum) -> Option<std::cmp::Ordering> {
        Some(datum_cmp((self.agent@, self.timestamp), (other.agent@, other.timestamp)))
    }
}

/// Different kinds of queries about metric data.
#[derive(Clone, Debug, PartialEq, Eq)]
pub enum MetricQuery {
    /// Filters for the "last sync" query.
    LastSync {
        /// The agent to query by.
        agent: Agent,
    },
    /// Filters for the "oldest agent" query.
    Oldest {
        /// Agents whose last connection error is earlier than this time will be filtered out.
        last_connect_error_threshold: TimestampMs,
    },
}

/// Corresponding response to `MetricQuery`.
#[derive(Clone, Debug, PartialEq, Eq)]
pub enum MetricQueryAnswer {
    /// The last sync time for all agents.
    LastSync(Option<TimestampMs>),
    /// The agent with the oldest last-connection time which satisfies the query.
    Oldest(Option<Agent>),
}

} // verus!
