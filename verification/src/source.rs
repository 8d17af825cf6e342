//! The external knowledge source, and the errors of one pass.
//!
//! The source supplies op hashes, op payloads and agent-info records, and
//! accepts locally delivered records. It is a port: callers outside this
//! crate implement it over whatever transport they use. Nothing is assumed
//! about what it answers; every verified caller states what holds of its own
//! state whatever comes back.

use vstd::prelude::*;

use crate::keys::Agent;
use crate::keys::AgentInfoRecord;
use crate::keys::OpHash;
use crate::keys::Space;

verus! {

/// Failure reported by the external source for one request.
#[derive(Clone, Copy, Debug, PartialEq, Eq, Structural)]
pub struct SourceError {}

/// Error of one reconciliation pass.
#[derive(Clone, Copy, Debug, PartialEq, Eq, Structural)]
pub enum SyncError {
    /// The source failed an op-payload fetch; the pass is aborted.
    FetchFailed,
    /// A fetch answered with other than exactly one record for the requested
    /// hash; the pass is aborted.
    BadFetchResult,
    /// Local delivery of a record to an agent failed; the pass is aborted.
    DeliverFailed,
    /// An agent-info record was needed during reconciliation but was not in
    /// the store. Collection puts every agent-info record in every entry, so
    /// this marks a broken invariant elsewhere, surfaced as a hard error.
    MissingAgentInfo,
}

/// Asynchronous request/response capabilities of the external source, keyed
/// by space and agent. Implementations live outside this crate.
pub trait EventSource {
    /// All op hashes the agent holds over the full address range and the
    /// full time range.
    fn fetch_op_hashes_for_constraints(&mut self, space: &Space, agent: &Agent) -> Result<
        Vec<OpHash>,
        SourceError,
    >;

    /// All agent-info records of the space; the store is shared by every
    /// agent of the space, so one query through any anchor agent suffices.
    fn query_agent_info(&mut self, space: &Space, agent: &Agent) -> Result<
        Vec<AgentInfoRecord>,
        SourceError,
    >;

    /// The payload of exactly one op hash.
    fn fetch_op_data(&mut self, space: &Space, agent: &Agent, op: &OpHash) -> Result<
        Vec<(OpHash, Vec<u8>)>,
        SourceError,
    >;

    /// Deliver one op record from one local agent to another, in process.
    fn gossip(
        &mut self,
        space: &Space,
        to_agent: &Agent,
        from_agent: &Agent,
        op: &OpHash,
        payload: &Vec<u8>,
    ) -> Result<(), SourceError>;
}

} // verus!
