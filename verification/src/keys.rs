//! Identifiers and record types.
//!
//! A space is a namespace partitioning content and agents; an agent is a
//! participant identity within a space. Records come in two kinds: a
//! content-addressed operation, keyed by its hash, and a signed agent-info
//! record, keyed by its agent and signing time. Both identifier kinds are
//! compared by their underlying bytes.

use vstd::prelude::*;

verus! {

/// Identifier of a space (a shared namespace), compared by value.
pub struct Space {
    pub bytes: Vec<u8>,
}

impl View for Space {
    type V = Seq<u8>;

    open spec fn view(&self) -> Seq<u8> {
        self.bytes@
    }
}

impl Space {
    pub fn new(bytes: Vec<u8>) -> (r: Space)
        ensures
            r@ == bytes@,
    {
        Space { bytes }
    }
}

/// Identifier of an agent within a space, compared by value.
#[derive(Hash)]
pub struct Agent {
    pub bytes: Vec<u8>,
}

impl View for Agent {
    type V = Seq<u8>;

    open spec fn view(&self) -> Seq<u8> {
        self.bytes@
    }
}

impl Agent {
    pub fn new(bytes: Vec<u8>) -> (r: Agent)
        ensures
            r@ == bytes@,
    {
        Agent { bytes }
    }

    pub fn duplicate(&self) -> (r: Agent)
        ensures
            r@ == self@,
    {
        Agent { bytes: crate::clone_bytes(&self.bytes) }
    }
}

/// Hash addressing one content operation, compared by value.
#[derive(Hash)]
pub struct OpHash {
    pub bytes: Vec<u8>,
}

impl View for OpHash {
    type V = Seq<u8>;

    open spec fn view(&self) -> Seq<u8> {
        self.bytes@
    }
}

impl OpHash {
    pub fn new(bytes: Vec<u8>) -> (r: OpHash)
        ensures
            r@ == bytes@,
    {
        OpHash { bytes }
    }

    pub fn duplicate(&self) -> (r: OpHash)
        ensures
            r@ == self@,
    {
        OpHash { bytes: crate::clone_bytes(&self.bytes) }
    }
}

/// Mathematical model of a record key: either an operation hash or the
/// identity of an agent-info record (agent bytes and signing time).
#[verifier::ext_equal]
pub enum KeyModel {
    Op(Seq<u8>),
    Agent(Seq<u8>, u64),
}

/// Composite key addressing either kind of record.
#[derive(Hash)]
pub enum RecordKey {
    Op(OpHash),
    AgentInfo(Agent, u64),
}

impl View for RecordKey {
    type V = KeyModel;

    open spec fn view(&self) -> KeyModel {
        match self {
            RecordKey::Op(h) => KeyModel::Op(h@),
            RecordKey::AgentInfo(a, t) => KeyModel::Agent(a@, *t),
        }
    }
}

impl RecordKey {
    pub fn duplicate(&self) -> (r: RecordKey)
        ensures
            r@ == self@,
    {
        match self {
            RecordKey::Op(h) => RecordKey::Op(h.duplicate()),
            RecordKey::AgentInfo(a, t) => RecordKey::AgentInfo(a.duplicate(), *t),
        }
    }

    /// Whether this key addresses an agent-info record.
    pub fn is_agent_info(&self) -> (r: bool)
        ensures
            r == self@ is Agent,
    {
        match self {
            RecordKey::Op(_) => false,
            RecordKey::AgentInfo(_, _) => true,
        }
    }
}

/// Equality of two record keys, decided by kind and underlying bytes.
pub fn key_eq(a: &RecordKey, b: &RecordKey) -> (r: bool)
    ensures
        r <==> a@ == b@,
{
    match (a, b) {
        (RecordKey::Op(h1), RecordKey::Op(h2)) => crate::bytes_eq(&h1.bytes, &h2.bytes),
        (RecordKey::AgentInfo(a1, t1), RecordKey::AgentInfo(a2, t2)) => {
            crate::bytes_eq(&a1.bytes, &a2.bytes) && *t1 == *t2
        },
        _ => false,
    }
}

/// A signed agent-info record, reduced to the parts this engine reads: the
/// advertised agent, the signing time that discriminates successive records,
/// and the encoded payload carried for delivery.
pub struct AgentInfoRecord {
    pub agent: Agent,
    pub signed_at_ms: u64,
    pub encoded: Vec<u8>,
}

/// Mathematical model of an agent-info record.
#[verifier::ext_equal]
pub struct AgentInfoModel {
    pub agent: Seq<u8>,
    pub signed_at_ms: u64,
    pub encoded: Seq<u8>,
}

impl View for AgentInfoRecord {
    type V = AgentInfoModel;

    open spec fn view(&self) -> AgentInfoModel {
        AgentInfoModel { agent: self.agent@, signed_at_ms: self.signed_at_ms, encoded: self.encoded@ }
    }
}

impl AgentInfoRecord {
    pub fn new(agent: Agent, signed_at_ms: u64, encoded: Vec<u8>) -> (r: AgentInfoRecord)
        ensures
            r@ == (AgentInfoModel { agent: agent@, signed_at_ms, encoded: encoded@ }),
    {
        AgentInfoRecord { agent, signed_at_ms, encoded }
    }

    pub fn duplicate(&self) -> (r: AgentInfoRecord)
        ensures
            r@ == self@,
    {
        AgentInfoRecord {
            agent: self.agent.duplicate(),
            signed_at_ms: self.signed_at_ms,
            encoded: crate::clone_bytes(&self.encoded),
        }
    }
}

/// Mathematical model of a record: an operation with its payload, or an
/// agent-info record.
#[verifier::ext_equal]
pub enum DataModel {
    Op(Seq<u8>, Seq<u8>),
    Agent(AgentInfoModel),
}

/// The key under which a record is addressed.
pub open spec fn key_of(d: DataModel) -> KeyModel {
    match d {
        DataModel::Op(hash, _) => KeyModel::Op(hash),
        DataModel::Agent(info) => KeyModel::Agent(info.agent, info.signed_at_ms),
    }
}

/// A record: either an operation (hash and payload) or an agent-info record.
pub enum RecordData {
    Op(OpHash, Vec<u8>),
    AgentInfo(AgentInfoRecord),
}

impl View for RecordData {
    type V = DataModel;

    open spec fn view(&self) -> DataModel {
        match self {
            RecordData::Op(h, payload) => DataModel::Op(h@, payload@),
            RecordData::AgentInfo(info) => DataModel::Agent(info@),
        }
    }
}

impl RecordData {
    /// The key this record is addressed by.
    pub fn key(&self) -> (r: RecordKey)
        ensures
            r@ == key_of(self@),
    {
        match self {
            RecordData::Op(h, _) => RecordKey::Op(h.duplicate()),
            RecordData::AgentInfo(info) => {
                RecordKey::AgentInfo(info.agent.duplicate(), info.signed_at_ms)
            },
        }
    }

    pub fn duplicate(&self) -> (r: RecordData)
        ensures
            r@ == self@,
    {
        match self {
            RecordData::Op(h, payload) => RecordData::Op(h.duplicate(), crate::clone_bytes(payload)),
            RecordData::AgentInfo(info) => RecordData::AgentInfo(info.duplicate()),
        }
    }
}

} // verus!
