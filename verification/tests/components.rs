//! Component behaviour: stores, absorption, fetch-answer handling.

use bloom_sync::bytes_eq;
use bloom_sync::keys::{key_eq, Agent, AgentInfoRecord, OpHash, RecordData, RecordKey, Space};
use bloom_sync::source::{EventSource, SourceError, SyncError};
use bloom_sync::store::{AgentIndex, DataMap, KeySet};
use bloom_sync::sync::SyncState;

/// A minimal source for reconciliation-level tests.
struct ScriptSource {
    payloads: Vec<(Vec<u8>, Vec<u8>)>,
}

impl EventSource for ScriptSource {
    fn fetch_op_hashes_for_constraints(
        &mut self,
        _space: &Space,
        _agent: &Agent,
    ) -> Result<Vec<OpHash>, SourceError> {
        Ok(Vec::new())
    }

    fn query_agent_info(
        &mut self,
        _space: &Space,
        _agent: &Agent,
    ) -> Result<Vec<AgentInfoRecord>, SourceError> {
        Ok(Vec::new())
    }

    fn fetch_op_data(
        &mut self,
        _space: &Space,
        _agent: &Agent,
        op: &OpHash,
    ) -> Result<Vec<(OpHash, Vec<u8>)>, SourceError> {
        let payload = self
            .payloads
            .iter()
            .find(|(h, _)| *h == op.bytes)
            .map(|(_, p)| p.clone())
            .unwrap_or_default();
        Ok(vec![(OpHash::new(op.bytes.clone()), payload)])
    }

    fn gossip(
        &mut self,
        _space: &Space,
        _to_agent: &Agent,
        _from_agent: &Agent,
        _op: &OpHash,
        _payload: &Vec<u8>,
    ) -> Result<(), SourceError> {
        Ok(())
    }
}

fn space() -> Space {
    Space::new(b"space-1".to_vec())
}

fn agent(b: &[u8]) -> Agent {
    Agent::new(b.to_vec())
}

fn op_key(b: &[u8]) -> RecordKey {
    RecordKey::Op(OpHash::new(b.to_vec()))
}

fn info(a: &[u8], t: u64, enc: &[u8]) -> AgentInfoRecord {
    AgentInfoRecord::new(agent(a), t, enc.to_vec())
}

#[test]
fn byte_and_key_equality() {
    assert!(bytes_eq(&b"abc".to_vec(), &b"abc".to_vec()));
    assert!(!bytes_eq(&b"abc".to_vec(), &b"abd".to_vec()));
    assert!(!bytes_eq(&b"abc".to_vec(), &b"ab".to_vec()));
    assert!(key_eq(&op_key(b"h1"), &op_key(b"h1")));
    assert!(!key_eq(&op_key(b"h1"), &op_key(b"h2")));
    assert!(key_eq(
        &RecordKey::AgentInfo(agent(b"a"), 5),
        &RecordKey::AgentInfo(agent(b"a"), 5),
    ));
    assert!(!key_eq(
        &RecordKey::AgentInfo(agent(b"a"), 5),
        &RecordKey::AgentInfo(agent(b"a"), 6),
    ));
    assert!(!key_eq(&op_key(b"a"), &RecordKey::AgentInfo(agent(b"a"), 5)));
}

#[test]
fn key_set_deduplicates() {
    let mut ks = KeySet::new();
    ks.insert(op_key(b"h1"));
    ks.insert(op_key(b"h2"));
    ks.insert(op_key(b"h1"));
    assert_eq!(ks.len(), 2);
    assert!(ks.contains_key(&op_key(b"h1")));
    assert!(ks.contains_key(&op_key(b"h2")));
    assert!(!ks.contains_key(&op_key(b"h3")));
}

#[test]
fn agent_index_entries() {
    let mut idx = AgentIndex::new();
    idx.add_entry(agent(b"a"));
    idx.add_entry(agent(b"b"));
    assert_eq!(idx.len(), 2);
    idx.add_key_at(0, op_key(b"h1"));
    idx.add_key_at(0, op_key(b"h1"));
    assert_eq!(idx.get(&agent(b"a")).unwrap().len(), 1);
    assert_eq!(idx.get(&agent(b"b")).unwrap().len(), 0);
    assert!(idx.get(&agent(b"c")).is_none());
    assert!(idx.find(&agent(b"b")).is_some());
}

#[test]
fn data_map_lookup() {
    let mut dm = DataMap::new();
    assert!(dm.get(&op_key(b"h1")).is_none());
    dm.insert_new(op_key(b"h1"), RecordData::Op(OpHash::new(b"h1".to_vec()), b"p1".to_vec()));
    assert_eq!(dm.len(), 1);
    match dm.get(&op_key(b"h1")) {
        Some(RecordData::Op(h, p)) => {
            assert_eq!(h.bytes, b"h1".to_vec());
            assert_eq!(p, &b"p1".to_vec());
        },
        _ => panic!("expected the op record back"),
    }
}

#[test]
fn agent_info_reaches_every_local_agent() {
    // universality: every local agent ends with every agent-info key,
    // whatever it held before — including an agent like c that reported no
    // ops and so had no entry yet
    let mut st = SyncState::new(space(), vec![agent(b"a"), agent(b"b"), agent(b"c")]);
    st.absorb_op_hashes(&agent(b"a"), &vec![OpHash::new(b"h1".to_vec())]);
    st.absorb_op_hashes(&agent(b"b"), &vec![OpHash::new(b"h2".to_vec())]);
    st.absorb_agent_infos(&vec![info(b"x", 1, b"r1"), info(b"y", 2, b"r2")]);

    for a in [b"a", b"b", b"c"] {
        let ks = st.has_map.get(&agent(a)).expect("entry");
        assert!(ks.contains_key(&RecordKey::AgentInfo(agent(b"x"), 1)));
        assert!(ks.contains_key(&RecordKey::AgentInfo(agent(b"y"), 2)));
    }
    assert_eq!(st.has_map.get(&agent(b"c")).unwrap().len(), 2);
    assert_eq!(st.data_map.len(), 2);
}

#[test]
fn no_records_no_new_entries() {
    // an empty answer from the agent-info store adds nothing, not even
    // entries for agents that have none
    let mut st = SyncState::new(space(), vec![agent(b"a"), agent(b"b")]);
    st.absorb_op_hashes(&agent(b"a"), &vec![OpHash::new(b"h1".to_vec())]);
    st.absorb_agent_infos(&Vec::new());
    assert_eq!(st.has_map.len(), 1);
    assert!(st.has_map.get(&agent(b"b")).is_none());
    assert_eq!(st.data_map.len(), 0);
}

#[test]
fn agent_info_insert_is_idempotent() {
    // once a key is cached it is never overwritten: the first record wins
    let mut st = SyncState::new(space(), vec![agent(b"a")]);
    st.absorb_op_hashes(&agent(b"a"), &vec![OpHash::new(b"h1".to_vec())]);
    st.absorb_agent_infos(&vec![info(b"x", 1, b"first")]);
    st.absorb_agent_infos(&vec![info(b"x", 1, b"second")]);
    assert_eq!(st.data_map.len(), 1);
    match st.data_map.get(&RecordKey::AgentInfo(agent(b"x"), 1)) {
        Some(RecordData::AgentInfo(rec)) => assert_eq!(rec.encoded, b"first".to_vec()),
        _ => panic!("expected the cached agent-info record"),
    }
    let ks = st.has_map.get(&agent(b"a")).expect("entry");
    assert_eq!(ks.len(), 2);
}

#[test]
fn fetch_answer_must_have_one_record() {
    let mut st = SyncState::new(space(), vec![agent(b"a")]);
    let h = OpHash::new(b"h1".to_vec());
    match st.absorb_fetched_op(&h, Vec::new()) {
        Err(e) => assert_eq!(e, SyncError::BadFetchResult),
        Ok(_) => panic!("zero records must be rejected"),
    }
    let two = vec![
        (OpHash::new(b"h1".to_vec()), b"p1".to_vec()),
        (OpHash::new(b"h1".to_vec()), b"p1".to_vec()),
    ];
    match st.absorb_fetched_op(&h, two) {
        Err(e) => assert_eq!(e, SyncError::BadFetchResult),
        Ok(_) => panic!("two records must be rejected"),
    }
    assert_eq!(st.data_map.len(), 0);
}

#[test]
fn fetch_answer_must_echo_the_hash() {
    let mut st = SyncState::new(space(), vec![agent(b"a")]);
    let h = OpHash::new(b"h1".to_vec());
    let other = vec![(OpHash::new(b"h9".to_vec()), b"p".to_vec())];
    match st.absorb_fetched_op(&h, other) {
        Err(e) => assert_eq!(e, SyncError::BadFetchResult),
        Ok(_) => panic!("a record under another hash must be rejected"),
    }
    assert_eq!(st.data_map.len(), 0);
}

#[test]
fn fetch_answer_is_cached_and_returned() {
    let mut st = SyncState::new(space(), vec![agent(b"a")]);
    let h = OpHash::new(b"h1".to_vec());
    let good = vec![(OpHash::new(b"h1".to_vec()), b"p1".to_vec())];
    match st.absorb_fetched_op(&h, good) {
        Ok(RecordData::Op(hash, payload)) => {
            assert_eq!(hash.bytes, b"h1".to_vec());
            assert_eq!(payload, b"p1".to_vec());
        },
        _ => panic!("a well-formed answer must be accepted"),
    }
    assert_eq!(st.data_map.len(), 1);
    assert!(st.data_map.get(&op_key(b"h1")).is_some());
}

#[test]
fn missing_agent_info_cached_record_is_fatal() {
    // an entry that somehow lacks an agent-info key another entry holds — here
    // one absorbed for an agent outside the pass's local set, after the
    // records came in — marks a broken invariant: the record is still cached,
    // so the lookup succeeds, but an agent-info record must never need
    // delivery
    let mut src = ScriptSource { payloads: vec![(b"h1".to_vec(), b"p1".to_vec())] };
    let mut st = SyncState::new(space(), vec![agent(b"a")]);
    st.absorb_op_hashes(&agent(b"a"), &vec![OpHash::new(b"h1".to_vec())]);
    st.absorb_agent_infos(&vec![info(b"x", 1, b"r1")]);
    st.absorb_op_hashes(&agent(b"b"), &vec![OpHash::new(b"h2".to_vec())]);
    match st.local_sync(&mut src) {
        Err(e) => assert_eq!(e, SyncError::MissingAgentInfo),
        Ok(_) => panic!("a missing agent-info key must abort the pass"),
    }
}

#[test]
fn missing_agent_info_uncached_is_fatal() {
    // as above, but the record is not even cached: the cache miss on an
    // agent-info key is itself the broken invariant
    let mut src = ScriptSource { payloads: vec![(b"h1".to_vec(), b"p1".to_vec())] };
    let mut st = SyncState::new(space(), vec![agent(b"a")]);
    st.absorb_op_hashes(&agent(b"a"), &vec![OpHash::new(b"h1".to_vec())]);
    st.absorb_agent_infos(&vec![info(b"x", 1, b"r1")]);
    st.absorb_op_hashes(&agent(b"b"), &vec![OpHash::new(b"h2".to_vec())]);
    st.data_map = DataMap::new();
    match st.local_sync(&mut src) {
        Err(e) => assert_eq!(e, SyncError::MissingAgentInfo),
        Ok(_) => panic!("an uncached agent-info key must abort the pass"),
    }
}

/// A source whose payload fetches always fail.
struct FailingSource;

impl EventSource for FailingSource {
    fn fetch_op_hashes_for_constraints(
        &mut self,
        _space: &Space,
        _agent: &Agent,
    ) -> Result<Vec<OpHash>, SourceError> {
        Ok(Vec::new())
    }

    fn query_agent_info(
        &mut self,
        _space: &Space,
        _agent: &Agent,
    ) -> Result<Vec<AgentInfoRecord>, SourceError> {
        Ok(Vec::new())
    }

    fn fetch_op_data(
        &mut self,
        _space: &Space,
        _agent: &Agent,
        _op: &OpHash,
    ) -> Result<Vec<(OpHash, Vec<u8>)>, SourceError> {
        Err(SourceError {})
    }

    fn gossip(
        &mut self,
        _space: &Space,
        _to_agent: &Agent,
        _from_agent: &Agent,
        _op: &OpHash,
        _payload: &Vec<u8>,
    ) -> Result<(), SourceError> {
        Ok(())
    }
}

#[test]
fn failed_sync_leaves_index_unchanged() {
    // the caller can discard a failed pass: the index is as collected
    let mut src = FailingSource;
    let mut st = SyncState::new(space(), vec![agent(b"a"), agent(b"b")]);
    st.absorb_op_hashes(&agent(b"a"), &vec![OpHash::new(b"h1".to_vec())]);
    st.absorb_op_hashes(&agent(b"b"), &vec![OpHash::new(b"h2".to_vec())]);
    match st.local_sync(&mut src) {
        Err(e) => assert_eq!(e, SyncError::FetchFailed),
        Ok(_) => panic!("the failed fetch must surface"),
    }
    // bob's entry did not gain alice's key
    assert_eq!(st.has_map.get(&agent(b"a")).unwrap().len(), 1);
    assert_eq!(st.has_map.get(&agent(b"b")).unwrap().len(), 1);
    assert!(!st.has_map.get(&agent(b"b")).unwrap().contains_key(&op_key(b"h1")));
}
