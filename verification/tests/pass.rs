//! Whole-pass behaviour: collection, reconciliation, digest.

use bloom_sync::bloom::digest_contains;
use bloom_sync::keys::{Agent, AgentInfoRecord, OpHash, RecordKey, Space};
use bloom_sync::source::{EventSource, SourceError, SyncError};
use bloom_sync::sync::{run_local_sync, SyncState};

/// A scripted external source that records every call made to it.
struct TestSource {
    /// op hashes per agent (agent bytes -> hashes)
    ops: Vec<(Vec<u8>, Vec<Vec<u8>>)>,
    /// the shared agent-info store
    infos: Vec<(Vec<u8>, u64, Vec<u8>)>,
    /// payload per op hash
    payloads: Vec<(Vec<u8>, Vec<u8>)>,
    /// agents whose op query fails
    fail_ops_for: Vec<Vec<u8>>,
    fail_infos: bool,
    fail_fetch: bool,
    empty_fetch: bool,
    wrong_hash_fetch: bool,
    fail_gossip: bool,
    fetch_log: Vec<Vec<u8>>,
    gossip_log: Vec<(Vec<u8>, Vec<u8>, Vec<u8>)>,
    info_queries: usize,
}

impl TestSource {
    fn new() -> TestSource {
        TestSource {
            ops: Vec::new(),
            infos: Vec::new(),
            payloads: Vec::new(),
            fail_ops_for: Vec::new(),
            fail_infos: false,
            fail_fetch: false,
            empty_fetch: false,
            wrong_hash_fetch: false,
            fail_gossip: false,
            fetch_log: Vec::new(),
            gossip_log: Vec::new(),
            info_queries: 0,
        }
    }

    fn give_op(&mut self, agent: &[u8], hash: &[u8], payload: &[u8]) {
        match self.ops.iter_mut().find(|e| e.0 == agent) {
            Some(e) => e.1.push(hash.to_vec()),
            None => self.ops.push((agent.to_vec(), vec![hash.to_vec()])),
        }
        self.payloads.push((hash.to_vec(), payload.to_vec()));
    }
}

impl EventSource for TestSource {
    fn fetch_op_hashes_for_constraints(
        &mut self,
        _space: &Space,
        agent: &Agent,
    ) -> Result<Vec<OpHash>, SourceError> {
        if self.fail_ops_for.iter().any(|a| *a == agent.bytes) {
            return Err(SourceError {});
        }
        match self.ops.iter().find(|e| e.0 == agent.bytes) {
            Some(e) => Ok(e.1.iter().map(|h| OpHash::new(h.clone())).collect()),
            None => Ok(Vec::new()),
        }
    }

    fn query_agent_info(
        &mut self,
        _space: &Space,
        _agent: &Agent,
    ) -> Result<Vec<AgentInfoRecord>, SourceError> {
        self.info_queries += 1;
        if self.fail_infos {
            return Err(SourceError {});
        }
        Ok(self
            .infos
            .iter()
            .map(|(a, t, enc)| AgentInfoRecord::new(Agent::new(a.clone()), *t, enc.clone()))
            .collect())
    }

    fn fetch_op_data(
        &mut self,
        _space: &Space,
        _agent: &Agent,
        op: &OpHash,
    ) -> Result<Vec<(OpHash, Vec<u8>)>, SourceError> {
        if self.fail_fetch {
            return Err(SourceError {});
        }
        self.fetch_log.push(op.bytes.clone());
        if self.empty_fetch {
            return Ok(Vec::new());
        }
        if self.wrong_hash_fetch {
            return Ok(vec![(OpHash::new(b"someone-else".to_vec()), b"x".to_vec())]);
        }
        let payload = self
            .payloads
            .iter()
            .find(|(h, _)| *h == op.bytes)
            .map(|(_, p)| p.clone())
            .unwrap_or_default();
        Ok(vec![(OpHash::new(op.bytes.clone()), payload)])
    }

    fn gossip(
        &mut self,
        _space: &Space,
        to_agent: &Agent,
        from_agent: &Agent,
        op: &OpHash,
        _payload: &Vec<u8>,
    ) -> Result<(), SourceError> {
        if self.fail_gossip {
            return Err(SourceError {});
        }
        self.gossip_log
            .push((to_agent.bytes.clone(), from_agent.bytes.clone(), op.bytes.clone()));
        Ok(())
    }
}

fn space() -> Space {
    Space::new(b"space-1".to_vec())
}

fn agent(b: &[u8]) -> Agent {
    Agent::new(b.to_vec())
}

fn op_key(b: &[u8]) -> RecordKey {
    RecordKey::Op(OpHash::new(b.to_vec()))
}

#[test]
fn two_agent_scenario() {
    let mut src = TestSource::new();
    src.give_op(b"alice", b"h1", b"p1");
    src.give_op(b"alice", b"h2", b"p2");
    src.give_op(b"bob", b"h3", b"p3");
    src.infos.push((b"alice".to_vec(), 7, b"r1".to_vec()));

    let r = run_local_sync(space(), &mut src, vec![agent(b"alice"), agent(b"bob")]);
    let (data_map, keys, bloom) = match r {
        Ok(out) => out,
        Err(e) => panic!("pass failed: {:?}", e),
    };

    // both agents converge on {h1, h2, h3, key(r1)}; the canonical set is one
    // of the (equal) per-agent sets
    assert_eq!(keys.len(), 4);
    assert!(keys.contains_key(&op_key(b"h1")));
    assert!(keys.contains_key(&op_key(b"h2")));
    assert!(keys.contains_key(&op_key(b"h3")));
    assert!(keys.contains_key(&RecordKey::AgentInfo(agent(b"alice"), 7)));

    // the agent-info store was queried once, not once per agent
    assert_eq!(src.info_queries, 1);

    // delivery ran exactly three times: h1 and h2 to bob, h3 to alice
    assert_eq!(
        src.gossip_log,
        vec![
            (b"bob".to_vec(), b"alice".to_vec(), b"h1".to_vec()),
            (b"bob".to_vec(), b"alice".to_vec(), b"h2".to_vec()),
            (b"alice".to_vec(), b"bob".to_vec(), b"h3".to_vec()),
        ]
    );

    // each needed hash was fetched exactly once
    assert_eq!(src.fetch_log, vec![b"h1".to_vec(), b"h2".to_vec(), b"h3".to_vec()]);

    // the fetched payloads stay cached for the next round
    assert_eq!(data_map.len(), 4);

    // the filter reports every canonical key
    assert!(digest_contains(&bloom, &op_key(b"h1")));
    assert!(digest_contains(&bloom, &op_key(b"h2")));
    assert!(digest_contains(&bloom, &op_key(b"h3")));
    assert!(digest_contains(&bloom, &RecordKey::AgentInfo(agent(b"alice"), 7)));

    // an unrelated hash such as h4 is negative with high probability: the
    // false-positive target is one percent, so well under a tenth of many
    // unrelated probes may come back positive
    let mut false_positives = 0;
    for i in 0..200u8 {
        if digest_contains(&bloom, &op_key(&[b'h', b'4', i])) {
            false_positives += 1;
        }
    }
    assert!(false_positives <= 20);
}

#[test]
fn empty_input_succeeds() {
    let mut src = TestSource::new();
    let r = run_local_sync(space(), &mut src, Vec::new());
    let (data_map, keys, bloom) = match r {
        Ok(out) => out,
        Err(e) => panic!("pass failed: {:?}", e),
    };
    assert_eq!(keys.len(), 0);
    assert_eq!(data_map.len(), 0);
    // a degenerate filter reports negative for any probed key
    assert!(!digest_contains(&bloom, &op_key(b"h1")));
    assert!(!digest_contains(&bloom, &RecordKey::AgentInfo(agent(b"nobody"), 0)));
    assert_eq!(src.gossip_log.len(), 0);
    assert_eq!(src.fetch_log.len(), 0);
}

#[test]
fn fetch_zero_results_aborts() {
    let mut src = TestSource::new();
    src.give_op(b"alice", b"h1", b"p1");
    src.give_op(b"bob", b"h3", b"p3");
    src.empty_fetch = true;
    let r = run_local_sync(space(), &mut src, vec![agent(b"alice"), agent(b"bob")]);
    match r {
        Ok(_) => panic!("a zero-result fetch must abort the pass"),
        Err(e) => assert_eq!(e, SyncError::BadFetchResult),
    }
}

#[test]
fn fetch_wrong_hash_aborts() {
    let mut src = TestSource::new();
    src.give_op(b"alice", b"h1", b"p1");
    src.give_op(b"bob", b"h3", b"p3");
    src.wrong_hash_fetch = true;
    let r = run_local_sync(space(), &mut src, vec![agent(b"alice"), agent(b"bob")]);
    match r {
        Ok(_) => panic!("a fetch answering the wrong hash must abort the pass"),
        Err(e) => assert_eq!(e, SyncError::BadFetchResult),
    }
}

#[test]
fn fetch_error_aborts() {
    let mut src = TestSource::new();
    src.give_op(b"alice", b"h1", b"p1");
    src.give_op(b"bob", b"h3", b"p3");
    src.fail_fetch = true;
    let r = run_local_sync(space(), &mut src, vec![agent(b"alice"), agent(b"bob")]);
    match r {
        Ok(_) => panic!("a failed fetch must abort the pass"),
        Err(e) => assert_eq!(e, SyncError::FetchFailed),
    }
}

#[test]
fn delivery_failure_aborts() {
    let mut src = TestSource::new();
    src.give_op(b"alice", b"h1", b"p1");
    src.give_op(b"bob", b"h3", b"p3");
    src.fail_gossip = true;
    let r = run_local_sync(space(), &mut src, vec![agent(b"alice"), agent(b"bob")]);
    match r {
        Ok(_) => panic!("a failed delivery must abort the pass"),
        Err(e) => assert_eq!(e, SyncError::DeliverFailed),
    }
}

#[test]
fn collection_is_best_effort() {
    let mut src = TestSource::new();
    src.give_op(b"alice", b"h1", b"p1");
    src.give_op(b"bob", b"h3", b"p3");
    // alice's op query fails: her contribution is skipped, not escalated
    src.fail_ops_for.push(b"alice".to_vec());
    src.fail_infos = true;
    let r = run_local_sync(space(), &mut src, vec![agent(b"alice"), agent(b"bob")]);
    let (_, keys, _) = match r {
        Ok(out) => out,
        Err(e) => panic!("collection gaps must not fail the pass: {:?}", e),
    };
    assert_eq!(keys.len(), 1);
    assert!(keys.contains_key(&op_key(b"h3")));
    assert!(!keys.contains_key(&op_key(b"h1")));
}

#[test]
fn fetch_cached_across_pairs() {
    // h1 is missing from both bob's and carol's sets, yet is fetched from the
    // source only once; the second delivery is served from the store
    let mut src = TestSource::new();
    src.give_op(b"alice", b"h1", b"p1");
    src.give_op(b"bob", b"h2", b"p2");
    src.give_op(b"carol", b"h3", b"p3");
    let r = run_local_sync(
        space(),
        &mut src,
        vec![agent(b"alice"), agent(b"bob"), agent(b"carol")],
    );
    let (_, keys, _) = match r {
        Ok(out) => out,
        Err(e) => panic!("pass failed: {:?}", e),
    };
    assert_eq!(keys.len(), 3);
    assert_eq!(src.gossip_log.len(), 6);
    for h in [b"h1", b"h2", b"h3"] {
        let n = src.fetch_log.iter().filter(|f| **f == h.to_vec()).count();
        assert_eq!(n, 1);
    }
}

#[test]
fn agent_info_reaches_agents_without_ops() {
    // alice's op query fails, so she enters reconciliation with no ops — yet
    // the shared agent-info records still reach her, and reconciliation then
    // brings her bob's ops too
    let mut src = TestSource::new();
    src.give_op(b"bob", b"h3", b"p3");
    src.fail_ops_for.push(b"alice".to_vec());
    src.infos.push((b"dora".to_vec(), 3, b"r1".to_vec()));

    let mut st = SyncState::new(space(), vec![agent(b"alice"), agent(b"bob")]);
    st.collect_local_ops(&mut src);
    st.collect_local_agents(&mut src);
    let r = st.local_sync(&mut src);
    assert!(r.is_ok());

    for a in [b"alice".as_slice(), b"bob".as_slice()] {
        let ks = st.has_map.get(&agent(a)).expect("agent entry");
        assert_eq!(ks.len(), 2);
        assert!(ks.contains_key(&RecordKey::AgentInfo(agent(b"dora"), 3)));
        assert!(ks.contains_key(&op_key(b"h3")));
    }
}

#[test]
fn convergence_and_conservation() {
    let mut src = TestSource::new();
    src.give_op(b"alice", b"h1", b"p1");
    src.give_op(b"bob", b"h2", b"p2");
    src.give_op(b"carol", b"h3", b"p3");
    src.infos.push((b"dora".to_vec(), 3, b"r1".to_vec()));

    // drive the stages one by one to inspect the index afterwards
    let mut st = SyncState::new(
        space(),
        vec![agent(b"alice"), agent(b"bob"), agent(b"carol")],
    );
    st.collect_local_ops(&mut src);
    st.collect_local_agents(&mut src);
    let r = st.local_sync(&mut src);
    assert!(r.is_ok());

    let expected = [
        op_key(b"h1"),
        op_key(b"h2"),
        op_key(b"h3"),
        RecordKey::AgentInfo(agent(b"dora"), 3),
    ];
    for a in [b"alice".as_slice(), b"bob".as_slice(), b"carol".as_slice()] {
        let ks = st.has_map.get(&agent(a)).expect("agent entry");
        assert_eq!(ks.len(), expected.len());
        for k in expected.iter() {
            assert!(ks.contains_key(k));
        }
    }
}

#[test]
fn filter_reports_every_canonical_key() {
    let mut src = TestSource::new();
    for i in 0..50u8 {
        let h = vec![b'h', i];
        let p = vec![b'p', i];
        if i % 2 == 0 {
            src.give_op(b"alice", &h, &p);
        } else {
            src.give_op(b"bob", &h, &p);
        }
    }
    let r = run_local_sync(space(), &mut src, vec![agent(b"alice"), agent(b"bob")]);
    let (_, keys, bloom) = match r {
        Ok(out) => out,
        Err(e) => panic!("pass failed: {:?}", e),
    };
    assert_eq!(keys.len(), 50);
    for i in 0..50u8 {
        assert!(digest_contains(&bloom, &op_key(&[b'h', i])));
    }
}
