//! One local-sync pass.
//!
//! The pass owns a space, the node's local agents, the shared record cache
//! and the per-agent knowledge index. It first collects each agent's op keys
//! and the space's shared agent-info records, then reconciles the per-agent
//! sets by direct in-process delivery until they are equal, and finally
//! summarises the converged set in a Bloom filter.

use vstd::prelude::*;

use crate::keys::key_of;
use crate::keys::Agent;
use crate::keys::AgentInfoModel;
use crate::keys::AgentInfoRecord;
use crate::keys::KeyModel;
use crate::keys::OpHash;
use crate::keys::RecordData;
use crate::keys::RecordKey;
use crate::keys::Space;
use crate::source::EventSource;
use crate::source::SyncError;
use crate::store::AgentIndex;
use crate::store::DataMap;
use crate::store::KeySet;

verus! {

/// One entry of the per-agent index, as its mathematical model.
pub type IndexEntry = (Seq<u8>, Seq<KeyModel>);

/// The index has an entry for this agent.
pub open spec fn index_has_agent(m: Seq<IndexEntry>, a: Seq<u8>) -> bool {
    exists|i: int| 0 <= i < m.len() && m[i].0 == a
}

/// The keys of this agent's entry (meaningful when the entry exists and
/// agents are unique).
pub open spec fn agent_keys(m: Seq<IndexEntry>, a: Seq<u8>) -> Seq<KeyModel> {
    let i = choose|i: int| 0 <= i < m.len() && m[i].0 == a;
    m[i].1
}

/// Some entry of the index holds this key.
pub open spec fn known(m: Seq<IndexEntry>, k: KeyModel) -> bool {
    exists|i: int| 0 <= i < m.len() && #[trigger] m[i].1.contains(k)
}

/// Some entry among the first `n` holds this key.
pub open spec fn known_upto(m: Seq<IndexEntry>, n: int, k: KeyModel) -> bool {
    exists|i: int| 0 <= i < n && i < m.len() && #[trigger] m[i].1.contains(k)
}

/// All entries hold the same keys.
pub open spec fn converged(m: Seq<IndexEntry>) -> bool {
    forall|i: int, j: int, k: KeyModel|
        0 <= i < m.len() && 0 <= j < m.len() && #[trigger] m[i].1.contains(k) ==> #[trigger] m[
            j
        ].1.contains(k)
}

/// The key is the op key of one of these hashes.
pub open spec fn is_op_of(k: KeyModel, hs: Seq<Seq<u8>>) -> bool {
    exists|t: int| 0 <= t < hs.len() && k == KeyModel::Op(hs[t])
}

/// The key addresses one of these agent-info records.
pub open spec fn is_info_key_of(k: KeyModel, iv: Seq<AgentInfoModel>) -> bool {
    exists|t: int| 0 <= t < iv.len() && k == KeyModel::Agent(iv[t].agent, iv[t].signed_at_ms)
}

/// Every entry of `d` at or beyond position `from` is one of these
/// agent-info records.
pub open spec fn added_are_infos(
    from: int,
    d: Seq<(KeyModel, crate::keys::DataModel)>,
    iv: Seq<AgentInfoModel>,
) -> bool {
    forall|i: int|
        from <= i < d.len() ==> exists|t: int|
            0 <= t < iv.len() && (#[trigger] d[i]).1 == crate::keys::DataModel::Agent(iv[t])
}

/// The view of a vector of op hashes.
pub open spec fn hashes_view(hs: Seq<OpHash>) -> Seq<Seq<u8>> {
    hs.map_values(|h: OpHash| h@)
}

/// The view of a vector of agents.
pub open spec fn agents_view(la: Seq<Agent>) -> Seq<Seq<u8>> {
    la.map_values(|a: Agent| a@)
}

/// The view of a vector of agent-info records.
pub open spec fn infos_view(iv: Seq<AgentInfoRecord>) -> Seq<AgentInfoModel> {
    iv.map_values(|r: AgentInfoRecord| r@)
}

/// `post` extends `pre` by op keys only: old entries keep their agents and
/// lose no key, and every added or new key is an op key.
pub open spec fn ops_extended(pre: Seq<IndexEntry>, post: Seq<IndexEntry>) -> bool {
    &&& pre.len() <= post.len()
    &&& forall|t: int| 0 <= t < pre.len() ==> post[t].0 == pre[t].0
    &&& forall|t: int, k: KeyModel|
        0 <= t < pre.len() && #[trigger] pre[t].1.contains(k) ==> post[t].1.contains(k)
    &&& forall|t: int, k: KeyModel|
        0 <= t < pre.len() && #[trigger] post[t].1.contains(k) && !pre[t].1.contains(k) ==> k is Op
    &&& forall|t: int, k: KeyModel|
        pre.len() <= t < post.len() && #[trigger] post[t].1.contains(k) ==> k is Op
}

pub proof fn lemma_ops_extended_trans(a: Seq<IndexEntry>, b: Seq<IndexEntry>, c: Seq<IndexEntry>)
    requires
        ops_extended(a, b),
        ops_extended(b, c),
    ensures
        ops_extended(a, c),
{
}

pub proof fn lemma_prefix_push<A>(s: Seq<A>, x: A)
    ensures
        s.is_prefix_of(s.push(x)),
{
    assert(s =~= s.push(x).subrange(0, s.len() as int));
}

pub proof fn lemma_prefix_trans<A>(a: Seq<A>, b: Seq<A>, c: Seq<A>)
    requires
        a.is_prefix_of(b),
        b.is_prefix_of(c),
    ensures
        a.is_prefix_of(c),
{
    assert forall|i: int| 0 <= i < a.len() implies a[i] == #[trigger] c.subrange(
        0,
        a.len() as int,
    )[i] by {
        assert(a[i] == b.subrange(0, a.len() as int)[i]);
        assert(b[i] == c.subrange(0, b.len() as int)[i]);
    }
    assert(a =~= c.subrange(0, a.len() as int));
}

/// State of one local-sync pass.
pub struct SyncState {
    /// The space being synchronised.
    pub space: Space,
    /// The node's local agents.
    pub local_agents: Vec<Agent>,
    /// Cache of fetched records, shared across the pass.
    pub data_map: DataMap,
    /// Per-agent knowledge index.
    pub has_map: AgentIndex,
    /// The op keys fetched from the source so far, in order. The pass keeps
    /// this log duplicate-free: a hash already cached is never fetched again.
    pub fetched: Ghost<Seq<KeyModel>>,
}

impl SyncState {
    /// The stores are well formed and every fetched key is cached, so no key
    /// is ever fetched twice.
    pub open spec fn wf(&self) -> bool {
        &&& self.data_map.wf()
        &&& self.has_map.wf()
        &&& self.fetched@.no_duplicates()
        &&& forall|t: int|
            0 <= t < self.fetched@.len() ==> self.data_map.has_key(#[trigger] self.fetched@[t])
    }

    /// A fresh pass over a space for a set of local agents.
    pub fn new(space: Space, local_agents: Vec<Agent>) -> (r: SyncState)
        ensures
            r.wf(),
            r.space == space,
            r.local_agents == local_agents,
            r.data_map@ =~= Seq::<(KeyModel, crate::keys::DataModel)>::empty(),
            r.has_map@ =~= Seq::<IndexEntry>::empty(),
            r.fetched@ =~= Seq::<KeyModel>::empty(),
    {
        SyncState {
            space,
            local_agents,
            data_map: DataMap::new(),
            has_map: AgentIndex::new(),
            fetched: Ghost(Seq::empty()),
        }
    }

    /// Record that one agent holds these op hashes: each hash becomes an op
    /// key in that agent's entry, created if absent. An agent that reports no
    /// hashes and has no entry gets none.
    #[verifier::loop_isolation(false)]
    pub fn absorb_op_hashes(&mut self, agent: &Agent, hashes: &Vec<OpHash>)
        requires
            old(self).wf(),
        ensures
            final(self).wf(),
            final(self).space == old(self).space,
            final(self).local_agents == old(self).local_agents,
            final(self).data_map == old(self).data_map,
            final(self).fetched == old(self).fetched,
            ops_extended(old(self).has_map@, final(self).has_map@),
            ({
                let m0 = old(self).has_map@;
                let m1 = final(self).has_map@;
                let hs = hashes_view(hashes@);
                &&& m1.len() == if index_has_agent(m0, agent@) || hs.len() == 0 {
                    m0.len()
                } else {
                    m0.len() + 1
                }
                &&& forall|t: int| 0 <= t < m0.len() ==> m1[t].0 == m0[t].0
                &&& forall|t: int| 0 <= t < m0.len() && m0[t].0 != agent@ ==> m1[t] == m0[t]
                &&& index_has_agent(m1, agent@) <==> (index_has_agent(m0, agent@) || hs.len() > 0)
                &&& m0.len() < m1.len() ==> m1[m0.len() as int].0 == agent@
                &&& forall|t: int, k: KeyModel|
                    0 <= t < m1.len() && m1[t].0 == agent@ ==> ((#[trigger] m1[t].1.contains(k))
                        <==> ((index_has_agent(m0, agent@) && agent_keys(m0, agent@).contains(k))
                        || is_op_of(k, hs)))
            }),
    {
        let ghost m0 = self.has_map@;
        let ghost hs = hashes_view(hashes@);
        let idx: usize;
        match self.has_map.find(agent) {
            Some(i) => {
                idx = i;
                proof {
                    assert(index_has_agent(m0, agent@));
                    assert(agent_keys(m0, agent@) == m0[idx as int].1) by {
                        let c = choose|c: int| 0 <= c < m0.len() && m0[c].0 == agent@;
                        assert(c == idx as int);
                    }
                }
            },
            None => {
                if hashes.len() == 0 {
                    proof {
                        assert(!index_has_agent(m0, agent@));
                        assert(hs.len() == 0);
                    }
                    return ;
                }
                self.has_map.add_entry(agent.duplicate());
                idx = self.has_map.len() - 1;
                proof {
                    assert(!index_has_agent(m0, agent@));
                    assert(self.has_map@[idx as int].0 == agent@);
                }
            },
        }
        let ghost m_init = self.has_map@;
        let ghost base: Seq<KeyModel> = m_init[idx as int].1;
        proof {
            assert(index_has_agent(m0, agent@) <==> (idx as int) < m0.len());
            assert(forall|s: int| 0 <= s < m0.len() && s != idx as int ==> m_init[s] == m0[s]);
            assert((idx as int) < m0.len() ==> m_init[idx as int] == m0[idx as int]);
            assert((idx as int) < m0.len() ==> base == agent_keys(m0, agent@));
            assert((idx as int) >= m0.len() ==> (idx as int == m0.len() && base
                =~= Seq::<KeyModel>::empty() && m_init == m0.push((agent@, base))));
        }
        let mut t: usize = 0;
        while t < hashes.len()
            invariant
                old(self).wf(),
                self.has_map.wf(),
                self.data_map == old(self).data_map,
                self.fetched == old(self).fetched,
                self.space == old(self).space,
                self.local_agents == old(self).local_agents,
                0 <= t <= hashes@.len(),
                hs == hashes_view(hashes@),
                idx < self.has_map@.len(),
                self.has_map@.len() == m_init.len(),
                forall|s: int| 0 <= s < m_init.len() && s != idx ==> self.has_map@[s] == m_init[s],
                self.has_map@[idx as int].0 == agent@,
                forall|k: KeyModel|
                    #[trigger] self.has_map@[idx as int].1.contains(k) <==> (base.contains(k)
                        || is_op_of(k, hs.take(t as int))),
            decreases hashes@.len() - t,
        {
            let ghost before = self.has_map@[idx as int].1;
            self.has_map.add_key_at(idx, RecordKey::Op(hashes[t].duplicate()));
            proof {
                assert(hs[t as int] == hashes@[t as int]@);
                assert forall|k: KeyModel|
                    #[trigger] self.has_map@[idx as int].1.contains(k) <==> (base.contains(k)
                        || is_op_of(k, hs.take(t + 1))) by {
                    assert(self.has_map@[idx as int].1.contains(k) <==> (before.contains(k) || k
                        == KeyModel::Op(hs[t as int])));
                    if is_op_of(k, hs.take(t as int)) {
                        let w = choose|w: int|
                            0 <= w < hs.take(t as int).len() && k == KeyModel::Op(
                                #[trigger] hs.take(t as int)[w],
                            );
                        assert(hs.take(t + 1)[w] == hs[w]);
                        assert(is_op_of(k, hs.take(t + 1)));
                    }
                    if k == KeyModel::Op(hs[t as int]) {
                        assert(hs.take(t + 1)[t as int] == hs[t as int]);
                        assert(is_op_of(k, hs.take(t + 1)));
                    }
                    if is_op_of(k, hs.take(t + 1)) {
                        let w = choose|w: int|
                            0 <= w < hs.take(t + 1).len() && k == KeyModel::Op(
                                #[trigger] hs.take(t + 1)[w],
                            );
                        if w < t {
                            assert(hs.take(t as int)[w] == hs[w]);
                            assert(is_op_of(k, hs.take(t as int)));
                        } else {
                            assert(k == KeyModel::Op(hs[t as int]));
                        }
                    }
                }
            }
            t = t + 1;
        }
        proof {
            assert(hs.take(hashes@.len() as int) =~= hs);
            assert forall|s: int|
                0 <= s < self.has_map@.len() && (#[trigger] self.has_map@[s]).0
                    == agent@ implies s == idx as int by {
                if s != idx as int {
                    assert(self.has_map@[s].0 == self.has_map@[idx as int].0);
                }
            }
            assert(index_has_agent(self.has_map@, agent@)) by {
                assert(self.has_map@[idx as int].0 == agent@);
            }
            assert(ops_extended(m0, self.has_map@)) by {
                assert forall|s: int, k: KeyModel|
                    0 <= s < m0.len() && #[trigger] m0[s].1.contains(k) implies self.has_map@[
                    s
                ].1.contains(k) by {
                    if s == idx as int {
                        assert(m_init[s] == m0[s]);
                        assert(base.contains(k));
                        assert(self.has_map@[idx as int].1.contains(k));
                    } else {
                        assert(self.has_map@[s] == m_init[s]);
                        assert(m_init[s] == m0[s]);
                    }
                }
                assert forall|s: int, k: KeyModel|
                    0 <= s < m0.len() && #[trigger] self.has_map@[s].1.contains(k) && !m0[
                        s
                    ].1.contains(k) implies k is Op by {
                    if s == idx as int {
                        assert(base == m0[s].1);
                        assert(is_op_of(k, hs));
                        let w = choose|w: int| 0 <= w < hs.len() && k == KeyModel::Op(
                            #[trigger] hs[w],
                        );
                        assert(k is Op);
                    } else {
                        assert(self.has_map@[s] == m_init[s]);
                        assert(m_init[s] == m0[s]);
                    }
                }
                assert forall|s: int, k: KeyModel|
                    m0.len() <= s < self.has_map@.len() && #[trigger] self.has_map@[
                        s
                    ].1.contains(k) implies k is Op by {
                    assert(s == idx as int);
                    assert(!base.contains(k) || base =~= Seq::<KeyModel>::empty());
                    assert(is_op_of(k, hs));
                }
            }
        }
    }

    /// Query every local agent for the ops it holds and record them. A
    /// failed query skips that agent: collection is best effort and is
    /// repeated on the next cycle.
    pub fn collect_local_ops<S: EventSource>(&mut self, src: &mut S)
        requires
            old(self).wf(),
        ensures
            final(self).wf(),
            final(self).space == old(self).space,
            final(self).local_agents == old(self).local_agents,
            final(self).data_map == old(self).data_map,
            final(self).fetched == old(self).fetched,
            ops_extended(old(self).has_map@, final(self).has_map@),
            old(self).local_agents@.len() == 0 ==> final(self).has_map == old(self).has_map,
            forall|t: int|
                old(self).has_map@.len() <= t < final(self).has_map@.len() ==> agents_view(
                    old(self).local_agents@,
                ).contains((#[trigger] final(self).has_map@[t]).0),
    {
        let mut a: usize = 0;
        while a < self.local_agents.len()
            invariant
                old(self).wf(),
                self.wf(),
                self.space == old(self).space,
                self.local_agents == old(self).local_agents,
                self.data_map == old(self).data_map,
                self.fetched == old(self).fetched,
                ops_extended(old(self).has_map@, self.has_map@),
                old(self).local_agents@.len() == 0 ==> self.has_map == old(self).has_map,
                forall|t: int|
                    old(self).has_map@.len() <= t < self.has_map@.len() ==> agents_view(
                        old(self).local_agents@,
                    ).contains((#[trigger] self.has_map@[t]).0),
                0 <= a <= self.local_agents@.len(),
            decreases self.local_agents@.len() - a,
        {
            let agent = self.local_agents[a].duplicate();
            let ghost mid = self.has_map@;
            match src.fetch_op_hashes_for_constraints(&self.space, &agent) {
                Ok(hashes) => {
                    self.absorb_op_hashes(&agent, &hashes);
                    proof {
                        lemma_ops_extended_trans(old(self).has_map@, mid, self.has_map@);
                        assert forall|t: int|
                            old(self).has_map@.len() <= t < self.has_map@.len() implies agents_view(
                            old(self).local_agents@,
                        ).contains((#[trigger] self.has_map@[t]).0) by {
                            if t < mid.len() {
                                assert(self.has_map@[t].0 == mid[t].0);
                            } else {
                                assert(self.has_map@[t].0 == agent@);
                                assert(agents_view(old(self).local_agents@)[a as int] == agent@);
                            }
                        }
                    }
                },
                Err(_) => {},
            }
            a = a + 1;
        }
    }

    /// Record the space's shared agent-info records. With records in hand,
    /// every local agent first gets an index entry, created empty if it had
    /// none; then each record is cached (a key already present is never
    /// overwritten) and its key is added to every entry. So every local
    /// agent's set ends with every agent-info key, whatever the agent held —
    /// or lacked — before.
    #[verifier::loop_isolation(false)]
    pub fn absorb_agent_infos(&mut self, infos: &Vec<AgentInfoRecord>)
        requires
            old(self).wf(),
        ensures
            final(self).wf(),
            final(self).space == old(self).space,
            final(self).local_agents == old(self).local_agents,
            final(self).fetched == old(self).fetched,
            infos@.len() == 0 ==> final(self).has_map == old(self).has_map && final(self).data_map
                == old(self).data_map,
            ({
                let m0 = old(self).has_map@;
                let m1 = final(self).has_map@;
                let iv = infos_view(infos@);
                let la = agents_view(old(self).local_agents@);
                let d0 = old(self).data_map@;
                let d1 = final(self).data_map@;
                &&& m0.len() <= m1.len()
                &&& forall|t: int| 0 <= t < m0.len() ==> m1[t].0 == m0[t].0
                &&& forall|t: int, k: KeyModel|
                    0 <= t < m0.len() ==> ((#[trigger] m1[t].1.contains(k)) <==> (m0[
                        t
                    ].1.contains(k) || is_info_key_of(k, iv)))
                &&& forall|t: int|
                    m0.len() <= t < m1.len() ==> la.contains((#[trigger] m1[t]).0)
                &&& forall|t: int, k: KeyModel|
                    m0.len() <= t < m1.len() ==> ((#[trigger] m1[t].1.contains(k))
                        <==> is_info_key_of(k, iv))
                &&& iv.len() > 0 ==> forall|w: int|
                    0 <= w < la.len() ==> index_has_agent(m1, #[trigger] la[w])
                &&& d0.is_prefix_of(d1)
                &&& forall|k: KeyModel|
                    #[trigger] final(self).data_map.has_key(k) <==> (old(self).data_map.has_key(k)
                        || is_info_key_of(k, iv))
                &&& added_are_infos(d0.len() as int, d1, iv)
            }),
    {
        let ghost m0 = self.has_map@;
        let ghost d0 = self.data_map@;
        let ghost iv = infos_view(infos@);
        let ghost la = agents_view(self.local_agents@);
        if infos.len() == 0 {
            proof {
                lemma_prefix_refl(d0);
            }
            return ;
        }
        // with records in hand, every local agent takes part: give each one
        // an entry before the keys are spread
        let mut a: usize = 0;
        while a < self.local_agents.len()
            invariant
                self.wf(),
                self.space == old(self).space,
                self.local_agents == old(self).local_agents,
                self.fetched == old(self).fetched,
                self.data_map == old(self).data_map,
                0 <= a <= la.len(),
                la.len() == self.local_agents@.len(),
                m0.len() <= self.has_map@.len(),
                forall|t: int| 0 <= t < m0.len() ==> self.has_map@[t] == m0[t],
                forall|t: int|
                    m0.len() <= t < self.has_map@.len() ==> la.contains(
                        (#[trigger] self.has_map@[t]).0,
                    ) && self.has_map@[t].1 == Seq::<KeyModel>::empty(),
                forall|w: int| 0 <= w < a ==> index_has_agent(self.has_map@, #[trigger] la[w]),
            decreases la.len() - a,
        {
            let agent = self.local_agents[a].duplicate();
            proof {
                assert(agent@ == la[a as int]);
            }
            match self.has_map.find(&agent) {
                Some(_) => {
                    proof {
                        assert(index_has_agent(self.has_map@, la[a as int]));
                    }
                },
                None => {
                    let ghost before = self.has_map@;
                    self.has_map.add_entry(agent);
                    proof {
                        assert(self.has_map@[before.len() as int].0 == la[a as int]);
                        assert(la.contains(la[a as int]));
                        assert forall|w: int|
                            0 <= w < a implies index_has_agent(
                            self.has_map@,
                            #[trigger] la[w],
                        ) by {
                            let i = choose|i: int|
                                0 <= i < before.len() && (#[trigger] before[i]).0 == la[w];
                            assert(self.has_map@[i].0 == la[w]);
                        }
                    }
                },
            }
            a = a + 1;
        }
        // the entry list is now fixed; cache each record and spread its key
        let ghost me = self.has_map@;
        let mut j: usize = 0;
        while j < infos.len()
            invariant
                self.wf(),
                self.space == old(self).space,
                self.local_agents == old(self).local_agents,
                self.fetched == old(self).fetched,
                0 <= j <= infos@.len(),
                self.has_map@.len() == me.len(),
                forall|t: int| 0 <= t < me.len() ==> self.has_map@[t].0 == me[t].0,
                forall|t: int, k: KeyModel|
                    0 <= t < me.len() ==> ((#[trigger] self.has_map@[t].1.contains(k)) <==> (me[
                        t
                    ].1.contains(k) || is_info_key_of(k, iv.take(j as int)))),
                d0.is_prefix_of(self.data_map@),
                forall|k: KeyModel|
                    #[trigger] self.data_map.has_key(k) <==> (old(self).data_map.has_key(k)
                        || is_info_key_of(k, iv.take(j as int))),
                added_are_infos(d0.len() as int, self.data_map@, iv),
            decreases infos@.len() - j,
        {
            let info = &infos[j];
            let data = RecordData::AgentInfo(info.duplicate());
            let key = data.key();
            proof {
                assert(iv[j as int] == infos@[j as int]@);
                assert(key@ == KeyModel::Agent(iv[j as int].agent, iv[j as int].signed_at_ms));
            }
            let ghost d_before = self.data_map@;
            let missing = match self.data_map.get(&key) {
                Some(_) => false,
                None => true,
            };
            if missing {
                self.data_map.insert_new(key.duplicate(), data);
                proof {
                    lemma_prefix_push(d_before, (key@, crate::keys::DataModel::Agent(iv[j as int])));
                    lemma_prefix_trans(d0, d_before, self.data_map@);
                }
            }
            proof {
                assert forall|k: KeyModel|
                    #[trigger] self.data_map.has_key(k) <==> (old(self).data_map.has_key(k)
                        || is_info_key_of(k, iv.take(j + 1))) by {
                    lemma_info_key_take_step(k, iv, j as int);
                }
                assert(added_are_infos(d0.len() as int, self.data_map@, iv)) by {
                    assert forall|i: int|
                        d0.len() <= i < self.data_map@.len() implies exists|t: int|
                            0 <= t < iv.len() && (#[trigger] self.data_map@[i]).1
                                == crate::keys::DataModel::Agent(iv[t]) by {
                        if i < d_before.len() {
                            assert(self.data_map@[i] == d_before[i]);
                        } else {
                            assert(self.data_map@[i].1 == crate::keys::DataModel::Agent(
                                iv[j as int],
                            ));
                        }
                    }
                }
            }
            let ghost m_mid = self.has_map@;
            let ghost dm_after = self.data_map;
            let ghost fetched_after = self.fetched@;
            let mut e: usize = 0;
            while e < self.has_map.len()
                invariant
                    self.wf(),
                    self.space == old(self).space,
                    self.local_agents == old(self).local_agents,
                    self.fetched@ == fetched_after,
                    self.data_map == dm_after,
                    0 <= e <= self.has_map@.len(),
                    self.has_map@.len() == me.len(),
                    forall|t: int| 0 <= t < me.len() ==> self.has_map@[t].0 == me[t].0,
                    forall|t: int| e <= t < me.len() ==> self.has_map@[t] == m_mid[t],
                    forall|t: int, k: KeyModel|
                        0 <= t < e ==> ((#[trigger] self.has_map@[t].1.contains(k)) <==> (m_mid[
                            t
                        ].1.contains(k) || k == key@)),
                decreases self.has_map@.len() - e,
            {
                self.has_map.add_key_at(e, key.duplicate());
                e = e + 1;
            }
            proof {
                assert forall|t: int, k: KeyModel|
                    0 <= t < me.len() implies ((#[trigger] self.has_map@[t].1.contains(k)) <==> (
                    me[t].1.contains(k) || is_info_key_of(k, iv.take(j + 1)))) by {
                    assert(self.has_map@[t].1.contains(k) <==> (m_mid[t].1.contains(k) || k
                        == key@));
                    lemma_info_key_take_step(k, iv, j as int);
                }
            }
            j = j + 1;
        }
        proof {
            assert(iv.take(infos@.len() as int) =~= iv);
            assert forall|t: int, k: KeyModel|
                m0.len() <= t < self.has_map@.len() implies ((#[trigger] self.has_map@[
                t
            ].1.contains(k)) <==> is_info_key_of(k, iv)) by {
                assert(me[t].1 == Seq::<KeyModel>::empty());
                assert(!me[t].1.contains(k));
            }
            assert forall|w: int|
                0 <= w < la.len() implies index_has_agent(self.has_map@, #[trigger] la[w]) by {
                let i = choose|i: int| 0 <= i < me.len() && (#[trigger] me[i]).0 == la[w];
                assert(self.has_map@[i].0 == la[w]);
            }
            assert forall|t: int|
                m0.len() <= t < self.has_map@.len() implies la.contains(
                (#[trigger] self.has_map@[t]).0,
            ) by {
                assert(la.contains(me[t].0));
                assert(self.has_map@[t].0 == me[t].0);
            }
        }
    }

    /// Query the space's shared agent-info store once, through the first
    /// local agent as anchor, and record what it returned: every local agent
    /// then has an entry holding every returned agent-info key. A failed
    /// query, or a node with no local agents, adds nothing: collection is
    /// best effort and is repeated on the next cycle.
    pub fn collect_local_agents<S: EventSource>(&mut self, src: &mut S)
        requires
            old(self).wf(),
        ensures
            final(self).wf(),
            final(self).space == old(self).space,
            final(self).local_agents == old(self).local_agents,
            final(self).fetched == old(self).fetched,
            old(self).local_agents@.len() == 0 ==> final(self).has_map == old(self).has_map
                && final(self).data_map == old(self).data_map,
            old(self).has_map@.len() <= final(self).has_map@.len(),
            forall|t: int|
                0 <= t < old(self).has_map@.len() ==> final(self).has_map@[t].0 == old(
                    self,
                ).has_map@[t].0,
            forall|t: int, k: KeyModel|
                0 <= t < old(self).has_map@.len() && #[trigger] old(self).has_map@[t].1.contains(k)
                    ==> final(self).has_map@[t].1.contains(k),
            forall|t: int, k: KeyModel|
                0 <= t < old(self).has_map@.len() && #[trigger] final(self).has_map@[t].1.contains(
                    k,
                ) && !old(self).has_map@[t].1.contains(k) ==> k is Agent,
            forall|t: int|
                old(self).has_map@.len() <= t < final(self).has_map@.len() ==> agents_view(
                    old(self).local_agents@,
                ).contains((#[trigger] final(self).has_map@[t]).0),
            forall|t: int, k: KeyModel|
                old(self).has_map@.len() <= t < final(self).has_map@.len()
                    && #[trigger] final(self).has_map@[t].1.contains(k) ==> k is Agent,
            old(self).data_map@.is_prefix_of(final(self).data_map@),
    {
        if self.local_agents.len() == 0 {
            proof {
                lemma_prefix_refl(self.data_map@);
            }
            return ;
        }
        let anchor = self.local_agents[0].duplicate();
        match src.query_agent_info(&self.space, &anchor) {
            Ok(infos) => {
                self.absorb_agent_infos(&infos);
                proof {
                    let iv = infos_view(infos@);
                    assert forall|t: int, k: KeyModel|
                        0 <= t < self.has_map@.len() && #[trigger] self.has_map@[t].1.contains(k)
                            && (t >= old(self).has_map@.len() || !old(self).has_map@[
                            t
                        ].1.contains(k)) implies k is Agent by {
                        assert(is_info_key_of(k, iv));
                        let w = choose|w: int|
                            0 <= w < iv.len() && k == KeyModel::Agent(
                                (#[trigger] iv[w]).agent,
                                iv[w].signed_at_ms,
                            );
                    }
                }
            },
            Err(_) => {
                proof {
                    lemma_prefix_refl(self.data_map@);
                }
            },
        }
    }
}

/// The view of one fetch answer.
pub open spec fn results_view(rs: Seq<(OpHash, Vec<u8>)>) -> Seq<(Seq<u8>, Seq<u8>)> {
    rs.map_values(|p: (OpHash, Vec<u8>)| (p.0@, p.1@))
}

impl SyncState {
    /// Take the source's answer to a fetch of one op hash. The fetch asks
    /// for exactly one hash and its contract owes exactly one record under
    /// that very hash, so a well-formed answer is cached and returned, and
    /// any other answer — a wrong count, or a record under a hash nobody
    /// asked for — is the same broken fetch contract, aborting the pass with
    /// an error and leaving the state unchanged. (Caching a record under an
    /// unrequested hash would also leave the requested hash uncached and so
    /// fetchable twice.)
    pub fn absorb_fetched_op(&mut self, requested: &OpHash, results: Vec<(OpHash, Vec<u8>)>) -> (r:
        Result<RecordData, SyncError>)
        requires
            old(self).wf(),
            !old(self).data_map.has_key(KeyModel::Op(requested@)),
        ensures
            final(self).wf(),
            final(self).space == old(self).space,
            final(self).local_agents == old(self).local_agents,
            final(self).has_map == old(self).has_map,
            ({
                let rv = results_view(results@);
                let good = rv.len() == 1 && rv[0].0 == requested@;
                &&& r is Ok <==> good
                &&& (r matches Err(e) ==> e == SyncError::BadFetchResult)
                &&& (r matches Ok(d) ==> d@ == crate::keys::DataModel::Op(requested@, rv[0].1)
                    && final(self).data_map@.contains((KeyModel::Op(requested@), d@)))
                &&& (good ==> final(self).data_map@ == old(self).data_map@.push(
                    (
                        KeyModel::Op(requested@),
                        crate::keys::DataModel::Op(requested@, rv[0].1),
                    ),
                ) && final(self).fetched@ == old(self).fetched@.push(KeyModel::Op(requested@)))
                &&& (!good ==> final(self).data_map == old(self).data_map && final(self).fetched
                    == old(self).fetched)
                &&& (good ==> forall|t: KeyModel|
                    #[trigger] final(self).data_map.has_key(t) <==> (old(self).data_map.has_key(t)
                        || t == KeyModel::Op(requested@)))
            }),
    {
        let ghost rv = results_view(results@);
        if results.len() != 1 {
            return Err(SyncError::BadFetchResult);
        }
        let mut results = results;
        let (h, payload) = match results.pop() {
            Some(p) => p,
            None => {
                return Err(SyncError::BadFetchResult);
            },
        };
        proof {
            assert(rv.len() == 1);
            assert(rv[0] == (h@, payload@));
        }
        if !crate::bytes_eq(&h.bytes, &requested.bytes) {
            return Err(SyncError::BadFetchResult);
        }
        let data = RecordData::Op(h, payload);
        let key = data.key();
        proof {
            assert(key@ == KeyModel::Op(requested@));
            assert(data@ == crate::keys::DataModel::Op(requested@, rv[0].1));
        }
        let out = data.duplicate();
        self.data_map.insert_new(key, data);
        proof {
            let ghost k = KeyModel::Op(requested@);
            assert forall|a: int, b: int|
                0 <= a < self.fetched@.push(k).len() && 0 <= b < self.fetched@.push(k).len() && a
                    != b implies self.fetched@.push(k)[a] != self.fetched@.push(k)[b] by {
                if a < self.fetched@.len() && b < self.fetched@.len() {
                    assert(self.fetched@[a] != self.fetched@[b]);
                } else if a < self.fetched@.len() {
                    assert(old(self).data_map.has_key(self.fetched@[a]));
                } else if b < self.fetched@.len() {
                    assert(old(self).data_map.has_key(self.fetched@[b]));
                }
            }
        }
        self.fetched = Ghost(self.fetched@.push(KeyModel::Op(requested@)));
        proof {
            assert(self.data_map@[self.data_map@.len() - 1] == (KeyModel::Op(requested@), out@));
        }
        Ok(out)
    }

    /// Resolve a record by key: from the cache, else — for an op key — by a
    /// fetch of exactly that one hash from the source, cached for the rest of
    /// the pass. A cache miss on an agent-info key cannot happen after
    /// collection put every agent-info record in the cache, so it is a broken
    /// invariant and aborts the pass.
    pub fn data_map_get<S: EventSource>(&mut self, src: &mut S, agent: &Agent, key: &RecordKey) -> (r:
        Result<RecordData, SyncError>)
        requires
            old(self).wf(),
        ensures
            final(self).wf(),
            final(self).space == old(self).space,
            final(self).local_agents == old(self).local_agents,
            final(self).has_map == old(self).has_map,
            old(self).data_map@.is_prefix_of(final(self).data_map@),
            old(self).fetched@.is_prefix_of(final(self).fetched@),
            old(self).data_map.has_key(key@) ==> r is Ok,
            (key@ is Agent && !old(self).data_map.has_key(key@)) <==> (r matches Err(e) && e
                == SyncError::MissingAgentInfo),
            r matches Ok(d) ==> key_of(d@) == key@ && final(self).data_map.has_key(key@)
                && final(self).data_map@.contains((key@, d@)),
            r is Ok ==> forall|t: KeyModel|
                #[trigger] final(self).data_map.has_key(t) <==> (old(self).data_map.has_key(t) || t
                    == key@),
            r is Err ==> final(self).data_map == old(self).data_map && final(self).fetched == old(
                self,
            ).fetched,
            r is Ok && !old(self).data_map.has_key(key@) ==> final(self).fetched@ == old(
                self,
            ).fetched@.push(key@),
            old(self).data_map.has_key(key@) ==> final(self).data_map == old(self).data_map
                && final(self).fetched == old(self).fetched,
    {
        proof {
            lemma_prefix_refl(old(self).data_map@);
            lemma_prefix_refl(old(self).fetched@);
        }
        match self.data_map.get(key) {
            Some(d) => {
                let out = d.duplicate();
                proof {
                    assert(self.data_map@.contains((key@, out@)));
                    let i = choose|i: int|
                        0 <= i < self.data_map@.len() && (#[trigger] self.data_map@[i]) == (
                            key@,
                            out@,
                        );
                    assert(self.data_map@[i].1 == out@);
                    assert(key_of(self.data_map@[i].1) == self.data_map@[i].0);
                    assert(self.data_map.has_key(key@));
                }
                return Ok(out);
            },
            None => {},
        }
        match key {
            RecordKey::Op(h) => {
                match src.fetch_op_data(&self.space, agent, h) {
                    Ok(results) => {
                        let r = self.absorb_fetched_op(h, results);
                        proof {
                            if r is Ok {
                                lemma_prefix_push(
                                    old(self).data_map@,
                                    (
                                        KeyModel::Op(h@),
                                        crate::keys::DataModel::Op(
                                            h@,
                                            results_view(results@)[0].1,
                                        ),
                                    ),
                                );
                                lemma_prefix_push(old(self).fetched@, KeyModel::Op(h@));
                            }
                        }
                        r
                    },
                    Err(_) => Err(SyncError::FetchFailed),
                }
            },
            RecordKey::AgentInfo(_, _) => Err(SyncError::MissingAgentInfo),
        }
    }
}

pub proof fn lemma_prefix_refl<A>(s: Seq<A>)
    ensures
        s.is_prefix_of(s),
{
    assert(s =~= s.subrange(0, s.len() as int));
}

/// One of the first `n` elements of `s` is `k`.
pub open spec fn seq_has_upto(s: Seq<KeyModel>, n: int, k: KeyModel) -> bool {
    exists|w: int| 0 <= w < n && w < s.len() && s[w] == k
}

proof fn lemma_seq_has_upto_step(s: Seq<KeyModel>, t: int, k: KeyModel)
    requires
        0 <= t < s.len(),
    ensures
        seq_has_upto(s, t + 1, k) <==> (seq_has_upto(s, t, k) || k == s[t]),
{
    if seq_has_upto(s, t + 1, k) {
        let w = choose|w: int| 0 <= w < t + 1 && w < s.len() && s[w] == k;
        if w < t {
            assert(seq_has_upto(s, t, k));
        }
    }
    if k == s[t] {
        assert(0 <= t < t + 1 && t < s.len() && s[t] == k);
    }
}

proof fn lemma_seq_has_upto_all(s: Seq<KeyModel>, k: KeyModel)
    ensures
        seq_has_upto(s, s.len() as int, k) <==> s.contains(k),
{
}

proof fn lemma_known_upto_step(m: Seq<IndexEntry>, i: int, k: KeyModel)
    requires
        0 <= i < m.len(),
    ensures
        known_upto(m, i + 1, k) <==> (known_upto(m, i, k) || m[i].1.contains(k)),
{
    if known_upto(m, i + 1, k) {
        let w = choose|w: int| 0 <= w < i + 1 && w < m.len() && #[trigger] m[w].1.contains(k);
        if w < i {
            assert(known_upto(m, i, k));
        }
    }
}

impl SyncState {
    /// Reconcile the per-agent sets: every key one agent holds and another
    /// lacks is resolved — from the cache, else by one fetch — and the record
    /// is delivered in process to the lacking agent, whose set then gains the
    /// key. On success every entry holds exactly the keys some entry held
    /// before the pass: the sets are equal and no key is lost or invented. On
    /// failure the index is left as it was, so the caller can discard the
    /// pass and retry a whole cycle later.
    #[verifier::loop_isolation(false)]
    pub fn local_sync<S: EventSource>(&mut self, src: &mut S) -> (r: Result<(), SyncError>)
        requires
            old(self).wf(),
        ensures
            final(self).wf(),
            final(self).space == old(self).space,
            final(self).local_agents == old(self).local_agents,
            old(self).data_map@.is_prefix_of(final(self).data_map@),
            old(self).fetched@.is_prefix_of(final(self).fetched@),
            r is Err ==> final(self).has_map == old(self).has_map,
            converged(old(self).has_map@) ==> final(self).data_map == old(self).data_map
                && final(self).fetched == old(self).fetched,
            r is Ok ==> ({
                let m0 = old(self).has_map@;
                let m1 = final(self).has_map@;
                &&& m1.len() == m0.len()
                &&& forall|t: int| 0 <= t < m0.len() ==> m1[t].0 == m0[t].0
                &&& forall|t: int, k: KeyModel|
                    0 <= t < m1.len() ==> ((#[trigger] m1[t].1.contains(k)) <==> known(m0, k))
            }),
            converged(old(self).has_map@) ==> r is Ok,
    {
        proof {
            lemma_prefix_refl(old(self).data_map@);
            lemma_prefix_refl(old(self).fetched@);
        }
        let ghost m0 = self.has_map@;
        let snapshot = self.has_map.duplicate();
        let mut new_map = self.has_map.duplicate();
        let n = snapshot.len();
        let mut i: usize = 0;
        while i < n
            invariant
                self.wf(),
                self.space == old(self).space,
                self.local_agents == old(self).local_agents,
                self.has_map == old(self).has_map,
                old(self).data_map@.is_prefix_of(self.data_map@),
                old(self).fetched@.is_prefix_of(self.fetched@),
                converged(m0) ==> self.data_map == old(self).data_map && self.fetched == old(
                    self,
                ).fetched,
                0 <= i <= n,
                new_map.wf(),
                new_map@.len() == n as int,
                forall|t: int| 0 <= t < n ==> new_map@[t].0 == m0[t].0,
                forall|t: int, k: KeyModel|
                    0 <= t < n ==> ((#[trigger] new_map@[t].1.contains(k)) <==> (m0[t].1.contains(
                        k,
                    ) || known_upto(m0, i as int, k))),
            decreases n - i,
        {
            let mut j: usize = 0;
            while j < n
                invariant
                    self.wf(),
                    self.space == old(self).space,
                    self.local_agents == old(self).local_agents,
                    self.has_map == old(self).has_map,
                    old(self).data_map@.is_prefix_of(self.data_map@),
                    old(self).fetched@.is_prefix_of(self.fetched@),
                    converged(m0) ==> self.data_map == old(self).data_map && self.fetched == old(
                        self,
                    ).fetched,
                    0 <= j <= n,
                    new_map.wf(),
                    new_map@.len() == n as int,
                    forall|t: int| 0 <= t < n ==> new_map@[t].0 == m0[t].0,
                    forall|t: int, k: KeyModel|
                        0 <= t < j ==> ((#[trigger] new_map@[t].1.contains(k)) <==> (m0[
                            t
                        ].1.contains(k) || known_upto(m0, i as int, k) || m0[i as int].1.contains(
                            k,
                        ))),
                    forall|t: int, k: KeyModel|
                        j <= t < n ==> ((#[trigger] new_map@[t].1.contains(k)) <==> (m0[
                            t
                        ].1.contains(k) || known_upto(m0, i as int, k))),
                decreases n - j,
            {
                let same = crate::bytes_eq(
                    &snapshot.agent_at(i).bytes,
                    &new_map.agent_at(j).bytes,
                );
                proof {
                    if i != j {
                        assert(m0[i as int].0 != m0[j as int].0);
                    }
                }
                if !same {
                    let ks = snapshot.keys_at(i);
                    let klen = ks.len();
                    let ghost row = m0[i as int].1;
                    let mut t: usize = 0;
                    while t < klen
                        invariant
                            self.wf(),
                            self.space == old(self).space,
                            self.local_agents == old(self).local_agents,
                            self.has_map == old(self).has_map,
                            old(self).data_map@.is_prefix_of(self.data_map@),
                            old(self).fetched@.is_prefix_of(self.fetched@),
                            converged(m0) ==> self.data_map == old(self).data_map && self.fetched
                                == old(self).fetched,
                            0 <= t <= klen,
                            klen == row.len(),
                            new_map.wf(),
                            new_map@.len() == n as int,
                            forall|s: int| 0 <= s < n ==> new_map@[s].0 == m0[s].0,
                            forall|s: int, k: KeyModel|
                                0 <= s < j ==> ((#[trigger] new_map@[s].1.contains(k)) <==> (m0[
                                    s
                                ].1.contains(k) || known_upto(m0, i as int, k) || row.contains(k))),
                            forall|s: int, k: KeyModel|
                                j < s < n ==> ((#[trigger] new_map@[s].1.contains(k)) <==> (m0[
                                    s
                                ].1.contains(k) || known_upto(m0, i as int, k))),
                            forall|k: KeyModel|
                                (#[trigger] new_map@[j as int].1.contains(k)) <==> (m0[
                                    j as int
                                ].1.contains(k) || known_upto(m0, i as int, k) || seq_has_upto(
                                    row,
                                    t as int,
                                    k,
                                )),
                        decreases klen - t,
                    {
                        let key = ks.key_at(t);
                        proof {
                            assert(key@ == row[t as int]);
                        }
                        if !new_map.keys_at(j).contains_key(key) {
                            proof {
                                if converged(m0) {
                                    assert(m0[i as int].1.contains(key@)) by {
                                        assert(m0[i as int].1[t as int] == key@);
                                    }
                                    assert(m0[j as int].1.contains(key@));
                                    assert(false);
                                }
                            }
                            let ghost d_pre = self.data_map@;
                            let ghost f_pre = self.fetched@;
                            let data = match self.data_map_get(src, snapshot.agent_at(i), key) {
                                Ok(d) => d,
                                Err(e) => {
                                    return Err(e);
                                },
                            };
                            proof {
                                lemma_prefix_trans(
                                    old(self).data_map@,
                                    d_pre,
                                    self.data_map@,
                                );
                                lemma_prefix_trans(old(self).fetched@, f_pre, self.fetched@);
                            }
                            match &data {
                                RecordData::Op(h, payload) => {
                                    match src.gossip(
                                        &self.space,
                                        new_map.agent_at(j),
                                        snapshot.agent_at(i),
                                        h,
                                        payload,
                                    ) {
                                        Ok(_) => {},
                                        Err(_) => {
                                            return Err(SyncError::DeliverFailed);
                                        },
                                    }
                                },
                                RecordData::AgentInfo(_) => {
                                    return Err(SyncError::MissingAgentInfo);
                                },
                            }
                            new_map.add_key_at(j, key.duplicate());
                        }
                        proof {
                            assert forall|k: KeyModel|
                                (#[trigger] new_map@[j as int].1.contains(k)) <==> (m0[
                                    j as int
                                ].1.contains(k) || known_upto(m0, i as int, k) || seq_has_upto(
                                    row,
                                    t + 1,
                                    k,
                                )) by {
                                lemma_seq_has_upto_step(row, t as int, k);
                            }
                        }
                        t = t + 1;
                    }
                    proof {
                        assert forall|k: KeyModel|
                            (#[trigger] new_map@[j as int].1.contains(k)) <==> (m0[
                                j as int
                            ].1.contains(k) || known_upto(m0, i as int, k) || row.contains(k)) by {
                            lemma_seq_has_upto_all(row, k);
                        }
                    }
                } else {
                    proof {
                        assert(i == j) by {
                            if i != j {
                                assert(m0[i as int].0 != m0[j as int].0);
                            }
                        }
                        assert forall|k: KeyModel|
                            (#[trigger] new_map@[j as int].1.contains(k)) <==> (m0[
                                j as int
                            ].1.contains(k) || known_upto(m0, i as int, k) || m0[
                                i as int
                            ].1.contains(k)) by {}
                    }
                }
                j = j + 1;
            }
            proof {
                assert forall|t: int, k: KeyModel|
                    0 <= t < n implies ((#[trigger] new_map@[t].1.contains(k)) <==> (m0[
                    t
                ].1.contains(k) || known_upto(m0, i + 1, k))) by {
                    lemma_known_upto_step(m0, i as int, k);
                }
            }
            i = i + 1;
        }
        self.has_map = new_map;
        proof {
            assert forall|t: int, k: KeyModel|
                0 <= t < m0.len() implies ((#[trigger] self.has_map@[t].1.contains(k)) <==> known(
                m0,
                k,
            )) by {
                if self.has_map@[t].1.contains(k) {
                    if m0[t].1.contains(k) {
                        assert(known(m0, k));
                    }
                }
                if known(m0, k) {
                    let w = choose|w: int|
                        0 <= w < m0.len() && #[trigger] m0[w].1.contains(k);
                    assert(known_upto(m0, n as int, k));
                }
            }
        }
        Ok(())
    }
}

impl SyncState {
    /// Finish the pass: take one agent's (now identical) key set as canonical
    /// — the empty set when no agent has an entry — and digest it in a Bloom
    /// filter sized for the set at the fixed one-percent target, with every
    /// canonical key recorded, so the filter has no false negatives over the
    /// canonical set. An empty canonical set gets a degenerate filter of
    /// minimal capacity that answers negative for every probe. Returns the
    /// record cache too, so the following gossip round reuses what was
    /// already fetched.
    #[verifier::loop_isolation(false)]
    pub fn finish(self) -> (r: (DataMap, KeySet, bloomfilter::Bloom<RecordKey>))
        requires
            self.wf(),
        ensures
            ({
                let (dm, keys, bloom) = r;
                &&& dm == self.data_map
                &&& keys@.no_duplicates()
                &&& (self.has_map@.len() == 0 ==> keys@.len() == 0)
                &&& (self.has_map@.len() > 0 ==> keys@ == self.has_map@[0].1)
                &&& forall|k: KeyModel|
                    keys@.contains(k) ==> crate::bloom::bloom_items(bloom).contains(k)
                &&& (keys@.len() == 0 ==> crate::bloom::bloom_items(bloom).is_empty())
            }),
    {
        let keys: KeySet = if self.has_map.len() > 0 {
            proof {
                assert(self.has_map@[0].1.no_duplicates());
            }
            self.has_map.keys_at(0).duplicate()
        } else {
            KeySet::new()
        };
        let klen = keys.len();
        let mut bloom = if klen == 0 {
            crate::bloom::bloom_new(1, 1)
        } else {
            crate::bloom::bloom_new(crate::bloom::bitmap_bytes(klen), klen)
        };
        let mut t: usize = 0;
        while t < klen
            invariant
                0 <= t <= klen,
                klen == keys@.len(),
                forall|k: KeyModel|
                    crate::bloom::bloom_items(bloom).contains(k) <==> seq_has_upto(
                        keys@,
                        t as int,
                        k,
                    ),
            decreases klen - t,
        {
            let ghost before = crate::bloom::bloom_items(bloom);
            crate::bloom::bloom_set(&mut bloom, keys.key_at(t));
            proof {
                assert forall|k: KeyModel|
                    crate::bloom::bloom_items(bloom).contains(k) <==> seq_has_upto(
                        keys@,
                        t + 1,
                        k,
                    ) by {
                    assert(crate::bloom::bloom_items(bloom) == before.insert(keys@[t as int]));
                    lemma_seq_has_upto_step(keys@, t as int, k);
                }
            }
            t = t + 1;
        }
        proof {
            assert forall|k: KeyModel|
                keys@.contains(k) implies crate::bloom::bloom_items(bloom).contains(k) by {
                lemma_seq_has_upto_all(keys@, k);
            }
            if keys@.len() == 0 {
                assert(crate::bloom::bloom_items(bloom) =~= Set::<KeyModel>::empty());
            }
        }
        let SyncState { data_map, .. } = self;
        (data_map, keys, bloom)
    }
}

/// One whole local-sync pass over a space: collect every local agent's op
/// keys, collect the shared agent-info records once, reconcile all local
/// agents to set equality, and digest the converged set. With no local
/// agents the pass trivially succeeds with an empty canonical set and a
/// filter that answers negative for every probe. A reconciliation failure
/// aborts the pass with its error and no partial digest is returned.
pub fn run_local_sync<S: EventSource>(space: Space, src: &mut S, local_agents: Vec<Agent>) -> (r:
    Result<(DataMap, KeySet, bloomfilter::Bloom<RecordKey>), SyncError>)
    ensures
        match r {
            Ok(out) => {
                let (dm, keys, bloom) = out;
                &&& dm.wf()
                &&& keys@.no_duplicates()
                &&& forall|k: KeyModel|
                    keys@.contains(k) ==> crate::bloom::bloom_items(bloom).contains(k)
                &&& (keys@.len() == 0 ==> crate::bloom::bloom_items(bloom).is_empty())
                &&& (local_agents@.len() == 0 ==> keys@.len() == 0 && dm@.len() == 0)
            },
            Err(_) => local_agents@.len() > 0,
        },
{
    let ghost no_agents = local_agents@.len() == 0;
    let mut inner = SyncState::new(space, local_agents);
    inner.collect_local_ops(src);
    inner.collect_local_agents(src);
    let ghost pre_sync = inner.has_map@;
    proof {
        if no_agents {
            assert(pre_sync.len() == 0);
            assert(converged(pre_sync));
            assert(inner.data_map@.len() == 0);
        }
    }
    match inner.local_sync(src) {
        Ok(_) => {},
        Err(e) => {
            proof {
                if no_agents {
                    assert(false);
                }
            }
            return Err(e);
        },
    }
    Ok(inner.finish())
}

/// Convergence: when every entry's keys afterwards are exactly the keys that
/// were known to some entry before — as a successful reconciliation ensures —
/// all entries hold pairwise equal key sets.
pub proof fn lemma_convergence(m0: Seq<IndexEntry>, m1: Seq<IndexEntry>)
    requires
        forall|t: int, k: KeyModel|
            0 <= t < m1.len() ==> ((#[trigger] m1[t].1.contains(k)) <==> known(m0, k)),
    ensures
        forall|i: int, j: int|
            0 <= i < m1.len() && 0 <= j < m1.len() ==> #[trigger] m1[i].1.to_set() == #[trigger] m1[
                j
            ].1.to_set(),
{
    assert forall|i: int, j: int|
        0 <= i < m1.len() && 0 <= j < m1.len() implies #[trigger] m1[i].1.to_set() == #[trigger] m1[
        j
    ].1.to_set() by {
        assert(m1[i].1.to_set() =~= m1[j].1.to_set());
    }
}

/// Conservation: when every entry's keys afterwards are exactly the keys that
/// were known to some entry before — as a successful reconciliation ensures —
/// each entry's key set equals the union of all the pre-pass sets: no record
/// key is lost and none is invented.
pub proof fn lemma_conservation(m0: Seq<IndexEntry>, m1: Seq<IndexEntry>)
    requires
        forall|t: int, k: KeyModel|
            0 <= t < m1.len() ==> ((#[trigger] m1[t].1.contains(k)) <==> known(m0, k)),
    ensures
        forall|t: int|
            0 <= t < m1.len() ==> #[trigger] m1[t].1.to_set() == Set::new(
                |k: KeyModel| known(m0, k),
            ),
{
    assert forall|t: int|
        0 <= t < m1.len() implies #[trigger] m1[t].1.to_set() == Set::new(
        |k: KeyModel| known(m0, k),
    ) by {
        assert(m1[t].1.to_set() =~= Set::new(|k: KeyModel| known(m0, k)));
    }
}

/// One step of the take-prefix characterisation of agent-info keys.
proof fn lemma_info_key_take_step(k: KeyModel, iv: Seq<AgentInfoModel>, j: int)
    requires
        0 <= j < iv.len(),
    ensures
        is_info_key_of(k, iv.take(j + 1)) <==> (is_info_key_of(k, iv.take(j)) || k
            == KeyModel::Agent(iv[j].agent, iv[j].signed_at_ms)),
{
    if is_info_key_of(k, iv.take(j)) {
        let w = choose|w: int|
            0 <= w < iv.take(j).len() && k == KeyModel::Agent(
                (#[trigger] iv.take(j)[w]).agent,
                iv.take(j)[w].signed_at_ms,
            );
        assert(iv.take(j + 1)[w] == iv[w]);
        assert(is_info_key_of(k, iv.take(j + 1)));
    }
    if k == KeyModel::Agent(iv[j].agent, iv[j].signed_at_ms) {
        assert(iv.take(j + 1)[j] == iv[j]);
        assert(is_info_key_of(k, iv.take(j + 1)));
    }
    if is_info_key_of(k, iv.take(j + 1)) {
        let w = choose|w: int|
            0 <= w < iv.take(j + 1).len() && k == KeyModel::Agent(
                (#[trigger] iv.take(j + 1)[w]).agent,
                iv.take(j + 1)[w].signed_at_ms,
            );
        if w < j {
            assert(iv.take(j)[w] == iv[w]);
            assert(is_info_key_of(k, iv.take(j)));
        } else {
            assert(k == KeyModel::Agent(iv[j].agent, iv[j].signed_at_ms));
        }
    }
}

} // verus!
