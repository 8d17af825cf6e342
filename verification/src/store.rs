//! In-memory stores for one reconciliation pass.
//!
//! `KeySet` is a duplicate-free collection of record keys; `DataMap` caches
//! fetched records by key so nothing is fetched twice; `AgentIndex` maps each
//! local agent to the set of keys that agent is known to hold. All three live
//! only for the duration of one pass.

use vstd::prelude::*;

use crate::keys::key_eq;
use crate::keys::key_of;
use crate::keys::Agent;
use crate::keys::DataModel;
use crate::keys::KeyModel;
use crate::keys::RecordData;
use crate::keys::RecordKey;

verus! {

/// A set of record keys, held as a duplicate-free vector.
pub struct KeySet {
    pub keys: Vec<RecordKey>,
}

impl View for KeySet {
    type V = Seq<KeyModel>;

    open spec fn view(&self) -> Seq<KeyModel> {
        self.keys@.map_values(|k: RecordKey| k@)
    }
}

impl KeySet {
    /// No key occurs twice.
    pub open spec fn wf(&self) -> bool {
        self@.no_duplicates()
    }

    pub fn new() -> (r: KeySet)
        ensures
            r@ =~= Seq::<KeyModel>::empty(),
            r.wf(),
    {
        KeySet { keys: Vec::new() }
    }

    pub fn len(&self) -> (r: usize)
        ensures
            r == self@.len(),
    {
        self.keys.len()
    }

    pub fn key_at(&self, i: usize) -> (r: &RecordKey)
        requires
            i < self@.len(),
        ensures
            r@ == self@[i as int],
    {
        &self.keys[i]
    }

    pub fn contains_key(&self, k: &RecordKey) -> (r: bool)
        ensures
            r == self@.contains(k@),
    {
        let mut i: usize = 0;
        while i < self.keys.len()
            invariant
                0 <= i <= self@.len(),
                self@.len() == self.keys@.len(),
                forall|t: int| 0 <= t < i ==> self@[t] != k@,
            decreases self.keys@.len() - i,
        {
            if key_eq(&self.keys[i], k) {
                assert(self@[i as int] == k@);
                return true;
            }
            i = i + 1;
        }
        false
    }

    /// Add a key unless it is already present.
    pub fn insert(&mut self, k: RecordKey)
        requires
            old(self).wf(),
        ensures
            final(self).wf(),
            old(self)@.contains(k@) ==> final(self)@ == old(self)@,
            !old(self)@.contains(k@) ==> final(self)@ == old(self)@.push(k@),
            final(self)@.contains(k@),
            forall|t: KeyModel| final(self)@.contains(t) <==> (old(self)@.contains(t) || t == k@),
    {
        if !self.contains_key(&k) {
            let ghost prev = self@;
            self.keys.push(k);
            proof {
                assert(self@ =~= prev.push(k@));
                assert(final(self)@.contains(k@)) by {
                    assert(self@[prev.len() as int] == k@);
                }
                assert forall|t: KeyModel|
                    self@.contains(t) <==> (prev.contains(t) || t == k@) by {
                    if self@.contains(t) {
                        let i = choose|i: int| 0 <= i < self@.len() && self@[i] == t;
                        if i < prev.len() {
                            assert(prev[i] == t);
                        }
                    }
                    if prev.contains(t) {
                        let i = choose|i: int| 0 <= i < prev.len() && prev[i] == t;
                        assert(self@[i] == t);
                    }
                    if t == k@ {
                        assert(self@[prev.len() as int] == t);
                    }
                }
            }
        }
    }

    /// A fresh set with the same keys.
    pub fn duplicate(&self) -> (r: KeySet)
        ensures
            r@ == self@,
    {
        let mut out: Vec<RecordKey> = Vec::new();
        let mut i: usize = 0;
        while i < self.keys.len()
            invariant
                0 <= i <= self.keys@.len(),
                out@.map_values(|k: RecordKey| k@) =~= self@.take(i as int),
            decreases self.keys@.len() - i,
        {
            let ghost prev = out@.map_values(|k: RecordKey| k@);
            out.push(self.keys[i].duplicate());
            proof {
                assert(out@.map_values(|k: RecordKey| k@) =~= prev.push(self@[i as int]));
                assert(prev.push(self@[i as int]) =~= self@.take(i + 1 as int));
            }
            i = i + 1;
        }
        proof {
            assert(self@.take(self.keys@.len() as int) =~= self@);
        }
        KeySet { keys: out }
    }
}

/// A cache of records by key, filled during one pass and never overwritten:
/// once a key is present its record stays as first inserted.
pub struct DataMap {
    pub entries: Vec<(RecordKey, RecordData)>,
}

impl View for DataMap {
    type V = Seq<(KeyModel, DataModel)>;

    open spec fn view(&self) -> Seq<(KeyModel, DataModel)> {
        self.entries@.map_values(|e: (RecordKey, RecordData)| (e.0@, e.1@))
    }
}

impl DataMap {
    /// Keys are unique and each record sits under its own key.
    pub open spec fn wf(&self) -> bool {
        &&& forall|i: int, j: int|
            0 <= i < self@.len() && 0 <= j < self@.len() && i != j ==> self@[i].0 != self@[j].0
        &&& forall|i: int| 0 <= i < self@.len() ==> key_of(#[trigger] self@[i].1) == self@[i].0
    }

    /// The key is present.
    pub open spec fn has_key(&self, k: KeyModel) -> bool {
        exists|i: int| 0 <= i < self@.len() && self@[i].0 == k
    }

    pub fn new() -> (r: DataMap)
        ensures
            r@ =~= Seq::<(KeyModel, DataModel)>::empty(),
            r.wf(),
    {
        DataMap { entries: Vec::new() }
    }

    pub fn len(&self) -> (r: usize)
        ensures
            r == self@.len(),
    {
        self.entries.len()
    }

    /// Look a record up by key.
    pub fn get(&self, k: &RecordKey) -> (r: Option<&RecordData>)
        ensures
            match r {
                Some(d) => self.has_key(k@) && self@.contains((k@, d@)),
                None => !self.has_key(k@),
            },
    {
        let mut i: usize = 0;
        while i < self.entries.len()
            invariant
                0 <= i <= self@.len(),
                self@.len() == self.entries@.len(),
                forall|t: int| 0 <= t < i ==> self@[t].0 != k@,
            decreases self.entries@.len() - i,
        {
            if key_eq(&self.entries[i].0, k) {
                assert(self@[i as int].0 == k@);
                assert(self@.contains((k@, self@[i as int].1)));
                return Some(&self.entries[i].1);
            }
            i = i + 1;
        }
        None
    }

    /// Insert a record under a key that is not yet present.
    pub fn insert_new(&mut self, k: RecordKey, d: RecordData)
        requires
            old(self).wf(),
            !old(self).has_key(k@),
            key_of(d@) == k@,
        ensures
            final(self).wf(),
            final(self)@ == old(self)@.push((k@, d@)),
            final(self).has_key(k@),
            forall|t: KeyModel| final(self).has_key(t) <==> (old(self).has_key(t) || t == k@),
    {
        let ghost prev = self@;
        self.entries.push((k, d));
        proof {
            assert(self@ =~= prev.push((k@, d@)));
            assert(self.has_key(k@)) by {
                assert(self@[prev.len() as int].0 == k@);
            }
            assert forall|t: KeyModel|
                self.has_key(t) <==> (old(self).has_key(t) || t == k@) by {
                if self.has_key(t) {
                    let i = choose|i: int| 0 <= i < self@.len() && self@[i].0 == t;
                    if i < prev.len() {
                        assert(prev[i].0 == t);
                    }
                }
                if old(self).has_key(t) {
                    let i = choose|i: int| 0 <= i < prev.len() && prev[i].0 == t;
                    assert(self@[i].0 == t);
                }
                if t == k@ {
                    assert(self@[prev.len() as int].0 == t);
                }
            }
        }
    }
}

/// The per-agent knowledge index: each entry pairs a local agent with the set
/// of record keys that agent is known to hold. Agents occur at most once.
pub struct AgentIndex {
    pub entries: Vec<(Agent, KeySet)>,
}

impl View for AgentIndex {
    type V = Seq<(Seq<u8>, Seq<KeyModel>)>;

    open spec fn view(&self) -> Seq<(Seq<u8>, Seq<KeyModel>)> {
        self.entries@.map_values(|e: (Agent, KeySet)| (e.0@, e.1@))
    }
}

impl AgentIndex {
    /// Agents are unique and every key set is duplicate-free.
    pub open spec fn wf(&self) -> bool {
        &&& forall|i: int, j: int|
            0 <= i < self@.len() && 0 <= j < self@.len() && i != j ==> self@[i].0 != self@[j].0
        &&& forall|i: int| 0 <= i < self@.len() ==> (#[trigger] self@[i].1).no_duplicates()
    }

    pub fn new() -> (r: AgentIndex)
        ensures
            r@ =~= Seq::<(Seq<u8>, Seq<KeyModel>)>::empty(),
            r.wf(),
    {
        AgentIndex { entries: Vec::new() }
    }

    pub fn len(&self) -> (r: usize)
        ensures
            r == self@.len(),
    {
        self.entries.len()
    }

    pub fn agent_at(&self, i: usize) -> (r: &Agent)
        requires
            i < self@.len(),
        ensures
            r@ == self@[i as int].0,
    {
        &self.entries[i].0
    }

    pub fn keys_at(&self, i: usize) -> (r: &KeySet)
        requires
            i < self@.len(),
        ensures
            r@ == self@[i as int].1,
    {
        &self.entries[i].1
    }

    /// The position of an agent's entry, if it has one.
    pub fn find(&self, a: &Agent) -> (r: Option<usize>)
        ensures
            match r {
                Some(i) => i < self@.len() && self@[i as int].0 == a@,
                None => forall|t: int| 0 <= t < self@.len() ==> self@[t].0 != a@,
            },
    {
        let mut i: usize = 0;
        while i < self.entries.len()
            invariant
                0 <= i <= self@.len(),
                self@.len() == self.entries@.len(),
                forall|t: int| 0 <= t < i ==> self@[t].0 != a@,
            decreases self.entries@.len() - i,
        {
            if crate::bytes_eq(&self.entries[i].0.bytes, &a.bytes) {
                assert(self@[i as int].0 == a@);
                return Some(i);
            }
            i = i + 1;
        }
        None
    }

    /// The key set recorded for an agent, if it has an entry.
    pub fn get(&self, a: &Agent) -> (r: Option<&KeySet>)
        ensures
            match r {
                Some(ks) => exists|i: int|
                    0 <= i < self@.len() && self@[i].0 == a@ && ks@ == self@[i].1,
                None => forall|t: int| 0 <= t < self@.len() ==> self@[t].0 != a@,
            },
    {
        match self.find(a) {
            Some(i) => {
                let ks = &self.entries[i].1;
                proof {
                    assert(self@[i as int].0 == a@ && ks@ == self@[i as int].1);
                }
                Some(ks)
            },
            None => None,
        }
    }

    /// Append an entry for an agent that has none, with an empty key set.
    pub fn add_entry(&mut self, a: Agent)
        requires
            old(self).wf(),
            forall|t: int| 0 <= t < old(self)@.len() ==> old(self)@[t].0 != a@,
        ensures
            final(self).wf(),
            final(self)@ == old(self)@.push((a@, Seq::<KeyModel>::empty())),
    {
        let ghost prev = self@;
        self.entries.push((a, KeySet::new()));
        proof {
            assert(self@ =~= prev.push((self@[prev.len() as int].0, Seq::<KeyModel>::empty())));
        }
    }

    /// Add a key to the entry at a position, unless that entry already has it.
    pub fn add_key_at(&mut self, i: usize, k: RecordKey)
        requires
            old(self).wf(),
            i < old(self)@.len(),
        ensures
            final(self).wf(),
            final(self)@.len() == old(self)@.len(),
            forall|t: int|
                0 <= t < old(self)@.len() && t != i ==> final(self)@[t] == old(self)@[t],
            final(self)@[i as int].0 == old(self)@[i as int].0,
            old(self)@[i as int].1.contains(k@) ==> final(self)@[i as int].1 == old(self)@[i
                as int].1,
            !old(self)@[i as int].1.contains(k@) ==> final(self)@[i as int].1 == old(self)@[i
                as int].1.push(k@),
            forall|t: KeyModel|
                final(self)@[i as int].1.contains(t) <==> (old(self)@[i as int].1.contains(t) || t
                    == k@),
    {
        proof {
            assert(old(self)@[i as int] == (old(self).entries@[i as int].0@, old(self).entries@[i
                as int].1@));
            assert(old(self)@[i as int].1.no_duplicates());
        }
        let entry = &mut self.entries[i];
        entry.1.insert(k);
        proof {
            assert(forall|t: int|
                0 <= t < self@.len() && t != i ==> self@[t] == old(self)@[t]);
            assert(self@[i as int].0 == old(self)@[i as int].0);
        }
    }

    /// A fresh index with the same entries.
    pub fn duplicate(&self) -> (r: AgentIndex)
        ensures
            r@ == self@,
    {
        let mut out: Vec<(Agent, KeySet)> = Vec::new();
        let mut i: usize = 0;
        while i < self.entries.len()
            invariant
                0 <= i <= self.entries@.len(),
                out@.map_values(|e: (Agent, KeySet)| (e.0@, e.1@)) =~= self@.take(i as int),
            decreases self.entries@.len() - i,
        {
            let ghost prev = out@.map_values(|e: (Agent, KeySet)| (e.0@, e.1@));
            let a = self.entries[i].0.duplicate();
            let ks = self.entries[i].1.duplicate();
            out.push((a, ks));
            proof {
                assert(out@.map_values(|e: (Agent, KeySet)| (e.0@, e.1@)) =~= prev.push(
                    self@[i as int]));
                assert(prev.push(self@[i as int]) =~= self@.take(i + 1 as int));
            }
            i = i + 1;
        }
        proof {
            assert(self@.take(self.entries@.len() as int) =~= self@);
        }
        AgentIndex { entries: out }
    }
}

} // verus!
