//! The concurrent record store: a single map safe for simultaneous
//! multi-actor access, with the same ranking semantics as the exclusive
//! store.
//!
//! The map substrate is dashmap's `DashMap`, consulted through the
//! trusted wrappers below; its abstract contents are named by
//! [`dash_view`].  dashmap lets every method take `&self`, but Verus
//! specifications cannot describe mutation behind a shared reference, so
//! the verified mutators here take `&mut self`; the freedom from data
//! races under `&self` use is dashmap's own guarantee and outside what is
//! verified.

use vstd::prelude::*;
use dashmap::DashMap;
use std::collections::hash_map::RandomState;
use crate::error::MemoryError;
use crate::external;
use crate::fixed::SCALE;
use crate::model::{
    Memory, MemoryView, AgentState, AgentProfile, retention_spec, reinforced_spec,
    lemma_reinforced_wf,
};
use crate::ranking::{
    score_spec, score_memory, distinct_ids, top_candidates, candidate_of, ranked_contains_id,
    rank_keys, res_views, find_relevant_ok, maintain_ok, batch_ok, lemma_topk_to_ranked,
};
use crate::similarity::wf_vector;

verus! {

#[verifier::external_type_specification]
#[verifier::external_body]
#[verifier::reject_recursive_types(K)]
#[verifier::reject_recursive_types(V)]
#[verifier::reject_recursive_types(S)]
pub struct ExDashMap<K, V, S = RandomState>(DashMap<K, V, S>);

/// The abstract contents of a concurrent record map: identifier to record
/// view.
pub uninterp spec fn dash_view(m: DashMap<u128, Memory>) -> Map<u128, MemoryView>;

/// Relies on dashmap's `DashMap::new`: creates an empty map.
#[verifier::external_body]
pub(crate) fn dmap_new() -> (r: DashMap<u128, Memory>)
    ensures
        dash_view(r) =~= Map::empty(),
{
    DashMap::new()
}

/// Relies on dashmap's `DashMap::insert`: stores the value under the key,
/// displacing any previous value.
#[verifier::external_body]
pub(crate) fn dmap_insert(m: &mut DashMap<u128, Memory>, id: u128, value: Memory)
    ensures
        dash_view(*final(m)) == dash_view(*old(m)).insert(id, value@),
{
    m.insert(id, value);
}

/// Relies on dashmap's `DashMap::get`: returns the value stored under the
/// key, if any (here: a clone of it).
#[verifier::external_body]
pub(crate) fn dmap_get(m: &DashMap<u128, Memory>, id: u128) -> (r: Option<Memory>)
    ensures
        match r {
            Some(v) => dash_view(*m).contains_key(id) && v@ == dash_view(*m)[id],
            None => !dash_view(*m).contains_key(id),
        },
{
    m.get(&id).map(|v| v.clone())
}

/// Relies on dashmap's `DashMap::remove`: removes and returns the value
/// stored under the key, if any.
#[verifier::external_body]
pub(crate) fn dmap_remove(m: &mut DashMap<u128, Memory>, id: u128) -> (r: Option<Memory>)
    ensures
        match r {
            Some(v) => {
                &&& dash_view(*old(m)).contains_key(id)
                &&& v@ == dash_view(*old(m))[id]
                &&& dash_view(*final(m)) == dash_view(*old(m)).remove(id)
            },
            None => {
                &&& !dash_view(*old(m)).contains_key(id)
                &&& dash_view(*final(m)) == dash_view(*old(m))
            },
        },
{
    m.remove(&id).map(|p| p.1)
}

/// Relies on dashmap's `DashMap::len`: the number of entries.
#[verifier::external_body]
pub(crate) fn dmap_len(m: &DashMap<u128, Memory>) -> (n: usize)
    ensures
        n == dash_view(*m).dom().len(),
{
    m.len()
}

/// Relies on dashmap's `DashMap::iter`: yields every entry exactly once,
/// in no particular order (the iteration order of a `DashMap` is
/// unspecified, so nothing is assumed of it).
#[verifier::external_body]
pub(crate) fn dmap_entries(m: &DashMap<u128, Memory>) -> (es: Vec<(u128, Memory)>)
    ensures
        es@.len() == dash_view(*m).dom().len(),
        forall|k: int|
            0 <= k < es@.len() ==> dash_view(*m).contains_key((#[trigger] es@[k]).0)
                && es@[k].1@ == dash_view(*m)[es@[k].0],
        forall|i: int, j: int| 0 <= i < j < es@.len() ==> (#[trigger] es@[i]).0 != (#[trigger] es@[j]).0,
        forall|id: u128|
            dash_view(*m).contains_key(id) ==> exists|k: int|
                0 <= k < es@.len() && (#[trigger] es@[k]).0 == id,
{
    m.iter().map(|e| (*e.key(), e.value().clone())).collect()
}

/// Thread-safe record store backed by a concurrent map.
pub struct ConcurrentMemoryStore {
    memories: DashMap<u128, Memory>,
    agent_profile: AgentProfile,
    agent_state: AgentState,
}

impl View for ConcurrentMemoryStore {
    type V = Map<u128, MemoryView>;

    closed spec fn view(&self) -> Map<u128, MemoryView> {
        dash_view(self.memories)
    }
}

impl ConcurrentMemoryStore {
    /// The store's stable profile.
    pub closed spec fn profile(self) -> AgentProfile {
        self.agent_profile
    }

    /// The store's volatile state.
    pub closed spec fn state(self) -> AgentState {
        self.agent_state
    }

    /// Internal well-formedness: finitely many records, each stored under
    /// its own identifier and well-formed, under well-formed profile and
    /// state.
    pub closed spec fn inv(self) -> bool {
        &&& self@.dom().finite()
        &&& forall|id: u128|
            self@.contains_key(id) ==> (#[trigger] self@[id]).wf() && self@[id].id == id
        &&& self.agent_profile.wf()
        &&& self.agent_state.wf()
    }

    /// Creates an empty concurrent store.
    pub fn new(agent_profile: AgentProfile, agent_state: AgentState) -> (s: ConcurrentMemoryStore)
        requires
            agent_profile.wf(),
            agent_state.wf(),
        ensures
            s.inv(),
            s@ == Map::<u128, MemoryView>::empty(),
            s.profile() == agent_profile,
            s.state() == agent_state,
    {
        ConcurrentMemoryStore { memories: dmap_new(), agent_profile, agent_state }
    }

    /// Inserts a record under its identifier, replacing any record already
    /// stored under it, and returns the identifier.
    pub fn add_memory(&mut self, memory: Memory) -> (id: u128)
        requires
            old(self).inv(),
            memory@.wf(),
        ensures
            final(self).inv(),
            id == memory@.id,
            final(self)@ == old(self)@.insert(memory@.id, memory@),
            final(self).profile() == old(self).profile(),
            final(self).state() == old(self).state(),
    {
        let id = memory.id;
        dmap_insert(&mut self.memories, id, memory);
        id
    }

    /// Looks a record up by identifier, returning a copy.
    pub fn get_memory(&self, id: u128) -> (r: Option<Memory>)
        ensures
            match r {
                Some(m) => self@.contains_key(id) && m@ == self@[id],
                None => !self@.contains_key(id),
            },
    {
        dmap_get(&self.memories, id)
    }

    /// Removes the record stored under `id`.
    ///
    /// Returns `Ok(())` exactly when a record was stored under `id`, and
    /// `Err(MemoryError::NotFound(id))` exactly when none was.
    pub fn remove_memory(&mut self, id: u128) -> (r: Result<(), MemoryError>)
        requires
            old(self).inv(),
        ensures
            final(self).inv(),
            match r {
                Ok(()) => old(self)@.contains_key(id) && final(self)@ == old(self)@.remove(id),
                Err(e) => {
                    &&& !old(self)@.contains_key(id)
                    &&& e == MemoryError::NotFound(id)
                    &&& final(self)@ == old(self)@
                },
            },
            final(self).profile() == old(self).profile(),
            final(self).state() == old(self).state(),
    {
        match dmap_remove(&mut self.memories, id) {
            Some(_) => Ok(()),
            None => Err(MemoryError::not_found(id)),
        }
    }

    /// Replaces the agent's volatile state wholesale.
    pub fn update_agent_state(&mut self, state: AgentState)
        requires
            old(self).inv(),
            state.wf(),
        ensures
            final(self).inv(),
            final(self)@ == old(self)@,
            final(self).state() == state,
            final(self).profile() == old(self).profile(),
    {
        self.agent_state = state;
    }

    /// The agent profile this store was built with.
    pub fn agent_profile(&self) -> (p: &AgentProfile)
        ensures
            *p == self.profile(),
    {
        &self.agent_profile
    }

    /// The agent's current volatile state.
    pub fn agent_state(&self) -> (s: &AgentState)
        ensures
            *s == self.state(),
    {
        &self.agent_state
    }

    /// Ranked retrieval at an explicit time; the same contract as the
    /// exclusive store's ranked retrieval.
    pub fn find_relevant_at(&mut self, query_vector: &[i64], limit: usize, now: i64) -> (r: Result<
        Vec<(i64, Memory)>,
        MemoryError,
    >)
        requires
            old(self).inv(),
            wf_vector(query_vector@),
        ensures
            final(self).inv(),
            match r {
                Ok(res) => limit >= 1 && find_relevant_ok(
                    old(self)@,
                    final(self)@,
                    query_vector@,
                    limit as int,
                    now,
                    old(self).state(),
                    old(self).profile(),
                    res_views(res@),
                ),
                Err(e) => {
                    &&& limit == 0
                    &&& e is InvalidParameter
                    &&& final(self)@ == old(self)@
                },
            },
            final(self).profile() == old(self).profile(),
            final(self).state() == old(self).state(),
    {
        if limit == 0 {
            return Err(MemoryError::invalid_param("limit", 0));
        }
        let ghost mp = self@;
        let ghost st = self.agent_state;
        let ghost pf = self.agent_profile;

        // snapshot and score every record
        let entries = dmap_entries(&self.memories);
        let n = entries.len();
        let mut cands: Vec<(i64, u128)> = Vec::new();
        let mut k: usize = 0;
        while k < n
            invariant
                k <= n,
                n == entries@.len(),
                mp == self@,
                st == self.agent_state,
                pf == self.agent_profile,
                self.inv(),
                wf_vector(query_vector@),
                forall|j: int|
                    0 <= j < n ==> mp.contains_key((#[trigger] entries@[j]).0) && entries@[j].1@
                        == mp[entries@[j].0],
                forall|i2: int, j2: int|
                    0 <= i2 < j2 < n ==> (#[trigger] entries@[i2]).0 != (#[trigger] entries@[j2]).0,
                cands@.len() == k,
                forall|j: int|
                    0 <= j < k ==> #[trigger] cands@[j] == (
                        (score_spec(mp[entries@[j].0], query_vector@, now, st, pf) as i64),
                        entries@[j].0,
                    ),
            decreases n - k,
        {
            proof {
                assert(mp.contains_key(entries@[k as int].0));
                assert(entries@[k as int].1@ == mp[entries@[k as int].0]);
                assert(mp[entries@[k as int].0].wf());
            }
            let s = score_memory(&entries[k].1, query_vector, now, &self.agent_state, &self.agent_profile);
            let eid = entries[k].0;
            cands.push((s, eid));
            k = k + 1;
        }
        proof {
            assert(distinct_ids(cands@)) by {
                assert forall|a: int, b: int| 0 <= a < b < cands@.len() implies (
                #[trigger] cands@[a]).1 != (#[trigger] cands@[b]).1 by {
                    assert(cands@[a].1 == entries@[a].0);
                    assert(cands@[b].1 == entries@[b].0);
                }
            }
        }
        let top = top_candidates(cands, limit);

        // reinforce the selected records and snapshot them
        let rho = self.agent_profile.rho;
        let mut res: Vec<(i64, Memory)> = Vec::new();
        let mut i: usize = 0;
        while i < top.len()
            invariant
                i <= top@.len(),
                st == self.agent_state,
                pf == self.agent_profile,
                rho == pf.rho,
                0 <= rho <= crate::model::TUNE_MAX,
                st.wf(),
                pf.wf(),
                mp.dom().finite(),
                forall|id: u128|
                    mp.contains_key(id) ==> (#[trigger] mp[id]).wf() && mp[id].id == id,
                distinct_ids(top@),
                forall|j: int|
                    0 <= j < top@.len() ==> mp.contains_key((#[trigger] top@[j]).1),
                self@.dom() == mp.dom(),
                forall|id: u128|
                    mp.contains_key(id) ==> #[trigger] self@[id] == if exists|j: int|
                        0 <= j < i && (#[trigger] top@[j]).1 == id {
                        reinforced_spec(mp[id], rho, now)
                    } else {
                        mp[id]
                    },
                res@.len() == i,
                forall|j: int|
                    #![trigger res@[j]]
                    0 <= j < i ==> res@[j].0 == top@[j].0 && res@[j].1@ == reinforced_spec(
                        mp[top@[j].1],
                        rho,
                        now,
                    ),
            decreases top@.len() - i,
        {
            let pair = top[i];
            proof {
                // not selected before, so still in its pre-state form
                if exists|j: int| 0 <= j < i && (#[trigger] top@[j]).1 == pair.1 {
                    let j = choose|j: int| 0 <= j < i && (#[trigger] top@[j]).1 == pair.1;
                    assert(top@[j].1 == top@[i as int].1);
                    assert(false);
                }
                assert(self@[pair.1] == mp[pair.1]);
            }
            let ghost pre = self@;
            let got = dmap_remove(&mut self.memories, pair.1);
            match got {
                Some(mut mem) => {
                    proof {
                        assert(mem@ == mp[pair.1]);
                    }
                    mem.record_retrieval_at(rho, now);
                    let snap = mem.clone();
                    dmap_insert(&mut self.memories, pair.1, mem);
                    res.push((pair.0, snap));
                    proof {
                        assert(self@ =~= pre.insert(pair.1, reinforced_spec(mp[pair.1], rho, now)));
                        assert(self@.dom() =~= mp.dom());
                        assert forall|id: u128| mp.contains_key(id) implies #[trigger] self@[id]
                            == if exists|j: int| 0 <= j < i + 1 && (#[trigger] top@[j]).1 == id {
                            reinforced_spec(mp[id], rho, now)
                        } else {
                            mp[id]
                        } by {
                            if id == pair.1 {
                                assert(top@[i as int].1 == id);
                            } else {
                                if exists|j: int| 0 <= j < i + 1 && (#[trigger] top@[j]).1 == id {
                                    let j = choose|j: int|
                                        0 <= j < i + 1 && (#[trigger] top@[j]).1 == id;
                                    assert(j != i);
                                    assert(exists|j2: int|
                                        0 <= j2 < i && (#[trigger] top@[j2]).1 == id);
                                }
                            }
                        }
                    }
                },
                None => {
                    proof {
                        assert(pre.contains_key(pair.1));
                        assert(false);
                    }
                },
            }
            i = i + 1;
        }

        proof {
            // the candidate sequence enumerates the pre-state map exactly
            assert forall|j: int| 0 <= j < cands@.len() implies mp.dom().contains(
                (#[trigger] cands@[j]).1,
            ) && cands@[j] == candidate_of(mp, cands@[j].1, query_vector@, now, st, pf) by {
                assert(cands@[j].1 == entries@[j].0);
            }
            assert forall|id: u128| mp.dom().contains(id) implies cands@.contains(
                #[trigger] candidate_of(mp, id, query_vector@, now, st, pf),
            ) by {
                let x = choose|x: int| 0 <= x < entries@.len() && (#[trigger] entries@[x]).0 == id;
                assert(cands@[x] == candidate_of(mp, id, query_vector@, now, st, pf));
            }
            lemma_topk_to_ranked(mp, cands@, query_vector@, now, st, pf, limit as int, top@);

            // the returned keys are the ranked answer
            assert(rank_keys(res_views(res@)) =~= top@) by {
                assert forall|j: int| 0 <= j < res@.len() implies rank_keys(res_views(res@))[j]
                    == top@[j] by {
                    assert(res@[j].0 == top@[j].0);
                    assert(res@[j].1@ == reinforced_spec(mp[top@[j].1], rho, now));
                    assert(res_views(res@)[j] == (res@[j].0, res@[j].1@));
                }
            }
            assert forall|id: u128| mp.dom().contains(id) implies #[trigger] self@[id] == if
                ranked_contains_id(top@, id) {
                reinforced_spec(mp[id], rho, now)
            } else {
                mp[id]
            } by {
                if ranked_contains_id(top@, id) {
                    let j = choose|j: int| 0 <= j < top@.len() && (#[trigger] top@[j]).1 == id;
                }
            }
            assert forall|j: int| 0 <= j < res_views(res@).len() implies (
            #[trigger] res_views(res@)[j]).1 == reinforced_spec(
                mp[res_views(res@)[j].1.id],
                pf.rho,
                now,
            ) by {
                assert(res@[j].1@ == reinforced_spec(mp[top@[j].1], rho, now));
                assert(res_views(res@)[j] == (res@[j].0, res@[j].1@));
            }
            assert(find_relevant_ok(
                mp,
                self@,
                query_vector@,
                limit as int,
                now,
                st,
                pf,
                res_views(res@),
            ));
            assert forall|id: u128| self@.contains_key(id) implies (#[trigger] self@[id]).wf()
                && self@[id].id == id by {
                lemma_reinforced_wf(mp[id], rho, now);
            }
        }
        Ok(res)
    }

    /// Ranked retrieval at the current wall-clock time; see
    /// [`Self::find_relevant_at`].
    pub fn find_relevant(&mut self, query_vector: &[i64], limit: usize) -> (r: Result<
        Vec<(i64, Memory)>,
        MemoryError,
    >)
        requires
            old(self).inv(),
            wf_vector(query_vector@),
        ensures
            final(self).inv(),
            match r {
                Ok(res) => limit >= 1 && exists|t: i64|
                    find_relevant_ok(
                        old(self)@,
                        final(self)@,
                        query_vector@,
                        limit as int,
                        t,
                        old(self).state(),
                        old(self).profile(),
                        res_views(res@),
                    ),
                Err(e) => {
                    &&& limit == 0
                    &&& e is InvalidParameter
                    &&& final(self)@ == old(self)@
                },
            },
            final(self).profile() == old(self).profile(),
            final(self).state() == old(self).state(),
    {
        let now = external::now_seconds();
        self.find_relevant_at(query_vector, limit, now)
    }

    /// Answers one ranked query per input vector, in order, each against
    /// the state the previous one left behind.
    pub fn find_relevant_batch(&mut self, query_vectors: &[Vec<i64>], limit: usize) -> (r: Result<
        Vec<Vec<(i64, Memory)>>,
        MemoryError,
    >)
        requires
            old(self).inv(),
            forall|i: int| 0 <= i < query_vectors@.len() ==> wf_vector((#[trigger] query_vectors@[i])@),
        ensures
            final(self).inv(),
            match r {
                Ok(res) => (limit >= 1 || query_vectors@.len() == 0) && batch_ok(
                    old(self)@,
                    final(self)@,
                    query_vectors@.map_values(|v: Vec<i64>| v@),
                    limit as int,
                    old(self).state(),
                    old(self).profile(),
                    res@.map_values(|rv: Vec<(i64, Memory)>| res_views(rv@)),
                ),
                Err(e) => {
                    &&& limit == 0
                    &&& query_vectors@.len() > 0
                    &&& e is InvalidParameter
                    &&& final(self)@ == old(self)@
                },
            },
            final(self).profile() == old(self).profile(),
            final(self).state() == old(self).state(),
    {
        let ghost orig = self@;
        let ghost qs = query_vectors@.map_values(|v: Vec<i64>| v@);
        let ghost st = self.state();
        let ghost pf = self.profile();
        let mut res: Vec<Vec<(i64, Memory)>> = Vec::new();
        let mut i: usize = 0;
        proof {
            assert(qs.subrange(0, 0) =~= Seq::<Seq<i64>>::empty());
            assert(res@.map_values(|rv: Vec<(i64, Memory)>| res_views(rv@)) =~= Seq::<
                Seq<(i64, MemoryView)>,
            >::empty());
        }
        while i < query_vectors.len()
            invariant
                i <= query_vectors@.len(),
                qs == query_vectors@.map_values(|v: Vec<i64>| v@),
                forall|j: int|
                    0 <= j < query_vectors@.len() ==> wf_vector((#[trigger] query_vectors@[j])@),
                res@.len() == i,
                self.inv(),
                i > 0 ==> limit >= 1,
                orig == old(self)@,
                pf == old(self).profile(),
                st == old(self).state(),
                self.profile() == pf,
                self.state() == st,
                batch_ok(
                    orig,
                    self@,
                    qs.subrange(0, i as int),
                    limit as int,
                    st,
                    pf,
                    res@.map_values(|rv: Vec<(i64, Memory)>| res_views(rv@)),
                ),
            decreases query_vectors@.len() - i,
        {
            let ghost mid = self@;
            let ghost res_before = res@;
            let one = self.find_relevant(query_vectors[i].as_slice(), limit);
            match one {
                Ok(rv) => {
                    let ghost rvv = rv@;
                    res.push(rv);
                    proof {
                        let f = |rv2: Vec<(i64, Memory)>| res_views(rv2@);
                        let rvs = res@.map_values(f);
                        let qs1 = qs.subrange(0, (i + 1) as int);
                        assert(qs1.drop_last() =~= qs.subrange(0, i as int));
                        assert(qs1.last() == qs[i as int]);
                        assert(qs[i as int] == query_vectors@[i as int]@);
                        assert(res@.drop_last() =~= res_before);
                        assert(rvs.drop_last() =~= res_before.map_values(f));
                        assert(rvs.last() == res_views(rvv));
                        let t = choose|t: i64|
                            find_relevant_ok(
                                mid,
                                self@,
                                query_vectors@[i as int]@,
                                limit as int,
                                t,
                                st,
                                pf,
                                res_views(rvv),
                            );
                        assert(batch_ok(
                            orig,
                            mid,
                            qs1.drop_last(),
                            limit as int,
                            st,
                            pf,
                            rvs.drop_last(),
                        ));
                        assert(find_relevant_ok(
                            mid,
                            self@,
                            qs1.last(),
                            limit as int,
                            t,
                            st,
                            pf,
                            rvs.last(),
                        ));
                        assert(batch_ok(orig, self@, qs1, limit as int, st, pf, rvs));
                    }
                    i = i + 1;
                },
                Err(e) => {
                    proof {
                        assert(i == 0);
                        assert(qs.subrange(0, 0).len() == 0);
                        assert(self@ == orig);
                    }
                    return Err(e);
                },
            }
        }
        proof {
            assert(qs.subrange(0, qs.len() as int) =~= qs);
        }
        Ok(res)
    }

    /// Maintenance at an explicit time; the same contract as the
    /// exclusive store's maintenance.
    pub fn maintain_at(&mut self, retention_threshold: i64, now: i64) -> (r: Result<
        usize,
        MemoryError,
    >)
        requires
            old(self).inv(),
        ensures
            final(self).inv(),
            match r {
                Ok(count) => {
                    &&& 0 <= retention_threshold <= SCALE
                    &&& maintain_ok(
                        old(self)@,
                        final(self)@,
                        retention_threshold,
                        now,
                        old(self).state(),
                        old(self).profile(),
                        count as int,
                    )
                },
                Err(e) => {
                    &&& !(0 <= retention_threshold <= SCALE)
                    &&& e is InvalidParameter
                    &&& final(self)@ == old(self)@
                },
            },
            final(self).profile() == old(self).profile(),
            final(self).state() == old(self).state(),
    {
        if retention_threshold < 0 || retention_threshold > SCALE {
            return Err(MemoryError::invalid_param("retention_threshold", retention_threshold));
        }
        let ghost mp = self@;
        let ghost st = self.agent_state;
        let ghost pf = self.agent_profile;
        let thr = retention_threshold;
        let before = dmap_len(&self.memories);
        let entries = dmap_entries(&self.memories);
        let n = entries.len();
        let mut k: usize = 0;
        while k < n
            invariant
                k <= n,
                n == entries@.len(),
                st == self.agent_state,
                pf == self.agent_profile,
                st.wf(),
                pf.wf(),
                mp.dom().finite(),
                forall|id: u128|
                    mp.contains_key(id) ==> (#[trigger] mp[id]).wf() && mp[id].id == id,
                forall|j: int|
                    0 <= j < n ==> mp.contains_key((#[trigger] entries@[j]).0) && entries@[j].1@
                        == mp[entries@[j].0],
                forall|i2: int, j2: int|
                    0 <= i2 < j2 < n ==> (#[trigger] entries@[i2]).0 != (#[trigger] entries@[j2]).0,
                forall|id: u128|
                    mp.contains_key(id) ==> exists|j: int|
                        0 <= j < n && (#[trigger] entries@[j]).0 == id,
                self@.dom().subset_of(mp.dom()),
                forall|id: u128|
                    #[trigger] self@.contains_key(id) ==> self@[id] == mp[id],
                forall|id: u128|
                    mp.contains_key(id) && !self@.contains_key(id) ==> exists|j: int|
                        0 <= j < k && (#[trigger] entries@[j]).0 == id && retention_spec(
                            mp[id],
                            now,
                            st,
                            pf,
                        ) < thr,
                forall|j: int|
                    0 <= j < k ==> #[trigger] self@.contains_key(entries@[j].0) == (retention_spec(
                        mp[entries@[j].0],
                        now,
                        st,
                        pf,
                    ) >= thr),
                forall|id: u128|
                    mp.contains_key(id) && !(exists|j: int|
                        0 <= j < k && (#[trigger] entries@[j]).0 == id) ==> self@.contains_key(id),
            decreases n - k,
        {
            let eid = entries[k].0;
            let ret = entries[k].1.calculate_retention(now, &self.agent_state, &self.agent_profile);
            let ghost pre = self@;
            if ret < thr {
                let removed = dmap_remove(&mut self.memories, eid);
                proof {
                    assert(pre.contains_key(eid) ==> self@ =~= pre.remove(eid));
                    assert(!pre.contains_key(eid) ==> self@ =~= pre);
                    if !pre.contains_key(eid) {
                        let j = choose|j: int|
                            0 <= j < k && (#[trigger] entries@[j]).0 == eid && retention_spec(
                                mp[eid],
                                now,
                                st,
                                pf,
                            ) < thr;
                        assert(entries@[j].0 == entries@[k as int].0);
                        assert(j == k);
                        assert(false);
                    }
                }
            }
            proof {
                assert forall|j: int|
                    0 <= j < k + 1 implies #[trigger] self@.contains_key(entries@[j].0) == (
                retention_spec(mp[entries@[j].0], now, st, pf) >= thr) by {
                    if j < k {
                        assert(entries@[j].0 != entries@[k as int].0);
                    }
                }
            }
            k = k + 1;
        }
        proof {
            assert forall|id: u128| #[trigger] self@.dom().contains(id) implies mp.dom().contains(
                id,
            ) && retention_spec(mp[id], now, st, pf) >= thr by {
                let j = choose|j: int| 0 <= j < n && (#[trigger] entries@[j]).0 == id;
            }
            assert forall|id: u128|
                mp.dom().contains(id) && retention_spec(mp[id], now, st, pf) >= thr implies
                #[trigger] self@.dom().contains(id) by {
                let j = choose|j: int| 0 <= j < n && (#[trigger] entries@[j]).0 == id;
            }
            vstd::set_lib::lemma_len_subset(self@.dom(), mp.dom());
        }
        let after = dmap_len(&self.memories);
        proof {
            assert(maintain_ok(mp, self@, thr, now, st, pf, before - after));
        }
        Ok(before - after)
    }

    /// Maintenance at the current wall-clock time; see
    /// [`Self::maintain_at`].
    pub fn maintain(&mut self, retention_threshold: i64) -> (r: Result<usize, MemoryError>)
        requires
            old(self).inv(),
        ensures
            final(self).inv(),
            match r {
                Ok(count) => {
                    &&& 0 <= retention_threshold <= SCALE
                    &&& exists|t: i64|
                        maintain_ok(
                            old(self)@,
                            final(self)@,
                            retention_threshold,
                            t,
                            old(self).state(),
                            old(self).profile(),
                            count as int,
                        )
                },
                Err(e) => {
                    &&& !(0 <= retention_threshold <= SCALE)
                    &&& e is InvalidParameter
                    &&& final(self)@ == old(self)@
                },
            },
            final(self).profile() == old(self).profile(),
            final(self).state() == old(self).state(),
    {
        let now = external::now_seconds();
        self.maintain_at(retention_threshold, now)
    }
}

} // verus!
