//! The single-threaded record store: exclusive ownership, one mutator at
//! a time.
//!
//! The store owns a record sequence with pairwise-distinct identifiers
//! together with the agent profile and state; its abstract value is the
//! map from identifier to record view.  Ranked queries, reinforcement and
//! maintenance follow the shared map-level contracts of [`crate::ranking`].

use vstd::prelude::*;
use crate::error::MemoryError;
use crate::external;
use crate::fixed::SCALE;
use crate::model::{
    Memory, MemoryView, AgentState, AgentProfile, retention_spec, reinforced_spec,
    distinct_mem_ids, mems_to_map, lemma_mems_to_map, views_of, lemma_views_of_index,
};
use crate::ranking::{
    score_spec, score_memory, distinct_ids, top_candidates, candidate_of,
    ranked_contains_id, rank_keys, res_views, find_relevant_ok, maintain_ok, batch_ok,
    lemma_topk_to_ranked,
};
use crate::similarity::wf_vector;
use crate::storage::{StoredData, StorageBackend};

verus! {

/// In-memory storage for records with ranked retrieval and maintenance.
pub struct MemoryStore {
    memories: Vec<Memory>,
    agent_profile: AgentProfile,
    agent_state: AgentState,
}

impl View for MemoryStore {
    type V = Map<u128, MemoryView>;

    closed spec fn view(&self) -> Map<u128, MemoryView> {
        mems_to_map(views_of(self.memories@))
    }
}

impl MemoryStore {
    /// The stored record views, in representation order.
    pub closed spec fn mem_views(self) -> Seq<MemoryView> {
        views_of(self.memories@)
    }

    /// The store's stable profile.
    pub closed spec fn profile(self) -> AgentProfile {
        self.agent_profile
    }

    /// The store's volatile state.
    pub closed spec fn state(self) -> AgentState {
        self.agent_state
    }

    /// Internal well-formedness: distinct identifiers, well-formed
    /// records, and well-formed profile and state.  Established by the
    /// constructors and preserved by every method.
    pub closed spec fn inv(self) -> bool {
        &&& distinct_mem_ids(self.mem_views())
        &&& forall|k: int|
            0 <= k < self.mem_views().len() ==> (#[trigger] self.mem_views()[k]).wf()
        &&& self.agent_profile.wf()
        &&& self.agent_state.wf()
    }

    /// Creates an empty store with the given profile and state.
    pub fn new(agent_profile: AgentProfile, agent_state: AgentState) -> (s: MemoryStore)
        requires
            agent_profile.wf(),
            agent_state.wf(),
        ensures
            s.inv(),
            s@ == Map::<u128, MemoryView>::empty(),
            s.profile() == agent_profile,
            s.state() == agent_state,
    {
        let s = MemoryStore { memories: Vec::new(), agent_profile, agent_state };
        proof {
            lemma_views_of_index(s.memories@);
            assert(views_of(s.memories@) =~= Seq::<MemoryView>::empty());
        }
        s
    }

    /// Inserts a record under its identifier, replacing any record already
    /// stored under it, and returns the identifier.
    pub fn add_memory(&mut self, memory: Memory) -> (id: u128)
        requires
            old(self).inv(),
            memory@.wf(),
        ensures
            final(self).inv(),
            id == memory@.id,
            final(self)@ == old(self)@.insert(memory@.id, memory@),
            final(self).profile() == old(self).profile(),
            final(self).state() == old(self).state(),
    {
        let ghost vpre = self.memories@;
        let ghost base = views_of(vpre);
        proof {
            lemma_views_of_index(vpre);
            lemma_mems_to_map(base);
        }
        let id = memory.id;
        let found = index_of_id(&self.memories, id);
        match found {
            Some(i) => {
                proof {
                    assert(base[i as int].id == id);
                }
                self.memories[i] = memory;
                proof {
                    lemma_views_of_index(self.memories@);
                    let nv = views_of(self.memories@);
                    assert(nv =~= base.update(i as int, memory@)) by {
                        assert forall|x: int| 0 <= x < nv.len() implies #[trigger] nv[x]
                            == base.update(i as int, memory@)[x] by {
                            assert(nv[x] == self.memories@[x]@);
                            if x != i {
                                assert(self.memories@[x] == vpre[x]);
                            }
                        }
                    }
                    assert(distinct_mem_ids(nv));
                    assert(forall|k: int| 0 <= k < nv.len() ==> (#[trigger] nv[k]).wf());
                    lemma_mems_to_map(nv);
                    let target = old(self)@.insert(memory@.id, memory@);
                    assert forall|x: u128| self@.dom().contains(x) implies target.dom().contains(
                        x,
                    ) by {
                        let k = choose|k: int| 0 <= k < nv.len() && (#[trigger] nv[k]).id == x;
                        assert(base[k].id == x || k == i);
                    }
                    assert forall|x: u128| target.dom().contains(x) implies self@.dom().contains(
                        x,
                    ) by {
                        if x == memory@.id {
                            assert(nv[i as int].id == x);
                        } else {
                            let k = choose|k: int|
                                0 <= k < base.len() && (#[trigger] base[k]).id == x;
                            assert(nv[k] == base[k]);
                        }
                    }
                    assert(self@.dom() =~= target.dom());
                    assert forall|x: u128| self@.dom().contains(x) implies self@[x]
                        == target[x] by {
                        if x == memory@.id {
                            assert(nv[i as int].id == x);
                            assert(self@[nv[i as int].id] == nv[i as int]);
                        } else {
                            let k = choose|k: int|
                                0 <= k < base.len() && (#[trigger] base[k]).id == x;
                            assert(k != i);
                            assert(nv[k] == base[k]);
                            assert(self@[nv[k].id] == nv[k]);
                            assert(old(self)@[base[k].id] == base[k]);
                        }
                    }
                    assert(self@ =~= target);
                }
            },
            None => {
                self.memories.push(memory);
                proof {
                    lemma_views_of_index(self.memories@);
                    let nv = views_of(self.memories@);
                    assert(nv =~= base.push(memory@)) by {
                        assert forall|x: int| 0 <= x < nv.len() implies #[trigger] nv[x]
                            == base.push(memory@)[x] by {
                            assert(nv[x] == self.memories@[x]@);
                            if x < vpre.len() {
                                assert(self.memories@[x] == vpre[x]);
                            }
                        }
                    }
                    assert(forall|k: int| 0 <= k < base.len() ==> #[trigger] nv[k] == base[k]);
                    assert(forall|k: int| 0 <= k < base.len() ==> (#[trigger] base[k]).id != id);
                    assert(distinct_mem_ids(nv)) by {
                        assert forall|a: int, b: int| 0 <= a < b < nv.len() implies (
                        #[trigger] nv[a]).id != (#[trigger] nv[b]).id by {
                            if b == nv.len() - 1 {
                                assert(nv[a] == base[a]);
                            }
                        }
                    }
                    assert(forall|k: int| 0 <= k < nv.len() ==> (#[trigger] nv[k]).wf());
                    lemma_mems_to_map(nv);
                    let target = old(self)@.insert(memory@.id, memory@);
                    assert forall|x: u128| self@.dom().contains(x) implies target.dom().contains(
                        x,
                    ) by {
                        let k = choose|k: int| 0 <= k < nv.len() && (#[trigger] nv[k]).id == x;
                        if k < base.len() {
                            assert(base[k].id == x);
                        }
                    }
                    assert forall|x: u128| target.dom().contains(x) implies self@.dom().contains(
                        x,
                    ) by {
                        if x == memory@.id {
                            assert(nv[base.len() as int].id == x);
                        } else {
                            let k = choose|k: int|
                                0 <= k < base.len() && (#[trigger] base[k]).id == x;
                            assert(nv[k] == base[k]);
                        }
                    }
                    assert(self@.dom() =~= target.dom());
                    assert forall|x: u128| self@.dom().contains(x) implies self@[x]
                        == target[x] by {
                        if x == memory@.id {
                            assert(nv[base.len() as int].id == x);
                            assert(self@[nv[base.len() as int].id] == nv[base.len() as int]);
                        } else {
                            let k = choose|k: int|
                                0 <= k < base.len() && (#[trigger] base[k]).id == x;
                            assert(nv[k] == base[k]);
                            assert(self@[nv[k].id] == nv[k]);
                            assert(old(self)@[base[k].id] == base[k]);
                        }
                    }
                    assert(self@ =~= target);
                }
            },
        }
        id
    }

    /// Looks a record up by identifier.
    pub fn get_memory(&self, id: u128) -> (r: Option<&Memory>)
        requires
            self.inv(),
        ensures
            match r {
                Some(m) => self@.contains_key(id) && m@ == self@[id],
                None => !self@.contains_key(id),
            },
    {
        proof {
            lemma_views_of_index(self.memories@);
            lemma_mems_to_map(self.mem_views());
        }
        let found = index_of_id(&self.memories, id);
        match found {
            Some(i) => {
                proof {
                    assert(self.mem_views()[i as int].id == id);
                    assert(self@[self.mem_views()[i as int].id] == self.mem_views()[i as int]);
                }
                Some(&self.memories[i])
            },
            None => None,
        }
    }

    /// Removes the record stored under `id`.
    ///
    /// Returns `Ok(())` exactly when a record was stored under `id`, and
    /// `Err(MemoryError::NotFound(id))` exactly when none was.
    pub fn remove_memory(&mut self, id: u128) -> (r: Result<(), MemoryError>)
        requires
            old(self).inv(),
        ensures
            final(self).inv(),
            match r {
                Ok(()) => old(self)@.contains_key(id) && final(self)@ == old(self)@.remove(id),
                Err(e) => {
                    &&& !old(self)@.contains_key(id)
                    &&& e == MemoryError::NotFound(id)
                    &&& final(self)@ == old(self)@
                },
            },
            final(self).profile() == old(self).profile(),
            final(self).state() == old(self).state(),
    {
        let ghost vpre = self.memories@;
        let ghost base = views_of(vpre);
        proof {
            lemma_views_of_index(vpre);
            lemma_mems_to_map(base);
        }
        let found = index_of_id(&self.memories, id);
        match found {
            Some(i) => {
                proof {
                    assert(base[i as int].id == id);
                }
                self.memories.remove(i);
                proof {
                    lemma_views_of_index(self.memories@);
                    let nv = views_of(self.memories@);
                    assert(forall|x: int|
                        0 <= x < nv.len() ==> #[trigger] nv[x] == if x < i {
                            base[x]
                        } else {
                            base[x + 1]
                        }) by {
                        assert forall|x: int| 0 <= x < nv.len() implies #[trigger] nv[x] == if x
                            < i {
                            base[x]
                        } else {
                            base[x + 1]
                        } by {
                            assert(nv[x] == self.memories@[x]@);
                            if x < i {
                                assert(self.memories@[x] == vpre[x]);
                            } else {
                                assert(self.memories@[x] == vpre[x + 1]);
                            }
                        }
                    }
                    assert(distinct_mem_ids(nv)) by {
                        assert forall|a: int, b: int| 0 <= a < b < nv.len() implies (
                        #[trigger] nv[a]).id != (#[trigger] nv[b]).id by {
                            let a2 = if a < i {
                                a
                            } else {
                                a + 1
                            };
                            let b2 = if b < i {
                                b
                            } else {
                                b + 1
                            };
                            assert(nv[a] == base[a2]);
                            assert(nv[b] == base[b2]);
                        }
                    }
                    assert(forall|k: int| 0 <= k < nv.len() ==> (#[trigger] nv[k]).wf()) by {
                        assert forall|k: int| 0 <= k < nv.len() implies (#[trigger] nv[k]).wf() by {
                            let k2 = if k < i {
                                k
                            } else {
                                k + 1
                            };
                            assert(nv[k] == base[k2]);
                        }
                    }
                    lemma_mems_to_map(nv);
                    let target = old(self)@.remove(id);
                    assert forall|x: u128| self@.dom().contains(x) implies target.dom().contains(
                        x,
                    ) by {
                        let k = choose|k: int| 0 <= k < nv.len() && (#[trigger] nv[k]).id == x;
                        let k2 = if k < i {
                            k
                        } else {
                            k + 1
                        };
                        assert(nv[k] == base[k2]);
                        assert(base[k2].id == x);
                        assert(k2 != i);
                        assert(x != id);
                    }
                    assert forall|x: u128| target.dom().contains(x) implies self@.dom().contains(
                        x,
                    ) by {
                        let k = choose|k: int| 0 <= k < base.len() && (#[trigger] base[k]).id == x;
                        assert(k != i);
                        let k2 = if k < i {
                            k
                        } else {
                            k - 1
                        };
                        assert(nv[k2] == base[k]);
                    }
                    assert(self@.dom() =~= target.dom());
                    assert forall|x: u128| self@.dom().contains(x) implies self@[x]
                        == target[x] by {
                        let k = choose|k: int| 0 <= k < nv.len() && (#[trigger] nv[k]).id == x;
                        let k2 = if k < i {
                            k
                        } else {
                            k + 1
                        };
                        assert(nv[k] == base[k2]);
                        assert(base[k2].id == x);
                        assert(k2 != i);
                        assert(x != id);
                        assert(self@[nv[k].id] == nv[k]);
                        assert(old(self)@[base[k2].id] == base[k2]);
                    }
                    assert(self@ =~= target);
                }
                Ok(())
            },
            None => Err(MemoryError::not_found(id)),
        }
    }

    /// Replaces the agent's volatile state wholesale.
    pub fn update_agent_state(&mut self, state: AgentState)
        requires
            old(self).inv(),
            state.wf(),
        ensures
            final(self).inv(),
            final(self)@ == old(self)@,
            final(self).state() == state,
            final(self).profile() == old(self).profile(),
    {
        self.agent_state = state;
    }

    /// The agent profile this store was built with.
    pub fn agent_profile(&self) -> (p: &AgentProfile)
        ensures
            *p == self.profile(),
    {
        &self.agent_profile
    }

    /// The agent's current volatile state.
    pub fn agent_state(&self) -> (s: &AgentState)
        ensures
            *s == self.state(),
    {
        &self.agent_state
    }

    /// Ranked retrieval at an explicit time: scores every record by
    /// similarity times retention, returns the `limit` best with their
    /// reinforced snapshots, and reinforces exactly those records.
    ///
    /// Returns `Ok` exactly when `limit >= 1`; a `limit` of `0` is
    /// rejected with `InvalidParameter` and leaves the store unchanged.
    pub fn find_relevant_at(&mut self, query_vector: &[i64], limit: usize, now: i64) -> (r: Result<
        Vec<(i64, Memory)>,
        MemoryError,
    >)
        requires
            old(self).inv(),
            wf_vector(query_vector@),
        ensures
            final(self).inv(),
            match r {
                Ok(res) => limit >= 1 && find_relevant_ok(
                    old(self)@,
                    final(self)@,
                    query_vector@,
                    limit as int,
                    now,
                    old(self).state(),
                    old(self).profile(),
                    res_views(res@),
                ),
                Err(e) => {
                    &&& limit == 0
                    &&& e is InvalidParameter
                    &&& final(self)@ == old(self)@
                },
            },
            final(self).profile() == old(self).profile(),
            final(self).state() == old(self).state(),
    {
        if limit == 0 {
            return Err(MemoryError::invalid_param("limit", 0));
        }
        let ghost vpre = self.memories@;
        let ghost base = views_of(vpre);
        let ghost mp = mems_to_map(base);
        let ghost st = self.agent_state;
        let ghost pf = self.agent_profile;
        proof {
            lemma_views_of_index(vpre);
            lemma_mems_to_map(base);
        }

        // score every record
        let n = self.memories.len();
        let mut cands: Vec<(i64, u128)> = Vec::new();
        let mut k: usize = 0;
        while k < n
            invariant
                k <= n,
                n == self.memories@.len(),
                vpre == self.memories@,
                base == views_of(vpre),
                st == self.agent_state,
                pf == self.agent_profile,
                self.inv(),
                wf_vector(query_vector@),
                cands@.len() == k,
                forall|j: int|
                    0 <= j < k ==> #[trigger] cands@[j] == (
                        (score_spec(base[j], query_vector@, now, st, pf) as i64),
                        base[j].id,
                    ),
            decreases n - k,
        {
            proof {
                lemma_views_of_index(vpre);
                assert(base[k as int] == self.memories@[k as int]@);
            }
            let s = score_memory(
                &self.memories[k],
                query_vector,
                now,
                &self.agent_state,
                &self.agent_profile,
            );
            let mid = self.memories[k].id;
            cands.push((s, mid));
            k = k + 1;
        }
        proof {
            assert(distinct_ids(cands@)) by {
                assert forall|a: int, b: int| 0 <= a < b < cands@.len() implies (
                #[trigger] cands@[a]).1 != (#[trigger] cands@[b]).1 by {
                    assert(cands@[a].1 == base[a].id);
                    assert(cands@[b].1 == base[b].id);
                }
            }
        }
        let top = top_candidates(cands, limit);
        proof {
            assert forall|j: int| #![trigger top@[j]] 0 <= j < top@.len() implies exists|x: int|
                0 <= x < base.len() && (#[trigger] base[x]).id == top@[j].1 by {
                assert(cands@.contains(top@[j]));
                let c = choose|c: int| 0 <= c < cands@.len() && cands@[c] == top@[j];
                assert(base[c].id == top@[j].1);
            }
        }

        // reinforce the selected records and snapshot them
        let rho = self.agent_profile.rho;
        let mut res: Vec<(i64, Memory)> = Vec::new();
        let mut i: usize = 0;
        while i < top.len()
            invariant
                i <= top@.len(),
                self.memories@.len() == base.len(),
                st == self.agent_state,
                pf == self.agent_profile,
                rho == pf.rho,
                0 <= rho <= crate::model::TUNE_MAX,
                st.wf(),
                pf.wf(),
                base == views_of(vpre),
                distinct_mem_ids(base),
                forall|x: int| 0 <= x < base.len() ==> (#[trigger] base[x]).wf(),
                mp == mems_to_map(base),
                distinct_ids(top@),
                forall|j: int|
                    #![trigger top@[j]]
                    0 <= j < top@.len() ==> exists|x: int|
                        0 <= x < base.len() && (#[trigger] base[x]).id == top@[j].1,
                views_of(self.memories@).len() == base.len(),
                forall|x: int|
                    0 <= x < base.len() ==> (#[trigger] views_of(self.memories@)[x]) == if exists|
                        j: int,
                    |
                        0 <= j < i && (#[trigger] top@[j]).1 == base[x].id {
                        reinforced_spec(base[x], rho, now)
                    } else {
                        base[x]
                    },
                forall|x: int|
                    0 <= x < base.len() ==> (#[trigger] views_of(self.memories@)[x]).id
                        == base[x].id,
                forall|x: int|
                    0 <= x < base.len() ==> (#[trigger] views_of(self.memories@)[x]).wf(),
                res@.len() == i,
                forall|j: int|
                    #![trigger res@[j]]
                    0 <= j < i ==> res@[j].0 == top@[j].0 && res@[j].1@ == reinforced_spec(
                        mp[top@[j].1],
                        rho,
                        now,
                    ),
            decreases top@.len() - i,
        {
            let pair = top[i];
            let found = index_of_id(&self.memories, pair.1);
            let idx = match found {
                Some(x) => x,
                None => {
                    proof {
                        lemma_views_of_index(self.memories@);
                        let x = choose|x: int|
                            0 <= x < base.len() && (#[trigger] base[x]).id == top@[i as int].1;
                        assert(views_of(self.memories@)[x].id == top@[i as int].1);
                        assert(self.memories@[x]@.id == top@[i as int].1);
                    }
                    vstd::pervasive::unreached()
                },
            };
            let ghost vcur = self.memories@;
            proof {
                lemma_views_of_index(vcur);
                assert(views_of(vcur)[idx as int] == vcur[idx as int]@);
                assert(views_of(vcur)[idx as int].id == top@[i as int].1);
                assert(base[idx as int].id == top@[i as int].1);
                // the selected record has not been reinforced yet
                if exists|j: int| 0 <= j < i && (#[trigger] top@[j]).1 == base[idx as int].id {
                    let j = choose|j: int|
                        0 <= j < i && (#[trigger] top@[j]).1 == base[idx as int].id;
                    assert(top@[j].1 == top@[i as int].1);
                    assert(false);
                }
                assert(views_of(vcur)[idx as int] == base[idx as int]);
                lemma_mems_to_map(base);
                assert(mp[top@[i as int].1] == base[idx as int]);
            }
            let mut tmp = self.memories[idx].clone();
            proof {
                assert(tmp@ == base[idx as int]);
            }
            tmp.record_retrieval_at(rho, now);
            let snap = tmp.clone();
            self.memories[idx] = tmp;
            res.push((pair.0, snap));
            proof {
                lemma_views_of_index(self.memories@);
                assert forall|x: int| 0 <= x < base.len() implies (
                #[trigger] views_of(self.memories@)[x]) == if exists|j: int|
                    0 <= j < i + 1 && (#[trigger] top@[j]).1 == base[x].id {
                    reinforced_spec(base[x], rho, now)
                } else {
                    base[x]
                } by {
                    assert(views_of(self.memories@)[x] == self.memories@[x]@);
                    if x == idx {
                        assert(top@[i as int].1 == base[x].id);
                    } else {
                        assert(self.memories@[x] == vcur[x]);
                        assert(views_of(vcur)[x] == vcur[x]@);
                        if exists|j: int| 0 <= j < i + 1 && (#[trigger] top@[j]).1 == base[x].id {
                            let j = choose|j: int|
                                0 <= j < i + 1 && (#[trigger] top@[j]).1 == base[x].id;
                            if j == i {
                                assert(base[x].id == base[idx as int].id);
                                assert(x == idx);
                            }
                        }
                    }
                }
            }
            i = i + 1;
        }

        proof {
            // the candidate sequence enumerates the pre-state map exactly
            assert(forall|j: int|
                0 <= j < cands@.len() ==> mp.dom().contains((#[trigger] cands@[j]).1));
            assert forall|j: int| 0 <= j < cands@.len() implies #[trigger] cands@[j]
                == candidate_of(mp, cands@[j].1, query_vector@, now, st, pf) by {
                assert(mp[base[j].id] == base[j]);
            }
            assert forall|id: u128| mp.dom().contains(id) implies cands@.contains(
                #[trigger] candidate_of(mp, id, query_vector@, now, st, pf),
            ) by {
                let x = choose|x: int| 0 <= x < base.len() && (#[trigger] base[x]).id == id;
                assert(mp[id] == base[x]);
                assert(cands@[x] == candidate_of(mp, id, query_vector@, now, st, pf));
            }
            lemma_topk_to_ranked(mp, cands@, query_vector@, now, st, pf, limit as int, top@);

            // the returned keys are the ranked answer
            assert(rank_keys(res_views(res@)) =~= top@) by {
                assert forall|j: int| 0 <= j < res@.len() implies rank_keys(res_views(res@))[j]
                    == top@[j] by {
                    assert(res@[j].0 == top@[j].0);
                    assert(res@[j].1@ == reinforced_spec(mp[top@[j].1], rho, now));
                    assert(res_views(res@)[j] == (res@[j].0, res@[j].1@));
                }
            }

            // the post-state map reinforces exactly the selected records
            let nv = views_of(self.memories@);
            assert(distinct_mem_ids(nv)) by {
                assert forall|a: int, b: int| 0 <= a < b < nv.len() implies (#[trigger] nv[a]).id
                    != (#[trigger] nv[b]).id by {
                    assert(nv[a].id == base[a].id);
                    assert(nv[b].id == base[b].id);
                }
            }
            lemma_mems_to_map(nv);
            assert(self@.dom() =~= mp.dom()) by {
                assert forall|x: u128| self@.dom().contains(x) implies mp.dom().contains(x) by {
                    let k2 = choose|k2: int| 0 <= k2 < nv.len() && (#[trigger] nv[k2]).id == x;
                    assert(base[k2].id == x);
                }
                assert forall|x: u128| mp.dom().contains(x) implies self@.dom().contains(x) by {
                    let k2 = choose|k2: int| 0 <= k2 < base.len() && (#[trigger] base[k2]).id == x;
                    assert(nv[k2].id == x);
                }
            }
            assert forall|id: u128| mp.dom().contains(id) implies #[trigger] self@[id] == if
                ranked_contains_id(top@, id) {
                reinforced_spec(mp[id], rho, now)
            } else {
                mp[id]
            } by {
                let k2 = choose|k2: int| 0 <= k2 < base.len() && (#[trigger] base[k2]).id == id;
                assert(self@[nv[k2].id] == nv[k2]);
                assert(mp[id] == base[k2]);
                if ranked_contains_id(top@, id) {
                    let j = choose|j: int| 0 <= j < top@.len() && (#[trigger] top@[j]).1 == id;
                    assert(nv[k2] == reinforced_spec(base[k2], rho, now));
                } else {
                    assert(nv[k2] == base[k2]);
                }
            }
            assert forall|j: int| 0 <= j < res_views(res@).len() implies (
            #[trigger] res_views(res@)[j]).1 == reinforced_spec(
                mp[res_views(res@)[j].1.id],
                pf.rho,
                now,
            ) by {
                assert(res@[j].1@ == reinforced_spec(mp[top@[j].1], rho, now));
                assert(res_views(res@)[j] == (res@[j].0, res@[j].1@));
            }
            assert(find_relevant_ok(
                mp,
                self@,
                query_vector@,
                limit as int,
                now,
                st,
                pf,
                res_views(res@),
            ));
        }
        Ok(res)
    }

    /// Ranked retrieval at the current wall-clock time; see
    /// [`Self::find_relevant_at`].
    pub fn find_relevant(&mut self, query_vector: &[i64], limit: usize) -> (r: Result<
        Vec<(i64, Memory)>,
        MemoryError,
    >)
        requires
            old(self).inv(),
            wf_vector(query_vector@),
        ensures
            final(self).inv(),
            match r {
                Ok(res) => limit >= 1 && exists|t: i64|
                    find_relevant_ok(
                        old(self)@,
                        final(self)@,
                        query_vector@,
                        limit as int,
                        t,
                        old(self).state(),
                        old(self).profile(),
                        res_views(res@),
                    ),
                Err(e) => {
                    &&& limit == 0
                    &&& e is InvalidParameter
                    &&& final(self)@ == old(self)@
                },
            },
            final(self).profile() == old(self).profile(),
            final(self).state() == old(self).state(),
    {
        let now = external::now_seconds();
        self.find_relevant_at(query_vector, limit, now)
    }

    /// Answers one ranked query per input vector, in order, each against
    /// the state the previous one left behind.
    pub fn find_relevant_batch(&mut self, query_vectors: &[Vec<i64>], limit: usize) -> (r: Result<
        Vec<Vec<(i64, Memory)>>,
        MemoryError,
    >)
        requires
            old(self).inv(),
            forall|i: int| 0 <= i < query_vectors@.len() ==> wf_vector((#[trigger] query_vectors@[i])@),
        ensures
            final(self).inv(),
            match r {
                Ok(res) => (limit >= 1 || query_vectors@.len() == 0) && batch_ok(
                    old(self)@,
                    final(self)@,
                    query_vectors@.map_values(|v: Vec<i64>| v@),
                    limit as int,
                    old(self).state(),
                    old(self).profile(),
                    res@.map_values(|rv: Vec<(i64, Memory)>| res_views(rv@)),
                ),
                Err(e) => {
                    &&& limit == 0
                    &&& query_vectors@.len() > 0
                    &&& e is InvalidParameter
                    &&& final(self)@ == old(self)@
                },
            },
            final(self).profile() == old(self).profile(),
            final(self).state() == old(self).state(),
    {
        let ghost orig = self@;
        let ghost qs = query_vectors@.map_values(|v: Vec<i64>| v@);
        let ghost st = self.state();
        let ghost pf = self.profile();
        let mut res: Vec<Vec<(i64, Memory)>> = Vec::new();
        let mut i: usize = 0;
        proof {
            assert(qs.subrange(0, 0) =~= Seq::<Seq<i64>>::empty());
            assert(res@.map_values(|rv: Vec<(i64, Memory)>| res_views(rv@)) =~= Seq::<
                Seq<(i64, MemoryView)>,
            >::empty());
        }
        while i < query_vectors.len()
            invariant
                i <= query_vectors@.len(),
                qs == query_vectors@.map_values(|v: Vec<i64>| v@),
                forall|j: int|
                    0 <= j < query_vectors@.len() ==> wf_vector((#[trigger] query_vectors@[j])@),
                res@.len() == i,
                self.inv(),
                i > 0 ==> limit >= 1,
                orig == old(self)@,
                pf == old(self).profile(),
                st == old(self).state(),
                self.profile() == pf,
                self.state() == st,
                batch_ok(
                    orig,
                    self@,
                    qs.subrange(0, i as int),
                    limit as int,
                    st,
                    pf,
                    res@.map_values(|rv: Vec<(i64, Memory)>| res_views(rv@)),
                ),
            decreases query_vectors@.len() - i,
        {
            let ghost mid = self@;
            let ghost res_before = res@;
            let one = self.find_relevant(query_vectors[i].as_slice(), limit);
            match one {
                Ok(rv) => {
                    let ghost rvv = rv@;
                    res.push(rv);
                    proof {
                        let f = |rv2: Vec<(i64, Memory)>| res_views(rv2@);
                        let rvs = res@.map_values(f);
                        let qs1 = qs.subrange(0, (i + 1) as int);
                        assert(qs1.drop_last() =~= qs.subrange(0, i as int));
                        assert(qs1.last() == qs[i as int]);
                        assert(qs[i as int] == query_vectors@[i as int]@);
                        assert(res@.drop_last() =~= res_before);
                        assert(rvs.drop_last() =~= res_before.map_values(f));
                        assert(rvs.last() == res_views(rvv));
                        let t = choose|t: i64|
                            find_relevant_ok(
                                mid,
                                self@,
                                query_vectors@[i as int]@,
                                limit as int,
                                t,
                                st,
                                pf,
                                res_views(rvv),
                            );
                        assert(batch_ok(
                            orig,
                            mid,
                            qs1.drop_last(),
                            limit as int,
                            st,
                            pf,
                            rvs.drop_last(),
                        ));
                        assert(find_relevant_ok(
                            mid,
                            self@,
                            qs1.last(),
                            limit as int,
                            t,
                            st,
                            pf,
                            rvs.last(),
                        ));
                        assert(batch_ok(orig, self@, qs1, limit as int, st, pf, rvs));
                    }
                    i = i + 1;
                },
                Err(e) => {
                    proof {
                        assert(i == 0);
                        assert(qs.subrange(0, 0).len() == 0);
                        assert(self@ == orig);
                    }
                    return Err(e);
                },
            }
        }
        proof {
            assert(qs.subrange(0, qs.len() as int) =~= qs);
        }
        Ok(res)
    }

    /// Maintenance at an explicit time: evicts every record whose
    /// retention at `now` is strictly under `retention_threshold` and
    /// returns the number evicted.
    ///
    /// Returns `Ok` exactly when the threshold lies in `[0, SCALE]`; any
    /// other threshold is rejected with `InvalidParameter` and leaves the
    /// store unchanged.
    pub fn maintain_at(&mut self, retention_threshold: i64, now: i64) -> (r: Result<
        usize,
        MemoryError,
    >)
        requires
            old(self).inv(),
        ensures
            final(self).inv(),
            match r {
                Ok(count) => {
                    &&& 0 <= retention_threshold <= SCALE
                    &&& maintain_ok(
                        old(self)@,
                        final(self)@,
                        retention_threshold,
                        now,
                        old(self).state(),
                        old(self).profile(),
                        count as int,
                    )
                },
                Err(e) => {
                    &&& !(0 <= retention_threshold <= SCALE)
                    &&& e is InvalidParameter
                    &&& final(self)@ == old(self)@
                },
            },
            final(self).profile() == old(self).profile(),
            final(self).state() == old(self).state(),
    {
        if retention_threshold < 0 || retention_threshold > SCALE {
            return Err(MemoryError::invalid_param("retention_threshold", retention_threshold));
        }
        let ghost vpre = self.memories@;
        let ghost base = views_of(vpre);
        let ghost mp = mems_to_map(base);
        let ghost st = self.agent_state;
        let ghost pf = self.agent_profile;
        proof {
            lemma_views_of_index(vpre);
            lemma_mems_to_map(base);
        }
        let thr = retention_threshold;
        let n0 = self.memories.len();
        proof {
            assert(base.len() == n0);
        }
        let mut kept: Vec<Memory> = Vec::new();
        let mut count: usize = 0;
        let ghost p: int = 0;
        proof {
            assert(views_of(self.memories@) =~= base.subrange(0, base.len() as int));
            assert(views_of(kept@) =~= kept_upto(base, 0, thr, now, st, pf)) by {
                lemma_views_of_index(kept@);
            }
        }
        while self.memories.len() > 0
            invariant
                0 <= p <= base.len(),
                st == self.agent_state,
                pf == self.agent_profile,
                st.wf(),
                pf.wf(),
                distinct_mem_ids(base),
                forall|x: int| 0 <= x < base.len() ==> (#[trigger] base[x]).wf(),
                base.len() <= usize::MAX,
                views_of(self.memories@) == base.subrange(p, base.len() as int),
                views_of(kept@) == kept_upto(base, p, thr, now, st, pf),
                count == p - kept_upto(base, p, thr, now, st, pf).len(),
                kept_upto(base, p, thr, now, st, pf).len() <= p,
            decreases self.memories@.len(),
        {
            let ghost vcur = self.memories@;
            let ghost kcur = kept@;
            proof {
                lemma_views_of_index(vcur);
                assert(views_of(vcur).len() == vcur.len());
                assert(p < base.len());
                assert(views_of(vcur)[0] == base[p]);
                assert(vcur[0]@ == base[p]);
                lemma_kept_upto_len(base, p, thr, now, st, pf);
            }
            let m = self.memories.remove(0);
            let ret = m.calculate_retention(now, &self.agent_state, &self.agent_profile);
            proof {
                lemma_views_of_index(self.memories@);
                assert(views_of(self.memories@) =~= base.subrange(p + 1, base.len() as int)) by {
                    assert forall|j: int| 0 <= j < self.memories@.len() implies (
                    #[trigger] views_of(self.memories@)[j]) == base[p + 1 + j] by {
                        assert(views_of(self.memories@)[j] == self.memories@[j]@);
                        assert(self.memories@[j] == vcur[j + 1]);
                        assert(views_of(vcur)[j + 1] == vcur[j + 1]@);
                        assert(views_of(vcur)[j + 1] == base.subrange(p, base.len() as int)[j + 1]);
                    }
                }
            }
            if ret >= thr {
                kept.push(m);
                proof {
                    lemma_views_of_index(kept@);
                    lemma_views_of_index(kcur);
                    assert(views_of(kept@) =~= kept_upto(base, p + 1, thr, now, st, pf)) by {
                        assert(kept_upto(base, p + 1, thr, now, st, pf) == kept_upto(
                            base,
                            p,
                            thr,
                            now,
                            st,
                            pf,
                        ).push(base[p]));
                        assert forall|j: int| 0 <= j < kept@.len() implies (
                        #[trigger] views_of(kept@)[j]) == views_of(kcur).push(base[p])[j] by {
                            assert(views_of(kept@)[j] == kept@[j]@);
                            if j < kcur.len() {
                                assert(kept@[j] == kcur[j]);
                                assert(views_of(kcur)[j] == kcur[j]@);
                            } else {
                                assert(kept@[j] == m);
                            }
                        }
                    }
                }
            } else {
                count = count + 1;
                proof {
                    assert(kept_upto(base, p + 1, thr, now, st, pf) == kept_upto(
                        base,
                        p,
                        thr,
                        now,
                        st,
                        pf,
                    ));
                }
            }
            proof {
                p = p + 1;
            }
        }
        self.memories = kept;
        proof {
            assert(p == base.len());
            let keptv = kept_upto(base, base.len() as int, thr, now, st, pf);
            assert(views_of(self.memories@) == keptv);
            lemma_kept_upto(base, base.len() as int, thr, now, st, pf);
            lemma_kept_upto_len(base, base.len() as int, thr, now, st, pf);
            assert(forall|j: int|
                0 <= j < keptv.len() ==> (#[trigger] keptv[j]).wf()) by {
                assert forall|j: int| 0 <= j < keptv.len() implies (#[trigger] keptv[j]).wf() by {
                    let k2 = choose|k2: int|
                        0 <= k2 < base.len() && #[trigger] base[k2] == keptv[j] && retention_spec(
                            base[k2],
                            now,
                            st,
                            pf,
                        ) >= thr;
                }
            }
            lemma_mems_to_map(keptv);
            assert forall|id: u128| #[trigger] self@.dom().contains(id) implies mp.dom().contains(
                id,
            ) && retention_spec(mp[id], now, st, pf) >= thr && self@[id] == mp[id] by {
                let j = choose|j: int| 0 <= j < keptv.len() && (#[trigger] keptv[j]).id == id;
                let k2 = choose|k2: int|
                    0 <= k2 < base.len() && #[trigger] base[k2] == keptv[j] && retention_spec(
                        base[k2],
                        now,
                        st,
                        pf,
                    ) >= thr;
                assert(mp[base[k2].id] == base[k2]);
                assert(self@[keptv[j].id] == keptv[j]);
            }
            assert forall|id: u128|
                mp.dom().contains(id) && retention_spec(mp[id], now, st, pf) >= thr implies
                #[trigger] self@.dom().contains(id) by {
                let k2 = choose|k2: int| 0 <= k2 < base.len() && (#[trigger] base[k2]).id == id;
                assert(mp[id] == base[k2]);
                assert(keptv.contains(base[k2]));
                let j = choose|j: int| 0 <= j < keptv.len() && keptv[j] == base[k2];
                assert(keptv[j].id == id);
            }
            assert(maintain_ok(mp, self@, thr, now, st, pf, count as int));
        }
        Ok(count)
    }

    /// Maintenance at the current wall-clock time; see
    /// [`Self::maintain_at`].
    pub fn maintain(&mut self, retention_threshold: i64) -> (r: Result<usize, MemoryError>)
        requires
            old(self).inv(),
        ensures
            final(self).inv(),
            match r {
                Ok(count) => {
                    &&& 0 <= retention_threshold <= SCALE
                    &&& exists|t: i64|
                        maintain_ok(
                            old(self)@,
                            final(self)@,
                            retention_threshold,
                            t,
                            old(self).state(),
                            old(self).profile(),
                            count as int,
                        )
                },
                Err(e) => {
                    &&& !(0 <= retention_threshold <= SCALE)
                    &&& e is InvalidParameter
                    &&& final(self)@ == old(self)@
                },
            },
            final(self).profile() == old(self).profile(),
            final(self).state() == old(self).state(),
    {
        let now = external::now_seconds();
        self.maintain_at(retention_threshold, now)
    }
}

impl Default for MemoryStore {
    /// An empty store under default profile and state.
    fn default() -> (s: MemoryStore)
        ensures
            s.inv(),
            s@ == Map::<u128, MemoryView>::empty(),
            s.profile() == (AgentProfile {
                k: 500_000,
                a_mid: 22_000_000,
                epsilon: 200_000,
                theta_shock: 700_000,
                gamma: 1_500_000,
                eta: 300_000,
                c_base: 100_000_000,
                rho: 100_000,
                kappa: 50_000,
            }),
            s.state() == (AgentState {
                current_age: 0,
                sleep_debt: 0,
                cortisol_level: 0,
                fatigue: 0,
                training_factor: 0,
            }),
    {
        MemoryStore::new(AgentProfile::default(), AgentState::default())
    }
}

/// The records of the first `p` entries of `s` whose retention at `now`
/// reaches `thr`, in order.
pub open spec fn kept_upto(
    s: Seq<MemoryView>,
    p: int,
    thr: i64,
    now: i64,
    st: AgentState,
    pf: AgentProfile,
) -> Seq<MemoryView>
    decreases p,
{
    if p <= 0 {
        Seq::empty()
    } else {
        let r = kept_upto(s, p - 1, thr, now, st, pf);
        if retention_spec(s[p - 1], now, st, pf) >= thr {
            r.push(s[p - 1])
        } else {
            r
        }
    }
}

/// [`kept_upto`] keeps at most one record per step.
proof fn lemma_kept_upto_len(
    s: Seq<MemoryView>,
    p: int,
    thr: i64,
    now: i64,
    st: AgentState,
    pf: AgentProfile,
)
    requires
        0 <= p,
    ensures
        kept_upto(s, p, thr, now, st, pf).len() <= p,
    decreases p,
{
    if p > 0 {
        lemma_kept_upto_len(s, p - 1, thr, now, st, pf);
    }
}

/// Characterises [`kept_upto`]: it keeps exactly the surviving records,
/// each once, in order, with distinct identifiers.
proof fn lemma_kept_upto(
    s: Seq<MemoryView>,
    p: int,
    thr: i64,
    now: i64,
    st: AgentState,
    pf: AgentProfile,
)
    requires
        distinct_mem_ids(s),
        0 <= p <= s.len(),
    ensures
        forall|j: int|
            #![trigger kept_upto(s, p, thr, now, st, pf)[j]]
            0 <= j < kept_upto(s, p, thr, now, st, pf).len() ==> exists|k: int|
                0 <= k < p && #[trigger] s[k] == kept_upto(s, p, thr, now, st, pf)[j]
                    && retention_spec(s[k], now, st, pf) >= thr,
        forall|k: int|
            0 <= k < p && retention_spec(#[trigger] s[k], now, st, pf) >= thr ==> kept_upto(
                s,
                p,
                thr,
                now,
                st,
                pf,
            ).contains(s[k]),
        distinct_mem_ids(kept_upto(s, p, thr, now, st, pf)),
    decreases p,
{
    if p > 0 {
        lemma_kept_upto(s, p - 1, thr, now, st, pf);
        let prev = kept_upto(s, p - 1, thr, now, st, pf);
        let cur = kept_upto(s, p, thr, now, st, pf);
        assert forall|j: int|
            #![trigger cur[j]]
            0 <= j < cur.len() implies exists|k: int|
            0 <= k < p && #[trigger] s[k] == cur[j] && retention_spec(s[k], now, st, pf)
                >= thr by {
            if j < prev.len() {
                let k = choose|k: int|
                    0 <= k < p - 1 && #[trigger] s[k] == prev[j] && retention_spec(
                        s[k],
                        now,
                        st,
                        pf,
                    ) >= thr;
                assert(0 <= k < p && s[k] == cur[j] && retention_spec(s[k], now, st, pf) >= thr);
            } else {
                assert(retention_spec(s[p - 1], now, st, pf) >= thr);
                assert(s[p - 1] == cur[j]);
            }
        }
        if retention_spec(s[p - 1], now, st, pf) >= thr {
            assert(cur == prev.push(s[p - 1]));
            assert forall|k: int|
                0 <= k < p && retention_spec(#[trigger] s[k], now, st, pf) >= thr implies
                cur.contains(s[k]) by {
                if k < p - 1 {
                    assert(prev.contains(s[k]));
                    let j = choose|j: int| 0 <= j < prev.len() && prev[j] == s[k];
                    assert(cur[j] == s[k]);
                } else {
                    assert(cur[cur.len() - 1] == s[k]);
                }
            }
            assert(distinct_mem_ids(cur)) by {
                assert forall|a: int, b: int| 0 <= a < b < cur.len() implies (
                #[trigger] cur[a]).id != (#[trigger] cur[b]).id by {
                    if b == cur.len() - 1 {
                        let ka = choose|ka: int|
                            0 <= ka < p - 1 && #[trigger] s[ka] == prev[a] && retention_spec(
                                s[ka],
                                now,
                                st,
                                pf,
                            ) >= thr;
                        assert(s[ka].id != s[p - 1].id);
                    }
                }
            }
        }
    }
}

impl MemoryStore {
    /// Snapshots the store into a persistable container.
    pub fn to_stored(&self) -> (d: StoredData)
        requires
            self.inv(),
        ensures
            views_of(d.memories@) == self.mem_views(),
            d.agent_profile == self.profile(),
            d.agent_state == self.state(),
    {
        let mut mems: Vec<Memory> = Vec::new();
        let mut i: usize = 0;
        while i < self.memories.len()
            invariant
                i <= self.memories@.len(),
                mems@.len() == i,
                forall|j: int|
                    0 <= j < i ==> (#[trigger] mems@[j])@ == views_of(self.memories@)[j],
            decreases self.memories@.len() - i,
        {
            proof {
                lemma_views_of_index(self.memories@);
            }
            let c = self.memories[i].clone();
            mems.push(c);
            i = i + 1;
        }
        proof {
            lemma_views_of_index(mems@);
            lemma_views_of_index(self.memories@);
            assert(views_of(mems@) =~= views_of(self.memories@)) by {
                assert forall|j: int| 0 <= j < mems@.len() implies #[trigger] views_of(mems@)[j]
                    == views_of(self.memories@)[j] by {
                    assert(views_of(mems@)[j] == mems@[j]@);
                }
            }
        }
        StoredData {
            memories: mems,
            agent_profile: self.agent_profile,
            agent_state: self.agent_state,
        }
    }

    /// Rebuilds a store from a persisted container, failing closed on
    /// out-of-range data; on success the store holds exactly the loaded
    /// records, a later record displacing an earlier one under the same
    /// identifier.
    pub fn from_stored(data: StoredData) -> (r: Result<MemoryStore, MemoryError>)
        ensures
            match r {
                Ok(s) => {
                    &&& s.inv()
                    &&& data.agent_profile.wf()
                    &&& data.agent_state.wf()
                    &&& s@ == mems_to_map(views_of(data.memories@))
                    &&& s.profile() == data.agent_profile
                    &&& s.state() == data.agent_state
                },
                Err(e) => {
                    &&& e is Serialization
                    &&& !({
                        &&& data.agent_profile.wf()
                        &&& data.agent_state.wf()
                        &&& forall|k: int|
                            0 <= k < data.memories@.len() ==> (#[trigger] views_of(
                                data.memories@,
                            )[k]).wf()
                    })
                },
            },
    {
        proof {
            lemma_views_of_index(data.memories@);
        }
        if !data.agent_profile.is_wf() || !data.agent_state.is_wf() {
            return Err(MemoryError::Serialization("stored agent parameters out of range".to_owned()));
        }
        let ghost vs = views_of(data.memories@);
        let mut s = MemoryStore::new(data.agent_profile, data.agent_state);
        let mut i: usize = 0;
        proof {
            assert(vs.subrange(0, 0) =~= Seq::<MemoryView>::empty());
        }
        while i < data.memories.len()
            invariant
                i <= data.memories@.len(),
                vs == views_of(data.memories@),
                vs.len() == data.memories@.len(),
                forall|j: int| 0 <= j < vs.len() ==> #[trigger] vs[j] == data.memories@[j]@,
                s.inv(),
                s@ == mems_to_map(vs.subrange(0, i as int)),
                s.profile() == data.agent_profile,
                s.state() == data.agent_state,
            decreases data.memories@.len() - i,
        {
            if !data.memories[i].is_wf() {
                proof {
                    assert(!vs[i as int].wf());
                }
                return Err(MemoryError::Serialization("stored record out of range".to_owned()));
            }
            let c = data.memories[i].clone();
            s.add_memory(c);
            proof {
                assert(vs.subrange(0, (i + 1) as int).drop_last() =~= vs.subrange(0, i as int));
                assert(vs.subrange(0, (i + 1) as int).last() == vs[i as int]);
                assert(s@ == mems_to_map(vs.subrange(0, (i + 1) as int)));
            }
            i = i + 1;
        }
        proof {
            assert(vs.subrange(0, vs.len() as int) =~= vs);
        }
        Ok(s)
    }

    /// Persists the store through the given backend; the outcome is the
    /// backend's to report.
    pub fn save<B: StorageBackend>(&self, backend: &B) -> Result<(), MemoryError>
        requires
            self.inv(),
    {
        let data = self.to_stored();
        backend.save(&data)
    }

    /// Loads a store from the given backend, failing closed on
    /// out-of-range data.
    pub fn load<B: StorageBackend>(backend: &B) -> (r: Result<MemoryStore, MemoryError>)
        ensures
            r matches Ok(s) ==> s.inv(),
    {
        match backend.load() {
            Ok(data) => MemoryStore::from_stored(data),
            Err(e) => Err(e),
        }
    }
}

/// Finds the position of the record stored under `id`, if any.
fn index_of_id(v: &Vec<Memory>, id: u128) -> (r: Option<usize>)
    ensures
        match r {
            Some(i) => i < v@.len() && views_of(v@)[i as int].id == id,
            None => forall|j: int| 0 <= j < v@.len() ==> views_of(v@)[j].id != id,
        },
{
    proof {
        lemma_views_of_index(v@);
    }
    let mut j: usize = 0;
    while j < v.len()
        invariant
            j <= v@.len(),
            forall|x: int| 0 <= x < j ==> views_of(v@)[x].id != id,
        decreases v@.len() - j,
    {
        proof {
            lemma_views_of_index(v@);
        }
        if v[j].id == id {
            proof {
                assert(views_of(v@)[j as int] == v@[j as int]@);
            }
            return Some(j);
        }
        proof {
            assert(views_of(v@)[j as int] == v@[j as int]@);
        }
        j = j + 1;
    }
    None
}

} // verus!
