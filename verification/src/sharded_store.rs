//! The sharded record store: records partitioned across independent
//! concurrent sub-maps by a deterministic function of the identifier,
//! with the same ranking semantics as the other store variants.
//!
//! A record with identifier `id` lives in shard `id % N`.  The store's
//! abstract value is the union of the shard contents; because routing is
//! deterministic the shard domains are disjoint, and ranked queries that
//! gather candidates from every shard before sorting compute the same
//! global answer as a single-map store.

use vstd::prelude::*;
use dashmap::DashMap;
use crate::concurrent_store::{dash_view, dmap_new, dmap_insert, dmap_get, dmap_remove, dmap_entries};
use crate::error::MemoryError;
use crate::external;
use crate::fixed::SCALE;
use crate::model::{
    Memory, MemoryView, AgentState, AgentProfile, retention_spec, reinforced_spec,
    lemma_reinforced_wf,
};
use crate::ranking::{
    score_spec, score_memory, distinct_ids, top_candidates, candidate_of, ranked_contains_id,
    rank_keys, res_views, find_relevant_ok, maintain_ok, lemma_topk_to_ranked,
};
use crate::similarity::wf_vector;

verus! {

/// The union of the shard contents, later shards preferred (the shards
/// of a well-routed store are disjoint, so the preference never applies).
pub open spec fn shards_view(ss: Seq<DashMap<u128, Memory>>) -> Map<u128, MemoryView>
    decreases ss.len(),
{
    if ss.len() == 0 {
        Map::empty()
    } else {
        shards_view(ss.drop_last()).union_prefer_right(dash_view(ss.last()))
    }
}

/// No identifier is stored in two different shards.
pub open spec fn shards_disjoint(ss: Seq<DashMap<u128, Memory>>) -> bool {
    forall|a: int, b: int, id: u128|
        #![trigger dash_view(ss[a]).contains_key(id), dash_view(ss[b]).contains_key(id)]
        0 <= a < b < ss.len() && dash_view(ss[a]).contains_key(id) ==> !dash_view(
            ss[b],
        ).contains_key(id)
}

/// Every shard holds finitely many records.
pub open spec fn shards_finite(ss: Seq<DashMap<u128, Memory>>) -> bool {
    forall|s: int| 0 <= s < ss.len() ==> (#[trigger] dash_view(ss[s])).dom().finite()
}

/// Characterises [`shards_view`] over disjoint finite shards: an
/// identifier is present exactly when some shard holds it, with that
/// shard's value.
pub proof fn lemma_shards_view(ss: Seq<DashMap<u128, Memory>>)
    requires
        shards_finite(ss),
        shards_disjoint(ss),
    ensures
        shards_view(ss).dom().finite(),
        forall|id: u128|
            #[trigger] shards_view(ss).contains_key(id) <==> exists|s: int|
                0 <= s < ss.len() && dash_view(#[trigger] ss[s]).contains_key(id),
        forall|s: int, id: u128|
            #![trigger dash_view(ss[s]).contains_key(id)]
            0 <= s < ss.len() && dash_view(ss[s]).contains_key(id) ==> shards_view(ss).contains_key(
                id,
            ) && shards_view(ss)[id] == dash_view(ss[s])[id],
    decreases ss.len(),
{
    if ss.len() > 0 {
        let sub = ss.drop_last();
        let last = ss.last();
        assert(forall|s: int| 0 <= s < sub.len() ==> #[trigger] sub[s] == ss[s]);
        lemma_shards_view(sub);
        assert(shards_view(ss) == shards_view(sub).union_prefer_right(dash_view(last)));
        assert(shards_view(ss).dom() =~= shards_view(sub).dom().union(dash_view(last).dom()));
        assert forall|id: u128| #[trigger] shards_view(ss).contains_key(id) implies exists|s: int|
            0 <= s < ss.len() && dash_view(#[trigger] ss[s]).contains_key(id) by {
            if dash_view(last).contains_key(id) {
                assert(dash_view(ss[ss.len() - 1]).contains_key(id));
            } else {
                let s = choose|s: int|
                    0 <= s < sub.len() && dash_view(#[trigger] sub[s]).contains_key(id);
                assert(dash_view(ss[s]).contains_key(id));
            }
        }
        assert forall|s: int, id: u128|
            #![trigger dash_view(ss[s]).contains_key(id)]
            0 <= s < ss.len() && dash_view(ss[s]).contains_key(id) implies shards_view(
            ss,
        ).contains_key(id) && shards_view(ss)[id] == dash_view(ss[s])[id] by {
            if s == ss.len() - 1 {
                assert(shards_view(ss)[id] == dash_view(last)[id]);
            } else {
                assert(sub[s] == ss[s]);
                assert(dash_view(sub[s]).contains_key(id));
                assert(shards_view(sub)[id] == dash_view(sub[s])[id]);
                assert(!dash_view(ss[ss.len() - 1]).contains_key(id));
                assert(shards_view(ss)[id] == shards_view(sub)[id]);
            }
        }
    }
}

/// Shard sequences with pointwise-equal contents denote the same map.
proof fn lemma_shards_view_congruent(a: Seq<DashMap<u128, Memory>>, b: Seq<DashMap<u128, Memory>>)
    requires
        a.len() == b.len(),
        forall|s: int| 0 <= s < a.len() ==> dash_view(#[trigger] a[s]) == dash_view(b[s]),
    ensures
        shards_view(a) == shards_view(b),
    decreases a.len(),
{
    if a.len() > 0 {
        assert(forall|s: int|
            0 <= s < a.drop_last().len() ==> #[trigger] a.drop_last()[s] == a[s]);
        assert(forall|s: int|
            0 <= s < b.drop_last().len() ==> #[trigger] b.drop_last()[s] == b[s]);
        lemma_shards_view_congruent(a.drop_last(), b.drop_last());
        assert(dash_view(a.last()) == dash_view(b.last()));
    }
}

/// Record store that partitions its records across shards.
pub struct ShardedMemoryStore {
    shards: Vec<DashMap<u128, Memory>>,
    agent_profile: AgentProfile,
    agent_state: AgentState,
}

impl View for ShardedMemoryStore {
    type V = Map<u128, MemoryView>;

    closed spec fn view(&self) -> Map<u128, MemoryView> {
        shards_view(self.shards@)
    }
}

impl ShardedMemoryStore {
    /// The store's stable profile.
    pub closed spec fn profile(self) -> AgentProfile {
        self.agent_profile
    }

    /// The store's volatile state.
    pub closed spec fn state(self) -> AgentState {
        self.agent_state
    }

    /// The number of shards.
    pub closed spec fn shard_count(self) -> int {
        self.shards@.len() as int
    }

    /// Every record lives in the shard its identifier routes to.
    spec fn routed(self) -> bool {
        forall|s: int, id: u128|
            #![trigger dash_view(self.shards@[s]).contains_key(id)]
            0 <= s < self.shards@.len() && dash_view(self.shards@[s]).contains_key(id) ==> id as int
                % (self.shards@.len() as int) == s
    }

    /// The shard structure alone: at least one shard, finite and routed.
    spec fn shape(self) -> bool {
        &&& self.shards@.len() >= 1
        &&& shards_finite(self.shards@)
        &&& self.routed()
    }

    /// Internal well-formedness: a sound shard structure holding
    /// well-formed records under their own identifiers, with well-formed
    /// profile and state.
    pub closed spec fn inv(self) -> bool {
        &&& self.shape()
        &&& forall|id: u128|
            self@.contains_key(id) ==> (#[trigger] self@[id]).wf() && self@[id].id == id
        &&& self.agent_profile.wf()
        &&& self.agent_state.wf()
    }

    /// Routing is deterministic, so distinct shards hold no identifier in
    /// common.
    proof fn lemma_disjoint(self)
        requires
            self.routed(),
        ensures
            shards_disjoint(self.shards@),
    {
    }

    /// Creates an empty store with `num_shards` shards.
    pub fn new(agent_profile: AgentProfile, agent_state: AgentState, num_shards: usize) -> (s: ShardedMemoryStore)
        requires
            agent_profile.wf(),
            agent_state.wf(),
            num_shards >= 1,
        ensures
            s.inv(),
            s@ == Map::<u128, MemoryView>::empty(),
            s.shard_count() == num_shards,
            s.profile() == agent_profile,
            s.state() == agent_state,
    {
        let mut shards: Vec<DashMap<u128, Memory>> = Vec::new();
        let mut i: usize = 0;
        while i < num_shards
            invariant
                i <= num_shards,
                shards@.len() == i,
                forall|s2: int|
                    0 <= s2 < i ==> #[trigger] dash_view(shards@[s2]) =~= Map::empty(),
            decreases num_shards - i,
        {
            shards.push(dmap_new());
            i = i + 1;
        }
        let s = ShardedMemoryStore { shards, agent_profile, agent_state };
        proof {
            s.lemma_disjoint();
            lemma_shards_view(s.shards@);
            assert(s@ =~= Map::<u128, MemoryView>::empty()) by {
                assert forall|id: u128| !(#[trigger] s@.contains_key(id)) by {
                    if s@.contains_key(id) {
                        let sh = choose|sh: int|
                            0 <= sh < s.shards@.len() && dash_view(
                                #[trigger] s.shards@[sh],
                            ).contains_key(id);
                    }
                }
            }
        }
        s
    }

    /// The shard an identifier routes to.
    fn shard_slot(&self, id: u128) -> (idx: usize)
        requires
            self.shards@.len() >= 1,
        ensures
            idx < self.shards@.len(),
            idx as int == id as int % (self.shards@.len() as int),
    {
        let n = self.shards.len();
        let idx128: u128 = id % (n as u128);
        proof {
            assert(idx128 < n as u128) by (nonlinear_arith)
                requires
                    idx128 == id % (n as u128),
                    n as u128 >= 1,
            ;
        }
        idx128 as usize
    }

    /// Looks the record up in its routed shard; no other shard can hold
    /// its identifier.
    fn union_get(&self, id: u128) -> (r: Option<Memory>)
        requires
            self.shape(),
        ensures
            match r {
                Some(m) => self@.contains_key(id) && m@ == self@[id],
                None => !self@.contains_key(id),
            },
    {
        proof {
            self.lemma_disjoint();
            lemma_shards_view(self.shards@);
        }
        let idx = self.shard_slot(id);
        let r = dmap_get(&self.shards[idx], id);
        proof {
            if r is None && self@.contains_key(id) {
                let s = choose|s: int|
                    0 <= s < self.shards@.len() && dash_view(
                        #[trigger] self.shards@[s],
                    ).contains_key(id);
                assert(s == idx);
            }
        }
        r
    }

    /// Inserts the record into its routed shard.
    fn union_insert(&mut self, id: u128, value: Memory)
        requires
            old(self).shape(),
        ensures
            final(self).shape(),
            final(self).shards@.len() == old(self).shards@.len(),
            final(self)@ == old(self)@.insert(id, value@),
            final(self).profile() == old(self).profile(),
            final(self).state() == old(self).state(),
    {
        proof {
            self.lemma_disjoint();
            lemma_shards_view(self.shards@);
        }
        let ghost sspre = self.shards@;
        let idx = self.shard_slot(id);
        let shard = &mut self.shards[idx];
        dmap_insert(shard, id, value);
        proof {
            assert(self.shards@ == sspre.update(idx as int, self.shards@[idx as int]));
            assert(dash_view(self.shards@[idx as int]) == dash_view(sspre[idx as int]).insert(
                id,
                value@,
            ));
            assert(forall|s: int|
                0 <= s < self.shards@.len() && s != idx ==> #[trigger] self.shards@[s] == sspre[s]);
            assert(shards_finite(self.shards@)) by {
                assert forall|s: int| 0 <= s < self.shards@.len() implies (#[trigger] dash_view(
                    self.shards@[s],
                )).dom().finite() by {
                    if s != idx {
                        assert(self.shards@[s] == sspre[s]);
                        assert(dash_view(sspre[s]).dom().finite());
                    }
                }
            }
            assert(self.routed()) by {
                assert forall|s: int, id2: u128|
                    #![trigger dash_view(self.shards@[s]).contains_key(id2)]
                    0 <= s < self.shards@.len() && dash_view(self.shards@[s]).contains_key(
                        id2,
                    ) implies id2 as int % (self.shards@.len() as int) == s by {
                    if s == idx {
                        if id2 != id {
                            assert(dash_view(sspre[s]).contains_key(id2));
                        }
                    } else {
                        assert(self.shards@[s] == sspre[s]);
                        assert(dash_view(sspre[s]).contains_key(id2));
                    }
                }
            }
            self.lemma_disjoint();
            lemma_shards_view(self.shards@);
            let target = shards_view(sspre).insert(id, value@);
            assert forall|x: u128| #[trigger] self@.dom().contains(x) implies target.dom().contains(x) by {
                    let s = choose|s: int|
                        0 <= s < self.shards@.len() && dash_view(
                            #[trigger] self.shards@[s],
                        ).contains_key(x);
                    if s != idx {
                        assert(self.shards@[s] == sspre[s]);
                        assert(dash_view(sspre[s]).contains_key(x));
                    } else {
                        if x != id {
                            assert(dash_view(sspre[s]).contains_key(x));
                        }
                    }
                }
            assert forall|x: u128| target.dom().contains(x) implies self@.dom().contains(x) by {
                if x == id {
                    assert(dash_view(self.shards@[idx as int]).contains_key(x));
                } else {
                    let s = choose|s: int|
                        0 <= s < sspre.len() && dash_view(#[trigger] sspre[s]).contains_key(x);
                    if s == idx {
                        assert(dash_view(self.shards@[s]).contains_key(x));
                    } else {
                        assert(self.shards@[s] == sspre[s]);
                        assert(dash_view(self.shards@[s]).contains_key(x));
                    }
                }
            }
            assert(self@.dom() =~= target.dom());
            assert forall|x: u128| self@.dom().contains(x) implies self@[x] == target[x] by {
                if x == id {
                    assert(dash_view(self.shards@[idx as int]).contains_key(x));
                    assert(dash_view(self.shards@[idx as int])[x] == value@);
                    assert(self@[x] == value@);
                } else {
                    let s = choose|s: int|
                        0 <= s < sspre.len() && dash_view(#[trigger] sspre[s]).contains_key(x);
                    assert(shards_view(sspre)[x] == dash_view(sspre[s])[x]);
                    if s == idx {
                        assert(dash_view(self.shards@[s]).contains_key(x));
                        assert(dash_view(self.shards@[s])[x] == dash_view(sspre[s])[x]);
                        assert(self@[x] == dash_view(self.shards@[s])[x]);
                    } else {
                        assert(self.shards@[s] == sspre[s]);
                        assert(dash_view(self.shards@[s]).contains_key(x));
                        assert(self@[x] == dash_view(self.shards@[s])[x]);
                    }
                }
            }
            assert(self@ =~= target);
        }
    }

    /// Removes the record from its routed shard, if present.
    fn union_remove(&mut self, id: u128) -> (r: Option<Memory>)
        requires
            old(self).shape(),
        ensures
            final(self).shape(),
            final(self).shards@.len() == old(self).shards@.len(),
            final(self).profile() == old(self).profile(),
            final(self).state() == old(self).state(),
            match r {
                Some(m) => {
                    &&& old(self)@.contains_key(id)
                    &&& m@ == old(self)@[id]
                    &&& final(self)@ == old(self)@.remove(id)
                },
                None => {
                    &&& !old(self)@.contains_key(id)
                    &&& final(self)@ == old(self)@
                },
            },
    {
        proof {
            self.lemma_disjoint();
            lemma_shards_view(self.shards@);
        }
        let ghost sspre = self.shards@;
        let idx = self.shard_slot(id);
        let shard = &mut self.shards[idx];
        let r = dmap_remove(shard, id);
        proof {
            assert(self.shards@ == sspre.update(idx as int, self.shards@[idx as int]));
            assert(forall|s: int|
                0 <= s < self.shards@.len() && s != idx ==> #[trigger] self.shards@[s] == sspre[s]);
            if r is None {
                assert(dash_view(self.shards@[idx as int]) == dash_view(sspre[idx as int]));
                assert(forall|s: int|
                    0 <= s < self.shards@.len() ==> dash_view(#[trigger] self.shards@[s])
                        == dash_view(sspre[s]));
                lemma_shards_view_congruent(self.shards@, sspre);
                assert(shards_finite(self.shards@));
                assert(self.routed()) by {
                    assert forall|s: int, id2: u128|
                        #![trigger dash_view(self.shards@[s]).contains_key(id2)]
                        0 <= s < self.shards@.len() && dash_view(self.shards@[s]).contains_key(
                            id2,
                        ) implies id2 as int % (self.shards@.len() as int) == s by {
                        assert(dash_view(sspre[s]).contains_key(id2));
                    }
                }
                if shards_view(sspre).contains_key(id) {
                    let s = choose|s: int|
                        0 <= s < sspre.len() && dash_view(#[trigger] sspre[s]).contains_key(id);
                    assert(s == idx);
                }
            } else {
                assert(dash_view(self.shards@[idx as int]) == dash_view(sspre[idx as int]).remove(
                    id,
                ));
                assert(shards_view(sspre)[id] == dash_view(sspre[idx as int])[id]);
                assert(shards_finite(self.shards@)) by {
                    assert forall|s: int| 0 <= s < self.shards@.len() implies (
                    #[trigger] dash_view(self.shards@[s])).dom().finite() by {
                        if s != idx {
                            assert(self.shards@[s] == sspre[s]);
                            assert(dash_view(sspre[s]).dom().finite());
                        }
                    }
                }
                assert(self.routed()) by {
                    assert forall|s: int, id2: u128|
                        #![trigger dash_view(self.shards@[s]).contains_key(id2)]
                        0 <= s < self.shards@.len() && dash_view(self.shards@[s]).contains_key(
                            id2,
                        ) implies id2 as int % (self.shards@.len() as int) == s by {
                        if s == idx {
                            assert(dash_view(sspre[s]).contains_key(id2));
                        } else {
                            assert(self.shards@[s] == sspre[s]);
                            assert(dash_view(sspre[s]).contains_key(id2));
                        }
                    }
                }
                self.lemma_disjoint();
                lemma_shards_view(self.shards@);
                let target = shards_view(sspre).remove(id);
                assert forall|x: u128| #[trigger] self@.dom().contains(x) implies
                    target.dom().contains(x) by {
                    let s = choose|s: int|
                        0 <= s < self.shards@.len() && dash_view(
                            #[trigger] self.shards@[s],
                        ).contains_key(x);
                    if s == idx {
                        assert(dash_view(sspre[s]).contains_key(x));
                        assert(x != id);
                    } else {
                        assert(self.shards@[s] == sspre[s]);
                        assert(dash_view(sspre[s]).contains_key(x));
                        assert(x != id) by {
                            if x == id {
                                assert(dash_view(sspre[idx as int]).contains_key(id));
                            }
                        }
                    }
                }
                assert forall|x: u128| target.dom().contains(x) implies self@.dom().contains(
                    x,
                ) by {
                    let s = choose|s: int|
                        0 <= s < sspre.len() && dash_view(#[trigger] sspre[s]).contains_key(x);
                    if s == idx {
                        assert(dash_view(self.shards@[s]).contains_key(x));
                    } else {
                        assert(self.shards@[s] == sspre[s]);
                        assert(dash_view(self.shards@[s]).contains_key(x));
                    }
                }
                assert(self@.dom() =~= target.dom());
                assert forall|x: u128| self@.dom().contains(x) implies self@[x] == target[x] by {
                    let s = choose|s: int|
                        0 <= s < self.shards@.len() && dash_view(
                            #[trigger] self.shards@[s],
                        ).contains_key(x);
                    assert(x != id) by {
                        if x == id {
                            if s == idx {
                                assert(dash_view(sspre[s]).contains_key(x));
                            } else {
                                assert(self.shards@[s] == sspre[s]);
                                assert(dash_view(sspre[idx as int]).contains_key(id));
                            }
                        }
                    }
                    if s == idx {
                        assert(dash_view(sspre[s]).contains_key(x));
                        assert(dash_view(self.shards@[s])[x] == dash_view(sspre[s])[x]);
                    } else {
                        assert(self.shards@[s] == sspre[s]);
                        assert(dash_view(sspre[s]).contains_key(x));
                    }
                    assert(self@[x] == dash_view(self.shards@[s])[x]);
                    assert(shards_view(sspre)[x] == dash_view(sspre[s])[x]);
                }
                assert(self@ =~= target);
            }
        }
        r
    }

    /// Gathers a snapshot of every record from every shard.
    fn union_entries(&self) -> (es: Vec<(u128, Memory)>)
        requires
            self.shape(),
        ensures
            forall|k: int|
                0 <= k < es@.len() ==> self@.contains_key((#[trigger] es@[k]).0) && es@[k].1@
                    == self@[es@[k].0],
            forall|i: int, j: int|
                0 <= i < j < es@.len() ==> (#[trigger] es@[i]).0 != (#[trigger] es@[j]).0,
            forall|id: u128|
                self@.contains_key(id) ==> exists|k: int|
                    0 <= k < es@.len() && (#[trigger] es@[k]).0 == id,
            es@.len() == self@.dom().len(),
    {
        proof {
            self.lemma_disjoint();
            lemma_shards_view(self.shards@);
        }
        let mut es: Vec<(u128, Memory)> = Vec::new();
        let mut s: usize = 0;
        let n = self.shards.len();
        while s < n
            invariant
                s <= n,
                n == self.shards@.len(),
                self.shape(),
                shards_disjoint(self.shards@),
                forall|k: int|
                    #![trigger es@[k]]
                    0 <= k < es@.len() ==> exists|s2: int|
                        0 <= s2 < s && dash_view(#[trigger] self.shards@[s2]).contains_key(
                            es@[k].0,
                        ) && es@[k].1@ == dash_view(self.shards@[s2])[es@[k].0],
                forall|i: int, j: int|
                    0 <= i < j < es@.len() ==> (#[trigger] es@[i]).0 != (#[trigger] es@[j]).0,
                forall|s2: int, id: u128|
                    #![trigger dash_view(self.shards@[s2]).contains_key(id)]
                    0 <= s2 < s && dash_view(self.shards@[s2]).contains_key(id) ==> exists|k: int|
                        0 <= k < es@.len() && (#[trigger] es@[k]).0 == id,
            decreases n - s,
        {
            let ghost espre = es@;
            let part = dmap_entries(&self.shards[s]);
            let ghost partv = part@;
            let mut t: usize = 0;
            while t < part.len()
                invariant
                    t <= partv.len(),
                    part@ == partv,
                    s < n,
                    n == self.shards@.len(),
                    forall|k: int|
                        0 <= k < partv.len() ==> dash_view(self.shards@[s as int]).contains_key(
                            (#[trigger] partv[k]).0,
                        ) && partv[k].1@ == dash_view(self.shards@[s as int])[partv[k].0],
                    forall|i: int, j: int|
                        0 <= i < j < partv.len() ==> (#[trigger] partv[i]).0 != (
                        #[trigger] partv[j]).0,
                    es@.len() == espre.len() + t,
                    forall|k: int| 0 <= k < espre.len() ==> #[trigger] es@[k] == espre[k],
                    forall|k: int|
                        espre.len() <= k < es@.len() ==> (#[trigger] es@[k]).0 == partv[k
                            - espre.len()].0 && es@[k].1@ == partv[k - espre.len()].1@,
                decreases partv.len() - t,
            {
                let pid = part[t].0;
                let pm = part[t].1.clone();
                es.push((pid, pm));
                t = t + 1;
            }
            proof {
                // the new section carries shard `s`; extend the prefix facts
                assert forall|k: int| #![trigger es@[k]] 0 <= k < es@.len() implies exists|
                    s2: int,
                |
                    0 <= s2 < s + 1 && dash_view(#[trigger] self.shards@[s2]).contains_key(
                        es@[k].0,
                    ) && es@[k].1@ == dash_view(self.shards@[s2])[es@[k].0] by {
                    if k < espre.len() {
                        let s2 = choose|s2: int|
                            0 <= s2 < s && dash_view(#[trigger] self.shards@[s2]).contains_key(
                                espre[k].0,
                            ) && espre[k].1@ == dash_view(self.shards@[s2])[espre[k].0];
                        assert(es@[k] == espre[k]);
                    } else {
                        assert(es@[k].0 == partv[k - espre.len()].0);
                        assert(dash_view(self.shards@[s as int]).contains_key(es@[k].0));
                    }
                }
                assert forall|i: int, j: int| 0 <= i < j < es@.len() implies (
                #[trigger] es@[i]).0 != (#[trigger] es@[j]).0 by {
                    if i < espre.len() && j >= espre.len() {
                        let s2 = choose|s2: int|
                            0 <= s2 < s && dash_view(#[trigger] self.shards@[s2]).contains_key(
                                espre[i].0,
                            ) && espre[i].1@ == dash_view(self.shards@[s2])[espre[i].0];
                        assert(es@[i] == espre[i]);
                        assert(es@[j].0 == partv[j - espre.len()].0);
                        if es@[i].0 == es@[j].0 {
                            assert(dash_view(self.shards@[s as int]).contains_key(es@[i].0));
                            assert(!dash_view(self.shards@[s as int]).contains_key(es@[i].0));
                        }
                    }
                }
                assert forall|s2: int, id: u128|
                    #![trigger dash_view(self.shards@[s2]).contains_key(id)]
                    0 <= s2 < s + 1 && dash_view(self.shards@[s2]).contains_key(id) implies exists|
                    k: int,
                |
                    0 <= k < es@.len() && (#[trigger] es@[k]).0 == id by {
                    if s2 < s {
                        let k = choose|k: int|
                            0 <= k < espre.len() && (#[trigger] espre[k]).0 == id;
                        assert(es@[k].0 == id);
                    } else {
                        let k = choose|k: int| 0 <= k < partv.len() && (#[trigger] partv[k]).0 == id;
                        assert(es@[espre.len() + k].0 == id);
                    }
                }
            }
            s = s + 1;
        }
        proof {
            assert forall|k: int| 0 <= k < es@.len() implies self@.contains_key(
                (#[trigger] es@[k]).0,
            ) && es@[k].1@ == self@[es@[k].0] by {
                let s2 = choose|s2: int|
                    0 <= s2 < n && dash_view(#[trigger] self.shards@[s2]).contains_key(es@[k].0)
                        && es@[k].1@ == dash_view(self.shards@[s2])[es@[k].0];
            }
            assert forall|id: u128| self@.contains_key(id) implies exists|k: int|
                0 <= k < es@.len() && (#[trigger] es@[k]).0 == id by {
                let s2 = choose|s2: int|
                    0 <= s2 < self.shards@.len() && dash_view(
                        #[trigger] self.shards@[s2],
                    ).contains_key(id);
            }
            // distinct identifiers in bijection with the domain
            let ids = es@.map_values(|p: (u128, Memory)| p.0);
            assert(ids.len() == es@.len());
            assert(forall|k: int| 0 <= k < ids.len() ==> #[trigger] ids[k] == es@[k].0);
            assert(ids.no_duplicates());
            ids.unique_seq_to_set();
            assert(ids.to_set() =~= self@.dom()) by {
                assert forall|id: u128| ids.to_set().contains(id) implies self@.dom().contains(
                    id,
                ) by {
                    let k = choose|k: int| 0 <= k < ids.len() && ids[k] == id;
                    assert(es@[k].0 == id);
                }
                assert forall|id: u128| self@.dom().contains(id) implies ids.to_set().contains(
                    id,
                ) by {
                    let k = choose|k: int| 0 <= k < es@.len() && (#[trigger] es@[k]).0 == id;
                    assert(ids[k] == id);
                }
            }
        }
        es
    }

    /// Inserts a record under its identifier, replacing any record already
    /// stored under it, and returns the identifier.
    pub fn add_memory(&mut self, memory: Memory) -> (id: u128)
        requires
            old(self).inv(),
            memory@.wf(),
        ensures
            final(self).inv(),
            id == memory@.id,
            final(self)@ == old(self)@.insert(memory@.id, memory@),
            final(self).profile() == old(self).profile(),
            final(self).state() == old(self).state(),
    {
        let id = memory.id;
        self.union_insert(id, memory);
        id
    }

    /// Looks a record up by identifier, returning a copy.
    pub fn get_memory(&self, id: u128) -> (r: Option<Memory>)
        requires
            self.inv(),
        ensures
            match r {
                Some(m) => self@.contains_key(id) && m@ == self@[id],
                None => !self@.contains_key(id),
            },
    {
        self.union_get(id)
    }

    /// Removes the record stored under `id`.
    ///
    /// Returns `Ok(())` exactly when a record was stored under `id`, and
    /// `Err(MemoryError::NotFound(id))` exactly when none was.
    pub fn remove_memory(&mut self, id: u128) -> (r: Result<(), MemoryError>)
        requires
            old(self).inv(),
        ensures
            final(self).inv(),
            match r {
                Ok(()) => old(self)@.contains_key(id) && final(self)@ == old(self)@.remove(id),
                Err(e) => {
                    &&& !old(self)@.contains_key(id)
                    &&& e == MemoryError::NotFound(id)
                    &&& final(self)@ == old(self)@
                },
            },
            final(self).profile() == old(self).profile(),
            final(self).state() == old(self).state(),
    {
        match self.union_remove(id) {
            Some(_) => Ok(()),
            None => Err(MemoryError::not_found(id)),
        }
    }

    /// Replaces the agent's volatile state wholesale.
    pub fn update_agent_state(&mut self, state: AgentState)
        requires
            old(self).inv(),
            state.wf(),
        ensures
            final(self).inv(),
            final(self)@ == old(self)@,
            final(self).state() == state,
            final(self).profile() == old(self).profile(),
    {
        self.agent_state = state;
        proof {
            assert(self.shards@ == old(self).shards@);
            assert(forall|s: int|
                0 <= s < self.shards@.len() ==> dash_view(#[trigger] self.shards@[s])
                    == dash_view(old(self).shards@[s]));
            lemma_shards_view_congruent(self.shards@, old(self).shards@);
            assert(self@ == old(self)@);
            assert(self.routed()) by {
                assert forall|s: int, id2: u128|
                    #![trigger dash_view(self.shards@[s]).contains_key(id2)]
                    0 <= s < self.shards@.len() && dash_view(self.shards@[s]).contains_key(
                        id2,
                    ) implies id2 as int % (self.shards@.len() as int) == s by {
                    assert(dash_view(old(self).shards@[s]).contains_key(id2));
                }
            }
        }
    }

    /// The agent profile this store was built with.
    pub fn agent_profile(&self) -> (p: &AgentProfile)
        ensures
            *p == self.profile(),
    {
        &self.agent_profile
    }

    /// The agent's current volatile state.
    pub fn agent_state(&self) -> (s: &AgentState)
        ensures
            *s == self.state(),
    {
        &self.agent_state
    }

    /// Ranked retrieval at an explicit time, gathering candidates from
    /// every shard before sorting; the same contract as the other store
    /// variants.
    pub fn find_relevant_at(&mut self, query_vector: &[i64], limit: usize, now: i64) -> (r: Result<
        Vec<(i64, Memory)>,
        MemoryError,
    >)
        requires
            old(self).inv(),
            wf_vector(query_vector@),
        ensures
            final(self).inv(),
            match r {
                Ok(res) => limit >= 1 && find_relevant_ok(
                    old(self)@,
                    final(self)@,
                    query_vector@,
                    limit as int,
                    now,
                    old(self).state(),
                    old(self).profile(),
                    res_views(res@),
                ),
                Err(e) => {
                    &&& limit == 0
                    &&& e is InvalidParameter
                    &&& final(self)@ == old(self)@
                },
            },
            final(self).profile() == old(self).profile(),
            final(self).state() == old(self).state(),
    {
        if limit == 0 {
            return Err(MemoryError::invalid_param("limit", 0));
        }
        let ghost mp = self@;
        let ghost st = self.agent_state;
        let ghost pf = self.agent_profile;
        proof {
            self.lemma_disjoint();
            lemma_shards_view(self.shards@);
            assert(mp == shards_view(self.shards@));
            assert(mp.dom().finite());
        }

        // snapshot and score every record, across all shards
        let entries = self.union_entries();
        let n = entries.len();
        let mut cands: Vec<(i64, u128)> = Vec::new();
        let mut k: usize = 0;
        while k < n
            invariant
                k <= n,
                n == entries@.len(),
                mp == self@,
                st == self.agent_state,
                pf == self.agent_profile,
                self.inv(),
                wf_vector(query_vector@),
                forall|j: int|
                    0 <= j < n ==> mp.contains_key((#[trigger] entries@[j]).0) && entries@[j].1@
                        == mp[entries@[j].0],
                forall|i2: int, j2: int|
                    0 <= i2 < j2 < n ==> (#[trigger] entries@[i2]).0 != (#[trigger] entries@[j2]).0,
                cands@.len() == k,
                forall|j: int|
                    0 <= j < k ==> #[trigger] cands@[j] == (
                        (score_spec(mp[entries@[j].0], query_vector@, now, st, pf) as i64),
                        entries@[j].0,
                    ),
            decreases n - k,
        {
            proof {
                assert(mp.contains_key(entries@[k as int].0));
                assert(entries@[k as int].1@ == mp[entries@[k as int].0]);
                assert(mp[entries@[k as int].0].wf());
            }
            let s = score_memory(&entries[k].1, query_vector, now, &self.agent_state, &self.agent_profile);
            let eid = entries[k].0;
            cands.push((s, eid));
            k = k + 1;
        }
        proof {
            assert(distinct_ids(cands@)) by {
                assert forall|a: int, b: int| 0 <= a < b < cands@.len() implies (
                #[trigger] cands@[a]).1 != (#[trigger] cands@[b]).1 by {
                    assert(cands@[a].1 == entries@[a].0);
                    assert(cands@[b].1 == entries@[b].0);
                }
            }
        }
        let top = top_candidates(cands, limit);

        // reinforce the selected records and snapshot them
        let rho = self.agent_profile.rho;
        let mut res: Vec<(i64, Memory)> = Vec::new();
        let mut i: usize = 0;
        while i < top.len()
            invariant
                i <= top@.len(),
                st == self.agent_state,
                pf == self.agent_profile,
                rho == pf.rho,
                0 <= rho <= crate::model::TUNE_MAX,
                st.wf(),
                pf.wf(),
                self.shape(),
                mp.dom().finite(),
                forall|id: u128|
                    mp.contains_key(id) ==> (#[trigger] mp[id]).wf() && mp[id].id == id,
                distinct_ids(top@),
                forall|j: int|
                    0 <= j < top@.len() ==> mp.contains_key((#[trigger] top@[j]).1),
                self@.dom() == mp.dom(),
                forall|id: u128|
                    mp.contains_key(id) ==> #[trigger] self@[id] == if exists|j: int|
                        0 <= j < i && (#[trigger] top@[j]).1 == id {
                        reinforced_spec(mp[id], rho, now)
                    } else {
                        mp[id]
                    },
                res@.len() == i,
                forall|j: int|
                    #![trigger res@[j]]
                    0 <= j < i ==> res@[j].0 == top@[j].0 && res@[j].1@ == reinforced_spec(
                        mp[top@[j].1],
                        rho,
                        now,
                    ),
            decreases top@.len() - i,
        {
            let pair = top[i];
            proof {
                if exists|j: int| 0 <= j < i && (#[trigger] top@[j]).1 == pair.1 {
                    let j = choose|j: int| 0 <= j < i && (#[trigger] top@[j]).1 == pair.1;
                    assert(top@[j].1 == top@[i as int].1);
                    assert(false);
                }
                assert(self@[pair.1] == mp[pair.1]);
            }
            let ghost pre = self@;
            let got = self.union_remove(pair.1);
            match got {
                Some(mut mem) => {
                    proof {
                        assert(mem@ == mp[pair.1]);
                    }
                    mem.record_retrieval_at(rho, now);
                    let snap = mem.clone();
                    self.union_insert(pair.1, mem);
                    res.push((pair.0, snap));
                    proof {
                        assert(self@ =~= pre.insert(pair.1, reinforced_spec(mp[pair.1], rho, now)));
                        assert(self@.dom() =~= mp.dom());
                        assert forall|id: u128| mp.contains_key(id) implies #[trigger] self@[id]
                            == if exists|j: int| 0 <= j < i + 1 && (#[trigger] top@[j]).1 == id {
                            reinforced_spec(mp[id], rho, now)
                        } else {
                            mp[id]
                        } by {
                            if id == pair.1 {
                                assert(top@[i as int].1 == id);
                            } else {
                                if exists|j: int| 0 <= j < i + 1 && (#[trigger] top@[j]).1 == id {
                                    let j = choose|j: int|
                                        0 <= j < i + 1 && (#[trigger] top@[j]).1 == id;
                                    assert(j != i);
                                    assert(exists|j2: int|
                                        0 <= j2 < i && (#[trigger] top@[j2]).1 == id);
                                }
                            }
                        }
                    }
                },
                None => {
                    proof {
                        assert(pre.contains_key(pair.1));
                        assert(false);
                    }
                },
            }
            i = i + 1;
        }

        proof {
            assert forall|j: int| 0 <= j < cands@.len() implies mp.dom().contains(
                (#[trigger] cands@[j]).1,
            ) && cands@[j] == candidate_of(mp, cands@[j].1, query_vector@, now, st, pf) by {
                assert(cands@[j].1 == entries@[j].0);
            }
            assert forall|id: u128| mp.dom().contains(id) implies cands@.contains(
                #[trigger] candidate_of(mp, id, query_vector@, now, st, pf),
            ) by {
                let x = choose|x: int| 0 <= x < entries@.len() && (#[trigger] entries@[x]).0 == id;
                assert(cands@[x] == candidate_of(mp, id, query_vector@, now, st, pf));
            }
            lemma_topk_to_ranked(mp, cands@, query_vector@, now, st, pf, limit as int, top@);
            assert(rank_keys(res_views(res@)) =~= top@) by {
                assert forall|j: int| 0 <= j < res@.len() implies rank_keys(res_views(res@))[j]
                    == top@[j] by {
                    assert(res@[j].0 == top@[j].0);
                    assert(res@[j].1@ == reinforced_spec(mp[top@[j].1], rho, now));
                    assert(res_views(res@)[j] == (res@[j].0, res@[j].1@));
                }
            }
            assert forall|id: u128| mp.dom().contains(id) implies #[trigger] self@[id] == if
                ranked_contains_id(top@, id) {
                reinforced_spec(mp[id], rho, now)
            } else {
                mp[id]
            } by {
                if ranked_contains_id(top@, id) {
                    let j = choose|j: int| 0 <= j < top@.len() && (#[trigger] top@[j]).1 == id;
                }
            }
            assert forall|j: int| 0 <= j < res_views(res@).len() implies (
            #[trigger] res_views(res@)[j]).1 == reinforced_spec(
                mp[res_views(res@)[j].1.id],
                pf.rho,
                now,
            ) by {
                assert(res@[j].1@ == reinforced_spec(mp[top@[j].1], rho, now));
                assert(res_views(res@)[j] == (res@[j].0, res@[j].1@));
            }
            assert(find_relevant_ok(
                mp,
                self@,
                query_vector@,
                limit as int,
                now,
                st,
                pf,
                res_views(res@),
            ));
            assert forall|id: u128| self@.contains_key(id) implies (#[trigger] self@[id]).wf()
                && self@[id].id == id by {
                lemma_reinforced_wf(mp[id], rho, now);
            }
        }
        Ok(res)
    }

    /// Ranked retrieval at the current wall-clock time; see
    /// [`Self::find_relevant_at`].
    pub fn find_relevant(&mut self, query_vector: &[i64], limit: usize) -> (r: Result<
        Vec<(i64, Memory)>,
        MemoryError,
    >)
        requires
            old(self).inv(),
            wf_vector(query_vector@),
        ensures
            final(self).inv(),
            match r {
                Ok(res) => limit >= 1 && exists|t: i64|
                    find_relevant_ok(
                        old(self)@,
                        final(self)@,
                        query_vector@,
                        limit as int,
                        t,
                        old(self).state(),
                        old(self).profile(),
                        res_views(res@),
                    ),
                Err(e) => {
                    &&& limit == 0
                    &&& e is InvalidParameter
                    &&& final(self)@ == old(self)@
                },
            },
            final(self).profile() == old(self).profile(),
            final(self).state() == old(self).state(),
    {
        let now = external::now_seconds();
        self.find_relevant_at(query_vector, limit, now)
    }

    /// Maintenance at an explicit time; the same contract as the other
    /// store variants.
    pub fn maintain_at(&mut self, retention_threshold: i64, now: i64) -> (r: Result<
        usize,
        MemoryError,
    >)
        requires
            old(self).inv(),
        ensures
            final(self).inv(),
            match r {
                Ok(count) => {
                    &&& 0 <= retention_threshold <= SCALE
                    &&& maintain_ok(
                        old(self)@,
                        final(self)@,
                        retention_threshold,
                        now,
                        old(self).state(),
                        old(self).profile(),
                        count as int,
                    )
                },
                Err(e) => {
                    &&& !(0 <= retention_threshold <= SCALE)
                    &&& e is InvalidParameter
                    &&& final(self)@ == old(self)@
                },
            },
            final(self).profile() == old(self).profile(),
            final(self).state() == old(self).state(),
    {
        if retention_threshold < 0 || retention_threshold > SCALE {
            return Err(MemoryError::invalid_param("retention_threshold", retention_threshold));
        }
        let ghost mp = self@;
        let ghost st = self.agent_state;
        let ghost pf = self.agent_profile;
        proof {
            self.lemma_disjoint();
            lemma_shards_view(self.shards@);
            assert(mp == shards_view(self.shards@));
            assert(mp.dom().finite());
        }
        let thr = retention_threshold;
        let entries = self.union_entries();
        let n = entries.len();
        let mut count: usize = 0;
        let mut k: usize = 0;
        while k < n
            invariant
                k <= n,
                n == entries@.len(),
                st == self.agent_state,
                pf == self.agent_profile,
                st.wf(),
                pf.wf(),
                self.shape(),
                mp.dom().finite(),
                self@.dom().finite(),
                forall|id: u128|
                    mp.contains_key(id) ==> (#[trigger] mp[id]).wf() && mp[id].id == id,
                forall|j: int|
                    0 <= j < n ==> mp.contains_key((#[trigger] entries@[j]).0) && entries@[j].1@
                        == mp[entries@[j].0],
                forall|i2: int, j2: int|
                    0 <= i2 < j2 < n ==> (#[trigger] entries@[i2]).0 != (#[trigger] entries@[j2]).0,
                forall|id: u128|
                    mp.contains_key(id) ==> exists|j: int|
                        0 <= j < n && (#[trigger] entries@[j]).0 == id,
                n == mp.dom().len(),
                self@.dom().subset_of(mp.dom()),
                forall|id: u128| #[trigger] self@.contains_key(id) ==> self@[id] == mp[id],
                forall|id: u128|
                    mp.contains_key(id) && !self@.contains_key(id) ==> exists|j: int|
                        0 <= j < k && (#[trigger] entries@[j]).0 == id && retention_spec(
                            mp[id],
                            now,
                            st,
                            pf,
                        ) < thr,
                forall|j: int|
                    0 <= j < k ==> #[trigger] self@.contains_key(entries@[j].0) == (retention_spec(
                        mp[entries@[j].0],
                        now,
                        st,
                        pf,
                    ) >= thr),
                forall|id: u128|
                    mp.contains_key(id) && !(exists|j: int|
                        0 <= j < k && (#[trigger] entries@[j]).0 == id) ==> self@.contains_key(id),
                count == mp.dom().len() - self@.dom().len(),
            decreases n - k,
        {
            let eid = entries[k].0;
            let ret = entries[k].1.calculate_retention(now, &self.agent_state, &self.agent_profile);
            let ghost pre = self@;
            if ret < thr {
                proof {
                    if !pre.contains_key(eid) {
                        let j = choose|j: int|
                            0 <= j < k && (#[trigger] entries@[j]).0 == eid && retention_spec(
                                mp[eid],
                                now,
                                st,
                                pf,
                            ) < thr;
                        assert(entries@[j].0 == entries@[k as int].0);
                        assert(j == k);
                        assert(false);
                    }
                    vstd::set_lib::lemma_len_subset(pre.dom(), mp.dom());
                }
                let removed = self.union_remove(eid);
                count = count + 1;
                proof {
                    assert(self@ =~= pre.remove(eid));
                    assert(self@.dom() =~= pre.dom().remove(eid));
                }
            }
            proof {
                assert forall|j: int|
                    0 <= j < k + 1 implies #[trigger] self@.contains_key(entries@[j].0) == (
                retention_spec(mp[entries@[j].0], now, st, pf) >= thr) by {
                    if j < k {
                        assert(entries@[j].0 != entries@[k as int].0);
                    }
                }
            }
            k = k + 1;
        }
        proof {
            assert forall|id: u128| #[trigger] self@.dom().contains(id) implies mp.dom().contains(
                id,
            ) && retention_spec(mp[id], now, st, pf) >= thr by {
                let j = choose|j: int| 0 <= j < n && (#[trigger] entries@[j]).0 == id;
            }
            assert forall|id: u128|
                mp.dom().contains(id) && retention_spec(mp[id], now, st, pf) >= thr implies
                #[trigger] self@.dom().contains(id) by {
                let j = choose|j: int| 0 <= j < n && (#[trigger] entries@[j]).0 == id;
            }
            assert(maintain_ok(mp, self@, thr, now, st, pf, count as int));
        }
        Ok(count)
    }

    /// Maintenance at the current wall-clock time; see
    /// [`Self::maintain_at`].
    pub fn maintain(&mut self, retention_threshold: i64) -> (r: Result<usize, MemoryError>)
        requires
            old(self).inv(),
        ensures
            final(self).inv(),
            match r {
                Ok(count) => {
                    &&& 0 <= retention_threshold <= SCALE
                    &&& exists|t: i64|
                        maintain_ok(
                            old(self)@,
                            final(self)@,
                            retention_threshold,
                            t,
                            old(self).state(),
                            old(self).profile(),
                            count as int,
                        )
                },
                Err(e) => {
                    &&& !(0 <= retention_threshold <= SCALE)
                    &&& e is InvalidParameter
                    &&& final(self)@ == old(self)@
                },
            },
            final(self).profile() == old(self).profile(),
            final(self).state() == old(self).state(),
    {
        let now = external::now_seconds();
        self.maintain_at(retention_threshold, now)
    }
}

} // verus!
