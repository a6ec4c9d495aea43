//! Ranked-query core shared by every store variant.
//!
//! Candidates are `(score, id)` pairs.  They are ordered by descending
//! score with ties broken by ascending identifier, which makes the ranking
//! a strict total order on candidates with distinct identifiers; the top-k
//! sequence of a candidate set is therefore unique, and every store
//! variant that ranks the same records the same way returns the same
//! result.

use vstd::prelude::*;
use vstd::multiset::Multiset;
use crate::fixed::{SCALE, SCALE_U};
use crate::model::{Memory, MemoryView, AgentState, AgentProfile, retention_spec, reinforced_spec};
use crate::similarity::{similarity_spec, cosine_similarity, wf_vector};

verus! {

/// The relevance score of a record for a query at time `now`: the product
/// of cosine similarity and retention, in micro-units.
pub open spec fn score_spec(
    m: MemoryView,
    q: Seq<i64>,
    now: i64,
    st: AgentState,
    pf: AgentProfile,
) -> int {
    let sim = similarity_spec(q, m.semantic_vector);
    let ret = retention_spec(m, now, st, pf);
    if sim >= 0 {
        sim * ret / (SCALE as int)
    } else {
        -((-sim) * ret / (SCALE as int))
    }
}

/// Computes [`score_spec`] exactly.
pub fn score_memory(m: &Memory, q: &[i64], now: i64, st: &AgentState, pf: &AgentProfile) -> (s: i64)
    requires
        m@.wf(),
        st.wf(),
        pf.wf(),
        wf_vector(q@),
    ensures
        s == score_spec(m@, q@, now, *st, *pf),
        -SCALE <= s <= SCALE,
{
    let sim = cosine_similarity(q, m.semantic_vector.as_slice());
    let ret = m.calculate_retention(now, st, pf);
    let mag: u128 = if sim >= 0 {
        sim as u128
    } else {
        (-sim) as u128
    };
    proof {
        crate::fixed::lemma_unit_mul_div(mag as int, ret as int, SCALE as int);
    }
    let sv: u128 = mag * (ret as u128) / SCALE_U;
    if sim >= 0 {
        sv as i64
    } else {
        -(sv as i64)
    }
}

/// `a` ranks no later than `b`: higher score first, ties by smaller id.
pub open spec fn rank_le(a: (i64, u128), b: (i64, u128)) -> bool {
    a.0 > b.0 || (a.0 == b.0 && a.1 <= b.1)
}

/// All identifiers in the candidate sequence are distinct.
pub open spec fn distinct_ids(s: Seq<(i64, u128)>) -> bool {
    forall|i: int, j: int| 0 <= i < j < s.len() ==> (#[trigger] s[i]).1 != (#[trigger] s[j]).1
}

/// The sequence is ordered by [`rank_le`].
pub open spec fn sorted_by_rank(s: Seq<(i64, u128)>) -> bool {
    forall|i: int, j: int| 0 <= i < j < s.len() ==> rank_le(#[trigger] s[i], #[trigger] s[j])
}

/// `out` is the ranked prefix of `cands` of length `limit`: it is sorted,
/// duplicate-free, drawn from `cands`, and ranks no later than everything
/// of `cands` it leaves out.
pub open spec fn is_topk(cands: Seq<(i64, u128)>, limit: int, out: Seq<(i64, u128)>) -> bool {
    &&& out.len() == if limit <= cands.len() {
        limit
    } else {
        cands.len() as int
    }
    &&& sorted_by_rank(out)
    &&& distinct_ids(out)
    &&& forall|i: int| 0 <= i < out.len() ==> cands.contains(#[trigger] out[i])
    &&& forall|x: (i64, u128), i: int|
        #![trigger cands.contains(x), out[i]]
        cands.contains(x) && !out.contains(x) && 0 <= i < out.len() ==> rank_le(out[i], x)
}

/// A sequence that is a permutation of a duplicate-id-free sequence is
/// itself duplicate-id-free.
proof fn lemma_distinct_ids_permutation(s1: Seq<(i64, u128)>, s2: Seq<(i64, u128)>)
    requires
        s1.to_multiset() == s2.to_multiset(),
        distinct_ids(s1),
    ensures
        distinct_ids(s2),
{
    broadcast use vstd::seq_lib::group_to_multiset_ensures;

    assert(s1.no_duplicates());
    s1.lemma_multiset_has_no_duplicates();
    s2.lemma_multiset_has_no_duplicates_conv();
    assert forall|i: int, j: int| 0 <= i < j < s2.len() implies (#[trigger] s2[i]).1
        != (#[trigger] s2[j]).1 by {
        assert(s2[i] != s2[j]);
        assert(s2.contains(s2[i]));
        assert(s2.contains(s2[j]));
        assert(s1.to_multiset().count(s2[i]) > 0);
        assert(s1.to_multiset().count(s2[j]) > 0);
        assert(s1.contains(s2[i]));
        assert(s1.contains(s2[j]));
        let a = choose|a: int| 0 <= a < s1.len() && s1[a] == s2[i];
        let b = choose|b: int| 0 <= b < s1.len() && s1[b] == s2[j];
        assert(a != b);
    }
}

/// Sorts the candidates by rank (selection sort) and keeps the first
/// `limit`: the unique ranked prefix of the candidate set.
pub fn top_candidates(cands: Vec<(i64, u128)>, limit: usize) -> (out: Vec<(i64, u128)>)
    requires
        distinct_ids(cands@),
    ensures
        is_topk(cands@, limit as int, out@),
{
    let ghost orig = cands@;
    let mut rest = cands;
    let mut out: Vec<(i64, u128)> = Vec::new();
    proof {
        broadcast use vstd::seq_lib::group_to_multiset_ensures;

        assert(out@.to_multiset().add(rest@.to_multiset()) =~= orig.to_multiset());
    }
    while rest.len() > 0
        invariant
            out@.to_multiset().add(rest@.to_multiset()) == orig.to_multiset(),
            sorted_by_rank(out@),
            forall|i: int, j: int|
                #![trigger out@[i], rest@[j]]
                0 <= i < out@.len() && 0 <= j < rest@.len() ==> rank_le(out@[i], rest@[j]),
        decreases rest.len(),
    {
        let mut best: usize = 0;
        let mut t: usize = 1;
        while t < rest.len()
            invariant
                1 <= t <= rest@.len(),
                best < t,
                forall|k: int| 0 <= k < t ==> rank_le(rest@[best as int], #[trigger] rest@[k]),
            decreases rest@.len() - t,
        {
            let a = rest[best];
            let b = rest[t];
            let b_better = !(a.0 > b.0 || (a.0 == b.0 && a.1 <= b.1));
            if b_better {
                best = t;
            }
            t = t + 1;
        }
        let ghost rest_before = rest@;
        let ghost out_before = out@;
        let chosen = rest.remove(best);
        proof {
            broadcast use vstd::seq_lib::group_to_multiset_ensures;

            assert(rest@ == rest_before.remove(best as int));
            assert(rest@.to_multiset() == rest_before.to_multiset().remove(chosen));
            assert(rest_before.to_multiset().count(chosen) > 0);
            assert(out_before.push(chosen).to_multiset() == out_before.to_multiset().insert(
                chosen,
            ));
            assert(out_before.push(chosen).to_multiset().add(rest@.to_multiset())
                =~= out_before.to_multiset().add(rest_before.to_multiset()));
            // every element left in rest ranks no earlier than the chosen one
            assert forall|j: int| 0 <= j < rest@.len() implies rank_le(
                chosen,
                #[trigger] rest@[j],
            ) by {
                if j < best {
                    assert(rest@[j] == rest_before[j]);
                } else {
                    assert(rest@[j] == rest_before[j + 1]);
                }
            }
        }
        out.push(chosen);
    }
    proof {
        broadcast use vstd::seq_lib::group_to_multiset_ensures;

        assert(rest@.to_multiset() =~= Multiset::<(i64, u128)>::empty());
        assert(out@.to_multiset().add(Multiset::<(i64, u128)>::empty()) =~= out@.to_multiset());
        assert(out@.to_multiset() == orig.to_multiset());
        assert(out@.len() == out@.to_multiset().len());
        assert(orig.len() == orig.to_multiset().len());
        assert(out@.len() == orig.len());
        lemma_distinct_ids_permutation(orig, out@);
    }
    let keep: usize = if limit < out.len() {
        limit
    } else {
        out.len()
    };
    let ghost full = out@;
    out.truncate(keep);
    proof {
        broadcast use vstd::seq_lib::group_to_multiset_ensures;

        assert(out@ == full.subrange(0, keep as int));
        // members of the prefix come from the candidate set
        assert forall|i: int| 0 <= i < out@.len() implies orig.contains(#[trigger] out@[i]) by {
            assert(out@[i] == full[i]);
            assert(full.contains(full[i]));
            assert(orig.to_multiset().count(full[i]) > 0);
        }
        // everything not kept ranks no earlier than everything kept
        assert forall|x: (i64, u128), i: int|
            #![trigger orig.contains(x), out@[i]]
            orig.contains(x) && !out@.contains(x) && 0 <= i < out@.len() implies rank_le(
            out@[i],
            x,
        ) by {
            assert(full.to_multiset().count(x) > 0);
            assert(full.contains(x));
            let idx = choose|idx: int| 0 <= idx < full.len() && full[idx] == x;
            if idx < keep {
                assert(out@[idx] == x);
                assert(out@.contains(x));
            }
            assert(idx >= keep);
            assert(rank_le(full[i], full[idx]));
        }
    }
    out
}

/// Every candidate ranks no earlier than the head of a non-empty ranked
/// prefix.
proof fn lemma_topk_head(cands: Seq<(i64, u128)>, limit: int, out: Seq<(i64, u128)>, x: (i64, u128))
    requires
        is_topk(cands, limit, out),
        out.len() > 0,
        cands.contains(x),
    ensures
        rank_le(out[0], x),
{
    if out.contains(x) {
        let idx = choose|idx: int| 0 <= idx < out.len() && out[idx] == x;
        if idx > 0 {
            assert(rank_le(out[0], out[idx]));
        }
    }
}

/// The ranked prefix of a candidate set is unique.
///
/// Law (cross-variant equivalence): two store variants holding the same
/// records under the same profile, state, time and query produce the same
/// candidate set, and any two sequences that both satisfy [`is_topk`] for
/// one candidate set are equal — so every variant's ranked query returns
/// the same scores in the same order, and their maintenance sweeps evict
/// the same count.
pub proof fn lemma_topk_unique(
    cands: Seq<(i64, u128)>,
    limit: int,
    o1: Seq<(i64, u128)>,
    o2: Seq<(i64, u128)>,
)
    requires
        0 <= limit,
        distinct_ids(cands),
        is_topk(cands, limit, o1),
        is_topk(cands, limit, o2),
    ensures
        o1 == o2,
    decreases o1.len(),
{
    if o1.len() == 0 {
        assert(o1 =~= o2);
    } else {
        // the heads are both rank-first among all candidates, so equal
        lemma_topk_head(cands, limit, o1, o2[0]);
        lemma_topk_head(cands, limit, o2, o1[0]);
        let h = o1[0];
        assert(o2[0] == h);

        // remove the head's (single) occurrence from the candidate set
        let hidx = choose|hidx: int| 0 <= hidx < cands.len() && cands[hidx] == h;
        let cands2 = cands.remove(hidx);
        assert forall|j: int| 0 <= j < cands2.len() implies (#[trigger] cands2[j]).1 != h.1 by {
            if j < hidx {
                assert(cands2[j] == cands[j]);
            } else {
                assert(cands2[j] == cands[j + 1]);
            }
        }
        assert(distinct_ids(cands2)) by {
            assert forall|i: int, j: int| 0 <= i < j < cands2.len() implies (#[trigger] cands2[i]).1
                != (#[trigger] cands2[j]).1 by {
                let a = if i < hidx {
                    i
                } else {
                    i + 1
                };
                let b = if j < hidx {
                    j
                } else {
                    j + 1
                };
                assert(cands2[i] == cands[a]);
                assert(cands2[j] == cands[b]);
            }
        }
        lemma_topk_tail(cands, limit, o1, hidx);
        lemma_topk_tail(cands, limit, o2, hidx);
        lemma_topk_unique(cands2, limit - 1, o1.drop_first(), o2.drop_first());
        assert(o1 =~= o2) by {
            assert(forall|i: int|
                1 <= i < o1.len() ==> #[trigger] o1[i] == o1.drop_first()[i - 1]);
            assert(forall|i: int|
                1 <= i < o2.len() ==> #[trigger] o2[i] == o2.drop_first()[i - 1]);
        }
    }
}

/// Dropping the head of a ranked prefix yields the ranked prefix of the
/// candidate set without that head.
proof fn lemma_topk_tail(cands: Seq<(i64, u128)>, limit: int, out: Seq<(i64, u128)>, hidx: int)
    requires
        0 <= limit,
        distinct_ids(cands),
        is_topk(cands, limit, out),
        out.len() > 0,
        0 <= hidx < cands.len(),
        cands[hidx] == out[0],
    ensures
        is_topk(cands.remove(hidx), limit - 1, out.drop_first()),
{
    let h = out[0];
    let cands2 = cands.remove(hidx);
    let tail = out.drop_first();
    assert(forall|i: int| 0 <= i < tail.len() ==> #[trigger] tail[i] == out[i + 1]);
    assert(forall|j: int|
        0 <= j < cands2.len() ==> #[trigger] cands2[j] == if j < hidx {
            cands[j]
        } else {
            cands[j + 1]
        });
    // the head's identifier occurs nowhere else, so it is gone from cands2
    assert forall|j: int| 0 <= j < cands2.len() implies (#[trigger] cands2[j]).1 != h.1 by {
        if j < hidx {
            assert(cands2[j] == cands[j]);
        } else {
            assert(cands2[j] == cands[j + 1]);
        }
    }
    // members of the tail survive in cands2
    assert forall|i: int| 0 <= i < tail.len() implies cands2.contains(#[trigger] tail[i]) by {
        assert(tail[i] == out[i + 1]);
        assert(tail[i].1 != h.1);
        assert(cands.contains(out[i + 1]));
        let j = choose|j: int| 0 <= j < cands.len() && cands[j] == out[i + 1];
        assert(j != hidx);
        if j < hidx {
            assert(cands2[j] == cands[j]);
        } else {
            assert(cands2[j - 1] == cands[j]);
        }
    }
    // dominance carries over
    assert forall|x: (i64, u128), i: int|
        #![trigger cands2.contains(x), tail[i]]
        cands2.contains(x) && !tail.contains(x) && 0 <= i < tail.len() implies rank_le(
        tail[i],
        x,
    ) by {
        let j = choose|j: int| 0 <= j < cands2.len() && cands2[j] == x;
        assert(x.1 != h.1);
        assert(cands.contains(x)) by {
            if j < hidx {
                assert(cands[j] == x);
            } else {
                assert(cands[j + 1] == x);
            }
        }
        if out.contains(x) {
            let oi = choose|oi: int| 0 <= oi < out.len() && out[oi] == x;
            assert(oi != 0);
            assert(tail[oi - 1] == x);
            assert(tail.contains(x));
        }
        assert(!out.contains(x));
        assert(rank_le(out[i + 1], x));
    }
}

// The map-level form of the ranked query and of maintenance, shared by
// every store variant.

/// The candidate pair a stored record contributes to a ranked query.
pub open spec fn candidate_of(
    m: Map<u128, MemoryView>,
    id: u128,
    q: Seq<i64>,
    now: i64,
    st: AgentState,
    pf: AgentProfile,
) -> (i64, u128) {
    ((score_spec(m[id], q, now, st, pf)) as i64, id)
}

/// The identifier is among the returned candidates.
pub open spec fn ranked_contains_id(top: Seq<(i64, u128)>, id: u128) -> bool {
    exists|i: int| 0 <= i < top.len() && (#[trigger] top[i]).1 == id
}

/// `top` is the ranked answer of length `limit` over the record map `m`:
/// sorted by falling score (ties by identifier), each entry scored from
/// its record, and ranking no later than every record left out.
pub open spec fn is_ranked_result(
    m: Map<u128, MemoryView>,
    q: Seq<i64>,
    now: i64,
    st: AgentState,
    pf: AgentProfile,
    limit: int,
    top: Seq<(i64, u128)>,
) -> bool {
    &&& top.len() == if limit <= m.dom().len() {
        limit
    } else {
        m.dom().len() as int
    }
    &&& sorted_by_rank(top)
    &&& distinct_ids(top)
    &&& forall|i: int|
        0 <= i < top.len() ==> m.dom().contains((#[trigger] top[i]).1) && top[i] == candidate_of(
            m,
            top[i].1,
            q,
            now,
            st,
            pf,
        )
    &&& forall|id: u128, i: int|
        #![trigger m.dom().contains(id), top[i]]
        m.dom().contains(id) && 0 <= i < top.len() && !ranked_contains_id(top, id) ==> rank_le(
            top[i],
            candidate_of(m, id, q, now, st, pf),
        )
}

/// Carries a sequence-level ranked prefix over to the map level, given a
/// candidate sequence that enumerates the map exactly.
pub proof fn lemma_topk_to_ranked(
    m: Map<u128, MemoryView>,
    cands: Seq<(i64, u128)>,
    q: Seq<i64>,
    now: i64,
    st: AgentState,
    pf: AgentProfile,
    limit: int,
    top: Seq<(i64, u128)>,
)
    requires
        m.dom().finite(),
        distinct_ids(cands),
        cands.len() == m.dom().len(),
        forall|k: int|
            0 <= k < cands.len() ==> m.dom().contains((#[trigger] cands[k]).1) && cands[k]
                == candidate_of(m, cands[k].1, q, now, st, pf),
        forall|id: u128|
            m.dom().contains(id) ==> cands.contains(
                #[trigger] candidate_of(m, id, q, now, st, pf),
            ),
        is_topk(cands, limit, top),
    ensures
        is_ranked_result(m, q, now, st, pf, limit, top),
{
    assert forall|i: int| 0 <= i < top.len() implies m.dom().contains((#[trigger] top[i]).1)
        && top[i] == candidate_of(m, top[i].1, q, now, st, pf) by {
        assert(cands.contains(top[i]));
        let k = choose|k: int| 0 <= k < cands.len() && cands[k] == top[i];
        assert(cands[k] == candidate_of(m, cands[k].1, q, now, st, pf));
    }
    assert forall|id: u128, i: int|
        #![trigger m.dom().contains(id), top[i]]
        m.dom().contains(id) && 0 <= i < top.len() && !ranked_contains_id(top, id) implies rank_le(
        top[i],
        candidate_of(m, id, q, now, st, pf),
    ) by {
        let x = candidate_of(m, id, q, now, st, pf);
        assert(cands.contains(x));
        if top.contains(x) {
            let j = choose|j: int| 0 <= j < top.len() && top[j] == x;
            assert(top[j].1 == id);
            assert(ranked_contains_id(top, id));
        }
        assert(!top.contains(x));
    }
}

/// Finite sets unfold to duplicate-free sequences of the same length and
/// the same elements.
proof fn lemma_set_to_seq_props(s: Set<u128>)
    requires
        s.finite(),
    ensures
        s.to_seq().len() == s.len(),
        s.to_seq().no_duplicates(),
        forall|x: u128| s.to_seq().contains(x) <==> s.contains(x),
    decreases s.len(),
{
    broadcast use vstd::set_lib::group_set_lib_default;

    if s.is_empty() {
        assert(s.to_seq() =~= Seq::<u128>::empty());
    } else {
        let x = s.choose();
        lemma_set_to_seq_props(s.remove(x));
        assert(s.to_seq() =~= Seq::<u128>::empty().push(x) + s.remove(x).to_seq());
        assert forall|y: u128| s.to_seq().contains(y) implies s.contains(y) by {
            let i = choose|i: int| 0 <= i < s.to_seq().len() && s.to_seq()[i] == y;
            if i == 0 {
            } else {
                assert(s.remove(x).to_seq()[i - 1] == y);
                assert(s.remove(x).to_seq().contains(y));
            }
        }
        assert forall|y: u128| s.contains(y) implies s.to_seq().contains(y) by {
            if y == x {
                assert(s.to_seq()[0] == y);
            } else {
                assert(s.remove(x).contains(y));
                assert(s.remove(x).to_seq().contains(y));
                let i = choose|i: int|
                    0 <= i < s.remove(x).to_seq().len() && s.remove(x).to_seq()[i] == y;
                assert(s.to_seq()[i + 1] == y);
            }
        }
        assert(!s.remove(x).to_seq().contains(x));
        assert forall|i: int, j: int| 0 <= i < j < s.to_seq().len() implies s.to_seq()[i]
            != s.to_seq()[j] by {
            if i == 0 {
                assert(s.to_seq()[j] == s.remove(x).to_seq()[j - 1]);
                assert(s.remove(x).to_seq().contains(s.remove(x).to_seq()[j - 1]));
            } else {
                assert(s.to_seq()[i] == s.remove(x).to_seq()[i - 1]);
                assert(s.to_seq()[j] == s.remove(x).to_seq()[j - 1]);
            }
        }
    }
}

/// The ranked answer over a record map is unique.
///
/// Law (cross-variant equivalence): store variants holding identical
/// records under identical profile, state, query, time and limit admit
/// exactly one ranked answer, so their ranked queries return the same
/// scores in the same order; and since the evicted set of a maintenance
/// sweep is a function of the same data, their sweeps evict the same
/// count.
pub proof fn lemma_ranked_result_unique(
    m: Map<u128, MemoryView>,
    q: Seq<i64>,
    now: i64,
    st: AgentState,
    pf: AgentProfile,
    limit: int,
    t1: Seq<(i64, u128)>,
    t2: Seq<(i64, u128)>,
)
    requires
        m.dom().finite(),
        0 <= limit,
        is_ranked_result(m, q, now, st, pf, limit, t1),
        is_ranked_result(m, q, now, st, pf, limit, t2),
    ensures
        t1 == t2,
{
    lemma_set_to_seq_props(m.dom());
    let ids = m.dom().to_seq();
    let cands = ids.map_values(|id: u128| candidate_of(m, id, q, now, st, pf));
    assert(forall|k: int| 0 <= k < cands.len() ==> #[trigger] cands[k] == candidate_of(m, ids[k], q, now, st, pf));
    assert(distinct_ids(cands)) by {
        assert forall|i: int, j: int| 0 <= i < j < cands.len() implies (#[trigger] cands[i]).1
            != (#[trigger] cands[j]).1 by {
            assert(cands[i].1 == ids[i]);
            assert(cands[j].1 == ids[j]);
        }
    }
    assert forall|id: u128| m.dom().contains(id) implies cands.contains(
        #[trigger] candidate_of(m, id, q, now, st, pf),
    ) by {
        assert(ids.contains(id));
        let k = choose|k: int| 0 <= k < ids.len() && ids[k] == id;
        assert(cands[k] == candidate_of(m, id, q, now, st, pf));
    }
    lemma_ranked_to_topk(m, cands, q, now, st, pf, limit, t1);
    lemma_ranked_to_topk(m, cands, q, now, st, pf, limit, t2);
    lemma_topk_unique(cands, limit, t1, t2);
}

/// The converse bridge: a map-level ranked answer is a sequence-level
/// ranked prefix of any candidate sequence that enumerates the map.
proof fn lemma_ranked_to_topk(
    m: Map<u128, MemoryView>,
    cands: Seq<(i64, u128)>,
    q: Seq<i64>,
    now: i64,
    st: AgentState,
    pf: AgentProfile,
    limit: int,
    top: Seq<(i64, u128)>,
)
    requires
        m.dom().finite(),
        distinct_ids(cands),
        cands.len() == m.dom().len(),
        forall|k: int|
            0 <= k < cands.len() ==> m.dom().contains((#[trigger] cands[k]).1) && cands[k]
                == candidate_of(m, cands[k].1, q, now, st, pf),
        forall|id: u128|
            m.dom().contains(id) ==> cands.contains(
                #[trigger] candidate_of(m, id, q, now, st, pf),
            ),
        is_ranked_result(m, q, now, st, pf, limit, top),
    ensures
        is_topk(cands, limit, top),
{
    assert forall|i: int| 0 <= i < top.len() implies cands.contains(#[trigger] top[i]) by {
        assert(top[i] == candidate_of(m, top[i].1, q, now, st, pf));
        assert(m.dom().contains(top[i].1));
    }
    assert forall|x: (i64, u128), i: int|
        #![trigger cands.contains(x), top[i]]
        cands.contains(x) && !top.contains(x) && 0 <= i < top.len() implies rank_le(
        top[i],
        x,
    ) by {
        let k = choose|k: int| 0 <= k < cands.len() && cands[k] == x;
        let id = x.1;
        assert(x == candidate_of(m, id, q, now, st, pf));
        if ranked_contains_id(top, id) {
            let j = choose|j: int| 0 <= j < top.len() && top[j].1 == id;
            assert(top[j] == candidate_of(m, id, q, now, st, pf));
            assert(top.contains(x));
        }
        assert(!ranked_contains_id(top, id));
    }
}

/// The views of a returned result sequence.
pub open spec fn res_views(r: Seq<(i64, Memory)>) -> Seq<(i64, MemoryView)> {
    r.map_values(|p: (i64, Memory)| (p.0, p.1@))
}

/// The `(score, id)` keys of a result sequence.
pub open spec fn rank_keys(res: Seq<(i64, MemoryView)>) -> Seq<(i64, u128)> {
    res.map_values(|p: (i64, MemoryView)| (p.0, p.1.id))
}

/// A successful ranked query over a record map: the returned keys are the
/// unique ranked answer over the pre-state, every returned snapshot is the
/// reinforced form of the record it names, and the post-state reinforces
/// exactly the returned records while leaving the rest untouched.
pub open spec fn find_relevant_ok(
    pre: Map<u128, MemoryView>,
    post: Map<u128, MemoryView>,
    q: Seq<i64>,
    limit: int,
    now: i64,
    st: AgentState,
    pf: AgentProfile,
    res: Seq<(i64, MemoryView)>,
) -> bool {
    let top = rank_keys(res);
    &&& is_ranked_result(pre, q, now, st, pf, limit, top)
    &&& forall|i: int|
        0 <= i < res.len() ==> (#[trigger] res[i]).1 == reinforced_spec(
            pre[res[i].1.id],
            pf.rho,
            now,
        )
    &&& post.dom() == pre.dom()
    &&& forall|id: u128|
        pre.dom().contains(id) ==> #[trigger] post[id] == if ranked_contains_id(top, id) {
            reinforced_spec(pre[id], pf.rho, now)
        } else {
            pre[id]
        }
}

/// A successful maintenance sweep: exactly the records whose retention at
/// `now` reaches `thr` remain, unchanged, and `count` is the number
/// evicted.
pub open spec fn maintain_ok(
    pre: Map<u128, MemoryView>,
    post: Map<u128, MemoryView>,
    thr: i64,
    now: i64,
    st: AgentState,
    pf: AgentProfile,
    count: int,
) -> bool {
    &&& forall|id: u128|
        #[trigger] post.dom().contains(id) <==> pre.dom().contains(id) && retention_spec(
            pre[id],
            now,
            st,
            pf,
        ) >= thr
    &&& forall|id: u128| post.dom().contains(id) ==> #[trigger] post[id] == pre[id]
    &&& count == pre.dom().len() - post.dom().len()
}

/// A successful batched query: the queries are answered in order, each
/// against the state the previous one left behind.
pub open spec fn batch_ok(
    pre: Map<u128, MemoryView>,
    post: Map<u128, MemoryView>,
    qs: Seq<Seq<i64>>,
    limit: int,
    st: AgentState,
    pf: AgentProfile,
    res: Seq<Seq<(i64, MemoryView)>>,
) -> bool
    decreases qs.len(),
{
    if qs.len() == 0 {
        &&& post == pre
        &&& res.len() == 0
    } else {
        &&& res.len() == qs.len()
        &&& exists|mid: Map<u128, MemoryView>, t: i64|
            #![auto]
            batch_ok(pre, mid, qs.drop_last(), limit, st, pf, res.drop_last())
                && find_relevant_ok(mid, post, qs.last(), limit, t, st, pf, res.last())
    }
}

} // verus!
