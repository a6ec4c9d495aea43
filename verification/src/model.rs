//! Core data model: records, agent profile and state, and the retention
//! formula.
//!
//! All scalars are fixed-point micro-unit values (`1_000_000` is `1.0`).
//! Retention is the product of four clamped terms — phase, decay,
//! emotional bias, and capacity competition — times the record's current
//! memory strength, clamped into `[0, SCALE]`.

use vstd::prelude::*;
use crate::fixed::{
    SCALE, SCALE_U, EXP_ARG_CAP, LN_ARG_MAX, clamp_unit, exp_pos_spec, exp_pos, ln_fp_spec,
    ln_fp, lemma_mul_le,
};
use crate::similarity::wf_vector;
use crate::external;
use std::collections::VecDeque;

verus! {

/// Largest magnitude accepted for a tunable profile or decay parameter
/// (`1_000_000.0` in real units): keeps every retention intermediate
/// inside `u128`.
pub const TUNE_MAX: i64 = 1_000_000_000_000;

/// Volatile per-agent parameters that modulate decay speed.
#[derive(Debug, Clone, Copy, PartialEq, Eq, Structural)]
pub struct AgentState {
    /// Current age of the agent, in micro-years.
    pub current_age: i64,
    /// Sleep debt, normalised into `[0, SCALE]`.
    pub sleep_debt: i64,
    /// Stress/cortisol level, normalised into `[0, SCALE]`.
    pub cortisol_level: i64,
    /// Fatigue, normalised into `[0, SCALE]`.
    pub fatigue: i64,
    /// Training/experience factor, normalised into `[0, SCALE]`.
    pub training_factor: i64,
}

impl AgentState {
    /// The normalised fields lie in `[0, SCALE]`.
    pub open spec fn wf(self) -> bool {
        &&& 0 <= self.sleep_debt <= SCALE
        &&& 0 <= self.cortisol_level <= SCALE
        &&& 0 <= self.fatigue <= SCALE
        &&& 0 <= self.training_factor <= SCALE
    }
}

impl Default for AgentState {
    /// A fully rested, untrained agent of age zero.
    fn default() -> (s: AgentState)
        ensures
            s == (AgentState {
                current_age: 0,
                sleep_debt: 0,
                cortisol_level: 0,
                fatigue: 0,
                training_factor: 0,
            }),
            s.wf(),
    {
        AgentState { current_age: 0, sleep_debt: 0, cortisol_level: 0, fatigue: 0, training_factor: 0 }
    }
}

/// Stable per-agent tunables governing decay, emotion, and capacity.
#[derive(Debug, Clone, Copy, PartialEq, Eq, Structural)]
pub struct AgentProfile {
    /// Phase steepness.
    pub k: i64,
    /// Age of half-maximal plasticity, in micro-years.
    pub a_mid: i64,
    /// Minimum phase floor.
    pub epsilon: i64,
    /// Shock threshold on the absolute emotion.
    pub theta_shock: i64,
    /// Trauma boost applied above the shock threshold.
    pub gamma: i64,
    /// Emotional slope applied below the shock threshold.
    pub eta: i64,
    /// Base capacity.
    pub c_base: i64,
    /// Retrieval-reinforcement factor.
    pub rho: i64,
    /// Interference constant, reserved as an extension point: the engine
    /// applies no cross-record interference at query time.
    pub kappa: i64,
}

impl AgentProfile {
    /// All tunables lie in the representable range; `c_base` is positive.
    pub open spec fn wf(self) -> bool {
        &&& 0 <= self.k <= TUNE_MAX
        &&& 0 <= self.a_mid <= TUNE_MAX
        &&& 0 <= self.epsilon <= TUNE_MAX
        &&& 0 <= self.theta_shock <= TUNE_MAX
        &&& 0 <= self.gamma <= TUNE_MAX
        &&& 0 <= self.eta <= TUNE_MAX
        &&& 1 <= self.c_base <= TUNE_MAX
        &&& 0 <= self.rho <= TUNE_MAX
        &&& 0 <= self.kappa <= TUNE_MAX
    }
}

impl Default for AgentProfile {
    /// Balanced default tunables.
    fn default() -> (p: AgentProfile)
        ensures
            p == (AgentProfile {
                k: 500_000,
                a_mid: 22_000_000,
                epsilon: 200_000,
                theta_shock: 700_000,
                gamma: 1_500_000,
                eta: 300_000,
                c_base: 100_000_000,
                rho: 100_000,
                kappa: 50_000,
            }),
            p.wf(),
    {
        AgentProfile {
            k: 500_000,
            a_mid: 22_000_000,
            epsilon: 200_000,
            theta_shock: 700_000,
            gamma: 1_500_000,
            eta: 300_000,
            c_base: 100_000_000,
            rho: 100_000,
            kappa: 50_000,
        }
    }
}

/// Per-record decay constants.
#[derive(Debug, Clone, Copy, PartialEq, Eq, Structural)]
pub struct DecayParams {
    /// Decay shape exponent.
    pub alpha: i64,
    /// Base time scale.
    pub beta_0: i64,
}

impl DecayParams {
    /// Both constants lie in the representable range.
    pub open spec fn wf(self) -> bool {
        &&& 0 <= self.alpha <= TUNE_MAX
        &&& 0 <= self.beta_0 <= TUNE_MAX
    }
}

impl Default for DecayParams {
    /// The reference decay constants: shape `0.8`, time scale `0.01`.
    fn default() -> (d: DecayParams)
        ensures
            d == (DecayParams { alpha: 800_000, beta_0: 10_000 }),
            d.wf(),
    {
        DecayParams { alpha: 800_000, beta_0: 10_000 }
    }
}

/// One stored memory record.
#[derive(Debug)]
pub struct Memory {
    /// Process-unique identifier, assigned at creation.
    pub id: u128,
    /// Semantic embedding of the record's content, in micro-units.
    pub semantic_vector: Vec<i64>,
    /// Affective valence, clamped into `[-SCALE, SCALE]`.
    pub emotion: i64,
    /// Agent age at formation, in micro-years.
    pub age_at_formation: i64,
    /// Share of the agent's capacity consumed, clamped into `[0, SCALE]`.
    pub capacity_weight: i64,
    /// Creation time, in whole seconds since the Unix epoch.
    pub timestamp: i64,
    /// Time of the most recent retrieval, in the same clock.
    pub last_retrieved: i64,
    /// Number of reinforcements applied so far.
    pub retrieval_count: u32,
    /// Opaque caller-defined key/value payload; never interpreted here.
    pub metadata: Vec<(String, String)>,
    /// Append-only record of reinforcement times.
    pub recall_history: VecDeque<i64>,
    /// Current memory strength in `[0, SCALE]`; only reinforcement lowers it.
    pub memory_strength: i64,
    /// Per-record decay constants.
    pub decay_params: DecayParams,
}

/// The mathematical abstraction of a [`Memory`].
pub struct MemoryView {
    /// Identifier.
    pub id: u128,
    /// Embedding components.
    pub semantic_vector: Seq<i64>,
    /// Affective valence.
    pub emotion: i64,
    /// Agent age at formation.
    pub age_at_formation: i64,
    /// Capacity share.
    pub capacity_weight: i64,
    /// Creation time.
    pub timestamp: i64,
    /// Most recent retrieval time.
    pub last_retrieved: i64,
    /// Reinforcement count.
    pub retrieval_count: u32,
    /// Metadata pairs as character sequences.
    pub metadata: Seq<(Seq<char>, Seq<char>)>,
    /// Reinforcement times.
    pub recall_history: Seq<i64>,
    /// Memory strength.
    pub memory_strength: i64,
    /// Decay constants.
    pub decay_params: DecayParams,
}

/// Abstracts a metadata vector to character sequences.
pub open spec fn meta_view(v: Seq<(String, String)>) -> Seq<(Seq<char>, Seq<char>)> {
    v.map_values(|p: (String, String)| (p.0@, p.1@))
}

impl View for Memory {
    type V = MemoryView;

    open spec fn view(&self) -> MemoryView {
        MemoryView {
            id: self.id,
            semantic_vector: self.semantic_vector@,
            emotion: self.emotion,
            age_at_formation: self.age_at_formation,
            capacity_weight: self.capacity_weight,
            timestamp: self.timestamp,
            last_retrieved: self.last_retrieved,
            retrieval_count: self.retrieval_count,
            metadata: meta_view(self.metadata@),
            recall_history: self.recall_history@,
            memory_strength: self.memory_strength,
            decay_params: self.decay_params,
        }
    }
}

impl MemoryView {
    /// Clamped fields lie in their ranges and the vector is processable.
    pub open spec fn wf(self) -> bool {
        &&& -SCALE <= self.emotion <= SCALE
        &&& 0 <= self.capacity_weight <= SCALE
        &&& 0 <= self.memory_strength <= SCALE
        &&& self.decay_params.wf()
        &&& wf_vector(self.semantic_vector)
    }
}

/// Clamps an affective valence into `[-SCALE, SCALE]`.
pub open spec fn clamp_emotion(e: int) -> int {
    if e < -SCALE {
        -SCALE as int
    } else if e > SCALE {
        SCALE as int
    } else {
        e
    }
}

/// Whole seconds elapsed from `ts` to `now`, floored at zero.
pub open spec fn elapsed_secs(now: i64, ts: i64) -> int {
    if now >= ts {
        now - ts
    } else {
        0
    }
}

/// The power-law forgetting term `(1 + beta * t)^(-alpha)` in micro-units,
/// computed through the fixed-point logarithm and exponential; decay
/// accelerates with the agent's cortisol and fatigue.
pub open spec fn decay_term(m: MemoryView, now: i64, st: AgentState) -> int {
    let t_days = elapsed_secs(now, m.timestamp) * SCALE / 86_400;
    let beta = m.decay_params.beta_0 * (SCALE + st.cortisol_level + st.fatigue) / (SCALE as int);
    let bt = beta * t_days / (SCALE as int);
    let x = m.decay_params.alpha * ln_fp_spec(SCALE + bt) / (SCALE as int);
    if x >= EXP_ARG_CAP {
        0
    } else {
        SCALE * SCALE / exp_pos_spec(x)
    }
}

/// The plasticity phase term: a falling logistic in the formation age
/// around `a_mid` with steepness `k`, raised by the floor `epsilon`.
pub open spec fn phase_term(m: MemoryView, pf: AgentProfile) -> int {
    let lo = if m.age_at_formation >= pf.a_mid {
        let z = pf.k * (m.age_at_formation - pf.a_mid) / (SCALE as int);
        if z >= EXP_ARG_CAP {
            0
        } else {
            SCALE * SCALE / (SCALE + exp_pos_spec(z))
        }
    } else {
        let z = pf.k * (pf.a_mid - m.age_at_formation) / (SCALE as int);
        if z >= EXP_ARG_CAP {
            SCALE as int
        } else {
            SCALE - SCALE * SCALE / (SCALE + exp_pos_spec(z))
        }
    };
    lo + pf.epsilon
}

/// The emotional-bias term: above the shock threshold strong affect
/// amplifies retention by `gamma`; below it retention scales linearly in
/// the signed emotion with slope `eta` (floored at zero).
pub open spec fn emotion_term(m: MemoryView, pf: AgentProfile) -> int {
    let ae = if m.emotion >= 0 {
        m.emotion as int
    } else {
        -(m.emotion as int)
    };
    if ae > pf.theta_shock {
        SCALE + pf.gamma * ae / (SCALE as int)
    } else if m.emotion >= 0 {
        SCALE + pf.eta * m.emotion / (SCALE as int)
    } else {
        let d = pf.eta * (-(m.emotion as int)) / (SCALE as int);
        if d >= SCALE {
            0
        } else {
            SCALE - d
        }
    }
}

/// The capacity-competition term: the record's weight capped at the
/// agent's dynamic maximum capacity and normalised by the base capacity.
pub open spec fn capacity_term(m: MemoryView, st: AgentState, pf: AgentProfile) -> int {
    let cmax = pf.c_base * (SCALE - st.fatigue + st.training_factor) / (SCALE as int);
    let ceff = if m.capacity_weight <= cmax {
        m.capacity_weight as int
    } else {
        cmax
    };
    ceff * SCALE / (pf.c_base as int)
}

/// Retention of a record at time `now`: the product of the four terms and
/// the record's memory strength, clamped into `[0, SCALE]`.
pub open spec fn retention_spec(m: MemoryView, now: i64, st: AgentState, pf: AgentProfile) -> int {
    let p1 = phase_term(m, pf) * decay_term(m, now, st) / (SCALE as int);
    let p2 = p1 * emotion_term(m, pf) / (SCALE as int);
    let p3 = p2 * capacity_term(m, st, pf) / (SCALE as int);
    let p4 = p3 * m.memory_strength / (SCALE as int);
    clamp_unit(p4)
}

/// Retention always lies in `[0, SCALE]`.
///
/// Law: `0.0 <= retention(record, now, state, profile) <= 1.0` for every
/// record, state, profile and time.
pub proof fn lemma_retention_bounds(m: MemoryView, now: i64, st: AgentState, pf: AgentProfile)
    ensures
        0 <= retention_spec(m, now, st, pf) <= SCALE,
{
}

/// A record after one reinforcement at time `now` with factor `rho`: the
/// retrieval is appended to the history, the count rises by one
/// (saturating), and the strength is multiplied by `1 / (1 + rho)`.
pub open spec fn reinforced_spec(m: MemoryView, rho: i64, now: i64) -> MemoryView {
    MemoryView {
        last_retrieved: now,
        retrieval_count: if m.retrieval_count < u32::MAX {
            (m.retrieval_count + 1) as u32
        } else {
            m.retrieval_count
        },
        recall_history: m.recall_history.push(now),
        memory_strength: (m.memory_strength * SCALE / ((SCALE + rho) as int)) as i64,
        ..m
    }
}

/// Reinforcement strictly weakens a positive strength and advances the
/// count and history by exactly one step.
///
/// Law: after one reinforcement with `rho > 0`, `memory_strength`
/// strictly decreases while `retrieval_count` and the history length each
/// rise by one.  (A strength of `0` stays `0`, and a count already at
/// `u32::MAX` saturates; both are left out by the hypotheses.)
pub proof fn lemma_reinforcement_monotonic(m: MemoryView, rho: i64, now: i64)
    requires
        0 < rho <= TUNE_MAX,
        0 < m.memory_strength <= SCALE,
        m.retrieval_count < u32::MAX,
    ensures
        reinforced_spec(m, rho, now).memory_strength < m.memory_strength,
        reinforced_spec(m, rho, now).memory_strength >= 0,
        reinforced_spec(m, rho, now).retrieval_count == m.retrieval_count + 1,
        reinforced_spec(m, rho, now).recall_history.len() == m.recall_history.len() + 1,
    decreases 0int,
{
    let s = m.memory_strength as int;
    assert(s * SCALE < (SCALE + rho) * s) by (nonlinear_arith)
        requires
            s > 0,
            rho > 0,
    ;
    vstd::arithmetic::div_mod::lemma_multiply_divide_lt(s * SCALE, SCALE + rho, s);
    vstd::arithmetic::div_mod::lemma_div_pos_is_pos(s * SCALE, SCALE + rho);
    assert(s * SCALE >= 0) by (nonlinear_arith)
        requires
            s > 0,
    ;
}

/// Reinforcement keeps a record well-formed and keeps its identifier.
pub proof fn lemma_reinforced_wf(m: MemoryView, rho: i64, now: i64)
    requires
        m.wf(),
        0 <= rho,
    ensures
        reinforced_spec(m, rho, now).wf(),
        reinforced_spec(m, rho, now).id == m.id,
{
    let s = m.memory_strength as int;
    vstd::arithmetic::div_mod::lemma_div_pos_is_pos(s * SCALE, SCALE + rho);
    lemma_mul_le(s, SCALE as int, SCALE as int, SCALE as int);
    vstd::arithmetic::div_mod::lemma_div_is_ordered_by_denominator(
        s * SCALE,
        SCALE as int,
        SCALE + rho,
    );
    vstd::arithmetic::div_mod::lemma_div_is_ordered(s * SCALE, SCALE * SCALE, SCALE as int);
    vstd::arithmetic::div_mod::lemma_div_multiples_vanish(SCALE as int, SCALE as int);
}

impl Memory {
    /// Creates a record with a fresh random identifier at the current
    /// wall-clock time; the emotion and capacity weight are clamped into
    /// their ranges, the strength starts at `SCALE`, and the decay
    /// constants take their defaults.
    pub fn new(semantic_vector: Vec<i64>, emotion: i64, age_at_formation: i64, capacity_weight: i64) -> (m: Memory)
        requires
            wf_vector(semantic_vector@),
        ensures
            m@.semantic_vector == semantic_vector@,
            m@.emotion == clamp_emotion(emotion as int),
            m@.age_at_formation == age_at_formation,
            m@.capacity_weight == clamp_unit(capacity_weight as int),
            m@.retrieval_count == 0,
            m@.recall_history.len() == 0,
            m@.metadata.len() == 0,
            m@.memory_strength == SCALE,
            m@.decay_params == (DecayParams { alpha: 800_000, beta_0: 10_000 }),
            m@.last_retrieved == m@.timestamp,
            m@.wf(),
    {
        let now = external::now_seconds();
        let id = external::fresh_id();
        let e = if emotion < -SCALE {
            -SCALE
        } else if emotion > SCALE {
            SCALE
        } else {
            emotion
        };
        let c = if capacity_weight < 0 {
            0
        } else if capacity_weight > SCALE {
            SCALE
        } else {
            capacity_weight
        };
        Memory {
            id,
            semantic_vector,
            emotion: e,
            age_at_formation,
            capacity_weight: c,
            timestamp: now,
            last_retrieved: now,
            retrieval_count: 0,
            metadata: Vec::new(),
            recall_history: VecDeque::new(),
            memory_strength: SCALE,
            decay_params: DecayParams { alpha: 800_000, beta_0: 10_000 },
        }
    }

    /// Computes [`retention_spec`] exactly: the record's retention at time
    /// `now`, in `[0, SCALE]`.
    pub fn calculate_retention(&self, now: i64, agent_state: &AgentState, profile: &AgentProfile) -> (r: i64)
        requires
            self@.wf(),
            agent_state.wf(),
            profile.wf(),
        ensures
            r == retention_spec(self@, now, *agent_state, *profile),
            0 <= r <= SCALE,
    {
        // decay term
        let es: i128 = (now as i128) - (self.timestamp as i128);
        let el: u128 = if es > 0 {
            es as u128
        } else {
            0
        };
        assert(el == elapsed_secs(now, self.timestamp));
        assert(el <= 20_000_000_000_000_000_000);
        proof {
            lemma_mul_le(el as int, SCALE as int, 20_000_000_000_000_000_000, SCALE as int);
        }
        let t_days: u128 = el * SCALE_U / 86_400;
        proof {
            vstd::arithmetic::div_mod::lemma_div_is_ordered(
                (el * SCALE_U) as int,
                20_000_000_000_000_000_000_000_000,
                86_400,
            );
        }
        assert(t_days <= 300_000_000_000_000_000_000);
        proof {
            lemma_mul_le(
                self.decay_params.beta_0 as int,
                (SCALE_U + (agent_state.cortisol_level as u128) + (agent_state.fatigue
                    as u128)) as int,
                TUNE_MAX as int,
                3_000_000,
            );
            vstd::arithmetic::div_mod::lemma_div_is_ordered(
                ((self.decay_params.beta_0 as u128) * (SCALE_U + (agent_state.cortisol_level
                    as u128) + (agent_state.fatigue as u128))) as int,
                3_000_000_000_000_000_000,
                SCALE as int,
            );
        }
        let beta: u128 = (self.decay_params.beta_0 as u128) * (SCALE_U + (agent_state.cortisol_level
            as u128) + (agent_state.fatigue as u128)) / SCALE_U;
        assert(beta <= 3_000_000_000_000);
        proof {
            lemma_mul_le(beta as int, t_days as int, 3_000_000_000_000, 300_000_000_000_000_000_000);
            vstd::arithmetic::div_mod::lemma_div_is_ordered(
                (beta * t_days) as int,
                900_000_000_000_000_000_000_000_000_000_000,
                SCALE as int,
            );
        }
        let bt: u128 = beta * t_days / SCALE_U;
        assert(bt <= 900_000_000_000_000_000_000_000_000);
        assert(SCALE_U + bt <= LN_ARG_MAX);
        let l: u128 = ln_fp(SCALE_U + bt);
        proof {
            lemma_mul_le(self.decay_params.alpha as int, l as int, TUNE_MAX as int, 100_000_000);
        }
        let x: u128 = (self.decay_params.alpha as u128) * l / SCALE_U;
        let decay: u128 = if x >= EXP_ARG_CAP {
            0
        } else {
            let ex = exp_pos(x);
            proof {
                vstd::arithmetic::div_mod::lemma_div_is_ordered_by_denominator(
                    (SCALE_U * SCALE_U) as int,
                    SCALE as int,
                    ex as int,
                );
                vstd::arithmetic::div_mod::lemma_div_multiples_vanish(SCALE as int, SCALE as int);
                vstd::arithmetic::div_mod::lemma_div_pos_is_pos((SCALE_U * SCALE_U) as int, ex as int);
            }
            SCALE_U * SCALE_U / ex
        };
        assert(decay <= SCALE_U);
        assert(decay == decay_term(self@, now, *agent_state));

        // phase term
        let lo: u128 = if self.age_at_formation >= profile.a_mid {
            let diff: u128 = ((self.age_at_formation as i128) - (profile.a_mid as i128)) as u128;
            proof {
                lemma_mul_le(profile.k as int, diff as int, TUNE_MAX as int, 20_000_000_000_000_000_000);
            }
            let z: u128 = (profile.k as u128) * diff / SCALE_U;
            if z >= EXP_ARG_CAP {
                0
            } else {
                let ex = exp_pos(z);
                proof {
                    vstd::arithmetic::div_mod::lemma_div_is_ordered_by_denominator(
                        (SCALE_U * SCALE_U) as int,
                        SCALE as int,
                        (SCALE_U + ex) as int,
                    );
                    vstd::arithmetic::div_mod::lemma_div_multiples_vanish(SCALE as int, SCALE as int);
                    vstd::arithmetic::div_mod::lemma_div_pos_is_pos(
                        (SCALE_U * SCALE_U) as int,
                        (SCALE_U + ex) as int,
                    );
                }
                SCALE_U * SCALE_U / (SCALE_U + ex)
            }
        } else {
            let diff: u128 = ((profile.a_mid as i128) - (self.age_at_formation as i128)) as u128;
            proof {
                lemma_mul_le(profile.k as int, diff as int, TUNE_MAX as int, 20_000_000_000_000_000_000);
            }
            let z: u128 = (profile.k as u128) * diff / SCALE_U;
            if z >= EXP_ARG_CAP {
                SCALE_U
            } else {
                let ex = exp_pos(z);
                proof {
                    vstd::arithmetic::div_mod::lemma_div_is_ordered_by_denominator(
                        (SCALE_U * SCALE_U) as int,
                        SCALE as int,
                        (SCALE_U + ex) as int,
                    );
                    vstd::arithmetic::div_mod::lemma_div_multiples_vanish(SCALE as int, SCALE as int);
                    vstd::arithmetic::div_mod::lemma_div_pos_is_pos(
                        (SCALE_U * SCALE_U) as int,
                        (SCALE_U + ex) as int,
                    );
                }
                SCALE_U - SCALE_U * SCALE_U / (SCALE_U + ex)
            }
        };
        assert(lo <= SCALE_U);
        let phase: u128 = lo + (profile.epsilon as u128);
        assert(phase == phase_term(self@, *profile));
        assert(phase <= 1_000_001_000_000);

        // emotional-bias term
        let ae: u128 = if self.emotion >= 0 {
            self.emotion as u128
        } else {
            (-(self.emotion as i128)) as u128
        };
        assert(ae <= SCALE_U);
        let emo: u128 = if ae > (profile.theta_shock as u128) {
            proof {
                lemma_mul_le(profile.gamma as int, ae as int, TUNE_MAX as int, SCALE as int);
                vstd::arithmetic::div_mod::lemma_div_is_ordered(
                    ((profile.gamma as u128) * ae) as int,
                    1_000_000_000_000_000_000,
                    SCALE as int,
                );
                vstd::arithmetic::div_mod::lemma_div_pos_is_pos(((profile.gamma as u128) * ae) as int, SCALE as int);
            }
            SCALE_U + (profile.gamma as u128) * ae / SCALE_U
        } else if self.emotion >= 0 {
            proof {
                lemma_mul_le(profile.eta as int, self.emotion as int, TUNE_MAX as int, SCALE as int);
                vstd::arithmetic::div_mod::lemma_div_is_ordered(
                    ((profile.eta as u128) * (self.emotion as u128)) as int,
                    1_000_000_000_000_000_000,
                    SCALE as int,
                );
                vstd::arithmetic::div_mod::lemma_div_pos_is_pos(
                    ((profile.eta as u128) * (self.emotion as u128)) as int,
                    SCALE as int,
                );
            }
            SCALE_U + (profile.eta as u128) * (self.emotion as u128) / SCALE_U
        } else {
            proof {
                lemma_mul_le(profile.eta as int, ae as int, TUNE_MAX as int, SCALE as int);
                vstd::arithmetic::div_mod::lemma_div_pos_is_pos(((profile.eta as u128) * ae) as int, SCALE as int);
            }
            let d: u128 = (profile.eta as u128) * ae / SCALE_U;
            if d >= SCALE_U {
                0
            } else {
                SCALE_U - d
            }
        };
        assert(emo == emotion_term(self@, *profile));
        assert(emo <= 1_000_001_000_000_000_000);

        // capacity-competition term
        proof {
            lemma_mul_le(
                profile.c_base as int,
                (SCALE_U - (agent_state.fatigue as u128) + (agent_state.training_factor
                    as u128)) as int,
                TUNE_MAX as int,
                2_000_000,
            );
            vstd::arithmetic::div_mod::lemma_div_is_ordered(
                ((profile.c_base as u128) * (SCALE_U - (agent_state.fatigue as u128)
                    + (agent_state.training_factor as u128))) as int,
                2_000_000_000_000_000_000,
                SCALE as int,
            );
        }
        let cmax: u128 = (profile.c_base as u128) * (SCALE_U - (agent_state.fatigue as u128)
            + (agent_state.training_factor as u128)) / SCALE_U;
        assert(cmax <= 2_000_000_000_000);
        let ceff: u128 = if (self.capacity_weight as u128) <= cmax {
            self.capacity_weight as u128
        } else {
            cmax
        };
        assert(ceff <= SCALE_U);
        proof {
            lemma_mul_le(ceff as int, SCALE as int, SCALE as int, SCALE as int);
            vstd::arithmetic::div_mod::lemma_div_pos_is_pos((ceff * SCALE_U) as int, profile.c_base as int);
            vstd::arithmetic::div_mod::lemma_div_is_ordered_by_denominator(
                (ceff * SCALE_U) as int,
                1,
                profile.c_base as int,
            );
            vstd::arithmetic::div_mod::lemma_div_basics((ceff * SCALE_U) as int);
        }
        let cap: u128 = ceff * SCALE_U / (profile.c_base as u128);
        assert(cap == capacity_term(self@, *agent_state, *profile));
        assert(cap <= 1_000_000_000_000);

        // product of the terms and the strength, clamped
        proof {
            lemma_mul_le(phase as int, decay as int, 1_000_001_000_000, SCALE as int);
            vstd::arithmetic::div_mod::lemma_div_is_ordered(
                (phase * decay) as int,
                1_000_001_000_000_000_000,
                SCALE as int,
            );
        }
        let p1: u128 = phase * decay / SCALE_U;
        assert(p1 <= 1_000_001_000_000);
        proof {
            lemma_mul_le(p1 as int, emo as int, 1_000_001_000_000, 1_000_001_000_000_000_000);
            vstd::arithmetic::div_mod::lemma_div_is_ordered(
                (p1 * emo) as int,
                1_000_002_000_001_000_000_000_000_000_000,
                SCALE as int,
            );
        }
        let p2: u128 = p1 * emo / SCALE_U;
        assert(p2 <= 1_000_002_000_001_000_000_000_000);
        proof {
            lemma_mul_le(p2 as int, cap as int, 1_000_002_000_001_000_000_000_000, 1_000_000_000_000);
            vstd::arithmetic::div_mod::lemma_div_is_ordered(
                (p2 * cap) as int,
                1_000_002_000_001_000_000_000_000_000_000_000_000int,
                SCALE as int,
            );
        }
        let p3: u128 = p2 * cap / SCALE_U;
        proof {
            lemma_mul_le(
                p3 as int,
                self.memory_strength as int,
                1_000_002_000_001_000_000_000_000_000_000,
                SCALE as int,
            );
        }
        let p4: u128 = p3 * (self.memory_strength as u128) / SCALE_U;
        let r: i64 = if p4 > SCALE_U {
            SCALE
        } else {
            p4 as i64
        };
        assert(r == retention_spec(self@, now, *agent_state, *profile));
        r
    }

    /// Applies one reinforcement at the current wall-clock time: computes
    /// [`reinforced_spec`] for some snapshot of the clock.
    pub fn record_retrieval(&mut self, rho: i64)
        requires
            0 <= rho <= TUNE_MAX,
            old(self)@.wf(),
        ensures
            exists|t: i64| final(self)@ == reinforced_spec(old(self)@, rho, t),
            final(self)@.memory_strength == old(self)@.memory_strength * SCALE / ((SCALE + rho) as int),
            final(self)@.retrieval_count == reinforced_spec(old(self)@, rho, 0).retrieval_count,
            final(self)@.recall_history.len() == old(self)@.recall_history.len() + 1,
            final(self)@.wf(),
    {
        let now = external::now_seconds();
        self.record_retrieval_at(rho, now);
        proof {
            assert(final(self)@ == reinforced_spec(old(self)@, rho, now));
        }
    }

    /// Applies one reinforcement at the given time: computes
    /// [`reinforced_spec`] exactly.
    pub fn record_retrieval_at(&mut self, rho: i64, now: i64)
        requires
            0 <= rho <= TUNE_MAX,
            old(self)@.wf(),
        ensures
            final(self)@ == reinforced_spec(old(self)@, rho, now),
            final(self)@.wf(),
    {
        self.last_retrieved = now;
        if self.retrieval_count < u32::MAX {
            self.retrieval_count = self.retrieval_count + 1;
        }
        self.recall_history.push_back(now);
        proof {
            lemma_mul_le(self.memory_strength as int, SCALE as int, SCALE as int, SCALE as int);
            vstd::arithmetic::div_mod::lemma_div_pos_is_pos(
                (self.memory_strength as u128 * SCALE_U) as int,
                (SCALE + rho) as int,
            );
            vstd::arithmetic::div_mod::lemma_div_is_ordered_by_denominator(
                (self.memory_strength as u128 * SCALE_U) as int,
                SCALE as int,
                (SCALE + rho) as int,
            );
            vstd::arithmetic::div_mod::lemma_div_is_ordered(
                (self.memory_strength as u128 * SCALE_U) as int,
                (SCALE_U * SCALE_U) as int,
                SCALE as int,
            );
            vstd::arithmetic::div_mod::lemma_div_multiples_vanish(SCALE as int, SCALE as int);
        }
        let s: u128 = (self.memory_strength as u128) * SCALE_U / ((SCALE + rho) as u128);
        self.memory_strength = s as i64;
    }
}

impl Memory {
    /// Checks [`MemoryView::wf`] at run time.
    pub fn is_wf(&self) -> (r: bool)
        ensures
            r == self@.wf(),
    {
        let basic = -SCALE <= self.emotion && self.emotion <= SCALE && 0 <= self.capacity_weight
            && self.capacity_weight <= SCALE && 0 <= self.memory_strength && self.memory_strength
            <= SCALE && 0 <= self.decay_params.alpha && self.decay_params.alpha <= TUNE_MAX
            && 0 <= self.decay_params.beta_0 && self.decay_params.beta_0 <= TUNE_MAX;
        if !basic {
            return false;
        }
        if self.semantic_vector.len() > crate::similarity::VEC_LEN_MAX {
            return false;
        }
        let mut i: usize = 0;
        while i < self.semantic_vector.len()
            invariant
                i <= self.semantic_vector@.len(),
                forall|j: int|
                    0 <= j < i ==> -crate::similarity::VEC_COMP_MAX <= #[trigger] self.semantic_vector@[j]
                        <= crate::similarity::VEC_COMP_MAX,
            decreases self.semantic_vector@.len() - i,
        {
            let c = self.semantic_vector[i];
            if c < -crate::similarity::VEC_COMP_MAX || c > crate::similarity::VEC_COMP_MAX {
                return false;
            }
            i = i + 1;
        }
        true
    }
}

impl AgentProfile {
    /// Checks [`AgentProfile::wf`] at run time.
    pub fn is_wf(&self) -> (r: bool)
        ensures
            r == self.wf(),
    {
        0 <= self.k && self.k <= TUNE_MAX && 0 <= self.a_mid && self.a_mid <= TUNE_MAX
            && 0 <= self.epsilon && self.epsilon <= TUNE_MAX && 0 <= self.theta_shock
            && self.theta_shock <= TUNE_MAX && 0 <= self.gamma && self.gamma <= TUNE_MAX
            && 0 <= self.eta && self.eta <= TUNE_MAX && 1 <= self.c_base && self.c_base
            <= TUNE_MAX && 0 <= self.rho && self.rho <= TUNE_MAX && 0 <= self.kappa
            && self.kappa <= TUNE_MAX
    }
}

impl AgentState {
    /// Checks [`AgentState::wf`] at run time.
    pub fn is_wf(&self) -> (r: bool)
        ensures
            r == self.wf(),
    {
        0 <= self.sleep_debt && self.sleep_debt <= SCALE && 0 <= self.cortisol_level
            && self.cortisol_level <= SCALE && 0 <= self.fatigue && self.fatigue <= SCALE
            && 0 <= self.training_factor && self.training_factor <= SCALE
    }
}

impl Clone for Memory {
    /// A clone carries the same abstract value as the original.
    fn clone(&self) -> (r: Self)
        ensures
            r@ == self@,
    {
        let r = Memory {
            id: self.id,
            semantic_vector: clone_i64_vec(&self.semantic_vector),
            emotion: self.emotion,
            age_at_formation: self.age_at_formation,
            capacity_weight: self.capacity_weight,
            timestamp: self.timestamp,
            last_retrieved: self.last_retrieved,
            retrieval_count: self.retrieval_count,
            metadata: clone_metadata(&self.metadata),
            recall_history: clone_history(&self.recall_history),
            memory_strength: self.memory_strength,
            decay_params: self.decay_params,
        };
        proof {
            assert(r@.metadata =~~= self@.metadata);
            assert(r@ =~~= self@);
        }
        r
    }
}

/// Copies a component vector.
fn clone_i64_vec(v: &Vec<i64>) -> (r: Vec<i64>)
    ensures
        r@ == v@,
{
    let mut r: Vec<i64> = Vec::new();
    let mut i: usize = 0;
    while i < v.len()
        invariant
            i <= v.len(),
            r@ == v@.subrange(0, i as int),
        decreases v.len() - i,
    {
        r.push(v[i]);
        proof {
            assert(r@ =~= v@.subrange(0, (i + 1) as int));
        }
        i = i + 1;
    }
    proof {
        assert(v@.subrange(0, v@.len() as int) =~= v@);
    }
    r
}

/// Copies a recall history.
fn clone_history(v: &VecDeque<i64>) -> (r: VecDeque<i64>)
    ensures
        r@ == v@,
{
    let mut r: VecDeque<i64> = VecDeque::new();
    let mut i: usize = 0;
    while i < v.len()
        invariant
            i <= v.len(),
            r@ == v@.subrange(0, i as int),
        decreases v.len() - i,
    {
        r.push_back(v[i]);
        proof {
            assert(r@ =~= v@.subrange(0, (i + 1) as int));
        }
        i = i + 1;
    }
    proof {
        assert(v@.subrange(0, v@.len() as int) =~= v@);
    }
    r
}

/// Copies a metadata payload, preserving its abstraction.
fn clone_metadata(v: &Vec<(String, String)>) -> (r: Vec<(String, String)>)
    ensures
        meta_view(r@) == meta_view(v@),
{
    let mut r: Vec<(String, String)> = Vec::new();
    let mut i: usize = 0;
    while i < v.len()
        invariant
            i <= v.len(),
            r@.len() == i,
            forall|j: int|
                0 <= j < i ==> #[trigger] r@[j].0@ == v@[j].0@ && r@[j].1@ == v@[j].1@,
        decreases v.len() - i,
    {
        let key = v[i].0.clone();
        let value = v[i].1.clone();
        r.push((key, value));
        i = i + 1;
    }
    proof {
        assert(meta_view(r@) =~~= meta_view(v@));
    }
    r
}

/// The views of a record sequence.
pub open spec fn views_of(v: Seq<Memory>) -> Seq<MemoryView> {
    v.map_values(|m: Memory| m@)
}

/// Pointwise characterisation of [`views_of`].
pub proof fn lemma_views_of_index(v: Seq<Memory>)
    ensures
        views_of(v).len() == v.len(),
        forall|i: int| 0 <= i < v.len() ==> views_of(v)[i] == (#[trigger] v[i])@,
{
    assert forall|i: int| 0 <= i < v.len() implies views_of(v)[i] == (#[trigger] v[i])@ by {
        assert(views_of(v)[i] == v.map_values(|m: Memory| m@)[i]);
    }
}

/// All records in the sequence carry distinct identifiers.
pub open spec fn distinct_mem_ids(s: Seq<MemoryView>) -> bool {
    forall|i: int, j: int| 0 <= i < j < s.len() ==> (#[trigger] s[i]).id != (#[trigger] s[j]).id
}

/// The map from identifier to record that a record sequence denotes.
pub open spec fn mems_to_map(s: Seq<MemoryView>) -> Map<u128, MemoryView>
    decreases s.len(),
{
    if s.len() == 0 {
        Map::empty()
    } else {
        mems_to_map(s.drop_last()).insert(s.last().id, s.last())
    }
}

/// Characterises [`mems_to_map`] over a duplicate-free record sequence:
/// its domain is finite with one key per record, and each record is found
/// under its identifier.
pub proof fn lemma_mems_to_map(s: Seq<MemoryView>)
    requires
        distinct_mem_ids(s),
    ensures
        mems_to_map(s).dom().finite(),
        mems_to_map(s).dom().len() == s.len(),
        forall|id: u128|
            mems_to_map(s).contains_key(id) <==> exists|k: int|
                0 <= k < s.len() && (#[trigger] s[k]).id == id,
        forall|k: int|
            0 <= k < s.len() ==> mems_to_map(s).contains_key((#[trigger] s[k]).id)
                && mems_to_map(s)[s[k].id] == s[k],
    decreases s.len(),
{
    if s.len() > 0 {
        let pre = s.drop_last();
        let last = s.last();
        lemma_mems_to_map(pre);
        assert(forall|k: int| 0 <= k < pre.len() ==> #[trigger] pre[k] == s[k]);
        assert(!mems_to_map(pre).contains_key(last.id)) by {
            if mems_to_map(pre).contains_key(last.id) {
                let k = choose|k: int| 0 <= k < pre.len() && (#[trigger] pre[k]).id == last.id;
                assert(s[k].id == s[s.len() - 1].id);
            }
        }
        assert forall|id: u128| mems_to_map(s).contains_key(id) implies exists|k: int|
            0 <= k < s.len() && (#[trigger] s[k]).id == id by {
            if id == last.id {
                assert(s[s.len() - 1].id == id);
            } else {
                let k = choose|k: int| 0 <= k < pre.len() && (#[trigger] pre[k]).id == id;
                assert(s[k].id == id);
            }
        }
        assert forall|k: int| 0 <= k < s.len() implies mems_to_map(s).contains_key(
            (#[trigger] s[k]).id,
        ) && mems_to_map(s)[s[k].id] == s[k] by {
            if k < s.len() - 1 {
                assert(pre[k] == s[k]);
                assert(s[k].id != last.id);
            }
        }
    }
}

} // verus!
