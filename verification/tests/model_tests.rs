//! Record model and retention tests.

use memory_module::fixed::SCALE;
use memory_module::model::{AgentProfile, AgentState, Memory};

fn zero_state() -> AgentState {
    AgentState { current_age: 25_000_000, sleep_debt: 0, cortisol_level: 0, fatigue: 0, training_factor: 0 }
}

#[test]
fn test_memory_creation() {
    let vector: Vec<i64> = vec![100_000, 200_000, 300_000];
    let memory = Memory::new(vector.clone(), 500_000, 25_000_000, 1_000_000);

    assert_eq!(memory.emotion, 500_000);
    assert_eq!(memory.semantic_vector, vector);
    assert_eq!(memory.memory_strength, 1_000_000);
    assert!(memory.recall_history.is_empty());
}

#[test]
fn test_retrieval_recording() {
    let mut memory = Memory::new(vec![], 0, 25_000_000, 1_000_000);
    let rho: i64 = 100_000;

    memory.record_retrieval(rho);

    // 1.0 / 1.1 in fixed point, rounded toward zero
    assert_eq!(memory.memory_strength, 909_090);
    assert_eq!(memory.recall_history.len(), 1);
    assert_eq!(memory.retrieval_count, 1);
}

#[test]
fn model_test_retention_calculation() {
    let now: i64 = 1_700_000_000;
    let mut memory = Memory::new(vec![100_000, 200_000, 300_000], 500_000, 25_000_000, 1_000_000);

    // set a fixed timestamp one day in the past
    memory.timestamp = now - 86_400;

    let agent_state = AgentState {
        current_age: 30_000_000,
        sleep_debt: 200_000,
        cortisol_level: 100_000,
        fatigue: 300_000,
        training_factor: 400_000,
    };
    let agent_profile = AgentProfile::default();

    let retention = memory.calculate_retention(now, &agent_state, &agent_profile);

    assert!(retention > 0 && retention <= SCALE);
}

#[test]
fn retention_is_clamped_for_extreme_inputs() {
    let now: i64 = 1_700_000_000;
    let mut memory = Memory::new(vec![100_000], 1_000_000, 0, 1_000_000);
    memory.timestamp = now - 365 * 86_400;
    let state = zero_state();
    let profile = AgentProfile::default();

    let r = memory.calculate_retention(now, &state, &profile);
    assert!(0 <= r && r <= SCALE);

    // a future timestamp behaves like no elapsed time at all
    memory.timestamp = now + 86_400;
    let r2 = memory.calculate_retention(now, &state, &profile);
    assert!(0 <= r2 && r2 <= SCALE);
}

#[test]
fn reinforcement_strictly_weakens_strength() {
    let mut memory = Memory::new(vec![100_000], 0, 25_000_000, 1_000_000);
    let before_strength = memory.memory_strength;
    let before_count = memory.retrieval_count;
    let before_history = memory.recall_history.len();

    memory.record_retrieval(100_000);

    assert!(memory.memory_strength < before_strength);
    assert_eq!(memory.retrieval_count, before_count + 1);
    assert_eq!(memory.recall_history.len(), before_history + 1);

    // repeated reinforcement keeps weakening
    let mid = memory.memory_strength;
    memory.record_retrieval(100_000);
    assert!(memory.memory_strength < mid);
}

#[test]
fn emotion_and_capacity_are_clamped_at_creation() {
    let m = Memory::new(vec![], 5_000_000, 0, 9_000_000);
    assert_eq!(m.emotion, SCALE);
    assert_eq!(m.capacity_weight, SCALE);

    let m2 = Memory::new(vec![], -5_000_000, 0, -3);
    assert_eq!(m2.emotion, -SCALE);
    assert_eq!(m2.capacity_weight, 0);
}

#[test]
fn retention_has_exact_half_value_at_neutral_settings() {
    // with zero steepness the phase logistic sits at exactly 0.5, and every
    // other term evaluates to exactly 1.0, so retention is exactly 0.5
    let profile = AgentProfile {
        k: 0,
        a_mid: 0,
        epsilon: 0,
        theta_shock: 0,
        gamma: 0,
        eta: 0,
        c_base: 1_000_000,
        rho: 0,
        kappa: 0,
    };
    let state = zero_state();
    let now: i64 = 1_700_000_000;
    let mut memory = Memory::new(vec![100_000], 0, 0, 1_000_000);
    memory.timestamp = now;
    memory.decay_params.beta_0 = 0;

    let retention = memory.calculate_retention(now, &state, &profile);
    assert_eq!(retention, 500_000);
}
