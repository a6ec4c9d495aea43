//! Exclusive-store tests: lifecycle, ranked retrieval, maintenance, and
//! error reporting.

use memory_module::error::MemoryError;
use memory_module::fixed::SCALE;
use memory_module::model::{AgentProfile, AgentState, Memory};
use memory_module::store::MemoryStore;

const NOW: i64 = 1_700_000_000;

fn test_state() -> AgentState {
    AgentState {
        current_age: 30_000_000,
        sleep_debt: 0,
        cortisol_level: 0,
        fatigue: 0,
        training_factor: 0,
    }
}

fn create_test_memory(emotion: i64, days_old: i64) -> Memory {
    let mut memory = Memory::new(vec![100_000, 200_000, 300_000], emotion, 25_000_000, 1_000_000);
    memory.timestamp = NOW - days_old * 86_400;
    memory
}

#[test]
fn test_add_and_retrieve_memory() {
    let mut store = MemoryStore::new(AgentProfile::default(), test_state());

    let memory = create_test_memory(500_000, 1);
    let id = memory.id;

    store.add_memory(memory);
    assert!(store.get_memory(id).is_some());

    store.remove_memory(id).unwrap();
    assert!(store.get_memory(id).is_none());
}

#[test]
fn test_find_relevant() {
    let mut store = MemoryStore::new(AgentProfile::default(), test_state());

    store.add_memory(create_test_memory(500_000, 1));
    store.add_memory(create_test_memory(-200_000, 2));
    store.add_memory(create_test_memory(800_000, 3));

    let results = store.find_relevant_at(&[100_000, 200_000, 300_000], 2, NOW).unwrap();
    assert_eq!(results.len(), 2);

    // sorted by relevance
    assert!(results[0].0 >= results[1].0);
}

#[test]
fn test_maintenance() {
    let mut store = MemoryStore::new(AgentProfile::default(), test_state());

    // a recent memory
    store.add_memory(create_test_memory(500_000, 1));

    // a very old memory
    let mut old_memory = create_test_memory(500_000, 1);
    old_memory.timestamp = NOW - 365 * 86_400;
    let old_id = old_memory.id;
    store.add_memory(old_memory);

    let pruned = store.maintain_at(100_000, NOW).unwrap();

    assert!(pruned > 0);
    assert!(store.get_memory(old_id).is_none());
}

#[test]
fn ranked_query_scenario() {
    // four records; the first is back-dated thirty days
    let mut store = MemoryStore::new(AgentProfile::default(), test_state());

    let mut m1 = Memory::new(vec![100_000, 200_000, 300_000], 100_000, 25_000_000, 1_000_000);
    m1.timestamp = NOW - 30 * 86_400;
    let id1 = m1.id;
    let mut m2 = Memory::new(vec![400_000, 500_000, 600_000], 800_000, 25_000_000, 1_000_000);
    m2.timestamp = NOW;
    let id2 = m2.id;
    let mut m3 = Memory::new(vec![700_000, 800_000, 900_000], -600_000, 25_000_000, 1_000_000);
    m3.timestamp = NOW;
    let id3 = m3.id;
    let mut m4 = Memory::new(vec![900_000, 100_000, 200_000], -900_000, 25_000_000, 1_000_000);
    m4.timestamp = NOW;
    store.add_memory(m1);
    store.add_memory(m2);
    store.add_memory(m3);
    store.add_memory(m4);

    let results = store.find_relevant_at(&[500_000, 600_000, 700_000], 3, NOW).unwrap();

    // exactly three results, ordered by descending score
    assert_eq!(results.len(), 3);
    assert!(results[0].0 >= results[1].0);
    assert!(results[1].0 >= results[2].0);

    // the two records whose vectors sit closest to the query outrank the
    // back-dated record once decay is applied: it is not returned at all
    assert!(results.iter().any(|r| r.1.id == id2));
    assert!(results.iter().any(|r| r.1.id == id3));
    assert!(results.iter().all(|r| r.1.id != id1));
}

#[test]
fn ranked_query_reinforces_only_returned_records() {
    let mut store = MemoryStore::new(AgentProfile::default(), test_state());
    let m1 = create_test_memory(0, 1);
    let id1 = m1.id;
    let mut m2 = Memory::new(vec![-100_000, -200_000, -300_000], 0, 25_000_000, 1_000_000);
    m2.timestamp = NOW - 86_400;
    let id2 = m2.id;
    store.add_memory(m1);
    store.add_memory(m2);

    let results = store.find_relevant_at(&[100_000, 200_000, 300_000], 1, NOW).unwrap();
    assert_eq!(results.len(), 1);
    assert_eq!(results[0].1.id, id1);

    // the returned record was reinforced, the other was not
    let kept1 = store.get_memory(id1).unwrap();
    assert_eq!(kept1.retrieval_count, 1);
    assert!(kept1.memory_strength < SCALE);
    let kept2 = store.get_memory(id2).unwrap();
    assert_eq!(kept2.retrieval_count, 0);
    assert_eq!(kept2.memory_strength, SCALE);
}

#[test]
fn maintenance_at_floor_evicts_nothing() {
    let mut store = MemoryStore::new(AgentProfile::default(), test_state());
    store.add_memory(create_test_memory(500_000, 1));
    store.add_memory(create_test_memory(0, 365));

    let pruned = store.maintain_at(0, NOW).unwrap();
    assert_eq!(pruned, 0);
}

#[test]
fn maintenance_rejects_out_of_range_thresholds() {
    let mut store = MemoryStore::new(AgentProfile::default(), test_state());

    let too_low = store.maintain(-1).unwrap_err();
    assert!(too_low.is_invalid_parameter());

    let too_high = store.maintain(SCALE + 1).unwrap_err();
    assert!(too_high.is_invalid_parameter());
}

#[test]
fn remove_unknown_id_reports_not_found() {
    let mut store = MemoryStore::new(AgentProfile::default(), test_state());
    let err = store.remove_memory(424_242).unwrap_err();
    assert!(err.is_not_found());
    assert!(!err.is_invalid_parameter());
    assert_eq!(err, MemoryError::NotFound(424_242));
}

#[test]
fn zero_limit_is_an_invalid_parameter() {
    let mut store = MemoryStore::new(AgentProfile::default(), test_state());
    store.add_memory(create_test_memory(0, 1));
    let err = store.find_relevant(&[100_000, 200_000, 300_000], 0).unwrap_err();
    assert!(err.is_invalid_parameter());
}

#[test]
fn update_agent_state_replaces_wholesale() {
    let mut store = MemoryStore::new(AgentProfile::default(), test_state());
    let fresh = AgentState {
        current_age: 40_000_000,
        sleep_debt: 100_000,
        cortisol_level: 200_000,
        fatigue: 300_000,
        training_factor: 400_000,
    };
    store.update_agent_state(fresh);
    assert_eq!(*store.agent_state(), fresh);
    assert_eq!(store.agent_profile().k, 500_000);
}
