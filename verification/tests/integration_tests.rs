//! Whole-engine tests across the store variants.

use memory_module::error::{MemoryError};
use memory_module::fixed::SCALE;
use memory_module::model::{AgentProfile, AgentState, Memory};
use memory_module::store::MemoryStore;
use memory_module::concurrent_store::ConcurrentMemoryStore;
use memory_module::sharded_store::ShardedMemoryStore;

const NOW: i64 = 1_700_000_000;

fn quiet_state(age_micro_years: i64) -> AgentState {
    AgentState {
        current_age: age_micro_years,
        sleep_debt: 0,
        cortisol_level: 0,
        fatigue: 0,
        training_factor: 0,
    }
}

#[test]
fn test_memory_lifecycle() {
    let profile = AgentProfile::default();
    let state = quiet_state(25_000_000);
    let mut store = MemoryStore::new(profile, state);

    let mut memory = Memory::new(vec![100_000, 200_000, 300_000], 500_000, 25_000_000, 1_000_000);
    memory.timestamp = NOW;
    let memory_id = memory.id;
    store.add_memory(memory);

    assert!(store.get_memory(memory_id).is_some());

    let results = store.find_relevant_at(&[100_000, 200_000, 300_000], 1, NOW).unwrap();
    assert_eq!(results.len(), 1);
    assert_eq!(results[0].1.id, memory_id);

    // retrieval updated the memory
    let found = store.get_memory(memory_id).unwrap();
    assert_eq!(found.recall_history.len(), 1);
    assert!(found.memory_strength < SCALE);

    // a very low threshold prunes nothing
    let threshold: i64 = 100;
    let pruned = store.maintain_at(threshold, NOW).unwrap();
    assert!(store.get_memory(memory_id).is_some(), "memory was pruned but should not have been");
    assert_eq!(pruned, 0, "expected no memories to be pruned with threshold {}", threshold);

    store.remove_memory(memory_id).unwrap();
    assert!(store.get_memory(memory_id).is_none());
}

#[test]
fn integration_test_test_retention_calculation() {
    let mut memory = Memory::new(vec![100_000, 200_000, 300_000], 500_000, 25_000_000, 1_000_000);
    memory.timestamp = NOW - 86_400;

    let agent_state = AgentState {
        current_age: 30_000_000,
        sleep_debt: 200_000,
        cortisol_level: 100_000,
        fatigue: 300_000,
        training_factor: 400_000,
    };
    let agent_profile = AgentProfile::default();

    let retention = memory.calculate_retention(NOW, &agent_state, &agent_profile);
    assert!(retention > 0 && retention <= SCALE);

    // strong emotion resists forgetting more than a mild one
    let mut emotional_memory = memory.clone();
    emotional_memory.emotion = 900_000;
    let emotional_retention = emotional_memory.calculate_retention(NOW, &agent_state, &agent_profile);
    assert!(emotional_retention > retention);
}

#[test]
fn test_find_relevant_batch() {
    let profile = AgentProfile::default();
    let state = quiet_state(25_000_000);

    let mut store = MemoryStore::new(profile, state);
    let mut m1 = Memory::new(vec![100_000, 200_000, 300_000], 0, 25_000_000, 1_000_000);
    m1.timestamp = NOW;
    let mut m2 = Memory::new(vec![200_000, 300_000, 400_000], 0, 25_000_000, 1_000_000);
    m2.timestamp = NOW;
    store.add_memory(m1);
    store.add_memory(m2);

    let queries: Vec<Vec<i64>> = vec![
        vec![100_000, 200_000, 300_000],
        vec![200_000, 300_000, 400_000],
    ];
    let results = store.find_relevant_batch(&queries, 1).unwrap();

    assert_eq!(results.len(), 2);
    assert_eq!(results[0].len(), 1);
    assert_eq!(results[1].len(), 1);
}

#[test]
fn test_concurrent_store_basic() {
    let profile = AgentProfile::default();
    let state = quiet_state(25_000_000);

    let mut store = ConcurrentMemoryStore::new(profile, state);
    let memory = Memory::new(vec![0, 1_000_000], 0, 25_000_000, 1_000_000);
    let id = memory.id;
    store.add_memory(memory);
    let retrieved = store.get_memory(id).expect("memory missing");
    assert_eq!(retrieved.id, id);
}

#[test]
fn test_sharded_store_basic() {
    let profile = AgentProfile::default();
    let state = quiet_state(25_000_000);

    let mut store = ShardedMemoryStore::new(profile, state, 4);
    let memory = Memory::new(vec![1_000_000, 0], 0, 25_000_000, 1_000_000);
    let id = memory.id;
    store.add_memory(memory);
    let retrieved = store.get_memory(id).expect("missing");
    assert_eq!(retrieved.id, id);
}

#[test]
fn cross_variant_ranked_queries_agree() {
    // identical insertion sequences and identical profile/state must give
    // identical orderings and identical eviction counts in all variants
    let profile = AgentProfile::default();
    let state = quiet_state(25_000_000);

    let mut single = MemoryStore::new(profile, state);
    let mut concurrent = ConcurrentMemoryStore::new(profile, state);
    let mut sharded = ShardedMemoryStore::new(profile, state, 3);

    let vectors: [Vec<i64>; 4] = [
        vec![100_000, 200_000, 300_000],
        vec![400_000, 500_000, 600_000],
        vec![700_000, 800_000, 900_000],
        vec![900_000, 100_000, 200_000],
    ];
    let emotions: [i64; 4] = [100_000, 800_000, -600_000, -900_000];
    let ages: [i64; 4] = [1, 30, 7, 2];

    for k in 0..4 {
        let mut m = Memory::new(vectors[k].clone(), emotions[k], 25_000_000, 1_000_000);
        m.timestamp = NOW - ages[k] * 86_400;
        single.add_memory(m.clone());
        concurrent.add_memory(m.clone());
        sharded.add_memory(m);
    }

    let q: Vec<i64> = vec![500_000, 600_000, 700_000];
    let r1 = single.find_relevant_at(&q, 3, NOW).unwrap();
    let r2 = concurrent.find_relevant_at(&q, 3, NOW).unwrap();
    let r3 = sharded.find_relevant_at(&q, 3, NOW).unwrap();

    let k1: Vec<(i64, u128)> = r1.iter().map(|p| (p.0, p.1.id)).collect();
    let k2: Vec<(i64, u128)> = r2.iter().map(|p| (p.0, p.1.id)).collect();
    let k3: Vec<(i64, u128)> = r3.iter().map(|p| (p.0, p.1.id)).collect();
    assert_eq!(k1, k2);
    assert_eq!(k1, k3);

    let c1 = single.maintain_at(5_000, NOW).unwrap();
    let c2 = concurrent.maintain_at(5_000, NOW).unwrap();
    let c3 = sharded.maintain_at(5_000, NOW).unwrap();
    assert_eq!(c1, c2);
    assert_eq!(c1, c3);
}

#[test]
fn concurrent_store_full_cycle() {
    let mut store = ConcurrentMemoryStore::new(AgentProfile::default(), quiet_state(25_000_000));
    let mut m = Memory::new(vec![100_000, 200_000], 0, 25_000_000, 1_000_000);
    m.timestamp = NOW;
    let id = m.id;
    store.add_memory(m);

    let res = store.find_relevant_at(&[100_000, 200_000], 5, NOW).unwrap();
    assert_eq!(res.len(), 1);
    assert_eq!(res[0].1.retrieval_count, 1);

    let err = store.remove_memory(7).unwrap_err();
    assert!(matches!(err, MemoryError::NotFound(7)));

    store.remove_memory(id).unwrap();
    assert!(store.get_memory(id).is_none());
}

#[test]
fn sharded_store_gathers_across_shards() {
    let mut store = ShardedMemoryStore::new(AgentProfile::default(), quiet_state(25_000_000), 5);
    let mut ids: Vec<u128> = Vec::new();
    for k in 0..10 {
        let mut m = Memory::new(vec![100_000 + k as i64, 200_000], 0, 25_000_000, 1_000_000);
        m.timestamp = NOW;
        ids.push(m.id);
        store.add_memory(m);
    }
    let res = store.find_relevant_at(&[100_000, 200_000], 10, NOW).unwrap();
    assert_eq!(res.len(), 10);
    for w in res.windows(2) {
        assert!(w[0].0 >= w[1].0);
    }
    for id in &ids {
        assert!(store.get_memory(*id).is_some());
    }
}

#[test]
fn test_prelude_reexports() {
    // the crate root re-exports the public surface
    let _: MemoryError = MemoryError::NotFound(7);
    let _ = memory_module::AgentProfile::default();
    let _ = memory_module::AgentState::default();
    let _ = memory_module::Memory::new(vec![], 0, 0, 0);
    let _ = memory_module::MemoryStore::default();
    let _ = memory_module::ConcurrentMemoryStore::new(
        AgentProfile::default(),
        AgentState::default(),
    );
    let _ = memory_module::ShardedMemoryStore::new(
        AgentProfile::default(),
        AgentState::default(),
        2,
    );
    let _ = memory_module::FileBackend::new(String::from("memories.json"));
    let _ = memory_module::SqliteBackend::new(String::from("sqlite::memory:"));
}
