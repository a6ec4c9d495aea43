//! Persistence-surface tests: backend configuration and the verified
//! snapshot/rebuild path.

use memory_module::model::{AgentProfile, AgentState, Memory};
use memory_module::store::MemoryStore;
use memory_module::storage::{FileBackend, SqliteBackend, StorageBackend, StoredData};
use memory_module::error::MemoryError;

fn quiet_state() -> AgentState {
    AgentState { current_age: 0, sleep_debt: 0, cortisol_level: 0, fatigue: 0, training_factor: 0 }
}

#[test]
fn file_backend_keeps_its_path() {
    let backend = FileBackend::new(String::from("memories.json"));
    assert_eq!(backend.path(), "memories.json");
}

#[test]
fn sqlite_backend_keeps_its_url() {
    let backend = SqliteBackend::new(String::from("sqlite://memories.db"));
    assert_eq!(backend.url(), "sqlite://memories.db");
}

#[test]
fn stored_data_roundtrip_rebuilds_the_store() {
    let mut store = MemoryStore::new(AgentProfile::default(), quiet_state());
    let memory = Memory::new(vec![100_000, 200_000], 0, 0, 1_000_000);
    let id = memory.id;
    store.add_memory(memory);

    let data = store.to_stored();
    let rebuilt = match MemoryStore::from_stored(data) {
        Ok(s) => s,
        Err(_) => panic!("rebuild"),
    };
    assert!(rebuilt.get_memory(id).is_some());
    assert!(rebuilt.get_memory(id ^ 1).is_none());
}

#[test]
fn from_stored_fails_closed_on_out_of_range_data() {
    let mut bad_profile = AgentProfile::default();
    bad_profile.c_base = 0;
    let data = StoredData {
        memories: Vec::new(),
        agent_profile: bad_profile,
        agent_state: quiet_state(),
    };
    let err = match MemoryStore::from_stored(data) {
        Ok(_) => panic!("out-of-range profile was accepted"),
        Err(e) => e,
    };
    assert!(matches!(err, MemoryError::Serialization(_)));

    let mut bad_memory = Memory::new(vec![], 0, 0, 0);
    bad_memory.memory_strength = 2_000_000;
    let data2 = StoredData {
        memories: vec![bad_memory],
        agent_profile: AgentProfile::default(),
        agent_state: quiet_state(),
    };
    let err2 = match MemoryStore::from_stored(data2) {
        Ok(_) => panic!("out-of-range record was accepted"),
        Err(e) => e,
    };
    assert!(matches!(err2, MemoryError::Serialization(_)));
}

struct CountingBackend {
    seen: std::cell::Cell<usize>,
}

impl StorageBackend for CountingBackend {
    fn load(&self) -> Result<StoredData, MemoryError> {
        Ok(StoredData {
            memories: Vec::new(),
            agent_profile: AgentProfile::default(),
            agent_state: AgentState::default(),
        })
    }
    fn save(&self, data: &StoredData) -> Result<(), MemoryError> {
        self.seen.set(data.memories.len());
        Ok(())
    }
}

#[test]
fn save_passes_the_snapshot_to_the_backend() {
    let mut store = MemoryStore::new(AgentProfile::default(), quiet_state());
    store.add_memory(Memory::new(vec![100_000], 0, 0, 1_000_000));
    let backend = CountingBackend { seen: std::cell::Cell::new(usize::MAX) };
    store.save(&backend).unwrap();
    assert_eq!(backend.seen.get(), 1);

    let loaded = match MemoryStore::load(&backend) {
        Ok(s) => s,
        Err(_) => panic!("load"),
    };
    assert!(loaded.agent_profile().is_wf());
}
