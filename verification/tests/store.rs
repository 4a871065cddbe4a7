use loom_core::store::{FileStore, MemoryStore};

#[test]
fn memory_store_round_trips() {
    let mut store = MemoryStore::new();
    store
        .write("logical/containers.yaml", "containers: []")
        .unwrap();
    assert_eq!(
        store.read("logical/containers.yaml").unwrap(),
        "containers: []"
    );
}

#[test]
fn reading_a_missing_file_reports_the_path_and_not_found() {
    let store = MemoryStore::new();
    let err = store.read("project.yaml").unwrap_err();
    assert_eq!(err.path, "project.yaml");
    assert!(err.is_not_found(), "必須能跟其他失敗分開");
}

#[test]
fn paths_come_back_in_a_stable_order() {
    let mut store = MemoryStore::new();
    store.write("environments/prod.yaml", "").unwrap();
    store.write("project.yaml", "").unwrap();
    store.write("environments/dev.yaml", "").unwrap();

    assert_eq!(
        store.paths(),
        vec![
            "environments/dev.yaml",
            "environments/prod.yaml",
            "project.yaml"
        ]
    );
}

#[test]
fn rewriting_the_same_path_overwrites() {
    let mut store = MemoryStore::new();
    store.write("a.yaml", "舊的").unwrap();
    store.write("a.yaml", "新的").unwrap();
    assert_eq!(store.get("a.yaml"), Some("新的"));
    assert_eq!(store.paths().len(), 1);
}

#[test]
fn a_written_file_reads_back_and_others_stay_missing() {
    let mut store = MemoryStore::new();
    assert!(store.is_empty());
    store.write("a.yaml", "x").unwrap();
    assert!(!store.is_empty());
    assert_eq!(store.get("b.yaml"), None);
    assert!(store.read("b.yaml").unwrap_err().is_not_found());
}
