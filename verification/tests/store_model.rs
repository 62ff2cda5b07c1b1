use photo_scanner::models::{Payload, VectorInput};
use photo_scanner::store::MemoryStore;

#[test]
fn test_vector_db_mock() {
    let mut vector_db_mock = MemoryStore::new();

    let id = 1u64;
    let collection = "test";

    // Create collection
    let created = vector_db_mock.create_collection(collection);
    assert!(created);

    // Test upsert_points
    let input = VectorInput::new(
        id,
        vec![0.1f32.to_bits(), 0.2f32.to_bits(), 0.3f32.to_bits()],
        Payload::new(),
    );
    let inserted = vector_db_mock.upsert_points("test", &vec![input]);
    assert!(inserted);

    // Test search_points
    let query = vec![0.1f32.to_bits(), 0.2f32.to_bits(), 0.3f32.to_bits()];
    let outputs = vector_db_mock.search_points("test", &query, &Payload::new());
    assert_eq!(outputs.len(), 1);
    assert_eq!(outputs[0].id, id);

    // Test upsert_points with existing ID
    let mut payload = Payload::new();
    payload.insert("key".to_string(), "value".to_string());
    let input = VectorInput::new(
        id,
        vec![0.1f32.to_bits(), 0.2f32.to_bits(), 0.3f32.to_bits()],
        payload,
    );

    let upserted = vector_db_mock.upsert_points("test", &vec![input]);
    assert!(upserted);

    // Test get point
    let point = vector_db_mock.find_by_id("test", id);

    assert!(point.is_some());
}

#[test]
fn test_upsert_replaces_by_id() {
    let mut store = MemoryStore::new();
    assert!(store.create_collection("photos"));

    let mut p1 = Payload::new();
    p1.insert("description".to_string(), "first".to_string());
    let mut p2 = Payload::new();
    p2.insert("description".to_string(), "second".to_string());

    assert!(store.upsert_points("photos", &vec![VectorInput::new(7, vec![1], p1)]));
    assert!(store.upsert_points("photos", &vec![VectorInput::new(7, vec![2], p2)]));

    let results = store.search_points("photos", &vec![], &Payload::new());
    assert_eq!(results.len(), 1);
    assert_eq!(results[0].id, 7);
    assert_eq!(results[0].payload.get("description"), Some("second".to_string()));
}

#[test]
fn test_find_by_id_misses() {
    let mut store = MemoryStore::new();
    assert!(store.create_collection("photos"));
    assert!(store.find_by_id("photos", 42).is_none());
}

#[test]
fn test_delete_collection() {
    let mut store = MemoryStore::new();
    assert!(store.create_collection("photos"));
    assert!(store.delete_collection("photos"));
    // Deleting again reports that nothing existed.
    assert!(!store.delete_collection("photos"));
    // A missing collection yields no search results.
    let results = store.search_points("photos", &vec![], &Payload::new());
    assert!(results.is_empty());
}
