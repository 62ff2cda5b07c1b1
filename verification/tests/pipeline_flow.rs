use photo_scanner::batch::{build_inputs, chunk_paths, evaluate_file, EmbeddingTask, FileEntry};
use photo_scanner::models::{sort_by_score, Payload, VectorInput, VectorOutput};
use photo_scanner::pipeline::{commit_chunk, plan_chunk, prepare_query_response, QueryOutcome};
use photo_scanner::store::MemoryStore;

fn file(path: &str, description: Option<&str>) -> FileEntry {
    FileEntry { path: path.to_string(), description: description.map(str::to_string) }
}

#[test]
fn test_chunk_paths() {
    let paths: Vec<String> = (0..5).map(|i| format!("/p/{}.jpg", i)).collect();
    let chunks = chunk_paths(paths.clone(), 2);
    assert_eq!(chunks.len(), 3);
    assert_eq!(chunks[0], vec!["/p/0.jpg", "/p/1.jpg"]);
    assert_eq!(chunks[1], vec!["/p/2.jpg", "/p/3.jpg"]);
    assert_eq!(chunks[2], vec!["/p/4.jpg"]);

    let whole = chunk_paths(paths, 25);
    assert_eq!(whole.len(), 1);
    assert_eq!(whole[0].len(), 5);
}

#[test]
fn test_batch_pairing_is_positional() {
    let tasks = vec![
        EmbeddingTask { id: 1, description: "one".to_string(), path: "/d/a.jpg".to_string() },
        EmbeddingTask { id: 2, description: "two".to_string(), path: "/d/b.jpg".to_string() },
        EmbeddingTask { id: 3, description: "three".to_string(), path: "/d/c.jpg".to_string() },
    ];
    let embeddings = vec![vec![10u32], vec![20u32], vec![30u32]];
    let inputs = build_inputs(tasks, embeddings);
    assert_eq!(inputs.len(), 3);
    assert_eq!((inputs[0].id, inputs[0].embedding[0]), (1, 10));
    assert_eq!((inputs[1].id, inputs[1].embedding[0]), (2, 20));
    assert_eq!((inputs[2].id, inputs[2].embedding[0]), (3, 30));
    assert_eq!(inputs[1].payload.get("description"), Some("two".to_string()));
    assert_eq!(inputs[1].payload.get("path"), Some("/d/b.jpg".to_string()));
    assert_eq!(inputs[1].payload.get("folder"), Some("d".to_string()));

    // Scrambling the response order scrambles the stored association
    // identically: embedding i always lands on task i.
    let tasks = vec![
        EmbeddingTask { id: 1, description: "one".to_string(), path: "/d/a.jpg".to_string() },
        EmbeddingTask { id: 2, description: "two".to_string(), path: "/d/b.jpg".to_string() },
        EmbeddingTask { id: 3, description: "three".to_string(), path: "/d/c.jpg".to_string() },
    ];
    let scrambled = vec![vec![30u32], vec![10u32], vec![20u32]];
    let inputs = build_inputs(tasks, scrambled);
    assert_eq!((inputs[0].id, inputs[0].embedding[0]), (1, 30));
    assert_eq!((inputs[1].id, inputs[1].embedding[0]), (2, 10));
    assert_eq!((inputs[2].id, inputs[2].embedding[0]), (3, 20));
}

#[test]
fn test_evaluate_file_decisions() {
    // Missing description: dropped.
    assert!(evaluate_file(&"/d/a.jpg".to_string(), &None, &None).is_none());

    // No existing point: pending.
    let t = evaluate_file(&"/d/a.jpg".to_string(), &Some("a canal in Venice".to_string()), &None)
        .unwrap();
    assert_eq!(t.description, "a canal in Venice");
    assert_eq!(t.path, "/d/a.jpg");

    // Existing point whose stored description contains the fresh one: dropped.
    let mut store = MemoryStore::new();
    assert!(store.create_collection("photos"));
    let mut payload = Payload::new();
    payload.insert("description".to_string(), "a canal in Venice".to_string());
    assert!(store.upsert_points("photos", &vec![VectorInput::new(t.id, vec![1], payload)]));
    let existing = store.find_by_id("photos", t.id);
    assert!(existing.is_some());
    assert!(evaluate_file(
        &"/d/a.jpg".to_string(),
        &Some("a canal in Venice".to_string()),
        &existing
    )
    .is_none());

    // A changed description is re-indexed.
    assert!(evaluate_file(
        &"/d/a.jpg".to_string(),
        &Some("a bridge in Venice".to_string()),
        &existing
    )
    .is_some());
}

#[test]
fn test_ingest_two_files_then_rerun() {
    // One file with a stored (non-generic) description, one with none:
    // after one run exactly one point exists; a second run adds nothing.
    let mut store = MemoryStore::new();
    assert!(store.create_collection("photos"));

    let files = vec![
        file("/corpus/rome/a.jpg", Some("a quiet street at dawn")),
        file("/corpus/rome/b.jpg", None),
    ];

    let tasks = plan_chunk(&store, "photos", &files);
    assert_eq!(tasks.len(), 1);
    assert_eq!(tasks[0].path, "/corpus/rome/a.jpg");

    let embeddings = vec![vec![5u32, 6, 7]];
    assert!(commit_chunk(&mut store, "photos", tasks, embeddings));

    let points = store.search_points("photos", &vec![], &Payload::new());
    assert_eq!(points.len(), 1);
    assert_eq!(
        points[0].payload.get("description"),
        Some("a quiet street at dawn".to_string())
    );
    assert_eq!(points[0].payload.get("folder"), Some("rome".to_string()));

    // Second run over the unchanged corpus: nothing is pending, and the
    // store keeps exactly the same single point.
    let tasks2 = plan_chunk(&store, "photos", &files);
    assert_eq!(tasks2.len(), 0);
    assert!(commit_chunk(&mut store, "photos", tasks2, vec![]));

    let points2 = store.search_points("photos", &vec![], &Payload::new());
    assert_eq!(points2.len(), 1);
    assert_eq!(points2[0].id, points[0].id);
    assert_eq!(
        points2[0].payload.get("description"),
        Some("a quiet street at dawn".to_string())
    );
}

#[test]
fn test_query_empty_collection_reports_no_matches() {
    let mut store = MemoryStore::new();
    assert!(store.create_collection("photos"));

    let mut results = store.search_points("photos", &vec![1u32, 2, 3], &Payload::new());
    assert!(results.is_empty());

    sort_by_score(&mut results);
    let outcome = prepare_query_response(&results);
    // No matching documents: the summarizer is not to be invoked.
    assert!(matches!(outcome, QueryOutcome::NoMatches));
}

fn scored(id: u64, score: f32, desc: &str) -> VectorOutput {
    let mut p = Payload::new();
    p.insert("description".to_string(), desc.to_string());
    VectorOutput { id, score: Some(score.to_bits()), payload: p }
}

#[test]
fn test_query_projects_descriptions_in_rank_order() {
    let mut results = vec![
        scored(1, 0.3, "third"),
        scored(2, 0.9, "first"),
        scored(3, 0.5, "second"),
    ];
    sort_by_score(&mut results);
    match prepare_query_response(&results) {
        QueryOutcome::Summarize(ds) => {
            assert_eq!(ds, vec!["first", "second", "third"]);
        },
        QueryOutcome::NoMatches => panic!("expected descriptions"),
    }
}
