use vdb::engine::CosineDatabase;
use vdb::engine::EngineError;
use vdb::engine::evaluate;

fn texts(items: &[&str]) -> Vec<String> {
    let mut v = Vec::new();
    for t in items {
        v.push(t.to_string());
    }
    v
}

fn loaded_corpus() -> CosineDatabase {
    let mut db = CosineDatabase::new();
    let embeddings = vec![vec![1000, 0], vec![0, 1000], vec![700, 700]];
    db.load(&texts(&["cat", "dog", "car"]), &embeddings).unwrap();
    db
}

#[test]
fn load_appends_in_input_order() {
    let db = loaded_corpus();
    assert_eq!(db.documents.len(), 3);
    assert_eq!(db.documents[0].text, "cat");
    assert_eq!(db.documents[1].text, "dog");
    assert_eq!(db.documents[2].text, "car");
    assert_eq!(db.documents[0].id, "cat");
    assert_eq!(db.documents[0].embedding, vec![1000, 0]);
    assert_eq!(db.documents[0].score, 0);
    assert!(db.documents[0].metadata.is_empty());
}

#[test]
fn load_rejects_out_of_range_values_and_changes_nothing() {
    let mut db = loaded_corpus();
    let r = db.load(&texts(&["bad"]), &vec![vec![1001, 0]]);
    assert_eq!(r, Err(EngineError::ValueOutOfRange));
    assert_eq!(db.documents.len(), 3);
}

#[test]
fn load_rejects_dimension_mismatch_and_changes_nothing() {
    let mut db = loaded_corpus();
    let r = db.load(&texts(&["bad"]), &vec![vec![1, 2, 3]]);
    assert_eq!(r, Err(EngineError::DimensionMismatch));
    assert_eq!(db.documents.len(), 3);
}

#[test]
fn query_returns_nearest_document() {
    // A query vector closest in direction to the first document.
    let db = loaded_corpus();
    let result = db.query(&vec![900, 100], 1).unwrap();
    assert_eq!(result.len(), 1);
    assert_eq!(result[0].text, "cat");
    assert!(result[0].score > 0);
}

#[test]
fn query_sorts_by_descending_score() {
    let db = loaded_corpus();
    let result = db.query(&vec![900, 100], 3).unwrap();
    assert_eq!(result.len(), 3);
    assert_eq!(result[0].text, "cat");
    assert_eq!(result[1].text, "car");
    assert_eq!(result[2].text, "dog");
    assert!(result[0].score >= result[1].score);
    assert!(result[1].score >= result[2].score);
}

#[test]
fn query_breaks_ties_by_insertion_order() {
    let mut db = CosineDatabase::new();
    db.load(
        &texts(&["first", "second", "third"]),
        &vec![vec![1000, 0], vec![1000, 0], vec![0, 1000]],
    ).unwrap();
    let result = db.query(&vec![1000, 0], 3).unwrap();
    assert_eq!(result[0].text, "first");
    assert_eq!(result[1].text, "second");
    assert_eq!(result[2].text, "third");
    assert_eq!(result[0].score, result[1].score);
}

#[test]
fn query_length_is_min_of_n_and_corpus() {
    let db = loaded_corpus();
    assert_eq!(db.query(&vec![900, 100], 0).unwrap().len(), 0);
    assert_eq!(db.query(&vec![900, 100], 2).unwrap().len(), 2);
    assert_eq!(db.query(&vec![900, 100], 3).unwrap().len(), 3);
}

#[test]
fn query_beyond_corpus_size_returns_whole_corpus() {
    let db = loaded_corpus();
    let result = db.query(&vec![900, 100], 1000).unwrap();
    assert_eq!(result.len(), 3);
}

#[test]
fn query_on_empty_corpus_is_empty() {
    let db = CosineDatabase::new();
    let result = db.query(&vec![1, 2], 5).unwrap();
    assert_eq!(result.len(), 0);
}

#[test]
fn query_rejects_bad_embeddings() {
    let db = loaded_corpus();
    assert!(matches!(db.query(&vec![2000, 0], 1), Err(EngineError::ValueOutOfRange)));
    assert!(matches!(db.query(&vec![1, 2, 3], 1), Err(EngineError::DimensionMismatch)));
}

#[test]
fn query_does_not_change_stored_scores() {
    let db = loaded_corpus();
    let _ = db.query(&vec![900, 100], 3).unwrap();
    assert_eq!(db.documents[0].score, 0);
    assert_eq!(db.documents[1].score, 0);
    assert_eq!(db.documents[2].score, 0);
}

#[test]
fn unimplemented_operations_fail_loudly() {
    let db = loaded_corpus();
    assert_eq!(db.delete("cat"), Err(EngineError::NotImplemented));
    assert_eq!(db.count(), Err(EngineError::NotImplemented));
    assert_eq!(db.clear(), Err(EngineError::NotImplemented));
    assert_eq!(db.close(), Err(EngineError::NotImplemented));
    assert!(db.search("cat").is_err());
    assert!(db.get("cat").is_err());
    assert!(db.list().is_err());
    assert!(db.get_metadata("cat").is_err());
}

#[test]
fn evaluate_counts_exact_retrievals() {
    let db = loaded_corpus();
    let queries = vec![vec![1000, 0], vec![0, 1000], vec![0, 1000]];
    let references = texts(&["cat", "dog", "cat"]);
    // The first two queries retrieve their own documents; the third
    // retrieves "dog" but expects "cat".
    assert_eq!(evaluate(&db, &queries, &references), 2);
}
