use vector_db_core::errors::VectorDBError;
use vector_db_core::store::VectorDB;

fn bits(v: &[f32]) -> Vec<u32> {
    v.iter().map(|x| x.to_bits()).collect()
}

fn cosine_bits(q: &[f32], e: &[u32]) -> u32 {
    let ev: Vec<f32> = e.iter().map(|b| f32::from_bits(*b)).collect();
    let dot: f32 = q.iter().zip(ev.iter()).map(|(a, b)| a * b).sum();
    let norm_q: f32 = q.iter().map(|a| a * a).sum::<f32>().sqrt();
    let norm_e: f32 = ev.iter().map(|a| a * a).sum::<f32>().sqrt();
    (dot / (norm_q * norm_e)).to_bits()
}

fn search(db: &VectorDB, q: &[f32], k: usize) -> Result<Vec<(String, f32)>, VectorDBError> {
    let targets = db.search_targets(q.len())?;
    let scored: Vec<(String, u32)> = targets
        .iter()
        .map(|(id, emb)| (id.clone(), cosine_bits(q, emb)))
        .collect();
    Ok(db
        .search_nearest(scored, k)
        .into_iter()
        .map(|(id, s)| (id, f32::from_bits(s)))
        .collect())
}

fn meta(pairs: &[(&str, &str)]) -> Vec<(String, String)> {
    pairs
        .iter()
        .map(|(k, v)| (k.to_string(), v.to_string()))
        .collect()
}

#[test]
fn test_vector_operations() {
    let mut db = VectorDB::new(3);

    let metadata = meta(&[("type", "test")]);

    db.insert("vec1".to_string(), bits(&[1.0, 0.0, 0.0]), metadata.clone())
        .unwrap();

    let vector = db.get("vec1").unwrap();
    assert_eq!(vector.embedding, bits(&[1.0, 0.0, 0.0]));

    let results = search(&db, &[1.0, 0.1, 0.0], 1).unwrap();
    assert_eq!(results[0].0, "vec1");
}

#[test]
fn test_dimension_mismatch_insert() {
    let mut db = VectorDB::new(3);
    let r = db.insert("short".to_string(), bits(&[1.0, 2.0]), meta(&[]));
    assert_eq!(
        r,
        Err(VectorDBError::DimensionMismatch { expected: 3, got: 2 })
    );
    // the failed insert must not have altered the store
    assert!(matches!(db.get("short"), Err(VectorDBError::NotFound(_))));
}

#[test]
fn test_dimension_mismatch_search() {
    let db = VectorDB::new(3);
    let r = search(&db, &[1.0, 0.0], 1);
    assert_eq!(
        r,
        Err(VectorDBError::DimensionMismatch { expected: 3, got: 2 })
    );
}

#[test]
fn test_insert_get_round_trip() {
    let mut db = VectorDB::new(4);
    let emb = bits(&[0.25, -1.5, 3.0, 0.0]);
    let md = meta(&[("lang", "en"), ("source", "unit")]);
    db.insert("doc-1".to_string(), emb.clone(), md.clone()).unwrap();
    let rec = db.get("doc-1").unwrap();
    assert_eq!(rec.id, "doc-1");
    assert_eq!(rec.embedding, emb);
    assert_eq!(rec.metadata, md);
}

#[test]
fn test_overwrite_replaces_everything() {
    let mut db = VectorDB::new(2);
    db.insert(
        "x".to_string(),
        bits(&[1.0, 0.0]),
        meta(&[("old", "yes"), ("keep", "no")]),
    )
    .unwrap();
    db.insert("x".to_string(), bits(&[0.0, 1.0]), meta(&[("new", "yes")]))
        .unwrap();
    let rec = db.get("x").unwrap();
    assert_eq!(rec.embedding, bits(&[0.0, 1.0]));
    assert_eq!(rec.metadata, meta(&[("new", "yes")]));
    // still a single record
    let results = search(&db, &[1.0, 1.0], 10).unwrap();
    assert_eq!(results.len(), 1);
}

#[test]
fn test_delete_removes_visibility() {
    let mut db = VectorDB::new(3);
    db.insert("a".to_string(), bits(&[1.0, 0.0, 0.0]), meta(&[]))
        .unwrap();
    db.insert("b".to_string(), bits(&[0.0, 1.0, 0.0]), meta(&[]))
        .unwrap();

    assert_eq!(db.delete("a"), Ok(()));
    assert!(matches!(db.get("a"), Err(VectorDBError::NotFound(_))));
    let results = search(&db, &[1.0, 0.0, 0.0], 10).unwrap();
    assert!(results.iter().all(|(id, _)| id != "a"));
    assert_eq!(results.len(), 1);
    // deleting again reports the id as missing
    assert_eq!(db.delete("a"), Err(VectorDBError::NotFound("a".to_string())));
}

#[test]
fn test_search_ordering() {
    let mut db = VectorDB::new(3);
    db.insert("a".to_string(), bits(&[1.0, 0.0, 0.0]), meta(&[]))
        .unwrap();
    db.insert("b".to_string(), bits(&[0.0, 1.0, 0.0]), meta(&[]))
        .unwrap();
    db.insert("c".to_string(), bits(&[0.9, 0.1, 0.0]), meta(&[]))
        .unwrap();

    let results = search(&db, &[1.0, 0.0, 0.0], 2).unwrap();
    assert_eq!(results.len(), 2);
    assert_eq!(results[0].0, "a");
    assert_eq!(results[1].0, "c");
    assert!((results[0].1 - 1.0).abs() < 1e-6);
    assert!(results[0].1 > results[1].1);
}

#[test]
fn test_k_truncation() {
    let mut db = VectorDB::new(2);
    db.insert("p".to_string(), bits(&[1.0, 0.0]), meta(&[])).unwrap();
    db.insert("q".to_string(), bits(&[0.0, 1.0]), meta(&[])).unwrap();
    db.insert("r".to_string(), bits(&[0.5, 0.5]), meta(&[])).unwrap();

    let results = search(&db, &[1.0, 0.0], 10).unwrap();
    assert_eq!(results.len(), 3);
    let none = search(&db, &[1.0, 0.0], 0).unwrap();
    assert_eq!(none.len(), 0);
}

#[test]
fn test_not_found_on_empty_store() {
    let mut db = VectorDB::new(8);
    assert_eq!(
        db.get("anything"),
        Err(VectorDBError::NotFound("anything".to_string()))
    );
    assert_eq!(
        db.delete("anything"),
        Err(VectorDBError::NotFound("anything".to_string()))
    );
}

#[test]
fn test_nan_similarity_ranks_last() {
    let mut db = VectorDB::new(3);
    // a zero-norm embedding yields a NaN cosine similarity against any query
    db.insert("zero".to_string(), bits(&[0.0, 0.0, 0.0]), meta(&[]))
        .unwrap();
    db.insert("unit".to_string(), bits(&[1.0, 0.0, 0.0]), meta(&[]))
        .unwrap();
    db.insert("anti".to_string(), bits(&[-1.0, 0.0, 0.0]), meta(&[]))
        .unwrap();

    let results = search(&db, &[1.0, 0.0, 0.0], 3).unwrap();
    assert_eq!(results.len(), 3);
    assert_eq!(results[0].0, "unit");
    assert_eq!(results[1].0, "anti");
    assert_eq!(results[2].0, "zero");
    assert!(results[2].1.is_nan());
}

#[test]
fn test_repeated_reads_identical() {
    // against an unchanged store, reads are pure: repeating the same
    // search or lookup yields identical results every time
    let mut db = VectorDB::new(3);
    db.insert("a".to_string(), bits(&[1.0, 0.0, 0.0]), meta(&[("k", "v")]))
        .unwrap();
    db.insert("b".to_string(), bits(&[0.0, 1.0, 0.0]), meta(&[]))
        .unwrap();

    let first = search(&db, &[0.7, 0.7, 0.0], 2).unwrap();
    for _ in 0..10 {
        assert_eq!(search(&db, &[0.7, 0.7, 0.0], 2).unwrap(), first);
        assert_eq!(db.get("a").unwrap(), db.get("a").unwrap());
    }
}

#[test]
fn test_error_variants() {
    let nf = VectorDBError::NotFound("k1".to_string());
    assert_eq!(nf, VectorDBError::NotFound("k1".to_string()));
    let dm = VectorDBError::DimensionMismatch { expected: 768, got: 3 };
    assert!(matches!(
        dm,
        VectorDBError::DimensionMismatch { expected: 768, got: 3 }
    ));
    let db_err = VectorDBError::DatabaseError("lock poisoned".to_string());
    assert!(matches!(db_err, VectorDBError::DatabaseError(_)));
}
