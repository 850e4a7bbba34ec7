use aichat::document::{RagDocument, RagFile};
use aichat::error::{ErrorKind, RagError};
use aichat::rag_data::RagData;
use aichat::vector_id::combine_vector_id;

fn file(path: &str, chunks: &[&str]) -> RagFile {
    RagFile::new(path.to_string(), chunks.iter().map(|c| RagDocument::new(c)).collect())
}

#[test]
fn new_store_is_empty() {
    let data = RagData::new("model", 100, 5);
    assert_eq!(data.model, "model");
    assert_eq!(data.chunk_size, 100);
    assert_eq!(data.chunk_overlap, 5);
    assert!(data.files.is_empty());
    assert!(data.vectors.is_empty());
}

#[test]
fn ingest_keys_vectors_by_chunk() {
    let mut data = RagData::new("model", 100, 5);
    let outcome = data.ingest(vec![file("/a", &["x", "y"])], vec![vec![1, 2], vec![3, 4]]);
    assert_eq!(outcome, Ok(()));
    let outcome = data.ingest(vec![file("/b", &["z"])], vec![vec![5, 6]]);
    assert_eq!(outcome, Ok(()));
    let keys: Vec<usize> = data.vectors.keys().copied().collect();
    assert_eq!(
        keys,
        vec![combine_vector_id(0, 0), combine_vector_id(0, 1), combine_vector_id(1, 0)]
    );
    assert_eq!(data.vectors[&combine_vector_id(1, 0)], vec![5, 6]);
    assert_eq!(data.chunk_text(combine_vector_id(0, 1)), Some("y"));
    assert_eq!(data.chunk_text(combine_vector_id(1, 0)), Some("z"));
    assert_eq!(data.chunk_text(combine_vector_id(1, 1)), None);
    assert_eq!(data.chunk_text(combine_vector_id(2, 0)), None);
}

#[test]
fn ingest_refuses_known_path() {
    let mut data = RagData::new("model", 100, 5);
    assert_eq!(data.ingest(vec![file("/a", &["x"])], vec![vec![1]]), Ok(()));
    let outcome = data.ingest(vec![file("/a", &["y"])], vec![vec![2]]);
    assert_eq!(outcome, Err(RagError::DuplicatePath));
    assert_eq!(outcome.unwrap_err().kind(), ErrorKind::Index);
    assert_eq!(data.files.len(), 1);
    assert_eq!(data.vectors.len(), 1);
    let outcome = data.ingest(vec![file("/b", &["y"]), file("/b", &["z"])], vec![vec![2], vec![3]]);
    assert_eq!(outcome, Err(RagError::DuplicatePath));
    assert_eq!(data.files.len(), 1);
}

#[test]
fn ingest_refuses_wrong_shape() {
    let mut data = RagData::new("model", 100, 5);
    let outcome = data.ingest(vec![file("/a", &["x", "y"])], vec![vec![1]]);
    assert_eq!(outcome, Err(RagError::EmbeddingCount));
    let outcome = data.ingest(vec![file("/a", &["x", "y"])], vec![vec![1], vec![1, 2]]);
    assert_eq!(outcome, Err(RagError::EmbeddingDimension));
    assert_eq!(outcome.unwrap_err().kind(), ErrorKind::Embedding);
    assert!(data.files.is_empty());
    assert!(data.vectors.is_empty());
    assert_eq!(data.ingest(vec![file("/a", &["x"])], vec![vec![1, 2]]), Ok(()));
    let outcome = data.ingest(vec![file("/b", &["y"])], vec![vec![1, 2, 3]]);
    assert_eq!(outcome, Err(RagError::EmbeddingDimension));
    assert_eq!(data.files.len(), 1);
}

#[test]
fn ingest_of_nothing_changes_nothing() {
    let mut data = RagData::new("model", 100, 5);
    assert_eq!(data.ingest(vec![file("/a", &["x"])], vec![vec![1]]), Ok(()));
    assert_eq!(data.ingest(vec![], vec![]), Ok(()));
    assert_eq!(data.files.len(), 1);
    assert_eq!(data.vectors.len(), 1);
    assert!(data.has_path("/a"));
    assert!(!data.has_path("/b"));
}

#[test]
fn enumerate_ids_follows_files_and_chunks() {
    let files = vec![file("/a", &["x", "y"]), file("/b", &[]), file("/c", &["z"])];
    let ids = RagData::enumerate_ids(4, &files).expect("indices that fit");
    assert_eq!(ids, vec![combine_vector_id(4, 0), combine_vector_id(4, 1), combine_vector_id(6, 0)]);
    let limit = 1usize << (usize::BITS / 2);
    assert_eq!(RagData::enumerate_ids(limit - 2, &files), None);
    assert!(RagData::enumerate_ids(limit - 3, &files).is_some());
}
