use aichat::document::{RagDocument, RagFile};
use aichat::error::{settle, ErrorKind, RagError};
use aichat::model::Model;
use aichat::rag::{chunk_texts, collect_hits, join_texts, vector_index_parameters, Rag};
use aichat::rag_data::RagData;
use aichat::snapshot::encode_store;
use aichat::vector_id::combine_vector_id;
use indexmap::IndexMap;

fn file(path: &str, chunks: &[&str]) -> RagFile {
    RagFile::new(path.to_string(), chunks.iter().map(|c| RagDocument::new(c)).collect())
}

fn texts(items: &[&str]) -> Vec<String> {
    items.iter().map(|s| s.to_string()).collect()
}

fn store(name: &str) -> Rag {
    let mut data = RagData::new("openai:embed", 1000, 50);
    let files = vec![file("/docs/a.md", &["alpha", "beta"]), file("/docs/b.md", &["gamma"])];
    assert_eq!(data.ingest(files, vec![vec![1, 0], vec![0, 1], vec![1, 1]]), Ok(()));
    Rag::create(name, "/rags/docs.bin", data, Model::new("openai", "embed")).expect("a consistent store")
}

#[test]
fn create_keeps_what_it_is_given() {
    let rag = store("docs");
    assert_eq!(rag.name(), "docs");
    assert_eq!(rag.path(), "/rags/docs.bin");
    assert_eq!(rag.model().id(), "openai:embed");
    assert_eq!(rag.data().files.len(), 2);
    assert_eq!(rag.bm25().len(), 3);
    assert!(!rag.is_temp());
    assert!(store("temp").is_temp());
    assert!(!store("Temp").is_temp());
}

#[test]
fn create_refuses_inconsistent_data() {
    let mut data = RagData::new("m", 10, 1);
    data.files.push(file("/a", &["x"]));
    assert!(!data.is_consistent());
    assert!(matches!(
        Rag::create("docs", "/p", data, Model::new("c", "m")),
        Err(RagError::InvalidSnapshot)
    ));
    let mut data = RagData::new("m", 10, 1);
    data.vectors.insert(combine_vector_id(0, 0), vec![1]);
    assert!(!data.is_consistent());
    let mut data = RagData::new("m", 10, 1);
    assert_eq!(data.ingest(vec![file("/a", &["x", "y"])], vec![vec![1], vec![2]]), Ok(()));
    assert!(data.is_consistent());
    data.vectors.insert(combine_vector_id(0, 1), vec![1, 2]);
    assert!(!data.is_consistent());
    data.vectors.insert(combine_vector_id(0, 1), vec![3]);
    assert!(data.is_consistent());
    data.vectors.swap_indices(0, 1);
    assert!(!data.is_consistent());
    data.vectors.swap_indices(0, 1);
    data.files.push(file("/a", &[]));
    assert!(!data.is_consistent());
}

#[test]
fn temp_store_is_never_saved() {
    assert_eq!(store("temp").save(), None);
    let rag = store("docs");
    let bytes = rag.save().expect("a store that is saved");
    assert_eq!(bytes, encode_store(rag.data()));
    let restored = Rag::load("copy", "/elsewhere", Model::new("openai", "embed"), &bytes)
        .expect("a snapshot that was just written");
    assert_eq!(restored.name(), "copy");
    assert_eq!(restored.path(), "/elsewhere");
    assert_eq!(restored.data().model, "openai:embed");
    assert_eq!(restored.data().files.len(), 2);
    assert_eq!(restored.data().vectors, rag.data().vectors);
    assert_eq!(restored.bm25().ids(), rag.bm25().ids());
    let query = "alpha beta gamma delta";
    let left = restored.bm25().statistics(query);
    let right = rag.bm25().statistics(query);
    assert_eq!(left.lengths, right.lengths);
    assert_eq!(left.total_length, right.total_length);
    for (a, b) in left.terms.iter().zip(right.terms.iter()) {
        assert_eq!(a.document_frequency, b.document_frequency);
        assert_eq!(a.term_frequencies, b.term_frequencies);
    }
    assert_eq!(left.terms[0].term_frequencies, vec![1, 0, 0]);
}

#[test]
fn create_refuses_chunking_that_cannot_work() {
    let model = Model::new("c", "m");
    let outcome = Rag::create("d", "/p", RagData::new("m", 0, 0), model.clone());
    assert!(matches!(outcome, Err(RagError::InvalidChunkSize)));
    let outcome = Rag::create("d", "/p", RagData::new("m", 4, 4), model.clone());
    assert!(matches!(outcome, Err(RagError::InvalidChunkOverlap)));
    let bytes = encode_store(&RagData::new("m", 4, 5));
    assert!(matches!(Rag::load("d", "/p", model, &bytes), Err(RagError::InvalidChunkOverlap)));
}

#[test]
fn restore_refuses_broken_snapshots() {
    let model = Model::new("openai", "embed");
    assert!(matches!(Rag::load("x", "/p", model.clone(), &[1, 2, 3]), Err(RagError::InvalidSnapshot)));
    let mut data = RagData::new("m", 10, 1);
    data.files.push(file("/a", &["x"]));
    let bytes = encode_store(&data);
    assert!(matches!(Rag::load("x", "/p", model, &bytes), Err(RagError::InvalidSnapshot)));
}

#[test]
fn export_is_a_yaml_summary() {
    let rag = store("docs");
    let expected = "path: /rags/docs.bin\nmodel: openai:embed\nchunk_size: 1000\nchunk_overlap: 50\nfiles:\n- /docs/a.md\n- /docs/b.md\n";
    assert_eq!(rag.export(), Ok(expected.to_string()));
}

#[test]
fn known_paths_are_not_pending() {
    let rag = store("docs");
    let paths = texts(&["/docs/c.md", "/docs/a.md", "/docs/c.md", "/docs/d.md", "/docs/b.md"]);
    assert_eq!(rag.pending_paths(&paths), texts(&["/docs/c.md", "/docs/d.md"]));
    assert_eq!(rag.pending_paths(&texts(&["/docs/a.md"])), Vec::<String>::new());
    assert_eq!(rag.pending_paths(&vec![]), Vec::<String>::new());
}

#[test]
fn adding_a_path_twice_changes_nothing() {
    let mut rag = store("docs");
    let path = "/docs/c.md".to_string();
    let pending = rag.pending_paths(&vec![path.clone()]);
    assert_eq!(pending, vec![path.clone()]);
    let files = vec![file(&path, &["delta"])];
    assert_eq!(rag.add_files(files, vec![vec![5, 5]]), Ok(()));
    let after_first = encode_store(rag.data());
    assert_eq!(rag.bm25().len(), 4);
    assert_eq!(rag.pending_paths(&vec![path.clone()]), Vec::<String>::new());
    assert_eq!(rag.add_files(vec![], vec![]), Ok(()));
    assert_eq!(encode_store(rag.data()), after_first);
    let outcome = rag.add_files(vec![file(&path, &["delta"])], vec![vec![5, 5]]);
    assert_eq!(outcome, Err(RagError::DuplicatePath));
    assert_eq!(encode_store(rag.data()), after_first);
    assert_eq!(rag.bm25().len(), 4);
}

#[test]
fn add_files_keeps_the_store_on_error() {
    let mut rag = store("docs");
    let before = encode_store(rag.data());
    let outcome = rag.add_files(vec![file("/docs/c.md", &["x", "y"])], vec![vec![1, 2]]);
    assert_eq!(outcome, Err(RagError::EmbeddingCount));
    let outcome = rag.add_files(vec![file("/docs/c.md", &["x"])], vec![vec![1, 2, 3]]);
    assert_eq!(outcome, Err(RagError::EmbeddingDimension));
    assert_eq!(encode_store(rag.data()), before);
    assert_eq!(rag.add_files(vec![file("/docs/c.md", &["x"])], vec![vec![7, 8]]), Ok(()));
    assert_eq!(rag.data().vectors.get(&combine_vector_id(2, 0)), Some(&vec![7, 8]));
    assert_eq!(rag.data().chunk_text(combine_vector_id(2, 0)), Some("x"));
}

#[test]
fn files_are_split_by_extension() {
    let data = RagData::new("m", 2, 0);
    let rag = Rag::create("docs", "/p", data, Model::new("c", "m")).unwrap();
    let mut metadata = IndexMap::new();
    metadata.insert("k".to_string(), "v".to_string());
    let documents = vec![RagDocument::new("a\n## b c d e").with_metadata(metadata.clone())];
    let file = rag.split_file("/x.md".to_string(), "md", &documents);
    assert_eq!(file.path, "/x.md");
    let chunks: Vec<&str> = file.documents.iter().map(|d| d.page_content.as_str()).collect();
    assert_eq!(chunks, vec!["a", "b", "c", "d", "e"]);
    assert!(file.documents.iter().all(|d| d.metadata == metadata));
    let file = rag.split_file("/x.txt".to_string(), "txt", &documents);
    let chunks: Vec<&str> = file.documents.iter().map(|d| d.page_content.as_str()).collect();
    assert_eq!(chunks, vec!["a", "## b", "c", "d", "e"]);
    assert_eq!(rag.query_texts("x y. z"), texts(&["x", "y", "z"]));
    assert_eq!(rag.query_texts(""), Vec::<String>::new());
}

#[test]
fn hits_below_the_floor_are_dropped() {
    let lists = vec![vec![(1, 50), (2, 49), (3, 90)], vec![], vec![(4, 10), (1, 50)]];
    assert_eq!(collect_hits(&lists, 50), vec![1, 3, 1]);
    assert_eq!(collect_hits(&lists, 0), vec![1, 2, 3, 4, 1]);
    assert_eq!(collect_hits(&lists, 91), Vec::<usize>::new());
    assert_eq!(collect_hits(&vec![], 0), Vec::<usize>::new());
}

#[test]
fn search_joins_the_fused_chunks() {
    let rag = store("docs");
    let a0 = combine_vector_id(0, 0);
    let a1 = combine_vector_id(0, 1);
    let b0 = combine_vector_id(1, 0);
    let gone = combine_vector_id(5, 0);
    assert_eq!(rag.fuse(vec![a0, a1], vec![a1, b0], 3), texts(&["beta", "alpha", "gamma"]));
    assert_eq!(rag.fuse(vec![a0, a1], vec![a1, b0], 1), texts(&["beta"]));
    assert_eq!(rag.fuse(vec![gone, a0], vec![gone], 3), texts(&["alpha"]));
    assert_eq!(rag.fuse(vec![], vec![], 3), Vec::<String>::new());
    assert_eq!(rag.search(vec![a0, a1], vec![a1, b0], 3), "beta\n\nalpha\n\ngamma");
    assert_eq!(rag.search(vec![], vec![gone], 3), "");
    assert_eq!(join_texts(&texts(&["a", "", "b"]), ", "), "a, , b");
    assert_eq!(join_texts(&vec![], ", "), "");
}

#[test]
fn chunk_texts_follow_the_identifiers() {
    let files = vec![file("/a", &["x", "y"]), file("/b", &[]), file("/c", &["z"])];
    assert_eq!(chunk_texts(&files), texts(&["x", "y", "z"]));
    assert_eq!(chunk_texts(&vec![]), Vec::<String>::new());
}

#[test]
fn vector_index_is_built_with_fixed_parameters() {
    let parameters = vector_index_parameters(12);
    assert_eq!(parameters.max_nb_connection, 32);
    assert_eq!(parameters.capacity, 12);
    assert_eq!(parameters.max_layer, 16);
    assert_eq!(parameters.ef_construction, 200);
    assert_eq!(parameters.ef_search, 30);
}

#[test]
fn search_that_is_cancelled_is_aborted() {
    let rag = store("docs");
    let before = encode_store(rag.data());
    let runtime = tokio::runtime::Builder::new_current_thread().enable_time().build().unwrap();
    let finished = runtime.block_on(async {
        let work = async {
            let texts = rag.query_texts("alpha beta");
            tokio::time::sleep(std::time::Duration::from_millis(100)).await;
            rag.search(vec![combine_vector_id(0, 0); texts.len()], vec![], 3)
        };
        tokio::time::timeout(std::time::Duration::from_millis(10), work).await.ok()
    });
    let outcome = settle(finished);
    assert_eq!(outcome, Err(RagError::Aborted));
    assert_eq!(outcome.unwrap_err().kind(), ErrorKind::Aborted);
    assert_eq!(RagError::Aborted.message(), "Aborted!");
    assert_eq!(encode_store(rag.data()), before);
    assert_eq!(settle(Some(7)), Ok(7));
}

#[test]
fn every_error_has_its_kind() {
    let kinds = [
        (RagError::NoEmbeddingModel, ErrorKind::Config),
        (RagError::InvalidChunkSize, ErrorKind::Config),
        (RagError::InvalidChunkOverlap, ErrorKind::Config),
        (RagError::InvalidBatchSize, ErrorKind::Config),
        (RagError::ReadFailed, ErrorKind::Io),
        (RagError::LoadFailed, ErrorKind::Load),
        (RagError::InvalidSnapshot, ErrorKind::Io),
        (RagError::Export, ErrorKind::Io),
        (RagError::EmbeddingCount, ErrorKind::Embedding),
        (RagError::EmbeddingDimension, ErrorKind::Embedding),
        (RagError::DuplicatePath, ErrorKind::Index),
        (RagError::TooManyChunks, ErrorKind::Index),
        (RagError::ScoreCount, ErrorKind::Index),
        (RagError::Aborted, ErrorKind::Aborted),
        (RagError::ExceedMaxInputTokens, ErrorKind::LimitExceeded),
    ];
    for (error, kind) in kinds {
        assert_eq!(error.kind(), kind);
        assert!(!error.message().is_empty());
    }
}

#[test]
fn init_makes_an_empty_store() {
    let rag = Rag::init("docs", "/rags/docs.bin", Model::new("openai", "embed"), 1000, 50)
        .expect("chunk parameters that fit");
    assert_eq!(rag.name(), "docs");
    assert_eq!(rag.path(), "/rags/docs.bin");
    assert_eq!(rag.data().model, "openai:embed");
    assert_eq!(rag.data().chunk_size, 1000);
    assert_eq!(rag.data().chunk_overlap, 50);
    assert!(rag.data().files.is_empty());
    assert!(rag.data().vectors.is_empty());
    assert_eq!(rag.bm25().len(), 0);
    let model = Model::new("openai", "embed");
    assert!(matches!(Rag::init("d", "/p", model.clone(), 0, 0), Err(RagError::InvalidChunkSize)));
    assert!(matches!(Rag::init("d", "/p", model.clone(), 5, 5), Err(RagError::InvalidChunkOverlap)));
    assert!(matches!(Rag::init("d", "/p", model, 5, 9), Err(RagError::InvalidChunkOverlap)));
}

#[test]
fn text_search_gives_distinct_chunks_of_the_store() {
    let rag = store("docs");
    let a0 = combine_vector_id(0, 0);
    let a1 = combine_vector_id(0, 1);
    let b0 = combine_vector_id(1, 0);
    assert_eq!(rag.text_search(&vec![5, 9, 5], 3, None), Ok(vec![a1, a0, b0]));
    assert_eq!(rag.text_search(&vec![5, 9, 5], 2, None), Ok(vec![a1, a0]));
    assert_eq!(rag.text_search(&vec![5, 9, 5], 3, Some(6)), Ok(vec![a1]));
    assert_eq!(rag.text_search(&vec![5, 9, 5], 3, Some(0)), rag.text_search(&vec![5, 9, 5], 3, None));
    assert_eq!(rag.text_search(&vec![5, 9], 3, None), Err(RagError::ScoreCount));
    for id in rag.text_search(&vec![1, 1, 1], 9, None).unwrap() {
        assert!(rag.data().vectors.contains_key(&id));
        assert!(rag.data().chunk_text(id).is_some());
    }
}
