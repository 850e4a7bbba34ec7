use aichat::document::{RagDocument, RagFile};
use aichat::error::RagError;
use aichat::rag_data::RagData;
use aichat::snapshot::{decode_store, encode_store};
use aichat::vector_id::combine_vector_id;
use hnsw_rs::prelude::{DistCosine, Hnsw};
use indexmap::IndexMap;

fn unit_vector(axis: usize) -> Vec<u32> {
    (0..4).map(|i| if i == axis { 1.0f32.to_bits() } else { 0.0f32.to_bits() }).collect()
}

fn sample_store() -> RagData {
    let mut metadata = IndexMap::new();
    metadata.insert("source".to_string(), "notes".to_string());
    metadata.insert("lang".to_string(), "en".to_string());
    let first = RagFile::new(
        "/docs/a.md".to_string(),
        vec![
            RagDocument::new("alpha").with_metadata(metadata),
            RagDocument::new("beta"),
            RagDocument::new("gamma \u{e9}\u{4e2d}"),
        ],
    );
    let second = RagFile::new(
        "/docs/b.txt".to_string(),
        vec![RagDocument::new("delta"), RagDocument::new("")],
    );
    let mut data = RagData::new("openai:text-embedding-3-small", 1000, 50);
    let mut diagonal = unit_vector(0);
    diagonal[1] = 1.0f32.to_bits();
    let embeddings =
        vec![unit_vector(0), unit_vector(1), unit_vector(2), unit_vector(3), diagonal];
    assert_eq!(data.ingest(vec![first, second], embeddings), Ok(()));
    data
}

fn assert_same_store(left: &RagData, right: &RagData) {
    assert_eq!(left.model, right.model);
    assert_eq!(left.chunk_size, right.chunk_size);
    assert_eq!(left.chunk_overlap, right.chunk_overlap);
    assert_eq!(left.files.len(), right.files.len());
    for (a, b) in left.files.iter().zip(right.files.iter()) {
        assert_eq!(a.path, b.path);
        assert_eq!(a.documents.len(), b.documents.len());
        for (x, y) in a.documents.iter().zip(b.documents.iter()) {
            assert_eq!(x.page_content, y.page_content);
            assert_eq!(
                x.metadata.iter().collect::<Vec<_>>(),
                y.metadata.iter().collect::<Vec<_>>()
            );
        }
    }
    assert_eq!(
        left.vectors.iter().collect::<Vec<_>>(),
        right.vectors.iter().collect::<Vec<_>>()
    );
}

#[test]
fn snapshot_round_trip() {
    let data = sample_store();
    let bytes = encode_store(&data);
    let restored = decode_store(&bytes).expect("a snapshot that was just written");
    assert_same_store(&data, &restored);
    assert_eq!(restored.files.len(), 2);
    assert_eq!(restored.vectors.len(), 5);
    assert_eq!(restored.vectors.get_index(0), Some((&combine_vector_id(0, 0), &unit_vector(0))));
    assert_eq!(restored.vectors.get_index(3), Some((&combine_vector_id(1, 0), &unit_vector(3))));
}

#[test]
fn restored_vectors_find_their_chunk() {
    let data = sample_store();
    let restored = decode_store(&encode_store(&data)).expect("a snapshot that was just written");
    let vectors: Vec<(Vec<f32>, usize)> = restored
        .vectors
        .iter()
        .map(|(id, v)| (v.iter().map(|bits| f32::from_bits(*bits)).collect(), *id))
        .collect();
    let hnsw = Hnsw::<f32, DistCosine>::new(32, vectors.len(), 16, 200, DistCosine {});
    let list: Vec<(&Vec<f32>, usize)> = vectors.iter().map(|(v, id)| (v, *id)).collect();
    hnsw.parallel_insert(&list);
    let neighbours = hnsw.search(&[1.0, 0.0, 0.0, 0.0], 1, 30);
    assert_eq!(neighbours.len(), 1);
    assert_eq!(neighbours[0].d_id, combine_vector_id(0, 0));
    assert_eq!(restored.chunk_text(neighbours[0].d_id), Some("alpha"));
}

#[test]
fn snapshot_ignores_what_follows() {
    let data = sample_store();
    let mut bytes = encode_store(&data);
    bytes.extend_from_slice(&[7, 7, 7]);
    let restored = decode_store(&bytes).expect("a snapshot followed by other bytes");
    assert_same_store(&data, &restored);
}

#[test]
fn snapshot_cut_short_is_refused() {
    let data = sample_store();
    let bytes = encode_store(&data);
    for cut in 0..bytes.len() {
        assert_eq!(decode_store(&bytes[..cut]).err(), Some(RagError::InvalidSnapshot));
    }
}

#[test]
fn snapshot_with_broken_text_is_refused() {
    let mut bytes = vec![2u8, 0, 0, 0, 0, 0, 0, 0, 0xff, 0xfe];
    bytes.extend_from_slice(&[0u8; 32]);
    assert_eq!(decode_store(&bytes).err(), Some(RagError::InvalidSnapshot));
}

#[test]
fn snapshot_of_empty_store_has_fixed_layout() {
    let data = RagData::new("m", 3, 1);
    let bytes = encode_store(&data);
    let mut expected = vec![1u8, 0, 0, 0, 0, 0, 0, 0, b'm'];
    expected.extend_from_slice(&3u64.to_le_bytes());
    expected.extend_from_slice(&1u64.to_le_bytes());
    expected.extend_from_slice(&0u64.to_le_bytes());
    expected.extend_from_slice(&0u64.to_le_bytes());
    assert_eq!(bytes, expected);
}

#[test]
fn snapshot_matches_bincode_layout() {
    let data = sample_store();
    let files: Vec<(String, Vec<(String, Vec<(String, String)>)>)> = data
        .files
        .iter()
        .map(|file| {
            let documents = file
                .documents
                .iter()
                .map(|d| {
                    let metadata =
                        d.metadata.iter().map(|(k, v)| (k.clone(), v.clone())).collect();
                    (d.page_content.clone(), metadata)
                })
                .collect();
            (file.path.clone(), documents)
        })
        .collect();
    let vectors: Vec<(u64, Vec<f32>)> = data
        .vectors
        .iter()
        .map(|(id, v)| (*id as u64, v.iter().map(|bits| f32::from_bits(*bits)).collect()))
        .collect();
    let plain = (
        data.model.clone(),
        data.chunk_size as u64,
        data.chunk_overlap as u64,
        files,
        vectors,
    );
    let expected = bincode::serialize(&plain).expect("plain values");
    assert_eq!(encode_store(&data), expected);
}

fn next(seed: &mut u64) -> u64 {
    *seed = seed.wrapping_mul(6364136223846793005).wrapping_add(1442695040888963407);
    *seed >> 33
}

fn text(seed: &mut u64) -> String {
    let alphabet: Vec<char> = "ab \n\u{e9}\u{4e2d}\u{1f600}\0\"".chars().collect();
    let length = next(seed) % 9;
    (0..length).map(|_| alphabet[(next(seed) % alphabet.len() as u64) as usize]).collect()
}

#[test]
fn snapshots_of_many_stores_round_trip() {
    let mut seed = 5;
    for round in 0..30 {
        let mut data = RagData::new(&text(&mut seed), next(&mut seed) as usize, round);
        let dimension = (next(&mut seed) % 4) as usize;
        for batch in 0..(next(&mut seed) % 3) {
            let mut files = Vec::new();
            let mut embeddings = Vec::new();
            for f in 0..(next(&mut seed) % 3) {
                let mut documents = Vec::new();
                for _ in 0..(next(&mut seed) % 4) {
                    let mut metadata = IndexMap::new();
                    for _ in 0..(next(&mut seed) % 3) {
                        metadata.insert(text(&mut seed), text(&mut seed));
                    }
                    documents.push(RagDocument::new(&text(&mut seed)).with_metadata(metadata));
                    embeddings.push((0..dimension).map(|_| next(&mut seed) as u32).collect());
                }
                files.push(RagFile::new(format!("/{}/{}/{}", round, batch, f), documents));
            }
            assert_eq!(data.ingest(files, embeddings), Ok(()));
        }
        assert!(data.is_consistent());
        let bytes = encode_store(&data);
        let restored = decode_store(&bytes).expect("a snapshot that was just written");
        assert_same_store(&data, &restored);
        assert!(restored.is_consistent());
        assert_eq!(encode_store(&restored), bytes);
    }
}
