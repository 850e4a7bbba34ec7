use aichat::bm25::{lowercase_all, tokenize, BM25Options, QueryStatistics, BM25};
use aichat::document::{RagDocument, RagFile};
use aichat::error::RagError;
use aichat::rag_data::RagData;
use aichat::vector_id::combine_vector_id;

fn corpus() -> Vec<(usize, String)> {
    vec![
        (0, "the quick brown fox".to_string()),
        (1, "the slow brown dog".to_string()),
        (2, "quick brown rabbits".to_string()),
    ]
}

fn scores(options: &BM25Options, statistics: &QueryStatistics) -> Vec<f64> {
    let k1 = options.k1_hundredths as f64 / 100.0;
    let b = options.b_hundredths as f64 / 100.0;
    let n = statistics.lengths.len() as f64;
    let avgdl = statistics.total_length as f64 / n;
    (0..statistics.lengths.len())
        .map(|d| {
            let length = statistics.lengths[d] as f64;
            statistics
                .terms
                .iter()
                .map(|term| {
                    let df = term.document_frequency as f64;
                    let tf = term.term_frequencies[d] as f64;
                    let idf = ((n - df + 0.5) / (df + 0.5) + 1.0).ln();
                    idf * (tf * (k1 + 1.0)) / (tf + k1 * (1.0 - b + b * length / avgdl))
                })
                .sum()
        })
        .collect()
}

fn keys(scores: &[f64]) -> Vec<u128> {
    scores.iter().map(|s| s.to_bits() as u128).collect()
}

#[test]
fn bm25_ranks_shorter_document_first() {
    let index = BM25::new(corpus(), BM25Options::default());
    let statistics = index.statistics("quick brown");
    let scores = scores(&index.options(), &statistics);
    assert!(scores.iter().all(|s| *s >= 0.0));
    let found = index.rank(&keys(&scores), 2, None).expect("one score for each document");
    assert_eq!(found, vec![2, 0]);
    assert!(scores[2] > scores[0]);
    assert!(scores[0] > scores[1]);
}

#[test]
fn bm25_statistics_count_terms() {
    let index = BM25::new(corpus(), BM25Options::default());
    let statistics = index.statistics("Quick BROWN quick");
    assert_eq!(statistics.lengths, vec![4, 4, 3]);
    assert_eq!(statistics.total_length, 11);
    assert_eq!(statistics.terms.len(), 3);
    assert_eq!(statistics.terms[0].document_frequency, 2);
    assert_eq!(statistics.terms[0].term_frequencies, vec![1, 0, 1]);
    assert_eq!(statistics.terms[1].document_frequency, 3);
    assert_eq!(statistics.terms[1].term_frequencies, vec![1, 1, 1]);
    assert_eq!(statistics.terms[2].document_frequency, 2);
}

#[test]
fn bm25_rank_is_cut_and_never_rises() {
    let index = BM25::new(corpus(), BM25Options::default());
    let scores: Vec<u128> = vec![5, 9, 5];
    assert_eq!(index.rank(&scores, 0, None), Ok(vec![]));
    assert_eq!(index.rank(&scores, 1, None), Ok(vec![1]));
    assert_eq!(index.rank(&scores, 2, None), Ok(vec![1, 0]));
    assert_eq!(index.rank(&scores, 10, None), Ok(vec![1, 0, 2]));
    assert_eq!(index.rank(&scores, 10, Some(6)), Ok(vec![1]));
    assert_eq!(index.rank(&scores, 10, Some(5)), Ok(vec![1, 0, 2]));
    assert_eq!(index.rank(&scores, 10, Some(10)), Ok(vec![]));
}

#[test]
fn bm25_rank_wants_one_score_for_each_document() {
    let index = BM25::new(corpus(), BM25Options::default());
    assert_eq!(index.len(), 3);
    assert_eq!(index.rank(&vec![1, 2], 3, None), Err(RagError::ScoreCount));
    assert_eq!(index.rank(&vec![1, 2, 3, 4], 3, None), Err(RagError::ScoreCount));
}

#[test]
fn bm25_counts_repeated_and_shared_terms() {
    let corpus = vec![
        (7, "a b a c a".to_string()),
        (8, "".to_string()),
        (9, "c c b".to_string()),
        (10, "d".to_string()),
        (11, "a d a".to_string()),
    ];
    let index = BM25::new(corpus, BM25Options::default());
    assert_eq!(index.len(), 5);
    assert_eq!(index.ids(), &vec![7, 8, 9, 10, 11]);
    let statistics = index.statistics("a b c d e a");
    assert_eq!(statistics.lengths, vec![5, 0, 3, 1, 3]);
    assert_eq!(statistics.total_length, 12);
    let frequencies: Vec<Vec<usize>> =
        statistics.terms.iter().map(|t| t.term_frequencies.clone()).collect();
    assert_eq!(
        frequencies,
        vec![
            vec![3, 0, 0, 0, 2],
            vec![1, 0, 1, 0, 0],
            vec![1, 0, 2, 0, 0],
            vec![0, 0, 0, 1, 1],
            vec![0, 0, 0, 0, 0],
            vec![3, 0, 0, 0, 2],
        ]
    );
    let holders: Vec<usize> = statistics.terms.iter().map(|t| t.document_frequency).collect();
    assert_eq!(holders, vec![2, 2, 2, 2, 0, 2]);
    let empty = BM25::new(vec![], BM25Options::default());
    let statistics = empty.statistics("a");
    assert_eq!(statistics.lengths, Vec::<usize>::new());
    assert_eq!(statistics.total_length, 0);
    assert_eq!(statistics.terms[0].document_frequency, 0);
    assert_eq!(empty.rank(&vec![], 3, None), Ok(vec![]));
}

#[test]
fn bm25_default_options() {
    let options = BM25Options::default();
    assert_eq!(options.k1_hundredths, 120);
    assert_eq!(options.b_hundredths, 75);
}

#[test]
fn tokenize_lowers_words() {
    assert_eq!(tokenize("The QUICK (brown) fox can't"), vec!["the", "quick", "brown", "fox", "can't"]);
    assert_eq!(tokenize("  ...  "), Vec::<String>::new());
    assert_eq!(tokenize("\u{c9}t\u{e9} 32.3"), vec!["\u{e9}t\u{e9}", "32.3"]);
    assert_eq!(lowercase_all(&vec!["AbC".to_string(), "x".to_string()]), vec!["abc", "x"]);
}

#[test]
fn store_builds_index_of_its_chunks() {
    let mut data = RagData::new("model", 100, 5);
    let files = vec![
        RagFile::new("/a".to_string(), vec![RagDocument::new("Red fox"), RagDocument::new("blue")]),
        RagFile::new("/b".to_string(), vec![RagDocument::new("red RED sky")]),
    ];
    assert_eq!(data.ingest(files, vec![vec![1], vec![2], vec![3]]), Ok(()));
    let index = data.build_bm25();
    assert_eq!(
        index.ids(),
        &vec![combine_vector_id(0, 0), combine_vector_id(0, 1), combine_vector_id(1, 0)]
    );
    assert_eq!(index.options(), BM25Options::default());
    let statistics = index.statistics("red sky green");
    assert_eq!(statistics.lengths, vec![2, 1, 3]);
    assert_eq!(statistics.total_length, 6);
    assert_eq!(statistics.terms[0].term_frequencies, vec![1, 0, 2]);
    assert_eq!(statistics.terms[0].document_frequency, 2);
    assert_eq!(statistics.terms[1].term_frequencies, vec![0, 0, 1]);
    assert_eq!(statistics.terms[1].document_frequency, 1);
    assert_eq!(statistics.terms[2].term_frequencies, vec![0, 0, 0]);
    assert_eq!(statistics.terms[2].document_frequency, 0);
}

fn next(seed: &mut u64) -> u64 {
    *seed = seed.wrapping_mul(6364136223846793005).wrapping_add(1442695040888963407);
    *seed >> 33
}

#[test]
fn bm25_statistics_agree_with_plain_counting() {
    let words = ["ant", "bee", "cat", "dog", "eel", "fox", "gnu", "hen"];
    let mut seed = 11;
    let mut documents: Vec<Vec<&str>> = Vec::new();
    for _ in 0..40 {
        let length = next(&mut seed) % 12;
        documents.push((0..length).map(|_| words[(next(&mut seed) % 6) as usize]).collect());
    }
    let corpus: Vec<(usize, String)> =
        documents.iter().enumerate().map(|(i, d)| (i * 3, d.join(" "))).collect();
    let index = BM25::new(corpus, BM25Options::default());
    let statistics = index.statistics(&words.join(" "));
    assert_eq!(statistics.lengths, documents.iter().map(|d| d.len()).collect::<Vec<_>>());
    assert_eq!(statistics.total_length, documents.iter().map(|d| d.len() as u128).sum::<u128>());
    for (t, word) in words.iter().enumerate() {
        let expected: Vec<usize> =
            documents.iter().map(|d| d.iter().filter(|w| *w == word).count()).collect();
        assert_eq!(statistics.terms[t].term_frequencies, expected);
        assert_eq!(
            statistics.terms[t].document_frequency,
            expected.iter().filter(|c| **c > 0).count()
        );
    }
    let keys: Vec<u128> = (0..40).map(|_| (next(&mut seed) % 5) as u128).collect();
    let found = index.rank(&keys, 40, Some(1)).unwrap();
    let mut expected: Vec<usize> = (0..40).filter(|i| keys[*i] >= 1).collect();
    expected.sort_by(|a, b| keys[*b].cmp(&keys[*a]).then(a.cmp(b)));
    assert_eq!(found, expected.iter().map(|i| i * 3).collect::<Vec<_>>());
}
