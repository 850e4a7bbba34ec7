use aichat::embedding::{progress_message, EmbeddingRun, EmbeddingsData};
use aichat::error::{ErrorKind, RagError};
use aichat::glob::{find_first, parse_glob};
use aichat::paths::{sort_names, text_le, wanted_extension};
use aichat::numbers::{append_decimal, decimal_text, digit_of, parse_count};
use aichat::setup::{
    building_message, check_chunking, choose_chunk_overlap, choose_chunk_size,
    choose_embedding_model, embedding_message, is_count, listing_message, loading_message,
    read_chunk_overlap, read_chunk_size, split_doc_paths, ModelChoice, SizeChoice,
};

fn texts(items: &[&str]) -> Vec<String> {
    items.iter().map(|s| s.to_string()).collect()
}

#[test]
fn glob_with_extensions() {
    assert_eq!(parse_glob("dir/**/*.md"), ("dir".to_string(), texts(&["md"])));
    assert_eq!(parse_glob("base/**/*.ext1,ext2"), ("base".to_string(), texts(&["ext1", "ext2"])));
    assert_eq!(parse_glob("/a/b/**/*.rs,,toml,"), ("/a/b".to_string(), texts(&["rs", "toml"])));
    assert_eq!(parse_glob("/**/*."), ("".to_string(), texts(&[])));
}

#[test]
fn glob_without_pattern() {
    assert_eq!(parse_glob("dir/file.md"), ("dir/file.md".to_string(), texts(&[])));
    assert_eq!(parse_glob(""), ("".to_string(), texts(&[])));
    assert_eq!(parse_glob("dir/**"), ("dir/**".to_string(), texts(&[])));
    assert_eq!(parse_glob("dir/**/*"), ("dir/**/*".to_string(), texts(&[])));
}

#[test]
fn glob_takes_the_first_pattern() {
    assert_eq!(parse_glob("a/**/*.b/**/*.c"), ("a".to_string(), texts(&["b/**/*.c"])));
    let text: Vec<char> = "xx/**/*.y".chars().collect();
    let marker: Vec<char> = "/**/*.".chars().collect();
    assert_eq!(find_first(&text, &marker), Some(2));
    assert_eq!(find_first(&marker, &text), None);
    assert_eq!(find_first(&text, &vec!['q']), None);
}

#[test]
fn counts_are_read_as_the_standard_parser_reads_them() {
    for answer in ["0", "7", "+7", "007", "1000", "18446744073709551615", "18446744073709551616",
        "", "+", "-1", " 1", "1 ", "1.5", "abc", "++1", "1_000", "\u{663}"]
    {
        assert_eq!(parse_count(answer), answer.parse::<usize>().ok(), "{:?}", answer);
        assert_eq!(is_count(answer), answer.parse::<usize>().is_ok());
    }
    assert_eq!(parse_count("1000"), Some(1000));
    assert_eq!(parse_count("99999999999999999999999999999999999999999999"), None);
}

#[test]
fn decimal_text_round_trips() {
    for n in [0usize, 1, 9, 10, 11, 99, 100, 12345, usize::MAX] {
        assert_eq!(decimal_text(n), n.to_string());
        assert_eq!(parse_count(&decimal_text(n)), Some(n));
    }
    let mut out = "n=".to_string();
    append_decimal(&mut out, 4096);
    assert_eq!(out, "n=4096");
    assert_eq!(digit_of('7'), Some(7));
    assert_eq!(digit_of('a'), None);
}

#[test]
fn chunk_answers() {
    assert_eq!(read_chunk_size("1500"), Ok(1500));
    assert_eq!(read_chunk_size("many"), Err(RagError::InvalidChunkSize));
    assert_eq!(read_chunk_overlap("75"), Ok(75));
    assert_eq!(read_chunk_overlap(""), Err(RagError::InvalidChunkOverlap));
    assert_eq!(check_chunking(1000, 50), Ok(()));
    assert_eq!(check_chunking(1, 0), Ok(()));
    assert_eq!(check_chunking(0, 0), Err(RagError::InvalidChunkSize));
    assert_eq!(check_chunking(10, 10), Err(RagError::InvalidChunkOverlap));
    assert_eq!(check_chunking(10, 11), Err(RagError::InvalidChunkOverlap));
    assert_eq!(RagError::InvalidChunkOverlap.kind(), ErrorKind::Config);
    assert_eq!(RagError::InvalidChunkSize.message(), "Invalid chunk_size");
}

#[test]
fn chunk_choices() {
    assert_eq!(choose_chunk_size(Some(700), 1000, true), SizeChoice::Use(700));
    assert_eq!(choose_chunk_size(None, 1000, true), SizeChoice::Ask(1000));
    assert_eq!(choose_chunk_size(None, 1000, false), SizeChoice::Use(1000));
    assert_eq!(choose_chunk_overlap(Some(7), 1000, false), SizeChoice::Use(7));
    assert_eq!(choose_chunk_overlap(None, 1000, true), SizeChoice::Ask(50));
    assert_eq!(choose_chunk_overlap(None, 1019, false), SizeChoice::Use(50));
    assert_eq!(choose_chunk_overlap(None, 19, false), SizeChoice::Use(0));
}

#[test]
fn model_choices() {
    let available = texts(&["openai:a", "openai:b"]);
    match choose_embedding_model(Some("x:y".to_string()), &available, true) {
        Ok(ModelChoice::Use(id)) => assert_eq!(id, "x:y"),
        other => panic!("{:?}", other),
    }
    assert!(matches!(choose_embedding_model(None, &available, true), Ok(ModelChoice::Select)));
    match choose_embedding_model(None, &available, false) {
        Ok(ModelChoice::Use(id)) => assert_eq!(id, "openai:a"),
        other => panic!("{:?}", other),
    }
    for interactive in [true, false] {
        let outcome = choose_embedding_model(None, &vec![], interactive);
        assert!(matches!(outcome, Err(RagError::NoEmbeddingModel)));
    }
    assert_eq!(RagError::NoEmbeddingModel.message(), "No available embedding model");
    assert_eq!(RagError::NoEmbeddingModel.kind(), ErrorKind::Config);
}

#[test]
fn doc_paths_are_divided_at_semicolons() {
    assert_eq!(split_doc_paths("file1;dir2/;dir3/**/*.md"), texts(&["file1", "dir2/", "dir3/**/*.md"]));
    assert_eq!(split_doc_paths("one"), texts(&["one"]));
    assert_eq!(split_doc_paths(""), texts(&[""]));
    assert_eq!(split_doc_paths("a;;b;"), texts(&["a", "", "b", ""]));
}

#[test]
fn progress_messages() {
    assert_eq!(listing_message(), "Listing paths");
    assert_eq!(building_message(), "Building vector store");
    assert_eq!(loading_message(1, 12), "Loading files [1/12]");
    assert_eq!(embedding_message(3, 3), "Creating embeddings [3/3]");
    assert_eq!(progress_message("x", 0, 0), "x [0/0]");
}

#[test]
fn embedding_runs_in_batches() {
    let data = EmbeddingsData::new(texts(&["a", "b", "c", "d", "e"]), false);
    let mut run = EmbeddingRun::start(data, 2).expect("a batch size above zero");
    assert_eq!(run.batches(), 3);
    assert_eq!(run.batches_done(), 0);
    let mut sent: Vec<Vec<String>> = Vec::new();
    let mut next = 0u32;
    while let Some(batch) = run.next_batch() {
        assert!(!batch.query);
        let vectors: Vec<Vec<u32>> = batch
            .texts
            .iter()
            .map(|_| {
                next += 1;
                vec![next, next * 10]
            })
            .collect();
        sent.push(batch.texts);
        run = run.accept(vectors).expect("one vector for each text");
        assert_eq!(run.batches_done(), sent.len());
    }
    assert_eq!(sent, vec![texts(&["a", "b"]), texts(&["c", "d"]), texts(&["e"])]);
    let output = run.finish().expect("all batches answered");
    assert_eq!(output, vec![vec![1, 10], vec![2, 20], vec![3, 30], vec![4, 40], vec![5, 50]]);
}

#[test]
fn embedding_run_refuses_wrong_shape() {
    assert!(matches!(
        EmbeddingRun::start(EmbeddingsData::new(texts(&["a"]), true), 0),
        Err(RagError::InvalidBatchSize)
    ));
    let run = EmbeddingRun::start(EmbeddingsData::new(texts(&["a", "b", "c"]), true), 2).unwrap();
    assert!(run.next_batch().unwrap().query);
    assert!(matches!(run.accept(vec![vec![1]]), Err(RagError::EmbeddingCount)));
    let run = EmbeddingRun::start(EmbeddingsData::new(texts(&["a", "b", "c"]), true), 2).unwrap();
    assert!(matches!(run.accept(vec![vec![1], vec![2], vec![3]]), Err(RagError::EmbeddingCount)));
    let run = EmbeddingRun::start(EmbeddingsData::new(texts(&["a", "b", "c"]), true), 2).unwrap();
    assert!(run.finish().is_none());
    let run = EmbeddingRun::start(EmbeddingsData::new(vec![], true), 4).unwrap();
    assert_eq!(run.batches(), 0);
    assert!(run.next_batch().is_none());
    assert_eq!(run.finish(), Some(vec![]));
    assert_eq!(RagError::EmbeddingCount.kind(), ErrorKind::Embedding);
}

#[test]
fn names_are_sorted_as_in_a_dictionary() {
    let names = texts(&["b.md", "a.txt", "B.md", "a", "\u{e9}", "a.md", "", "a.md", "z"]);
    let mut expected = names.clone();
    expected.sort();
    assert_eq!(sort_names(names), expected);
    assert_eq!(sort_names(vec![]), Vec::<String>::new());
    assert_eq!(sort_names(texts(&["one"])), texts(&["one"]));
    for (a, b) in [("", ""), ("", "a"), ("a", ""), ("a", "b"), ("b", "a"), ("ab", "a"), ("a", "ab"),
        ("\u{e9}", "z"), ("z", "\u{e9}"), ("same", "same"), ("\u{10000}", "\u{ffff}")]
    {
        assert_eq!(text_le(a, b), a <= b, "{:?} {:?}", a, b);
    }
}

#[test]
fn extensions_select_files() {
    assert!(wanted_extension("md", &vec![]));
    assert!(wanted_extension("", &vec![]));
    assert!(wanted_extension("md", &texts(&["txt", "md"])));
    assert!(!wanted_extension("rs", &texts(&["txt", "md"])));
    assert!(!wanted_extension("", &texts(&["txt"])));
    assert!(!wanted_extension("MD", &texts(&["md"])));
}
