use aichat::estimator::Estimator;
use aichat::splitter::RecursiveCharacterTextSplitter;

#[test]
fn chunking_with_one_character_overlap() {
    let splitter =
        RecursiveCharacterTextSplitter::new(3, 1, &[" ", ""]).with_estimator(Estimator::Characters);
    let chunks = splitter.split_text("a b c d e f g h");
    assert_eq!(chunks, vec!["a b c", "c d e", "e f g", "g h"]);
}

use aichat::document::RagDocument;
use aichat::separators::{default_separators, detect_separators};
use aichat::splitter::{contains_separator, join_atoms, split_atoms, starts_at};
use aichat::tokens::{estimate_token_length, estimate_words};
use indexmap::IndexMap;

fn chars(s: &str) -> Vec<char> {
    s.chars().collect()
}

fn count_visible(s: &str) -> usize {
    s.chars().filter(|c| !c.is_whitespace()).count()
}

#[test]
fn chunks_stay_within_size() {
    let text = "one two three\n\nfour five six seven eight nine ten\neleven twelve,thirteen";
    for (size, overlap) in [(1usize, 0usize), (3, 1), (5, 2), (8, 3), (20, 5), (100, 10)] {
        let splitter = RecursiveCharacterTextSplitter::new(size, overlap, &["\n\n", "\n", " ", ""])
            .with_estimator(Estimator::Characters);
        let chunks = splitter.split_text(text);
        assert!(!chunks.is_empty());
        for chunk in &chunks {
            assert!(count_visible(chunk) <= size, "{:?} is larger than {}", chunk, size);
        }
        let joined: String = chunks.concat();
        for word in ["one", "two", "seven", "twelve", "thirteen"] {
            for c in word.chars() {
                assert!(joined.contains(c));
            }
        }
    }
}

#[test]
fn long_atom_is_divided_by_the_next_separator() {
    let splitter = RecursiveCharacterTextSplitter::new(4, 0, &["\n", " ", ""])
        .with_estimator(Estimator::Characters);
    assert_eq!(splitter.split_text("ab cd\nefghijkl mn"), vec!["ab cd", "efgh", "ijkl", "mn"]);
}

#[test]
fn atom_without_further_separator_stands_alone() {
    let splitter =
        RecursiveCharacterTextSplitter::new(3, 0, &[" "]).with_estimator(Estimator::Characters);
    assert_eq!(splitter.split_text("ab abcdefg cd"), vec!["ab", "abcdefg", "cd"]);
    let splitter =
        RecursiveCharacterTextSplitter::new(3, 0, &[";"]).with_estimator(Estimator::Characters);
    assert_eq!(splitter.split_text("no separator here"), vec!["no separator here"]);
}

#[test]
fn empty_text_gives_no_chunks() {
    let splitter = RecursiveCharacterTextSplitter::new(3, 1, &[" ", ""]);
    assert_eq!(splitter.split_text(""), Vec::<String>::new());
    let splitter = RecursiveCharacterTextSplitter::new(3, 1, &[]);
    assert_eq!(splitter.split_text(""), Vec::<String>::new());
    assert_eq!(splitter.split_text("abc def"), vec!["abc def"]);
}

#[test]
fn separator_runs_collapse() {
    let splitter = RecursiveCharacterTextSplitter::new(10, 0, &[" ", ""])
        .with_estimator(Estimator::Characters);
    assert_eq!(splitter.split_text("a   b  c"), vec!["a b c"]);
}

#[test]
fn tokens_estimator_counts_words() {
    assert_eq!(estimate_token_length(""), 0);
    assert_eq!(estimate_token_length("hello"), 2);
    assert_eq!(estimate_token_length("hello world"), 3);
    assert_eq!(estimate_token_length("one two three four five six seven eight nine ten"), 13);
    assert_eq!(estimate_token_length("\u{4e2d}"), 1);
    assert_eq!(estimate_token_length("\u{e9}t\u{e9}s"), 2);
    assert_eq!(estimate_token_length("... !!! ???"), 0);
    let splitter = RecursiveCharacterTextSplitter::new(3, 0, &[" ", ""]);
    assert_eq!(splitter.split_text("aa bb cc dd"), vec!["aa bb", "cc dd"]);
    let words: Vec<String> =
        ["one", "\u{4e2d}", "\u{4e2d}\u{6587}\u{5b57}", ""].iter().map(|w| w.to_string()).collect();
    assert_eq!(estimate_words(&words), 6);
    assert_eq!(estimate_words(&words[..1].to_vec()), 2);
    assert_eq!(estimate_words(&vec![]), 0);
}

#[test]
fn splitter_keeps_its_parameters() {
    let splitter = RecursiveCharacterTextSplitter::new(7, 2, &["x", "y"]);
    assert_eq!(splitter.chunk_size, 7);
    assert_eq!(splitter.chunk_overlap, 2);
    assert_eq!(splitter.separators, vec!["x", "y"]);
    assert_eq!(splitter.estimator, Estimator::Tokens);
    let splitter = splitter.with_estimator(Estimator::Characters);
    assert_eq!(splitter.chunk_size, 7);
    assert_eq!(splitter.estimator, Estimator::Characters);
    assert_eq!(Estimator::Characters.measure(&chars(" a\tb\u{3000}c\n")), 3);
    assert_eq!(Estimator::Tokens.measure(&chars("hello world")), 3);
}

#[test]
fn split_documents_copies_metadata() {
    let mut metadata = IndexMap::new();
    metadata.insert("source".to_string(), "a.md".to_string());
    let documents = vec![
        RagDocument::new("a b c d").with_metadata(metadata.clone()),
        RagDocument::new(""),
        RagDocument::new("e"),
    ];
    let splitter = RecursiveCharacterTextSplitter::new(2, 0, &[" ", ""])
        .with_estimator(Estimator::Characters);
    let chunks = splitter.split_documents(&documents);
    let texts: Vec<&str> = chunks.iter().map(|d| d.page_content.as_str()).collect();
    assert_eq!(texts, vec!["a b", "c d", "e"]);
    assert_eq!(chunks[0].metadata, metadata);
    assert_eq!(chunks[1].metadata, metadata);
    assert!(chunks[2].metadata.is_empty());
}

#[test]
fn atoms_and_joins() {
    assert!(starts_at(&chars("abcabc"), &chars("bc"), 1));
    assert!(!starts_at(&chars("abcabc"), &chars("bc"), 2));
    assert!(!starts_at(&chars("abc"), &chars("bc"), 2));
    assert!(starts_at(&chars("abc"), &chars(""), 3));
    assert!(contains_separator(&chars("a, b"), &chars(", ")));
    assert!(!contains_separator(&chars("a,b"), &chars(", ")));
    assert!(contains_separator(&chars(""), &chars("")));
    let atoms = split_atoms(&chars(",a,,bc,"), &chars(","));
    assert_eq!(atoms, vec![chars("a"), chars("bc")]);
    assert_eq!(split_atoms(&chars("ab"), &chars("")), vec![chars("a"), chars("b")]);
    assert_eq!(split_atoms(&chars("aaa"), &chars("aa")), vec![chars("a")]);
    assert_eq!(join_atoms(&atoms, 0, 2, &chars("--")), chars("a--bc"));
    assert_eq!(join_atoms(&atoms, 1, 2, &chars("--")), chars("bc"));
    assert_eq!(join_atoms(&atoms, 1, 1, &chars("--")), chars(""));
}

#[test]
fn separators_by_extension() {
    assert_eq!(default_separators(), vec!["\n\n", "\n", ". ", ", ", " ", ""]);
    assert_eq!(detect_separators("md"), vec!["\n## ", "\n### ", "\n\n", "\n", " ", ""]);
    assert_eq!(detect_separators("txt"), default_separators());
    assert_eq!(detect_separators(""), default_separators());
    for extension in ["rs", "go", "py", "js", "ts", "c", "cpp", "java", "md"] {
        let ladder = detect_separators(extension);
        let tail: Vec<&str> = ladder[ladder.len() - 4..].to_vec();
        assert_eq!(tail, vec!["\n\n", "\n", " ", ""]);
    }
    for extension in ["txt", "", "html", "RS"] {
        assert_eq!(detect_separators(extension).last(), Some(&""));
    }
    assert_eq!(detect_separators("c"), detect_separators("cpp"));
    assert_eq!(detect_separators("rs")[0], "\nfn ");
    assert_eq!(detect_separators("py")[0], "\nclass ");
    assert_eq!(detect_separators("go")[0], "\nfunc ");
    assert_ne!(detect_separators("rs"), default_separators());
}

#[test]
fn neighbouring_chunks_share_at_most_the_overlap() {
    let words: Vec<String> = (0..40).map(|i| format!("w{}", i % 7)).collect();
    let text = words.join(" ");
    for (size, overlap) in [(4usize, 0usize), (6, 2), (9, 4), (12, 11)] {
        let splitter = RecursiveCharacterTextSplitter::new(size, overlap, &[" ", ""])
            .with_estimator(Estimator::Characters);
        let chunks = splitter.split_text(&text);
        let mut next_word = 0;
        for chunk in &chunks {
            let parts: Vec<&str> = chunk.split(' ').collect();
            let first = (0..=next_word)
                .rev()
                .find(|start| {
                    parts.iter().enumerate().all(|(k, p)| words.get(start + k).map(|w| w.as_str()) == Some(*p))
                        && start + parts.len() > next_word
                })
                .expect("a chunk that continues the text");
            let shared: usize = words[first..next_word].iter().map(|w| w.len()).sum();
            assert!(shared <= overlap, "{} units shared, {} allowed", shared, overlap);
            assert!(count_visible(chunk) <= size);
            next_word = first + parts.len();
        }
        assert_eq!(next_word, words.len());
    }
}
