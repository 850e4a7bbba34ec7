//! Retrieval over local documents: chunking, a persistent store of chunks and
//! vectors, a lexical index, and the fusion of vector and lexical results.

/// Whole numbers of any size.
pub mod bignum;
/// Lexical index: tokens, term statistics and ranking by score.
pub mod bm25;
/// Documents and files.
pub mod document;
/// Embedding of texts in batches.
pub mod embedding;
/// Errors and their kinds.
pub mod error;
/// Measures of the size of a text.
pub mod estimator;
/// Reciprocal rank fusion of two result lists.
pub mod fusion;
/// Path patterns.
pub mod glob;
/// JSON values.
pub mod json;
/// Models and the tokens of messages.
pub mod model;
/// Counts in decimal digits.
pub mod numbers;
/// The models of the OpenAI client.
pub mod openai;
/// Maps that keep the order of insertion.
pub mod ordered_map;
/// Order and selection of file names.
pub mod paths;
/// A store with its name, model and lexical index.
pub mod rag;
/// The persistent part of a store.
pub mod rag_data;
/// Ranking by key with a floor and a limit.
pub mod ranking;
/// Code blocks and streamed lines.
pub mod render;
/// Separators by file extension.
pub mod separators;
/// Choices and answers when a store is set up.
pub mod setup;
/// The binary form of a store.
pub mod snapshot;
/// Splitting of text into overlapping chunks.
pub mod splitter;
/// Strings and their characters.
pub mod text;
/// Words and the estimate of tokens.
pub mod tokens;
/// Identifiers of chunks.
pub mod vector_id;
