use crate::embedding::{progress_message, progress_text};
use crate::error::RagError;
use crate::numbers::{parse_count, parsed_count};
use crate::text::{chars_of, string_of, string_texts};
use vstd::prelude::*;

verus! {

/// How the embedding model of a new store is found.
#[derive(Debug)]
pub enum ModelChoice {
    /// The model with this identifier is taken.
    Use(String),
    /// The user selects one of the available models.
    Select,
}

/// How a chunking parameter of a new store is found.
#[derive(Debug, Clone, Copy, PartialEq, Eq, Structural)]
pub enum SizeChoice {
    /// This value is taken.
    Use(usize),
    /// The user is asked, and offered this value.
    Ask(usize),
}

/// Finds the embedding model: the configured one; else, where models are
/// available, the one that the user selects, or the first where nobody can
/// be asked.
pub fn choose_embedding_model(
    configured: Option<String>,
    available: &Vec<String>,
    interactive: bool,
) -> (outcome: Result<ModelChoice, RagError>)
    ensures
        match configured {
            Some(id) => outcome matches Ok(ModelChoice::Use(chosen)) && chosen == id,
            None => if available.len() == 0 {
                outcome matches Err(error) && error == RagError::NoEmbeddingModel
            } else if interactive {
                outcome matches Ok(ModelChoice::Select)
            } else {
                outcome matches Ok(ModelChoice::Use(chosen)) && chosen@ == available[0]@
            },
        },
{
    match configured {
        Some(id) => Ok(ModelChoice::Use(id)),
        None => {
            if available.len() == 0 {
                Err(RagError::NoEmbeddingModel)
            } else if interactive {
                Ok(ModelChoice::Select)
            } else {
                Ok(ModelChoice::Use(available[0].clone()))
            }
        },
    }
}

/// Finds the chunk size: the configured one; else the user is asked and
/// offered the default of the model, which is taken where nobody can be
/// asked.
pub fn choose_chunk_size(configured: Option<usize>, model_default: usize, interactive: bool) -> (choice:
    SizeChoice)
    ensures
        choice == match configured {
            Some(size) => SizeChoice::Use(size),
            None => if interactive {
                SizeChoice::Ask(model_default)
            } else {
                SizeChoice::Use(model_default)
            },
        },
{
    match configured {
        Some(size) => SizeChoice::Use(size),
        None => {
            if interactive {
                SizeChoice::Ask(model_default)
            } else {
                SizeChoice::Use(model_default)
            }
        },
    }
}

/// Finds the chunk overlap: the configured one; else the user is asked and
/// offered a twentieth of the chunk size, which is taken where nobody can be
/// asked.
pub fn choose_chunk_overlap(configured: Option<usize>, chunk_size: usize, interactive: bool) -> (choice:
    SizeChoice)
    ensures
        choice == match configured {
            Some(overlap) => SizeChoice::Use(overlap),
            None => if interactive {
                SizeChoice::Ask((chunk_size / 20) as usize)
            } else {
                SizeChoice::Use((chunk_size / 20) as usize)
            },
        },
{
    match configured {
        Some(overlap) => SizeChoice::Use(overlap),
        None => {
            let value = chunk_size / 20;
            if interactive {
                SizeChoice::Ask(value)
            } else {
                SizeChoice::Use(value)
            }
        },
    }
}

/// Whether an answer is a count.
pub fn is_count(answer: &str) -> (valid: bool)
    ensures
        valid == parsed_count(answer@) is Some,
{
    parse_count(answer).is_some()
}

/// The chunk size that the user answered.
pub fn read_chunk_size(answer: &str) -> (outcome: Result<usize, RagError>)
    ensures
        outcome == match parsed_count(answer@) {
            Some(size) => Ok::<usize, RagError>(size),
            None => Err::<usize, RagError>(RagError::InvalidChunkSize),
        },
{
    match parse_count(answer) {
        Some(size) => Ok(size),
        None => Err(RagError::InvalidChunkSize),
    }
}

/// The chunk overlap that the user answered.
pub fn read_chunk_overlap(answer: &str) -> (outcome: Result<usize, RagError>)
    ensures
        outcome == match parsed_count(answer@) {
            Some(overlap) => Ok::<usize, RagError>(overlap),
            None => Err::<usize, RagError>(RagError::InvalidChunkOverlap),
        },
{
    match parse_count(answer) {
        Some(overlap) => Ok(overlap),
        None => Err(RagError::InvalidChunkOverlap),
    }
}

/// Whether text can be chunked with these parameters: the chunk size is not
/// zero and the overlap is below it.
pub fn check_chunking(chunk_size: usize, chunk_overlap: usize) -> (outcome: Result<(), RagError>)
    ensures
        outcome == if chunk_size == 0 {
            Err::<(), RagError>(RagError::InvalidChunkSize)
        } else if chunk_overlap >= chunk_size {
            Err::<(), RagError>(RagError::InvalidChunkOverlap)
        } else {
            Ok::<(), RagError>(())
        },
{
    if chunk_size == 0 {
        Err(RagError::InvalidChunkSize)
    } else if chunk_overlap >= chunk_size {
        Err(RagError::InvalidChunkOverlap)
    } else {
        Ok(())
    }
}

/// The fields of `text` from position `start` on, where the text from
/// `start` up to `at` holds no `mark`: what stands between marks, empty
/// fields too.
pub open spec fn fields_scan(text: Seq<char>, mark: char, start: int, at: int) -> Seq<Seq<char>>
    decreases text.len() - at,
{
    if at < 0 || start < 0 || start > at || at >= text.len() {
        seq![text.subrange(start, text.len() as int)]
    } else if text[at] == mark {
        seq![text.subrange(start, at)] + fields_scan(text, mark, at + 1, at + 1)
    } else {
        fields_scan(text, mark, start, at + 1)
    }
}

/// The document paths that the user answered: the fields between
/// semicolons.
pub open spec fn doc_paths_of(text: Seq<char>) -> Seq<Seq<char>> {
    fields_scan(text, ';', 0, 0)
}

/// Divides the answer to the question for document paths at its semicolons.
pub fn split_doc_paths(text: &str) -> (paths: Vec<String>)
    ensures
        string_texts(paths@) == doc_paths_of(text@),
{
    let chars = chars_of(text);
    let mut paths: Vec<String> = Vec::new();
    let mut start: usize = 0;
    let mut at: usize = 0;
    assert(string_texts(paths@) =~= Seq::<Seq<char>>::empty());
    while at < chars.len()
        invariant
            start <= at <= chars.len(),
            chars@ == text@,
            string_texts(paths@) + fields_scan(text@, ';', start as int, at as int) == doc_paths_of(
                text@,
            ),
        decreases chars.len() - at,
    {
        if chars[at] == ';' {
            let ghost before = string_texts(paths@);
            paths.push(string_of(&chars, start, at));
            assert(string_texts(paths@) =~= before + seq![text@.subrange(start as int, at as int)]);
            at += 1;
            start = at;
        } else {
            at += 1;
        }
    }
    let ghost before = string_texts(paths@);
    paths.push(string_of(&chars, start, chars.len()));
    assert(string_texts(paths@) =~= before + seq![
        text@.subrange(start as int, text@.len() as int),
    ]);
    paths
}

/// The message shown while paths are listed.
pub fn listing_message() -> (message: &'static str)
    ensures
        message@ == "Listing paths"@,
{
    "Listing paths"
}

/// The message shown while file `step` of `steps` is loaded.
pub fn loading_message(step: usize, steps: usize) -> (message: String)
    ensures
        message@ == progress_text("Loading files"@, step as nat, steps as nat),
{
    progress_message("Loading files", step, steps)
}

/// The message shown while batch `step` of `steps` is embedded.
pub fn embedding_message(step: usize, steps: usize) -> (message: String)
    ensures
        message@ == progress_text("Creating embeddings"@, step as nat, steps as nat),
{
    progress_message("Creating embeddings", step, steps)
}

/// The message shown while the indices are built.
pub fn building_message() -> (message: &'static str)
    ensures
        message@ == "Building vector store"@,
{
    "Building vector store"
}

} // verus!
