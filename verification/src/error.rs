use vstd::prelude::*;

verus! {

/// The kinds of failure that callers tell apart.
#[derive(Debug, Clone, Copy, PartialEq, Eq, Structural)]
pub enum ErrorKind {
    /// The configuration names no usable embedding model or chunk sizes.
    Config,
    /// A path or a snapshot could not be read or written.
    Io,
    /// A file could not be loaded.
    Load,
    /// The embedding backend failed or answered in the wrong shape.
    Embedding,
    /// An index could not be built.
    Index,
    /// The user cancelled the operation.
    Aborted,
    /// The messages exceed the token budget of the model.
    LimitExceeded,
}

/// What went wrong.
#[derive(Debug, Clone, Copy, PartialEq, Eq, Structural)]
pub enum RagError {
    /// No embedding model is configured or available.
    NoEmbeddingModel,
    /// The chunk size is not a number, or is zero.
    InvalidChunkSize,
    /// The chunk overlap is not a number, or is not below the chunk size.
    InvalidChunkOverlap,
    /// The batch size for embeddings is zero.
    InvalidBatchSize,
    /// A path or a snapshot could not be read or written.
    ReadFailed,
    /// A file could not be loaded.
    LoadFailed,
    /// The snapshot is not a well-formed encoding of a store.
    InvalidSnapshot,
    /// The summary of the store could not be written.
    Export,
    /// The backend returned another number of vectors than texts were sent.
    EmbeddingCount,
    /// The backend returned vectors of differing dimensions.
    EmbeddingDimension,
    /// A file with the same path is already part of the store.
    DuplicatePath,
    /// More files, or more chunks in one file, than identifiers can tell
    /// apart.
    TooManyChunks,
    /// There is not one score and one identifier for each document of the
    /// index.
    ScoreCount,
    /// The operation was cancelled.
    Aborted,
    /// The messages exceed the token budget of the model.
    ExceedMaxInputTokens,
}

impl RagError {
    /// The kind of failure that this error belongs to.
    pub open spec fn spec_kind(self) -> ErrorKind {
        match self {
            RagError::NoEmbeddingModel => ErrorKind::Config,
            RagError::InvalidChunkSize => ErrorKind::Config,
            RagError::InvalidChunkOverlap => ErrorKind::Config,
            RagError::InvalidBatchSize => ErrorKind::Config,
            RagError::ReadFailed => ErrorKind::Io,
            RagError::LoadFailed => ErrorKind::Load,
            RagError::InvalidSnapshot => ErrorKind::Io,
            RagError::Export => ErrorKind::Io,
            RagError::EmbeddingCount => ErrorKind::Embedding,
            RagError::EmbeddingDimension => ErrorKind::Embedding,
            RagError::DuplicatePath => ErrorKind::Index,
            RagError::TooManyChunks => ErrorKind::Index,
            RagError::ScoreCount => ErrorKind::Index,
            RagError::Aborted => ErrorKind::Aborted,
            RagError::ExceedMaxInputTokens => ErrorKind::LimitExceeded,
        }
    }

    /// The kind of failure that this error belongs to.
    pub fn kind(&self) -> (kind: ErrorKind)
        ensures
            kind == self.spec_kind(),
    {
        match self {
            RagError::NoEmbeddingModel => ErrorKind::Config,
            RagError::InvalidChunkSize => ErrorKind::Config,
            RagError::InvalidChunkOverlap => ErrorKind::Config,
            RagError::InvalidBatchSize => ErrorKind::Config,
            RagError::ReadFailed => ErrorKind::Io,
            RagError::LoadFailed => ErrorKind::Load,
            RagError::InvalidSnapshot => ErrorKind::Io,
            RagError::Export => ErrorKind::Io,
            RagError::EmbeddingCount => ErrorKind::Embedding,
            RagError::EmbeddingDimension => ErrorKind::Embedding,
            RagError::DuplicatePath => ErrorKind::Index,
            RagError::TooManyChunks => ErrorKind::Index,
            RagError::ScoreCount => ErrorKind::Index,
            RagError::Aborted => ErrorKind::Aborted,
            RagError::ExceedMaxInputTokens => ErrorKind::LimitExceeded,
        }
    }

    /// The text shown to the user for this error.
    pub open spec fn spec_message(self) -> Seq<char> {
        match self {
            RagError::NoEmbeddingModel => "No available embedding model"@,
            RagError::InvalidChunkSize => "Invalid chunk_size"@,
            RagError::InvalidChunkOverlap => "Invalid chunk_overlay"@,
            RagError::InvalidBatchSize => "Invalid embedding batch size"@,
            RagError::ReadFailed => "Failed to read or write"@,
            RagError::LoadFailed => "Failed to load file"@,
            RagError::InvalidSnapshot => "Invalid rag snapshot"@,
            RagError::Export => "Unable to show info about rag"@,
            RagError::EmbeddingCount => "Failed to create embedding: wrong number of vectors"@,
            RagError::EmbeddingDimension => "Failed to create embedding: vectors differ in dimension"@,
            RagError::DuplicatePath => "File is already indexed"@,
            RagError::TooManyChunks => "Too many files or chunks"@,
            RagError::ScoreCount => "Wrong number of scores"@,
            RagError::Aborted => "Aborted!"@,
            RagError::ExceedMaxInputTokens => "Exceed max input tokens limit"@,
        }
    }

    /// The text shown to the user for this error.
    pub fn message(&self) -> (text: &'static str)
        ensures
            text@ == self.spec_message(),
    {
        match self {
            RagError::NoEmbeddingModel => "No available embedding model",
            RagError::InvalidChunkSize => "Invalid chunk_size",
            RagError::InvalidChunkOverlap => "Invalid chunk_overlay",
            RagError::InvalidBatchSize => "Invalid embedding batch size",
            RagError::ReadFailed => "Failed to read or write",
            RagError::LoadFailed => "Failed to load file",
            RagError::InvalidSnapshot => "Invalid rag snapshot",
            RagError::Export => "Unable to show info about rag",
            RagError::EmbeddingCount => "Failed to create embedding: wrong number of vectors",
            RagError::EmbeddingDimension => "Failed to create embedding: vectors differ in dimension",
            RagError::DuplicatePath => "File is already indexed",
            RagError::TooManyChunks => "Too many files or chunks",
            RagError::ScoreCount => "Wrong number of scores",
            RagError::Aborted => "Aborted!",
            RagError::ExceedMaxInputTokens => "Exceed max input tokens limit",
        }
    }
}

/// What comes of work that ran against the signal to cancel: its result
/// where it finished first, and `Aborted` where the signal did.
pub fn settle<T>(finished: Option<T>) -> (outcome: Result<T, RagError>)
    ensures
        outcome == match finished {
            Some(result) => Ok::<T, RagError>(result),
            None => Err::<T, RagError>(RagError::Aborted),
        },
{
    match finished {
        Some(result) => Ok(result),
        None => Err(RagError::Aborted),
    }
}

} // verus!
