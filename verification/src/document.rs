use crate::ordered_map::{metadata_clone, metadata_entries, metadata_new};
use indexmap::IndexMap;
use vstd::prelude::*;

verus! {

/// Keys and values attached to a document, in insertion order.
pub type RagMetadata = IndexMap<String, String>;

/// A piece of text with its metadata.
#[derive(Debug)]
pub struct RagDocument {
    pub page_content: String,
    pub metadata: RagMetadata,
}

/// What a document holds.
pub struct DocumentView {
    pub page_content: Seq<char>,
    pub metadata: Seq<(Seq<char>, Seq<char>)>,
}

impl View for RagDocument {
    type V = DocumentView;

    open spec fn view(&self) -> DocumentView {
        DocumentView {
            page_content: self.page_content@,
            metadata: metadata_entries(self.metadata),
        }
    }
}

impl RagDocument {
    /// A document with the given text and no metadata.
    pub fn new(page_content: &str) -> (document: Self)
        ensures
            document@.page_content == page_content@,
            document@.metadata == Seq::<(Seq<char>, Seq<char>)>::empty(),
    {
        RagDocument { page_content: page_content.to_owned(), metadata: metadata_new() }
    }

    /// The same document with its metadata replaced.
    pub fn with_metadata(self, metadata: RagMetadata) -> (document: Self)
        ensures
            document@.page_content == self@.page_content,
            document@.metadata == metadata_entries(metadata),
    {
        let mut document = self;
        document.metadata = metadata;
        document
    }

}

impl Clone for RagDocument {
    fn clone(&self) -> (copy: Self)
        ensures
            copy@ == self@,
    {
        RagDocument {
            page_content: self.page_content.clone(),
            metadata: metadata_clone(&self.metadata),
        }
    }
}

impl Default for RagDocument {
    fn default() -> (document: Self)
        ensures
            document@.page_content == Seq::<char>::empty(),
            document@.metadata == Seq::<(Seq<char>, Seq<char>)>::empty(),
    {
        RagDocument { page_content: String::new(), metadata: metadata_new() }
    }
}

/// What each of a list of documents holds.
pub open spec fn document_views(documents: Seq<RagDocument>) -> Seq<DocumentView> {
    Seq::new(documents.len(), |i: int| documents[i]@)
}

/// A file that was taken in: its absolute path and the chunks of its text.
#[derive(Debug)]
pub struct RagFile {
    pub path: String,
    pub documents: Vec<RagDocument>,
}

/// What a file holds.
pub struct FileView {
    pub path: Seq<char>,
    pub documents: Seq<DocumentView>,
}

impl View for RagFile {
    type V = FileView;

    open spec fn view(&self) -> FileView {
        FileView {
            path: self.path@,
            documents: document_views(self.documents@),
        }
    }
}

impl Clone for RagFile {
    fn clone(&self) -> (copy: Self)
        ensures
            copy@ == self@,
    {
        let mut documents: Vec<RagDocument> = Vec::new();
        let mut i: usize = 0;
        while i < self.documents.len()
            invariant
                i <= self.documents.len(),
                documents.len() == i,
                forall|j: int| 0 <= j < i ==> documents[j]@ == self.documents[j]@,
            decreases self.documents.len() - i,
        {
            documents.push(self.documents[i].clone());
            i += 1;
        }
        let copy = RagFile { path: self.path.clone(), documents };
        assert(copy@.documents =~= self@.documents);
        copy
    }
}

impl RagFile {
    /// A file at `path` with the given chunks.
    pub fn new(path: String, documents: Vec<RagDocument>) -> (file: Self)
        ensures
            file.path == path,
            file.documents == documents,
    {
        RagFile { path, documents }
    }
}

} // verus!
