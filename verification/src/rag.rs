use crate::bm25::{tokens_of, BM25};
use crate::document::{document_views, RagDocument, RagFile};
use crate::error::RagError;
use crate::estimator::Estimator;
use crate::fusion::{fused_ranking, reciprocal_rank_fusion};
use crate::model::Model;
use crate::ordered_map::has_vector_key;
use crate::rag_data::{
    chunk_at, chunk_entries, chunk_ids, entry_keys, file_views, has_path,
    lemma_chunk_ids_are_keys, lemma_keys_distinct, lemma_keys_resolve, vector_views, RagData,
    RagDataView,
};
use crate::ranking::{
    eligible, floor_value, is_ranking, key_values, lemma_ranking_descends, ranking_of,
};
use crate::separators::{
    default_ladder, default_separators, detect_separators, separators_for, slice_texts,
};
use crate::snapshot::{decode_store, enc_store, encode_store, parse_store};
use crate::splitter::{
    chunk_bounded, documents_pieces, has_terminal, join, lemma_documents_pieces_bounded,
    split_level, Limits, RecursiveCharacterTextSplitter,
};
use crate::setup::check_chunking;
use crate::text::{append_text, same_text, string_texts};
use crate::vector_id::VectorID;
use vstd::prelude::*;

verus! {

/// `serde_yaml::Error`: why a value could not be written as YAML.
#[verifier::external_type_specification]
#[verifier::external_body]
pub struct ExYamlError(serde_yaml::Error);

/// The YAML text of a mapping with five entries under the given labels: two
/// texts, two counts and a list of texts, in that order. `None` where the
/// mapping cannot be written.
pub uninterp spec fn yaml_summary(
    labels: Seq<Seq<char>>,
    path: Seq<char>,
    model: Seq<char>,
    chunk_size: usize,
    chunk_overlap: usize,
    files: Seq<Seq<char>>,
) -> Option<Seq<char>>;

/// `serde_yaml::to_string` on a JSON object that is built with
/// `serde_json::Map::insert`: the text of the mapping that holds the five
/// values under the five labels, in the order given, or the error of the
/// serializer.
#[verifier::external_body]
fn summary_to_yaml(
    labels: &Vec<String>,
    path: &str,
    model: &str,
    chunk_size: usize,
    chunk_overlap: usize,
    files: &Vec<String>,
) -> (text: Result<String, serde_yaml::Error>)
    requires
        labels.len() == 5,
    ensures
        text matches Ok(t) ==> yaml_summary(
            string_texts(labels@),
            path@,
            model@,
            chunk_size,
            chunk_overlap,
            string_texts(files@),
        ) == Some(t@),
        text is Err ==> yaml_summary(
            string_texts(labels@),
            path@,
            model@,
            chunk_size,
            chunk_overlap,
            string_texts(files@),
        ) is None,
{
    let mut map = serde_json::Map::new();
    map.insert(labels[0].clone(), serde_json::Value::from(path));
    map.insert(labels[1].clone(), serde_json::Value::from(model));
    map.insert(labels[2].clone(), serde_json::Value::from(chunk_size));
    map.insert(labels[3].clone(), serde_json::Value::from(chunk_overlap));
    map.insert(labels[4].clone(), serde_json::Value::from(files.clone()));
    serde_yaml::to_string(&serde_json::Value::Object(map))
}

/// The labels of the summary of a store.
pub open spec fn summary_labels() -> Seq<Seq<char>> {
    seq!["path"@, "model"@, "chunk_size"@, "chunk_overlap"@, "files"@]
}

/// What is reported of a written summary: the text, or that it could not be
/// written.
pub fn export_outcome(written: Result<String, serde_yaml::Error>) -> (outcome: Result<
    String,
    RagError,
>)
    ensures
        match written {
            Ok(text) => outcome == Ok::<String, RagError>(text),
            Err(_) => outcome == Err::<String, RagError>(RagError::Export),
        },
{
    match written {
        Ok(text) => Ok(text),
        Err(_) => Err(RagError::Export),
    }
}

/// How the vector index of a store is built and searched.
#[derive(Debug, Clone, Copy, PartialEq, Eq, Structural)]
pub struct VectorIndexParameters {
    /// The largest number of neighbours that a point is linked to.
    pub max_nb_connection: usize,
    /// The number of points that the index is made for.
    pub capacity: usize,
    /// The largest number of layers.
    pub max_layer: usize,
    /// The width of the search while the index is built.
    pub ef_construction: usize,
    /// The width of the search while the index is queried.
    pub ef_search: usize,
}

/// The parameters of the vector index of a store with `capacity` vectors.
pub fn vector_index_parameters(capacity: usize) -> (parameters: VectorIndexParameters)
    ensures
        parameters == (VectorIndexParameters {
            max_nb_connection: 32,
            capacity,
            max_layer: 16,
            ef_construction: 200,
            ef_search: 30,
        }),
{
    VectorIndexParameters {
        max_nb_connection: 32,
        capacity,
        max_layer: 16,
        ef_construction: 200,
        ef_search: 30,
    }
}

/// The name of the store that is never saved.
pub open spec fn temp_rag_name() -> Seq<char> {
    "temp"@
}

/// The paths of a list of files.
pub open spec fn file_paths(files: Seq<crate::document::FileView>) -> Seq<Seq<char>> {
    Seq::new(files.len(), |i: int| files[i].path)
}

/// The identifiers whose score reaches `min_score`, in the order of `list`.
/// A score is a number that rises with the similarity.
pub open spec fn kept_hits(list: Seq<(VectorID, u32)>, min_score: u32) -> Seq<VectorID>
    decreases list.len(),
{
    if list.len() == 0 {
        Seq::empty()
    } else {
        kept_hits(list.drop_last(), min_score) + if list.last().1 >= min_score {
            seq![list.last().0]
        } else {
            Seq::empty()
        }
    }
}

/// The hits of a list of result lists.
pub open spec fn hit_lists(lists: Seq<Vec<(VectorID, u32)>>) -> Seq<Seq<(VectorID, u32)>> {
    Seq::new(lists.len(), |i: int| lists[i]@)
}

/// The identifiers of all lists whose score reaches `min_score`, list after
/// list, each in its order.
pub open spec fn all_kept_hits(lists: Seq<Seq<(VectorID, u32)>>, min_score: u32) -> Seq<VectorID>
    decreases lists.len(),
{
    if lists.len() == 0 {
        Seq::empty()
    } else {
        all_kept_hits(lists.drop_last(), min_score) + kept_hits(lists.last(), min_score)
    }
}

/// The texts of the chunks that `ids` stand for, in the order of `ids`,
/// without those that the files do not have.
pub open spec fn resolved_chunks(files: Seq<crate::document::FileView>, ids: Seq<VectorID>) -> Seq<
    Seq<char>,
>
    decreases ids.len(),
{
    if ids.len() == 0 {
        Seq::empty()
    } else {
        resolved_chunks(files, ids.drop_last()) + match chunk_at(files, ids.last()) {
            Some(text) => seq![text],
            None => Seq::empty(),
        }
    }
}

/// The paths of `paths` that no file of `files` has and that did not occur
/// earlier in `paths`, in their order.
pub open spec fn unknown_paths(files: Seq<crate::document::FileView>, paths: Seq<Seq<char>>) -> Seq<
    Seq<char>,
>
    decreases paths.len(),
{
    if paths.len() == 0 {
        Seq::empty()
    } else {
        let earlier = unknown_paths(files, paths.drop_last());
        if has_path(files, paths.last()) || earlier.contains(paths.last()) {
            earlier
        } else {
            earlier.push(paths.last())
        }
    }
}

/// The texts of all chunks of `files`, file by file.
pub open spec fn all_chunk_texts(files: Seq<crate::document::FileView>) -> Seq<Seq<char>>
    decreases files.len(),
{
    if files.len() == 0 {
        Seq::empty()
    } else {
        all_chunk_texts(files.drop_last()) + Seq::new(
            files.last().documents.len(),
            |c: int| files.last().documents[c].page_content,
        )
    }
}

/// The identifiers of the hits whose score reaches `min_score`, list after
/// list, each in its order.
pub fn collect_hits(lists: &Vec<Vec<(VectorID, u32)>>, min_score: u32) -> (ids: Vec<VectorID>)
    ensures
        ids@ == all_kept_hits(hit_lists(lists@), min_score),
{
    let ghost all = hit_lists(lists@);
    let mut ids: Vec<VectorID> = Vec::new();
    let mut i: usize = 0;
    assert(all.take(0) =~= Seq::<Seq<(VectorID, u32)>>::empty());
    while i < lists.len()
        invariant
            i <= lists.len(),
            all == hit_lists(lists@),
            ids@ == all_kept_hits(all.take(i as int), min_score),
        decreases lists.len() - i,
    {
        let list = &lists[i];
        let ghost before = ids@;
        let mut k: usize = 0;
        assert(list@.take(0) =~= Seq::<(VectorID, u32)>::empty());
        assert(ids@ =~= before + kept_hits(list@.take(0), min_score));
        while k < list.len()
            invariant
                k <= list.len(),
                ids@ == before + kept_hits(list@.take(k as int), min_score),
            decreases list.len() - k,
        {
            assert(list@.take(k + 1).drop_last() =~= list@.take(k as int));
            let ghost so_far = ids@;
            if list[k].1 >= min_score {
                ids.push(list[k].0);
                assert(ids@ =~= so_far + seq![list[k as int].0]);
            } else {
                assert(ids@ =~= so_far + Seq::<VectorID>::empty());
            }
            k += 1;
        }
        proof {
            assert(list@.take(list.len() as int) =~= list@);
            assert(all.take(i + 1).drop_last() =~= all.take(i as int));
            assert(all.take(i + 1).last() == list@);
        }
        i += 1;
    }
    assert(all.take(lists.len() as int) =~= all);
    ids
}

/// The texts in one, with `separator` between neighbours.
pub fn join_texts(parts: &Vec<String>, separator: &str) -> (joined: String)
    ensures
        joined@ == join(string_texts(parts@), separator@),
{
    let ghost all = string_texts(parts@);
    let mut joined = String::new();
    let mut i: usize = 0;
    assert(all.take(0) =~= Seq::<Seq<char>>::empty());
    assert(joined@ =~= join(all.take(0), separator@));
    while i < parts.len()
        invariant
            i <= parts.len(),
            all == string_texts(parts@),
            joined@ == join(all.take(i as int), separator@),
        decreases parts.len() - i,
    {
        proof {
            assert(all.take(i + 1).drop_last() =~= all.take(i as int));
            assert(all.take(i + 1).last() == parts[i as int]@);
        }
        if i > 0 {
            append_text(&mut joined, separator);
        }
        append_text(&mut joined, parts[i].as_str());
        proof {
            if i == 0 {
                assert(joined@ =~= parts[0]@);
                assert(all.take(1)[0] == parts[0]@);
            }
        }
        i += 1;
    }
    assert(all.take(parts.len() as int) =~= all);
    joined
}

/// The texts of all chunks of `files`, file by file: the texts that are
/// embedded, in the order of their identifiers.
pub fn chunk_texts(files: &Vec<RagFile>) -> (texts: Vec<String>)
    ensures
        string_texts(texts@) == all_chunk_texts(file_views(files@)),
{
    let ghost all = file_views(files@);
    let mut texts: Vec<String> = Vec::new();
    let mut f: usize = 0;
    assert(all.take(0) =~= Seq::<crate::document::FileView>::empty());
    assert(string_texts(texts@) =~= all_chunk_texts(all.take(0)));
    while f < files.len()
        invariant
            f <= files.len(),
            all == file_views(files@),
            string_texts(texts@) == all_chunk_texts(all.take(f as int)),
        decreases files.len() - f,
    {
        let file = &files[f];
        let ghost before = string_texts(texts@);
        let ghost chunk_views = Seq::new(
            all[f as int].documents.len(),
            |c: int| all[f as int].documents[c].page_content,
        );
        let mut c: usize = 0;
        assert(string_texts(texts@) =~= before + chunk_views.take(0));
        while c < file.documents.len()
            invariant
                c <= file.documents.len(),
                f < files.len(),
                file == &files[f as int],
                all == file_views(files@),
                chunk_views == Seq::new(
                    all[f as int].documents.len(),
                    |c: int| all[f as int].documents[c].page_content,
                ),
                string_texts(texts@) == before + chunk_views.take(c as int),
            decreases file.documents.len() - c,
        {
            let ghost so_far = string_texts(texts@);
            texts.push(file.documents[c].page_content.clone());
            proof {
                assert(all[f as int].documents[c as int] == file.documents[c as int]@);
                assert(string_texts(texts@) =~= so_far.push(chunk_views[c as int]));
                assert(chunk_views.take(c + 1) =~= chunk_views.take(c as int).push(
                    chunk_views[c as int],
                ));
            }
            c += 1;
        }
        proof {
            assert(chunk_views.take(file.documents.len() as int) =~= chunk_views);
            assert(all.take(f + 1).drop_last() =~= all.take(f as int));
            assert(all.take(f + 1).last() == all[f as int]);
        }
        f += 1;
    }
    assert(all.take(files.len() as int) =~= all);
    texts
}

/// `index` is the lexical index of the chunks of `files`: it holds one
/// document for each chunk, under the identifier of the chunk, in the order
/// of the files and their chunks.
pub open spec fn index_matches(index: BM25, files: Seq<crate::document::FileView>) -> bool {
    &&& index.ids_view() == Seq::new(
        chunk_entries(files).len(),
        |k: int| chunk_entries(files)[k].0,
    )
    &&& index.indexes(
        Seq::new(chunk_entries(files).len(), |k: int| tokens_of(chunk_entries(files)[k].1)),
    )
}

/// Why data cannot be made a store, if it cannot.
pub open spec fn spec_create_refusal(store: RagDataView) -> Option<RagError> {
    if store.chunk_size == 0 {
        Some(RagError::InvalidChunkSize)
    } else if store.chunk_overlap >= store.chunk_size {
        Some(RagError::InvalidChunkOverlap)
    } else if !store.wf() {
        Some(RagError::InvalidSnapshot)
    } else {
        None
    }
}

/// A store with its name, the place where it is kept, its embedding model
/// and its lexical index.
#[derive(Debug)]
pub struct Rag {
    name: String,
    path: String,
    model: Model,
    bm25: BM25,
    data: RagData,
}

impl Rag {
    /// The name of the store.
    pub closed spec fn name_text(&self) -> Seq<char> {
        self.name@
    }

    /// The place where the store is kept.
    pub closed spec fn path_text(&self) -> Seq<char> {
        self.path@
    }

    /// The embedding model.
    pub closed spec fn embedder(&self) -> Model {
        self.model
    }

    /// The lexical index.
    pub closed spec fn lexical(&self) -> BM25 {
        self.bm25
    }

    /// What the store holds.
    pub closed spec fn store(&self) -> RagDataView {
        self.data@
    }

    /// The store is consistent, its chunk overlap is below its chunk size,
    /// and the lexical index is that of its chunks.
    pub open spec fn wf(&self) -> bool {
        &&& self.store().wf()
        &&& self.store().chunk_overlap < self.store().chunk_size
        &&& index_matches(self.lexical(), self.store().files)
    }

    /// The limits that chunks of this store are held to.
    pub open spec fn limits(&self) -> Limits {
        Limits {
            estimator: Estimator::Tokens,
            chunk_size: self.store().chunk_size as nat,
            chunk_overlap: self.store().chunk_overlap as nat,
        }
    }

    /// A store named `name`, kept at `path`, that holds `data` and embeds
    /// with `model`, with the lexical index of its chunks. Data whose chunk
    /// size is zero, whose chunk overlap is not below the chunk size, or that
    /// is not consistent is refused.
    pub fn create(name: &str, path: &str, data: RagData, model: Model) -> (outcome: Result<
        Self,
        RagError,
    >)
        ensures
            match spec_create_refusal(data@) {
                Some(reason) => outcome matches Err(error) && error == reason,
                None => outcome matches Ok(rag) && rag.wf() && rag.store() == data@
                    && rag.name_text() == name@ && rag.path_text() == path@ && rag.embedder()
                    == model,
            },
    {
        match check_chunking(data.chunk_size, data.chunk_overlap) {
            Ok(()) => {},
            Err(error) => {
                return Err(error);
            },
        }
        if !data.is_consistent() {
            return Err(RagError::InvalidSnapshot);
        }
        let bm25 = data.build_bm25();
        Ok(Rag { name: name.to_owned(), path: path.to_owned(), model, bm25, data })
    }

    /// A new store without files, named `name` and kept at `save_path`, for
    /// vectors of `model` and chunks of the given size and overlap. The
    /// chunk size must not be zero and the overlap must be below it.
    pub fn init(name: &str, save_path: &str, model: Model, chunk_size: usize, chunk_overlap: usize) -> (outcome:
        Result<Self, RagError>)
        ensures
            chunk_size == 0 ==> (outcome matches Err(error) && error == RagError::InvalidChunkSize),
            chunk_size > 0 && chunk_overlap >= chunk_size ==> (outcome matches Err(error) && error
                == RagError::InvalidChunkOverlap),
            chunk_overlap < chunk_size ==> (outcome matches Ok(rag) && rag.wf() && rag.store() == (
            RagDataView {
                model: crate::model::model_id(model@),
                chunk_size,
                chunk_overlap,
                files: Seq::empty(),
                vectors: Seq::empty(),
            }) && rag.name_text() == name@ && rag.path_text() == save_path@ && rag.embedder()
                == model),
    {
        let model_id = model.id();
        let data = RagData::new(model_id.as_str(), chunk_size, chunk_overlap);
        Self::create(name, save_path, data, model)
    }

    /// The store that a snapshot holds, under the given name, place and
    /// model.
    pub fn load(name: &str, path: &str, model: Model, bytes: &[u8]) -> (outcome: Result<
        Self,
        RagError,
    >)
        ensures
            match parse_store(bytes@) {
                Some((store, _)) => match spec_create_refusal(store) {
                    Some(reason) => outcome matches Err(error) && error == reason,
                    None => outcome matches Ok(rag) && rag.wf() && rag.store() == store
                        && rag.name_text() == name@ && rag.path_text() == path@ && rag.embedder()
                        == model,
                },
                None => outcome matches Err(error) && error == RagError::InvalidSnapshot,
            },
    {
        match decode_store(bytes) {
            Ok(data) => Self::create(name, path, data, model),
            Err(error) => Err(error),
        }
    }

    /// The name of the store.
    pub fn name(&self) -> (name: &str)
        ensures
            name@ == self.name_text(),
    {
        self.name.as_str()
    }

    /// The place where the store is kept.
    pub fn path(&self) -> (path: &str)
        ensures
            path@ == self.path_text(),
    {
        self.path.as_str()
    }

    /// The embedding model.
    pub fn model(&self) -> (model: &Model)
        ensures
            *model == self.embedder(),
    {
        &self.model
    }

    /// What the store holds.
    pub fn data(&self) -> (data: &RagData)
        ensures
            data@ == self.store(),
    {
        &self.data
    }

    /// The lexical index.
    pub fn bm25(&self) -> (index: &BM25)
        ensures
            *index == self.lexical(),
    {
        &self.bm25
    }

    /// Whether this is the store that is never saved.
    pub fn is_temp(&self) -> (temp: bool)
        ensures
            temp == (self.name_text() == temp_rag_name()),
    {
        same_text(self.name.as_str(), "temp")
    }

    /// The snapshot of the store; none for the store that is never saved.
    /// Reading the snapshot gives the store back.
    pub fn save(&self) -> (bytes: Option<Vec<u8>>)
        ensures
            self.name_text() == temp_rag_name() ==> bytes is None,
            self.name_text() != temp_rag_name() ==> (bytes matches Some(written) && written@
                == enc_store(self.store()) && parse_store(written@) == Some(
                (self.store(), Seq::<u8>::empty()),
            )),
    {
        if self.is_temp() {
            None
        } else {
            Some(encode_store(&self.data))
        }
    }

    /// A summary of the store in YAML: where it is kept, its model, its
    /// chunk size and overlap, and the paths of its files.
    pub fn export(&self) -> (outcome: Result<String, RagError>)
        ensures
            match yaml_summary(
                summary_labels(),
                self.path_text(),
                crate::model::model_id(self.embedder()@),
                self.store().chunk_size,
                self.store().chunk_overlap,
                file_paths(self.store().files),
            ) {
                Some(text) => outcome matches Ok(written) && written@ == text,
                None => outcome matches Err(error) && error == RagError::Export,
            },
    {
        let mut files: Vec<String> = Vec::new();
        let mut i: usize = 0;
        while i < self.data.files.len()
            invariant
                i <= self.data.files.len(),
                files.len() == i,
                forall|k: int| 0 <= k < i ==> files[k]@ == self.data.files[k].path@,
            decreases self.data.files.len() - i,
        {
            files.push(self.data.files[i].path.clone());
            i += 1;
        }
        assert(string_texts(files@) =~= file_paths(self.store().files));
        let mut labels: Vec<String> = Vec::new();
        labels.push("path".to_owned());
        labels.push("model".to_owned());
        labels.push("chunk_size".to_owned());
        labels.push("chunk_overlap".to_owned());
        labels.push("files".to_owned());
        assert(string_texts(labels@) =~= summary_labels());
        let model_id = self.model.id();
        export_outcome(
            summary_to_yaml(
                &labels,
                self.path.as_str(),
                model_id.as_str(),
                self.data.chunk_size,
                self.data.chunk_overlap,
                &files,
            ),
        )
    }

    /// The paths that are still to be taken in: those of `paths` that no
    /// file of the store has, each once, in their order.
    pub fn pending_paths(&self, paths: &Vec<String>) -> (pending: Vec<String>)
        ensures
            string_texts(pending@) == unknown_paths(self.store().files, string_texts(paths@)),
    {
        let ghost all = string_texts(paths@);
        let ghost files = self.store().files;
        let mut pending: Vec<String> = Vec::new();
        let mut i: usize = 0;
        assert(all.take(0) =~= Seq::<Seq<char>>::empty());
        assert(string_texts(pending@) =~= unknown_paths(files, all.take(0)));
        while i < paths.len()
            invariant
                i <= paths.len(),
                all == string_texts(paths@),
                files == self.store().files,
                string_texts(pending@) == unknown_paths(files, all.take(i as int)),
            decreases paths.len() - i,
        {
            let path = paths[i].as_str();
            let ghost earlier = string_texts(pending@);
            proof {
                assert(all.take(i + 1).drop_last() =~= all.take(i as int));
                assert(all.take(i + 1).last() == path@);
            }
            let mut seen = self.data.has_path(path);
            let mut k: usize = 0;
            while k < pending.len() && !seen
                invariant
                    k <= pending.len(),
                    earlier == string_texts(pending@),
                    !seen ==> forall|j: int| 0 <= j < k ==> earlier[j] != path@,
                    !seen ==> !has_path(files, path@),
                    seen ==> has_path(files, path@) || earlier.contains(path@),
                decreases pending.len() - k + (if seen { 0int } else { 1int }),
            {
                if same_text(pending[k].as_str(), path) {
                    assert(earlier[k as int] == path@);
                    assert(earlier.contains(path@));
                    seen = true;
                } else {
                    k += 1;
                }
            }
            if !seen {
                assert(!earlier.contains(path@));
                pending.push(paths[i].clone());
                assert(string_texts(pending@) =~= earlier.push(path@));
            }
            i += 1;
        }
        assert(all.take(paths.len() as int) =~= all);
        pending
    }

    /// The file at `path` with the chunks of `documents`, split with the
    /// separators for `extension` under the limits of the store.
    pub fn split_file(&self, path: String, extension: &str, documents: &Vec<RagDocument>) -> (file:
        RagFile)
        ensures
            file@.path == path@,
            file@.documents == documents_pieces(
                self.limits(),
                separators_for(extension@),
                document_views(documents@),
            ),
            forall|k: int|
                0 <= k < file@.documents.len() ==> chunk_bounded(
                    self.limits(),
                    (#[trigger] file@.documents[k]).page_content,
                ),
    {
        proof {
            crate::separators::lemma_separators_have_terminal(extension@);
            lemma_documents_pieces_bounded(
                self.limits(),
                separators_for(extension@),
                document_views(documents@),
            );
        }
        let separators = detect_separators(extension);
        let splitter = RecursiveCharacterTextSplitter::new(
            self.data.chunk_size,
            self.data.chunk_overlap,
            separators.as_slice(),
        );
        assert(splitter.ladder() =~= slice_texts(separators@));
        let chunks = splitter.split_documents(documents);
        RagFile { path, documents: chunks }
    }

    /// The texts to embed for a query: the chunks of the query under the
    /// separators for prose and the limits of the store.
    pub fn query_texts(&self, query: &str) -> (texts: Vec<String>)
        ensures
            string_texts(texts@) == split_level(self.limits(), default_ladder(), query@, 0),
            forall|k: int|
                0 <= k < texts.len() ==> chunk_bounded(self.limits(), (#[trigger] texts[k])@),
    {
        proof {
            reveal_strlit("");
            assert(default_ladder()[5].len() == 0);
            assert(has_terminal(default_ladder(), 0));
        }
        let separators = default_separators();
        let splitter = RecursiveCharacterTextSplitter::new(
            self.data.chunk_size,
            self.data.chunk_overlap,
            separators.as_slice(),
        );
        assert(splitter.ladder() =~= slice_texts(separators@));
        splitter.split_text(query)
    }

    /// Takes in `files` with one vector for each of their chunks, and builds
    /// the lexical index anew. Where they cannot be taken in, the store stays
    /// as it was.
    pub fn add_files(&mut self, files: Vec<RagFile>, embeddings: Vec<Vec<u32>>) -> (outcome:
        Result<(), RagError>)
        requires
            old(self).wf(),
        ensures
            final(self).wf(),
            final(self).name_text() == old(self).name_text(),
            final(self).path_text() == old(self).path_text(),
            final(self).embedder() == old(self).embedder(),
            match old(self).store().refusal(file_views(files@), vector_views(embeddings@)) {
                Some(error) => outcome == Err::<(), RagError>(error) && final(self).store() == old(
                    self,
                ).store() && final(self).lexical() == old(self).lexical(),
                None => outcome is Ok && final(self).store() == old(self).store().added(
                    file_views(files@),
                    old(self).store().next_ids(file_views(files@)),
                    vector_views(embeddings@),
                ),
            },
    {
        match self.data.ingest(files, embeddings) {
            Ok(()) => {
                self.bm25 = self.data.build_bm25();
                Ok(())
            },
            Err(error) => Err(error),
        }
    }

    /// The identifiers of the chunks by descending score: those whose score
    /// reaches `min_score`, where one is given, earlier chunks before later
    /// ones of the same score, at most `top_k` of them. `scores` holds one
    /// score for each chunk of the store, in the order of the chunks. No
    /// identifier comes twice, and each is that of a chunk of the store.
    pub fn text_search(&self, scores: &Vec<u128>, top_k: usize, min_score: Option<u128>) -> (outcome:
        Result<Vec<VectorID>, RagError>)
        requires
            self.wf(),
        ensures
            scores.len() != self.store().vectors.len() ==> outcome == Err::<
                Vec<VectorID>,
                RagError,
            >(RagError::ScoreCount),
            scores.len() == self.store().vectors.len() ==> (outcome matches Ok(found) && {
                let picks = ranking_of(key_values(scores@), floor_value(min_score), top_k as nat);
                &&& is_ranking(key_values(scores@), floor_value(min_score), top_k as nat, picks)
                &&& found@ == Seq::new(
                    picks.len(),
                    |i: int| self.store().vectors[picks[i] as int].0,
                )
                &&& found.len() <= top_k
                &&& forall|i: int, j: int|
                    0 <= i < j < found.len() ==> #[trigger] found[i] != #[trigger] found[j]
                &&& forall|i: int|
                    0 <= i < found.len() ==> has_vector_key(
                        self.store().vectors,
                        #[trigger] found[i],
                    ) && chunk_at(self.store().files, found[i]) is Some
            }),
    {
        let ghost store = self.store();
        proof {
            lemma_chunk_ids_are_keys(store);
            assert(self.lexical().ids_view() == chunk_ids(store.files));
        }
        let outcome = self.bm25.rank(scores, top_k, min_score);
        proof {
            if scores.len() == store.vectors.len() {
                let picks = ranking_of(key_values(scores@), floor_value(min_score), top_k as nat);
                let found = outcome->Ok_0;
                let keys = entry_keys(store.vectors);
                lemma_ranking_descends(
                    key_values(scores@),
                    floor_value(min_score),
                    top_k as nat,
                    picks,
                );
                lemma_keys_distinct(store);
                assert forall|i: int| 0 <= i < found.len() implies found[i]
                    == store.vectors[picks[i] as int].0 && picks[i] < store.vectors.len() by {
                    assert(eligible(
                        key_values(scores@),
                        floor_value(min_score),
                        picks[i] as int,
                    ));
                    assert(keys[picks[i] as int] == store.vectors[picks[i] as int].0);
                }
                assert(found@ =~= Seq::new(
                    picks.len(),
                    |i: int| store.vectors[picks[i] as int].0,
                ));
                assert forall|i: int, j: int| 0 <= i < j < found.len() implies #[trigger] found[i]
                    != #[trigger] found[j] by {
                    let a = picks[i] as int;
                    let b = picks[j] as int;
                    assert(a != b);
                    if a < b {
                        assert(store.vectors[a].0 != store.vectors[b].0);
                    } else {
                        assert(store.vectors[b].0 != store.vectors[a].0);
                    }
                }
                assert forall|i: int| 0 <= i < found.len() implies has_vector_key(
                    store.vectors,
                    #[trigger] found[i],
                ) && chunk_at(store.files, found[i]) is Some by {
                    assert(store.vectors[picks[i] as int].0 == found[i]);
                    lemma_keys_resolve(store, found[i]);
                }
            }
        }
        outcome
    }

    /// The texts of the chunks that the fusion of the two result lists
    /// selects: the vector hits and the lexical hits fused with equal
    /// weights, at most `top_k` of them, without identifiers that the store
    /// does not have.
    pub fn fuse(&self, vector_search_ids: Vec<VectorID>, text_search_ids: Vec<VectorID>, top_k: usize) -> (chunks:
        Vec<String>)
        ensures
            string_texts(chunks@) == resolved_chunks(
                self.store().files,
                fused_ranking(vector_search_ids@, text_search_ids@, 1, 1, top_k as nat),
            ),
    {
        let ids = reciprocal_rank_fusion(vector_search_ids, text_search_ids, 1, 1, top_k);
        let ghost files = self.store().files;
        let mut chunks: Vec<String> = Vec::new();
        let mut i: usize = 0;
        assert(ids@.take(0) =~= Seq::<VectorID>::empty());
        assert(string_texts(chunks@) =~= resolved_chunks(files, ids@.take(0)));
        while i < ids.len()
            invariant
                i <= ids.len(),
                files == self.store().files,
                string_texts(chunks@) == resolved_chunks(files, ids@.take(i as int)),
            decreases ids.len() - i,
        {
            let ghost before = string_texts(chunks@);
            proof {
                assert(ids@.take(i + 1).drop_last() =~= ids@.take(i as int));
            }
            match self.data.chunk_text(ids[i]) {
                Some(text) => {
                    chunks.push(text.to_owned());
                    assert(string_texts(chunks@) =~= before + seq![text@]);
                },
                None => {
                    assert(string_texts(chunks@) =~= before + Seq::<Seq<char>>::empty());
                },
            }
            i += 1;
        }
        assert(ids@.take(ids.len() as int) =~= ids@);
        chunks
    }

    /// The answer to a search: the texts that `fuse` selects, with a blank
    /// line between neighbours.
    pub fn search(
        &self,
        vector_search_ids: Vec<VectorID>,
        text_search_ids: Vec<VectorID>,
        top_k: usize,
    ) -> (output: String)
        ensures
            output@ == join(
                resolved_chunks(
                    self.store().files,
                    fused_ranking(vector_search_ids@, text_search_ids@, 1, 1, top_k as nat),
                ),
                seq!['\n', '\n'],
            ),
    {
        let chunks = self.fuse(vector_search_ids, text_search_ids, top_k);
        proof {
            reveal_strlit("\n\n");
            assert("\n\n"@ =~= seq!['\n', '\n']);
        }
        join_texts(&chunks, "\n\n")
    }
}

/// A path that a file of the store has is not taken in again.
pub proof fn lemma_known_path_is_skipped(files: Seq<crate::document::FileView>, path: Seq<char>)
    requires
        has_path(files, path),
    ensures
        unknown_paths(files, seq![path]) == Seq::<Seq<char>>::empty(),
{
    let paths = seq![path];
    assert(paths.drop_last() =~= Seq::<Seq<char>>::empty());
    assert(unknown_paths(files, paths.drop_last()) =~= Seq::<Seq<char>>::empty());
}

/// Once files were taken in, each of their paths is one that the store has.
pub proof fn lemma_added_path_is_known(
    store: RagDataView,
    files: Seq<crate::document::FileView>,
    ids: Seq<VectorID>,
    vectors: Seq<Seq<u32>>,
    i: int,
)
    requires
        0 <= i < files.len(),
    ensures
        has_path(store.added(files, ids, vectors).files, files[i].path),
{
    let all = store.added(files, ids, vectors).files;
    assert(all[store.files.len() + i] == files[i]);
}

/// Taking in no files leaves the store as it is.
pub proof fn lemma_adding_nothing(store: RagDataView)
    requires
        store.wf(),
    ensures
        store.refusal(Seq::empty(), Seq::empty()) is None,
        store.added(Seq::empty(), store.next_ids(Seq::empty()), Seq::empty()) == store,
{
    let none = Seq::<crate::document::FileView>::empty();
    assert(store.files + none =~= store.files);
    assert(crate::rag_data::chunk_counts(none) =~= Seq::<nat>::empty());
    assert(store.next_ids(none) =~= Seq::<VectorID>::empty());
    assert(crate::rag_data::zip_entries(store.next_ids(none), Seq::<Seq<u32>>::empty())
        =~= Seq::<(VectorID, Seq<u32>)>::empty());
    assert(store.vectors + Seq::<(VectorID, Seq<u32>)>::empty() =~= store.vectors);
}

} // verus!
