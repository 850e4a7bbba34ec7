use crate::bm25::{tokens_of, BM25Options, BM25};
use crate::document::{FileView, RagFile};
use crate::error::RagError;
use crate::ordered_map::{
    has_vector_key, vector_entries, vectors_get_index, vectors_insert, vectors_len, vectors_new,
};
use crate::text::same_text;
use crate::vector_id::{
    combine_vector_id, combined_id, half_limit, half_limit_value, lemma_split_combine, packed_id,
    split_vector_id, VectorID,
};
use indexmap::IndexMap;
use vstd::prelude::*;

verus! {

/// The persistent part of a store: the model that made the vectors, the
/// chunking parameters, the files with their chunks, and one vector for each
/// chunk. A vector is held as the bit patterns of its components.
#[derive(Debug)]
pub struct RagData {
    pub model: String,
    pub chunk_size: usize,
    pub chunk_overlap: usize,
    pub files: Vec<RagFile>,
    pub vectors: IndexMap<VectorID, Vec<u32>>,
}

/// What a store holds.
pub struct RagDataView {
    pub model: Seq<char>,
    pub chunk_size: usize,
    pub chunk_overlap: usize,
    pub files: Seq<FileView>,
    pub vectors: Seq<(VectorID, Seq<u32>)>,
}

/// What each of a list of files holds.
pub open spec fn file_views(files: Seq<RagFile>) -> Seq<FileView> {
    Seq::new(files.len(), |i: int| files[i]@)
}

/// The components of each of a list of vectors.
pub open spec fn vector_views(vectors: Seq<Vec<u32>>) -> Seq<Seq<u32>> {
    Seq::new(vectors.len(), |i: int| vectors[i]@)
}

impl View for RagData {
    type V = RagDataView;

    open spec fn view(&self) -> RagDataView {
        RagDataView {
            model: self.model@,
            chunk_size: self.chunk_size,
            chunk_overlap: self.chunk_overlap,
            files: file_views(self.files@),
            vectors: vector_entries(self.vectors),
        }
    }
}

/// The identifiers of the chunks of one file, in order.
pub open spec fn file_ids(file_index: nat, count: nat) -> Seq<nat> {
    Seq::new(count, |c: int| packed_id(file_index, c as nat))
}

/// The identifiers of the chunks of files with the given numbers of chunks,
/// the first of which has index `base`: file by file, chunk by chunk.
pub open spec fn layout_ids(counts: Seq<nat>, base: nat) -> Seq<nat>
    decreases counts.len(),
{
    if counts.len() == 0 {
        Seq::empty()
    } else {
        layout_ids(counts.drop_last(), base) + file_ids(
            (base + counts.len() - 1) as nat,
            counts.last(),
        )
    }
}

/// The number of chunks of each file.
pub open spec fn chunk_counts(files: Seq<FileView>) -> Seq<nat> {
    Seq::new(files.len(), |i: int| files[i].documents.len())
}

/// Every file index and every chunk index fits in half a word, so that no
/// two chunks share an identifier.
pub open spec fn layout_fits(counts: Seq<nat>, base: nat) -> bool {
    &&& base + counts.len() <= half_limit()
    &&& forall|i: int| 0 <= i < counts.len() ==> #[trigger] counts[i] <= half_limit()
}

/// No two files share a path.
pub open spec fn paths_distinct(files: Seq<FileView>) -> bool {
    forall|i: int, j: int|
        0 <= i < files.len() && 0 <= j < files.len() && i != j ==> (#[trigger] files[i]).path != (
        #[trigger] files[j]).path
}

/// The identifiers as numbers.
pub open spec fn id_values(ids: Seq<VectorID>) -> Seq<nat> {
    Seq::new(ids.len(), |i: int| ids[i] as nat)
}

/// The keys of a list of entries.
pub open spec fn entry_keys(entries: Seq<(VectorID, Seq<u32>)>) -> Seq<VectorID> {
    Seq::new(entries.len(), |i: int| entries[i].0)
}

/// All vectors have the same number of components.
pub open spec fn same_dimension(entries: Seq<(VectorID, Seq<u32>)>) -> bool {
    forall|i: int, j: int|
        0 <= i < entries.len() && 0 <= j < entries.len() ==> (#[trigger] entries[i]).1.len() == (
        #[trigger] entries[j]).1.len()
}

/// Identifiers paired with vectors, position by position.
pub open spec fn zip_entries(ids: Seq<VectorID>, vectors: Seq<Seq<u32>>) -> Seq<
    (VectorID, Seq<u32>),
> {
    Seq::new(ids.len(), |i: int| (ids[i], vectors[i]))
}

/// The chunks of one file, each under its identifier.
pub open spec fn file_entries(file_index: usize, file: FileView) -> Seq<(VectorID, Seq<char>)> {
    Seq::new(
        file.documents.len(),
        |c: int| (combined_id(file_index, c as usize), file.documents[c].page_content),
    )
}

/// The chunks of all files, each under its identifier, file by file.
pub open spec fn chunk_entries(files: Seq<FileView>) -> Seq<(VectorID, Seq<char>)>
    decreases files.len(),
{
    if files.len() == 0 {
        Seq::empty()
    } else {
        chunk_entries(files.drop_last()) + file_entries((files.len() - 1) as usize, files.last())
    }
}

/// The text of the chunk that `id` stands for, if the files have it.
pub open spec fn chunk_at(files: Seq<FileView>, id: VectorID) -> Option<Seq<char>> {
    let pair = crate::vector_id::unpacked_id(id as nat);
    if pair.0 < files.len() && pair.1 < files[pair.0 as int].documents.len() {
        Some(files[pair.0 as int].documents[pair.1 as int].page_content)
    } else {
        None
    }
}

/// The identifiers of the chunks of all files, file by file.
pub open spec fn chunk_ids(files: Seq<FileView>) -> Seq<VectorID> {
    Seq::new(chunk_entries(files).len(), |k: int| chunk_entries(files)[k].0)
}

/// The identifiers of a layout as keys.
pub open spec fn layout_keys(counts: Seq<nat>, base: nat) -> Seq<VectorID> {
    Seq::new(layout_ids(counts, base).len(), |i: int| layout_ids(counts, base)[i] as usize)
}

/// Some file has the given path.
pub open spec fn has_path(files: Seq<FileView>, path: Seq<char>) -> bool {
    exists|i: int| 0 <= i < files.len() && (#[trigger] files[i]).path == path
}

impl RagDataView {
    /// The identifiers that the chunks of `files` get when the files are
    /// appended to this store.
    pub open spec fn next_ids(self, files: Seq<FileView>) -> Seq<VectorID> {
        layout_keys(chunk_counts(files), self.files.len())
    }

    /// Why `files` with `vectors` cannot be taken in, if they cannot.
    pub open spec fn refusal(self, files: Seq<FileView>, vectors: Seq<Seq<u32>>) -> Option<
        RagError,
    > {
        if !layout_fits(chunk_counts(self.files + files), 0) {
            Some(RagError::TooManyChunks)
        } else if !paths_distinct(self.files + files) {
            Some(RagError::DuplicatePath)
        } else if vectors.len() != self.next_ids(files).len() {
            Some(RagError::EmbeddingCount)
        } else if !same_dimension(self.vectors + zip_entries(self.next_ids(files), vectors)) {
            Some(RagError::EmbeddingDimension)
        } else {
            None
        }
    }

    /// The store is consistent: the vectors are keyed by the identifiers of
    /// the chunks of the files, in the order of the files and their chunks;
    /// all vectors have one dimension; no two files share a path.
    pub open spec fn wf(self) -> bool {
        &&& layout_fits(chunk_counts(self.files), 0)
        &&& paths_distinct(self.files)
        &&& id_values(entry_keys(self.vectors)) == layout_ids(chunk_counts(self.files), 0)
        &&& same_dimension(self.vectors)
    }

    /// The store after `files` were appended with `vectors` under `ids`.
    pub open spec fn added(
        self,
        files: Seq<FileView>,
        ids: Seq<VectorID>,
        vectors: Seq<Seq<u32>>,
    ) -> RagDataView {
        RagDataView {
            model: self.model,
            chunk_size: self.chunk_size,
            chunk_overlap: self.chunk_overlap,
            files: self.files + files,
            vectors: self.vectors + zip_entries(ids, vectors),
        }
    }

    /// `files` may be appended with `vectors` under `ids`: the identifiers
    /// are those of the chunks of the new files under the layout that
    /// results, there is one vector for each, of the dimension of the store,
    /// and no path occurs twice.
    pub open spec fn admits(
        self,
        files: Seq<FileView>,
        ids: Seq<VectorID>,
        vectors: Seq<Seq<u32>>,
    ) -> bool {
        &&& layout_fits(chunk_counts(self.files + files), 0)
        &&& paths_distinct(self.files + files)
        &&& id_values(ids) == layout_ids(chunk_counts(files), self.files.len())
        &&& vectors.len() == ids.len()
        &&& same_dimension(self.vectors + zip_entries(ids, vectors))
    }
}

/// The length of a layout is the number of all chunks, and its identifiers
/// rise: each lies within the range of its file, and is larger than the one
/// before it.
pub proof fn lemma_layout_rises(counts: Seq<nat>, base: nat)
    requires
        layout_fits(counts, base),
    ensures
        forall|k: int|
            0 <= k < layout_ids(counts, base).len() ==> base * half_limit() <= #[trigger] layout_ids(
                counts,
                base,
            )[k] < (base + counts.len()) * half_limit(),
        forall|i: int, j: int|
            0 <= i < j < layout_ids(counts, base).len() ==> #[trigger] layout_ids(counts, base)[i]
                < #[trigger] layout_ids(counts, base)[j],
    decreases counts.len(),
{
    if counts.len() > 0 {
        let front = counts.drop_last();
        lemma_layout_rises(front, base);
        let head = layout_ids(front, base);
        let f = (base + counts.len() - 1) as nat;
        let tail = file_ids(f, counts.last());
        let all = layout_ids(counts, base);
        let h = half_limit() as int;
        assert(all == head + tail);
        assert((base + front.len()) * h == f * h);
        assert((f + 1) * h == f * h + h) by (nonlinear_arith);
        assert(base * h <= f * h) by (nonlinear_arith)
            requires
                base <= f,
                h > 0,
        ;
        assert forall|k: int| 0 <= k < all.len() implies base * half_limit() <= #[trigger] all[k] < (
        base + counts.len()) * half_limit() by {
            if k < head.len() {
                assert(all[k] == head[k]);
            } else {
                assert(all[k] == tail[k - head.len()]);
            }
        }
        assert forall|i: int, j: int| 0 <= i < j < all.len() implies #[trigger] all[i]
            < #[trigger] all[j] by {
            if j < head.len() {
                assert(all[i] == head[i] && all[j] == head[j]);
            } else if i < head.len() {
                assert(all[i] == head[i]);
                assert(all[j] == tail[j - head.len()]);
            } else {
                assert(all[i] == tail[i - head.len()]);
                assert(all[j] == tail[j - head.len()]);
            }
        }
    }
}

/// The layout of two lists of files, one after the other, is the layout of
/// the first followed by that of the second, which begins where the first
/// ends.
pub proof fn lemma_layout_concat(a: Seq<nat>, b: Seq<nat>, base: nat)
    ensures
        layout_ids(a + b, base) == layout_ids(a, base) + layout_ids(b, base + a.len()),
    decreases b.len(),
{
    if b.len() == 0 {
        assert(a + b =~= a);
        assert(layout_ids(b, base + a.len()) =~= Seq::<nat>::empty());
        assert(layout_ids(a, base) + Seq::<nat>::empty() =~= layout_ids(a, base));
    } else {
        assert((a + b).drop_last() =~= a + b.drop_last());
        assert((a + b).last() == b.last());
        lemma_layout_concat(a, b.drop_last(), base);
        assert(layout_ids(a + b, base) =~= layout_ids(a, base) + layout_ids(b, base + a.len()));
    }
}

/// A layout holds the identifier of chunk `c` of file `f` exactly for the
/// chunks that the files have.
pub proof fn lemma_layout_members(counts: Seq<nat>, base: nat, id: nat)
    ensures
        layout_ids(counts, base).contains(id) <==> exists|f: int, c: int|
            0 <= f < counts.len() && 0 <= c < counts[f] && id == #[trigger] packed_id(
                (base + f) as nat,
                c as nat,
            ),
    decreases counts.len(),
{
    let all = layout_ids(counts, base);
    if counts.len() > 0 {
        let front = counts.drop_last();
        lemma_layout_members(front, base, id);
        let head = layout_ids(front, base);
        let last = counts.len() - 1;
        let tail = file_ids((base + last) as nat, counts.last());
        if all.contains(id) {
            let k = choose|k: int| 0 <= k < all.len() && all[k] == id;
            if k < head.len() {
                assert(head[k] == id);
                assert(head.contains(id));
                let (f, c) = choose|f: int, c: int|
                    0 <= f < front.len() && 0 <= c < front[f] && id == #[trigger] packed_id(
                        (base + f) as nat,
                        c as nat,
                    );
                assert(0 <= f < counts.len() && 0 <= c < counts[f] && id == packed_id(
                    (base + f) as nat,
                    c as nat,
                ));
            } else {
                let c = k - head.len();
                assert(tail[c] == id);
                assert(0 <= last < counts.len() && 0 <= c < counts[last] && id == packed_id(
                    (base + last) as nat,
                    c as nat,
                ));
            }
        }
        if exists|f: int, c: int|
            0 <= f < counts.len() && 0 <= c < counts[f] && id == #[trigger] packed_id(
                (base + f) as nat,
                c as nat,
            ) {
            let (f, c) = choose|f: int, c: int|
                0 <= f < counts.len() && 0 <= c < counts[f] && id == #[trigger] packed_id(
                    (base + f) as nat,
                    c as nat,
                );
            if f < last {
                assert(0 <= f < front.len() && 0 <= c < front[f] && id == packed_id(
                    (base + f) as nat,
                    c as nat,
                ));
                assert(head.contains(id));
                let k = choose|k: int| 0 <= k < head.len() && head[k] == id;
                assert(all[k] == id);
            } else {
                assert(tail[c] == id);
                assert(all[head.len() + c] == id);
            }
        }
    }
}

/// In a consistent store the keys of the vectors are exactly the identifiers
/// of the chunks that its files hold, and the vectors share one dimension.
pub proof fn lemma_keys_match_chunks(store: RagDataView, f: nat, c: nat)
    requires
        store.wf(),
        f < half_limit(),
        c < half_limit(),
    ensures
        has_vector_key(store.vectors, packed_id(f, c) as usize) <==> f < store.files.len() && c
            < store.files[f as int].documents.len(),
        same_dimension(store.vectors),
{
    let counts = chunk_counts(store.files);
    let keys = id_values(entry_keys(store.vectors));
    let id = packed_id(f, c);
    lemma_split_combine(f, c);
    lemma_layout_members(counts, 0, id);
    if has_vector_key(store.vectors, id as usize) {
        let i = choose|i: int| 0 <= i < store.vectors.len() && (#[trigger] store.vectors[i]).0 == id as usize;
        assert(keys[i] == id);
        assert(layout_ids(counts, 0).contains(id));
        let (f2, c2) = choose|f2: int, c2: int|
            0 <= f2 < counts.len() && 0 <= c2 < counts[f2] && id == #[trigger] packed_id(
                (0 + f2) as nat,
                c2 as nat,
            );
        crate::vector_id::lemma_packed_id_injective(f, c, f2 as nat, c2 as nat);
    }
    if f < store.files.len() && c < store.files[f as int].documents.len() {
        let base = 0nat;
        let fi = f as int;
        let ci = c as int;
        assert(0 <= fi < counts.len() && 0 <= ci < counts[fi] && id == packed_id(
            (base + fi) as nat,
            ci as nat,
        ));
        assert(layout_ids(counts, base).contains(id));
        let k = choose|k: int| 0 <= k < keys.len() && keys[k] == id;
        assert(store.vectors[k].0 == id as usize);
    }
}

/// The identifiers of the chunks of files whose indices fit in half a word
/// are those of the layout of the files.
pub proof fn lemma_chunk_ids_follow_layout(files: Seq<FileView>)
    requires
        layout_fits(chunk_counts(files), 0),
    ensures
        id_values(chunk_ids(files)) == layout_ids(chunk_counts(files), 0),
    decreases files.len(),
{
    let counts = chunk_counts(files);
    if files.len() == 0 {
        assert(id_values(chunk_ids(files)) =~= layout_ids(counts, 0));
    } else {
        let front = files.drop_last();
        let last = files.len() - 1;
        assert(counts.drop_last() =~= chunk_counts(front));
        assert(layout_fits(chunk_counts(front), 0)) by {
            assert forall|i: int| 0 <= i < front.len() implies #[trigger] chunk_counts(front)[i]
                <= half_limit() by {
                assert(counts[i] <= half_limit());
            }
        }
        lemma_chunk_ids_follow_layout(front);
        let head = chunk_entries(front);
        let tail = file_entries(last as usize, files.last());
        let ids = id_values(chunk_ids(files));
        let layout = layout_ids(counts, 0);
        assert(counts[last] <= half_limit());
        assert(layout == layout_ids(chunk_counts(front), 0) + file_ids(last as nat, counts.last()));
        assert(ids.len() == layout.len());
        assert forall|k: int| 0 <= k < ids.len() implies ids[k] == layout[k] by {
            if k < head.len() {
                assert(chunk_entries(files)[k] == head[k]);
                assert(id_values(chunk_ids(front))[k] == head[k].0 as nat);
            } else {
                let c = k - head.len();
                assert(chunk_entries(files)[k] == tail[c]);
                crate::vector_id::lemma_combined_is_packed(last as usize, c as usize);
            }
        }
        assert(ids =~= layout);
    }
}

/// In a consistent store the chunks of the files, in their order, have the
/// keys of the vectors, in their order, as their identifiers.
pub proof fn lemma_chunk_ids_are_keys(store: RagDataView)
    requires
        store.wf(),
    ensures
        chunk_ids(store.files) == entry_keys(store.vectors),
{
    lemma_chunk_ids_follow_layout(store.files);
    let ids = chunk_ids(store.files);
    let keys = entry_keys(store.vectors);
    assert(id_values(ids).len() == id_values(keys).len());
    assert forall|k: int| 0 <= k < ids.len() implies ids[k] == keys[k] by {
        assert(id_values(ids)[k] == ids[k] as nat);
        assert(id_values(keys)[k] == keys[k] as nat);
    }
    assert(ids =~= keys);
}

/// In a consistent store every key of a vector is the identifier of a chunk
/// that the files hold.
pub proof fn lemma_keys_resolve(store: RagDataView, id: VectorID)
    requires
        store.wf(),
        has_vector_key(store.vectors, id),
    ensures
        chunk_at(store.files, id) is Some,
{
    let pair = crate::vector_id::unpacked_id(id as nat);
    crate::vector_id::lemma_unpacked_in_range(id);
    crate::vector_id::lemma_combine_split(id as nat);
    lemma_keys_match_chunks(store, pair.0, pair.1);
}

/// In a consistent store no identifier is the key of two vectors.
pub proof fn lemma_keys_distinct(store: RagDataView)
    requires
        store.wf(),
    ensures
        forall|i: int, j: int|
            0 <= i < j < store.vectors.len() ==> (#[trigger] store.vectors[i]).0 != (
            #[trigger] store.vectors[j]).0,
{
    let keys = id_values(entry_keys(store.vectors));
    lemma_layout_rises(chunk_counts(store.files), 0);
    assert forall|i: int, j: int| 0 <= i < j < store.vectors.len() implies (
    #[trigger] store.vectors[i]).0 != (#[trigger] store.vectors[j]).0 by {
        assert(keys[i] == store.vectors[i].0 as nat);
        assert(keys[j] == store.vectors[j].0 as nat);
        assert(keys[i] < keys[j]);
    }
}

impl RagData {
    /// An empty store for vectors of `model` and chunks of the given size
    /// and overlap.
    pub fn new(model: &str, chunk_size: usize, chunk_overlap: usize) -> (data: Self)
        ensures
            data@.model == model@,
            data@.chunk_size == chunk_size,
            data@.chunk_overlap == chunk_overlap,
            data@.files == Seq::<FileView>::empty(),
            data@.vectors == Seq::<(VectorID, Seq<u32>)>::empty(),
            data@.wf(),
    {
        let data = RagData {
            model: model.to_owned(),
            chunk_size,
            chunk_overlap,
            files: Vec::new(),
            vectors: vectors_new(),
        };
        proof {
            assert(data@.files =~= Seq::<FileView>::empty());
            assert(chunk_counts(data@.files) =~= Seq::<nat>::empty());
            assert(id_values(entry_keys(data@.vectors)) =~= Seq::<nat>::empty());
        }
        data
    }

    /// The identifiers of the chunks of `files`, where the first of them is
    /// file number `first_file` of the store; `None` where an index does not
    /// fit in half a word.
    pub fn enumerate_ids(first_file: usize, files: &Vec<RagFile>) -> (ids: Option<Vec<VectorID>>)
        ensures
            ids is Some <==> layout_fits(chunk_counts(file_views(files@)), first_file as nat),
            ids matches Some(v) ==> id_values(v@) == layout_ids(
                chunk_counts(file_views(files@)),
                first_file as nat,
            ),
    {
        let limit = half_limit_value();
        let ghost counts = chunk_counts(file_views(files@));
        if first_file > limit || files.len() > limit - first_file {
            return None;
        }
        let mut ids: Vec<VectorID> = Vec::new();
        let mut i: usize = 0;
        assert(id_values(ids@) =~= layout_ids(counts.take(0), first_file as nat));
        while i < files.len()
            invariant
                i <= files.len(),
                limit == half_limit(),
                first_file + files.len() <= limit,
                counts == chunk_counts(file_views(files@)),
                forall|j: int| 0 <= j < i ==> #[trigger] counts[j] <= half_limit(),
                id_values(ids@) == layout_ids(counts.take(i as int), first_file as nat),
            decreases files.len() - i,
        {
            let count = files[i].documents.len();
            assert(counts[i as int] == count);
            if count > limit {
                return None;
            }
            let ghost head = id_values(ids@);
            let ghost file = file_ids((first_file + i) as nat, count as nat);
            let mut c: usize = 0;
            assert(id_values(ids@) =~= head + file.take(0));
            while c < count
                invariant
                    c <= count <= limit,
                    limit == half_limit(),
                    first_file + i < limit,
                    file == file_ids((first_file + i) as nat, count as nat),
                    id_values(ids@) == head + file.take(c as int),
                decreases count - c,
            {
                let ghost before = id_values(ids@);
                let id = combine_vector_id(first_file + i, c);
                ids.push(id);
                proof {
                    assert(id_values(ids@) =~= before.push(id as nat));
                    assert(file.take(c + 1) =~= file.take(c as int).push(file[c as int]));
                    assert(head + file.take(c + 1) =~= (head + file.take(c as int)).push(
                        file[c as int],
                    ));
                }
                c += 1;
            }
            proof {
                assert(file.take(count as int) =~= file);
                assert(counts.take(i + 1).drop_last() =~= counts.take(i as int));
                assert(counts.take(i + 1).last() == count as nat);
            }
            i += 1;
        }
        assert(counts.take(files.len() as int) =~= counts);
        Some(ids)
    }

    /// Appends `files` to the store, and `embeddings` under `vector_ids` to
    /// its vectors, in the order given.
    pub fn add(&mut self, files: Vec<RagFile>, vector_ids: Vec<VectorID>, embeddings: Vec<Vec<u32>>)
        requires
            old(self)@.wf(),
            old(self)@.admits(file_views(files@), vector_ids@, vector_views(embeddings@)),
        ensures
            final(self)@ == old(self)@.added(
                file_views(files@),
                vector_ids@,
                vector_views(embeddings@),
            ),
            final(self)@.wf(),
    {
        let ghost before = self@;
        let ghost new_files = file_views(files@);
        let ghost new_vectors = vector_views(embeddings@);
        let ghost pairs = zip_entries(vector_ids@, new_vectors);
        let ghost old_counts = chunk_counts(before.files);
        let ghost new_counts = chunk_counts(new_files);
        let mut files = files;
        let mut embeddings = embeddings;
        self.files.append(&mut files);
        proof {
            assert(file_views(self.files@) =~= before.files + new_files);
            assert(chunk_counts(before.files + new_files) =~= old_counts + new_counts);
            lemma_layout_concat(old_counts, new_counts, 0);
            lemma_layout_rises(old_counts + new_counts, 0);
            assert(pairs.take(0) =~= Seq::<(VectorID, Seq<u32>)>::empty());
            assert(before.vectors + pairs.take(0) =~= before.vectors);
        }
        let ghost all_ids = layout_ids(old_counts + new_counts, 0);
        let mut i: usize = 0;
        while i < vector_ids.len()
            invariant
                i <= vector_ids.len(),
                embeddings.len() == vector_ids.len(),
                forall|j: int| i <= j < embeddings.len() ==> embeddings[j]@ == new_vectors[j],
                new_vectors.len() == vector_ids.len(),
                pairs == zip_entries(vector_ids@, new_vectors),
                vector_entries(self.vectors) == before.vectors + pairs.take(i as int),
                all_ids == id_values(entry_keys(before.vectors)) + id_values(vector_ids@),
                forall|a: int, b: int|
                    0 <= a < b < all_ids.len() ==> #[trigger] all_ids[a] < #[trigger] all_ids[b],
                self.model == old(self).model,
                self.chunk_size == old(self).chunk_size,
                self.chunk_overlap == old(self).chunk_overlap,
                file_views(self.files@) == before.files + new_files,
            decreases vector_ids.len() - i,
        {
            let id = vector_ids[i];
            let mut vector: Vec<u32> = Vec::new();
            std::mem::swap(&mut vector, &mut embeddings[i]);
            let ghost entries = vector_entries(self.vectors);
            proof {
                let offset = before.vectors.len() as int;
                assert(all_ids[offset + i] == id as nat);
                if has_vector_key(entries, id) {
                    let k = choose|k: int| 0 <= k < entries.len() && (#[trigger] entries[k]).0 == id;
                    if k < offset {
                        assert(entries[k] == before.vectors[k]);
                        assert(all_ids[k] == id as nat);
                    } else {
                        assert(entries[k] == pairs[k - offset]);
                        assert(all_ids[k] == id as nat);
                    }
                }
                assert(!has_vector_key(entries, id));
            }
            vectors_insert(&mut self.vectors, id, vector);
            proof {
                assert(pairs.take(i + 1) =~= pairs.take(i as int).push(pairs[i as int]));
                assert(before.vectors + pairs.take(i + 1) =~= (before.vectors + pairs.take(
                    i as int,
                )).push(pairs[i as int]));
            }
            i += 1;
        }
        proof {
            assert(pairs.take(vector_ids.len() as int) =~= pairs);
            assert(id_values(entry_keys(before.vectors + pairs)) =~= id_values(
                entry_keys(before.vectors),
            ) + id_values(vector_ids@));
        }
    }

    /// Whether a file with this path is part of the store.
    pub fn has_path(&self, path: &str) -> (known: bool)
        ensures
            known == has_path(self@.files, path@),
    {
        let mut i: usize = 0;
        while i < self.files.len()
            invariant
                i <= self.files.len(),
                forall|j: int| 0 <= j < i ==> (#[trigger] self@.files[j]).path != path@,
            decreases self.files.len() - i,
        {
            if same_text(self.files[i].path.as_str(), path) {
                assert(self@.files[i as int].path == path@);
                return true;
            }
            i += 1;
        }
        false
    }

    /// Whether no path occurs twice among the files of the store and `files`.
    fn paths_stay_distinct(&self, files: &Vec<RagFile>) -> (distinct: bool)
        requires
            paths_distinct(self@.files),
        ensures
            distinct == paths_distinct(self@.files + file_views(files@)),
    {
        let ghost all = self@.files + file_views(files@);
        let ghost offset = self.files.len() as int;
        let mut i: usize = 0;
        while i < files.len()
            invariant
                i <= files.len(),
                all == self@.files + file_views(files@),
                offset == self.files.len(),
                forall|a: int, b: int|
                    0 <= a < offset + i && 0 <= b < offset + i && a != b ==> (#[trigger] all[a]).path
                        != (#[trigger] all[b]).path,
            decreases files.len() - i,
        {
            let path = files[i].path.as_str();
            assert(all[offset + i].path == path@);
            if self.has_path(path) {
                proof {
                    let k = choose|k: int|
                        0 <= k < self@.files.len() && (#[trigger] self@.files[k]).path == path@;
                    assert(all[k].path == all[offset + i].path);
                }
                return false;
            }
            let mut j: usize = 0;
            while j < i
                invariant
                    j <= i < files.len(),
                    all == self@.files + file_views(files@),
                    offset == self.files.len(),
                    path@ == all[offset + i].path,
                    forall|k: int| 0 <= k < j ==> (#[trigger] all[offset + k]).path != path@,
                decreases i - j,
            {
                if same_text(files[j].path.as_str(), path) {
                    assert(all[offset + j].path == all[offset + i].path);
                    return false;
                }
                assert(all[offset + j].path != path@);
                j += 1;
            }
            proof {
                assert forall|a: int, b: int|
                    0 <= a < offset + i + 1 && 0 <= b < offset + i + 1 && a != b implies (
                #[trigger] all[a]).path != (#[trigger] all[b]).path by {
                    let hi = if a > b { a } else { b };
                    let lo = if a > b { b } else { a };
                    if hi == offset + i {
                        if lo < offset {
                            assert(all[lo] == self@.files[lo]);
                        } else {
                            assert(all[offset + (lo - offset)].path != path@);
                        }
                    }
                }
            }
            i += 1;
        }
        true
    }

    /// Whether `embeddings` all have the dimension of the vectors of the
    /// store; where the store has none, whether they all have one dimension.
    fn dimensions_agree(&self, ids: &Vec<VectorID>, embeddings: &Vec<Vec<u32>>) -> (agree: bool)
        requires
            same_dimension(self@.vectors),
            ids.len() == embeddings.len(),
        ensures
            agree == same_dimension(self@.vectors + zip_entries(ids@, vector_views(embeddings@))),
    {
        let ghost pairs = zip_entries(ids@, vector_views(embeddings@));
        let ghost all = self@.vectors + pairs;
        if embeddings.len() == 0 {
            assert(all =~= self@.vectors);
            return true;
        }
        let dimension: usize = match vectors_get_index(&self.vectors, 0) {
            Some(entry) => entry.1.len(),
            None => embeddings[0].len(),
        };
        assert(all.len() > 0 && all[0].1.len() == dimension) by {
            if self@.vectors.len() == 0 {
                assert(all[0] == pairs[0]);
            }
        }
        let mut i: usize = 0;
        while i < embeddings.len()
            invariant
                i <= embeddings.len(),
                ids.len() == embeddings.len(),
                pairs == zip_entries(ids@, vector_views(embeddings@)),
                all == self@.vectors + pairs,
                all.len() > 0 && all[0].1.len() == dimension,
                forall|j: int| 0 <= j < i ==> (#[trigger] pairs[j]).1.len() == dimension,
            decreases embeddings.len() - i,
        {
            if embeddings[i].len() != dimension {
                proof {
                    let k = self@.vectors.len() + i;
                    assert(all[k] == pairs[i as int]);
                    assert(all[k].1.len() != all[0].1.len());
                }
                return false;
            }
            assert(pairs[i as int].1.len() == dimension);
            i += 1;
        }
        proof {
            assert forall|a: int| 0 <= a < all.len() implies (#[trigger] all[a]).1.len()
                == dimension by {
                if a < self@.vectors.len() {
                    assert(all[a] == self@.vectors[a]);
                    assert(all[0] == self@.vectors[0]);
                } else {
                    assert(all[a] == pairs[a - self@.vectors.len()]);
                }
            }
        }
        true
    }

    /// Takes in `files` with one vector for each of their chunks, in the
    /// order of the files and their chunks. Where they cannot be taken in the
    /// store stays as it was.
    pub fn ingest(&mut self, files: Vec<RagFile>, embeddings: Vec<Vec<u32>>) -> (outcome: Result<
        (),
        RagError,
    >)
        requires
            old(self)@.wf(),
        ensures
            final(self)@.wf(),
            match old(self)@.refusal(file_views(files@), vector_views(embeddings@)) {
                Some(error) => outcome == Err::<(), RagError>(error) && final(self)@ == old(self)@,
                None => outcome is Ok && final(self)@ == old(self)@.added(
                    file_views(files@),
                    old(self)@.next_ids(file_views(files@)),
                    vector_views(embeddings@),
                ),
            },
    {
        let ghost store = self@;
        let ghost new_files = file_views(files@);
        let ghost old_counts = chunk_counts(store.files);
        let ghost new_counts = chunk_counts(new_files);
        proof {
            assert(chunk_counts(store.files + new_files) =~= old_counts + new_counts);
            assert forall|i: int| 0 <= i < new_counts.len() implies (old_counts + new_counts)[old_counts.len()
                + i] == new_counts[i] by {}
            assert forall|i: int| 0 <= i < old_counts.len() implies (old_counts + new_counts)[i]
                == old_counts[i] by {}
        }
        let ids = match Self::enumerate_ids(self.files.len(), &files) {
            Some(ids) => ids,
            None => {
                proof {
                    if layout_fits(old_counts + new_counts, 0) {
                        assert forall|i: int| 0 <= i < new_counts.len() implies #[trigger] new_counts[i]
                            <= half_limit() by {
                            assert((old_counts + new_counts)[old_counts.len() + i] <= half_limit());
                        }
                    }
                }
                return Err(RagError::TooManyChunks);
            },
        };
        proof {
            assert forall|i: int| 0 <= i < (old_counts + new_counts).len() implies #[trigger] (
            old_counts + new_counts)[i] <= half_limit() by {
                if i >= old_counts.len() {
                    assert(new_counts[i - old_counts.len()] <= half_limit());
                }
            }
            lemma_layout_rises(new_counts, store.files.len());
            let h = half_limit() as int;
            let top = (store.files.len() + new_counts.len()) as int;
            assert(top * h <= h * h) by (nonlinear_arith)
                requires
                    0 <= top <= h,
            ;
            assert(ids@ =~= store.next_ids(new_files)) by {
                assert forall|i: int| 0 <= i < ids.len() implies ids[i] == store.next_ids(
                    new_files,
                )[i] by {
                    assert(id_values(ids@)[i] == ids[i] as nat);
                }
            }
        }
        if !self.paths_stay_distinct(&files) {
            return Err(RagError::DuplicatePath);
        }
        if embeddings.len() != ids.len() {
            return Err(RagError::EmbeddingCount);
        }
        if !self.dimensions_agree(&ids, &embeddings) {
            return Err(RagError::EmbeddingDimension);
        }
        self.add(files, ids, embeddings);
        Ok(())
    }

    /// Whether no two of `files` share a path.
    fn files_distinct(files: &Vec<RagFile>) -> (distinct: bool)
        ensures
            distinct == paths_distinct(file_views(files@)),
    {
        let ghost all = file_views(files@);
        let mut i: usize = 0;
        while i < files.len()
            invariant
                i <= files.len(),
                all == file_views(files@),
                forall|a: int, b: int|
                    0 <= a < i && 0 <= b < i && a != b ==> (#[trigger] all[a]).path != (
                    #[trigger] all[b]).path,
            decreases files.len() - i,
        {
            let mut j: usize = 0;
            while j < i
                invariant
                    j <= i < files.len(),
                    all == file_views(files@),
                    forall|k: int| 0 <= k < j ==> (#[trigger] all[k]).path != all[i as int].path,
                decreases i - j,
            {
                if same_text(files[j].path.as_str(), files[i].path.as_str()) {
                    assert(all[j as int].path == all[i as int].path);
                    return false;
                }
                j += 1;
            }
            proof {
                assert forall|a: int, b: int| 0 <= a < i + 1 && 0 <= b < i + 1 && a != b implies (
                #[trigger] all[a]).path != (#[trigger] all[b]).path by {
                    if a == i {
                        assert(all[b].path != all[i as int].path);
                    } else if b == i {
                        assert(all[a].path != all[i as int].path);
                    }
                }
            }
            i += 1;
        }
        true
    }

    /// Whether the store is consistent: whether its vectors are keyed by the
    /// identifiers of the chunks of its files, in their order, have one
    /// dimension, and no two files share a path.
    pub fn is_consistent(&self) -> (consistent: bool)
        ensures
            consistent == self@.wf(),
    {
        let ghost store = self@;
        let ghost counts = chunk_counts(store.files);
        let ghost keys = id_values(entry_keys(store.vectors));
        let ids = match Self::enumerate_ids(0, &self.files) {
            Some(ids) => ids,
            None => {
                return false;
            },
        };
        if !Self::files_distinct(&self.files) {
            return false;
        }
        let count = vectors_len(&self.vectors);
        if count != ids.len() {
            assert(keys.len() != layout_ids(counts, 0).len());
            return false;
        }
        let mut dimension: Option<usize> = None;
        let mut i: usize = 0;
        while i < count
            invariant
                i <= count == store.vectors.len(),
                count == ids.len(),
                store == self@,
                keys == id_values(entry_keys(store.vectors)),
                id_values(ids@) == layout_ids(counts, 0),
                forall|k: int| 0 <= k < i ==> #[trigger] keys[k] == layout_ids(counts, 0)[k],
                counts == chunk_counts(store.files),
                (i == 0) == (dimension is None),
                dimension matches Some(d) ==> d == store.vectors[0].1.len(),
                forall|k: int|
                    0 <= k < i ==> (#[trigger] store.vectors[k]).1.len() == store.vectors[0].1.len(),
            decreases count - i,
        {
            match vectors_get_index(&self.vectors, i) {
                Some(entry) => {
                    assert(keys[i as int] == entry.0 as nat);
                    assert(id_values(ids@)[i as int] == ids[i as int] as nat);
                    if entry.0 != ids[i] {
                        return false;
                    }
                    match dimension {
                        Some(d) => {
                            if entry.1.len() != d {
                                assert(store.vectors[i as int].1.len() != store.vectors[0].1.len());
                                return false;
                            }
                        },
                        None => {
                            dimension = Some(entry.1.len());
                        },
                    }
                },
                None => {
                    // Not reached: the position is below the number of entries.
                    assert(false);
                },
            }
            i += 1;
        }
        assert(keys =~= layout_ids(counts, 0));
        true
    }

    /// The lexical index of the chunks of the store, each under its
    /// identifier, in the order of the files and their chunks.
    pub fn build_bm25(&self) -> (index: BM25)
        ensures
            index.options_view() == (BM25Options { k1_hundredths: 120, b_hundredths: 75 }),
            index.ids_view() == Seq::new(
                chunk_entries(self@.files).len(),
                |k: int| chunk_entries(self@.files)[k].0,
            ),
            index.indexes(
                Seq::new(
                    chunk_entries(self@.files).len(),
                    |k: int| tokens_of(chunk_entries(self@.files)[k].1),
                ),
            ),
    {
        let ghost files = self@.files;
        let mut corpus: Vec<(VectorID, String)> = Vec::new();
        let mut f: usize = 0;
        assert(files.take(0) =~= Seq::<FileView>::empty());
        while f < self.files.len()
            invariant
                f <= self.files.len(),
                files == self@.files,
                corpus.len() == chunk_entries(files.take(f as int)).len(),
                forall|k: int|
                    0 <= k < corpus.len() ==> ((#[trigger] corpus[k]).0, corpus[k].1@)
                        == chunk_entries(files.take(f as int))[k],
            decreases self.files.len() - f,
        {
            let file = &self.files[f];
            let ghost head = chunk_entries(files.take(f as int));
            let ghost tail = file_entries(f, files[f as int]);
            proof {
                assert(files.take(f + 1).drop_last() =~= files.take(f as int));
                assert(files.take(f + 1).last() == files[f as int]);
                assert(chunk_entries(files.take(f + 1)) == head + tail);
            }
            let mut c: usize = 0;
            while c < file.documents.len()
                invariant
                    c <= file.documents.len(),
                    f < self.files.len(),
                    file == &self.files[f as int],
                    files == self@.files,
                    tail == file_entries(f, files[f as int]),
                    corpus.len() == head.len() + c,
                    forall|k: int|
                        0 <= k < corpus.len() ==> ((#[trigger] corpus[k]).0, corpus[k].1@) == (head
                            + tail)[k],
                decreases file.documents.len() - c,
            {
                let id = combine_vector_id(f, c);
                let text = file.documents[c].page_content.clone();
                proof {
                    assert(files[f as int].documents[c as int] == file.documents[c as int]@);
                    assert(tail[c as int] == (id, text@));
                    assert((head + tail)[head.len() + c] == tail[c as int]);
                }
                corpus.push((id, text));
                c += 1;
            }
            f += 1;
        }
        assert(files.take(self.files.len() as int) =~= files);
        let ghost entries = chunk_entries(files);
        let ghost listed = corpus@;
        let index = BM25::new(corpus, BM25Options::default());
        proof {
            assert(crate::bm25::corpus_ids(listed) =~= Seq::new(
                entries.len(),
                |k: int| entries[k].0,
            ));
            assert(crate::bm25::corpus_tokens(listed) =~= Seq::new(
                entries.len(),
                |k: int| tokens_of(entries[k].1),
            ));
        }
        index
    }

    /// The text of the chunk that `id` stands for, if the store has it.
    pub fn chunk_text(&self, id: VectorID) -> (text: Option<&str>)
        ensures
            match chunk_at(self@.files, id) {
                Some(content) => text matches Some(t) && t@ == content,
                None => text is None,
            },
    {
        let (file_index, document_index) = split_vector_id(id);
        if file_index >= self.files.len() {
            return None;
        }
        let file = &self.files[file_index];
        if document_index >= file.documents.len() {
            return None;
        }
        let document = &file.documents[document_index];
        assert(self@.files[file_index as int].documents[document_index as int] == document@);
        Some(document.page_content.as_str())
    }
}

} // verus!
