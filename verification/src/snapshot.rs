use crate::document::{document_views, DocumentView, FileView, RagDocument, RagFile, RagMetadata};
use crate::error::RagError;
use crate::ordered_map::{
    has_metadata_key, has_vector_key, metadata_entries, metadata_entries_with, metadata_get_index,
    metadata_insert, metadata_len, metadata_new, vector_entries, vector_entries_with,
    vectors_get_index, vectors_insert, vectors_len, vectors_new,
};
use crate::rag_data::{file_views, RagData, RagDataView};
use crate::text::text_from_utf8;
use vstd::slice::slice_subrange;
use crate::vector_id::VectorID;
use vstd::bytes::*;
use vstd::prelude::*;
use vstd::utf8::*;

verus! {

/// One metadata entry: a key and its value.
pub type TextPair = (Seq<char>, Seq<char>);

/// One vector entry: an identifier and the bit patterns of its vector.
pub type VectorPair = (VectorID, Seq<u32>);

/// What is left of the input after a value was read from its front.
pub type Parsed<T> = Option<(T, Seq<u8>)>;

/// A 64-bit number: eight bytes, the lowest first.
pub open spec fn enc_u64(v: u64) -> Seq<u8> {
    spec_u64_to_le_bytes(v)
}

/// A 32-bit number: four bytes, the lowest first.
pub open spec fn enc_u32(v: u32) -> Seq<u8> {
    spec_u32_to_le_bytes(v)
}

/// A length, as a 64-bit number.
pub open spec fn enc_len(n: nat) -> Seq<u8> {
    enc_u64(n as u64)
}

/// A text: the length of its UTF-8 form, then that form.
pub open spec fn enc_text(text: Seq<char>) -> Seq<u8> {
    enc_len(encode_utf8(text).len()) + encode_utf8(text)
}

/// The encodings of the items, one after the other.
pub open spec fn concat_all<T>(items: Seq<T>, enc: spec_fn(T) -> Seq<u8>) -> Seq<u8>
    decreases items.len(),
{
    if items.len() == 0 {
        Seq::empty()
    } else {
        concat_all(items.drop_last(), enc) + enc(items.last())
    }
}

/// A list: its length, then its items.
pub open spec fn enc_list<T>(items: Seq<T>, enc: spec_fn(T) -> Seq<u8>) -> Seq<u8> {
    enc_len(items.len()) + concat_all(items, enc)
}

/// A metadata entry: the key, then the value.
pub open spec fn enc_text_pair(pair: TextPair) -> Seq<u8> {
    enc_text(pair.0) + enc_text(pair.1)
}

/// `enc_text_pair` as a function value.
pub open spec fn text_pair_encoder() -> spec_fn(TextPair) -> Seq<u8> {
    |pair: TextPair| enc_text_pair(pair)
}

/// A document: its text, then its metadata as a list of entries.
pub open spec fn enc_document(document: DocumentView) -> Seq<u8> {
    enc_text(document.page_content) + enc_list(document.metadata, text_pair_encoder())
}

/// `enc_document` as a function value.
pub open spec fn document_encoder() -> spec_fn(DocumentView) -> Seq<u8> {
    |document: DocumentView| enc_document(document)
}

/// A file: its path, then the list of its documents.
pub open spec fn enc_file(file: FileView) -> Seq<u8> {
    enc_text(file.path) + enc_list(file.documents, document_encoder())
}

/// `enc_file` as a function value.
pub open spec fn file_encoder() -> spec_fn(FileView) -> Seq<u8> {
    |file: FileView| enc_file(file)
}

/// `enc_u32` as a function value.
pub open spec fn component_encoder() -> spec_fn(u32) -> Seq<u8> {
    |component: u32| enc_u32(component)
}

/// A vector entry: the identifier as a 64-bit number, then the list of
/// the components.
pub open spec fn enc_vector_pair(pair: VectorPair) -> Seq<u8> {
    enc_u64(pair.0 as u64) + enc_list(pair.1, component_encoder())
}

/// `enc_vector_pair` as a function value.
pub open spec fn vector_pair_encoder() -> spec_fn(VectorPair) -> Seq<u8> {
    |pair: VectorPair| enc_vector_pair(pair)
}

/// A store: the model, the chunk size, the chunk overlap, the files, the
/// vectors.
pub open spec fn enc_store(store: RagDataView) -> Seq<u8> {
    enc_text(store.model) + enc_u64(store.chunk_size as u64) + enc_u64(store.chunk_overlap as u64)
        + enc_list(store.files, file_encoder()) + enc_list(store.vectors, vector_pair_encoder())
}

/// Reads a 64-bit number.
pub open spec fn parse_u64(bytes: Seq<u8>) -> Parsed<u64> {
    if bytes.len() >= 8 {
        Some((spec_u64_from_le_bytes(bytes.subrange(0, 8)), bytes.subrange(8, bytes.len() as int)))
    } else {
        None
    }
}

/// Reads a 32-bit number.
pub open spec fn parse_u32(bytes: Seq<u8>) -> Parsed<u32> {
    if bytes.len() >= 4 {
        Some((spec_u32_from_le_bytes(bytes.subrange(0, 4)), bytes.subrange(4, bytes.len() as int)))
    } else {
        None
    }
}

/// Reads a 64-bit number that fits in a word.
pub open spec fn parse_word(bytes: Seq<u8>) -> Parsed<usize> {
    match parse_u64(bytes) {
        Some((v, rest)) => if v <= usize::MAX {
            Some((v as usize, rest))
        } else {
            None
        },
        None => None,
    }
}

/// Reads a text: its length, then as many bytes, which must be UTF-8.
pub open spec fn parse_text(bytes: Seq<u8>) -> Parsed<Seq<char>> {
    match parse_word(bytes) {
        Some((n, rest)) => if rest.len() >= n && valid_utf8(rest.subrange(0, n as int)) {
            Some((decode_utf8(rest.subrange(0, n as int)), rest.subrange(n as int, rest.len() as int)))
        } else {
            None
        },
        None => None,
    }
}

/// Reads `n` items, one after the other.
pub open spec fn parse_n<T>(bytes: Seq<u8>, n: nat, parse: spec_fn(Seq<u8>) -> Parsed<T>) -> Parsed<
    Seq<T>,
>
    decreases n,
{
    if n == 0 {
        Some((Seq::empty(), bytes))
    } else {
        match parse_n(bytes, (n - 1) as nat, parse) {
            Some((front, rest)) => match parse(rest) {
                Some((item, after)) => Some((front.push(item), after)),
                None => None,
            },
            None => None,
        }
    }
}

/// Reads a list: its length, then as many items.
pub open spec fn parse_list<T>(bytes: Seq<u8>, parse: spec_fn(Seq<u8>) -> Parsed<T>) -> Parsed<
    Seq<T>,
> {
    match parse_word(bytes) {
        Some((n, rest)) => parse_n(rest, n as nat, parse),
        None => None,
    }
}

/// Reads a metadata entry.
pub open spec fn parse_text_pair(bytes: Seq<u8>) -> Parsed<TextPair> {
    match parse_text(bytes) {
        Some((key, rest)) => match parse_text(rest) {
            Some((value, after)) => Some(((key, value), after)),
            None => None,
        },
        None => None,
    }
}

/// `parse_text_pair` as a function value.
pub open spec fn text_pair_parser() -> spec_fn(Seq<u8>) -> Parsed<TextPair> {
    |bytes: Seq<u8>| parse_text_pair(bytes)
}

/// The metadata that results from inserting `pairs` one after the other: a
/// key that comes again overwrites the value where the key first stood.
pub open spec fn metadata_fold(pairs: Seq<TextPair>) -> Seq<TextPair>
    decreases pairs.len(),
{
    if pairs.len() == 0 {
        Seq::empty()
    } else {
        metadata_entries_with(metadata_fold(pairs.drop_last()), pairs.last().0, pairs.last().1)
    }
}

/// The vectors that result from inserting `pairs` one after the other.
pub open spec fn vector_fold(pairs: Seq<VectorPair>) -> Seq<VectorPair>
    decreases pairs.len(),
{
    if pairs.len() == 0 {
        Seq::empty()
    } else {
        vector_entries_with(vector_fold(pairs.drop_last()), pairs.last().0, pairs.last().1)
    }
}

/// Reads a document.
pub open spec fn parse_document(bytes: Seq<u8>) -> Parsed<DocumentView> {
    match parse_text(bytes) {
        Some((page_content, rest)) => match parse_list(rest, text_pair_parser()) {
            Some((pairs, after)) => Some(
                (DocumentView { page_content, metadata: metadata_fold(pairs) }, after),
            ),
            None => None,
        },
        None => None,
    }
}

/// `parse_document` as a function value.
pub open spec fn document_parser() -> spec_fn(Seq<u8>) -> Parsed<DocumentView> {
    |bytes: Seq<u8>| parse_document(bytes)
}

/// Reads a file.
pub open spec fn parse_file(bytes: Seq<u8>) -> Parsed<FileView> {
    match parse_text(bytes) {
        Some((path, rest)) => match parse_list(rest, document_parser()) {
            Some((documents, after)) => Some((FileView { path, documents }, after)),
            None => None,
        },
        None => None,
    }
}

/// `parse_file` as a function value.
pub open spec fn file_parser() -> spec_fn(Seq<u8>) -> Parsed<FileView> {
    |bytes: Seq<u8>| parse_file(bytes)
}

/// `parse_u32` as a function value.
pub open spec fn component_parser() -> spec_fn(Seq<u8>) -> Parsed<u32> {
    |bytes: Seq<u8>| parse_u32(bytes)
}

/// Reads a vector entry.
pub open spec fn parse_vector_pair(bytes: Seq<u8>) -> Parsed<VectorPair> {
    match parse_word(bytes) {
        Some((id, rest)) => match parse_list(rest, component_parser()) {
            Some((components, after)) => Some(((id, components), after)),
            None => None,
        },
        None => None,
    }
}

/// `parse_vector_pair` as a function value.
pub open spec fn vector_pair_parser() -> spec_fn(Seq<u8>) -> Parsed<VectorPair> {
    |bytes: Seq<u8>| parse_vector_pair(bytes)
}

/// Reads a store. What follows it in the input is left unread.
pub open spec fn parse_store(bytes: Seq<u8>) -> Parsed<RagDataView> {
    match parse_text(bytes) {
        Some((model, r1)) => match parse_word(r1) {
            Some((chunk_size, r2)) => match parse_word(r2) {
                Some((chunk_overlap, r3)) => match parse_list(r3, file_parser()) {
                    Some((files, r4)) => match parse_list(r4, vector_pair_parser()) {
                        Some((pairs, r5)) => Some(
                            (
                                RagDataView {
                                    model,
                                    chunk_size,
                                    chunk_overlap,
                                    files,
                                    vectors: vector_fold(pairs),
                                },
                                r5,
                            ),
                        ),
                        None => None,
                    },
                    None => None,
                },
                None => None,
            },
            None => None,
        },
        None => None,
    }
}

/// The text can be written: the length of its UTF-8 form fits in a word.
pub open spec fn text_fits(text: Seq<char>) -> bool {
    encode_utf8(text).len() <= usize::MAX
}

/// No key occurs twice.
pub open spec fn metadata_keys_distinct(pairs: Seq<TextPair>) -> bool {
    forall|i: int, j: int|
        0 <= i < j < pairs.len() ==> (#[trigger] pairs[i]).0 != (#[trigger] pairs[j]).0
}

/// No identifier occurs twice.
pub open spec fn vector_keys_distinct(pairs: Seq<VectorPair>) -> bool {
    forall|i: int, j: int|
        0 <= i < j < pairs.len() ==> (#[trigger] pairs[i]).0 != (#[trigger] pairs[j]).0
}

/// Both texts of the entry can be written.
pub open spec fn text_pair_fits(pair: TextPair) -> bool {
    text_fits(pair.0) && text_fits(pair.1)
}

/// The document is one that a machine can hold: its texts and its list of
/// metadata have lengths that fit in a word.
pub open spec fn document_sizes_fit(document: DocumentView) -> bool {
    &&& text_fits(document.page_content)
    &&& document.metadata.len() <= usize::MAX
    &&& forall|i: int|
        0 <= i < document.metadata.len() ==> text_pair_fits(#[trigger] document.metadata[i])
}

/// The file is one that a machine can hold.
pub open spec fn file_sizes_fit(file: FileView) -> bool {
    &&& text_fits(file.path)
    &&& file.documents.len() <= usize::MAX
    &&& forall|i: int|
        0 <= i < file.documents.len() ==> document_sizes_fit(#[trigger] file.documents[i])
}

/// The store is one that a machine can hold: every text and every list has
/// a length that fits in a word.
pub open spec fn store_sizes_fit(store: RagDataView) -> bool {
    &&& text_fits(store.model)
    &&& store.files.len() <= usize::MAX
    &&& forall|i: int| 0 <= i < store.files.len() ==> file_sizes_fit(#[trigger] store.files[i])
    &&& store.vectors.len() <= usize::MAX
    &&& forall|i: int|
        0 <= i < store.vectors.len() ==> (#[trigger] store.vectors[i]).1.len() <= usize::MAX
}

/// No metadata of a document of the file has a key twice.
pub open spec fn file_keys_distinct(file: FileView) -> bool {
    forall|i: int|
        0 <= i < file.documents.len() ==> metadata_keys_distinct(
            (#[trigger] file.documents[i]).metadata,
        )
}

/// No map of the store has a key twice, as is true of every map in memory.
pub open spec fn store_keys_distinct(store: RagDataView) -> bool {
    &&& vector_keys_distinct(store.vectors)
    &&& forall|i: int| 0 <= i < store.files.len() ==> file_keys_distinct(#[trigger] store.files[i])
}

/// A 64-bit number is read back as it was written.
pub proof fn lemma_u64_round_trip(v: u64, rest: Seq<u8>)
    ensures
        parse_u64(enc_u64(v) + rest) == Some((v, rest)),
        enc_u64(v).len() == 8,
{
    lemma_auto_spec_u64_to_from_le_bytes();
    let bytes = enc_u64(v) + rest;
    assert(bytes.subrange(0, 8) =~= enc_u64(v));
    assert(bytes.subrange(8, bytes.len() as int) =~= rest);
}

/// A 32-bit number is read back as it was written.
pub proof fn lemma_u32_round_trip(v: u32, rest: Seq<u8>)
    ensures
        parse_u32(enc_u32(v) + rest) == Some((v, rest)),
        enc_u32(v).len() == 4,
{
    lemma_auto_spec_u32_to_from_le_bytes();
    let bytes = enc_u32(v) + rest;
    assert(bytes.subrange(0, 4) =~= enc_u32(v));
    assert(bytes.subrange(4, bytes.len() as int) =~= rest);
}

/// A word is read back as it was written.
pub proof fn lemma_word_round_trip(v: usize, rest: Seq<u8>)
    ensures
        parse_word(enc_u64(v as u64) + rest) == Some((v, rest)),
{
    lemma_u64_round_trip(v as u64, rest);
}

/// A text is read back as it was written.
pub proof fn lemma_text_round_trip(text: Seq<char>, rest: Seq<u8>)
    requires
        text_fits(text),
    ensures
        parse_text(enc_text(text) + rest) == Some((text, rest)),
{
    let body = encode_utf8(text);
    let n = body.len();
    lemma_word_round_trip(n as usize, body + rest);
    assert(enc_text(text) + rest =~= enc_len(n) + (body + rest));
    assert((body + rest).subrange(0, n as int) =~= body);
    assert((body + rest).subrange(n as int, (body + rest).len() as int) =~= rest);
    encode_utf8_valid_utf8(text);
    encode_utf8_decode_utf8(text);
}

/// Reading as many items as were written gives the items back, where each
/// item by itself is read back as it was written.
pub proof fn lemma_items_round_trip<T>(
    items: Seq<T>,
    enc: spec_fn(T) -> Seq<u8>,
    parse: spec_fn(Seq<u8>) -> Parsed<T>,
    rest: Seq<u8>,
)
    requires
        forall|i: int, r: Seq<u8>|
            0 <= i < items.len() ==> #[trigger] parse(enc(items[i]) + r) == Some((items[i], r)),
    ensures
        parse_n(concat_all(items, enc) + rest, items.len(), parse) == Some((items, rest)),
    decreases items.len(),
{
    if items.len() == 0 {
        assert(concat_all(items, enc) + rest =~= rest);
        assert(items =~= Seq::<T>::empty());
    } else {
        let front = items.drop_last();
        let last = items.last();
        assert forall|i: int, r: Seq<u8>| 0 <= i < front.len() implies #[trigger] parse(
            enc(front[i]) + r,
        ) == Some((front[i], r)) by {
            assert(front[i] == items[i]);
        }
        lemma_items_round_trip(front, enc, parse, enc(last) + rest);
        assert(concat_all(items, enc) + rest =~= concat_all(front, enc) + (enc(last) + rest));
        assert(parse(enc(items[items.len() - 1]) + rest) == Some((last, rest)));
        assert(front.push(last) =~= items);
    }
}

/// A list is read back as it was written, where each item is.
pub proof fn lemma_list_round_trip<T>(
    items: Seq<T>,
    enc: spec_fn(T) -> Seq<u8>,
    parse: spec_fn(Seq<u8>) -> Parsed<T>,
    rest: Seq<u8>,
)
    requires
        items.len() <= usize::MAX,
        forall|i: int, r: Seq<u8>|
            0 <= i < items.len() ==> #[trigger] parse(enc(items[i]) + r) == Some((items[i], r)),
    ensures
        parse_list(enc_list(items, enc) + rest, parse) == Some((items, rest)),
{
    lemma_word_round_trip(items.len() as usize, concat_all(items, enc) + rest);
    assert(enc_list(items, enc) + rest =~= enc_len(items.len()) + (concat_all(items, enc) + rest));
    lemma_items_round_trip(items, enc, parse, rest);
}

/// Inserting entries with distinct keys one after the other gives the
/// entries in their order.
pub proof fn lemma_metadata_fold_distinct(pairs: Seq<TextPair>)
    requires
        metadata_keys_distinct(pairs),
    ensures
        metadata_fold(pairs) == pairs,
    decreases pairs.len(),
{
    if pairs.len() == 0 {
        assert(pairs =~= Seq::<TextPair>::empty());
    } else {
        let front = pairs.drop_last();
        assert(metadata_keys_distinct(front)) by {
            assert forall|i: int, j: int| 0 <= i < j < front.len() implies (#[trigger] front[i]).0
                != (#[trigger] front[j]).0 by {
                assert(front[i] == pairs[i] && front[j] == pairs[j]);
            }
        }
        lemma_metadata_fold_distinct(front);
        if has_metadata_key(front, pairs.last().0) {
            let i = choose|i: int| 0 <= i < front.len() && (#[trigger] front[i]).0 == pairs.last().0;
            assert(front[i] == pairs[i]);
            assert(pairs[i].0 != pairs[pairs.len() - 1].0);
        }
        assert(front.push((pairs.last().0, pairs.last().1)) =~= pairs);
    }
}

/// Inserting entries with distinct identifiers one after the other gives
/// the entries in their order.
pub proof fn lemma_vector_fold_distinct(pairs: Seq<VectorPair>)
    requires
        vector_keys_distinct(pairs),
    ensures
        vector_fold(pairs) == pairs,
    decreases pairs.len(),
{
    if pairs.len() == 0 {
        assert(pairs =~= Seq::<VectorPair>::empty());
    } else {
        let front = pairs.drop_last();
        assert(vector_keys_distinct(front)) by {
            assert forall|i: int, j: int| 0 <= i < j < front.len() implies (#[trigger] front[i]).0
                != (#[trigger] front[j]).0 by {
                assert(front[i] == pairs[i] && front[j] == pairs[j]);
            }
        }
        lemma_vector_fold_distinct(front);
        if has_vector_key(front, pairs.last().0) {
            let i = choose|i: int| 0 <= i < front.len() && (#[trigger] front[i]).0 == pairs.last().0;
            assert(front[i] == pairs[i]);
            assert(pairs[i].0 != pairs[pairs.len() - 1].0);
        }
        assert(front.push((pairs.last().0, pairs.last().1)) =~= pairs);
    }
}

/// A metadata entry is read back as it was written.
pub proof fn lemma_text_pair_round_trip(pair: TextPair, rest: Seq<u8>)
    requires
        text_pair_fits(pair),
    ensures
        parse_text_pair(enc_text_pair(pair) + rest) == Some((pair, rest)),
{
    lemma_text_round_trip(pair.0, enc_text(pair.1) + rest);
    lemma_text_round_trip(pair.1, rest);
    assert(enc_text_pair(pair) + rest =~= enc_text(pair.0) + (enc_text(pair.1) + rest));
}

/// A document whose metadata has no key twice is read back as it was
/// written.
pub proof fn lemma_document_round_trip(document: DocumentView, rest: Seq<u8>)
    requires
        document_sizes_fit(document),
        metadata_keys_distinct(document.metadata),
    ensures
        parse_document(enc_document(document) + rest) == Some((document, rest)),
{
    let pairs = document.metadata;
    let tail = enc_list(pairs, text_pair_encoder());
    lemma_text_round_trip(document.page_content, tail + rest);
    assert(enc_document(document) + rest =~= enc_text(document.page_content) + (tail + rest));
    assert forall|i: int, r: Seq<u8>| 0 <= i < pairs.len() implies #[trigger] text_pair_parser()(
        text_pair_encoder()(pairs[i]) + r,
    ) == Some((pairs[i], r)) by {
        lemma_text_pair_round_trip(pairs[i], r);
    }
    lemma_list_round_trip(pairs, text_pair_encoder(), text_pair_parser(), rest);
    lemma_metadata_fold_distinct(pairs);
}

/// A file is read back as it was written.
pub proof fn lemma_file_round_trip(file: FileView, rest: Seq<u8>)
    requires
        file_sizes_fit(file),
        file_keys_distinct(file),
    ensures
        parse_file(enc_file(file) + rest) == Some((file, rest)),
{
    let documents = file.documents;
    let tail = enc_list(documents, document_encoder());
    lemma_text_round_trip(file.path, tail + rest);
    assert(enc_file(file) + rest =~= enc_text(file.path) + (tail + rest));
    assert forall|i: int, r: Seq<u8>| 0 <= i < documents.len() implies #[trigger] document_parser()(
        document_encoder()(documents[i]) + r,
    ) == Some((documents[i], r)) by {
        lemma_document_round_trip(documents[i], r);
    }
    lemma_list_round_trip(documents, document_encoder(), document_parser(), rest);
}

/// A vector entry is read back as it was written.
pub proof fn lemma_vector_pair_round_trip(pair: VectorPair, rest: Seq<u8>)
    requires
        pair.1.len() <= usize::MAX,
    ensures
        parse_vector_pair(enc_vector_pair(pair) + rest) == Some((pair, rest)),
{
    let components = pair.1;
    let tail = enc_list(components, component_encoder());
    lemma_word_round_trip(pair.0, tail + rest);
    assert(enc_vector_pair(pair) + rest =~= enc_u64(pair.0 as u64) + (tail + rest));
    assert forall|i: int, r: Seq<u8>| 0 <= i < components.len() implies #[trigger] component_parser()(
        component_encoder()(components[i]) + r,
    ) == Some((components[i], r)) by {
        lemma_u32_round_trip(components[i], r);
    }
    lemma_list_round_trip(components, component_encoder(), component_parser(), rest);
}

/// Reading what was written of a store gives the store back, field by
/// field, and leaves what followed it.
pub proof fn lemma_store_round_trip(store: RagDataView, rest: Seq<u8>)
    requires
        store_sizes_fit(store),
        store_keys_distinct(store),
    ensures
        parse_store(enc_store(store) + rest) == Some((store, rest)),
{
    let e_files = enc_list(store.files, file_encoder());
    let e_vectors = enc_list(store.vectors, vector_pair_encoder());
    let e_size = enc_u64(store.chunk_size as u64);
    let e_overlap = enc_u64(store.chunk_overlap as u64);
    let r4 = e_vectors + rest;
    let r3 = e_files + r4;
    let r2 = e_overlap + r3;
    let r1 = e_size + r2;
    assert(enc_store(store) + rest =~= enc_text(store.model) + r1);
    lemma_text_round_trip(store.model, r1);
    lemma_word_round_trip(store.chunk_size, r2);
    lemma_word_round_trip(store.chunk_overlap, r3);
    assert forall|i: int, r: Seq<u8>| 0 <= i < store.files.len() implies #[trigger] file_parser()(
        file_encoder()(store.files[i]) + r,
    ) == Some((store.files[i], r)) by {
        lemma_file_round_trip(store.files[i], r);
    }
    lemma_list_round_trip(store.files, file_encoder(), file_parser(), r4);
    assert forall|i: int, r: Seq<u8>|
        0 <= i < store.vectors.len() implies #[trigger] vector_pair_parser()(
        vector_pair_encoder()(store.vectors[i]) + r,
    ) == Some((store.vectors[i], r)) by {
        lemma_vector_pair_round_trip(store.vectors[i], r);
    }
    lemma_list_round_trip(store.vectors, vector_pair_encoder(), vector_pair_parser(), rest);
    lemma_vector_fold_distinct(store.vectors);
}

/// Appending one more item to a list appends its encoding.
proof fn lemma_concat_push<T>(items: Seq<T>, enc: spec_fn(T) -> Seq<u8>, n: int)
    requires
        0 <= n < items.len(),
    ensures
        concat_all(items.take(n + 1), enc) == concat_all(items.take(n), enc) + enc(items[n]),
{
    assert(items.take(n + 1).drop_last() =~= items.take(n));
}

fn put_bytes(out: &mut Vec<u8>, bytes: &[u8])
    ensures
        final(out)@ == old(out)@ + bytes@,
{
    let mut i: usize = 0;
    while i < bytes.len()
        invariant
            i <= bytes.len(),
            out@ == old(out)@ + bytes@.take(i as int),
        decreases bytes.len() - i,
    {
        out.push(bytes[i]);
        assert(bytes@.take(i + 1) =~= bytes@.take(i as int).push(bytes@[i as int]));
        i += 1;
    }
    assert(bytes@.take(bytes.len() as int) =~= bytes@);
}

fn put_u64(out: &mut Vec<u8>, v: u64)
    ensures
        final(out)@ == old(out)@ + enc_u64(v),
{
    let bytes = u64_to_le_bytes(v);
    put_bytes(out, bytes.as_slice());
}

fn put_u32(out: &mut Vec<u8>, v: u32)
    ensures
        final(out)@ == old(out)@ + enc_u32(v),
{
    let bytes = u32_to_le_bytes(v);
    put_bytes(out, bytes.as_slice());
}

fn put_text(out: &mut Vec<u8>, text: &str)
    ensures
        final(out)@ == old(out)@ + enc_text(text@),
        text_fits(text@),
{
    let bytes = text.as_bytes();
    put_u64(out, bytes.len() as u64);
    put_bytes(out, bytes);
    assert(out@ =~= old(out)@ + enc_text(text@));
}

fn put_metadata(out: &mut Vec<u8>, metadata: &RagMetadata)
    ensures
        final(out)@ == old(out)@ + enc_list(metadata_entries(*metadata), text_pair_encoder()),
        metadata_entries(*metadata).len() <= usize::MAX,
        metadata_keys_distinct(metadata_entries(*metadata)),
        forall|i: int|
            0 <= i < metadata_entries(*metadata).len() ==> text_pair_fits(
                #[trigger] metadata_entries(*metadata)[i],
            ),
{
    let ghost entries = metadata_entries(*metadata);
    let ghost base = out@;
    let count = metadata_len(metadata);
    put_u64(out, count as u64);
    let mut i: usize = 0;
    assert(concat_all(entries.take(0), text_pair_encoder()) =~= Seq::<u8>::empty());
    assert(out@ =~= base + enc_len(entries.len()) + concat_all(entries.take(0), text_pair_encoder()));
    while i < count
        invariant
            i <= count == entries.len(),
            entries == metadata_entries(*metadata),
            out@ == base + enc_len(entries.len()) + concat_all(
                entries.take(i as int),
                text_pair_encoder(),
            ),
            forall|k: int| 0 <= k < i ==> text_pair_fits(#[trigger] entries[k]),
            forall|a: int, b: int|
                0 <= a < b < i ==> (#[trigger] entries[a]).0 != (#[trigger] entries[b]).0,
        decreases count - i,
    {
        let ghost before = out@;
        match metadata_get_index(metadata, i) {
            Some(entry) => {
                put_text(out, entry.0.as_str());
                put_text(out, entry.1.as_str());
                proof {
                    lemma_concat_push(entries, text_pair_encoder(), i as int);
                    assert(out@ =~= before + enc_text_pair(entries[i as int]));
                }
            },
            None => {
                // Not reached: the position is below the number of entries.
                assert(false);
            },
        }
        i += 1;
    }
    assert(entries.take(count as int) =~= entries);
    assert(out@ =~= base + enc_list(entries, text_pair_encoder()));
}

fn put_document(out: &mut Vec<u8>, document: &RagDocument)
    ensures
        final(out)@ == old(out)@ + enc_document(document@),
        document_sizes_fit(document@),
        metadata_keys_distinct(document@.metadata),
{
    put_text(out, document.page_content.as_str());
    put_metadata(out, &document.metadata);
    assert(out@ =~= old(out)@ + enc_document(document@));
}

fn put_file(out: &mut Vec<u8>, file: &RagFile)
    ensures
        final(out)@ == old(out)@ + enc_file(file@),
        file_sizes_fit(file@),
        file_keys_distinct(file@),
{
    let ghost base = out@;
    let ghost documents = file@.documents;
    put_text(out, file.path.as_str());
    let ghost start = out@;
    put_u64(out, file.documents.len() as u64);
    let mut i: usize = 0;
    assert(concat_all(documents.take(0), document_encoder()) =~= Seq::<u8>::empty());
    assert(out@ =~= start + enc_len(documents.len()) + concat_all(
        documents.take(0),
        document_encoder(),
    ));
    while i < file.documents.len()
        invariant
            i <= file.documents.len(),
            documents == file@.documents,
            out@ == start + enc_len(documents.len()) + concat_all(
                documents.take(i as int),
                document_encoder(),
            ),
            forall|k: int| 0 <= k < i ==> document_sizes_fit(#[trigger] documents[k]),
            forall|k: int|
                0 <= k < i ==> metadata_keys_distinct((#[trigger] documents[k]).metadata),
        decreases file.documents.len() - i,
    {
        let ghost before = out@;
        put_document(out, &file.documents[i]);
        proof {
            lemma_concat_push(documents, document_encoder(), i as int);
            assert(documents[i as int] == file.documents[i as int]@);
        }
        i += 1;
    }
    assert(documents.take(file.documents.len() as int) =~= documents);
    assert(out@ =~= base + enc_file(file@));
}

fn put_components(out: &mut Vec<u8>, components: &Vec<u32>)
    ensures
        final(out)@ == old(out)@ + enc_list(components@, component_encoder()),
{
    let ghost base = out@;
    put_u64(out, components.len() as u64);
    let mut i: usize = 0;
    assert(concat_all(components@.take(0), component_encoder()) =~= Seq::<u8>::empty());
    assert(out@ =~= base + enc_len(components@.len()) + concat_all(
        components@.take(0),
        component_encoder(),
    ));
    while i < components.len()
        invariant
            i <= components.len(),
            out@ == base + enc_len(components@.len()) + concat_all(
                components@.take(i as int),
                component_encoder(),
            ),
        decreases components.len() - i,
    {
        put_u32(out, components[i]);
        proof {
            lemma_concat_push(components@, component_encoder(), i as int);
        }
        i += 1;
    }
    assert(components@.take(components.len() as int) =~= components@);
    assert(out@ =~= base + enc_list(components@, component_encoder()));
}

/// Writes a store as bytes: every length and number as eight bytes, the
/// lowest first; every text in UTF-8 after its length; every list as its
/// length and its items; every component of a vector as four bytes, the
/// lowest first. Reading the bytes gives a store with the same content.
pub fn encode_store(data: &RagData) -> (bytes: Vec<u8>)
    ensures
        bytes@ == enc_store(data@),
        store_sizes_fit(data@),
        store_keys_distinct(data@),
        parse_store(bytes@) == Some((data@, Seq::<u8>::empty())),
{
    let mut out: Vec<u8> = Vec::new();
    let ghost store = data@;
    put_text(&mut out, data.model.as_str());
    put_u64(&mut out, data.chunk_size as u64);
    put_u64(&mut out, data.chunk_overlap as u64);
    let ghost head = out@;
    assert(head =~= enc_text(store.model) + enc_u64(store.chunk_size as u64) + enc_u64(
        store.chunk_overlap as u64,
    ));
    put_u64(&mut out, data.files.len() as u64);
    let mut i: usize = 0;
    assert(concat_all(store.files.take(0), file_encoder()) =~= Seq::<u8>::empty());
    assert(out@ =~= head + enc_len(store.files.len()) + concat_all(
        store.files.take(0),
        file_encoder(),
    ));
    while i < data.files.len()
        invariant
            i <= data.files.len(),
            store == data@,
            out@ == head + enc_len(store.files.len()) + concat_all(
                store.files.take(i as int),
                file_encoder(),
            ),
            forall|j: int| 0 <= j < i ==> file_sizes_fit(#[trigger] store.files[j]),
            forall|j: int| 0 <= j < i ==> file_keys_distinct(#[trigger] store.files[j]),
        decreases data.files.len() - i,
    {
        put_file(&mut out, &data.files[i]);
        proof {
            lemma_concat_push(store.files, file_encoder(), i as int);
            assert(store.files[i as int] == data.files[i as int]@);
        }
        i += 1;
    }
    assert(store.files.take(data.files.len() as int) =~= store.files);
    let ghost middle = out@;
    assert(middle =~= head + enc_list(store.files, file_encoder()));
    let count = vectors_len(&data.vectors);
    put_u64(&mut out, count as u64);
    let mut k: usize = 0;
    assert(concat_all(store.vectors.take(0), vector_pair_encoder()) =~= Seq::<u8>::empty());
    assert(out@ =~= middle + enc_len(store.vectors.len()) + concat_all(
        store.vectors.take(0),
        vector_pair_encoder(),
    ));
    while k < count
        invariant
            k <= count == store.vectors.len(),
            store == data@,
            out@ == middle + enc_len(store.vectors.len()) + concat_all(
                store.vectors.take(k as int),
                vector_pair_encoder(),
            ),
            forall|j: int| 0 <= j < k ==> (#[trigger] store.vectors[j]).1.len() <= usize::MAX,
            forall|a: int, b: int|
                0 <= a < b < k ==> (#[trigger] store.vectors[a]).0 != (
                #[trigger] store.vectors[b]).0,
        decreases count - k,
    {
        let ghost before = out@;
        match vectors_get_index(&data.vectors, k) {
            Some(entry) => {
                put_u64(&mut out, entry.0 as u64);
                put_components(&mut out, entry.1);
                let dimension = entry.1.len();
                proof {
                    lemma_concat_push(store.vectors, vector_pair_encoder(), k as int);
                    assert(out@ =~= before + enc_vector_pair(store.vectors[k as int]));
                }
            },
            None => {
                // Not reached: the position is below the number of entries.
                assert(false);
            },
        }
        k += 1;
    }
    assert(store.vectors.take(count as int) =~= store.vectors);
    assert(out@ =~= enc_store(store));
    proof {
        assert(enc_store(store) + Seq::<u8>::empty() =~= enc_store(store));
        lemma_store_round_trip(store, Seq::empty());
    }
    out
}

/// The input from `at` on.
pub open spec fn tail(bytes: Seq<u8>, at: int) -> Seq<u8> {
    bytes.subrange(at, bytes.len() as int)
}

/// Once an item cannot be read, no longer list can be read either.
proof fn lemma_parse_n_stuck<T>(
    bytes: Seq<u8>,
    parse: spec_fn(Seq<u8>) -> Parsed<T>,
    done: nat,
    n: nat,
)
    requires
        done < n,
        parse_n(bytes, done, parse) matches Some((_, rest)) && parse(rest) is None,
    ensures
        parse_n(bytes, n, parse) is None,
    decreases n,
{
    if n > done + 1 {
        lemma_parse_n_stuck(bytes, parse, done, (n - 1) as nat);
    }
}

fn take_u64(bytes: &[u8], at: usize) -> (found: Option<(u64, usize)>)
    requires
        at <= bytes.len(),
    ensures
        match parse_u64(tail(bytes@, at as int)) {
            Some((value, rest)) => found matches Some(pair) && pair.0 == value && at <= pair.1
                <= bytes.len() && rest == tail(bytes@, pair.1 as int),
            None => found is None,
        },
{
    if bytes.len() - at < 8 {
        return None;
    }
    let window = slice_subrange(bytes, at, at + 8);
    let value = u64_from_le_bytes(window);
    proof {
        let rest = tail(bytes@, at as int);
        assert(rest.subrange(0, 8) =~= window@);
        assert(rest.subrange(8, rest.len() as int) =~= tail(bytes@, at + 8));
    }
    Some((value, at + 8))
}

fn take_u32(bytes: &[u8], at: usize) -> (found: Option<(u32, usize)>)
    requires
        at <= bytes.len(),
    ensures
        match parse_u32(tail(bytes@, at as int)) {
            Some((value, rest)) => found matches Some(pair) && pair.0 == value && at <= pair.1
                <= bytes.len() && rest == tail(bytes@, pair.1 as int),
            None => found is None,
        },
{
    if bytes.len() - at < 4 {
        return None;
    }
    let window = slice_subrange(bytes, at, at + 4);
    let value = u32_from_le_bytes(window);
    proof {
        let rest = tail(bytes@, at as int);
        assert(rest.subrange(0, 4) =~= window@);
        assert(rest.subrange(4, rest.len() as int) =~= tail(bytes@, at + 4));
    }
    Some((value, at + 4))
}

fn take_word(bytes: &[u8], at: usize) -> (found: Option<(usize, usize)>)
    requires
        at <= bytes.len(),
    ensures
        match parse_word(tail(bytes@, at as int)) {
            Some((value, rest)) => found matches Some(pair) && pair.0 == value && at <= pair.1
                <= bytes.len() && rest == tail(bytes@, pair.1 as int),
            None => found is None,
        },
{
    match take_u64(bytes, at) {
        Some((value, next)) => {
            if value <= usize::MAX as u64 {
                Some((value as usize, next))
            } else {
                None
            }
        },
        None => None,
    }
}

fn take_text(bytes: &[u8], at: usize) -> (found: Option<(String, usize)>)
    requires
        at <= bytes.len(),
    ensures
        match parse_text(tail(bytes@, at as int)) {
            Some((value, rest)) => found matches Some(pair) && pair.0@ == value && at <= pair.1
                <= bytes.len() && rest == tail(bytes@, pair.1 as int),
            None => found is None,
        },
{
    let (length, start) = match take_word(bytes, at) {
        Some(pair) => pair,
        None => {
            return None;
        },
    };
    if bytes.len() - start < length {
        return None;
    }
    let window = slice_subrange(bytes, start, start + length);
    let mut body: Vec<u8> = Vec::new();
    put_bytes(&mut body, window);
    proof {
        let rest = tail(bytes@, start as int);
        assert(body@ =~= window@);
        assert(rest.subrange(0, length as int) =~= window@);
        assert(rest.subrange(length as int, rest.len() as int) =~= tail(bytes@, start + length));
    }
    match text_from_utf8(body) {
        Some(text) => Some((text, start + length)),
        None => None,
    }
}

fn take_text_pair(bytes: &[u8], at: usize) -> (found: Option<((String, String), usize)>)
    requires
        at <= bytes.len(),
    ensures
        match parse_text_pair(tail(bytes@, at as int)) {
            Some((value, rest)) => found matches Some(pair) && (pair.0.0@, pair.0.1@) == value
                && at <= pair.1 <= bytes.len() && rest == tail(bytes@, pair.1 as int),
            None => found is None,
        },
{
    let (key, middle) = match take_text(bytes, at) {
        Some(pair) => pair,
        None => {
            return None;
        },
    };
    let (value, next) = match take_text(bytes, middle) {
        Some(pair) => pair,
        None => {
            return None;
        },
    };
    Some(((key, value), next))
}

#[verifier::loop_isolation(false)]
fn take_metadata(bytes: &[u8], at: usize) -> (found: Option<(RagMetadata, usize)>)
    requires
        at <= bytes.len(),
    ensures
        match parse_list(tail(bytes@, at as int), text_pair_parser()) {
            Some((pairs, rest)) => found matches Some(pair) && metadata_entries(pair.0)
                == metadata_fold(pairs) && at <= pair.1 <= bytes.len() && rest == tail(
                bytes@,
                pair.1 as int,
            ),
            None => found is None,
        },
{
    let (count, start) = match take_word(bytes, at) {
        Some(pair) => pair,
        None => {
            return None;
        },
    };
    let ghost input = tail(bytes@, start as int);
    let ghost mut pairs: Seq<TextPair> = Seq::empty();
    let mut metadata = metadata_new();
    let mut next: usize = start;
    let mut i: usize = 0;
    while i < count
        invariant
            i <= count,
            start <= next <= bytes.len(),
            input == tail(bytes@, start as int),
            parse_n(input, i as nat, text_pair_parser()) == Some((pairs, tail(bytes@, next as int))),
            metadata_entries(metadata) == metadata_fold(pairs),
        decreases count - i,
    {
        match take_text_pair(bytes, next) {
            Some((pair, after)) => {
                proof {
                    let item = (pair.0@, pair.1@);
                    assert(pairs.push(item).drop_last() =~= pairs);
                    pairs = pairs.push(item);
                }
                metadata_insert(&mut metadata, pair.0, pair.1);
                next = after;
            },
            None => {
                proof {
                    lemma_parse_n_stuck(input, text_pair_parser(), i as nat, count as nat);
                }
                return None;
            },
        }
        i += 1;
    }
    Some((metadata, next))
}

fn take_document(bytes: &[u8], at: usize) -> (found: Option<(RagDocument, usize)>)
    requires
        at <= bytes.len(),
    ensures
        match parse_document(tail(bytes@, at as int)) {
            Some((value, rest)) => found matches Some(pair) && pair.0@ == value && at <= pair.1
                <= bytes.len() && rest == tail(bytes@, pair.1 as int),
            None => found is None,
        },
{
    let (page_content, middle) = match take_text(bytes, at) {
        Some(pair) => pair,
        None => {
            return None;
        },
    };
    let (metadata, next) = match take_metadata(bytes, middle) {
        Some(pair) => pair,
        None => {
            return None;
        },
    };
    Some((RagDocument { page_content, metadata }, next))
}

#[verifier::loop_isolation(false)]
fn take_file(bytes: &[u8], at: usize) -> (found: Option<(RagFile, usize)>)
    requires
        at <= bytes.len(),
    ensures
        match parse_file(tail(bytes@, at as int)) {
            Some((value, rest)) => found matches Some(pair) && pair.0@ == value && at <= pair.1
                <= bytes.len() && rest == tail(bytes@, pair.1 as int),
            None => found is None,
        },
{
    let (path, middle) = match take_text(bytes, at) {
        Some(pair) => pair,
        None => {
            return None;
        },
    };
    let (count, start) = match take_word(bytes, middle) {
        Some(pair) => pair,
        None => {
            return None;
        },
    };
    let ghost input = tail(bytes@, start as int);
    let mut documents: Vec<RagDocument> = Vec::new();
    let mut next: usize = start;
    let mut i: usize = 0;
    assert(document_views(documents@) =~= Seq::<DocumentView>::empty());
    while i < count
        invariant
            i <= count,
            start <= next <= bytes.len(),
            input == tail(bytes@, start as int),
            parse_n(input, i as nat, document_parser()) == Some(
                (document_views(documents@), tail(bytes@, next as int)),
            ),
        decreases count - i,
    {
        match take_document(bytes, next) {
            Some((document, after)) => {
                let ghost before = document_views(documents@);
                documents.push(document);
                proof {
                    assert(document_views(documents@) =~= before.push(document@));
                }
                next = after;
            },
            None => {
                proof {
                    lemma_parse_n_stuck(input, document_parser(), i as nat, count as nat);
                }
                return None;
            },
        }
        i += 1;
    }
    Some((RagFile { path, documents }, next))
}

#[verifier::loop_isolation(false)]
fn take_components(bytes: &[u8], at: usize) -> (found: Option<(Vec<u32>, usize)>)
    requires
        at <= bytes.len(),
    ensures
        match parse_list(tail(bytes@, at as int), component_parser()) {
            Some((value, rest)) => found matches Some(pair) && pair.0@ == value && at <= pair.1
                <= bytes.len() && rest == tail(bytes@, pair.1 as int),
            None => found is None,
        },
{
    let (count, start) = match take_word(bytes, at) {
        Some(pair) => pair,
        None => {
            return None;
        },
    };
    let ghost input = tail(bytes@, start as int);
    let mut components: Vec<u32> = Vec::new();
    let mut next: usize = start;
    let mut i: usize = 0;
    while i < count
        invariant
            i <= count,
            start <= next <= bytes.len(),
            input == tail(bytes@, start as int),
            parse_n(input, i as nat, component_parser()) == Some(
                (components@, tail(bytes@, next as int)),
            ),
        decreases count - i,
    {
        match take_u32(bytes, next) {
            Some((component, after)) => {
                components.push(component);
                next = after;
            },
            None => {
                proof {
                    lemma_parse_n_stuck(input, component_parser(), i as nat, count as nat);
                }
                return None;
            },
        }
        i += 1;
    }
    Some((components, next))
}

fn take_vector_pair(bytes: &[u8], at: usize) -> (found: Option<((VectorID, Vec<u32>), usize)>)
    requires
        at <= bytes.len(),
    ensures
        match parse_vector_pair(tail(bytes@, at as int)) {
            Some((value, rest)) => found matches Some(pair) && (pair.0.0, pair.0.1@) == value
                && at <= pair.1 <= bytes.len() && rest == tail(bytes@, pair.1 as int),
            None => found is None,
        },
{
    let (id, middle) = match take_word(bytes, at) {
        Some(pair) => pair,
        None => {
            return None;
        },
    };
    let (components, next) = match take_components(bytes, middle) {
        Some(pair) => pair,
        None => {
            return None;
        },
    };
    Some(((id, components), next))
}

/// Reads a store from the front of `bytes`. Bytes that follow the store are
/// left unread.
#[verifier::loop_isolation(false)]
pub fn decode_store(bytes: &[u8]) -> (outcome: Result<RagData, RagError>)
    ensures
        match parse_store(bytes@) {
            Some((store, _)) => outcome matches Ok(data) && data@ == store,
            None => outcome == Err::<RagData, RagError>(RagError::InvalidSnapshot),
        },
{
    assert(tail(bytes@, 0) =~= bytes@);
    let (model, p1) = match take_text(bytes, 0) {
        Some(pair) => pair,
        None => {
            return Err(RagError::InvalidSnapshot);
        },
    };
    let (chunk_size, p2) = match take_word(bytes, p1) {
        Some(pair) => pair,
        None => {
            return Err(RagError::InvalidSnapshot);
        },
    };
    let (chunk_overlap, p3) = match take_word(bytes, p2) {
        Some(pair) => pair,
        None => {
            return Err(RagError::InvalidSnapshot);
        },
    };
    let (file_count, file_start) = match take_word(bytes, p3) {
        Some(pair) => pair,
        None => {
            return Err(RagError::InvalidSnapshot);
        },
    };
    let ghost file_input = tail(bytes@, file_start as int);
    let mut files: Vec<RagFile> = Vec::new();
    let mut next: usize = file_start;
    let mut i: usize = 0;
    assert(file_views(files@) =~= Seq::<FileView>::empty());
    while i < file_count
        invariant
            i <= file_count,
            file_start <= next <= bytes.len(),
            file_input == tail(bytes@, file_start as int),
            parse_n(file_input, i as nat, file_parser()) == Some(
                (file_views(files@), tail(bytes@, next as int)),
            ),
        decreases file_count - i,
    {
        match take_file(bytes, next) {
            Some((file, after)) => {
                let ghost before = file_views(files@);
                files.push(file);
                proof {
                    assert(file_views(files@) =~= before.push(file@));
                }
                next = after;
            },
            None => {
                proof {
                    lemma_parse_n_stuck(file_input, file_parser(), i as nat, file_count as nat);
                }
                return Err(RagError::InvalidSnapshot);
            },
        }
        i += 1;
    }
    let (vector_count, vector_start) = match take_word(bytes, next) {
        Some(pair) => pair,
        None => {
            return Err(RagError::InvalidSnapshot);
        },
    };
    let ghost vector_input = tail(bytes@, vector_start as int);
    let ghost mut pairs: Seq<VectorPair> = Seq::empty();
    let mut vectors = vectors_new();
    let mut at: usize = vector_start;
    let mut k: usize = 0;
    while k < vector_count
        invariant
            k <= vector_count,
            vector_start <= at <= bytes.len(),
            vector_input == tail(bytes@, vector_start as int),
            parse_n(vector_input, k as nat, vector_pair_parser()) == Some(
                (pairs, tail(bytes@, at as int)),
            ),
            vector_entries(vectors) == vector_fold(pairs),
        decreases vector_count - k,
    {
        match take_vector_pair(bytes, at) {
            Some((pair, after)) => {
                proof {
                    let item = (pair.0, pair.1@);
                    assert(pairs.push(item).drop_last() =~= pairs);
                    pairs = pairs.push(item);
                }
                vectors_insert(&mut vectors, pair.0, pair.1);
                at = after;
            },
            None => {
                proof {
                    lemma_parse_n_stuck(
                        vector_input,
                        vector_pair_parser(),
                        k as nat,
                        vector_count as nat,
                    );
                }
                return Err(RagError::InvalidSnapshot);
            },
        }
        k += 1;
    }
    Ok(RagData { model, chunk_size, chunk_overlap, files, vectors })
}

} // verus!
