use indexmap::IndexMap;
use vstd::prelude::*;

verus! {

/// `indexmap::IndexMap`: a hash map that keeps its entries in the order in
/// which their keys were first inserted.
#[verifier::external_type_specification]
#[verifier::external_body]
#[verifier::reject_recursive_types(K)]
#[verifier::reject_recursive_types(V)]
#[verifier::reject_recursive_types(S)]
pub struct ExIndexMap<K, V, S>(IndexMap<K, V, S>);

/// One entry of a vector map: an identifier and its vector.
pub type VectorEntry<'a> = (usize, &'a Vec<u32>);

/// One entry of a metadata map: a key and its value.
pub type MetadataEntry<'a> = (&'a String, &'a String);

/// The entries of a vector map, in insertion order: each identifier with the
/// bit patterns of the components of its vector.
pub uninterp spec fn vector_entries(map: IndexMap<usize, Vec<u32>>) -> Seq<(usize, Seq<u32>)>;

/// `key` is a key of `entries`.
pub open spec fn has_vector_key(entries: Seq<(usize, Seq<u32>)>, key: usize) -> bool {
    exists|i: int| 0 <= i < entries.len() && (#[trigger] entries[i]).0 == key
}

/// `entries` after `key` was given `value`: its entry overwritten in place
/// where it had one, else a new entry at the end.
pub open spec fn vector_entries_with(
    entries: Seq<(usize, Seq<u32>)>,
    key: usize,
    value: Seq<u32>,
) -> Seq<(usize, Seq<u32>)> {
    if has_vector_key(entries, key) {
        Seq::new(
            entries.len(),
            |i: int|
                if entries[i].0 == key {
                    (key, value)
                } else {
                    entries[i]
                },
        )
    } else {
        entries.push((key, value))
    }
}

/// `IndexMap::new`: a map without entries.
#[verifier::external_body]
pub(crate) fn vectors_new() -> (map: IndexMap<usize, Vec<u32>>)
    ensures
        vector_entries(map) == Seq::<(usize, Seq<u32>)>::empty(),
{
    IndexMap::new()
}

/// `IndexMap::len`: the number of entries.
#[verifier::external_body]
pub(crate) fn vectors_len(map: &IndexMap<usize, Vec<u32>>) -> (n: usize)
    ensures
        n == vector_entries(*map).len(),
{
    map.len()
}

/// `IndexMap::insert`: where the key is present its value is replaced and the
/// entry keeps its place; where it is not, the pair becomes the last entry.
/// The return value says whether a value was replaced.
#[verifier::external_body]
pub(crate) fn vectors_insert(map: &mut IndexMap<usize, Vec<u32>>, key: usize, value: Vec<u32>) -> (previous: Option<Vec<u32>>)
    ensures
        vector_entries(*final(map)) == vector_entries_with(vector_entries(*old(map)), key, value@),
        previous is Some <==> has_vector_key(vector_entries(*old(map)), key),
{
    map.insert(key, value)
}

/// `IndexMap::get_index`: the entry at a position in insertion order, `None`
/// from the length on. A map holds each key once, so no entry at another
/// position has the key of this one.
#[verifier::external_body]
pub(crate) fn vectors_get_index<'a>(map: &'a IndexMap<usize, Vec<u32>>, index: usize) -> (entry: Option<VectorEntry<'a>>)
    ensures
        entry is Some <==> index < vector_entries(*map).len(),
        entry matches Some(e) ==> e.0 == vector_entries(*map)[index as int].0 && e.1@
            == vector_entries(*map)[index as int].1,
        entry matches Some(e) ==> forall|j: int|
            0 <= j < vector_entries(*map).len() && j != index ==> (#[trigger] vector_entries(
                *map,
            )[j]).0 != e.0,
{
    map.get_index(index).map(|(key, value)| (*key, value))
}

/// The entries of a metadata map, in insertion order.
pub uninterp spec fn metadata_entries(map: IndexMap<String, String>) -> Seq<(Seq<char>, Seq<char>)>;

/// `key` is a key of `entries`.
pub open spec fn has_metadata_key(entries: Seq<(Seq<char>, Seq<char>)>, key: Seq<char>) -> bool {
    exists|i: int| 0 <= i < entries.len() && (#[trigger] entries[i]).0 == key
}

/// `entries` after `key` was given `value`: its entry overwritten in place
/// where it had one, else a new entry at the end.
pub open spec fn metadata_entries_with(
    entries: Seq<(Seq<char>, Seq<char>)>,
    key: Seq<char>,
    value: Seq<char>,
) -> Seq<(Seq<char>, Seq<char>)> {
    if has_metadata_key(entries, key) {
        Seq::new(
            entries.len(),
            |i: int|
                if entries[i].0 == key {
                    (key, value)
                } else {
                    entries[i]
                },
        )
    } else {
        entries.push((key, value))
    }
}

/// `IndexMap::new`: a map without entries.
#[verifier::external_body]
pub(crate) fn metadata_new() -> (map: IndexMap<String, String>)
    ensures
        metadata_entries(map) == Seq::<(Seq<char>, Seq<char>)>::empty(),
{
    IndexMap::new()
}

/// `IndexMap::len`: the number of entries.
#[verifier::external_body]
pub(crate) fn metadata_len(map: &IndexMap<String, String>) -> (n: usize)
    ensures
        n == metadata_entries(*map).len(),
{
    map.len()
}

/// `IndexMap::insert`: where the key is present its value is replaced and the
/// entry keeps its place; where it is not, the pair becomes the last entry.
/// The return value says whether a value was replaced.
#[verifier::external_body]
pub(crate) fn metadata_insert(map: &mut IndexMap<String, String>, key: String, value: String) -> (previous: Option<String>)
    ensures
        metadata_entries(*final(map)) == metadata_entries_with(
            metadata_entries(*old(map)),
            key@,
            value@,
        ),
        previous is Some <==> has_metadata_key(metadata_entries(*old(map)), key@),
{
    map.insert(key, value)
}

/// `IndexMap::get_index`: the entry at a position in insertion order, `None`
/// from the length on. A map holds each key once, so no entry at another
/// position has the key of this one.
#[verifier::external_body]
pub(crate) fn metadata_get_index<'a>(map: &'a IndexMap<String, String>, index: usize) -> (entry: Option<MetadataEntry<'a>>)
    ensures
        entry is Some <==> index < metadata_entries(*map).len(),
        entry matches Some(e) ==> e.0@ == metadata_entries(*map)[index as int].0 && e.1@
            == metadata_entries(*map)[index as int].1,
        entry matches Some(e) ==> forall|j: int|
            0 <= j < metadata_entries(*map).len() && j != index ==> (#[trigger] metadata_entries(
                *map,
            )[j]).0 != e.0@,
{
    map.get_index(index)
}

/// `IndexMap::clone`: a map with the same entries in the same order.
#[verifier::external_body]
pub(crate) fn metadata_clone(map: &IndexMap<String, String>) -> (copy: IndexMap<String, String>)
    ensures
        metadata_entries(copy) == metadata_entries(*map),
{
    map.clone()
}

} // verus!
