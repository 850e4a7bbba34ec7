use vstd::prelude::*;

verus! {

/// Identifier of one chunk: the index of its file in the high half of the
/// word, the index of the chunk within that file in the low half.
pub type VectorID = usize;

/// One more than the largest index that fits in half a word.
pub open spec fn half_limit() -> nat {
    if usize::BITS == 64 { 0x1_0000_0000 } else { 0x1_0000 }
}

/// The identifier of chunk `document_index` of file `file_index`.
pub open spec fn packed_id(file_index: nat, document_index: nat) -> nat {
    file_index * half_limit() + document_index
}

/// The pair of indices that an identifier stands for.
pub open spec fn unpacked_id(value: nat) -> (nat, nat) {
    (value / half_limit(), value % half_limit())
}

proof fn lemma_pack_64(f: u64, c: u64)
    requires
        f < 0x1_0000_0000,
        c < 0x1_0000_0000,
    ensures
        (f << 32) | c == f * 0x1_0000_0000 + c,
{
    assert((f << 32) | c == f * 0x1_0000_0000 + c) by (bit_vector)
        requires
            f < 0x1_0000_0000,
            c < 0x1_0000_0000,
    ;
    assert(f * 0x1_0000_0000 <= 0xffff_ffff * 0x1_0000_0000) by (nonlinear_arith)
        requires
            f <= 0xffff_ffff,
    ;
}

proof fn lemma_pack_32(f: u32, c: u32)
    requires
        f < 0x1_0000,
        c < 0x1_0000,
    ensures
        (f << 16) | c == f * 0x1_0000 + c,
{
    assert((f << 16) | c == f * 0x1_0000 + c) by (bit_vector)
        requires
            f < 0x1_0000,
            c < 0x1_0000,
    ;
    assert(f * 0x1_0000 <= 0xffff * 0x1_0000) by (nonlinear_arith)
        requires
            f <= 0xffff,
    ;
}

/// What packing computes on any two indices: the file index shifted into
/// the high half, losing the bits that leave the word, or-ed with the chunk
/// index.
pub open spec fn combined_id(file_index: usize, document_index: usize) -> usize {
    (file_index << ((usize::BITS / 2) as usize)) | document_index
}

/// For indices that fit in half a word the shifted and the counted form of
/// an identifier are the same number.
pub proof fn lemma_combined_is_packed(file_index: usize, document_index: usize)
    requires
        file_index < half_limit(),
        document_index < half_limit(),
    ensures
        combined_id(file_index, document_index) == packed_id(
            file_index as nat,
            document_index as nat,
        ),
{
    if usize::BITS == 64 {
        lemma_pack_64(file_index as u64, document_index as u64);
    } else {
        lemma_pack_32(file_index as u32, document_index as u32);
    }
}

/// Packs a file index and a chunk index into one identifier.
pub fn combine_vector_id(file_index: usize, document_index: usize) -> (id: VectorID)
    ensures
        id == combined_id(file_index, document_index),
        file_index < half_limit() && document_index < half_limit() ==> id == packed_id(
            file_index as nat,
            document_index as nat,
        ),
{
    let id = file_index << (usize::BITS / 2) | document_index;
    proof {
        if file_index < half_limit() && document_index < half_limit() {
            if usize::BITS == 64 {
                lemma_pack_64(file_index as u64, document_index as u64);
            } else {
                lemma_pack_32(file_index as u32, document_index as u32);
            }
        }
    }
    id
}

proof fn lemma_unpack_64(v: u64)
    ensures
        v & 0xffff_ffff == v % 0x1_0000_0000,
        v >> 32 == v / 0x1_0000_0000,
        (1u64 << 32) == 0x1_0000_0000,
{
    assert(v & 0xffff_ffff == v % 0x1_0000_0000) by (bit_vector);
    assert(v >> 32 == v / 0x1_0000_0000) by (bit_vector);
    assert((1u64 << 32) == 0x1_0000_0000) by (bit_vector);
}

proof fn lemma_unpack_32(v: u32)
    ensures
        v & 0xffff == v % 0x1_0000,
        v >> 16 == v / 0x1_0000,
        (1u32 << 16) == 0x1_0000,
{
    assert(v & 0xffff == v % 0x1_0000) by (bit_vector);
    assert(v >> 16 == v / 0x1_0000) by (bit_vector);
    assert((1u32 << 16) == 0x1_0000) by (bit_vector);
}

/// One more than the largest index that fits in half a word.
pub fn half_limit_value() -> (limit: usize)
    ensures
        limit == half_limit(),
{
    proof {
        if usize::BITS == 64 {
            lemma_unpack_64(0);
        } else {
            lemma_unpack_32(0);
        }
    }
    1usize << (usize::BITS / 2)
}

/// Unpacks an identifier into its file index and its chunk index.
pub fn split_vector_id(value: VectorID) -> (pair: (usize, usize))
    ensures
        pair.0 == unpacked_id(value as nat).0,
        pair.1 == unpacked_id(value as nat).1,
        pair.0 < half_limit(),
        pair.1 < half_limit(),
{
    proof {
        if usize::BITS == 64 {
            lemma_unpack_64(value as u64);
        } else {
            lemma_unpack_32(value as u32);
        }
    }
    let low_mask: usize = (1usize << (usize::BITS / 2)) - 1;
    let low: usize = value & low_mask;
    let high: usize = value >> (usize::BITS / 2);
    (high, low)
}

/// Packing two indices that fit in half a word and unpacking the result
/// gives the two indices back, and the packed value fits in a word.
pub proof fn lemma_split_combine(file_index: nat, document_index: nat)
    requires
        file_index < half_limit(),
        document_index < half_limit(),
    ensures
        packed_id(file_index, document_index) <= usize::MAX,
        unpacked_id(packed_id(file_index, document_index)) == (file_index, document_index),
{
    let h = half_limit() as int;
    let f = file_index as int;
    let c = document_index as int;
    assert(f * h <= (h - 1) * h) by (nonlinear_arith)
        requires
            0 <= f <= h - 1,
            h > 0,
    ;
    vstd::arithmetic::div_mod::lemma_fundamental_div_mod_converse(f * h + c, h, f, c);
}

/// Unpacking an identifier and packing the two indices again gives the
/// identifier back.
pub proof fn lemma_combine_split(value: nat)
    ensures
        packed_id(unpacked_id(value).0, unpacked_id(value).1) == value,
{
    let h = half_limit() as int;
    vstd::arithmetic::div_mod::lemma_fundamental_div_mod(value as int, h);
    assert((value as int / h) * h == h * (value as int / h)) by (nonlinear_arith);
}

/// The two indices that an identifier stands for fit in half a word each.
pub proof fn lemma_unpacked_in_range(value: usize)
    ensures
        unpacked_id(value as nat).0 < half_limit(),
        unpacked_id(value as nat).1 < half_limit(),
{
    let h = half_limit() as int;
    let v = value as int;
    vstd::arithmetic::div_mod::lemma_fundamental_div_mod(v, h);
    vstd::arithmetic::div_mod::lemma_mod_bound(v, h);
    assert(v < h * h) by {
        if usize::BITS == 64 {
            assert(0x1_0000_0000int * 0x1_0000_0000int == 0x1_0000_0000_0000_0000int);
        } else {
            assert(0x1_0000int * 0x1_0000int == 0x1_0000_0000int);
        }
    }
    let q = v / h;
    assert(q < h) by (nonlinear_arith)
        requires
            v == h * q + v % h,
            0 <= v % h,
            v < h * h,
            h > 0,
    ;
}

/// Two pairs of indices within range that pack to one identifier are the
/// same pair.
pub proof fn lemma_packed_id_injective(f1: nat, c1: nat, f2: nat, c2: nat)
    requires
        f1 < half_limit(),
        c1 < half_limit(),
        f2 < half_limit(),
        c2 < half_limit(),
        packed_id(f1, c1) == packed_id(f2, c2),
    ensures
        f1 == f2,
        c1 == c2,
{
    lemma_split_combine(f1, c1);
    lemma_split_combine(f2, c2);
}

} // verus!
