use crate::bignum::{big_add, big_less, big_mul_small, big_one, big_value};
use crate::ranking::{
    eligible, is_ranking, key_values, lemma_ranking_unique, picked, ranking_of, ranks_before,
    top_ranked,
};
use crate::vector_id::VectorID;
use vstd::prelude::*;

verus! {

/// The product of `rrf_k + 1`, `rrf_k + 2` and so on up to `rrf_k + n`,
/// without the factor `rrf_k + skip`.
pub open spec fn skip_product(rrf_k: nat, n: nat, skip: nat) -> nat
    decreases n,
{
    if n == 0 {
        1
    } else {
        skip_product(rrf_k, (n - 1) as nat, skip) * if n == skip {
            1
        } else {
            rrf_k + n
        }
    }
}

/// The common denominator of the contributions of lists of up to `n`
/// entries: the product of `rrf_k + 1` up to `rrf_k + n`.
pub open spec fn common_denominator(rrf_k: nat, n: nat) -> nat {
    skip_product(rrf_k, n, 0)
}

/// What one occurrence at zero-based position `rank` of a list adds to the
/// score of its identifier: `weight / (rrf_k + rank + 1)`, as a multiple of
/// one over the common denominator.
pub open spec fn contribution(weight: nat, rrf_k: nat, n: nat, rank: nat) -> nat {
    weight * skip_product(rrf_k, n, rank + 1)
}

/// The sum of the contributions of the occurrences of `id` in `list`.
pub open spec fn list_score(
    list: Seq<VectorID>,
    weight: nat,
    rrf_k: nat,
    n: nat,
    id: VectorID,
) -> nat
    decreases list.len(),
{
    if list.len() == 0 {
        0
    } else {
        list_score(list.drop_last(), weight, rrf_k, n, id) + if list.last() == id {
            contribution(weight, rrf_k, n, (list.len() - 1) as nat)
        } else {
            0
        }
    }
}

/// The length of the longer of two lists.
pub open spec fn longer_length(a: Seq<VectorID>, b: Seq<VectorID>) -> nat {
    if a.len() > b.len() {
        a.len()
    } else {
        b.len()
    }
}

/// The fused score of `id`: the sum of `weight / (rrf_k + rank + 1)` over its
/// occurrences in the vector list and in the text list, each list under its
/// weight, with `rrf_k` twice `top_k`. The score is exact: it is given as a
/// multiple of one over the common denominator of both lists.
pub open spec fn fused_score(
    vector_ids: Seq<VectorID>,
    text_ids: Seq<VectorID>,
    vector_weight: nat,
    text_weight: nat,
    top_k: nat,
    id: VectorID,
) -> nat {
    let n = longer_length(vector_ids, text_ids);
    list_score(vector_ids, vector_weight, 2 * top_k, n, id) + list_score(
        text_ids,
        text_weight,
        2 * top_k,
        n,
        id,
    )
}

/// The identifiers of `list`, each once, in the order of first appearance.
pub open spec fn distinct_ids(list: Seq<VectorID>) -> Seq<VectorID>
    decreases list.len(),
{
    if list.len() == 0 {
        Seq::empty()
    } else {
        let seen = distinct_ids(list.drop_last());
        if seen.contains(list.last()) {
            seen
        } else {
            seen.push(list.last())
        }
    }
}

/// The fused scores of the identifiers of both lists, in the order of first
/// appearance, the vector list before the text list.
pub open spec fn fused_keys(
    vector_ids: Seq<VectorID>,
    text_ids: Seq<VectorID>,
    vector_weight: nat,
    text_weight: nat,
    top_k: nat,
) -> Seq<nat> {
    let ids = distinct_ids(vector_ids + text_ids);
    Seq::new(
        ids.len(),
        |i: int| fused_score(vector_ids, text_ids, vector_weight, text_weight, top_k, ids[i]),
    )
}

/// The fused ranking: the identifiers of both lists by descending fused
/// score, those that appeared first before others of the same score, at most
/// `top_k` of them.
pub open spec fn fused_ranking(
    vector_ids: Seq<VectorID>,
    text_ids: Seq<VectorID>,
    vector_weight: nat,
    text_weight: nat,
    top_k: nat,
) -> Seq<VectorID> {
    let ids = distinct_ids(vector_ids + text_ids);
    let picks = ranking_of(
        fused_keys(vector_ids, text_ids, vector_weight, text_weight, top_k),
        None,
        top_k,
    );
    Seq::new(picks.len(), |i: int| ids[picks[i] as int])
}

/// Leaving out a factor that is not among the factors leaves out nothing.
proof fn lemma_skip_beyond(rrf_k: nat, n: nat, skip: nat)
    requires
        skip == 0 || skip > n,
    ensures
        skip_product(rrf_k, n, skip) == common_denominator(rrf_k, n),
    decreases n,
{
    if n > 0 {
        lemma_skip_beyond(rrf_k, (n - 1) as nat, skip);
    }
}

/// The common denominator is not zero.
pub proof fn lemma_common_denominator_positive(rrf_k: nat, n: nat)
    ensures
        common_denominator(rrf_k, n) > 0,
    decreases n,
{
    if n > 0 {
        lemma_common_denominator_positive(rrf_k, (n - 1) as nat);
        let p = common_denominator(rrf_k, (n - 1) as nat) as int;
        let f = (rrf_k + n) as int;
        assert(p * f > 0) by (nonlinear_arith)
            requires
                p > 0,
                f > 0,
        ;
    }
}

/// A contribution is exactly `weight / (rrf_k + rank + 1)`: times its
/// denominator it is the weight times the common denominator.
pub proof fn lemma_contribution_exact(weight: nat, rrf_k: nat, n: nat, rank: nat)
    requires
        rank < n,
    ensures
        contribution(weight, rrf_k, n, rank) * (rrf_k + rank + 1) == weight * common_denominator(
            rrf_k,
            n,
        ),
    decreases n,
{
    let skip = rank + 1;
    let m = (n - 1) as nat;
    let d = (rrf_k + skip) as int;
    let w = weight as int;
    if n == skip {
        lemma_skip_beyond(rrf_k, m, skip);
        let p = common_denominator(rrf_k, m) as int;
        assert(skip_product(rrf_k, n, skip) == p * 1);
        assert(common_denominator(rrf_k, n) == p * d);
        assert((w * (p * 1)) * d == w * (p * d)) by (nonlinear_arith);
    } else {
        lemma_contribution_exact(weight, rrf_k, m, rank);
        let s = skip_product(rrf_k, m, skip) as int;
        let p = common_denominator(rrf_k, m) as int;
        let f = (rrf_k + n) as int;
        assert(skip_product(rrf_k, n, skip) == s * f);
        assert(common_denominator(rrf_k, n) == p * f);
        assert((w * (s * f)) * d == w * (p * f)) by (nonlinear_arith)
            requires
                (w * s) * d == w * p,
        ;
    }
}

/// `distinct_ids` holds exactly the identifiers of the list, none twice.
pub proof fn lemma_distinct_ids(list: Seq<VectorID>)
    ensures
        distinct_ids(list).no_duplicates(),
        distinct_ids(list).len() <= list.len(),
        forall|id: VectorID| distinct_ids(list).contains(id) <==> list.contains(id),
    decreases list.len(),
{
    if list.len() > 0 {
        let front = list.drop_last();
        lemma_distinct_ids(front);
        let seen = distinct_ids(front);
        assert forall|id: VectorID| distinct_ids(list).contains(id) <==> list.contains(id) by {
            assert(seen.contains(id) <==> front.contains(id));
            if list.contains(id) {
                let i = choose|i: int| 0 <= i < list.len() && list[i] == id;
                if i < front.len() {
                    assert(front[i] == id);
                    assert(front.contains(id));
                    let j = choose|j: int| 0 <= j < seen.len() && seen[j] == id;
                    assert(distinct_ids(list)[j] == id);
                } else {
                    if !seen.contains(id) {
                        assert(distinct_ids(list)[seen.len() as int] == id);
                    }
                }
            }
            if distinct_ids(list).contains(id) {
                let j = choose|j: int| 0 <= j < distinct_ids(list).len() && distinct_ids(list)[j] == id;
                if j < seen.len() {
                    assert(seen[j] == id);
                    assert(seen.contains(id));
                    let i = choose|i: int| 0 <= i < front.len() && front[i] == id;
                    assert(list[i] == id);
                } else {
                    assert(list[list.len() - 1] == id);
                }
            }
        }
    }
}

/// An identifier that does not occur in a list gets nothing from it.
pub proof fn lemma_absent_score(
    list: Seq<VectorID>,
    weight: nat,
    rrf_k: nat,
    n: nat,
    id: VectorID,
)
    requires
        !list.contains(id),
    ensures
        list_score(list, weight, rrf_k, n, id) == 0,
    decreases list.len(),
{
    if list.len() > 0 {
        let front = list.drop_last();
        assert(list[list.len() - 1] != id);
        assert forall|i: int| 0 <= i < front.len() implies front[i] != id by {
            assert(list[i] == front[i]);
        }
        lemma_absent_score(front, weight, rrf_k, n, id);
    }
}

/// The numbers that a list of limb lists stands for.
pub open spec fn big_values(keys: Seq<Vec<u32>>) -> Seq<nat> {
    Seq::new(keys.len(), |i: int| big_value(keys[i]@))
}

/// For each position `rank` below `n` the product that a contribution at
/// that position is the weight times of.
fn skip_products(rrf_k: u128, n: usize) -> (products: Vec<Vec<u32>>)
    requires
        rrf_k <= 2 * usize::MAX,
    ensures
        products.len() == n,
        forall|r: int|
            0 <= r < n ==> big_value(#[trigger] products[r]@) == skip_product(
                rrf_k as nat,
                n as nat,
                (r + 1) as nat,
            ),
{
    let mut products: Vec<Vec<u32>> = Vec::new();
    let mut r: usize = 0;
    while r < n
        invariant
            r <= n,
            rrf_k <= 2 * usize::MAX,
            products.len() == r,
            forall|j: int|
                0 <= j < r ==> big_value(#[trigger] products[j]@) == skip_product(
                    rrf_k as nat,
                    n as nat,
                    (j + 1) as nat,
                ),
        decreases n - r,
    {
        let mut product = big_one();
        let mut q: usize = 0;
        while q < n
            invariant
                q <= n,
                r < n,
                rrf_k <= 2 * usize::MAX,
                big_value(product@) == skip_product(rrf_k as nat, q as nat, (r + 1) as nat),
            decreases n - q,
        {
            q += 1;
            if q != r + 1 {
                product = big_mul_small(&product, rrf_k + q as u128);
            } else {
                proof {
                    let p = big_value(product@) as int;
                    assert(p * 1 == p) by (nonlinear_arith);
                }
            }
        }
        products.push(product);
        r += 1;
    }
    products
}

/// Adds the contributions of one list to the scores gathered so far.
///
/// `ids` and `keys` run in parallel: `keys[j]` is the score of `ids[j]`.
/// `seen` is what was gathered before this list, and `base` the score that
/// each identifier had from it.
fn accumulate(
    ids: &mut Vec<VectorID>,
    keys: &mut Vec<Vec<u32>>,
    list: &Vec<VectorID>,
    weight: u64,
    products: &Vec<Vec<u32>>,
    Ghost(rrf_k): Ghost<nat>,
    Ghost(seen): Ghost<Seq<VectorID>>,
    Ghost(base): Ghost<spec_fn(VectorID) -> nat>,
)
    requires
        list.len() <= products.len(),
        forall|r: int|
            0 <= r < products.len() ==> big_value(#[trigger] products[r]@) == skip_product(
                rrf_k,
                products.len() as nat,
                (r + 1) as nat,
            ),
        old(ids)@ == distinct_ids(seen),
        old(keys).len() == old(ids).len(),
        forall|j: int|
            0 <= j < old(ids).len() ==> big_value(#[trigger] old(keys)[j]@) == base(old(ids)[j]),
        forall|id: VectorID| !seen.contains(id) ==> #[trigger] base(id) == 0,
    ensures
        final(ids)@ == distinct_ids(seen + list@),
        final(keys).len() == final(ids).len(),
        forall|j: int|
            0 <= j < final(ids).len() ==> big_value(#[trigger] final(keys)[j]@) == base(
                final(ids)[j],
            ) + list_score(list@, weight as nat, rrf_k, products.len() as nat, final(ids)[j]),
{
    let ghost n = products.len() as nat;
    let mut i: usize = 0;
    assert(seen + list@.take(0) =~= seen);
    while i < list.len()
        invariant
            i <= list.len(),
            list.len() <= products.len(),
            n == products.len(),
            forall|r: int|
                0 <= r < products.len() ==> big_value(#[trigger] products[r]@) == skip_product(
                    rrf_k,
                    n,
                    (r + 1) as nat,
                ),
            ids@ == distinct_ids(seen + list@.take(i as int)),
            keys.len() == ids.len(),
            forall|j: int|
                0 <= j < ids.len() ==> big_value(#[trigger] keys[j]@) == base(ids[j]) + list_score(
                    list@.take(i as int),
                    weight as nat,
                    rrf_k,
                    n,
                    ids[j],
                ),
            forall|id: VectorID| !seen.contains(id) ==> #[trigger] base(id) == 0,
        decreases list.len() - i,
    {
        let id = list[i];
        let ghost before = list@.take(i as int);
        let ghost after = list@.take(i + 1);
        let amount = big_mul_small(&products[i], weight as u128);
        proof {
            assert(after.drop_last() =~= before);
            assert(after.last() == id);
            assert((seen + after).drop_last() =~= seen + before);
            assert((seen + after).last() == id);
            lemma_distinct_ids(seen + before);
            let s = skip_product(rrf_k, n, (i + 1) as nat) as int;
            let w = weight as int;
            assert(s * w == w * s) by (nonlinear_arith);
            assert(big_value(amount@) == contribution(weight as nat, rrf_k, n, i as nat));
            assert forall|x: VectorID|
                list_score(after, weight as nat, rrf_k, n, x) == list_score(
                    before,
                    weight as nat,
                    rrf_k,
                    n,
                    x,
                ) + if x == id {
                    big_value(amount@)
                } else {
                    0
                } by {}
        }
        let mut found: Option<usize> = None;
        let mut j: usize = 0;
        while j < ids.len() && found.is_none()
            invariant
                j <= ids.len(),
                found matches Some(f) ==> f < ids.len() && ids[f as int] == id,
                found is None ==> forall|k: int| 0 <= k < j ==> ids[k] != id,
            decreases (ids.len() - j) + (if found is None { 1int } else { 0int }),
        {
            if ids[j] == id {
                found = Some(j);
            } else {
                j += 1;
            }
        }
        match found {
            Some(f) => {
                assert(ids@.contains(id));
                let sum = big_add(&keys[f], &amount);
                keys.set(f, sum);
            },
            None => {
                proof {
                    assert(!ids@.contains(id));
                    assert(!(seen + before).contains(id));
                    assert(!seen.contains(id)) by {
                        if seen.contains(id) {
                            let k = choose|k: int| 0 <= k < seen.len() && seen[k] == id;
                            assert((seen + before)[k] == id);
                        }
                    }
                    assert(!before.contains(id)) by {
                        if before.contains(id) {
                            let k = choose|k: int| 0 <= k < before.len() && before[k] == id;
                            assert((seen + before)[seen.len() + k] == id);
                        }
                    }
                    lemma_absent_score(before, weight as nat, rrf_k, n, id);
                }
                ids.push(id);
                keys.push(amount);
            },
        }
        i += 1;
    }
    assert(list@.take(list.len() as int) =~= list@);
}

/// The identifiers of both lists in the order of first appearance, each with
/// its fused score. A score is given in limbs of 32 bits, the lowest first,
/// as a multiple of one over the common denominator of both lists.
pub fn fusion_scores(
    vector_search_ids: &Vec<VectorID>,
    text_search_ids: &Vec<VectorID>,
    vector_search_weight: u64,
    text_search_weight: u64,
    top_k: usize,
) -> (scored: (Vec<VectorID>, Vec<Vec<u32>>))
    ensures
        scored.0@ == distinct_ids(vector_search_ids@ + text_search_ids@),
        scored.1.len() == scored.0.len(),
        big_values(scored.1@) == fused_keys(
            vector_search_ids@,
            text_search_ids@,
            vector_search_weight as nat,
            text_search_weight as nat,
            top_k as nat,
        ),
{
    let rrf_k: u128 = 2 * (top_k as u128);
    let n: usize = if vector_search_ids.len() > text_search_ids.len() {
        vector_search_ids.len()
    } else {
        text_search_ids.len()
    };
    let products = skip_products(rrf_k, n);
    let mut ids: Vec<VectorID> = Vec::new();
    let mut keys: Vec<Vec<u32>> = Vec::new();
    let ghost nothing: spec_fn(VectorID) -> nat = |id: VectorID| 0nat;
    assert(Seq::<VectorID>::empty() + vector_search_ids@ =~= vector_search_ids@);
    accumulate(
        &mut ids,
        &mut keys,
        vector_search_ids,
        vector_search_weight,
        &products,
        Ghost(rrf_k as nat),
        Ghost(Seq::empty()),
        Ghost(nothing),
    );
    let ghost from_vectors: spec_fn(VectorID) -> nat = |id: VectorID|
        list_score(vector_search_ids@, vector_search_weight as nat, rrf_k as nat, n as nat, id);
    proof {
        assert forall|id: VectorID| !vector_search_ids@.contains(id) implies #[trigger] from_vectors(
            id,
        ) == 0 by {
            lemma_absent_score(
                vector_search_ids@,
                vector_search_weight as nat,
                rrf_k as nat,
                n as nat,
                id,
            );
        }
    }
    accumulate(
        &mut ids,
        &mut keys,
        text_search_ids,
        text_search_weight,
        &products,
        Ghost(rrf_k as nat),
        Ghost(vector_search_ids@),
        Ghost(from_vectors),
    );
    proof {
        assert(big_values(keys@) =~= fused_keys(
            vector_search_ids@,
            text_search_ids@,
            vector_search_weight as nat,
            text_search_weight as nat,
            top_k as nat,
        ));
    }
    (ids, keys)
}

/// How many of the first `upto` numbers are below the number at `position`.
pub open spec fn count_below(values: Seq<nat>, position: int, upto: nat) -> nat
    decreases upto,
{
    if upto == 0 {
        0
    } else {
        count_below(values, position, (upto - 1) as nat) + if values[upto - 1]
            < values[position] {
            1nat
        } else {
            0nat
        }
    }
}

proof fn lemma_count_bound(values: Seq<nat>, position: int, upto: nat)
    ensures
        count_below(values, position, upto) <= upto,
    decreases upto,
{
    if upto > 0 {
        lemma_count_bound(values, position, (upto - 1) as nat);
    }
}

proof fn lemma_count_le(values: Seq<nat>, a: int, b: int, upto: nat)
    requires
        values[a] <= values[b],
    ensures
        count_below(values, a, upto) <= count_below(values, b, upto),
    decreases upto,
{
    if upto > 0 {
        lemma_count_le(values, a, b, (upto - 1) as nat);
    }
}

proof fn lemma_count_lt(values: Seq<nat>, a: int, b: int, upto: nat)
    requires
        values[a] < values[b],
        0 <= a < upto,
    ensures
        count_below(values, a, upto) < count_below(values, b, upto),
    decreases upto,
{
    if upto - 1 == a {
        lemma_count_le(values, a, b, (upto - 1) as nat);
    } else {
        lemma_count_lt(values, a, b, (upto - 1) as nat);
    }
}

/// For each number how many of the numbers are below it: numbers that
/// compare as the given ones do, and that fit in a word.
fn dense_keys(keys: &Vec<Vec<u32>>) -> (dense: Vec<u128>)
    ensures
        dense.len() == keys.len(),
        forall|i: int|
            0 <= i < keys.len() ==> #[trigger] dense[i] == count_below(
                big_values(keys@),
                i,
                keys.len() as nat,
            ),
{
    let ghost values = big_values(keys@);
    let mut dense: Vec<u128> = Vec::new();
    let mut i: usize = 0;
    while i < keys.len()
        invariant
            i <= keys.len(),
            values == big_values(keys@),
            dense.len() == i,
            forall|k: int|
                0 <= k < i ==> #[trigger] dense[k] == count_below(values, k, keys.len() as nat),
        decreases keys.len() - i,
    {
        let mut count: u128 = 0;
        let mut j: usize = 0;
        while j < keys.len()
            invariant
                j <= keys.len(),
                i < keys.len(),
                values == big_values(keys@),
                count == count_below(values, i as int, j as nat),
                count <= j,
            decreases keys.len() - j,
        {
            if big_less(&keys[j], &keys[i]) {
                count += 1;
            }
            j += 1;
        }
        dense.push(count);
        i += 1;
    }
    dense
}

/// Fuses two ranked lists of identifiers by reciprocal rank.
///
/// Each occurrence of an identifier at zero-based position `i` of a list adds
/// `weight / (2 * top_k + i + 1)` to its score. The result holds the
/// identifiers by descending score, those that appeared first (the vector
/// list before the text list) before others of the same score, and at most
/// `top_k` of them. Scores are added and compared exactly. Only the ratio of
/// the two weights bears on the result, so weights are given as whole
/// numbers: weights of a half and one are given as 1 and 2.
pub fn reciprocal_rank_fusion(
    vector_search_ids: Vec<VectorID>,
    text_search_ids: Vec<VectorID>,
    vector_search_weight: u64,
    text_search_weight: u64,
    top_k: usize,
) -> (fused: Vec<VectorID>)
    ensures
        fused@ == fused_ranking(
            vector_search_ids@,
            text_search_ids@,
            vector_search_weight as nat,
            text_search_weight as nat,
            top_k as nat,
        ),
        fused.len() <= top_k,
        is_ranking(
            fused_keys(
                vector_search_ids@,
                text_search_ids@,
                vector_search_weight as nat,
                text_search_weight as nat,
                top_k as nat,
            ),
            None,
            top_k as nat,
            ranking_of(
                fused_keys(
                    vector_search_ids@,
                    text_search_ids@,
                    vector_search_weight as nat,
                    text_search_weight as nat,
                    top_k as nat,
                ),
                None,
                top_k as nat,
            ),
        ),
{
    let (ids, keys) = fusion_scores(
        &vector_search_ids,
        &text_search_ids,
        vector_search_weight,
        text_search_weight,
        top_k,
    );
    let ghost values = big_values(keys@);
    let dense = dense_keys(&keys);
    let picks = top_ranked(&dense, None, top_k);
    proof {
        let ranks = key_values(dense@);
        let m = keys.len() as nat;
        assert forall|a: int, b: int| 0 <= a < m && 0 <= b < m implies (ranks_before(ranks, a, b)
            <==> ranks_before(values, a, b)) by {
            assert(ranks[a] == count_below(values, a, m));
            assert(ranks[b] == count_below(values, b, m));
            if values[a] < values[b] {
                lemma_count_lt(values, a, b, m);
            } else if values[b] < values[a] {
                lemma_count_lt(values, b, a, m);
            } else {
                lemma_count_le(values, a, b, m);
                lemma_count_le(values, b, a, m);
            }
        }
        assert forall|p: int| eligible(ranks, None, p) <==> eligible(values, None, p) by {}
        assert forall|i: int| 0 <= i < picks.len() implies eligible(
            values,
            None,
            #[trigger] picks[i] as int,
        ) by {
            assert(eligible(ranks, None, picks[i] as int));
        }
        assert forall|i: int, j: int| 0 <= i < j < picks.len() implies ranks_before(
            values,
            #[trigger] picks[i] as int,
            #[trigger] picks[j] as int,
        ) by {
            assert(eligible(ranks, None, picks[i] as int));
            assert(eligible(ranks, None, picks[j] as int));
            assert(ranks_before(ranks, picks[i] as int, picks[j] as int));
        }
        assert forall|p: int, i: int|
            eligible(values, None, p) && !picked(picks@, p) && 0 <= i < picks.len() implies #[trigger] ranks_before(
            values,
            picks[i] as int,
            p,
        ) by {
            assert(eligible(ranks, None, picks[i] as int));
            assert(eligible(ranks, None, p));
            assert(ranks_before(ranks, picks[i] as int, p));
        }
        if picks.len() < top_k {
            assert forall|p: int| #[trigger] eligible(values, None, p) implies picked(picks@, p) by {
                assert(eligible(ranks, None, p));
            }
        }
        assert(is_ranking(values, None, top_k as nat, picks@));
        lemma_ranking_unique(
            values,
            None,
            top_k as nat,
            picks@,
            ranking_of(values, None, top_k as nat),
        );
    }
    let mut fused: Vec<VectorID> = Vec::new();
    let mut i: usize = 0;
    while i < picks.len()
        invariant
            i <= picks.len(),
            fused.len() == i,
            keys.len() == ids.len(),
            values == big_values(keys@),
            is_ranking(values, None, top_k as nat, picks@),
            forall|j: int| 0 <= j < i ==> fused[j] == ids[picks[j] as int],
        decreases picks.len() - i,
    {
        assert(eligible(values, None, picks[i as int] as int));
        fused.push(ids[picks[i]]);
        i += 1;
    }
    proof {
        assert(fused@ =~= fused_ranking(
            vector_search_ids@,
            text_search_ids@,
            vector_search_weight as nat,
            text_search_weight as nat,
            top_k as nat,
        ));
    }
    fused
}

} // verus!
