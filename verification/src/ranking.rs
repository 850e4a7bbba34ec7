use vstd::prelude::*;

verus! {

/// Position `a` is ranked before position `b`: its key is larger, or the keys
/// are equal and `a` came first.
pub open spec fn ranks_before(keys: Seq<nat>, a: int, b: int) -> bool {
    keys[a] > keys[b] || (keys[a] == keys[b] && a < b)
}

/// The keys as numbers.
pub open spec fn key_values(keys: Seq<u128>) -> Seq<nat> {
    Seq::new(keys.len(), |i: int| keys[i] as nat)
}

/// The floor as a number.
pub open spec fn floor_value(floor: Option<u128>) -> Option<nat> {
    match floor {
        Some(m) => Some(m as nat),
        None => None,
    }
}

/// Position `p` may be picked: it lies within `keys` and its key reaches the
/// floor, where there is one.
pub open spec fn eligible(keys: Seq<nat>, floor: Option<nat>, p: int) -> bool {
    &&& 0 <= p < keys.len()
    &&& floor matches Some(m) ==> keys[p] >= m
}

/// Position `p` is among `picks`.
pub open spec fn picked(picks: Seq<usize>, p: int) -> bool {
    exists|i: int| 0 <= i < picks.len() && #[trigger] picks[i] == p
}

/// `picks` is the ranking of `keys`: the eligible positions in descending key
/// order, earlier positions first among equal keys, cut off after `limit`.
pub open spec fn is_ranking(
    keys: Seq<nat>,
    floor: Option<nat>,
    limit: nat,
    picks: Seq<usize>,
) -> bool {
    &&& picks.len() <= limit
    &&& forall|i: int| 0 <= i < picks.len() ==> eligible(keys, floor, #[trigger] picks[i] as int)
    &&& forall|i: int, j: int|
        0 <= i < j < picks.len() ==> ranks_before(
            keys,
            #[trigger] picks[i] as int,
            #[trigger] picks[j] as int,
        )
    &&& forall|p: int, i: int|
        eligible(keys, floor, p) && !picked(picks, p) && 0 <= i < picks.len() ==> #[trigger] ranks_before(
            keys,
            picks[i] as int,
            p,
        )
    &&& picks.len() < limit ==> forall|p: int| #[trigger]
        eligible(keys, floor, p) ==> picked(picks, p)
}

/// The ranking of `keys` under `floor` and `limit`.
pub open spec fn ranking_of(keys: Seq<nat>, floor: Option<nat>, limit: nat) -> Seq<usize> {
    choose|picks: Seq<usize>| is_ranking(keys, floor, limit, picks)
}

/// Two rankings of the same keys under the same floor and limit are the same
/// sequence: the properties in `is_ranking` leave no choice.
pub proof fn lemma_ranking_unique(
    keys: Seq<nat>,
    floor: Option<nat>,
    limit: nat,
    a: Seq<usize>,
    b: Seq<usize>,
)
    requires
        is_ranking(keys, floor, limit, a),
        is_ranking(keys, floor, limit, b),
    ensures
        a == b,
{
    lemma_ranking_prefix(keys, floor, limit, a, b, a.len() as int);
    lemma_ranking_prefix(keys, floor, limit, b, a, b.len() as int);
    lemma_ranking_length(keys, floor, limit, a, b);
    lemma_ranking_length(keys, floor, limit, b, a);
    assert(a =~= b);
}

/// Along a ranking the keys never rise, and no position occurs twice.
pub proof fn lemma_ranking_descends(
    keys: Seq<nat>,
    floor: Option<nat>,
    limit: nat,
    picks: Seq<usize>,
)
    requires
        is_ranking(keys, floor, limit, picks),
    ensures
        forall|i: int, j: int|
            0 <= i < j < picks.len() ==> keys[#[trigger] picks[i] as int] >= keys[#[trigger] picks[j] as int]
                && picks[i] != picks[j],
{
    assert forall|i: int, j: int| 0 <= i < j < picks.len() implies keys[#[trigger] picks[i] as int]
        >= keys[#[trigger] picks[j] as int] && picks[i] != picks[j] by {
        assert(ranks_before(keys, picks[i] as int, picks[j] as int));
    }
}

/// A floor that no key is below has no effect: the ranking without a floor
/// is the ranking under that floor too.
pub proof fn lemma_floor_without_effect(keys: Seq<nat>, m: nat, limit: nat, picks: Seq<usize>)
    requires
        forall|i: int| 0 <= i < keys.len() ==> #[trigger] keys[i] >= m,
        is_ranking(keys, None, limit, picks),
    ensures
        is_ranking(keys, Some(m), limit, picks),
{
    assert forall|p: int| eligible(keys, Some(m), p) <==> eligible(keys, None, p) by {}
    assert forall|p: int, i: int|
        eligible(keys, Some(m), p) && !picked(picks, p) && 0 <= i < picks.len() implies #[trigger] ranks_before(
        keys,
        picks[i] as int,
        p,
    ) by {
        assert(eligible(keys, None, p));
    }
    if picks.len() < limit {
        assert forall|p: int| #[trigger] eligible(keys, Some(m), p) implies picked(picks, p) by {
            assert(eligible(keys, None, p));
        }
    }
}

/// A ranking is no longer than another of the same keys that it agrees with
/// as far as that one reaches.
proof fn lemma_ranking_length(
    keys: Seq<nat>,
    floor: Option<nat>,
    limit: nat,
    a: Seq<usize>,
    b: Seq<usize>,
)
    requires
        is_ranking(keys, floor, limit, a),
        is_ranking(keys, floor, limit, b),
        forall|i: int| 0 <= i < a.len() && i < b.len() ==> a[i] == b[i],
    ensures
        b.len() <= a.len(),
{
    if a.len() < b.len() {
        let p = b[a.len() as int] as int;
        assert(eligible(keys, floor, p));
        assert(picked(a, p));
        let i = choose|i: int| 0 <= i < a.len() && #[trigger] a[i] == p;
        assert(ranks_before(keys, b[i] as int, b[a.len() as int] as int));
    }
}

/// The first `n` picks of two rankings of the same keys agree, as far as both
/// reach.
proof fn lemma_ranking_prefix(
    keys: Seq<nat>,
    floor: Option<nat>,
    limit: nat,
    a: Seq<usize>,
    b: Seq<usize>,
    n: int,
)
    requires
        is_ranking(keys, floor, limit, a),
        is_ranking(keys, floor, limit, b),
        0 <= n <= a.len(),
    ensures
        forall|i: int| 0 <= i < n && i < b.len() ==> a[i] == b[i],
    decreases n,
{
    if n > 0 {
        lemma_ranking_prefix(keys, floor, limit, a, b, n - 1);
        let k = n - 1;
        if k < b.len() {
            let x = a[k] as int;
            let y = b[k] as int;
            if x != y {
                // `x` is not among the first `k` picks of `b`, nor `y` among those of `a`.
                if picked(b, x) {
                    let i = choose|i: int| 0 <= i < b.len() && #[trigger] b[i] == x;
                    if i < k {
                        assert(ranks_before(keys, a[i] as int, a[k] as int));
                    }
                    assert(i > k);
                    assert(ranks_before(keys, b[k] as int, b[i] as int));
                } else {
                    assert(eligible(keys, floor, x));
                    assert(ranks_before(keys, b[k] as int, x));
                }
                assert(ranks_before(keys, y, x));
                if picked(a, y) {
                    let j = choose|j: int| 0 <= j < a.len() && #[trigger] a[j] == y;
                    if j < k {
                        assert(ranks_before(keys, b[j] as int, b[k] as int));
                    }
                    assert(j > k);
                    assert(ranks_before(keys, a[k] as int, a[j] as int));
                } else {
                    assert(eligible(keys, floor, y));
                    assert(ranks_before(keys, a[k] as int, y));
                }
                assert(ranks_before(keys, x, y));
            }
        }
    }
}

/// Position `p` is still to be picked after `last`.
spec fn pending(keys: Seq<nat>, floor: Option<nat>, last: Option<usize>, p: int) -> bool {
    &&& eligible(keys, floor, p)
    &&& last matches Some(l) ==> ranks_before(keys, l as int, p)
}

/// The best position still to be picked after `last`, if any is left.
fn next_pick(keys: &Vec<u128>, floor: Option<u128>, last: Option<usize>) -> (best: Option<usize>)
    requires
        last matches Some(l) ==> l < keys.len(),
    ensures
        best matches Some(b) ==> pending(key_values(keys@), floor_value(floor), last, b as int) && forall|p: int|
            pending(key_values(keys@), floor_value(floor), last, p) && p != b ==> #[trigger] ranks_before(
                key_values(keys@),
                b as int,
                p,
            ),
        best is None ==> forall|p: int| !#[trigger] pending(key_values(keys@), floor_value(floor), last, p),
{
    let mut best: Option<usize> = None;
    let mut p: usize = 0;
    while p < keys.len()
        invariant
            p <= keys.len(),
            last matches Some(l) ==> l < keys.len(),
            best matches Some(b) ==> b < p && pending(key_values(keys@), floor_value(floor), last, b as int) && forall|q: int|
                0 <= q < p && pending(key_values(keys@), floor_value(floor), last, q) && q != b ==> #[trigger] ranks_before(
                    key_values(keys@),
                    b as int,
                    q,
                ),
            best is None ==> forall|q: int| 0 <= q < p ==> !#[trigger] pending(key_values(keys@), floor_value(floor), last, q),
        decreases keys.len() - p,
    {
        let key = keys[p];
        let reaches_floor = match floor {
            Some(m) => key >= m,
            None => true,
        };
        let after_last = match last {
            Some(l) => keys[l] > key || (keys[l] == key && l < p),
            None => true,
        };
        if reaches_floor && after_last {
            match best {
                Some(b) => {
                    if key > keys[b] {
                        proof {
                            assert forall|q: int|
                                0 <= q < p + 1 && pending(key_values(keys@), floor_value(floor), last, q) && q != p implies #[trigger] ranks_before(
                                key_values(keys@),
                                p as int,
                                q,
                            ) by {
                                if q != b {
                                    assert(ranks_before(key_values(keys@), b as int, q));
                                }
                            }
                        }
                        best = Some(p);
                    } else {
                        assert(ranks_before(key_values(keys@), b as int, p as int));
                    }
                },
                None => {
                    best = Some(p);
                },
            }
        }
        p += 1;
    }
    best
}

/// Ranks the positions of `keys`: those whose key reaches `floor` (all of
/// them where there is none), by descending key, earlier positions first
/// among equal keys, at most `limit` of them.
pub fn top_ranked(keys: &Vec<u128>, floor: Option<u128>, limit: usize) -> (picks: Vec<usize>)
    ensures
        is_ranking(key_values(keys@), floor_value(floor), limit as nat, picks@),
        picks@ == ranking_of(key_values(keys@), floor_value(floor), limit as nat),
{
    let mut picks: Vec<usize> = Vec::new();
    let mut last: Option<usize> = None;
    let mut exhausted = false;
    while picks.len() < limit && !exhausted
        invariant
            picks.len() <= limit,
            last is None <==> picks.len() == 0,
            last matches Some(l) ==> l == picks[picks.len() - 1],
            forall|i: int| 0 <= i < picks.len() ==> eligible(key_values(keys@), floor_value(floor), #[trigger] picks[i] as int),
            forall|i: int, j: int|
                0 <= i < j < picks.len() ==> ranks_before(
                    key_values(keys@),
                    #[trigger] picks[i] as int,
                    #[trigger] picks[j] as int,
                ),
            forall|p: int| #[trigger]
                eligible(key_values(keys@), floor_value(floor), p) ==> (picked(picks@, p) <==> !pending(
                    key_values(keys@),
                    floor_value(floor),
                    last,
                    p,
                )),
            exhausted ==> forall|p: int| !#[trigger] pending(key_values(keys@), floor_value(floor), last, p),
        decreases (limit - picks.len()) + (if exhausted { 0int } else { 1int }),
    {
        match next_pick(keys, floor, last) {
            Some(b) => {
                let ghost before = picks@;
                let ghost prev = last;
                picks.push(b);
                last = Some(b);
                proof {
                    assert(picks@[before.len() as int] == b);
                    assert forall|i: int, j: int| 0 <= i < j < picks.len() implies ranks_before(
                        key_values(keys@),
                        #[trigger] picks[i] as int,
                        #[trigger] picks[j] as int,
                    ) by {
                        if j == before.len() && i < before.len() - 1 {
                            assert(ranks_before(
                                key_values(keys@),
                                before[i] as int,
                                before[before.len() - 1] as int,
                            ));
                        }
                    }
                    assert forall|p: int| #[trigger] eligible(key_values(keys@), floor_value(floor), p) implies (picked(
                        picks@,
                        p,
                    ) <==> !pending(key_values(keys@), floor_value(floor), last, p)) by {
                        if picked(picks@, p) {
                            let i = choose|i: int| 0 <= i < picks.len() && #[trigger] picks[i] == p;
                            if i < before.len() {
                                assert(before[i] == p);
                                assert(picked(before, p));
                                assert(ranks_before(key_values(keys@), picks[i] as int, picks[before.len() as int] as int));
                            }
                        } else {
                            if p == b {
                                assert(picks@[before.len() as int] == p);
                            }
                            if picked(before, p) {
                                let i = choose|i: int| 0 <= i < before.len() && #[trigger] before[i] == p;
                                assert(picks@[i] == p);
                            }
                            assert(pending(key_values(keys@), floor_value(floor), prev, p));
                            assert(ranks_before(key_values(keys@), b as int, p));
                        }
                    }
                }
            },
            None => {
                exhausted = true;
            },
        }
    }
    proof {
        assert forall|p: int, i: int|
            eligible(key_values(keys@), floor_value(floor), p) && !picked(picks@, p) && 0 <= i < picks.len() implies #[trigger] ranks_before(
            key_values(keys@),
            picks[i] as int,
            p,
        ) by {
            assert(pending(key_values(keys@), floor_value(floor), last, p));
            if i < picks.len() - 1 {
                assert(ranks_before(key_values(keys@), picks[i] as int, picks[picks.len() - 1] as int));
            }
        }
        assert(is_ranking(key_values(keys@), floor_value(floor), limit as nat, picks@));
        lemma_ranking_unique(
            key_values(keys@),
            floor_value(floor),
            limit as nat,
            picks@,
            ranking_of(key_values(keys@), floor_value(floor), limit as nat),
        );
    }
    picks
}

} // verus!
