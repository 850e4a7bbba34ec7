use crate::document::{document_views, DocumentView, RagDocument};
use crate::estimator::Estimator;
use crate::text::{chars_of, string_of, string_texts};
use vstd::prelude::*;

verus! {

/// `separator` stands in `text` at position `at`.
pub open spec fn matches_at(text: Seq<char>, separator: Seq<char>, at: int) -> bool {
    &&& 0 <= at
    &&& at + separator.len() <= text.len()
    &&& text.subrange(at, at + separator.len()) == separator
}

/// `separator` stands somewhere in `text`.
pub open spec fn occurs(text: Seq<char>, separator: Seq<char>) -> bool {
    exists|at: int| matches_at(text, separator, at)
}

/// The piece of `text` from `from` up to `to`, as a list of one atom, or of
/// none where the piece is empty.
pub open spec fn piece(text: Seq<char>, from: int, to: int) -> Seq<Seq<char>> {
    if 0 <= from < to <= text.len() {
        seq![text.subrange(from, to)]
    } else {
        Seq::empty()
    }
}

/// The atoms of `text` from position `start` on, where the text before `at`
/// is known to hold no separator that begins at or after `start`: the pieces
/// between successive separators, leftmost first, without the empty ones.
pub open spec fn atoms_scan(text: Seq<char>, separator: Seq<char>, start: int, at: int) -> Seq<
    Seq<char>,
>
    decreases text.len() - at,
{
    if separator.len() == 0 || at < 0 || at + separator.len() > text.len() {
        piece(text, start, text.len() as int)
    } else if matches_at(text, separator, at) {
        piece(text, start, at) + atoms_scan(
            text,
            separator,
            at + separator.len(),
            at + separator.len(),
        )
    } else {
        atoms_scan(text, separator, start, at + 1)
    }
}

/// The atoms that `separator` divides `text` into. The empty separator
/// divides it into its characters.
pub open spec fn atoms_of(text: Seq<char>, separator: Seq<char>) -> Seq<Seq<char>> {
    if separator.len() == 0 {
        Seq::new(text.len(), |i: int| seq![text[i]])
    } else {
        atoms_scan(text, separator, 0, 0)
    }
}

/// `parts` in one text, with `separator` between neighbours.
pub open spec fn join(parts: Seq<Seq<char>>, separator: Seq<char>) -> Seq<char>
    decreases parts.len(),
{
    if parts.len() == 0 {
        Seq::empty()
    } else if parts.len() == 1 {
        parts[0]
    } else {
        join(parts.drop_last(), separator) + separator + parts.last()
    }
}

/// The texts of a list of character vectors.
pub open spec fn texts(parts: Seq<Vec<char>>) -> Seq<Seq<char>> {
    Seq::new(parts.len(), |i: int| parts[i]@)
}

/// Whether `separator` stands in `text` at position `at`.
pub fn starts_at(text: &Vec<char>, separator: &Vec<char>, at: usize) -> (found: bool)
    ensures
        found == matches_at(text@, separator@, at as int),
{
    if separator.len() > text.len() || at > text.len() - separator.len() {
        return false;
    }
    let mut k: usize = 0;
    while k < separator.len()
        invariant
            k <= separator.len(),
            at + separator.len() <= text.len(),
            forall|j: int| 0 <= j < k ==> text[at + j] == separator[j],
        decreases separator.len() - k,
    {
        if text[at + k] != separator[k] {
            proof {
                let window = text@.subrange(at as int, at + separator.len());
                assert(window[k as int] == text[at + k]);
            }
            return false;
        }
        k += 1;
    }
    assert(text@.subrange(at as int, at + separator.len()) =~= separator@);
    true
}

/// Whether `separator` stands somewhere in `text`.
pub fn contains_separator(text: &Vec<char>, separator: &Vec<char>) -> (found: bool)
    ensures
        found == occurs(text@, separator@),
{
    if separator.len() > text.len() {
        return false;
    }
    if separator.len() == 0 {
        assert(text@.subrange(0, 0) =~= separator@);
        assert(matches_at(text@, separator@, 0));
        return true;
    }
    let last: usize = text.len() - separator.len();
    let mut at: usize = 0;
    while at <= last
        invariant
            at <= last + 1,
            separator.len() > 0,
            last == text.len() - separator.len(),
            forall|j: int| 0 <= j < at ==> !matches_at(text@, separator@, j),
        decreases last + 1 - at,
    {
        if starts_at(text, separator, at) {
            return true;
        }
        at += 1;
    }
    false
}

/// A copy of the characters of `text` from `from` up to `to`.
pub(crate) fn copy_range(text: &Vec<char>, from: usize, to: usize) -> (copy: Vec<char>)
    requires
        from <= to <= text.len(),
    ensures
        copy@ == text@.subrange(from as int, to as int),
{
    let mut copy: Vec<char> = Vec::new();
    let mut i: usize = from;
    while i < to
        invariant
            from <= i <= to <= text.len(),
            copy@ == text@.subrange(from as int, i as int),
        decreases to - i,
    {
        copy.push(text[i]);
        assert(text@.subrange(from as int, i + 1) =~= text@.subrange(from as int, i as int).push(
            text@[i as int],
        ));
        i += 1;
    }
    copy
}

/// Divides `text` into its atoms.
pub fn split_atoms(text: &Vec<char>, separator: &Vec<char>) -> (atoms: Vec<Vec<char>>)
    ensures
        texts(atoms@) == atoms_of(text@, separator@),
{
    let mut atoms: Vec<Vec<char>> = Vec::new();
    if separator.len() == 0 {
        let mut i: usize = 0;
        while i < text.len()
            invariant
                i <= text.len(),
                atoms.len() == i,
                forall|j: int| 0 <= j < i ==> atoms[j]@ == seq![text[j]],
            decreases text.len() - i,
        {
            let mut atom: Vec<char> = Vec::new();
            atom.push(text[i]);
            assert(atom@ =~= seq![text[i as int]]);
            atoms.push(atom);
            i += 1;
        }
        assert(texts(atoms@) =~= atoms_of(text@, separator@));
        return atoms;
    }
    let mut start: usize = 0;
    let mut at: usize = 0;
    assert(texts(atoms@) =~= Seq::<Seq<char>>::empty());
    while separator.len() <= text.len() && at <= text.len() - separator.len()
        invariant
            separator.len() > 0,
            start <= at <= text.len(),
            texts(atoms@) + atoms_scan(text@, separator@, start as int, at as int) == atoms_of(
                text@,
                separator@,
            ),
        decreases text.len() - at,
    {
        if starts_at(text, separator, at) {
            let ghost before = texts(atoms@);
            if at > start {
                atoms.push(copy_range(text, start, at));
            }
            assert(texts(atoms@) =~= before + piece(text@, start as int, at as int));
            at = at + separator.len();
            start = at;
        } else {
            at += 1;
        }
    }
    let ghost before = texts(atoms@);
    if text.len() > start {
        atoms.push(copy_range(text, start, text.len()));
    }
    assert(texts(atoms@) =~= before + piece(text@, start as int, text.len() as int));
    atoms
}

/// Joins the atoms from `from` up to `to`, with `separator` between
/// neighbours.
pub fn join_atoms(atoms: &Vec<Vec<char>>, from: usize, to: usize, separator: &Vec<char>) -> (joined:
    Vec<char>)
    requires
        from <= to <= atoms.len(),
    ensures
        joined@ == join(texts(atoms@).subrange(from as int, to as int), separator@),
{
    let mut joined: Vec<char> = Vec::new();
    let mut i: usize = from;
    let ghost all = texts(atoms@);
    while i < to
        invariant
            from <= i <= to <= atoms.len(),
            all == texts(atoms@),
            joined@ == join(all.subrange(from as int, i as int), separator@),
        decreases to - i,
    {
        let ghost so_far = all.subrange(from as int, i as int);
        let ghost next = all.subrange(from as int, i + 1);
        proof {
            assert(next.drop_last() =~= so_far);
            assert(next.last() == atoms[i as int]@);
        }
        if i > from {
            let mut k: usize = 0;
            let ghost base = joined@;
            while k < separator.len()
                invariant
                    k <= separator.len(),
                    joined@ == base + separator@.take(k as int),
                decreases separator.len() - k,
            {
                joined.push(separator[k]);
                assert(separator@.take(k + 1) =~= separator@.take(k as int).push(separator@[k as int]));
                k += 1;
            }
            assert(separator@.take(separator.len() as int) =~= separator@);
        }
        let atom = &atoms[i];
        let mut k: usize = 0;
        let ghost base = joined@;
        while k < atom.len()
            invariant
                k <= atom.len(),
                joined@ == base + atom@.take(k as int),
            decreases atom.len() - k,
        {
            joined.push(atom[k]);
            assert(atom@.take(k + 1) =~= atom@.take(k as int).push(atom@[k as int]));
            k += 1;
        }
        proof {
            assert(atom@.take(atom.len() as int) =~= atom@);
            if i == from {
                assert(so_far.len() == 0);
                assert(joined@ =~= atom@);
            }
        }
        i += 1;
    }
    joined
}

/// The limits that chunks are held to, and how they are measured.
pub struct Limits {
    pub estimator: Estimator,
    pub chunk_size: nat,
    pub chunk_overlap: nat,
}

/// The size of the atoms from `from` up to `to`, joined.
pub open spec fn span_units(
    limits: Limits,
    atoms: Seq<Seq<char>>,
    separator: Seq<char>,
    from: int,
    to: int,
) -> nat {
    limits.estimator.units(join(atoms.subrange(from, to), separator))
}

/// Where the chunk that takes atom `next` begins, once the chunk before it
/// has been closed: the first position from `from` on from which the atoms up
/// to `next` are no larger than the overlap and, with atom `next`, no larger
/// than a chunk; `next` itself where there is none.
pub open spec fn seed_start(
    limits: Limits,
    atoms: Seq<Seq<char>>,
    separator: Seq<char>,
    from: int,
    next: int,
) -> int
    decreases next - from,
{
    if from >= next {
        next
    } else if span_units(limits, atoms, separator, from, next) <= limits.chunk_overlap
        && span_units(limits, atoms, separator, from, next + 1) <= limits.chunk_size {
        from
    } else {
        seed_start(limits, atoms, separator, from + 1, next)
    }
}

/// The chunks of a run of atoms, as ranges of atoms, where the chunk being
/// filled holds the atoms from `start` up to `next`. Atoms are added while
/// the chunk stays within the chunk size; then the chunk is closed and the
/// one after it begins at `seed_start`.
pub open spec fn merge_scan(
    limits: Limits,
    atoms: Seq<Seq<char>>,
    separator: Seq<char>,
    start: int,
    next: int,
) -> Seq<(int, int)>
    decreases atoms.len() - next,
{
    if next >= atoms.len() || start < 0 || start > next {
        if start < next {
            seq![(start, next)]
        } else {
            Seq::empty()
        }
    } else if start == next || span_units(limits, atoms, separator, start, next + 1)
        <= limits.chunk_size {
        merge_scan(limits, atoms, separator, start, next + 1)
    } else {
        seq![(start, next)] + merge_scan(
            limits,
            atoms,
            separator,
            seed_start(limits, atoms, separator, start + 1, next),
            next + 1,
        )
    }
}

/// The chunks of a run of atoms, as ranges of atoms.
pub open spec fn merge_ranges(limits: Limits, atoms: Seq<Seq<char>>, separator: Seq<char>) -> Seq<
    (int, int),
> {
    merge_scan(limits, atoms, separator, 0, 0)
}

/// The texts of ranges of atoms, each joined.
pub open spec fn range_texts(
    atoms: Seq<Seq<char>>,
    separator: Seq<char>,
    ranges: Seq<(int, int)>,
) -> Seq<Seq<char>> {
    Seq::new(ranges.len(), |k: int| join(atoms.subrange(ranges[k].0, ranges[k].1), separator))
}

/// The chunks of a run of atoms.
pub open spec fn merged(limits: Limits, atoms: Seq<Seq<char>>, separator: Seq<char>) -> Seq<
    Seq<char>,
> {
    range_texts(atoms, separator, merge_ranges(limits, atoms, separator))
}

/// Every atom is by itself no larger than a chunk.
pub open spec fn atoms_fit(limits: Limits, atoms: Seq<Seq<char>>) -> bool {
    forall|k: int| 0 <= k < atoms.len() ==> limits.estimator.units(#[trigger] atoms[k])
        <= limits.chunk_size
}

/// `ranges` covers the atoms from `start` on in chunks that respect the
/// limits: each is a non-empty range no larger than a chunk; each begins
/// after the one before it began, and no later than that one ends; what two
/// neighbours share is no larger than the overlap; the last ends with the
/// last atom.
pub open spec fn ranges_respect(
    limits: Limits,
    atoms: Seq<Seq<char>>,
    separator: Seq<char>,
    start: int,
    ranges: Seq<(int, int)>,
) -> bool {
    &&& forall|k: int|
        0 <= k < ranges.len() ==> {
            let r = #[trigger] ranges[k];
            &&& 0 <= r.0 < r.1 <= atoms.len()
            &&& span_units(limits, atoms, separator, r.0, r.1) <= limits.chunk_size
        }
    &&& forall|k: int|
        0 <= k < ranges.len() - 1 ==> {
            let r = #[trigger] ranges[k];
            let n = ranges[k + 1];
            &&& r.0 < n.0 <= r.1 < n.1
            &&& n.0 < r.1 ==> span_units(limits, atoms, separator, n.0, r.1)
                <= limits.chunk_overlap
        }
    &&& ranges.len() > 0 ==> ranges[0].0 == start && ranges.last().1 == atoms.len()
}

proof fn lemma_seed_start(
    limits: Limits,
    atoms: Seq<Seq<char>>,
    separator: Seq<char>,
    from: int,
    next: int,
)
    requires
        from <= next,
    ensures
        from <= seed_start(limits, atoms, separator, from, next) <= next,
        seed_start(limits, atoms, separator, from, next) < next ==> {
            let s = seed_start(limits, atoms, separator, from, next);
            &&& span_units(limits, atoms, separator, s, next) <= limits.chunk_overlap
            &&& span_units(limits, atoms, separator, s, next + 1) <= limits.chunk_size
        },
    decreases next - from,
{
    if from < next {
        lemma_seed_start(limits, atoms, separator, from + 1, next);
    }
}

proof fn lemma_single_span(limits: Limits, atoms: Seq<Seq<char>>, separator: Seq<char>, k: int)
    requires
        0 <= k < atoms.len(),
    ensures
        span_units(limits, atoms, separator, k, k + 1) == limits.estimator.units(atoms[k]),
{
    assert(atoms.subrange(k, k + 1) =~= seq![atoms[k]]);
    assert(join(seq![atoms[k]], separator) == atoms[k]);
}

proof fn lemma_merge_scan(
    limits: Limits,
    atoms: Seq<Seq<char>>,
    separator: Seq<char>,
    start: int,
    next: int,
)
    requires
        atoms_fit(limits, atoms),
        0 <= start <= next <= atoms.len(),
        start < next ==> span_units(limits, atoms, separator, start, next) <= limits.chunk_size,
    ensures
        ranges_respect(
            limits,
            atoms,
            separator,
            start,
            merge_scan(limits, atoms, separator, start, next),
        ),
        start < atoms.len() ==> merge_scan(limits, atoms, separator, start, next).len() > 0
            && merge_scan(limits, atoms, separator, start, next)[0].1 >= next,
    decreases atoms.len() - next,
{
    let ranges = merge_scan(limits, atoms, separator, start, next);
    if next >= atoms.len() {
    } else if start == next || span_units(limits, atoms, separator, start, next + 1)
        <= limits.chunk_size {
        if start == next {
            lemma_single_span(limits, atoms, separator, next);
        }
        lemma_merge_scan(limits, atoms, separator, start, next + 1);
    } else {
        let seed = seed_start(limits, atoms, separator, start + 1, next);
        lemma_seed_start(limits, atoms, separator, start + 1, next);
        if seed == next {
            lemma_single_span(limits, atoms, separator, next);
        }
        lemma_merge_scan(limits, atoms, separator, seed, next + 1);
        let rest = merge_scan(limits, atoms, separator, seed, next + 1);
        assert(ranges == seq![(start, next)] + rest);
        assert(ranges[0] == (start, next));
        assert forall|k: int| 0 < k < ranges.len() implies ranges[k] == rest[k - 1] by {}
        assert(ranges.last() == rest.last());
        assert forall|k: int| 0 <= k < ranges.len() - 1 implies {
            let r = #[trigger] ranges[k];
            let n = ranges[k + 1];
            &&& r.0 < n.0 <= r.1 < n.1
            &&& n.0 < r.1 ==> span_units(limits, atoms, separator, n.0, r.1)
                <= limits.chunk_overlap
        } by {
            if k > 0 {
                assert(ranges[k] == rest[k - 1]);
                assert(ranges[k + 1] == rest[k]);
            } else {
                assert(ranges[1] == rest[0]);
            }
        }
    }
}

/// The chunks that a run of atoms is merged into respect the limits, where
/// each atom is by itself no larger than a chunk.
pub proof fn lemma_merge_respects_limits(
    limits: Limits,
    atoms: Seq<Seq<char>>,
    separator: Seq<char>,
)
    requires
        atoms_fit(limits, atoms),
    ensures
        ranges_respect(limits, atoms, separator, 0, merge_ranges(limits, atoms, separator)),
        atoms.len() > 0 ==> merge_ranges(limits, atoms, separator).len() > 0,
        forall|k: int|
            0 <= k < merged(limits, atoms, separator).len() ==> limits.estimator.units(
                #[trigger] merged(limits, atoms, separator)[k],
            ) <= limits.chunk_size,
{
    lemma_merge_scan(limits, atoms, separator, 0, 0);
    let ranges = merge_ranges(limits, atoms, separator);
    assert forall|k: int|
        0 <= k < merged(limits, atoms, separator).len() implies limits.estimator.units(
        #[trigger] merged(limits, atoms, separator)[k],
    ) <= limits.chunk_size by {
        let r = ranges[k];
        assert(span_units(limits, atoms, separator, r.0, r.1) <= limits.chunk_size);
    }
}

/// The first chunk from `k` on that ends after atom `i`.
spec fn first_reaching(ranges: Seq<(int, int)>, i: int, k: int) -> int
    decreases ranges.len() - k,
{
    if k < 0 || k >= ranges.len() || ranges[k].1 > i {
        k
    } else {
        first_reaching(ranges, i, k + 1)
    }
}

proof fn lemma_first_reaching(ranges: Seq<(int, int)>, i: int, k: int)
    requires
        0 <= k < ranges.len(),
        ranges.last().1 > i,
    ensures
        k <= first_reaching(ranges, i, k) < ranges.len(),
        ranges[first_reaching(ranges, i, k)].1 > i,
        forall|j: int| k <= j < first_reaching(ranges, i, k) ==> (#[trigger] ranges[j]).1 <= i,
    decreases ranges.len() - k,
{
    if ranges[k].1 <= i {
        lemma_first_reaching(ranges, i, k + 1);
    }
}

/// No atom is left out: each atom of a run lies in one of the chunks that
/// the run is merged into, where each atom is by itself no larger than a
/// chunk.
pub proof fn lemma_merge_covers(limits: Limits, atoms: Seq<Seq<char>>, separator: Seq<char>, i: int)
    requires
        atoms_fit(limits, atoms),
        0 <= i < atoms.len(),
    ensures
        exists|k: int|
            0 <= k < merge_ranges(limits, atoms, separator).len() && (#[trigger] merge_ranges(
                limits,
                atoms,
                separator,
            )[k]).0 <= i < merge_ranges(limits, atoms, separator)[k].1,
{
    lemma_merge_respects_limits(limits, atoms, separator);
    let ranges = merge_ranges(limits, atoms, separator);
    lemma_first_reaching(ranges, i, 0);
    let k = first_reaching(ranges, i, 0);
    if k > 0 {
        assert(ranges[k - 1].1 <= i);
        let r = ranges[k - 1];
        assert(ranges[k - 1 + 1].0 <= r.1);
    }
    assert(ranges[k].0 <= i < ranges[k].1);
}

/// The atoms from `start` up to `at`, or none where that is no range of
/// `atoms`.
pub open spec fn run_of(atoms: Seq<Seq<char>>, start: int, at: int) -> Seq<Seq<char>> {
    if 0 <= start <= at <= atoms.len() {
        atoms.subrange(start, at)
    } else {
        Seq::empty()
    }
}

/// The first separator from `level` on that is empty or stands in `text`;
/// the length of the ladder where there is none.
pub open spec fn pick_level(text: Seq<char>, ladder: Seq<Seq<char>>, level: int) -> int
    decreases ladder.len() - level,
{
    if level < 0 || level >= ladder.len() {
        ladder.len() as int
    } else if ladder[level].len() == 0 || occurs(text, ladder[level]) {
        level
    } else {
        pick_level(text, ladder, level + 1)
    }
}

/// The chunks of `text` under the separators of `ladder` from `level` on.
///
/// The text is divided by the first separator that applies. Atoms that fit
/// in a chunk are merged, run by run. An atom that does not fit is divided
/// in turn by the separators that follow, or stands as a chunk of its own
/// where none follows. Where no separator applies the text is one chunk.
pub open spec fn split_level(
    limits: Limits,
    ladder: Seq<Seq<char>>,
    text: Seq<char>,
    level: int,
) -> Seq<Seq<char>>
    decreases ladder.len() - level, 0int, 0int,
{
    let picked = pick_level(text, ladder, level);
    if level < 0 || picked < level || picked >= ladder.len() {
        piece(text, 0, text.len() as int)
    } else {
        let separator = ladder[picked];
        let next_level = if separator.len() == 0 {
            ladder.len() as int
        } else {
            picked + 1
        };
        assemble(limits, ladder, atoms_of(text, separator), separator, next_level, 0, 0)
    }
}

/// The chunks of the atoms from `start` on, where those from `start` up to
/// `at` are a run of atoms that fit.
pub open spec fn assemble(
    limits: Limits,
    ladder: Seq<Seq<char>>,
    atoms: Seq<Seq<char>>,
    separator: Seq<char>,
    next_level: int,
    start: int,
    at: int,
) -> Seq<Seq<char>>
    decreases ladder.len() - next_level, 1int, atoms.len() - at,
{
    if at < 0 || at >= atoms.len() || start < 0 || start > at {
        merged(limits, run_of(atoms, start, at), separator)
    } else if limits.estimator.units(atoms[at]) <= limits.chunk_size {
        assemble(limits, ladder, atoms, separator, next_level, start, at + 1)
    } else {
        merged(limits, run_of(atoms, start, at), separator) + (if next_level < 0 || next_level
            >= ladder.len() {
            seq![atoms[at]]
        } else {
            split_level(limits, ladder, atoms[at], next_level)
        }) + assemble(limits, ladder, atoms, separator, next_level, at + 1, at + 1)
    }
}

/// The empty separator, which divides any text into its characters, is among
/// the separators of `ladder` from `level` on.
pub open spec fn has_terminal(ladder: Seq<Seq<char>>, level: int) -> bool {
    exists|j: int| level <= j < ladder.len() && (#[trigger] ladder[j]).len() == 0
}

/// `chunk` is no larger than a chunk may be, or is a single character.
pub open spec fn chunk_bounded(limits: Limits, chunk: Seq<char>) -> bool {
    limits.estimator.units(chunk) <= limits.chunk_size || chunk.len() == 1
}

proof fn lemma_pick_level(text: Seq<char>, ladder: Seq<Seq<char>>, level: int)
    requires
        0 <= level,
    ensures
        level <= pick_level(text, ladder, level) || pick_level(text, ladder, level) == ladder.len(),
        pick_level(text, ladder, level) <= ladder.len(),
        forall|j: int|
            level <= j < pick_level(text, ladder, level) && j < ladder.len() ==> (
            #[trigger] ladder[j]).len() > 0,
    decreases ladder.len() - level,
{
    if level < ladder.len() && !(ladder[level].len() == 0 || occurs(text, ladder[level])) {
        lemma_pick_level(text, ladder, level + 1);
    }
}

/// Every chunk is no larger than the chunk size or is a single character,
/// where the empty separator is among the separators that are tried.
pub proof fn lemma_split_level_bounded(
    limits: Limits,
    ladder: Seq<Seq<char>>,
    text: Seq<char>,
    level: int,
)
    requires
        0 <= level,
        has_terminal(ladder, level),
    ensures
        forall|k: int|
            0 <= k < split_level(limits, ladder, text, level).len() ==> chunk_bounded(
                limits,
                #[trigger] split_level(limits, ladder, text, level)[k],
            ),
    decreases ladder.len() - level, 0int, 0int,
{
    let picked = pick_level(text, ladder, level);
    lemma_pick_level(text, ladder, level);
    let j = choose|j: int| level <= j < ladder.len() && (#[trigger] ladder[j]).len() == 0;
    assert(picked <= j);
    let separator = ladder[picked];
    let atoms = atoms_of(text, separator);
    if separator.len() == 0 {
        lemma_assemble_bounded(limits, ladder, atoms, separator, ladder.len() as int, 0, 0);
        assert(split_level(limits, ladder, text, level) == assemble(
            limits,
            ladder,
            atoms,
            separator,
            ladder.len() as int,
            0,
            0,
        ));
    } else {
        assert(ladder[j].len() == 0);
        assert(picked + 1 <= j);
        lemma_assemble_bounded(limits, ladder, atoms, separator, picked + 1, 0, 0);
        assert(split_level(limits, ladder, text, level) == assemble(
            limits,
            ladder,
            atoms,
            separator,
            picked + 1,
            0,
            0,
        ));
    }
}

proof fn lemma_assemble_bounded(
    limits: Limits,
    ladder: Seq<Seq<char>>,
    atoms: Seq<Seq<char>>,
    separator: Seq<char>,
    next_level: int,
    start: int,
    at: int,
)
    requires
        0 <= start <= at <= atoms.len(),
        0 <= next_level <= ladder.len(),
        forall|k: int| start <= k < at ==> limits.estimator.units(#[trigger] atoms[k])
            <= limits.chunk_size,
        next_level >= ladder.len() ==> forall|k: int|
            0 <= k < atoms.len() ==> (#[trigger] atoms[k]).len() == 1,
        next_level < ladder.len() ==> has_terminal(ladder, next_level),
    ensures
        forall|k: int|
            0 <= k < assemble(limits, ladder, atoms, separator, next_level, start, at).len()
                ==> chunk_bounded(
                limits,
                #[trigger] assemble(limits, ladder, atoms, separator, next_level, start, at)[k],
            ),
    decreases ladder.len() - next_level, 1int, atoms.len() - at,
{
    let run = run_of(atoms, start, at);
    assert(atoms_fit(limits, run)) by {
        assert forall|k: int| 0 <= k < run.len() implies limits.estimator.units(#[trigger] run[k])
            <= limits.chunk_size by {
            assert(run[k] == atoms[start + k]);
        }
    }
    lemma_merge_respects_limits(limits, run, separator);
    let closed = merged(limits, run, separator);
    let whole = assemble(limits, ladder, atoms, separator, next_level, start, at);
    if at >= atoms.len() {
        assert(whole == closed);
        assert forall|k: int| 0 <= k < whole.len() implies chunk_bounded(
            limits,
            #[trigger] whole[k],
        ) by {
            assert(limits.estimator.units(closed[k]) <= limits.chunk_size);
        }
    } else if limits.estimator.units(atoms[at]) <= limits.chunk_size {
        lemma_assemble_bounded(limits, ladder, atoms, separator, next_level, start, at + 1);
        assert(whole == assemble(limits, ladder, atoms, separator, next_level, start, at + 1));
    } else {
        let inner = if next_level >= ladder.len() {
            seq![atoms[at]]
        } else {
            split_level(limits, ladder, atoms[at], next_level)
        };
        if next_level < ladder.len() {
            lemma_split_level_bounded(limits, ladder, atoms[at], next_level);
        }
        lemma_assemble_bounded(limits, ladder, atoms, separator, next_level, at + 1, at + 1);
        let rest = assemble(limits, ladder, atoms, separator, next_level, at + 1, at + 1);
        assert(whole == closed + inner + rest);
        assert forall|k: int| 0 <= k < whole.len() implies chunk_bounded(
            limits,
            #[trigger] whole[k],
        ) by {
            if k < closed.len() {
                assert(whole[k] == closed[k]);
                assert(limits.estimator.units(closed[k]) <= limits.chunk_size);
            } else if k < closed.len() + inner.len() {
                assert(whole[k] == inner[k - closed.len()]);
            } else {
                assert(whole[k] == rest[k - closed.len() - inner.len()]);
            }
        }
    }
}

/// Every chunk of every document is no larger than the chunk size or is a
/// single character, where the empty separator is among the separators.
pub proof fn lemma_documents_pieces_bounded(
    limits: Limits,
    ladder: Seq<Seq<char>>,
    documents: Seq<DocumentView>,
)
    requires
        has_terminal(ladder, 0),
    ensures
        forall|k: int|
            0 <= k < documents_pieces(limits, ladder, documents).len() ==> chunk_bounded(
                limits,
                (#[trigger] documents_pieces(limits, ladder, documents)[k]).page_content,
            ),
    decreases documents.len(),
{
    if documents.len() > 0 {
        let front = documents_pieces(limits, ladder, documents.drop_last());
        let last = document_pieces(limits, ladder, documents.last());
        let all = documents_pieces(limits, ladder, documents);
        lemma_documents_pieces_bounded(limits, ladder, documents.drop_last());
        lemma_split_level_bounded(limits, ladder, documents.last().page_content, 0);
        assert(all == front + last);
        assert forall|k: int| 0 <= k < all.len() implies chunk_bounded(
            limits,
            (#[trigger] all[k]).page_content,
        ) by {
            if k < front.len() {
                assert(all[k] == front[k]);
            } else {
                let j = k - front.len();
                assert(all[k] == last[j]);
                assert(last[j].page_content == split_level(
                    limits,
                    ladder,
                    documents.last().page_content,
                    0,
                )[j]);
            }
        }
    }
}

/// Every chunk is no larger than the chunk size, where the empty separator
/// is among the separators and no single character is larger than a chunk.
pub proof fn lemma_chunks_within_size(limits: Limits, ladder: Seq<Seq<char>>, text: Seq<char>)
    requires
        has_terminal(ladder, 0),
        forall|c: char| limits.estimator.units(#[trigger] seq![c]) <= limits.chunk_size,
    ensures
        forall|k: int|
            0 <= k < split_level(limits, ladder, text, 0).len() ==> limits.estimator.units(
                #[trigger] split_level(limits, ladder, text, 0)[k],
            ) <= limits.chunk_size,
{
    lemma_split_level_bounded(limits, ladder, text, 0);
    assert forall|k: int|
        0 <= k < split_level(limits, ladder, text, 0).len() implies limits.estimator.units(
        #[trigger] split_level(limits, ladder, text, 0)[k],
    ) <= limits.chunk_size by {
        let chunk = split_level(limits, ladder, text, 0)[k];
        assert(chunk_bounded(limits, chunk));
        if chunk.len() == 1 {
            assert(chunk =~= seq![chunk[0]]);
        }
    }
}

/// Counting characters, a single character is never larger than a chunk of
/// one unit or more.
pub proof fn lemma_characters_fit(limits: Limits)
    requires
        limits.estimator == Estimator::Characters,
        limits.chunk_size >= 1,
    ensures
        forall|c: char| limits.estimator.units(#[trigger] seq![c]) <= limits.chunk_size,
{
    assert forall|c: char| limits.estimator.units(#[trigger] seq![c]) <= limits.chunk_size by {
        let one = seq![c];
        assert(one.drop_last() =~= Seq::<char>::empty());
        assert(crate::estimator::visible_count(Seq::<char>::empty()) == 0);
        assert(crate::estimator::visible_count(one) <= 1);
    }
}

/// The chunks of one document: the chunks of its text, each with the
/// metadata of the document.
pub open spec fn document_pieces(
    limits: Limits,
    ladder: Seq<Seq<char>>,
    document: DocumentView,
) -> Seq<DocumentView> {
    let chunks = split_level(limits, ladder, document.page_content, 0);
    Seq::new(
        chunks.len(),
        |k: int| DocumentView { page_content: chunks[k], metadata: document.metadata },
    )
}

/// The chunks of a list of documents, in the order of the documents.
pub open spec fn documents_pieces(
    limits: Limits,
    ladder: Seq<Seq<char>>,
    documents: Seq<DocumentView>,
) -> Seq<DocumentView>
    decreases documents.len(),
{
    if documents.len() == 0 {
        Seq::empty()
    } else {
        documents_pieces(limits, ladder, documents.drop_last()) + document_pieces(
            limits,
            ladder,
            documents.last(),
        )
    }
}

/// `text` begins with `head`.
pub open spec fn begins_with(text: Seq<char>, head: Seq<char>) -> bool {
    head.len() <= text.len() && text.subrange(0, head.len() as int) == head
}

/// `text` ends with `tail`.
pub open spec fn ends_with(text: Seq<char>, tail: Seq<char>) -> bool {
    tail.len() <= text.len() && text.subrange(text.len() - tail.len(), text.len() as int) == tail
}

/// What each chunk of a run repeats of the chunk before it: the atoms from
/// where the chunk begins up to where the chunk before it ends, joined;
/// nothing for the first chunk.
pub open spec fn seed_texts(
    atoms: Seq<Seq<char>>,
    separator: Seq<char>,
    ranges: Seq<(int, int)>,
) -> Seq<Seq<char>> {
    Seq::new(
        ranges.len(),
        |k: int|
            if k == 0 {
                Seq::empty()
            } else {
                join(run_of(atoms, ranges[k].0, ranges[k - 1].1), separator)
            },
    )
}

/// What each chunk of a merged run repeats of the chunk before it.
pub open spec fn merged_seeds(limits: Limits, atoms: Seq<Seq<char>>, separator: Seq<char>) -> Seq<
    Seq<char>,
> {
    seed_texts(atoms, separator, merge_ranges(limits, atoms, separator))
}

/// What each chunk of `split_level` repeats of the chunk before it, chunk by
/// chunk: the overlap that was seeded, and nothing where a chunk begins a run
/// or stands alone.
pub open spec fn split_seeds(
    limits: Limits,
    ladder: Seq<Seq<char>>,
    text: Seq<char>,
    level: int,
) -> Seq<Seq<char>>
    decreases ladder.len() - level, 0int, 0int,
{
    let picked = pick_level(text, ladder, level);
    if level < 0 || picked < level || picked >= ladder.len() {
        if text.len() > 0 {
            seq![Seq::empty()]
        } else {
            Seq::empty()
        }
    } else {
        let separator = ladder[picked];
        let next_level = if separator.len() == 0 {
            ladder.len() as int
        } else {
            picked + 1
        };
        assemble_seeds(limits, ladder, atoms_of(text, separator), separator, next_level, 0, 0)
    }
}

/// What each chunk of `assemble` repeats of the chunk before it.
pub open spec fn assemble_seeds(
    limits: Limits,
    ladder: Seq<Seq<char>>,
    atoms: Seq<Seq<char>>,
    separator: Seq<char>,
    next_level: int,
    start: int,
    at: int,
) -> Seq<Seq<char>>
    decreases ladder.len() - next_level, 1int, atoms.len() - at,
{
    if at < 0 || at >= atoms.len() || start < 0 || start > at {
        merged_seeds(limits, run_of(atoms, start, at), separator)
    } else if limits.estimator.units(atoms[at]) <= limits.chunk_size {
        assemble_seeds(limits, ladder, atoms, separator, next_level, start, at + 1)
    } else {
        merged_seeds(limits, run_of(atoms, start, at), separator) + (if next_level < 0
            || next_level >= ladder.len() {
            seq![Seq::empty()]
        } else {
            split_seeds(limits, ladder, atoms[at], next_level)
        }) + assemble_seeds(limits, ladder, atoms, separator, next_level, at + 1, at + 1)
    }
}

/// The overlaps of a list of chunks are as they should be: there is one for
/// each chunk, none for the first; each is empty or no larger than the chunk
/// overlap; each chunk begins with its overlap, and the chunk before it ends
/// with it.
pub open spec fn seeds_respect(
    limits: Limits,
    chunks: Seq<Seq<char>>,
    seeds: Seq<Seq<char>>,
) -> bool {
    &&& seeds.len() == chunks.len()
    &&& chunks.len() > 0 ==> seeds[0].len() == 0
    &&& forall|k: int|
        0 <= k < chunks.len() ==> (#[trigger] seeds[k]).len() == 0 || limits.estimator.units(
            seeds[k],
        ) <= limits.chunk_overlap
    &&& forall|k: int| 0 <= k < chunks.len() ==> begins_with(#[trigger] chunks[k], seeds[k])
    &&& forall|k: int| 0 < k < chunks.len() ==> ends_with(chunks[k - 1], #[trigger] seeds[k])
}

/// Parts joined are the first of them joined, the separator, and the rest
/// joined.
proof fn lemma_join_split(parts: Seq<Seq<char>>, separator: Seq<char>, k: int)
    requires
        0 < k < parts.len(),
    ensures
        join(parts, separator) == join(parts.take(k), separator) + separator + join(
            parts.skip(k),
            separator,
        ),
    decreases parts.len(),
{
    let front = parts.drop_last();
    if k == parts.len() - 1 {
        assert(parts.take(k) =~= front);
        assert(parts.skip(k) =~= seq![parts.last()]);
        assert(join(seq![parts.last()], separator) == parts.last());
    } else {
        lemma_join_split(front, separator, k);
        assert(front.take(k) =~= parts.take(k));
        assert(parts.skip(k).drop_last() =~= front.skip(k));
        assert(parts.skip(k).last() == parts.last());
        assert(parts.skip(k).len() >= 2);
        assert(join(parts, separator) =~= join(parts.take(k), separator) + separator + join(
            parts.skip(k),
            separator,
        ));
    }
}

proof fn lemma_empty_ends(text: Seq<char>)
    ensures
        begins_with(text, Seq::empty()),
        ends_with(text, Seq::empty()),
{
    assert(text.subrange(0, 0) =~= Seq::<char>::empty());
    assert(text.subrange(text.len() as int, text.len() as int) =~= Seq::<char>::empty());
}

/// The overlaps of the chunks of a merged run are as they should be, where
/// each atom is by itself no larger than a chunk.
pub proof fn lemma_merged_seeds(limits: Limits, atoms: Seq<Seq<char>>, separator: Seq<char>)
    requires
        atoms_fit(limits, atoms),
    ensures
        seeds_respect(
            limits,
            merged(limits, atoms, separator),
            merged_seeds(limits, atoms, separator),
        ),
{
    lemma_merge_respects_limits(limits, atoms, separator);
    let ranges = merge_ranges(limits, atoms, separator);
    let chunks = merged(limits, atoms, separator);
    let seeds = merged_seeds(limits, atoms, separator);
    assert forall|k: int| 0 <= k < chunks.len() implies ((#[trigger] seeds[k]).len() == 0
        || limits.estimator.units(seeds[k]) <= limits.chunk_overlap) && begins_with(
        chunks[k],
        seeds[k],
    ) && (k > 0 ==> ends_with(chunks[k - 1], seeds[k])) by {
        lemma_empty_ends(chunks[k]);
        if k > 0 {
            lemma_empty_ends(chunks[k - 1]);
            let r = ranges[k - 1];
            let n = ranges[k - 1 + 1];
            assert(r.0 < n.0 <= r.1 < n.1);
            assert(0 <= r.0 && n.1 <= atoms.len());
            let seed = join(atoms.subrange(n.0, r.1), separator);
            assert(seeds[k] == seed);
            if n.0 < r.1 {
                assert(span_units(limits, atoms, separator, n.0, r.1) <= limits.chunk_overlap);
                let next = atoms.subrange(n.0, n.1);
                lemma_join_split(next, separator, r.1 - n.0);
                assert(next.take(r.1 - n.0) =~= atoms.subrange(n.0, r.1));
                let whole = join(next, separator);
                assert(chunks[k] == whole);
                assert(whole.subrange(0, seed.len() as int) =~= seed);
                let before = atoms.subrange(r.0, r.1);
                lemma_join_split(before, separator, n.0 - r.0);
                assert(before.skip(n.0 - r.0) =~= atoms.subrange(n.0, r.1));
                let earlier = join(before, separator);
                assert(chunks[k - 1] == earlier);
                assert(earlier.subrange(earlier.len() - seed.len(), earlier.len() as int)
                    =~= seed);
            } else {
                assert(atoms.subrange(n.0, r.1) =~= Seq::<Seq<char>>::empty());
                assert(seed.len() == 0);
                assert(seed =~= Seq::<char>::empty());
            }
        }
    }
}

/// Two lists of chunks with their overlaps, one after the other, are a list
/// of chunks with its overlaps.
proof fn lemma_seeds_concat(
    limits: Limits,
    a: Seq<Seq<char>>,
    sa: Seq<Seq<char>>,
    b: Seq<Seq<char>>,
    sb: Seq<Seq<char>>,
)
    requires
        seeds_respect(limits, a, sa),
        seeds_respect(limits, b, sb),
    ensures
        seeds_respect(limits, a + b, sa + sb),
{
    let chunks = a + b;
    let seeds = sa + sb;
    assert forall|k: int| 0 <= k < chunks.len() implies ((#[trigger] seeds[k]).len() == 0
        || limits.estimator.units(seeds[k]) <= limits.chunk_overlap) && begins_with(
        chunks[k],
        seeds[k],
    ) && (k > 0 ==> ends_with(chunks[k - 1], seeds[k])) by {
        if k < a.len() {
            assert(chunks[k] == a[k] && seeds[k] == sa[k]);
            if k > 0 {
                assert(chunks[k - 1] == a[k - 1]);
            }
        } else {
            let j = k - a.len();
            assert(chunks[k] == b[j] && seeds[k] == sb[j]);
            if j > 0 {
                assert(chunks[k - 1] == b[j - 1]);
            } else if k > 0 {
                lemma_empty_ends(chunks[k - 1]);
                assert(seeds[k] =~= Seq::<char>::empty());
            }
        }
    }
    if chunks.len() > 0 {
        if a.len() > 0 {
            assert(seeds[0] == sa[0]);
        } else {
            assert(seeds[0] == sb[0]);
        }
    }
}

proof fn lemma_single_seed(limits: Limits, chunk: Seq<char>)
    ensures
        seeds_respect(limits, seq![chunk], seq![Seq::<char>::empty()]),
{
    lemma_empty_ends(chunk);
}

/// Consecutive chunks overlap by no more than the chunk overlap: each chunk
/// begins with the overlap that `split_seeds` gives for it, the chunk before
/// it ends with that overlap, and the overlap is empty or no larger than the
/// chunk overlap.
pub proof fn lemma_split_seeds(limits: Limits, ladder: Seq<Seq<char>>, text: Seq<char>, level: int)
    requires
        0 <= level,
    ensures
        seeds_respect(
            limits,
            split_level(limits, ladder, text, level),
            split_seeds(limits, ladder, text, level),
        ),
    decreases ladder.len() - level, 0int, 0int,
{
    let picked = pick_level(text, ladder, level);
    if picked < level || picked >= ladder.len() {
        if text.len() > 0 {
            lemma_single_seed(limits, text.subrange(0, text.len() as int));
        }
    } else {
        let separator = ladder[picked];
        let next_level = if separator.len() == 0 {
            ladder.len() as int
        } else {
            picked + 1
        };
        lemma_assemble_seeds(limits, ladder, atoms_of(text, separator), separator, next_level, 0, 0);
    }
}

proof fn lemma_assemble_seeds(
    limits: Limits,
    ladder: Seq<Seq<char>>,
    atoms: Seq<Seq<char>>,
    separator: Seq<char>,
    next_level: int,
    start: int,
    at: int,
)
    requires
        0 <= start <= at <= atoms.len(),
        0 <= next_level <= ladder.len(),
        forall|k: int| start <= k < at ==> limits.estimator.units(#[trigger] atoms[k])
            <= limits.chunk_size,
    ensures
        seeds_respect(
            limits,
            assemble(limits, ladder, atoms, separator, next_level, start, at),
            assemble_seeds(limits, ladder, atoms, separator, next_level, start, at),
        ),
    decreases ladder.len() - next_level, 1int, atoms.len() - at,
{
    let run = run_of(atoms, start, at);
    assert(atoms_fit(limits, run)) by {
        assert forall|k: int| 0 <= k < run.len() implies limits.estimator.units(#[trigger] run[k])
            <= limits.chunk_size by {
            assert(run[k] == atoms[start + k]);
        }
    }
    lemma_merged_seeds(limits, run, separator);
    let closed = merged(limits, run, separator);
    let closed_seeds = merged_seeds(limits, run, separator);
    if at >= atoms.len() {
    } else if limits.estimator.units(atoms[at]) <= limits.chunk_size {
        lemma_assemble_seeds(limits, ladder, atoms, separator, next_level, start, at + 1);
    } else {
        let inner = if next_level >= ladder.len() {
            seq![atoms[at]]
        } else {
            split_level(limits, ladder, atoms[at], next_level)
        };
        let inner_seeds = if next_level >= ladder.len() {
            seq![Seq::<char>::empty()]
        } else {
            split_seeds(limits, ladder, atoms[at], next_level)
        };
        if next_level < ladder.len() {
            lemma_split_seeds(limits, ladder, atoms[at], next_level);
        } else {
            lemma_single_seed(limits, atoms[at]);
        }
        lemma_assemble_seeds(limits, ladder, atoms, separator, next_level, at + 1, at + 1);
        let rest = assemble(limits, ladder, atoms, separator, next_level, at + 1, at + 1);
        let rest_seeds = assemble_seeds(limits, ladder, atoms, separator, next_level, at + 1, at + 1);
        lemma_seeds_concat(limits, closed, closed_seeds, inner, inner_seeds);
        lemma_seeds_concat(limits, closed + inner, closed_seeds + inner_seeds, rest, rest_seeds);
    }
}

/// What is new in a chunk: the atoms that it holds beyond those that it
/// repeats of the chunk before it, and the separator that joins them.
pub struct Fresh {
    pub atoms: Seq<Seq<char>>,
    pub separator: Seq<char>,
}

/// What is new in each chunk of a run: the atoms from where the chunk before
/// it ends up to where the chunk ends.
pub open spec fn fresh_parts(
    atoms: Seq<Seq<char>>,
    separator: Seq<char>,
    ranges: Seq<(int, int)>,
) -> Seq<Fresh> {
    Seq::new(
        ranges.len(),
        |k: int|
            Fresh {
                atoms: run_of(
                    atoms,
                    if k == 0 {
                        ranges[0].0
                    } else {
                        ranges[k - 1].1
                    },
                    ranges[k].1,
                ),
                separator,
            },
    )
}

/// What is new in each chunk of a merged run.
pub open spec fn merged_fresh(limits: Limits, atoms: Seq<Seq<char>>, separator: Seq<char>) -> Seq<
    Fresh,
> {
    fresh_parts(atoms, separator, merge_ranges(limits, atoms, separator))
}

/// What is new in each chunk of `split_level`, chunk by chunk.
pub open spec fn split_fresh(
    limits: Limits,
    ladder: Seq<Seq<char>>,
    text: Seq<char>,
    level: int,
) -> Seq<Fresh>
    decreases ladder.len() - level, 0int, 0int,
{
    let picked = pick_level(text, ladder, level);
    if level < 0 || picked < level || picked >= ladder.len() {
        if text.len() > 0 {
            seq![Fresh { atoms: seq![text], separator: Seq::empty() }]
        } else {
            Seq::empty()
        }
    } else {
        let separator = ladder[picked];
        let next_level = if separator.len() == 0 {
            ladder.len() as int
        } else {
            picked + 1
        };
        assemble_fresh(limits, ladder, atoms_of(text, separator), separator, next_level, 0, 0)
    }
}

/// What is new in each chunk of `assemble`.
pub open spec fn assemble_fresh(
    limits: Limits,
    ladder: Seq<Seq<char>>,
    atoms: Seq<Seq<char>>,
    separator: Seq<char>,
    next_level: int,
    start: int,
    at: int,
) -> Seq<Fresh>
    decreases ladder.len() - next_level, 1int, atoms.len() - at,
{
    if at < 0 || at >= atoms.len() || start < 0 || start > at {
        merged_fresh(limits, run_of(atoms, start, at), separator)
    } else if limits.estimator.units(atoms[at]) <= limits.chunk_size {
        assemble_fresh(limits, ladder, atoms, separator, next_level, start, at + 1)
    } else {
        merged_fresh(limits, run_of(atoms, start, at), separator) + (if next_level < 0
            || next_level >= ladder.len() {
            seq![Fresh { atoms: seq![atoms[at]], separator }]
        } else {
            split_fresh(limits, ladder, atoms[at], next_level)
        }) + assemble_fresh(limits, ladder, atoms, separator, next_level, at + 1, at + 1)
    }
}

/// The atoms that a text is made of in the end: its atoms under the first
/// separator that applies, each atom that is larger than a chunk replaced by
/// its own atoms under the separators that follow.
pub open spec fn leaves(limits: Limits, ladder: Seq<Seq<char>>, text: Seq<char>, level: int) -> Seq<
    Seq<char>,
>
    decreases ladder.len() - level, 0int, 0int,
{
    let picked = pick_level(text, ladder, level);
    if level < 0 || picked < level || picked >= ladder.len() {
        if text.len() > 0 {
            seq![text]
        } else {
            Seq::empty()
        }
    } else {
        let separator = ladder[picked];
        let next_level = if separator.len() == 0 {
            ladder.len() as int
        } else {
            picked + 1
        };
        leaves_from(limits, ladder, atoms_of(text, separator), next_level, 0)
    }
}

/// The atoms that the atoms from `at` on are made of in the end.
pub open spec fn leaves_from(
    limits: Limits,
    ladder: Seq<Seq<char>>,
    atoms: Seq<Seq<char>>,
    next_level: int,
    at: int,
) -> Seq<Seq<char>>
    decreases ladder.len() - next_level, 1int, atoms.len() - at,
{
    if at < 0 || at >= atoms.len() {
        Seq::empty()
    } else if limits.estimator.units(atoms[at]) <= limits.chunk_size || next_level < 0
        || next_level >= ladder.len() {
        seq![atoms[at]] + leaves_from(limits, ladder, atoms, next_level, at + 1)
    } else {
        leaves(limits, ladder, atoms[at], next_level) + leaves_from(
            limits,
            ladder,
            atoms,
            next_level,
            at + 1,
        )
    }
}

/// The new atoms of all chunks, one chunk after the other.
pub open spec fn all_fresh_atoms(parts: Seq<Fresh>) -> Seq<Seq<char>>
    decreases parts.len(),
{
    if parts.len() == 0 {
        Seq::empty()
    } else {
        all_fresh_atoms(parts.drop_last()) + parts.last().atoms
    }
}

/// What is new in the chunks is as it should be: each chunk has something
/// new, and ends with its new atoms joined.
pub open spec fn fresh_respect(chunks: Seq<Seq<char>>, parts: Seq<Fresh>) -> bool {
    &&& parts.len() == chunks.len()
    &&& forall|k: int| 0 <= k < chunks.len() ==> (#[trigger] parts[k]).atoms.len() > 0
    &&& forall|k: int|
        0 <= k < chunks.len() ==> ends_with(
            #[trigger] chunks[k],
            join(parts[k].atoms, parts[k].separator),
        )
}

proof fn lemma_all_fresh_concat(a: Seq<Fresh>, b: Seq<Fresh>)
    ensures
        all_fresh_atoms(a + b) == all_fresh_atoms(a) + all_fresh_atoms(b),
    decreases b.len(),
{
    if b.len() == 0 {
        assert(a + b =~= a);
        assert(all_fresh_atoms(a) + all_fresh_atoms(b) =~= all_fresh_atoms(a));
    } else {
        assert((a + b).drop_last() =~= a + b.drop_last());
        assert((a + b).last() == b.last());
        lemma_all_fresh_concat(a, b.drop_last());
        assert(all_fresh_atoms(a + b) =~= all_fresh_atoms(a) + all_fresh_atoms(b));
    }
}

proof fn lemma_fresh_concat(
    a: Seq<Seq<char>>,
    pa: Seq<Fresh>,
    b: Seq<Seq<char>>,
    pb: Seq<Fresh>,
)
    requires
        fresh_respect(a, pa),
        fresh_respect(b, pb),
    ensures
        fresh_respect(a + b, pa + pb),
{
    let chunks = a + b;
    let parts = pa + pb;
    assert forall|k: int| 0 <= k < chunks.len() implies (#[trigger] parts[k]).atoms.len() > 0
        && ends_with(chunks[k], join(parts[k].atoms, parts[k].separator)) by {
        if k < a.len() {
            assert(chunks[k] == a[k] && parts[k] == pa[k]);
        } else {
            assert(chunks[k] == b[k - a.len()] && parts[k] == pb[k - a.len()]);
        }
    }
}

proof fn lemma_whole_ends(text: Seq<char>)
    ensures
        ends_with(text, text),
{
    assert(text.subrange(0, text.len() as int) =~= text);
}

/// The first `j` chunks of a run hold, as what is new in them, the atoms of
/// the run up to where chunk `j - 1` ends.
proof fn lemma_fresh_parts_prefix(
    limits: Limits,
    atoms: Seq<Seq<char>>,
    separator: Seq<char>,
    ranges: Seq<(int, int)>,
    j: int,
)
    requires
        ranges_respect(limits, atoms, separator, 0, ranges),
        0 <= j <= ranges.len(),
    ensures
        all_fresh_atoms(fresh_parts(atoms, separator, ranges).take(j)) == atoms.subrange(
            0,
            if j == 0 {
                0
            } else {
                ranges[j - 1].1
            },
        ),
    decreases j,
{
    let parts = fresh_parts(atoms, separator, ranges);
    if j == 0 {
        assert(parts.take(0) =~= Seq::<Fresh>::empty());
        assert(atoms.subrange(0, 0) =~= Seq::<Seq<char>>::empty());
    } else {
        lemma_fresh_parts_prefix(limits, atoms, separator, ranges, j - 1);
        assert(parts.take(j).drop_last() =~= parts.take(j - 1));
        assert(parts.take(j).last() == parts[j - 1]);
        let r = ranges[j - 1];
        assert(0 <= r.0 < r.1 <= atoms.len());
        if j == 1 {
            assert(ranges[0].0 == 0);
            assert(parts[0].atoms == atoms.subrange(0, r.1));
            assert(atoms.subrange(0, 0) + atoms.subrange(0, r.1) =~= atoms.subrange(0, r.1));
        } else {
            let p = ranges[j - 2];
            assert(ranges[j - 2 + 1] == r);
            assert(p.1 < r.1);
            assert(0 <= p.0 < p.1);
            assert(parts[j - 1].atoms == atoms.subrange(p.1, r.1));
            assert(atoms.subrange(0, p.1) + atoms.subrange(p.1, r.1) =~= atoms.subrange(0, r.1));
        }
    }
}

/// Chunk `k` of a run has something new and ends with it.
proof fn lemma_fresh_chunk(
    limits: Limits,
    atoms: Seq<Seq<char>>,
    separator: Seq<char>,
    ranges: Seq<(int, int)>,
    k: int,
)
    requires
        ranges_respect(limits, atoms, separator, 0, ranges),
        0 <= k < ranges.len(),
    ensures
        fresh_parts(atoms, separator, ranges)[k].atoms.len() > 0,
        ends_with(
            range_texts(atoms, separator, ranges)[k],
            join(
                fresh_parts(atoms, separator, ranges)[k].atoms,
                fresh_parts(atoms, separator, ranges)[k].separator,
            ),
        ),
{
    let parts = fresh_parts(atoms, separator, ranges);
    let r = ranges[k];
    assert(0 <= r.0 < r.1 <= atoms.len());
    let whole = atoms.subrange(r.0, r.1);
    let text = join(whole, separator);
    assert(range_texts(atoms, separator, ranges)[k] == text);
    if k == 0 {
        assert(parts[0].atoms == whole);
        lemma_whole_ends(text);
    } else {
        let p = ranges[k - 1];
        assert(ranges[k - 1 + 1] == r);
        assert(p.0 < r.0 <= p.1 < r.1);
        assert(parts[k].atoms == atoms.subrange(p.1, r.1));
        assert(atoms.subrange(p.1, r.1).len() > 0);
        if r.0 < p.1 {
            lemma_join_split(whole, separator, p.1 - r.0);
            assert(whole.skip(p.1 - r.0) =~= atoms.subrange(p.1, r.1));
            let tail = join(atoms.subrange(p.1, r.1), separator);
            assert(text.subrange(text.len() - tail.len(), text.len() as int) =~= tail);
        } else {
            assert(atoms.subrange(p.1, r.1) =~= whole);
            lemma_whole_ends(text);
        }
    }
}

/// What is new in the chunks of a merged run is as it should be, and is all
/// the atoms of the run in their order, where each atom is by itself no
/// larger than a chunk.
pub proof fn lemma_merged_fresh(limits: Limits, atoms: Seq<Seq<char>>, separator: Seq<char>)
    requires
        atoms_fit(limits, atoms),
    ensures
        fresh_respect(merged(limits, atoms, separator), merged_fresh(limits, atoms, separator)),
        all_fresh_atoms(merged_fresh(limits, atoms, separator)) == atoms,
{
    lemma_merge_respects_limits(limits, atoms, separator);
    let ranges = merge_ranges(limits, atoms, separator);
    let chunks = merged(limits, atoms, separator);
    let parts = merged_fresh(limits, atoms, separator);
    lemma_fresh_parts_prefix(limits, atoms, separator, ranges, ranges.len() as int);
    assert(parts.take(ranges.len() as int) =~= parts);
    if ranges.len() > 0 {
        assert(atoms.subrange(0, atoms.len() as int) =~= atoms);
    } else {
        assert(atoms.len() == 0);
        assert(atoms.subrange(0, 0) =~= atoms);
    }
    assert forall|k: int| 0 <= k < chunks.len() implies (#[trigger] parts[k]).atoms.len() > 0
        && ends_with(chunks[k], join(parts[k].atoms, parts[k].separator)) by {
        lemma_fresh_chunk(limits, atoms, separator, ranges, k);
    }
}

proof fn lemma_single_fresh(chunk: Seq<char>, separator: Seq<char>)
    ensures
        fresh_respect(seq![chunk], seq![Fresh { atoms: seq![chunk], separator }]),
        all_fresh_atoms(seq![Fresh { atoms: seq![chunk], separator }]) == seq![chunk],
{
    lemma_whole_ends(chunk);
    let parts = seq![Fresh { atoms: seq![chunk], separator }];
    assert(join(seq![chunk], separator) == chunk);
    assert(parts.drop_last() =~= Seq::<Fresh>::empty());
    assert(all_fresh_atoms(Seq::<Fresh>::empty()) =~= Seq::<Seq<char>>::empty());
    assert(parts.last().atoms == seq![chunk]);
    assert(all_fresh_atoms(parts) =~= seq![chunk]);
}

/// With the overlaps taken away the chunks give back the text atom by atom:
/// each chunk ends with what is new in it, and what is new in all chunks,
/// one after the other, is the atoms that the text is made of, in their
/// order.
pub proof fn lemma_split_fresh(limits: Limits, ladder: Seq<Seq<char>>, text: Seq<char>, level: int)
    requires
        0 <= level,
    ensures
        fresh_respect(
            split_level(limits, ladder, text, level),
            split_fresh(limits, ladder, text, level),
        ),
        all_fresh_atoms(split_fresh(limits, ladder, text, level)) == leaves(
            limits,
            ladder,
            text,
            level,
        ),
    decreases ladder.len() - level, 0int, 0int,
{
    let picked = pick_level(text, ladder, level);
    if picked < level || picked >= ladder.len() {
        if text.len() > 0 {
            lemma_single_fresh(text, Seq::empty());
            assert(text.subrange(0, text.len() as int) =~= text);
        } else {
            assert(all_fresh_atoms(Seq::<Fresh>::empty()) =~= Seq::<Seq<char>>::empty());
        }
    } else {
        let separator = ladder[picked];
        let next_level = if separator.len() == 0 {
            ladder.len() as int
        } else {
            picked + 1
        };
        let atoms = atoms_of(text, separator);
        lemma_assemble_fresh(limits, ladder, atoms, separator, next_level, 0, 0);
        assert(atoms.subrange(0, 0) + leaves_from(limits, ladder, atoms, next_level, 0)
            =~= leaves_from(limits, ladder, atoms, next_level, 0));
    }
}

proof fn lemma_assemble_fresh(
    limits: Limits,
    ladder: Seq<Seq<char>>,
    atoms: Seq<Seq<char>>,
    separator: Seq<char>,
    next_level: int,
    start: int,
    at: int,
)
    requires
        0 <= start <= at <= atoms.len(),
        0 <= next_level <= ladder.len(),
        forall|k: int| start <= k < at ==> limits.estimator.units(#[trigger] atoms[k])
            <= limits.chunk_size,
    ensures
        fresh_respect(
            assemble(limits, ladder, atoms, separator, next_level, start, at),
            assemble_fresh(limits, ladder, atoms, separator, next_level, start, at),
        ),
        all_fresh_atoms(assemble_fresh(limits, ladder, atoms, separator, next_level, start, at))
            == atoms.subrange(start, at) + leaves_from(limits, ladder, atoms, next_level, at),
    decreases ladder.len() - next_level, 1int, atoms.len() - at,
{
    let run = run_of(atoms, start, at);
    assert(atoms_fit(limits, run)) by {
        assert forall|k: int| 0 <= k < run.len() implies limits.estimator.units(#[trigger] run[k])
            <= limits.chunk_size by {
            assert(run[k] == atoms[start + k]);
        }
    }
    lemma_merged_fresh(limits, run, separator);
    let closed = merged(limits, run, separator);
    let closed_parts = merged_fresh(limits, run, separator);
    if at >= atoms.len() {
        assert(atoms.subrange(start, at) + Seq::<Seq<char>>::empty() =~= atoms.subrange(start, at));
    } else if limits.estimator.units(atoms[at]) <= limits.chunk_size {
        lemma_assemble_fresh(limits, ladder, atoms, separator, next_level, start, at + 1);
        assert(atoms.subrange(start, at + 1) + leaves_from(
            limits,
            ladder,
            atoms,
            next_level,
            at + 1,
        ) =~= atoms.subrange(start, at) + (seq![atoms[at]] + leaves_from(
            limits,
            ladder,
            atoms,
            next_level,
            at + 1,
        )));
    } else {
        let inner = if next_level >= ladder.len() {
            seq![atoms[at]]
        } else {
            split_level(limits, ladder, atoms[at], next_level)
        };
        let inner_parts = if next_level >= ladder.len() {
            seq![Fresh { atoms: seq![atoms[at]], separator }]
        } else {
            split_fresh(limits, ladder, atoms[at], next_level)
        };
        if next_level < ladder.len() {
            lemma_split_fresh(limits, ladder, atoms[at], next_level);
        } else {
            lemma_single_fresh(atoms[at], separator);
        }
        lemma_assemble_fresh(limits, ladder, atoms, separator, next_level, at + 1, at + 1);
        let rest = assemble(limits, ladder, atoms, separator, next_level, at + 1, at + 1);
        let rest_parts = assemble_fresh(limits, ladder, atoms, separator, next_level, at + 1, at + 1);
        lemma_fresh_concat(closed, closed_parts, inner, inner_parts);
        lemma_fresh_concat(closed + inner, closed_parts + inner_parts, rest, rest_parts);
        lemma_all_fresh_concat(closed_parts, inner_parts);
        lemma_all_fresh_concat(closed_parts + inner_parts, rest_parts);
        assert(atoms.subrange(at + 1, at + 1) =~= Seq::<Seq<char>>::empty());
        let tail = leaves_from(limits, ladder, atoms, next_level, at + 1);
        assert(all_fresh_atoms(rest_parts) =~= tail);
        assert(all_fresh_atoms(closed_parts + inner_parts + rest_parts) =~= atoms.subrange(
            start,
            at,
        ) + leaves_from(limits, ladder, atoms, next_level, at));
    }
}

/// Splits text into overlapping chunks of bounded size, trying one separator
/// after another.
pub struct RecursiveCharacterTextSplitter {
    pub chunk_size: usize,
    pub chunk_overlap: usize,
    pub separators: Vec<String>,
    pub estimator: Estimator,
}

impl RecursiveCharacterTextSplitter {
    /// The limits that this splitter holds chunks to.
    pub open spec fn limits(&self) -> Limits {
        Limits {
            estimator: self.estimator,
            chunk_size: self.chunk_size as nat,
            chunk_overlap: self.chunk_overlap as nat,
        }
    }

    /// The separators of this splitter, in the order in which they are tried.
    pub open spec fn ladder(&self) -> Seq<Seq<char>> {
        string_texts(self.separators@)
    }

    /// Where the chunk after a closed one begins.
    fn find_seed(
        &self,
        atoms: &Vec<Vec<char>>,
        separator: &Vec<char>,
        from: usize,
        next: usize,
    ) -> (seed: usize)
        requires
            from <= next < atoms.len(),
        ensures
            seed == seed_start(self.limits(), texts(atoms@), separator@, from as int, next as int),
            from <= seed <= next,
    {
        let mut seed: usize = from;
        while seed < next
            invariant
                from <= seed <= next < atoms.len(),
                seed_start(self.limits(), texts(atoms@), separator@, seed as int, next as int)
                    == seed_start(self.limits(), texts(atoms@), separator@, from as int, next as int),
            decreases next - seed,
        {
            let shared = join_atoms(atoms, seed, next, separator);
            if self.estimator.measure(&shared) <= self.chunk_overlap {
                let whole = join_atoms(atoms, seed, next + 1, separator);
                if self.estimator.measure(&whole) <= self.chunk_size {
                    return seed;
                }
            }
            seed += 1;
        }
        seed
    }

    /// Merges a run of atoms into chunks.
    pub fn merge_splits(&self, atoms: &Vec<Vec<char>>, separator: &Vec<char>) -> (chunks: Vec<
        Vec<char>,
    >)
        ensures
            texts(chunks@) == merged(self.limits(), texts(atoms@), separator@),
    {
        let mut chunks: Vec<Vec<char>> = Vec::new();
        let mut start: usize = 0;
        let mut next: usize = 0;
        let ghost all = texts(atoms@);
        let ghost limits = self.limits();
        assert(texts(chunks@) =~= Seq::<Seq<char>>::empty());
        assert(range_texts(all, separator@, Seq::<(int, int)>::empty()) =~= Seq::<
            Seq<char>,
        >::empty());
        while next < atoms.len()
            invariant
                start <= next <= atoms.len(),
                all == texts(atoms@),
                limits == self.limits(),
                texts(chunks@) + range_texts(
                    all,
                    separator@,
                    merge_scan(limits, all, separator@, start as int, next as int),
                ) == merged(limits, all, separator@),
            decreases atoms.len() - next,
        {
            let mut fits = start == next;
            if !fits {
                let whole = join_atoms(atoms, start, next + 1, separator);
                fits = self.estimator.measure(&whole) <= self.chunk_size;
            }
            if fits {
                next += 1;
            } else {
                let ghost before = texts(chunks@);
                let ghost seed = seed_start(limits, all, separator@, start + 1, next as int);
                let ghost rest = merge_scan(limits, all, separator@, seed, next + 1);
                chunks.push(join_atoms(atoms, start, next, separator));
                proof {
                    let first = seq![(start as int, next as int)];
                    assert(merge_scan(limits, all, separator@, start as int, next as int) == first
                        + rest);
                    assert(range_texts(all, separator@, first + rest) =~= range_texts(
                        all,
                        separator@,
                        first,
                    ) + range_texts(all, separator@, rest));
                    assert(texts(chunks@) =~= before + range_texts(all, separator@, first));
                }
                start = self.find_seed(atoms, separator, start + 1, next);
                next += 1;
            }
        }
        let ghost before = texts(chunks@);
        if start < next {
            chunks.push(join_atoms(atoms, start, next, separator));
        }
        proof {
            let tail = merge_scan(limits, all, separator@, start as int, next as int);
            assert(texts(chunks@) =~= before + range_texts(all, separator@, tail));
        }
        chunks
    }

    /// Splits `text` under the separators of `ladder` from `level` on.
    fn split_chars(&self, ladder: &Vec<Vec<char>>, text: &Vec<char>, level: usize) -> (chunks: Vec<
        Vec<char>,
    >)
        ensures
            texts(chunks@) == split_level(self.limits(), texts(ladder@), text@, level as int),
        decreases ladder.len() - level,
    {
        let ghost limits = self.limits();
        let ghost rungs = texts(ladder@);
        let mut chunks: Vec<Vec<char>> = Vec::new();
        let mut picked: usize = level;
        let mut found = false;
        while picked < ladder.len() && !found
            invariant
                rungs == texts(ladder@),
                level <= picked,
                picked <= ladder.len() || picked == level,
                pick_level(text@, rungs, picked as int) == pick_level(text@, rungs, level as int),
                found ==> picked < ladder.len() && (rungs[picked as int].len() == 0 || occurs(
                    text@,
                    rungs[picked as int],
                )),
            decreases (ladder.len() - picked) + (if found { 0int } else { 1int }),
        {
            if ladder[picked].len() == 0 || contains_separator(text, &ladder[picked]) {
                found = true;
            } else {
                picked += 1;
            }
        }
        if picked >= ladder.len() {
            if text.len() > 0 {
                chunks.push(copy_range(text, 0, text.len()));
            }
            assert(texts(chunks@) =~= piece(text@, 0, text.len() as int));
            return chunks;
        }
        let separator = &ladder[picked];
        let next_level: usize = if separator.len() == 0 {
            ladder.len()
        } else {
            picked + 1
        };
        let atoms = split_atoms(text, separator);
        let ghost all = texts(atoms@);
        let mut run: Vec<Vec<char>> = Vec::new();
        let mut start: usize = 0;
        let mut at: usize = 0;
        assert(texts(chunks@) =~= Seq::<Seq<char>>::empty());
        assert(texts(run@) =~= run_of(all, 0, 0));
        while at < atoms.len()
            invariant
                start <= at <= atoms.len(),
                all == texts(atoms@),
                limits == self.limits(),
                rungs == texts(ladder@),
                level < next_level <= ladder.len(),
                texts(run@) == run_of(all, start as int, at as int),
                texts(chunks@) + assemble(
                    limits,
                    rungs,
                    all,
                    separator@,
                    next_level as int,
                    start as int,
                    at as int,
                ) == assemble(limits, rungs, all, separator@, next_level as int, 0, 0),
            decreases atoms.len() - at,
        {
            let atom = &atoms[at];
            assert(all[at as int] == atom@);
            if self.estimator.measure(atom) <= self.chunk_size {
                let ghost before = texts(run@);
                run.push(copy_range(atom, 0, atom.len()));
                proof {
                    assert(atom@.subrange(0, atom.len() as int) =~= atom@);
                    assert(texts(run@) =~= before.push(atom@));
                    assert(run_of(all, start as int, at + 1) =~= run_of(
                        all,
                        start as int,
                        at as int,
                    ).push(atom@));
                }
                at += 1;
            } else {
                let ghost before = texts(chunks@);
                let mut closed = self.merge_splits(&run, separator);
                let ghost closed_texts = texts(closed@);
                chunks.append(&mut closed);
                let ghost inner_texts: Seq<Seq<char>>;
                if next_level >= ladder.len() {
                    chunks.push(copy_range(atom, 0, atom.len()));
                    proof {
                        assert(atom@.subrange(0, atom.len() as int) =~= atom@);
                        inner_texts = seq![atom@];
                    }
                } else {
                    let mut inner = self.split_chars(ladder, atom, next_level);
                    proof {
                        inner_texts = texts(inner@);
                    }
                    chunks.append(&mut inner);
                }
                proof {
                    assert(texts(chunks@) =~= before + closed_texts + inner_texts);
                    assert(run_of(all, at + 1, at + 1) =~= Seq::<Seq<char>>::empty());
                }
                run = Vec::new();
                assert(texts(run@) =~= Seq::<Seq<char>>::empty());
                at += 1;
                start = at;
            }
        }
        let ghost before = texts(chunks@);
        let mut closed = self.merge_splits(&run, separator);
        let ghost closed_texts = texts(closed@);
        chunks.append(&mut closed);
        assert(texts(chunks@) =~= before + closed_texts);
        chunks
    }

    /// A splitter with the given limits and separators that measures in
    /// estimated tokens.
    pub fn new(chunk_size: usize, chunk_overlap: usize, separators: &[&str]) -> (splitter: Self)
        ensures
            splitter.chunk_size == chunk_size,
            splitter.chunk_overlap == chunk_overlap,
            splitter.estimator == Estimator::Tokens,
            splitter.ladder() == Seq::new(separators@.len(), |i: int| separators@[i]@),
    {
        let mut owned: Vec<String> = Vec::new();
        let mut i: usize = 0;
        while i < separators.len()
            invariant
                i <= separators.len(),
                owned.len() == i,
                forall|j: int| 0 <= j < i ==> owned[j]@ == separators@[j]@,
            decreases separators.len() - i,
        {
            owned.push(separators[i].to_owned());
            i += 1;
        }
        let splitter = RecursiveCharacterTextSplitter {
            chunk_size,
            chunk_overlap,
            separators: owned,
            estimator: Estimator::Tokens,
        };
        assert(splitter.ladder() =~= Seq::new(separators@.len(), |i: int| separators@[i]@));
        splitter
    }

    /// The same splitter measuring with `estimator`.
    pub fn with_estimator(self, estimator: Estimator) -> (splitter: Self)
        ensures
            splitter.chunk_size == self.chunk_size,
            splitter.chunk_overlap == self.chunk_overlap,
            splitter.separators == self.separators,
            splitter.estimator == estimator,
    {
        let mut splitter = self;
        splitter.estimator = estimator;
        splitter
    }

    /// Splits a text into chunks.
    pub fn split_text(&self, text: &str) -> (chunks: Vec<String>)
        ensures
            string_texts(chunks@) == split_level(self.limits(), self.ladder(), text@, 0),
            has_terminal(self.ladder(), 0) ==> forall|k: int|
                0 <= k < chunks.len() ==> chunk_bounded(self.limits(), (#[trigger] chunks[k])@),
    {
        proof {
            if has_terminal(self.ladder(), 0) {
                lemma_split_level_bounded(self.limits(), self.ladder(), text@, 0);
            }
        }
        let mut ladder: Vec<Vec<char>> = Vec::new();
        let mut i: usize = 0;
        while i < self.separators.len()
            invariant
                i <= self.separators.len(),
                ladder.len() == i,
                forall|j: int| 0 <= j < i ==> ladder[j]@ == self.separators[j]@,
            decreases self.separators.len() - i,
        {
            ladder.push(chars_of(self.separators[i].as_str()));
            i += 1;
        }
        assert(texts(ladder@) =~= self.ladder());
        let characters = chars_of(text);
        let pieces = self.split_chars(&ladder, &characters, 0);
        let mut chunks: Vec<String> = Vec::new();
        let mut k: usize = 0;
        while k < pieces.len()
            invariant
                k <= pieces.len(),
                chunks.len() == k,
                forall|j: int| 0 <= j < k ==> chunks[j]@ == pieces[j]@,
            decreases pieces.len() - k,
        {
            let chunk = string_of(&pieces[k], 0, pieces[k].len());
            assert(pieces[k as int]@.subrange(0, pieces[k as int].len() as int) =~= pieces[k as int]@);
            chunks.push(chunk);
            k += 1;
        }
        assert(string_texts(chunks@) =~= texts(pieces@));
        proof {
            if has_terminal(self.ladder(), 0) {
                assert forall|k: int| 0 <= k < chunks.len() implies chunk_bounded(
                    self.limits(),
                    (#[trigger] chunks[k])@,
                ) by {
                    assert(string_texts(chunks@)[k] == chunks[k]@);
                }
            }
        }
        chunks
    }

    /// Splits each document into chunks that carry its metadata.
    pub fn split_documents(&self, documents: &Vec<RagDocument>) -> (chunks: Vec<RagDocument>)
        ensures
            document_views(chunks@) == documents_pieces(
                self.limits(),
                self.ladder(),
                document_views(documents@),
            ),
            has_terminal(self.ladder(), 0) ==> forall|k: int|
                0 <= k < chunks.len() ==> chunk_bounded(
                    self.limits(),
                    (#[trigger] chunks[k])@.page_content,
                ),
    {
        proof {
            if has_terminal(self.ladder(), 0) {
                lemma_documents_pieces_bounded(
                    self.limits(),
                    self.ladder(),
                    document_views(documents@),
                );
            }
        }
        let mut chunks: Vec<RagDocument> = Vec::new();
        let ghost all = document_views(documents@);
        let mut i: usize = 0;
        assert(document_views(chunks@) =~= Seq::<DocumentView>::empty());
        assert(all.take(0) =~= Seq::<DocumentView>::empty());
        while i < documents.len()
            invariant
                i <= documents.len(),
                all == document_views(documents@),
                document_views(chunks@) == documents_pieces(
                    self.limits(),
                    self.ladder(),
                    all.take(i as int),
                ),
            decreases documents.len() - i,
        {
            let document = &documents[i];
            let texts = self.split_text(document.page_content.as_str());
            let ghost before = document_views(chunks@);
            let ghost pieces = document_pieces(self.limits(), self.ladder(), document@);
            proof {
                assert(all.take(i + 1).drop_last() =~= all.take(i as int));
                assert(all.take(i + 1).last() == document@);
            }
            let mut k: usize = 0;
            while k < texts.len()
                invariant
                    k <= texts.len(),
                    pieces == document_pieces(self.limits(), self.ladder(), document@),
                    string_texts(texts@) == split_level(
                        self.limits(),
                        self.ladder(),
                        document@.page_content,
                        0,
                    ),
                    document_views(chunks@) == before + pieces.take(k as int),
                decreases texts.len() - k,
            {
                let ghost so_far = document_views(chunks@);
                let piece = RagDocument {
                    page_content: texts[k].clone(),
                    metadata: crate::ordered_map::metadata_clone(&document.metadata),
                };
                proof {
                    assert(string_texts(texts@)[k as int] == texts[k as int]@);
                    assert(piece@ == pieces[k as int]);
                }
                chunks.push(piece);
                proof {
                    assert(document_views(chunks@) =~= so_far.push(pieces[k as int]));
                    assert(pieces.take(k + 1) =~= pieces.take(k as int).push(pieces[k as int]));
                }
                k += 1;
            }
            assert(pieces.take(texts.len() as int) =~= pieces);
            i += 1;
        }
        assert(all.take(documents.len() as int) =~= all);
        proof {
            if has_terminal(self.ladder(), 0) {
                assert forall|k: int| 0 <= k < chunks.len() implies chunk_bounded(
                    self.limits(),
                    (#[trigger] chunks[k])@.page_content,
                ) by {
                    assert(document_views(chunks@)[k] == chunks[k]@);
                }
            }
        }
        chunks
    }
}

} // verus!
