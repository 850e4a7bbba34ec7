use crate::splitter::{atoms_of, copy_range, matches_at, split_atoms, starts_at, texts};
use crate::text::{chars_of, string_of, string_texts};
use vstd::prelude::*;

verus! {

/// What stands between the base of a pattern and its extensions.
pub open spec fn glob_marker() -> Seq<char> {
    seq!['/', '*', '*', '/', '*', '.']
}

/// The first position from `from` on at which `pattern` stands in `text`;
/// the length of the text where there is none.
pub open spec fn first_match(text: Seq<char>, pattern: Seq<char>, from: int) -> int
    decreases text.len() - from,
{
    if from < 0 || from >= text.len() || from + pattern.len() > text.len() {
        text.len() as int
    } else if matches_at(text, pattern, from) {
        from
    } else {
        first_match(text, pattern, from + 1)
    }
}

/// The directory that a path pattern names: what stands before `/**/*.`,
/// or the whole path where that does not occur.
pub open spec fn glob_base(path: Seq<char>) -> Seq<char> {
    let at = first_match(path, glob_marker(), 0);
    if at < path.len() {
        path.subrange(0, at)
    } else {
        path
    }
}

/// The extensions that a path pattern names: what follows `/**/*.`, divided
/// at commas; none where that does not occur, which stands for all files.
pub open spec fn glob_extensions(path: Seq<char>) -> Seq<Seq<char>> {
    let at = first_match(path, glob_marker(), 0);
    if at < path.len() {
        atoms_of(path.subrange(at + 6, path.len() as int), seq![','])
    } else {
        Seq::empty()
    }
}

/// The first position at which `pattern` stands in `text`, if there is one.
pub fn find_first(text: &Vec<char>, pattern: &Vec<char>) -> (found: Option<usize>)
    ensures
        match found {
            Some(at) => at == first_match(text@, pattern@, 0) && at + pattern.len() <= text.len(),
            None => first_match(text@, pattern@, 0) == text.len(),
        },
{
    if pattern.len() > text.len() || text.len() == 0 {
        return None;
    }
    if pattern.len() == 0 {
        assert(text@.subrange(0, 0) =~= pattern@);
        return Some(0);
    }
    let last: usize = text.len() - pattern.len();
    let mut at: usize = 0;
    while at <= last
        invariant
            at <= last + 1,
            pattern.len() > 0,
            last == text.len() - pattern.len(),
            first_match(text@, pattern@, at as int) == first_match(text@, pattern@, 0),
        decreases last + 1 - at,
    {
        if starts_at(text, pattern, at) {
            return Some(at);
        }
        at += 1;
    }
    None
}

/// Divides a path pattern `base/**/*.ext1,ext2` into the base and the
/// extensions. A path without `/**/*.` is its own base, with no extensions.
pub fn parse_glob(path: &str) -> (parts: (String, Vec<String>))
    ensures
        parts.0@ == glob_base(path@),
        string_texts(parts.1@) == glob_extensions(path@),
{
    let chars = chars_of(path);
    let marker: Vec<char> = vec!['/', '*', '*', '/', '*', '.'];
    assert(marker@ =~= glob_marker());
    match find_first(&chars, &marker) {
        Some(at) => {
            let base = string_of(&chars, 0, at);
            let rest = copy_range(&chars, at + 6, chars.len());
            let comma: Vec<char> = vec![','];
            assert(comma@ =~= seq![',']);
            let pieces = split_atoms(&rest, &comma);
            let mut extensions: Vec<String> = Vec::new();
            let mut i: usize = 0;
            while i < pieces.len()
                invariant
                    i <= pieces.len(),
                    extensions.len() == i,
                    forall|k: int| 0 <= k < i ==> extensions[k]@ == pieces[k]@,
                decreases pieces.len() - i,
            {
                let piece = &pieces[i];
                assert(piece@.subrange(0, piece.len() as int) =~= piece@);
                extensions.push(string_of(piece, 0, piece.len()));
                i += 1;
            }
            assert(string_texts(extensions@) =~= texts(pieces@));
            (base, extensions)
        },
        None => {
            let base = string_of(&chars, 0, chars.len());
            assert(chars@.subrange(0, chars.len() as int) =~= chars@);
            let extensions: Vec<String> = Vec::new();
            assert(string_texts(extensions@) =~= Seq::<Seq<char>>::empty());
            (base, extensions)
        },
    }
}

} // verus!
