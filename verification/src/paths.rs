use crate::text::{chars_of, same_text, string_texts};
use vstd::prelude::*;

verus! {

/// `a` comes no later than `b` in the order of a dictionary: character by
/// character, a text before those that it is the beginning of.
pub open spec fn lex_le(a: Seq<char>, b: Seq<char>) -> bool
    decreases a.len(),
{
    if a.len() == 0 {
        true
    } else if b.len() == 0 {
        false
    } else if a[0] != b[0] {
        (a[0] as u32) < (b[0] as u32)
    } else {
        lex_le(a.drop_first(), b.drop_first())
    }
}

/// The names stand in the order of a dictionary.
pub open spec fn names_sorted(names: Seq<Seq<char>>) -> bool {
    forall|i: int, j: int|
        0 <= i < j < names.len() ==> lex_le(#[trigger] names[i], #[trigger] names[j])
}

/// Of two texts one comes no later than the other.
pub proof fn lemma_lex_total(a: Seq<char>, b: Seq<char>)
    ensures
        lex_le(a, b) || lex_le(b, a),
    decreases a.len(),
{
    if a.len() > 0 && b.len() > 0 {
        if a[0] == b[0] {
            lemma_lex_total(a.drop_first(), b.drop_first());
        } else {
            vstd::utf8::char_u32_cast(a[0], a[0] as u32);
            vstd::utf8::char_u32_cast(b[0], b[0] as u32);
        }
    }
}

/// What comes no later than a text that comes no later than a third comes no
/// later than the third.
pub proof fn lemma_lex_transitive(a: Seq<char>, b: Seq<char>, c: Seq<char>)
    requires
        lex_le(a, b),
        lex_le(b, c),
    ensures
        lex_le(a, c),
    decreases a.len(),
{
    if a.len() > 0 && b.len() > 0 && c.len() > 0 && a[0] == b[0] && b[0] == c[0] {
        lemma_lex_transitive(a.drop_first(), b.drop_first(), c.drop_first());
    }
}

/// Two texts of which each comes no later than the other are the same.
pub proof fn lemma_lex_antisymmetric(a: Seq<char>, b: Seq<char>)
    requires
        lex_le(a, b),
        lex_le(b, a),
    ensures
        a == b,
    decreases a.len(),
{
    if a.len() > 0 && b.len() > 0 {
        lemma_lex_antisymmetric(a.drop_first(), b.drop_first());
        assert(a =~= seq![a[0]] + a.drop_first());
        assert(b =~= seq![b[0]] + b.drop_first());
    } else {
        assert(a =~= b);
    }
}

/// Whether `a` comes no later than `b` in the order of a dictionary.
pub fn text_le(a: &str, b: &str) -> (le: bool)
    ensures
        le == lex_le(a@, b@),
{
    let left = chars_of(a);
    let right = chars_of(b);
    let mut i: usize = 0;
    assert(a@.subrange(0, a@.len() as int) =~= a@);
    assert(b@.subrange(0, b@.len() as int) =~= b@);
    while i < left.len() && i < right.len()
        invariant
            i <= left.len(),
            i <= right.len(),
            left@ == a@,
            right@ == b@,
            lex_le(a@, b@) == lex_le(
                a@.subrange(i as int, a@.len() as int),
                b@.subrange(i as int, b@.len() as int),
            ),
        decreases left.len() - i,
    {
        let ghost rest_a = a@.subrange(i as int, a@.len() as int);
        let ghost rest_b = b@.subrange(i as int, b@.len() as int);
        proof {
            assert(rest_a[0] == left[i as int]);
            assert(rest_b[0] == right[i as int]);
            assert(rest_a.drop_first() =~= a@.subrange(i + 1, a@.len() as int));
            assert(rest_b.drop_first() =~= b@.subrange(i + 1, b@.len() as int));
        }
        if left[i] != right[i] {
            return (left[i] as u32) < (right[i] as u32);
        }
        i += 1;
    }
    i == left.len()
}

/// The names in the order of a dictionary.
pub fn sort_names(names: Vec<String>) -> (sorted: Vec<String>)
    ensures
        names_sorted(string_texts(sorted@)),
        string_texts(sorted@).to_multiset() == string_texts(names@).to_multiset(),
{
    let ghost all = string_texts(names@).to_multiset();
    let mut rest = names;
    let mut sorted: Vec<String> = Vec::new();
    proof {
        assert(string_texts(sorted@) =~= Seq::<Seq<char>>::empty());
        assert(Seq::<Seq<char>>::empty().to_multiset() =~= vstd::multiset::Multiset::<
            Seq<char>,
        >::empty()) by {
            Seq::<Seq<char>>::empty().to_multiset_ensures();
        }
        assert(string_texts(sorted@).to_multiset().add(string_texts(rest@).to_multiset()) =~= all);
    }
    while rest.len() > 0
        invariant
            names_sorted(string_texts(sorted@)),
            string_texts(sorted@).to_multiset().add(string_texts(rest@).to_multiset()) == all,
            forall|i: int, j: int|
                0 <= i < sorted.len() && 0 <= j < rest.len() ==> lex_le(
                    #[trigger] sorted[i]@,
                    #[trigger] rest[j]@,
                ),
        decreases rest.len(),
    {
        let mut least: usize = 0;
        let mut k: usize = 1;
        proof {
            lemma_lex_total(rest[0]@, rest[0]@);
        }
        while k < rest.len()
            invariant
                1 <= k <= rest.len(),
                least < k,
                forall|j: int| 0 <= j < k ==> lex_le(rest[least as int]@, #[trigger] rest[j]@),
            decreases rest.len() - k,
        {
            if !text_le(rest[least].as_str(), rest[k].as_str()) {
                proof {
                    lemma_lex_total(rest[least as int]@, rest[k as int]@);
                    assert forall|j: int| 0 <= j < k + 1 implies lex_le(
                        rest[k as int]@,
                        #[trigger] rest[j]@,
                    ) by {
                        if j < k {
                            lemma_lex_transitive(rest[k as int]@, rest[least as int]@, rest[j]@);
                        } else {
                            lemma_lex_total(rest[k as int]@, rest[k as int]@);
                        }
                    }
                }
                least = k;
            }
            k += 1;
        }
        let ghost before_sorted = string_texts(sorted@);
        let ghost before_rest = string_texts(rest@);
        let ghost old_rest = rest@;
        let name = rest.remove(least);
        proof {
            assert(string_texts(rest@) =~= before_rest.remove(least as int));
            assert(before_rest[least as int] == name@);
        }
        sorted.push(name);
        proof {
            assert(string_texts(sorted@) =~= before_sorted.push(name@));
            vstd::seq_lib::to_multiset_build(before_sorted, name@);
            vstd::seq_lib::to_multiset_remove(before_rest, least as int);
            before_rest.to_multiset_ensures();
            assert(before_rest.contains(name@));
            assert(before_rest.to_multiset().count(name@) > 0);
            assert(string_texts(sorted@).to_multiset().add(string_texts(rest@).to_multiset())
                =~= all);
            assert forall|i: int, j: int| 0 <= i < j < sorted.len() implies lex_le(
                #[trigger] string_texts(sorted@)[i],
                #[trigger] string_texts(sorted@)[j],
            ) by {
                if j == sorted.len() - 1 {
                    assert(lex_le(before_sorted[i], old_rest[least as int]@));
                } else {
                    assert(lex_le(before_sorted[i], before_sorted[j]));
                }
            }
            assert forall|i: int, j: int|
                0 <= i < sorted.len() && 0 <= j < rest.len() implies lex_le(
                #[trigger] sorted[i]@,
                #[trigger] rest[j]@,
            ) by {
                let source = if j < least { j } else { j + 1 };
                assert(rest[j] == old_rest[source]);
                if i == sorted.len() - 1 {
                    assert(lex_le(old_rest[least as int]@, old_rest[source]@));
                } else {
                    assert(lex_le(before_sorted[i], old_rest[source]@));
                }
            }
        }
    }
    proof {
        assert(string_texts(rest@) =~= Seq::<Seq<char>>::empty());
        assert(Seq::<Seq<char>>::empty().to_multiset() =~= vstd::multiset::Multiset::<
            Seq<char>,
        >::empty()) by {
            Seq::<Seq<char>>::empty().to_multiset_ensures();
        }
        assert(string_texts(sorted@).to_multiset() =~= all);
    }
    sorted
}

/// Whether a file with the given extension is wanted, where `extensions`
/// lists the extensions that are: any file is where the list is empty.
pub fn wanted_extension(extension: &str, extensions: &Vec<String>) -> (wanted: bool)
    ensures
        wanted == (extensions.len() == 0 || string_texts(extensions@).contains(extension@)),
{
    if extensions.len() == 0 {
        return true;
    }
    let ghost all = string_texts(extensions@);
    let mut i: usize = 0;
    while i < extensions.len()
        invariant
            i <= extensions.len(),
            all == string_texts(extensions@),
            forall|j: int| 0 <= j < i ==> all[j] != extension@,
        decreases extensions.len() - i,
    {
        if same_text(extensions[i].as_str(), extension) {
            assert(all[i as int] == extension@);
            return true;
        }
        i += 1;
    }
    false
}

} // verus!
