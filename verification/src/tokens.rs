use unicode_segmentation::UnicodeSegmentation;
use vstd::prelude::*;
use crate::text::string_texts;
use vstd::string::*;

verus! {

/// The words of a text, as Unicode word segmentation finds them, in order.
pub uninterp spec fn unicode_word_seq(text: Seq<char>) -> Seq<Seq<char>>;

/// `UnicodeSegmentation::unicode_words`: the substrings of the text between
/// word boundaries that hold a letter or a digit.
#[verifier::external_body]
pub(crate) fn unicode_words(text: &str) -> (words: Vec<String>)
    ensures
        string_texts(words@) == unicode_word_seq(text@),
{
    text.unicode_words().map(|word| word.to_string()).collect()
}

/// The lower-case form of a text.
pub uninterp spec fn lowercase_of(text: Seq<char>) -> Seq<char>;

/// `str::to_lowercase`: the text with every character replaced by its
/// lower-case mapping.
#[verifier::external_body]
pub(crate) fn to_lowercase(text: &str) -> (lower: String)
    ensures
        lower@ == lowercase_of(text@),
{
    text.to_lowercase()
}

/// The weight of one word, in tenths of a token: 1.3 tokens for a word of
/// ASCII characters, one token for a single other character, and half a token
/// for each character of any other word.
pub open spec fn word_tenths(word: Seq<char>) -> nat {
    if vstd::utf8::is_ascii_chars(word) {
        13
    } else if word.len() == 1 {
        10
    } else {
        word.len() * 5
    }
}

/// The weight of all of `words`, in tenths of a token.
pub open spec fn words_tenths(words: Seq<Seq<char>>) -> nat
    decreases words.len(),
{
    if words.len() == 0 {
        0
    } else {
        words_tenths(words.drop_last()) + word_tenths(words.last())
    }
}

/// Tenths of a token rounded up to whole tokens, no more than a `usize` holds.
pub open spec fn tenths_to_tokens(tenths: nat) -> nat {
    let tokens = (tenths + 9) / 10;
    if tokens > usize::MAX {
        usize::MAX as nat
    } else {
        tokens
    }
}

/// The estimated number of tokens of a list of words.
pub open spec fn words_token_length(words: Seq<Seq<char>>) -> nat {
    tenths_to_tokens(words_tenths(words))
}

/// The estimated number of tokens in a text.
pub open spec fn token_length(text: Seq<char>) -> nat {
    words_token_length(unicode_word_seq(text))
}

/// The weight of the first words is no more than that of all words.
proof fn lemma_words_tenths_grows(words: Seq<Seq<char>>, n: int)
    requires
        0 <= n <= words.len(),
    ensures
        words_tenths(words.take(n)) <= words_tenths(words),
    decreases words.len() - n,
{
    if n < words.len() {
        lemma_words_tenths_grows(words, n + 1);
        assert(words.take(n + 1).drop_last() =~= words.take(n));
    } else {
        assert(words.take(n) =~= words);
    }
}

/// The estimated number of tokens of a list of words: the sum of the weights
/// of the words, rounded up.
pub fn estimate_words(words: &Vec<String>) -> (tokens: usize)
    ensures
        tokens == words_token_length(string_texts(words@)),
{
    let limit: u128 = 10 * (usize::MAX as u128);
    let mut tenths: u128 = 0;
    let mut i: usize = 0;
    let ghost all = string_texts(words@);
    assert(all.take(0) =~= Seq::<Seq<char>>::empty());
    while i < words.len()
        invariant
            i <= words.len(),
            all == string_texts(words@),
            limit == 10 * usize::MAX,
            tenths == words_tenths(all.take(i as int)),
            tenths <= limit,
        decreases words.len() - i,
    {
        let word = words[i].as_str();
        proof {
            assert(all.take(i + 1).drop_last() =~= all.take(i as int));
            assert(all.take(i + 1).last() == words[i as int]@);
        }
        let count: usize = word.unicode_len();
        let weight: u128 = if word.is_ascii() {
            13
        } else if count == 1 {
            10
        } else {
            count as u128 * 5
        };
        tenths = tenths + weight;
        if tenths > limit {
            proof {
                lemma_words_tenths_grows(all, i + 1);
            }
            return usize::MAX;
        }
        i += 1;
    }
    assert(all.take(words.len() as int) =~= all);
    let tokens: u128 = (tenths + 9) / 10;
    if tokens > usize::MAX as u128 {
        usize::MAX
    } else {
        tokens as usize
    }
}

/// Estimates the number of tokens in a text from its words.
pub fn estimate_token_length(text: &str) -> (tokens: usize)
    ensures
        tokens == token_length(text@),
{
    let words = unicode_words(text);
    estimate_words(&words)
}

} // verus!
