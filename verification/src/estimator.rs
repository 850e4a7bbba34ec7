use crate::text::string_of;
use crate::tokens::{estimate_token_length, token_length};
use vstd::prelude::*;

verus! {

/// White space as Unicode defines it.
pub open spec fn is_space(c: char) -> bool {
    let code = c as u32;
    ||| 0x09 <= code <= 0x0d
    ||| code == 0x20
    ||| code == 0x85
    ||| code == 0xa0
    ||| code == 0x1680
    ||| 0x2000 <= code <= 0x200a
    ||| code == 0x2028
    ||| code == 0x2029
    ||| code == 0x202f
    ||| code == 0x205f
    ||| code == 0x3000
}

/// Whether a character is white space.
pub fn char_is_space(c: char) -> (space: bool)
    ensures
        space == is_space(c),
{
    let code: u32 = c as u32;
    (0x09 <= code && code <= 0x0d) || code == 0x20 || code == 0x85 || code == 0xa0 || code
        == 0x1680 || (0x2000 <= code && code <= 0x200a) || code == 0x2028 || code == 0x2029 || code
        == 0x202f || code == 0x205f || code == 0x3000
}

/// The number of characters of `text` that are not white space.
pub open spec fn visible_count(text: Seq<char>) -> nat
    decreases text.len(),
{
    if text.len() == 0 {
        0
    } else {
        visible_count(text.drop_last()) + if is_space(text.last()) {
            0nat
        } else {
            1nat
        }
    }
}

/// How the size of a piece of text is measured.
#[derive(Debug, Clone, Copy, PartialEq, Eq, Structural)]
pub enum Estimator {
    /// The estimated number of tokens, from the words of the text.
    Tokens,
    /// One unit for each character that is not white space.
    Characters,
}

impl Estimator {
    /// The size of `text` in the units of this estimator.
    pub open spec fn units(self, text: Seq<char>) -> nat {
        match self {
            Estimator::Tokens => token_length(text),
            Estimator::Characters => visible_count(text),
        }
    }

    /// Measures a text.
    pub fn measure(&self, text: &Vec<char>) -> (size: usize)
        ensures
            size == self.units(text@),
    {
        match self {
            Estimator::Tokens => {
                let s = string_of(text, 0, text.len());
                assert(text@.subrange(0, text.len() as int) =~= text@);
                estimate_token_length(s.as_str())
            },
            Estimator::Characters => {
                let mut count: usize = 0;
                let mut i: usize = 0;
                assert(text@.take(0) =~= Seq::<char>::empty());
                while i < text.len()
                    invariant
                        i <= text.len(),
                        count <= i,
                        count == visible_count(text@.take(i as int)),
                    decreases text.len() - i,
                {
                    assert(text@.take(i + 1).drop_last() =~= text@.take(i as int));
                    if !char_is_space(text[i]) {
                        count += 1;
                    }
                    i += 1;
                }
                assert(text@.take(text.len() as int) =~= text@);
                count
            },
        }
    }
}

} // verus!
