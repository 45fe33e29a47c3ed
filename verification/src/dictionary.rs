//! The vocabulary both indexes are built from: an ordered sequence of
//! lowercase words, the length of the longest raw word, and the configured
//! alphabet size. Reading the raw lines from a file is the surrounding
//! program's affair; this module only shapes them into a vocabulary.

use crate::chars::{lower_of, to_lowercase_str};
use vstd::prelude::*;
use vstd::string::StringSliceAdditionalSpecFns;
use vstd::utf8::encode_utf8;

verus! {

/// A vocabulary: lowercase words in their given order, the byte length of
/// the longest raw word, and the declared character-domain size.
#[derive(Debug, PartialEq)]
pub struct Dictionary {
    pub words: Vec<String>,
    pub max_word_length: u16,
    pub alphabet_length: u16,
}

/// The byte length of the longest word of `v` from position `i` on, or 0 for
/// an empty range.
pub open spec fn max_raw_len(v: Seq<String>, i: int) -> int
    decreases v.len() - i,
{
    if i < 0 || i >= v.len() {
        0
    } else {
        vstd::math::max(encode_utf8(v[i]@).len() as int, max_raw_len(v, i + 1))
    }
}

impl Dictionary {
    /// Shapes raw lines into a vocabulary under the declared alphabet size:
    /// every word is lowercased, and the longest raw byte length is recorded.
    #[verifier::loop_isolation(false)]
    pub fn from_words(lines: Vec<String>, alphabet_length: u16) -> (d: Dictionary)
        requires
            forall|i: int|
                0 <= i < lines@.len() ==> encode_utf8((#[trigger] lines@[i])@).len() <= u16::MAX,
        ensures
            d.alphabet_length == alphabet_length,
            d.max_word_length as int == max_raw_len(lines@, 0),
            d.words@.len() == lines@.len(),
            forall|i: int| 0 <= i < d.words@.len() ==> (#[trigger] d.words@[i])@ == lower_of(
                lines@[i]@,
            ),
    {
        let mut words: Vec<String> = Vec::new();
        let mut max_word_length: u16 = 0;
        let n = lines.len();
        let mut i: usize = 0;
        while i < n
            invariant
                i <= n,
                words@.len() == i,
                forall|q: int| 0 <= q < i ==> (#[trigger] words@[q])@ == lower_of(lines@[q]@),
                vstd::math::max(max_word_length as int, max_raw_len(lines@, i as int))
                    == max_raw_len(lines@, 0),
            decreases n - i,
        {
            let line = &lines[i];
            let ls = line.as_str();
            let blen = ls.len();
            proof {
                assert(ls.spec_bytes() == encode_utf8(lines@[i as int]@));
                assert(blen as int == encode_utf8(lines@[i as int]@).len());
            }
            if blen as u16 > max_word_length {
                max_word_length = blen as u16;
            }
            words.push(to_lowercase_str(ls));
            i += 1;
        }
        proof {
            assert(max_raw_len(lines@, n as int) == 0);
        }
        Dictionary { words, max_word_length, alphabet_length }
    }
}

} // verus!
