//! Splitting input text into words and putting it back together.
//!
//! A text splits into whitespace-separated words; each word splits further
//! into leading punctuation, the alphanumeric core, and trailing punctuation
//! (collected right-to-left, so it reads reversed). Joining maps each triple
//! back to one word and separates words with single spaces.

use crate::chars::{
    chars_to_string, is_alphanumeric_char, is_space_char, is_whitespace_char, is_word_char,
};
use vstd::prelude::*;

verus! {

/// Index of the first whitespace character, or the length if there is none.
pub open spec fn first_space(s: Seq<char>) -> int
    decreases s.len(),
{
    if s.len() == 0 {
        0
    } else if is_space_char(s[0]) {
        0
    } else {
        1 + first_space(s.drop_first())
    }
}

proof fn lemma_first_space_bounds(s: Seq<char>)
    ensures
        0 <= first_space(s) <= s.len(),
        forall|q: int| 0 <= q < first_space(s) ==> !is_space_char(s[q]),
        first_space(s) < s.len() ==> is_space_char(s[first_space(s)]),
    decreases s.len(),
{
    if s.len() > 0 && !is_space_char(s[0]) {
        lemma_first_space_bounds(s.drop_first());
        assert forall|q: int| 0 <= q < first_space(s) implies !is_space_char(s[q]) by {
            if q > 0 {
                assert(s.drop_first()[q - 1] == s[q]);
            }
        }
        if first_space(s) < s.len() {
            assert(s.drop_first()[first_space(s) - 1] == s[first_space(s)]);
        }
    }
}

/// The whitespace-separated words of `s`, in order.
pub open spec fn tokens(s: Seq<char>) -> Seq<Seq<char>>
    decreases s.len() via tokens_decreases
{
    if s.len() == 0 {
        Seq::empty()
    } else if is_space_char(s[0]) {
        tokens(s.drop_first())
    } else {
        seq![s.subrange(0, first_space(s))] + tokens(s.subrange(first_space(s), s.len() as int))
    }
}

#[via_fn]
proof fn tokens_decreases(s: Seq<char>) {
    if s.len() > 0 && !is_space_char(s[0]) {
        lemma_first_space_bounds(s);
    }
}

/// Index of the first alphanumeric character, or the length if there is none.
pub open spec fn word_start(s: Seq<char>) -> int
    decreases s.len(),
{
    if s.len() == 0 {
        0
    } else if is_word_char(s[0]) {
        0
    } else {
        1 + word_start(s.drop_first())
    }
}

proof fn lemma_word_start_bounds(s: Seq<char>)
    ensures
        0 <= word_start(s) <= s.len(),
        forall|q: int| 0 <= q < word_start(s) ==> !is_word_char(s[q]),
        word_start(s) < s.len() ==> is_word_char(s[word_start(s)]),
    decreases s.len(),
{
    if s.len() > 0 && !is_word_char(s[0]) {
        lemma_word_start_bounds(s.drop_first());
        assert forall|q: int| 0 <= q < word_start(s) implies !is_word_char(s[q]) by {
            if q > 0 {
                assert(s.drop_first()[q - 1] == s[q]);
            }
        }
        if word_start(s) < s.len() {
            assert(s.drop_first()[word_start(s) - 1] == s[word_start(s)]);
        }
    }
}

/// Index of the last alphanumeric character, or -1 if there is none.
pub open spec fn last_word_char(s: Seq<char>) -> int
    decreases s.len(),
{
    if s.len() == 0 {
        -1
    } else if is_word_char(s.last()) {
        s.len() - 1
    } else {
        last_word_char(s.drop_last())
    }
}

proof fn lemma_last_word_char_bounds(s: Seq<char>)
    ensures
        -1 <= last_word_char(s) < s.len(),
        forall|q: int| last_word_char(s) < q < s.len() ==> !is_word_char(s[q]),
        last_word_char(s) >= 0 ==> is_word_char(s[last_word_char(s)]),
    decreases s.len(),
{
    if s.len() > 0 && !is_word_char(s.last()) {
        lemma_last_word_char_bounds(s.drop_last());
        assert forall|q: int| last_word_char(s) < q < s.len() implies !is_word_char(s[q]) by {
            if q < s.len() - 1 {
                assert(s.drop_last()[q] == s[q]);
            }
        }
        if last_word_char(s) >= 0 {
            assert(s.drop_last()[last_word_char(s)] == s[last_word_char(s)]);
        }
    }
}

/// How one word splits: leading non-alphanumeric characters, then everything
/// from the first through the last alphanumeric character, then the trailing
/// non-alphanumeric characters read right-to-left.
pub open spec fn split_parts(w: Seq<char>) -> (Seq<char>, Seq<char>, Seq<char>) {
    let ws = word_start(w);
    let m = w.subrange(ws, w.len() as int);
    let b = last_word_char(m);
    (w.subrange(0, ws), m.subrange(0, b + 1), m.subrange(b + 1, m.len() as int).reverse())
}

/// The view of a joined word: its three parts, concatenated.
pub open spec fn part_view(p: (String, String, String)) -> Seq<char> {
    p.0@ + p.1@ + p.2@
}

/// The joined text: the words, separated by single spaces.
pub open spec fn join_spec(v: Seq<(String, String, String)>, i: int) -> Seq<char>
    decreases v.len() - i,
{
    if i < 0 || i >= v.len() {
        Seq::empty()
    } else if i == v.len() - 1 {
        part_view(v[i])
    } else {
        part_view(v[i]) + seq![' '] + join_spec(v, i + 1)
    }
}

/// The whitespace-separated words of `string`, in order.
pub fn get_words(string: &String) -> (r: Vec<String>)
    ensures
        r@.len() == tokens(string@).len(),
        forall|i: int| 0 <= i < r@.len() ==> (#[trigger] r@[i])@ == tokens(string@)[i],
{
    let s = string.as_str();
    let n = s.unicode_len();
    let mut r: Vec<String> = Vec::new();
    let mut i: usize = 0;
    proof {
        assert(s@.subrange(0, n as int) =~= s@);
        assert(r@.map_values(|x: String| x@) =~= Seq::<Seq<char>>::empty());
        assert(Seq::<Seq<char>>::empty() + tokens(s@) =~= tokens(s@));
    }
    while i < n
        invariant
            i <= n,
            n == s@.len(),
            s@ == string@,
            r@.map_values(|x: String| x@) + tokens(s@.subrange(i as int, n as int)) == tokens(s@),
        decreases n - i,
    {
        let ghost suffix = s@.subrange(i as int, n as int);
        proof {
            assert(suffix[0] == s@[i as int]);
        }
        if is_whitespace_char(s.get_char(i)) {
            proof {
                assert(suffix.drop_first() =~= s@.subrange(i + 1, n as int));
            }
            i += 1;
        } else {
            let mut j = i + 1;
            while j < n
                invariant
                    i < j <= n,
                    n == s@.len(),
                    forall|q: int| i <= q < j ==> !is_space_char(s@[q]),
                ensures
                    i < j <= n,
                    forall|q: int| i <= q < j ==> !is_space_char(s@[q]),
                    j < n ==> is_space_char(s@[j as int]),
                decreases n - j,
            {
                if is_whitespace_char(s.get_char(j)) {
                    break ;
                }
                j += 1;
            }
            proof {
                lemma_first_space_bounds(suffix);
                assert forall|q: int| 0 <= q < j - i implies !is_space_char(suffix[q]) by {
                    assert(suffix[q] == s@[i + q]);
                }
                if (j as int) < n as int {
                    assert(suffix[j - i] == s@[j as int]);
                }
                assert(first_space(suffix) == j - i);
                assert(suffix.subrange(0, j - i) =~= s@.subrange(i as int, j as int));
                assert(suffix.subrange(j - i, suffix.len() as int) =~= s@.subrange(
                    j as int,
                    n as int,
                ));
                assert(tokens(suffix) == seq![s@.subrange(i as int, j as int)] + tokens(
                    s@.subrange(j as int, n as int),
                ));
            }
            let ghost r0 = r@;
            let word = s.substring_char(i, j).to_owned();
            r.push(word);
            proof {
                assert(r@.map_values(|x: String| x@) =~= r0.map_values(|x: String| x@).push(
                    s@.subrange(i as int, j as int),
                ));
                assert(r@.map_values(|x: String| x@) + tokens(s@.subrange(j as int, n as int))
                    =~= r0.map_values(|x: String| x@) + tokens(suffix));
            }
            i = j;
        }
    }
    proof {
        assert(s@.subrange(i as int, n as int) =~= Seq::<char>::empty());
        assert(tokens(Seq::<char>::empty()) =~= Seq::<Seq<char>>::empty());
        assert(r@.map_values(|x: String| x@) =~= r@.map_values(|x: String| x@) + Seq::<
            Seq<char>,
        >::empty());
        assert forall|i2: int| 0 <= i2 < r@.len() implies (#[trigger] r@[i2])@ == tokens(
            string@,
        )[i2] by {
            assert(r@.map_values(|x: String| x@)[i2] == r@[i2]@);
        }
        assert(r@.map_values(|x: String| x@).len() == r@.len());
    }
    r
}

/// Splits one word into its leading punctuation, its alphanumeric core and
/// its trailing punctuation (the latter read right-to-left).
pub fn split_word(word: &str) -> (r: (String, String, String))
    ensures
        (r.0@, r.1@, r.2@) == split_parts(word@),
{
    let n = word.unicode_len();
    let mut a: usize = 0;
    while a < n
        invariant
            a <= n,
            n == word@.len(),
            forall|q: int| 0 <= q < a ==> !is_word_char(word@[q]),
        ensures
            a <= n,
            forall|q: int| 0 <= q < a ==> !is_word_char(word@[q]),
            a < n ==> is_word_char(word@[a as int]),
        decreases n - a,
    {
        if is_alphanumeric_char(word.get_char(a)) {
            break ;
        }
        a += 1;
    }
    proof {
        lemma_word_start_bounds(word@);
        assert(word_start(word@) == a);
    }
    let starting = word.substring_char(0, a).to_owned();
    let mid_full = word.substring_char(a, n);
    let ghost m = word@.subrange(a as int, n as int);
    let mlen = n - a;
    let mut b: usize = mlen;
    while b > 0
        invariant
            b <= mlen,
            mlen == m.len(),
            mid_full@ == m,
            forall|q: int| b <= q < mlen ==> !is_word_char(m[q]),
        ensures
            b <= mlen,
            forall|q: int| b <= q < mlen ==> !is_word_char(m[q]),
            b > 0 ==> is_word_char(m[b - 1]),
        decreases b,
    {
        if is_alphanumeric_char(mid_full.get_char(b - 1)) {
            break ;
        }
        b -= 1;
    }
    proof {
        lemma_last_word_char_bounds(m);
        assert(last_word_char(m) == b - 1);
    }
    let middle = mid_full.substring_char(0, b).to_owned();
    let mut endv: Vec<char> = Vec::new();
    proof {
        assert(Seq::<char>::empty() =~= m.subrange(mlen as int, mlen as int).reverse());
    }
    let mut q: usize = mlen;
    while q > b
        invariant
            b <= q <= mlen,
            mlen == m.len(),
            mid_full@ == m,
            endv@ == m.subrange(q as int, mlen as int).reverse(),
        decreases q - b,
    {
        endv.push(mid_full.get_char(q - 1));
        proof {
            assert(endv@ =~= m.subrange(q - 1, mlen as int).reverse());
        }
        q -= 1;
    }
    let ending = chars_to_string(&endv);
    proof {
        assert(ending@ =~= m.subrange(b as int, mlen as int).reverse());
    }
    (starting, middle, ending)
}

/// Splits a text into words and each word into its three parts.
pub fn split_input(string: &String) -> (r: Vec<(String, String, String)>)
    ensures
        r@.len() == tokens(string@).len(),
        forall|i: int|
            0 <= i < r@.len() ==> ((#[trigger] r@[i]).0@, r@[i].1@, r@[i].2@) == split_parts(
                tokens(string@)[i],
            ),
{
    let words = get_words(string);
    let mut r: Vec<(String, String, String)> = Vec::new();
    let mut i: usize = 0;
    while i < words.len()
        invariant
            i <= words@.len(),
            words@.len() == tokens(string@).len(),
            forall|q: int| 0 <= q < words@.len() ==> (#[trigger] words@[q])@ == tokens(string@)[q],
            r@.len() == i,
            forall|q: int|
                0 <= q < i ==> ((#[trigger] r@[q]).0@, r@[q].1@, r@[q].2@) == split_parts(
                    tokens(string@)[q],
                ),
        decreases words@.len() - i,
    {
        let parts = split_word(words[i].as_str());
        r.push(parts);
        i += 1;
    }
    r
}

/// Joins one split word back together.
pub fn join_word(parts: (String, String, String)) -> (r: String)
    ensures
        r@ == part_view(parts),
{
    let mut out = parts.0;
    out.append(parts.1.as_str());
    out.append(parts.2.as_str());
    out
}

/// Joins split words back into one text, separating words by single spaces.
pub fn join_input(split_words: Vec<(String, String, String)>) -> (r: String)
    ensures
        r@ == join_spec(split_words@, 0),
{
    let mut out = String::new();
    let n = split_words.len();
    let mut i: usize = 0;
    while i < n
        invariant
            i <= n,
            n == split_words@.len(),
            out@ + join_spec(split_words@, i as int) == join_spec(split_words@, 0),
        decreases n - i,
    {
        let ghost before = out@;
        let parts = &split_words[i];
        out.append(parts.0.as_str());
        out.append(parts.1.as_str());
        out.append(parts.2.as_str());
        if i + 1 < n {
            out.append(" ");
            proof {
                reveal_strlit(" ");
                assert(" "@ =~= seq![' ']);
                assert(out@ =~= before + (part_view(split_words@[i as int]) + seq![' ']));
                assert(out@ + join_spec(split_words@, i + 1) =~= before + join_spec(
                    split_words@,
                    i as int,
                ));
            }
        } else {
            proof {
                assert(out@ =~= before + part_view(split_words@[i as int]));
                assert(join_spec(split_words@, i + 1) =~= Seq::<char>::empty());
                assert(out@ + join_spec(split_words@, i + 1) =~= before + join_spec(
                    split_words@,
                    i as int,
                ));
            }
        }
        i += 1;
    }
    proof {
        if n == 0 {
            assert(join_spec(split_words@, 0) =~= Seq::<char>::empty());
            assert(out@ =~= join_spec(split_words@, 0));
        } else {
            assert(join_spec(split_words@, n as int) =~= Seq::<char>::empty());
            assert(out@ =~= out@ + Seq::<char>::empty());
        }
    }
    out
}

} // verus!
