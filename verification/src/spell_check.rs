//! The pure pieces of the spell-checking flow: casting a suggested word into
//! the case pattern of the word it replaces, and escalating the search
//! tolerance until the metric index yields at least one candidate. Reading
//! input, presenting the suggestions and letting a user pick one belong to
//! the surrounding program, not to this library.

use crate::bk_tree::{must_report, query_window_ok, stores, word_at, BKTree};
use crate::chars::{
    chars_to_string, is_alphanumeric_char, is_lower_char, is_lowercase_char, is_upper_char,
    is_uppercase_char, is_word_char, lower_char_of, to_lowercase_char, to_uppercase_char,
    upper_char_of,
};
use crate::distance::{chars_within, dl_distance, lemma_distance_bounds};
use vstd::prelude::*;

verus! {

/// The case-cast of `sugg` against `orig`, character by character from
/// position `i` on: beyond `orig` or on non-alphanumerics the character is
/// kept; against a lowercase (or uppercase) original it is lowercased (or
/// uppercased); against anything else it is dropped.
pub open spec fn convert_case_spec(sugg: Seq<char>, orig: Seq<char>, i: int) -> Seq<char>
    decreases sugg.len() - i,
{
    if i < 0 || i >= sugg.len() {
        Seq::empty()
    } else {
        let c = sugg[i];
        let head: Seq<char> = if i >= orig.len() {
            seq![c]
        } else if !is_word_char(c) {
            seq![c]
        } else if is_lower_char(orig[i]) {
            seq![lower_char_of(c)]
        } else if is_upper_char(orig[i]) {
            seq![upper_char_of(c)]
        } else {
            Seq::empty()
        };
        head + convert_case_spec(sugg, orig, i + 1)
    }
}

/// Casts the suggested word into the case pattern of the original word.
#[verifier::loop_isolation(false)]
pub fn convert_case(sugg: &str, orig: &str) -> (r: String)
    ensures
        r@ == convert_case_spec(sugg@, orig@, 0),
{
    let n = sugg.unicode_len();
    let on = orig.unicode_len();
    let mut out: Vec<char> = Vec::new();
    let mut i: usize = 0;
    proof {
        assert(Seq::<char>::empty() + convert_case_spec(sugg@, orig@, 0) =~= convert_case_spec(
            sugg@,
            orig@,
            0,
        ));
    }
    while i < n
        invariant
            i <= n,
            out@ + convert_case_spec(sugg@, orig@, i as int) == convert_case_spec(
                sugg@,
                orig@,
                0,
            ),
        decreases n - i,
    {
        let ghost before = out@;
        let c = sugg.get_char(i);
        if i >= on {
            out.push(c);
        } else if !is_alphanumeric_char(c) {
            out.push(c);
        } else if is_lowercase_char(orig.get_char(i)) {
            out.push(to_lowercase_char(c));
        } else if is_uppercase_char(orig.get_char(i)) {
            out.push(to_uppercase_char(c));
        }
        proof {
            assert(out@ + convert_case_spec(sugg@, orig@, i + 1) =~= before + convert_case_spec(
                sugg@,
                orig@,
                i as int,
            ));
        }
        i += 1;
    }
    proof {
        assert(convert_case_spec(sugg@, orig@, n as int) =~= Seq::<char>::empty());
        assert(out@ + Seq::<char>::empty() =~= out@);
    }
    chars_to_string(&out)
}

/// Queries the metric index with a growing tolerance, starting at 1, until at
/// least one candidate appears, and returns that tolerance with the
/// candidates. The loop always ends: once the tolerance reaches the distance
/// from `word` to the root's word, the query is bound to report at least the
/// root's word. Every candidate is a stored word within the returned
/// tolerance, no candidate repeats, and — granted the triangle instances the
/// pruning leans on — no stored word lies strictly below the returned
/// tolerance unless that tolerance is already 1.
#[verifier::loop_isolation(false)]
pub fn find_suggestions(tree: &BKTree, word: &str) -> (r: (usize, Vec<String>))
    requires
        tree.wf(),
        tree.size >= 1,
        chars_within(word@, tree.alphabet_length as u32),
        2 * (word@.len() + tree.max_word_length as int) + 4 <= usize::MAX,
    ensures
        r.1@.len() >= 1,
        r.0 >= 1,
        forall|x: int|
            0 <= x < r.1@.len() ==> stores(tree.tree@, tree.size as int, (#[trigger] r.1@[x])@),
        forall|x: int|
            0 <= x < r.1@.len() ==> dl_distance(word@, (#[trigger] r.1@[x])@) <= r.0,
        forall|x1: int, x2: int|
            0 <= x1 < x2 < r.1@.len() ==> (#[trigger] r.1@[x1])@ != (#[trigger] r.1@[x2])@,
        r.0 == 1 || forall|u: Seq<char>|
            stores(tree.tree@, tree.size as int, u) && #[trigger] query_window_ok(
                tree.tree@,
                tree.size as int,
                word@,
                u,
            ) ==> dl_distance(word@, u) >= r.0,
{
    let ghost d0 = dl_distance(word@, word_at(tree.tree@, 0));
    proof {
        lemma_distance_bounds(word@, word_at(tree.tree@, 0));
    }
    let mut tolerance: usize = 1;
    loop
        invariant
            1 <= tolerance,
            tolerance <= d0 + 1,
            tolerance == 1 || forall|u: Seq<char>|
                stores(tree.tree@, tree.size as int, u) && #[trigger] query_window_ok(
                    tree.tree@,
                    tree.size as int,
                    word@,
                    u,
                ) ==> dl_distance(word@, u) >= tolerance,
        decreases d0 + 1 - tolerance,
    {
        let suggestions = tree.get_similar_words(word, tolerance);
        if suggestions.len() > 0 {
            return (tolerance, suggestions);
        }
        proof {
            assert(d0 > tolerance);
            reveal(crate::bk_tree::must_report);
            assert forall|u: Seq<char>|
                stores(tree.tree@, tree.size as int, u) && #[trigger] query_window_ok(
                    tree.tree@,
                    tree.size as int,
                    word@,
                    u,
                ) implies dl_distance(word@, u) >= tolerance + 1 by {
                if dl_distance(word@, u) <= tolerance as int {
                    assert(must_report(
                        tree.tree@,
                        tree.size as int,
                        word@,
                        tolerance as int,
                        u,
                    ));
                    assert(false);
                }
            }
        }
        tolerance += 1;
    }
}

} // verus!
