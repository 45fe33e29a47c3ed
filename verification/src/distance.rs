//! Damerau-Levenshtein edit distance.
//!
//! The distance between two strings is the minimum number of single-character
//! insertions, deletions, substitutions and adjacent transpositions that
//! transform one into the other. It is computed with the full (unrestricted)
//! dynamic program: `dl_cell(a, b, i, j)` is the distance between the length-`i`
//! prefix of `a` and the length-`j` prefix of `b`, and two auxiliary tables
//! price transpositions by the last row and column where a symbol matched.

use vstd::prelude::*;

verus! {

/// Smaller of two integers.
pub open spec fn min2(x: int, y: int) -> int {
    if x <= y {
        x
    } else {
        y
    }
}

/// Smallest of four integers.
pub open spec fn min4(x: int, y: int, z: int, w: int) -> int {
    min2(min2(x, y), min2(z, w))
}

/// The sentinel cost seeded into the boundary of the dynamic-programming
/// table: one more than any distance the table can produce, so an undefined
/// transposition lookup never wins the minimum.
pub open spec fn dl_infinity(a: Seq<char>, b: Seq<char>) -> int {
    a.len() + b.len() as int
}

/// Largest index `p` in `[1, bound)` such that `s[p - 1]` has character code
/// `code`, or 0 if there is none.
pub open spec fn last_match(s: Seq<char>, code: u32, bound: int) -> int
    decreases bound,
{
    if bound <= 1 {
        0
    } else if s[bound - 2] as u32 == code {
        bound - 1
    } else {
        last_match(s, code, bound - 1)
    }
}

proof fn lemma_last_match_bound(s: Seq<char>, code: u32, bound: int)
    ensures
        0 <= last_match(s, code, bound),
        bound >= 1 ==> last_match(s, code, bound) <= bound - 1,
        bound < 1 ==> last_match(s, code, bound) == 0,
    decreases bound,
{
    if bound > 1 {
        lemma_last_match_bound(s, code, bound - 1);
    }
}

/// Distance between the length-`i` prefix of `a` and the length-`j` prefix of
/// `b`, pricing adjacent transpositions through the last matching row `k` and
/// column `l` as `dl_cell(k - 1, l - 1) + (i - k - 1) + 1 + (j - l - 1)`.
pub open spec fn dl_cell(a: Seq<char>, b: Seq<char>, i: int, j: int) -> int
    decreases i + j via dl_cell_decreases
{
    if i <= 0 || j <= 0 {
        if i <= 0 {
            j
        } else {
            i
        }
    } else {
        let cost: int = if a[i - 1] == b[j - 1] {
            0
        } else {
            1
        };
        let k = last_match(a, b[j - 1] as u32, i);
        let l = last_match(b, a[i - 1] as u32, j);
        let trans_base = if k >= 1 && l >= 1 {
            dl_cell(a, b, k - 1, l - 1)
        } else {
            dl_infinity(a, b)
        };
        min4(
            dl_cell(a, b, i - 1, j - 1) + cost,
            dl_cell(a, b, i, j - 1) + 1,
            dl_cell(a, b, i - 1, j) + 1,
            trans_base + (i - k - 1) + 1 + (j - l - 1),
        )
    }
}

#[via_fn]
proof fn dl_cell_decreases(a: Seq<char>, b: Seq<char>, i: int, j: int) {
    if i > 0 && j > 0 {
        lemma_last_match_bound(a, b[j - 1] as u32, i);
        lemma_last_match_bound(b, a[i - 1] as u32, j);
    }
}

/// The Damerau-Levenshtein distance between `a` and `b`.
pub open spec fn dl_distance(a: Seq<char>, b: Seq<char>) -> int {
    dl_cell(a, b, a.len() as int, b.len() as int)
}

/// Every cell of the dynamic program is a non-negative integer bounded by the
/// sum of the two prefix lengths.
pub proof fn lemma_dl_cell_bounds(a: Seq<char>, b: Seq<char>, i: int, j: int)
    requires
        0 <= i,
        0 <= j,
    ensures
        0 <= dl_cell(a, b, i, j),
        dl_cell(a, b, i, j) <= i + j,
    decreases i + j,
{
    if i > 0 && j > 0 {
        let k = last_match(a, b[j - 1] as u32, i);
        let l = last_match(b, a[i - 1] as u32, j);
        lemma_last_match_bound(a, b[j - 1] as u32, i);
        lemma_last_match_bound(b, a[i - 1] as u32, j);
        lemma_dl_cell_bounds(a, b, i - 1, j - 1);
        lemma_dl_cell_bounds(a, b, i, j - 1);
        lemma_dl_cell_bounds(a, b, i - 1, j);
        if k >= 1 && l >= 1 {
            lemma_dl_cell_bounds(a, b, k - 1, l - 1);
        }
    }
}

/// The distance of two strings is bounded by the sum of their lengths.
pub proof fn lemma_distance_bounds(a: Seq<char>, b: Seq<char>)
    ensures
        0 <= dl_distance(a, b),
        dl_distance(a, b) <= a.len() + b.len(),
{
    lemma_dl_cell_bounds(a, b, a.len() as int, b.len() as int);
}

proof fn lemma_dl_cell_symmetric(a: Seq<char>, b: Seq<char>, i: int, j: int)
    requires
        0 <= i,
        0 <= j,
    ensures
        dl_cell(a, b, i, j) == dl_cell(b, a, j, i),
    decreases i + j,
{
    if i > 0 && j > 0 {
        let k = last_match(a, b[j - 1] as u32, i);
        let l = last_match(b, a[i - 1] as u32, j);
        lemma_last_match_bound(a, b[j - 1] as u32, i);
        lemma_last_match_bound(b, a[i - 1] as u32, j);
        lemma_dl_cell_symmetric(a, b, i - 1, j - 1);
        lemma_dl_cell_symmetric(a, b, i, j - 1);
        lemma_dl_cell_symmetric(a, b, i - 1, j);
        if k >= 1 && l >= 1 {
            lemma_dl_cell_symmetric(a, b, k - 1, l - 1);
        }
    }
}

/// The distance is a symmetric function of its two arguments.
pub proof fn lemma_distance_symmetric(a: Seq<char>, b: Seq<char>)
    ensures
        dl_distance(a, b) == dl_distance(b, a),
{
    lemma_dl_cell_symmetric(a, b, a.len() as int, b.len() as int);
}

proof fn lemma_dl_cell_zero(a: Seq<char>, b: Seq<char>, i: int, j: int)
    requires
        0 <= i,
        0 <= j,
    ensures
        (dl_cell(a, b, i, j) == 0) <==> (i == j && (forall|p: int|
            0 <= p < i ==> a[p] == b[p])),
    decreases i + j,
{
    if i > 0 && j > 0 {
        let k = last_match(a, b[j - 1] as u32, i);
        let l = last_match(b, a[i - 1] as u32, j);
        lemma_last_match_bound(a, b[j - 1] as u32, i);
        lemma_last_match_bound(b, a[i - 1] as u32, j);
        lemma_dl_cell_bounds(a, b, i - 1, j - 1);
        lemma_dl_cell_bounds(a, b, i, j - 1);
        lemma_dl_cell_bounds(a, b, i - 1, j);
        if k >= 1 && l >= 1 {
            lemma_dl_cell_bounds(a, b, k - 1, l - 1);
        }
        lemma_dl_cell_zero(a, b, i - 1, j - 1);
        if dl_cell(a, b, i, j) == 0 {
            assert(dl_cell(a, b, i - 1, j - 1) == 0 && a[i - 1] == b[j - 1]);
        }
    }
}

/// The distance of a string to itself is zero.
pub proof fn lemma_distance_self(a: Seq<char>)
    ensures
        dl_distance(a, a) == 0,
{
    lemma_dl_cell_zero(a, a, a.len() as int, a.len() as int);
}

/// The distance is zero exactly when the two strings are equal.
pub proof fn lemma_distance_zero_iff_equal(a: Seq<char>, b: Seq<char>)
    ensures
        (dl_distance(a, b) == 0) <==> (a == b),
{
    lemma_dl_cell_zero(a, b, a.len() as int, b.len() as int);
    if dl_distance(a, b) == 0 {
        assert(a =~= b);
    }
}

/// One instance of the triangle inequality: going from `a` to `c` costs no
/// more than going through `b`. The Damerau-Levenshtein distance satisfies
/// every instance (each edit operation is invertible at equal cost, and edit
/// sequences compose), but that theorem about the dynamic program is not
/// proved here; contracts that lean on the window pruning take the instances
/// they need as an explicit hypothesis.
pub open spec fn triangle(a: Seq<char>, b: Seq<char>, c: Seq<char>) -> bool {
    dl_distance(a, c) <= dl_distance(a, b) + dl_distance(b, c)
}

/// All characters of `s` have codes below `alphabet`.
pub open spec fn chars_within(s: Seq<char>, alphabet: u32) -> bool {
    forall|i: int| 0 <= i < s.len() ==> (s[i] as u32) < alphabet
}

/// The value the dynamic-programming table holds at row `r`, column `c`: the
/// sentinel border at row 0 and column 0, else the cell for prefix lengths
/// `r - 1` and `c - 1`.
pub open spec fn dl_table(a: Seq<char>, b: Seq<char>, r: int, c: int) -> int {
    if r == 0 || c == 0 {
        dl_infinity(a, b)
    } else {
        dl_cell(a, b, r - 1, c - 1)
    }
}

spec fn table_wf(dp: Seq<Vec<usize>>, m: int, n: int) -> bool {
    &&& dp.len() == m + 2
    &&& forall|r: int| 0 <= r < dp.len() ==> (#[trigger] dp[r])@.len() == n + 2
}

spec fn cell_ok(dp: Seq<Vec<usize>>, a: Seq<char>, b: Seq<char>, r: int, c: int) -> bool {
    dp[r]@[c] as int == dl_table(a, b, r, c)
}

/// The characters of `s`, one per vector element.
fn collect_chars(s: &str) -> (r: Vec<char>)
    ensures
        r@ == s@,
{
    let n = s.unicode_len();
    let mut r: Vec<char> = Vec::new();
    let mut i: usize = 0;
    while i < n
        invariant
            i <= n,
            n == s@.len(),
            r@ == s@.subrange(0, i as int),
        decreases n - i,
    {
        r.push(s.get_char(i));
        proof {
            assert(r@ =~= s@.subrange(0, i + 1 as int));
        }
        i += 1;
    }
    proof {
        assert(r@ =~= s@);
    }
    r
}

fn umin(x: usize, y: usize) -> (r: usize)
    ensures
        r as int == min2(x as int, y as int),
{
    if x <= y {
        x
    } else {
        y
    }
}

/// Computes the Damerau-Levenshtein distance between `a` and `b` by dynamic
/// programming over their characters, with a last-occurrence table sized by
/// `alphabet_length`.
#[verifier::loop_isolation(false)]
#[verifier::rlimit(60)]
pub fn damerau_levenshtein(a: &str, b: &str, alphabet_length: u16) -> (d: usize)
    requires
        chars_within(a@, alphabet_length as u32),
        chars_within(b@, alphabet_length as u32),
        2 * (a@.len() + b@.len()) + 4 <= usize::MAX,
    ensures
        d as int == dl_distance(a@, b@),
{
    let av = collect_chars(a);
    let bv = collect_chars(b);
    let m = av.len();
    let n = bv.len();
    let infinity: usize = m + n;

    let mut dp: Vec<Vec<usize>> = Vec::new();
    let mut r: usize = 0;
    while r < m + 2
        invariant
            r <= m + 2,
            dp@.len() == r,
            forall|p: int| 0 <= p < r ==> (#[trigger] dp@[p])@.len() == n + 2,
            forall|p: int, c: int|
                0 <= p < r && 0 <= c < n + 2 ==> (#[trigger] dp@[p]@[c]) == 0,
        decreases m + 2 - r,
    {
        let mut row: Vec<usize> = Vec::new();
        let mut c: usize = 0;
        while c < n + 2
            invariant
                c <= n + 2,
                row@.len() == c,
                forall|q: int| 0 <= q < c ==> (#[trigger] row@[q]) == 0,
            decreases n + 2 - c,
        {
            row.push(0);
            c += 1;
        }
        dp.push(row);
        r += 1;
    }

    dp[0][0] = infinity;
    let mut i: usize = 0;
    while i <= m
        invariant
            i <= m + 1,
            table_wf(dp@, m as int, n as int),
            dp@[0]@[0] == infinity,
            forall|p: int| 1 <= p < i + 1 ==> (#[trigger] dp@[p]@[1]) == p - 1,
            forall|p: int| 1 <= p < i + 1 ==> (#[trigger] dp@[p]@[0]) == infinity,
            forall|p: int, c: int|
                0 <= p < m + 2 && 2 <= c < n + 2 ==> (#[trigger] dp@[p]@[c]) == 0,
            forall|c: int| 1 <= c < n + 2 ==> (#[trigger] dp@[0]@[c]) == 0,
        decreases m + 1 - i,
    {
        dp[i + 1][1] = i;
        dp[i + 1][0] = infinity;
        i += 1;
    }
    let mut j: usize = 0;
    while j <= n
        invariant
            j <= n + 1,
            table_wf(dp@, m as int, n as int),
            dp@[0]@[0] == infinity,
            forall|p: int| 1 <= p < m + 2 ==> (#[trigger] dp@[p]@[1]) == p - 1,
            forall|p: int| 1 <= p < m + 2 ==> (#[trigger] dp@[p]@[0]) == infinity,
            forall|c: int| 1 <= c < j + 1 ==> (#[trigger] dp@[1]@[c]) == c - 1,
            forall|c: int| 1 <= c < j + 1 ==> (#[trigger] dp@[0]@[c]) == infinity,
            forall|p: int, c: int|
                2 <= p < m + 2 && 2 <= c < n + 2 ==> (#[trigger] dp@[p]@[c]) == 0,
        decreases n + 1 - j,
    {
        dp[1][j + 1] = j;
        dp[0][j + 1] = infinity;
        j += 1;
    }

    proof {
        assert forall|p: int, c: int|
            (0 <= p < 2 && 0 <= c < n + 2) || (0 <= p < m + 2 && 0 <= c < 2) implies cell_ok(
            dp@,
            a@,
            b@,
            p,
            c,
        ) by {
            if p >= 1 && c >= 1 {
                assert(dl_table(a@, b@, p, c) == dl_cell(a@, b@, p - 1, c - 1));
                lemma_dl_cell_bounds(a@, b@, p - 1, c - 1);
            }
        }
    }

    let mut da: Vec<usize> = Vec::new();
    let mut u: usize = 0;
    while u < alphabet_length as usize
        invariant
            u <= alphabet_length as usize,
            da@.len() == u,
            forall|q: int| 0 <= q < u ==> (#[trigger] da@[q]) == 0,
        decreases alphabet_length as usize - u,
    {
        da.push(0);
        u += 1;
    }

    let mut i: usize = 1;
    while i <= m
        invariant
            1 <= i <= m + 1,
            table_wf(dp@, m as int, n as int),
            da@.len() == alphabet_length as int,
            forall|q: int|
                0 <= q < da@.len() ==> (#[trigger] da@[q]) as int == last_match(
                    a@,
                    q as u32,
                    i as int,
                ),
            forall|p: int, c: int|
                0 <= p < i + 1 && 0 <= c < n + 2 ==> cell_ok(dp@, a@, b@, p, c),
            forall|p: int|
                i + 1 <= p < m + 2 ==> cell_ok(dp@, a@, b@, p, 0) && cell_ok(dp@, a@, b@, p, 1),
        decreases m + 1 - i,
    {
        let ac = av[i - 1];
        let mut db: usize = 0;
        let mut j: usize = 1;
        while j <= n
            invariant
                1 <= i <= m,
                1 <= j <= n + 1,
                ac == a@[i - 1],
                table_wf(dp@, m as int, n as int),
                da@.len() == alphabet_length as int,
                forall|q: int|
                    0 <= q < da@.len() ==> (#[trigger] da@[q]) as int == last_match(
                        a@,
                        q as u32,
                        i as int,
                    ),
                db as int == last_match(b@, a@[i - 1] as u32, j as int),
                forall|p: int, c: int|
                    0 <= p < i + 2 && 0 <= c < n + 2 && (p < i + 1 || c < j + 1) ==> cell_ok(
                        dp@,
                        a@,
                        b@,
                        p,
                        c,
                    ),
                forall|p: int|
                    i + 1 <= p < m + 2 ==> cell_ok(dp@, a@, b@, p, 0) && cell_ok(dp@, a@, b@, p, 1),
            decreases n + 1 - j,
        {
            let bc = bv[j - 1];
            let k: usize = da[(bc as u32) as usize];
            let l: usize = db;
            let cost: usize = if ac == bc {
                0
            } else {
                1
            };
            proof {
                vstd::utf8::char_u32_cast(ac, ac as u32);
                vstd::utf8::char_u32_cast(bc, bc as u32);
                lemma_last_match_bound(a@, bc as u32, i as int);
                lemma_last_match_bound(b@, ac as u32, j as int);
                lemma_dl_cell_bounds(a@, b@, i - 1, j - 1);
                lemma_dl_cell_bounds(a@, b@, i as int, j - 1);
                lemma_dl_cell_bounds(a@, b@, i - 1, j as int);
                if k >= 1 && l >= 1 {
                    lemma_dl_cell_bounds(a@, b@, k - 1, l - 1);
                }
                assert(cell_ok(dp@, a@, b@, i as int, j as int));
                assert(cell_ok(dp@, a@, b@, i + 1, j as int));
                assert(cell_ok(dp@, a@, b@, i as int, j + 1));
                assert(cell_ok(dp@, a@, b@, k as int, l as int));
            }
            db = if cost == 0 {
                j
            } else {
                db
            };
            let x1 = dp[i][j] + cost;
            let x2 = dp[i + 1][j] + 1;
            let x3 = dp[i][j + 1] + 1;
            let x4 = dp[k][l] + (i - k - 1) + 1 + (j - l - 1);
            let v = umin(umin(x1, x2), umin(x3, x4));
            let ghost dp0 = dp@;
            dp[i + 1][j + 1] = v;
            proof {
                assert(cell_ok(dp@, a@, b@, i + 1, j + 1));
                assert forall|p: int, c: int|
                    0 <= p < i + 2 && 0 <= c < n + 2 && (p < i + 1 || c < j + 2) && !(p == i + 1
                        && c == j + 1) implies cell_ok(dp@, a@, b@, p, c) by {
                    assert(cell_ok(dp0, a@, b@, p, c));
                    assert(dp@[p]@[c] == dp0[p]@[c]);
                }
                assert forall|p: int| i + 1 <= p < m + 2 implies cell_ok(dp@, a@, b@, p, 0)
                    && cell_ok(dp@, a@, b@, p, 1) by {
                    assert(cell_ok(dp0, a@, b@, p, 0));
                    assert(cell_ok(dp0, a@, b@, p, 1));
                    assert(dp@[p]@[0] == dp0[p]@[0]);
                    assert(dp@[p]@[1] == dp0[p]@[1]);
                }
            }
            j += 1;
        }
        da[(ac as u32) as usize] = i;
        proof {
            assert forall|q: int| 0 <= q < da@.len() implies (#[trigger] da@[q]) as int
                == last_match(a@, q as u32, i + 1) by {
                vstd::utf8::char_u32_cast(ac, ac as u32);
            }
        }
        i += 1;
    }

    proof {
        assert(cell_ok(dp@, a@, b@, m + 1, n + 1));
    }
    dp[m + 1][n + 1]
}

} // verus!
