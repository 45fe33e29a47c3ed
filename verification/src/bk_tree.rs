//! A BK-tree: a metric search tree over a vocabulary, keyed by
//! Damerau-Levenshtein distance.
//!
//! The tree is a preallocated arena of nodes addressed by integer indices.
//! Each node holds one word and a fixed-width table of child indices: the key
//! under which a child hangs is the exact distance, computed at insertion
//! time, between the parent's word and the child's word, and it never changes
//! afterwards. Slot 0 is the root; a tree starts with every slot empty and
//! absorbs the very first insertion directly into the root.

use crate::distance::{
    chars_within, damerau_levenshtein, dl_distance, lemma_distance_bounds,
    lemma_distance_self, lemma_distance_symmetric, lemma_distance_zero_iff_equal, triangle,
};
use vstd::prelude::*;

verus! {

/// One slot of the preallocated arena: an optional word and a fixed-width
/// table of child indices keyed by distance.
#[derive(Debug, PartialEq)]
pub struct Node {
    pub word: Option<String>,
    pub next: Vec<Option<u32>>,
}

/// The number of child slots a node needs: distances between words of at most
/// `max_word_length` characters never exceed `2 * max_word_length`.
pub open spec fn child_width(max_word_length: u16) -> int {
    2 * max_word_length + 1
}

impl Node {
    /// A fresh node holding `word`, with an empty child table wide enough for
    /// every distance between words of at most `max_word_length` characters.
    pub fn new(word: Option<String>, max_word_length: u16) -> (n: Node)
        ensures
            n.word == word,
            n.next@.len() == child_width(max_word_length),
            forall|d: int| 0 <= d < n.next@.len() ==> (#[trigger] n.next@[d]) is None,
    {
        let width = 2 * (max_word_length as usize) + 1;
        let mut next: Vec<Option<u32>> = Vec::new();
        let mut d: usize = 0;
        while d < width
            invariant
                d <= width,
                next@.len() == d,
                forall|e: int| 0 <= e < d ==> (#[trigger] next@[e]) is None,
            decreases width - d,
        {
            next.push(None);
            d += 1;
        }
        Node { word, next }
    }
}

/// The word stored at slot `i`, with an empty slot reading as the empty word.
pub open spec fn word_at(tree: Seq<Node>, i: int) -> Seq<char> {
    match tree[i].word {
        Some(w) => w@,
        None => Seq::empty(),
    }
}

/// Slot `i` has a child hanging under distance key `d`.
pub open spec fn has_edge(tree: Seq<Node>, i: int, d: int) -> bool {
    &&& 0 <= i < tree.len()
    &&& 0 <= d < tree[i].next@.len()
    &&& tree[i].next@[d] is Some
}

/// The slot that the child of `i` under key `d` occupies.
pub open spec fn edge_target(tree: Seq<Node>, i: int, d: int) -> int {
    tree[i].next@[d]->Some_0 as int
}

/// Every edge leads from a slot to a strictly higher slot: children are
/// always drawn from later arena positions than their parents.
pub open spec fn edges_increase(tree: Seq<Node>) -> bool {
    forall|i: int, d: int|
        #[trigger] has_edge(tree, i, d) ==> i < edge_target(tree, i, d) < tree.len()
}

/// No slot hangs under two different parents or under two keys at once.
pub open spec fn parents_unique(tree: Seq<Node>) -> bool {
    forall|i1: int, d1: int, i2: int, d2: int|
        #[trigger] has_edge(tree, i1, d1) && #[trigger] has_edge(tree, i2, d2)
            && edge_target(tree, i1, d1) == edge_target(tree, i2, d2) ==> i1 == i2 && d1 == d2
}

/// Slot `j` lies in the subtree rooted at slot `i`.
pub open spec fn in_subtree(tree: Seq<Node>, i: int, j: int) -> bool
    decreases tree.len() - i
        when 0 <= i < tree.len() && edges_increase(tree)
{
    i == j || exists|d: int|
        #[trigger] has_edge(tree, i, d) && in_subtree(tree, edge_target(tree, i, d), j)
}

/// The frozen key of every edge equals the distance between the parent's word
/// and the word of every node in the subtree hanging under that edge.
pub open spec fn subtree_keys_ok(tree: Seq<Node>) -> bool {
    forall|i: int, d: int, j: int|
        #[trigger] has_edge(tree, i, d) && #[trigger] in_subtree(tree, edge_target(tree, i, d), j)
            && 0 <= j < tree.len() ==> dl_distance(word_at(tree, i), word_at(tree, j)) == d
}

/// Some occupied slot below `size` holds exactly the word `w`.
pub open spec fn stores(tree: Seq<Node>, size: int, w: Seq<char>) -> bool {
    exists|j: int| 0 <= j < size && #[trigger] word_at(tree, j) == w
}

/// The triangle-inequality instances the window pruning relies on while
/// searching for `u` from query `q`: every stored word `x` satisfies both
/// `d(x,u) <= d(x,q) + d(q,u)` and `d(q,x) <= d(q,u) + d(u,x)`. The
/// Damerau-Levenshtein distance satisfies all of them, but that theorem about
/// the dynamic program is not proved here, so contracts take the instances as
/// an explicit hypothesis.
pub open spec fn query_window_ok(tree: Seq<Node>, size: int, q: Seq<char>, u: Seq<char>) -> bool {
    forall|x: int|
        0 <= x < size ==> triangle(#[trigger] word_at(tree, x), q, u) && triangle(
            q,
            u,
            word_at(tree, x),
        )
}

/// A word the range query is bound to report: stored, within tolerance of
/// the query, with the pruning's triangle instances available.
#[verifier::opaque]
pub open spec fn must_report(tree: Seq<Node>, size: int, q: Seq<char>, tol: int, u: Seq<char>) -> bool {
    &&& stores(tree, size, u)
    &&& dl_distance(q, u) <= tol
    &&& query_window_ok(tree, size, q, u)
}

/// The key under which the search for `u` would leave the slot `cur`: the
/// distance from that slot's word to `u`.
#[verifier::opaque]
spec fn pending_key(tree: Seq<Node>, cur: int, u: Seq<char>) -> int {
    dl_distance(word_at(tree, cur), u)
}

/// The word `w` belongs to a slot that the traversal has already visited.
spec fn reported_from_visited(tree: Seq<Node>, size: int, visited: Set<int>, w: Seq<char>) -> bool {
    exists|j: int| #[trigger] visited.contains(j) && 0 <= j < size && w == word_at(tree, j)
}

/// Searching for the query word itself needs only trivial triangle
/// instances, which hold because the distance of a word to itself is zero.
proof fn lemma_query_window_self(tree: Seq<Node>, size: int, q: Seq<char>)
    ensures
        query_window_ok(tree, size, q, q),
{
    lemma_distance_self(q);
    assert forall|x: int|
        0 <= x < size implies triangle(#[trigger] word_at(tree, x), q, q) && triangle(
        q,
        q,
        word_at(tree, x),
    ) by {}
}

proof fn lemma_in_subtree_range(tree: Seq<Node>, i: int, j: int)
    requires
        edges_increase(tree),
        0 <= i < tree.len(),
        in_subtree(tree, i, j),
    ensures
        i <= j < tree.len(),
    decreases tree.len() - i,
{
    if i != j {
        let d = choose|d: int|
            #[trigger] has_edge(tree, i, d) && in_subtree(tree, edge_target(tree, i, d), j);
        lemma_in_subtree_range(tree, edge_target(tree, i, d), j);
    }
}

proof fn lemma_in_subtree_step(tree: Seq<Node>, i: int, d: int, j: int)
    requires
        edges_increase(tree),
        has_edge(tree, i, d),
        in_subtree(tree, edge_target(tree, i, d), j),
    ensures
        in_subtree(tree, i, j),
{
}

/// A node whose subtree contains the child hanging under `(p, d)` either is
/// that child or holds the parent `p` in its subtree: the child has no other
/// way in, because no slot hangs under two parents.
proof fn lemma_subtree_through_parent(tree: Seq<Node>, p: int, d: int, i: int)
    requires
        edges_increase(tree),
        parents_unique(tree),
        has_edge(tree, p, d),
        0 <= i < tree.len(),
        in_subtree(tree, i, edge_target(tree, p, d)),
    ensures
        i == edge_target(tree, p, d) || in_subtree(tree, i, p),
    decreases tree.len() - i,
{
    let c = edge_target(tree, p, d);
    if i != c {
        let e = choose|e: int|
            #[trigger] has_edge(tree, i, e) && in_subtree(tree, edge_target(tree, i, e), c);
        let m = edge_target(tree, i, e);
        lemma_subtree_through_parent(tree, p, d, m);
        if m == c {
            assert(i == p && e == d);
        } else {
            lemma_in_subtree_step(tree, i, e, p);
        }
    }
}

/// Adding one edge from `cur` (under key `d`) to the previously untouched
/// slot `s`, and writing a word into `s`, changes reachability in exactly one
/// way: old nodes reach each other as before, and a node reaches `s` exactly
/// when it is `s` or could already reach `cur`.
proof fn lemma_insert_frame(t0: Seq<Node>, t1: Seq<Node>, cur: int, d: int, s: int, i: int, j: int)
    requires
        t0.len() == t1.len(),
        t0.len() <= u32::MAX as int,
        0 <= cur < s < t0.len(),
        forall|x: int| 0 <= x < t0.len() && x != cur && x != s ==> t1[x] == t0[x],
        t1[cur].next@ =~= t0[cur].next@.update(d, Some(s as u32)),
        t1[s].next@ == t0[s].next@,
        0 <= d < t0[cur].next@.len(),
        t0[cur].next@[d] is None,
        edges_increase(t0),
        edges_increase(t1),
        forall|e: int| 0 <= e < t0[s].next@.len() ==> (#[trigger] t0[s].next@[e]) is None,
        forall|x: int, e: int| #[trigger] has_edge(t0, x, e) ==> edge_target(t0, x, e) != s,
        0 <= i < t0.len(),
    ensures
        j != s ==> (in_subtree(t1, i, j) <==> in_subtree(t0, i, j)),
        in_subtree(t1, i, s) <==> (i == s || in_subtree(t0, i, cur)),
    decreases t0.len() - i,
{
    assert forall|e: int| !has_edge(t1, s, e) by {}
    if j != s {
        if in_subtree(t0, i, j) && i != j {
            let e = choose|e: int|
                #[trigger] has_edge(t0, i, e) && in_subtree(t0, edge_target(t0, i, e), j);
            let m = edge_target(t0, i, e);
            lemma_insert_frame(t0, t1, cur, d, s, m, j);
            assert(has_edge(t1, i, e) && edge_target(t1, i, e) == m);
        }
        if in_subtree(t1, i, j) && i != j {
            let e = choose|e: int|
                #[trigger] has_edge(t1, i, e) && in_subtree(t1, edge_target(t1, i, e), j);
            let m = edge_target(t1, i, e);
            if i == cur && e == d {
                assert(m == s);
                assert(in_subtree(t1, s, j));
                assert(false);
            } else {
                assert(has_edge(t0, i, e) && edge_target(t0, i, e) == m);
                lemma_insert_frame(t0, t1, cur, d, s, m, j);
                lemma_in_subtree_step(t0, i, e, j);
            }
        }
    }
    if i == s {
        assert(in_subtree(t1, s, s));
    } else {
        if in_subtree(t0, i, cur) {
            if i == cur {
                assert(has_edge(t1, cur, d) && edge_target(t1, cur, d) == s);
                assert(in_subtree(t1, s, s));
                lemma_in_subtree_step(t1, cur, d, s);
            } else {
                let e = choose|e: int|
                    #[trigger] has_edge(t0, i, e) && in_subtree(t0, edge_target(t0, i, e), cur);
                let m = edge_target(t0, i, e);
                lemma_insert_frame(t0, t1, cur, d, s, m, j);
                assert(in_subtree(t1, m, s));
                assert(has_edge(t1, i, e) && edge_target(t1, i, e) == m);
                lemma_in_subtree_step(t1, i, e, s);
            }
        }
        if in_subtree(t1, i, s) {
            let e = choose|e: int|
                #[trigger] has_edge(t1, i, e) && in_subtree(t1, edge_target(t1, i, e), s);
            let m = edge_target(t1, i, e);
            if i == cur && e == d {
                assert(in_subtree(t0, cur, cur));
            } else {
                assert(has_edge(t0, i, e) && edge_target(t0, i, e) == m);
                assert(m != s);
                lemma_insert_frame(t0, t1, cur, d, s, m, j);
                assert(in_subtree(t0, m, cur));
                lemma_in_subtree_step(t0, i, e, cur);
            }
        }
    }
}

/// Why an insertion was rejected: the word does not fit the tree's
/// configuration, or every preallocated slot is already occupied.
#[derive(Debug, PartialEq, Eq, Clone, Copy)]
pub enum CapacityError {
    /// The word has more characters than the configured maximum word length.
    WordTooLong,
    /// A character's code is not below the configured alphabet length.
    CharOutOfAlphabet,
    /// The word is new but the preallocated arena has no free slot left.
    TreeFull,
}

/// A metric search tree: a preallocated arena of nodes, a `size` counter for
/// the next free slot, and the configuration the distance function needs.
#[derive(Debug, PartialEq)]
pub struct BKTree {
    pub max_word_length: u16,
    pub alphabet_length: u16,
    pub tree: Vec<Node>,
    pub size: u32,
}

impl BKTree {
    /// Number of preallocated node slots.
    pub open spec fn capacity(self) -> int {
        self.tree@.len() as int
    }

    /// Structural soundness of the arena: occupied slots sit below `size`,
    /// every child table has the full width, edges point forward to occupied
    /// slots under a key of at least 1, no slot has two parents, every edge
    /// key equals the distance from the parent's word to every word in the
    /// subtree under it, every occupied slot is reachable from the root, and
    /// every stored word respects the configured length and alphabet.
    pub open spec fn wf(self) -> bool {
        &&& self.size as int <= self.tree@.len()
        &&& self.tree@.len() <= u32::MAX as int
        &&& forall|i: int|
            0 <= i < self.tree@.len() ==> (#[trigger] self.tree@[i]).next@.len() == child_width(
                self.max_word_length,
            )
        &&& forall|i: int| 0 <= i < self.size as int ==> (#[trigger] self.tree@[i]).word is Some
        &&& forall|i: int|
            self.size as int <= i < self.tree@.len() ==> (#[trigger] self.tree@[i]).word is None
        &&& forall|i: int, d: int|
            self.size as int <= i < self.tree@.len() && 0 <= d < self.tree@[i].next@.len() ==> (
            #[trigger] self.tree@[i].next@[d]) is None
        &&& forall|i: int, d: int|
            #[trigger] has_edge(self.tree@, i, d) ==> 0 <= i < self.size as int && 1 <= d
                && i < edge_target(self.tree@, i, d) < self.size as int
        &&& forall|i: int|
            0 <= i < self.size as int ==> (#[trigger] word_at(self.tree@, i)).len()
                <= self.max_word_length as int
        &&& forall|i: int|
            0 <= i < self.size as int ==> chars_within(
                #[trigger] word_at(self.tree@, i),
                self.alphabet_length as u32,
            )
        &&& parents_unique(self.tree@)
        &&& subtree_keys_ok(self.tree@)
        &&& forall|j: int| 0 <= j < self.size as int ==> in_subtree(self.tree@, 0, j)
    }

    /// The set of words the tree stores.
    pub open spec fn words(self) -> Set<Seq<char>> {
        Set::new(|w: Seq<char>| stores(self.tree@, self.size as int, w))
    }

    /// What an exact lookup finds: a stored word, or the empty word while the
    /// root is still absent (the absent root compares as the empty word).
    pub open spec fn spec_contains(self, w: Seq<char>) -> bool {
        stores(self.tree@, self.size as int, w) || (self.size == 0 && w.len() == 0)
    }

    /// A new tree: `max_words` empty slots, each child table sized for the
    /// configured maximum word length, with nothing stored yet.
    pub fn new(max_word_length: u16, alphabet_length: u16, max_words: usize) -> (t: BKTree)
        requires
            max_words <= u32::MAX,
        ensures
            t.wf(),
            t.max_word_length == max_word_length,
            t.alphabet_length == alphabet_length,
            t.capacity() == max_words,
            t.size == 0,
            t.words() == Set::<Seq<char>>::empty(),
    {
        let mut tree: Vec<Node> = Vec::new();
        let mut i: usize = 0;
        while i < max_words
            invariant
                i <= max_words,
                tree@.len() == i,
                forall|p: int| 0 <= p < i ==> (#[trigger] tree@[p]).word is None,
                forall|p: int|
                    0 <= p < i ==> (#[trigger] tree@[p]).next@.len() == child_width(
                        max_word_length,
                    ),
                forall|p: int, d: int|
                    0 <= p < i && 0 <= d < tree@[p].next@.len() ==> (#[trigger] tree@[p].next@[d])
                        is None,
            decreases max_words - i,
        {
            tree.push(Node::new(None, max_word_length));
            i += 1;
        }
        let t = BKTree { max_word_length, alphabet_length, tree, size: 0 };
        proof {
            assert forall|i2: int, d: int| !has_edge(t.tree@, i2, d) by {}
            assert(t.words() =~= Set::<Seq<char>>::empty());
        }
        t
    }

    /// The subtree rooted at slot `i` holds an occupied slot whose word is `w`.
    pub open spec fn found_from(self, i: int, w: Seq<char>) -> bool {
        exists|j: int|
            0 <= j < self.size as int && #[trigger] in_subtree(self.tree@, i, j) && word_at(
                self.tree@,
                j,
            ) == w
    }

    /// Exact membership: the tree stores `w` if and only if the root's
    /// subtree holds it, because every occupied slot hangs under the root.
    proof fn lemma_stores_iff_found_from_root(self, w: Seq<char>)
        requires
            self.wf(),
            self.size >= 1,
        ensures
            stores(self.tree@, self.size as int, w) <==> self.found_from(0, w),
    {
        if stores(self.tree@, self.size as int, w) {
            let j = choose|j: int|
                0 <= j < self.size as int && #[trigger] word_at(self.tree@, j) == w;
            assert(in_subtree(self.tree@, 0, j));
        }
    }

    /// One step of the deterministic descent: when the current slot's word is
    /// not `w`, the subtree holds `w` exactly when the child keyed by the
    /// distance from the current word to `w` exists and its subtree holds `w`.
    proof fn lemma_search_step(self, cur: int, w: Seq<char>)
        requires
            self.wf(),
            0 <= cur < self.size as int,
            word_at(self.tree@, cur) != w,
        ensures
            self.found_from(cur, w) <==> (has_edge(
                self.tree@,
                cur,
                dl_distance(word_at(self.tree@, cur), w),
            ) && self.found_from(
                edge_target(self.tree@, cur, dl_distance(word_at(self.tree@, cur), w)),
                w,
            )),
    {
        let t = self.tree@;
        let d = dl_distance(word_at(t, cur), w);
        if self.found_from(cur, w) {
            let j = choose|j: int|
                0 <= j < self.size as int && #[trigger] in_subtree(t, cur, j) && word_at(t, j)
                    == w;
            assert(j != cur);
            let e = choose|e: int|
                #[trigger] has_edge(t, cur, e) && in_subtree(t, edge_target(t, cur, e), j);
            assert(dl_distance(word_at(t, cur), word_at(t, j)) == e);
            assert(e == d);
        }
        if has_edge(t, cur, d) && self.found_from(edge_target(t, cur, d), w) {
            let c = edge_target(t, cur, d);
            let j = choose|j: int|
                0 <= j < self.size as int && #[trigger] in_subtree(t, c, j) && word_at(t, j) == w;
            lemma_in_subtree_step(t, cur, d, j);
        }
    }

    proof fn lemma_words_injective_from(self, i: int, j1: int, j2: int)
        requires
            self.wf(),
            0 <= i < self.size as int,
            0 <= j1 < self.size as int,
            0 <= j2 < self.size as int,
            in_subtree(self.tree@, i, j1),
            in_subtree(self.tree@, i, j2),
            word_at(self.tree@, j1) == word_at(self.tree@, j2),
        ensures
            j1 == j2,
        decreases self.tree@.len() - i,
    {
        let t = self.tree@;
        if j1 == i && j2 == i {
        } else if j1 == i {
            let e = choose|e: int|
                #[trigger] has_edge(t, i, e) && in_subtree(t, edge_target(t, i, e), j2);
            assert(dl_distance(word_at(t, i), word_at(t, j2)) == e);
            lemma_distance_zero_iff_equal(word_at(t, i), word_at(t, j2));
        } else if j2 == i {
            let e = choose|e: int|
                #[trigger] has_edge(t, i, e) && in_subtree(t, edge_target(t, i, e), j1);
            assert(dl_distance(word_at(t, i), word_at(t, j1)) == e);
            lemma_distance_zero_iff_equal(word_at(t, i), word_at(t, j1));
        } else {
            let e1 = choose|e: int|
                #[trigger] has_edge(t, i, e) && in_subtree(t, edge_target(t, i, e), j1);
            let e2 = choose|e: int|
                #[trigger] has_edge(t, i, e) && in_subtree(t, edge_target(t, i, e), j2);
            assert(dl_distance(word_at(t, i), word_at(t, j1)) == e1);
            assert(dl_distance(word_at(t, i), word_at(t, j2)) == e2);
            assert(e1 == e2);
            self.lemma_words_injective_from(edge_target(t, i, e1), j1, j2);
        }
    }

    /// Distinct occupied slots hold distinct words: a repeated word would
    /// have to hang under an edge keyed by distance 0, and every key is at
    /// least 1.
    proof fn lemma_words_injective(self, j1: int, j2: int)
        requires
            self.wf(),
            0 <= j1 < self.size as int,
            0 <= j2 < self.size as int,
        ensures
            word_at(self.tree@, j1) == word_at(self.tree@, j2) ==> j1 == j2,
    {
        if word_at(self.tree@, j1) == word_at(self.tree@, j2) {
            assert(in_subtree(self.tree@, 0, j1));
            assert(in_subtree(self.tree@, 0, j2));
            self.lemma_words_injective_from(0, j1, j2);
        }
    }

    /// Exact membership test: descends from the root, following at each slot
    /// the child keyed by the distance from that slot's word to `word`.
    pub fn does_contain(&self, word: &str) -> (r: bool)
        requires
            self.wf(),
            chars_within(word@, self.alphabet_length as u32),
            2 * (word@.len() + self.max_word_length as int) + 4 <= usize::MAX,
        ensures
            r == self.spec_contains(word@),
    {
        if self.size == 0 {
            return word.unicode_len() == 0;
        }
        let empty = String::new();
        let mut cur: usize = 0;
        proof {
            self.lemma_stores_iff_found_from_root(word@);
        }
        loop
            invariant
                self.wf(),
                self.size >= 1,
                chars_within(word@, self.alphabet_length as u32),
                2 * (word@.len() + self.max_word_length as int) + 4 <= usize::MAX,
                0 <= cur < self.size as int,
                self.spec_contains(word@) <==> self.found_from(cur as int, word@),
            decreases self.size - cur,
        {
            let cur_word: &String = match &self.tree[cur].word {
                Some(x) => x,
                None => &empty,
            };
            proof {
                assert(cur_word@ == word_at(self.tree@, cur as int));
            }
            let d = damerau_levenshtein(cur_word.as_str(), word, self.alphabet_length);
            if d == 0 {
                proof {
                    lemma_distance_zero_iff_equal(word_at(self.tree@, cur as int), word@);
                    assert(in_subtree(self.tree@, cur as int, cur as int));
                }
                return true;
            }
            proof {
                lemma_distance_zero_iff_equal(word_at(self.tree@, cur as int), word@);
                self.lemma_search_step(cur as int, word@);
            }
            if d < self.tree[cur].next.len() {
                match self.tree[cur].next[d] {
                    Some(n) => {
                        proof {
                            assert(has_edge(self.tree@, cur as int, d as int));
                            assert(edge_target(self.tree@, cur as int, d as int) == n as int);
                        }
                        cur = n as usize;
                    },
                    None => {
                        return false;
                    },
                }
            } else {
                proof {
                    assert(!has_edge(self.tree@, cur as int, d as int));
                }
                return false;
            }
        }
    }

    /// Inserts `word`, descending from the root along the child keyed by the
    /// distance at each slot; a word already present is left alone, a new one
    /// takes the next free slot and hangs under the slot where the descent
    /// met a missing child. Rejects words that break the configuration, and
    /// reports a full arena.
    #[verifier::loop_isolation(false)]
    pub fn add(&mut self, word: &str) -> (r: Result<(), CapacityError>)
        requires
            old(self).wf(),
        ensures
            final(self).wf(),
            final(self).max_word_length == old(self).max_word_length,
            final(self).alphabet_length == old(self).alphabet_length,
            final(self).capacity() == old(self).capacity(),
            r == Ok::<(), CapacityError>(()) <==> (word@.len() <= old(self).max_word_length as int
                && chars_within(word@, old(self).alphabet_length as u32) && (old(
                self,
            ).spec_contains(word@) || old(self).size < old(self).capacity())),
            r == Err::<(), CapacityError>(CapacityError::WordTooLong) <==> word@.len() > old(
                self,
            ).max_word_length as int,
            r == Err::<(), CapacityError>(CapacityError::CharOutOfAlphabet) <==> (word@.len()
                <= old(self).max_word_length as int && !chars_within(
                word@,
                old(self).alphabet_length as u32,
            )),
            r is Err ==> *final(self) == *old(self),
            r is Ok ==> final(self).spec_contains(word@),
            r is Ok && old(self).spec_contains(word@) ==> *final(self) == *old(self),
            r is Ok && !old(self).spec_contains(word@) ==> final(self).size == old(self).size + 1
                && final(self).words() == old(self).words().insert(word@),
            r is Ok && !old(self).spec_contains(word@) ==> word_at(
                final(self).tree@,
                old(self).size as int,
            ) == word@,
            r is Ok && !old(self).spec_contains(word@) ==> forall|j: int|
                0 <= j < final(self).tree@.len() && j != old(self).size as int
                    ==> (#[trigger] final(self).tree@[j]).word == old(self).tree@[j].word,
            r is Ok && !old(self).spec_contains(word@) && old(self).size == 0 ==> forall|j: int|
                0 <= j < final(self).tree@.len() ==> (#[trigger] final(self).tree@[j]).next@
                    == old(self).tree@[j].next@,
            r is Ok && !old(self).spec_contains(word@) && old(self).size >= 1 ==> exists|
                p: int,
                e: int,
            |
                0 <= p < old(self).size as int && 1 <= e && e == dl_distance(
                    word_at(old(self).tree@, p),
                    word@,
                ) && (#[trigger] old(self).tree@[p].next@[e]) is None && final(self).tree@[p].next@
                    == old(self).tree@[p].next@.update(e, Some(old(self).size as u32)) && (forall|
                    j: int,
                |
                    0 <= j < final(self).tree@.len() && j != p ==> (#[trigger] final(self).tree@[j]).next@ == old(self).tree@[j].next@),
    {
        let wlen = word.unicode_len();
        if wlen > self.max_word_length as usize {
            return Err(CapacityError::WordTooLong);
        }
        let mut ci: usize = 0;
        while ci < wlen
            invariant
                ci <= wlen,
                wlen == word@.len(),
                forall|p: int| 0 <= p < ci ==> (word@[p] as u32) < self.alphabet_length as u32,
            decreases wlen - ci,
        {
            let c = word.get_char(ci);
            if c as u32 >= self.alphabet_length as u32 {
                return Err(CapacityError::CharOutOfAlphabet);
            }
            ci += 1;
        }
        proof {
            assert(chars_within(word@, self.alphabet_length as u32));
        }

        if self.size == 0 {
            if wlen == 0 {
                proof {
                    assert(self.spec_contains(word@));
                }
                return Ok(());
            }
            if self.tree.len() == 0 {
                return Err(CapacityError::TreeFull);
            }
            let ghost t0 = self.tree@;
            self.tree[0].word = Some(word.to_owned());
            self.size = 1;
            proof {
                let t1 = self.tree@;
                assert forall|x: int, e: int| !has_edge(t1, x, e) by {
                    if 0 <= x < t1.len() && 0 <= e < t1[x].next@.len() {
                        assert(t1[x].next@[e] == t0[x].next@[e]);
                        assert(!has_edge(t0, x, e));
                    }
                }
                assert(word_at(t1, 0) == word@);
                assert(in_subtree(t1, 0, 0));
                assert(self.wf());
                assert(self.words() =~= old(self).words().insert(word@));
            }
            return Ok(());
        }

        proof {
            self.lemma_stores_iff_found_from_root(word@);
            assert(in_subtree(self.tree@, 0, 0));
            assert forall|x: int, e: int|
                #[trigger] has_edge(self.tree@, x, e) && in_subtree(
                    self.tree@,
                    edge_target(self.tree@, x, e),
                    0,
                ) implies dl_distance(word_at(self.tree@, x), word@) == e by {
                lemma_in_subtree_range(self.tree@, edge_target(self.tree@, x, e), 0);
            }
        }
        let empty = String::new();
        let mut cur: usize = 0;
        loop
            invariant
                *self == *old(self),
                self.wf(),
                self.size >= 1,
                wlen == word@.len(),
                wlen <= self.max_word_length as usize,
                chars_within(word@, self.alphabet_length as u32),
                0 <= cur < self.size as int,
                old(self).spec_contains(word@) <==> self.found_from(cur as int, word@),
                in_subtree(self.tree@, 0, cur as int),
                forall|x: int, e: int|
                    #[trigger] has_edge(self.tree@, x, e) && in_subtree(
                        self.tree@,
                        edge_target(self.tree@, x, e),
                        cur as int,
                    ) ==> dl_distance(word_at(self.tree@, x), word@) == e,
            decreases self.size - cur,
        {
            let cur_word: &String = match &self.tree[cur].word {
                Some(x) => x,
                None => &empty,
            };
            proof {
                assert(cur_word@ == word_at(self.tree@, cur as int));
            }
            let d = damerau_levenshtein(cur_word.as_str(), word, self.alphabet_length);
            proof {
                lemma_distance_zero_iff_equal(word_at(self.tree@, cur as int), word@);
                lemma_distance_bounds(word_at(self.tree@, cur as int), word@);
            }
            if d == 0 {
                return Ok(());
            }
            proof {
                self.lemma_search_step(cur as int, word@);
            }
            match self.tree[cur].next[d] {
                Some(n) => {
                    proof {
                        assert(has_edge(self.tree@, cur as int, d as int));
                        assert(edge_target(self.tree@, cur as int, d as int) == n as int);
                        assert forall|x: int, e: int|
                            #[trigger] has_edge(self.tree@, x, e) && in_subtree(
                                self.tree@,
                                edge_target(self.tree@, x, e),
                                n as int,
                            ) implies dl_distance(word_at(self.tree@, x), word@) == e by {
                            lemma_subtree_through_parent(
                                self.tree@,
                                cur as int,
                                d as int,
                                edge_target(self.tree@, x, e),
                            );
                        }
                    }
                    cur = n as usize;
                },
                None => {
                    proof {
                        assert(!has_edge(self.tree@, cur as int, d as int));
                        assert(!old(self).spec_contains(word@));
                    }
                    if self.size as usize == self.tree.len() {
                        return Err(CapacityError::TreeFull);
                    }
                    let s = self.size as usize;
                    let sz = self.size;
                    let ghost t0 = self.tree@;
                    self.tree[cur].next[d] = Some(sz);
                    self.tree[s].word = Some(word.to_owned());
                    self.size = sz + 1;
                    proof {
                        self.lemma_link_restores_wf(
                            *old(self),
                            t0,
                            cur as int,
                            d as int,
                            s as int,
                            word@,
                        );
                    }
                    return Ok(());
                },
            }
        }
    }

    /// After the descent stopped at `cur` with a missing child under key `d`
    /// (the distance from `cur`'s word to `w`), linking the fresh slot `s`
    /// there and writing `w` into it yields a well-formed tree that stores
    /// exactly the old words plus `w`.
    proof fn lemma_link_restores_wf(
        self,
        prev: BKTree,
        t0: Seq<Node>,
        cur: int,
        d: int,
        s: int,
        w: Seq<char>,
    )
        requires
            prev.wf(),
            prev.size >= 1,
            t0 == prev.tree@,
            s == prev.size as int,
            s < t0.len(),
            0 <= cur < s,
            self.max_word_length == prev.max_word_length,
            self.alphabet_length == prev.alphabet_length,
            self.size == prev.size + 1,
            self.tree@.len() == t0.len(),
            forall|x: int| 0 <= x < t0.len() && x != cur && x != s ==> self.tree@[x] == t0[x],
            self.tree@[cur].word == t0[cur].word,
            self.tree@[cur].next@ =~= t0[cur].next@.update(d, Some(s as u32)),
            self.tree@[s].word is Some,
            self.tree@[s].word->Some_0@ == w,
            self.tree@[s].next@ == t0[s].next@,
            1 <= d < t0[cur].next@.len(),
            t0[cur].next@[d] is None,
            d == dl_distance(word_at(t0, cur), w),
            w.len() <= prev.max_word_length as int,
            chars_within(w, prev.alphabet_length as u32),
            !stores(t0, s, w),
            in_subtree(t0, 0, cur),
            forall|x: int, e: int|
                #[trigger] has_edge(t0, x, e) && in_subtree(t0, edge_target(t0, x, e), cur)
                    ==> dl_distance(word_at(t0, x), w) == e,
        ensures
            self.wf(),
            self.spec_contains(w),
            self.words() == prev.words().insert(w),
    {
        let t1 = self.tree@;
        assert forall|x: int, e: int| #[trigger] has_edge(t1, x, e) implies ((x == cur && e == d
            && edge_target(t1, x, e) == s) || (has_edge(t0, x, e) && edge_target(t1, x, e)
            == edge_target(t0, x, e))) by {
            if x == s {
                assert(!has_edge(t0, s, e));
                assert(t1[s].next@[e] == t0[s].next@[e]);
            } else if x == cur {
                if e != d {
                    assert(t1[cur].next@[e] == t0[cur].next@[e]);
                }
            } else {
                assert(t1[x] == t0[x]);
            }
        }
        assert forall|x: int, e: int| #[trigger] has_edge(t0, x, e) implies (has_edge(t1, x, e)
            && edge_target(t1, x, e) == edge_target(t0, x, e)) by {
            if x == cur {
                assert(e != d);
                assert(t1[cur].next@[e] == t0[cur].next@[e]);
            } else if x == s {
                assert(false);
            } else {
                assert(t1[x] == t0[x]);
            }
        }
        assert forall|x: int| 0 <= x < t1.len() && x != s implies word_at(t1, x) == word_at(
            t0,
            x,
        ) by {
            if x == cur {
                assert(t1[cur].word == t0[cur].word);
            }
        }
        assert(word_at(t1, s) == w);
        assert(edges_increase(t0));
        assert(edges_increase(t1));
        assert forall|x: int, e: int| #[trigger] has_edge(t0, x, e) implies edge_target(t0, x, e)
            != s by {}
        assert(parents_unique(t1));

        assert forall|x: int, e: int, j: int|
            #[trigger] has_edge(t1, x, e) && #[trigger] in_subtree(
                t1,
                edge_target(t1, x, e),
                j,
            ) && 0 <= j < t1.len() implies dl_distance(word_at(t1, x), word_at(t1, j)) == e by {
            if x == cur && e == d {
                assert(edge_target(t1, x, e) == s);
                lemma_insert_frame(t0, t1, cur, d, s, s, j);
                if j != s {
                    assert(in_subtree(t1, s, j));
                    assert(j == s);
                } else {
                    assert(word_at(t1, cur) == word_at(t0, cur));
                }
            } else {
                assert(has_edge(t0, x, e));
                let m = edge_target(t0, x, e);
                assert(0 <= m < t0.len());
                if j == s {
                    lemma_insert_frame(t0, t1, cur, d, s, m, j);
                    assert(m == s || in_subtree(t0, m, cur));
                    assert(dl_distance(word_at(t0, x), w) == e);
                } else {
                    lemma_insert_frame(t0, t1, cur, d, s, m, j);
                    assert(in_subtree(t0, m, j));
                }
            }
        }

        assert forall|j: int| 0 <= j < self.size as int implies in_subtree(t1, 0, j) by {
            lemma_insert_frame(t0, t1, cur, d, s, 0, j);
            if j == s {
                assert(in_subtree(t0, 0, cur));
            } else {
                assert(in_subtree(t0, 0, j));
            }
        }
        assert(self.size as int <= self.tree@.len());
        assert forall|i: int|
            0 <= i < self.tree@.len() implies (#[trigger] self.tree@[i]).next@.len() == child_width(
            self.max_word_length,
        ) by {
            if i != cur && i != s {
                assert(t1[i] == t0[i]);
            } else if i == cur {
                assert(t1[cur].next@.len() == t0[cur].next@.update(d, Some(s as u32)).len());
            }
        }
        assert forall|i: int|
            0 <= i < self.size as int implies (#[trigger] self.tree@[i]).word is Some by {
            if i != cur && i != s {
                assert(t1[i] == t0[i]);
            }
        }
        assert forall|i: int|
            self.size as int <= i < self.tree@.len() implies (#[trigger] self.tree@[i]).word
            is None by {
            assert(t1[i] == t0[i]);
        }
        assert forall|i: int, e: int|
            self.size as int <= i < self.tree@.len() && 0 <= e < self.tree@[i].next@.len() implies (
        #[trigger] self.tree@[i].next@[e]) is None by {
            assert(t1[i] == t0[i]);
        }
        assert(forall|i: int, e: int|
            #[trigger] has_edge(t1, i, e) ==> 0 <= i < self.size as int && 1 <= e && i
                < edge_target(t1, i, e) < self.size as int);
        assert(forall|i: int|
            0 <= i < self.size as int ==> (#[trigger] word_at(t1, i)).len()
                <= self.max_word_length as int);
        assert(forall|i: int|
            0 <= i < self.size as int ==> chars_within(
                #[trigger] word_at(t1, i),
                self.alphabet_length as u32,
            ));
        assert(self.wf());
        assert(stores(t1, self.size as int, w));
        assert forall|v: Seq<char>| #[trigger] stores(t1, self.size as int, v) <==> (stores(
            t0,
            prev.size as int,
            v,
        ) || v == w) by {
            if stores(t1, self.size as int, v) {
                let j = choose|j: int|
                    0 <= j < self.size as int && #[trigger] word_at(t1, j) == v;
                if j != s {
                    assert(word_at(t0, j) == v);
                }
            }
            if stores(t0, prev.size as int, v) {
                let j = choose|j: int| 0 <= j < prev.size as int && #[trigger] word_at(t0, j) == v;
                assert(word_at(t1, j) == v);
            }
            if v == w {
                assert(word_at(t1, s) == v);
            }
        }
        assert(self.words() =~= prev.words().insert(w));
    }

    /// An empty tree stores nothing, so nothing is bound to be reported.
    proof fn lemma_nothing_to_report_when_empty(self, q: Seq<char>, tol: int)
        requires
            self.size == 0,
        ensures
            forall|u: Seq<char>|
                !#[trigger] must_report(self.tree@, self.size as int, q, tol, u),
    {
        reveal(must_report);
    }

    /// Every word reported from a visited slot is a stored word.
    proof fn lemma_reported_words_stored(self, visited: Set<int>, result: Seq<String>)
        requires
            forall|x: int|
                0 <= x < result.len() ==> reported_from_visited(
                    self.tree@,
                    self.size as int,
                    visited,
                    (#[trigger] result[x])@,
                ),
        ensures
            forall|x: int|
                0 <= x < result.len() ==> stores(
                    self.tree@,
                    self.size as int,
                    (#[trigger] result[x])@,
                ),
    {
        assert forall|x: int|
            0 <= x < result.len() implies stores(
            self.tree@,
            self.size as int,
            (#[trigger] result[x])@,
        ) by {
            let j = choose|j: int|
                #[trigger] visited.contains(j) && 0 <= j < self.size as int && result[x]@
                    == word_at(self.tree@, j);
            assert(word_at(self.tree@, j) == result[x]@);
        }
    }

    /// Every word the query is bound to report lies in the root's subtree.
    proof fn lemma_all_found_from_root(self, q: Seq<char>, tol: int)
        requires
            self.wf(),
            self.size >= 1,
        ensures
            forall|u: Seq<char>|
                #[trigger] must_report(self.tree@, self.size as int, q, tol, u)
                    ==> self.found_from(0, u),
    {
        reveal(must_report);
        assert forall|u: Seq<char>|
            #[trigger] must_report(self.tree@, self.size as int, q, tol, u) implies self.found_from(
            0,
            u,
        ) by {
            self.lemma_stores_iff_found_from_root(u);
        }
    }

    /// A stored query word is itself bound to be reported: its distance to
    /// itself is zero and its triangle instances hold trivially.
    proof fn lemma_must_report_self(self, q: Seq<char>, tol: int)
        requires
            stores(self.tree@, self.size as int, q),
            tol >= 0,
        ensures
            must_report(self.tree@, self.size as int, q, tol, q),
    {
        reveal(must_report);
        lemma_distance_self(q);
        lemma_query_window_self(self.tree@, self.size as int, q);
    }

    /// Range query: walks the tree with an explicit stack, reporting every
    /// visited word within `tolerance` of `word`, and descends only into
    /// children whose keys lie in the window the triangle inequality allows.
    /// Every reported word is a stored word within `tolerance`, no word is
    /// reported twice, and a stored word equal to `word` — or the root's word
    /// when it lies within `tolerance` — is always reported. The pruning is
    /// complete under the triangle instances it prunes by: every stored word
    /// within `tolerance` whose instances hold is reported.
    #[verifier::loop_isolation(false)]
    #[verifier::rlimit(100)]
    pub fn get_similar_words(&self, word: &str, tolerance: usize) -> (result: Vec<String>)
        requires
            self.wf(),
            chars_within(word@, self.alphabet_length as u32),
            2 * (word@.len() + self.max_word_length as int) + 4 <= usize::MAX,
        ensures
            forall|x: int|
                0 <= x < result@.len() ==> dl_distance(word@, (#[trigger] result@[x])@)
                    <= tolerance,
            forall|x: int|
                0 <= x < result@.len() ==> stores(
                    self.tree@,
                    self.size as int,
                    (#[trigger] result@[x])@,
                ),
            forall|x1: int, x2: int|
                0 <= x1 < x2 < result@.len() ==> (#[trigger] result@[x1])@ != (
                #[trigger] result@[x2])@,
            forall|u: Seq<char>|
                #[trigger] must_report(self.tree@, self.size as int, word@, tolerance as int, u)
                    ==> exists|x: int| 0 <= x < result@.len() && (#[trigger] result@[x])@ == u,
            stores(self.tree@, self.size as int, word@) ==> exists|x: int|
                0 <= x < result@.len() && (#[trigger] result@[x])@ == word@,
            self.size >= 1 && dl_distance(word@, word_at(self.tree@, 0)) <= tolerance as int
                ==> exists|x: int|
                0 <= x < result@.len() && (#[trigger] result@[x])@ == word_at(self.tree@, 0),
    {
        let mut result: Vec<String> = Vec::new();
        if self.size == 0 {
            proof {
                self.lemma_nothing_to_report_when_empty(word@, tolerance as int);
            }
            return result;
        }

        let empty = String::new();
        let mut stack: Vec<usize> = Vec::new();
        stack.push(0);
        let ghost mut visited: Set<int> = Set::empty();
        proof {
            assert(stack@[0] == 0);
            self.lemma_all_found_from_root(word@, tolerance as int);
        }
        while stack.len() > 0
            invariant
                forall|p: int| 0 <= p < stack@.len() ==> (#[trigger] stack@[p]) < self.size,
                visited.finite(),
                forall|v: int| visited.contains(v) ==> 0 <= v < self.size as int,
                forall|v: int|
                    visited.contains(v) ==> v == 0 || exists|pp: int, ee: int|
                        visited.contains(pp) && #[trigger] has_edge(self.tree@, pp, ee)
                            && edge_target(self.tree@, pp, ee) == v,
                forall|p: int, q: int| 0 <= p < q < stack@.len() ==> stack@[p] != stack@[q],
                forall|p: int|
                    0 <= p < stack@.len() ==> !visited.contains(#[trigger] stack@[p] as int),
                forall|p: int|
                    0 <= p < stack@.len() ==> (#[trigger] stack@[p]) == 0 || exists|pp: int, ee: int|
                        visited.contains(pp) && #[trigger] has_edge(self.tree@, pp, ee)
                            && edge_target(self.tree@, pp, ee) == stack@[p] as int,
                forall|x: int|
                    0 <= x < result@.len() ==> dl_distance(word@, (#[trigger] result@[x])@)
                        <= tolerance,
                forall|x: int|
                    0 <= x < result@.len() ==> reported_from_visited(
                        self.tree@,
                        self.size as int,
                        visited,
                        (#[trigger] result@[x])@,
                    ),
                forall|x1: int, x2: int|
                    0 <= x1 < x2 < result@.len() ==> (#[trigger] result@[x1])@ != (
                    #[trigger] result@[x2])@,
                forall|u: Seq<char>|
                    #[trigger] must_report(self.tree@, self.size as int, word@, tolerance as int, u)
                        ==> (exists|x: int|
                        0 <= x < result@.len() && (#[trigger] result@[x])@ == u) || (exists|p: int|
                        0 <= p < stack@.len() && self.found_from(#[trigger] stack@[p] as int, u)),
                dl_distance(word@, word_at(self.tree@, 0)) <= tolerance as int ==> (exists|x: int|
                    0 <= x < result@.len() && (#[trigger] result@[x])@ == word_at(self.tree@, 0))
                    || (exists|p: int| 0 <= p < stack@.len() && (#[trigger] stack@[p]) == 0),
            decreases self.size - visited.len(),
        {
            let ghost stackold = stack@;
            let ghost resultentry = result@;
            let cur = match stack.pop() {
                Some(c) => c,
                None => {
                    return result;
                },
            };
            let ghost stack0 = stack@;
            let ghost visited0 = visited;
            proof {
                assert(cur == stackold[stackold.len() - 1]);
                assert(stack0 == stackold.take(stackold.len() - 1));
                assert(!visited.contains(cur as int));
                visited = visited.insert(cur as int);
                vstd::set::axiom_set_insert_len(visited0, cur as int);
                assert(visited.subset_of(vstd::set_lib::set_int_range(0, self.size as int)));
                vstd::set_lib::lemma_int_range(0, self.size as int);
                vstd::set_lib::lemma_len_subset(
                    visited,
                    vstd::set_lib::set_int_range(0, self.size as int),
                );
                assert forall|p: int| 0 <= p < stack0.len() implies stack0[p] != cur by {
                    assert(stackold[p] != stackold[stackold.len() - 1]);
                }
            }
            let cur_word: &String = match &self.tree[cur].word {
                Some(x) => x,
                None => &empty,
            };
            proof {
                assert(cur_word@ == word_at(self.tree@, cur as int));
                lemma_distance_symmetric(word@, word_at(self.tree@, cur as int));
                lemma_distance_bounds(word@, word_at(self.tree@, cur as int));
                lemma_distance_zero_iff_equal(word_at(self.tree@, cur as int), word@);
            }
            let d = damerau_levenshtein(word, cur_word.as_str(), self.alphabet_length);
            if d <= tolerance {
                result.push(cur_word.clone());
            }
            let ghost result1 = result@;
            let ghost dd = d as int;
            proof {
                // the possibly extended result still reports words of visited
                // slots, each slot's word at most once
                assert forall|x: int|
                    0 <= x < result1.len() implies reported_from_visited(
                    self.tree@,
                    self.size as int,
                    visited,
                    (#[trigger] result1[x])@,
                ) by {
                    if x < resultentry.len() {
                        assert(result1[x] == resultentry[x]);
                        assert(reported_from_visited(
                            self.tree@,
                            self.size as int,
                            visited0,
                            resultentry[x]@,
                        ));
                        let j = choose|j: int|
                            #[trigger] visited0.contains(j) && 0 <= j < self.size as int
                                && resultentry[x]@ == word_at(self.tree@, j);
                        assert(visited.contains(j));
                    } else {
                        assert(result1[x]@ == word_at(self.tree@, cur as int));
                        assert(visited.contains(cur as int));
                    }
                }
                assert forall|x1: int, x2: int|
                    0 <= x1 < x2 < result1.len() implies (#[trigger] result1[x1])@ != (
                    #[trigger] result1[x2])@ by {
                    if x2 < resultentry.len() {
                        assert(result1[x1] == resultentry[x1]);
                        assert(result1[x2] == resultentry[x2]);
                    } else {
                        assert(result1[x1] == resultentry[x1]);
                        assert(reported_from_visited(
                            self.tree@,
                            self.size as int,
                            visited0,
                            resultentry[x1]@,
                        ));
                        let j = choose|j: int|
                            #[trigger] visited0.contains(j) && 0 <= j < self.size as int
                                && resultentry[x1]@ == word_at(self.tree@, j);
                        assert(j != cur as int);
                        self.lemma_words_injective(j, cur as int);
                        assert(result1[x2]@ == word_at(self.tree@, cur as int));
                    }
                }
                // the popped slot answers each pending search or hands it to
                // the child keyed by its distance to the sought word
                assert forall|u: Seq<char>|
                    #[trigger] must_report(self.tree@, self.size as int, word@, tolerance as int, u)
                        && !(exists|x: int|
                    0 <= x < result1.len() && (#[trigger] result1[x])@ == u) implies (exists|p: int|
                    0 <= p < stack0.len() && self.found_from(#[trigger] stack0[p] as int, u)) || (
                has_edge(self.tree@, cur as int, pending_key(self.tree@, cur as int, u))
                    && self.found_from(
                    edge_target(self.tree@, cur as int, pending_key(self.tree@, cur as int, u)),
                    u,
                )) by {
                    reveal(must_report);
                    reveal(pending_key);
                    assert forall|x: int|
                        0 <= x < resultentry.len() implies (#[trigger] resultentry[x])@ != u by {
                        assert(result1[x] == resultentry[x]);
                    }
                    let p = choose|p: int|
                        0 <= p < stackold.len() && self.found_from(
                            #[trigger] stackold[p] as int,
                            u,
                        );
                    if p == stackold.len() - 1 {
                        if word_at(self.tree@, cur as int) == u {
                            lemma_distance_zero_iff_equal(word_at(self.tree@, cur as int), u);
                            assert(dl_distance(word@, u) <= tolerance);
                            assert(dd <= tolerance);
                            assert(result1[result1.len() - 1]@ == u);
                            assert(false);
                        }
                        self.lemma_search_step(cur as int, u);
                    } else {
                        assert(stack0[p] == stackold[p]);
                        assert(self.found_from(stack0[p] as int, u));
                    }
                }
                if dl_distance(word@, word_at(self.tree@, 0)) <= tolerance as int && !(exists|
                    x: int,
                |
                    0 <= x < result1.len() && (#[trigger] result1[x])@ == word_at(self.tree@, 0)) {
                    assert forall|x: int|
                        0 <= x < resultentry.len() implies (#[trigger] resultentry[x])@ != word_at(
                        self.tree@,
                        0,
                    ) by {
                        assert(result1[x] == resultentry[x]);
                    }
                    let p = choose|p: int| 0 <= p < stackold.len() && (#[trigger] stackold[p]) == 0;
                    if p == stackold.len() - 1 {
                        assert(cur == 0);
                        assert(result1[result1.len() - 1]@ == word_at(self.tree@, 0));
                        assert(false);
                    } else {
                        assert(stack0[p] == 0);
                    }
                }
            }

            let width = self.tree[cur].next.len();
            let lo: usize = if d > tolerance {
                if d - tolerance > 1 {
                    d - tolerance
                } else {
                    1
                }
            } else {
                1
            };
            let hi_excl: usize = if d >= width || width - d <= tolerance {
                width
            } else {
                d + tolerance + 1
            };
            proof {
                // under its triangle instances, the key toward each sought
                // word lies inside the window
                assert forall|u: Seq<char>|
                    #[trigger] must_report(self.tree@, self.size as int, word@, tolerance as int, u)
                        && has_edge(
                        self.tree@,
                        cur as int,
                        pending_key(self.tree@, cur as int, u),
                    ) implies lo as int <= pending_key(self.tree@, cur as int, u) && pending_key(
                    self.tree@,
                    cur as int,
                    u,
                ) < hi_excl as int by {
                    reveal(must_report);
                    reveal(pending_key);
                    let eu = pending_key(self.tree@, cur as int, u);
                    lemma_distance_symmetric(word_at(self.tree@, cur as int), u);
                    assert(triangle(word_at(self.tree@, cur as int), word@, u));
                    assert(triangle(word@, u, word_at(self.tree@, cur as int)));
                    assert(eu <= dd + tolerance);
                    assert(dd - tolerance <= eu);
                    assert(1 <= eu && eu < width as int);
                }
            }
            if lo < hi_excl {
                let mut e = lo;
                while e < hi_excl
                    invariant
                        lo <= e,
                        e <= hi_excl,
                        width == self.tree@[cur as int].next@.len(),
                        hi_excl <= width,
                        cur < self.size,
                        visited == visited0.insert(cur as int),
                        result@ == result1,
                        forall|p: int|
                            0 <= p < stack@.len() ==> (#[trigger] stack@[p]) < self.size,
                        forall|p: int, q: int| 0 <= p < q < stack@.len() ==> stack@[p] != stack@[q],
                        forall|p: int|
                            0 <= p < stack@.len() ==> !visited.contains(
                                #[trigger] stack@[p] as int,
                            ),
                        forall|p: int|
                            0 <= p < stack@.len() ==> (#[trigger] stack@[p]) == 0 || exists|
                                pp: int,
                                ee: int,
                            |
                                visited.contains(pp) && #[trigger] has_edge(self.tree@, pp, ee)
                                    && edge_target(self.tree@, pp, ee) == stack@[p] as int && (pp
                                    == cur as int ==> lo as int <= ee && ee < e as int),
                        forall|u: Seq<char>|
                            #[trigger] must_report(
                                self.tree@,
                                self.size as int,
                                word@,
                                tolerance as int,
                                u,
                            ) ==> (exists|x: int|
                                0 <= x < result@.len() && (#[trigger] result@[x])@ == u) || (exists|
                                p: int,
                            |
                                0 <= p < stack@.len() && self.found_from(
                                    #[trigger] stack@[p] as int,
                                    u,
                                )) || (has_edge(
                                self.tree@,
                                cur as int,
                                pending_key(self.tree@, cur as int, u),
                            ) && self.found_from(
                                edge_target(
                                    self.tree@,
                                    cur as int,
                                    pending_key(self.tree@, cur as int, u),
                                ),
                                u,
                            ) && e as int <= pending_key(self.tree@, cur as int, u) && pending_key(
                                self.tree@,
                                cur as int,
                                u,
                            ) < hi_excl as int),
                        dl_distance(word@, word_at(self.tree@, 0)) <= tolerance as int ==> (exists|
                            x: int,
                        |
                            0 <= x < result@.len() && (#[trigger] result@[x])@ == word_at(
                                self.tree@,
                                0,
                            )) || (exists|p: int|
                            0 <= p < stack@.len() && (#[trigger] stack@[p]) == 0),
                    decreases hi_excl - e,
                {
                    let ghost stack1 = stack@;
                    match self.tree[cur].next[e] {
                        Some(n) => {
                            proof {
                                assert(has_edge(self.tree@, cur as int, e as int));
                                assert(edge_target(self.tree@, cur as int, e as int) == n as int);
                                assert(!visited0.contains(n as int));
                                assert(!visited.contains(n as int));
                                assert forall|p: int|
                                    0 <= p < stack1.len() implies stack1[p] as int
                                    != n as int by {
                                    if stack1[p] as int == n as int {
                                        if stack1[p] == 0 {
                                            assert(n as int > cur as int);
                                            assert(false);
                                        } else {
                                            let (pp, ee) = choose|pp: int, ee: int|
                                                visited.contains(pp) && #[trigger] has_edge(
                                                    self.tree@,
                                                    pp,
                                                    ee,
                                                ) && edge_target(self.tree@, pp, ee)
                                                    == stack1[p] as int && (pp == cur as int
                                                    ==> lo as int <= ee && ee < e as int);
                                            assert(pp == cur as int && ee == e as int);
                                            assert(false);
                                        }
                                    }
                                }
                            }
                            stack.push(n as usize);
                            proof {
                                assert forall|p: int|
                                    0 <= p < stack@.len() implies (#[trigger] stack@[p]) == 0
                                    || exists|pp: int, ee: int|
                                    visited.contains(pp) && #[trigger] has_edge(self.tree@, pp, ee)
                                        && edge_target(self.tree@, pp, ee) == stack@[p] as int && (
                                    pp == cur as int ==> lo as int <= ee && ee < e + 1) by {
                                    if p < stack1.len() {
                                        assert(stack@[p] == stack1[p]);
                                        if stack1[p] != 0 {
                                            let (pp, ee) = choose|pp: int, ee: int|
                                                visited.contains(pp) && #[trigger] has_edge(
                                                    self.tree@,
                                                    pp,
                                                    ee,
                                                ) && edge_target(self.tree@, pp, ee)
                                                    == stack1[p] as int && (pp == cur as int
                                                    ==> lo as int <= ee && ee < e as int);
                                            assert(visited.contains(pp) && has_edge(
                                                self.tree@,
                                                pp,
                                                ee,
                                            ) && edge_target(self.tree@, pp, ee)
                                                == stack@[p] as int && (pp == cur as int
                                                ==> lo as int <= ee && ee < e + 1));
                                        }
                                    } else {
                                        assert(stack@[p] == n as usize);
                                        assert(visited.contains(cur as int) && has_edge(
                                            self.tree@,
                                            cur as int,
                                            e as int,
                                        ) && edge_target(self.tree@, cur as int, e as int)
                                            == stack@[p] as int);
                                        assert(lo as int <= e as int && (e as int) < e + 1);
                                    }
                                }
                                assert forall|u: Seq<char>|
                                    #[trigger] must_report(
                                        self.tree@,
                                        self.size as int,
                                        word@,
                                        tolerance as int,
                                        u,
                                    ) && !(exists|x: int|
                                        0 <= x < result@.len() && (#[trigger] result@[x])@
                                            == u) implies (exists|p: int|
                                    0 <= p < stack@.len() && self.found_from(
                                        #[trigger] stack@[p] as int,
                                        u,
                                    )) || (has_edge(
                                    self.tree@,
                                    cur as int,
                                    pending_key(self.tree@, cur as int, u),
                                ) && self.found_from(
                                    edge_target(
                                        self.tree@,
                                        cur as int,
                                        pending_key(self.tree@, cur as int, u),
                                    ),
                                    u,
                                ) && e + 1 <= pending_key(self.tree@, cur as int, u)
                                    && pending_key(self.tree@, cur as int, u)
                                    < hi_excl as int) by {
                                    if exists|p: int|
                                        0 <= p < stack1.len() && self.found_from(
                                            #[trigger] stack1[p] as int,
                                            u,
                                        ) {
                                        let p = choose|p: int|
                                            0 <= p < stack1.len() && self.found_from(
                                                #[trigger] stack1[p] as int,
                                                u,
                                            );
                                        assert(stack@[p] == stack1[p]);
                                        assert(self.found_from(stack@[p] as int, u));
                                    } else {
                                        if pending_key(self.tree@, cur as int, u) == e as int {
                                            assert(stack@[stack@.len() - 1] as int == edge_target(
                                                self.tree@,
                                                cur as int,
                                                e as int,
                                            ));
                                            assert(self.found_from(
                                                stack@[stack@.len() - 1] as int,
                                                u,
                                            ));
                                        }
                                    }
                                }
                                if dl_distance(word@, word_at(self.tree@, 0))
                                    <= tolerance as int {
                                    if exists|p: int|
                                        0 <= p < stack1.len() && (#[trigger] stack1[p]) == 0 {
                                        let p = choose|p: int|
                                            0 <= p < stack1.len() && (#[trigger] stack1[p]) == 0;
                                        assert(stack@[p] == 0);
                                    }
                                }
                            }
                        },
                        None => {
                            proof {
                                assert(!has_edge(self.tree@, cur as int, e as int));
                            }
                        },
                    }
                    e += 1;
                }
            }
            proof {
                assert forall|u: Seq<char>|
                    #[trigger] must_report(self.tree@, self.size as int, word@, tolerance as int, u)
                    implies (exists|x: int|
                    0 <= x < result@.len() && (#[trigger] result@[x])@ == u) || (exists|p: int|
                    0 <= p < stack@.len() && self.found_from(#[trigger] stack@[p] as int, u)) by {
                    if has_edge(self.tree@, cur as int, pending_key(self.tree@, cur as int, u))
                        && self.found_from(
                        edge_target(
                            self.tree@,
                            cur as int,
                            pending_key(self.tree@, cur as int, u),
                        ),
                        u,
                    ) {
                        assert(lo as int <= pending_key(self.tree@, cur as int, u) && pending_key(
                            self.tree@,
                            cur as int,
                            u,
                        ) < hi_excl as int);
                    }
                }
                assert forall|v: int| visited.contains(v) implies v == 0 || exists|pp: int, ee: int|
                    visited.contains(pp) && #[trigger] has_edge(self.tree@, pp, ee) && edge_target(
                        self.tree@,
                        pp,
                        ee,
                    ) == v by {
                    if v == cur as int {
                        if cur != 0 {
                            let (pp, ee) = choose|pp: int, ee: int|
                                visited0.contains(pp) && #[trigger] has_edge(self.tree@, pp, ee)
                                    && edge_target(self.tree@, pp, ee) == stackold[stackold.len()
                                    - 1] as int;
                            assert(visited.contains(pp) && has_edge(self.tree@, pp, ee)
                                && edge_target(self.tree@, pp, ee) == v);
                        }
                    } else if v != 0 {
                        let (pp, ee) = choose|pp: int, ee: int|
                            visited0.contains(pp) && #[trigger] has_edge(self.tree@, pp, ee)
                                && edge_target(self.tree@, pp, ee) == v;
                        assert(visited.contains(pp) && has_edge(self.tree@, pp, ee) && edge_target(
                            self.tree@,
                            pp,
                            ee,
                        ) == v);
                    }
                }
                assert forall|x: int|
                    0 <= x < result@.len() implies reported_from_visited(
                    self.tree@,
                    self.size as int,
                    visited,
                    (#[trigger] result@[x])@,
                ) by {
                    assert(result@[x] == result1[x]);
                    assert(reported_from_visited(
                        self.tree@,
                        self.size as int,
                        visited,
                        result1[x]@,
                    ));
                }
            }
        }
        proof {
            self.lemma_reported_words_stored(visited, result@);
            if stores(self.tree@, self.size as int, word@) {
                self.lemma_must_report_self(word@, tolerance as int);
            }
        }
        result
    }

    /// The Damerau-Levenshtein distance between `a` and `b`, under this
    /// tree's configured alphabet.
    pub fn get_damerau_levenshtein_distance(&self, a: &str, b: &str) -> (d: usize)
        requires
            chars_within(a@, self.alphabet_length as u32),
            chars_within(b@, self.alphabet_length as u32),
            2 * (a@.len() + b@.len()) + 4 <= usize::MAX,
        ensures
            d as int == dl_distance(a@, b@),
    {
        damerau_levenshtein(a, b, self.alphabet_length)
    }
}

} // verus!
