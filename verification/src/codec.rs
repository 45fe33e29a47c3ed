//! Deterministic binary persistence for both indexes.
//!
//! Every data-model field is written verbatim, unused preallocated slots
//! included: integers in little-endian, words as a presence tag, a byte
//! length and UTF-8 bytes, child tables as a count and one tagged entry per
//! slot. Decoding accepts exactly the byte strings the encoder produces, and
//! yields a value equal field-for-field to the one encoded; anything else is
//! rejected with a typed decode error, never panicked on and never silently
//! turned into an empty structure.

use crate::bk_tree::{
    edge_target, edges_increase, has_edge, in_subtree, word_at, BKTree, Node,
};
use crate::bloom_filter::BloomFilter;
use crate::distance::dl_distance;
use vstd::bytes::{
    lemma_auto_spec_u16_to_from_le_bytes, lemma_auto_spec_u32_to_from_le_bytes,
    lemma_auto_spec_u64_to_from_le_bytes, spec_u16_to_le_bytes, spec_u32_to_le_bytes,
    spec_u64_to_le_bytes, u16_from_le_bytes, u16_to_le_bytes, u32_from_le_bytes, u32_to_le_bytes,
    u64_from_le_bytes, u64_to_le_bytes,
};
use vstd::prelude::*;
use vstd::slice::slice_subrange;
use vstd::utf8::{
    decode_utf8, decode_utf8_encode_utf8, encode_utf8, encode_utf8_decode_utf8,
    encode_utf8_valid_utf8, valid_utf8,
};

verus! {

/// Why a persisted blob was rejected.
#[derive(Debug, PartialEq, Eq, Clone, Copy)]
pub enum DecodeError {
    /// The blob ends before a field it promises.
    Truncated,
    /// A presence tag holds something other than 0 or 1.
    BadTag,
    /// A word's byte segment is not valid UTF-8.
    BadUtf8,
    /// Bytes remain after the last field.
    TrailingBytes,
}

/// One tagged child entry: 0 for an empty slot, 1 and the index otherwise.
pub open spec fn enc_opt_u32(o: Option<u32>) -> Seq<u8> {
    match o {
        Option::None => seq![0u8],
        Option::Some(v) => seq![1u8] + spec_u32_to_le_bytes(v),
    }
}

/// The child entries of one node, from position `i` on.
pub open spec fn enc_opts(s: Seq<Option<u32>>, i: int) -> Seq<u8>
    decreases s.len() - i,
{
    if i < 0 || i >= s.len() {
        Seq::empty()
    } else {
        enc_opt_u32(s[i]) + enc_opts(s, i + 1)
    }
}

/// A word: a presence tag, then byte length and UTF-8 bytes if present.
pub open spec fn enc_word(w: Option<String>) -> Seq<u8> {
    match w {
        Option::None => seq![0u8],
        Option::Some(s) => seq![1u8] + spec_u64_to_le_bytes(encode_utf8(s@).len() as u64)
            + encode_utf8(s@),
    }
}

/// One node: its word, then the child table as a count and its entries.
pub open spec fn enc_node(n: Node) -> Seq<u8> {
    enc_word(n.word) + spec_u64_to_le_bytes(n.next@.len() as u64) + enc_opts(n.next@, 0)
}

/// The node arena from slot `i` on.
pub open spec fn enc_nodes(tree: Seq<Node>, i: int) -> Seq<u8>
    decreases tree.len() - i,
{
    if i < 0 || i >= tree.len() {
        Seq::empty()
    } else {
        enc_node(tree[i]) + enc_nodes(tree, i + 1)
    }
}

/// The whole tree: configuration, occupied count, slot count, every slot.
pub open spec fn enc_tree(t: BKTree) -> Seq<u8> {
    spec_u16_to_le_bytes(t.max_word_length) + spec_u16_to_le_bytes(t.alphabet_length)
        + spec_u32_to_le_bytes(t.size) + spec_u64_to_le_bytes(t.tree@.len() as u64) + enc_nodes(
        t.tree@,
        0,
    )
}

/// The whole filter: the false-positive bit pattern, cell count, probe
/// count, then the cell array verbatim.
pub open spec fn enc_filter(f: BloomFilter) -> Seq<u8> {
    spec_u32_to_le_bytes(f.fp_prob_bits) + spec_u64_to_le_bytes(f.size) + spec_u32_to_le_bytes(
        f.hash_count,
    ) + spec_u64_to_le_bytes(f.bitarray@.len() as u64) + f.bitarray@
}

/// Two optional words hold the same text.
pub open spec fn word_eq(a: Option<String>, b: Option<String>) -> bool {
    match (a, b) {
        (Option::None, Option::None) => true,
        (Option::Some(x), Option::Some(y)) => x@ == y@,
        _ => false,
    }
}

/// Two nodes agree field for field.
pub open spec fn node_eq(a: Node, b: Node) -> bool {
    word_eq(a.word, b.word) && a.next@ == b.next@
}

/// Two trees agree field for field, unused slots included.
pub open spec fn tree_eq(a: BKTree, b: BKTree) -> bool {
    &&& a.max_word_length == b.max_word_length
    &&& a.alphabet_length == b.alphabet_length
    &&& a.size == b.size
    &&& a.tree@.len() == b.tree@.len()
    &&& forall|i: int| 0 <= i < a.tree@.len() ==> node_eq(#[trigger] a.tree@[i], b.tree@[i])
}

/// Two filters agree field for field.
pub open spec fn filter_eq(a: BloomFilter, b: BloomFilter) -> bool {
    &&& a.fp_prob_bits == b.fp_prob_bits
    &&& a.size == b.size
    &&& a.hash_count == b.hash_count
    &&& a.bitarray@ == b.bitarray@
}

/// The bytes from `pos` on begin with the encoding of the word `w`.
pub open spec fn word_matches(bytes: Seq<u8>, pos: int, w: Option<String>) -> bool {
    &&& pos + enc_word(w).len() <= bytes.len()
    &&& bytes.subrange(pos, pos + enc_word(w).len()) == enc_word(w)
}

/// The bytes from `pos` on begin with the encoding of the child entry `o`.
pub open spec fn opt_matches(bytes: Seq<u8>, pos: int, o: Option<u32>) -> bool {
    &&& pos + enc_opt_u32(o).len() <= bytes.len()
    &&& bytes.subrange(pos, pos + enc_opt_u32(o).len()) == enc_opt_u32(o)
}

/// The bytes from `pos` on begin with the encodings of the child entries of
/// `s` from position `i` on.
pub open spec fn opts_match(bytes: Seq<u8>, pos: int, s: Seq<Option<u32>>, i: int) -> bool {
    &&& pos + enc_opts(s, i).len() <= bytes.len()
    &&& bytes.subrange(pos, pos + enc_opts(s, i).len()) == enc_opts(s, i)
}

/// The bytes from `pos` on begin with the encoding of the node `n`.
pub open spec fn node_matches(bytes: Seq<u8>, pos: int, n: Node) -> bool {
    &&& pos + enc_node(n).len() <= bytes.len()
    &&& bytes.subrange(pos, pos + enc_node(n).len()) == enc_node(n)
}

/// Relies on std::str::from_utf8: accepts exactly the valid UTF-8 byte
/// strings, decoding them to the characters they encode.
#[verifier::external_body]
fn utf8_to_string(b: &[u8]) -> (r: Option<String>)
    ensures
        r is Some <==> valid_utf8(b@),
        r is Some ==> r->Some_0@ == decode_utf8(b@),
{
    match std::str::from_utf8(b) {
        Ok(s) => Some(s.to_owned()),
        Err(_) => None,
    }
}

fn push_u16(out: &mut Vec<u8>, x: u16)
    ensures
        final(out)@ == old(out)@ + spec_u16_to_le_bytes(x),
{
    let mut b = u16_to_le_bytes(x);
    out.append(&mut b);
}

fn push_u32(out: &mut Vec<u8>, x: u32)
    ensures
        final(out)@ == old(out)@ + spec_u32_to_le_bytes(x),
{
    let mut b = u32_to_le_bytes(x);
    out.append(&mut b);
}

fn push_u64(out: &mut Vec<u8>, x: u64)
    ensures
        final(out)@ == old(out)@ + spec_u64_to_le_bytes(x),
{
    let mut b = u64_to_le_bytes(x);
    out.append(&mut b);
}

fn push_word(out: &mut Vec<u8>, w: &Option<String>)
    ensures
        final(out)@ == old(out)@ + enc_word(*w),
{
    match w {
        None => {
            out.push(0);
            proof {
                assert(final(out)@ =~= old(out)@ + enc_word(*w));
            }
        },
        Some(s) => {
            out.push(1);
            let ghost out1 = out@;
            let mut bytes = s.as_str().as_bytes_vec();
            push_u64(out, bytes.len() as u64);
            out.append(&mut bytes);
            proof {
                assert(out@ =~= old(out)@ + enc_word(*w));
            }
        },
    }
}

fn push_opt_u32(out: &mut Vec<u8>, o: &Option<u32>)
    ensures
        final(out)@ == old(out)@ + enc_opt_u32(*o),
{
    match o {
        None => {
            out.push(0);
            proof {
                assert(final(out)@ =~= old(out)@ + enc_opt_u32(*o));
            }
        },
        Some(v) => {
            out.push(1);
            push_u32(out, *v);
            proof {
                assert(out@ =~= old(out)@ + enc_opt_u32(*o));
            }
        },
    }
}

fn push_node(out: &mut Vec<u8>, n: &Node)
    ensures
        final(out)@ == old(out)@ + enc_node(*n),
{
    push_word(out, &n.word);
    push_u64(out, n.next.len() as u64);
    let mut k: usize = 0;
    while k < n.next.len()
        invariant
            k <= n.next@.len(),
            out@ + enc_opts(n.next@, k as int) == old(out)@ + enc_node(*n),
        decreases n.next@.len() - k,
    {
        let ghost before = out@;
        push_opt_u32(out, &n.next[k]);
        proof {
            assert(enc_opts(n.next@, k as int) == enc_opt_u32(n.next@[k as int]) + enc_opts(
                n.next@,
                k + 1,
            ));
            assert(out@ + enc_opts(n.next@, k + 1) =~= before + enc_opts(n.next@, k as int));
        }
        k += 1;
    }
    proof {
        assert(enc_opts(n.next@, n.next@.len() as int) =~= Seq::<u8>::empty());
        assert(out@ =~= out@ + Seq::<u8>::empty());
    }
}

proof fn lemma_enc_opts_len(s: Seq<Option<u32>>, i: int)
    requires
        0 <= i <= s.len(),
    ensures
        s.len() - i <= enc_opts(s, i).len(),
    decreases s.len() - i,
{
    if i < s.len() {
        lemma_enc_opts_len(s, i + 1);
    }
}

proof fn lemma_enc_nodes_len(tree: Seq<Node>, i: int)
    requires
        0 <= i <= tree.len(),
    ensures
        tree.len() - i <= enc_nodes(tree, i).len(),
    decreases tree.len() - i,
{
    if i < tree.len() {
        lemma_enc_nodes_len(tree, i + 1);
    }
}

proof fn lemma_enc_opts_snoc(s: Seq<Option<u32>>, v: Option<u32>, i: int)
    requires
        0 <= i <= s.len(),
    ensures
        enc_opts(s.push(v), i) =~= enc_opts(s, i) + enc_opt_u32(v),
    decreases s.len() - i,
{
    if i == s.len() {
        assert(enc_opts(s.push(v), i + 1) =~= Seq::<u8>::empty());
        assert(enc_opts(s, i) =~= Seq::<u8>::empty());
    } else {
        lemma_enc_opts_snoc(s, v, i + 1);
        assert(s.push(v)[i] == s[i]);
    }
}

proof fn lemma_enc_nodes_snoc(tree: Seq<Node>, n: Node, i: int)
    requires
        0 <= i <= tree.len(),
    ensures
        enc_nodes(tree.push(n), i) =~= enc_nodes(tree, i) + enc_node(n),
    decreases tree.len() - i,
{
    if i == tree.len() {
        assert(enc_nodes(tree.push(n), i + 1) =~= Seq::<u8>::empty());
        assert(enc_nodes(tree, i) =~= Seq::<u8>::empty());
    } else {
        lemma_enc_nodes_snoc(tree, n, i + 1);
        assert(tree.push(n)[i] == tree[i]);
    }
}

fn parse_u8(bytes: &[u8], pos: usize) -> (r: Result<(u8, usize), DecodeError>)
    requires
        pos <= bytes@.len(),
    ensures
        r is Ok ==> pos + 1 <= bytes@.len() && r->Ok_0.1 == pos + 1 && bytes@[pos as int]
            == r->Ok_0.0,
        pos + 1 <= bytes@.len() ==> r is Ok,
        r is Err ==> r->Err_0 == DecodeError::Truncated,
{
    if bytes.len() - pos >= 1 {
        Ok((*vstd::slice::slice_index_get(bytes, pos), pos + 1))
    } else {
        Err(DecodeError::Truncated)
    }
}

fn parse_u16(bytes: &[u8], pos: usize) -> (r: Result<(u16, usize), DecodeError>)
    requires
        pos <= bytes@.len(),
    ensures
        r is Ok ==> pos + 2 <= bytes@.len() && r->Ok_0.1 == pos + 2 && bytes@.subrange(
            pos as int,
            pos + 2,
        ) == spec_u16_to_le_bytes(r->Ok_0.0),
        pos + 2 <= bytes@.len() ==> r is Ok,
        r is Err ==> r->Err_0 == DecodeError::Truncated,
{
    if bytes.len() - pos >= 2 {
        let seg = slice_subrange(bytes, pos, pos + 2);
        let v = u16_from_le_bytes(seg);
        proof {
            lemma_auto_spec_u16_to_from_le_bytes();
        }
        Ok((v, pos + 2))
    } else {
        Err(DecodeError::Truncated)
    }
}

fn parse_u32(bytes: &[u8], pos: usize) -> (r: Result<(u32, usize), DecodeError>)
    requires
        pos <= bytes@.len(),
    ensures
        r is Ok ==> pos + 4 <= bytes@.len() && r->Ok_0.1 == pos + 4 && bytes@.subrange(
            pos as int,
            pos + 4,
        ) == spec_u32_to_le_bytes(r->Ok_0.0),
        pos + 4 <= bytes@.len() ==> r is Ok,
        r is Err ==> r->Err_0 == DecodeError::Truncated,
{
    if bytes.len() - pos >= 4 {
        let seg = slice_subrange(bytes, pos, pos + 4);
        let v = u32_from_le_bytes(seg);
        proof {
            lemma_auto_spec_u32_to_from_le_bytes();
        }
        Ok((v, pos + 4))
    } else {
        Err(DecodeError::Truncated)
    }
}

fn parse_u64(bytes: &[u8], pos: usize) -> (r: Result<(u64, usize), DecodeError>)
    requires
        pos <= bytes@.len(),
    ensures
        r is Ok ==> pos + 8 <= bytes@.len() && r->Ok_0.1 == pos + 8 && bytes@.subrange(
            pos as int,
            pos + 8,
        ) == spec_u64_to_le_bytes(r->Ok_0.0),
        pos + 8 <= bytes@.len() ==> r is Ok,
        r is Err ==> r->Err_0 == DecodeError::Truncated,
{
    if bytes.len() - pos >= 8 {
        let seg = slice_subrange(bytes, pos, pos + 8);
        let v = u64_from_le_bytes(seg);
        proof {
            lemma_auto_spec_u64_to_from_le_bytes();
        }
        Ok((v, pos + 8))
    } else {
        Err(DecodeError::Truncated)
    }
}

proof fn lemma_match_sub(bytes: Seq<u8>, pos: int, enc: Seq<u8>, a: int, b: int)
    requires
        0 <= pos,
        pos + enc.len() <= bytes.len(),
        bytes.subrange(pos, pos + enc.len()) == enc,
        0 <= a <= b <= enc.len(),
    ensures
        bytes.subrange(pos + a, pos + b) == enc.subrange(a, b),
{
    assert forall|q: int| 0 <= q < b - a implies bytes.subrange(pos + a, pos + b)[q]
        == enc.subrange(a, b)[q] by {
        assert(enc[a + q] == bytes.subrange(pos, pos + enc.len())[a + q]);
    }
    assert(bytes.subrange(pos + a, pos + b) =~= enc.subrange(a, b));
}

fn parse_word(bytes: &[u8], pos: usize) -> (r: Result<(Option<String>, usize), DecodeError>)
    requires
        pos <= bytes@.len(),
    ensures
        r is Ok ==> pos <= r->Ok_0.1 <= bytes@.len() && bytes@.subrange(pos as int, r->Ok_0.1 as int)
            == enc_word(r->Ok_0.0),
        forall|w: Option<String>|
            #[trigger] word_matches(bytes@, pos as int, w) ==> r is Ok && word_eq(r->Ok_0.0, w)
                && r->Ok_0.1 == pos + enc_word(w).len(),
{
    proof {
        assert forall|w: Option<String>| #[trigger] word_matches(bytes@, pos as int, w) implies pos + 1 <= bytes@.len()
            && bytes@[pos as int] == enc_word(w)[0] && (enc_word(w)[0] == 0u8 || enc_word(w)[0]
            == 1u8) && enc_word(w).len() >= 1 by {
            lemma_match_sub(bytes@, pos as int, enc_word(w), 0, 1);
            assert(bytes@.subrange(pos as int, pos + 1)[0] == enc_word(w).subrange(0, 1)[0]);
            match w {
                Option::None => {
                    assert(enc_word(w)[0] == 0u8);
                },
                Option::Some(s) => {
                    assert(enc_word(w)[0] == 1u8);
                },
            }
        }
    }
    let (tag, p1) = match parse_u8(bytes, pos) {
        Ok(x) => x,
        Err(e) => {
            return Err(e);
        },
    };
    if tag == 0 {
        proof {
            assert(bytes@.subrange(pos as int, p1 as int) =~= enc_word(Option::None));
            assert forall|w: Option<String>| #[trigger] word_matches(bytes@, pos as int, w)
                implies word_eq(Option::None, w) && p1 == pos + enc_word(w).len() by {
                assert(w is None);
            }
        }
        return Ok((None, p1));
    }
    if tag != 1 {
        return Err(DecodeError::BadTag);
    }
    proof {
        assert forall|w: Option<String>| #[trigger] word_matches(bytes@, pos as int, w) implies w is Some && pos + 9
            <= bytes@.len() && bytes@.subrange(p1 as int, p1 + 8) == spec_u64_to_le_bytes(
            encode_utf8(w->Some_0@).len() as u64,
        ) by {
            assert(w is Some);
            let s = w->Some_0;
            let lenb = spec_u64_to_le_bytes(encode_utf8(s@).len() as u64);
            lemma_auto_spec_u64_to_from_le_bytes();
            assert(enc_word(w) =~= seq![1u8] + lenb + encode_utf8(s@));
            assert(enc_word(w).subrange(1, 9) =~= lenb);
            lemma_match_sub(bytes@, pos as int, enc_word(w), 1, 9);
        }
    }
    let (blen, p2) = match parse_u64(bytes, p1) {
        Ok(x) => x,
        Err(e) => {
            return Err(e);
        },
    };
    proof {
        assert forall|w: Option<String>| #[trigger] word_matches(bytes@, pos as int, w) implies blen == encode_utf8(
            w->Some_0@,
        ).len() as u64 && encode_utf8(w->Some_0@).len() <= bytes@.len() - p2 by {
            lemma_auto_spec_u64_to_from_le_bytes();
            assert(spec_u64_to_le_bytes(blen) == spec_u64_to_le_bytes(
                encode_utf8(w->Some_0@).len() as u64,
            ));
            assert(enc_word(w).len() == 9 + encode_utf8(w->Some_0@).len());
        }
    }
    if blen > (bytes.len() - p2) as u64 {
        proof {
            assert forall|w: Option<String>| #[trigger] word_matches(bytes@, pos as int, w) implies false by {
                assert(blen == encode_utf8(w->Some_0@).len() as u64);
            }
        }
        return Err(DecodeError::Truncated);
    }
    let bl = blen as usize;
    let seg = slice_subrange(bytes, p2, p2 + bl);
    proof {
        assert forall|w: Option<String>| #[trigger] word_matches(bytes@, pos as int, w) implies seg@ == encode_utf8(
            w->Some_0@,
        ) by {
            let s = w->Some_0;
            let lenb = spec_u64_to_le_bytes(encode_utf8(s@).len() as u64);
            assert(enc_word(w) =~= seq![1u8] + lenb + encode_utf8(s@));
            assert(enc_word(w).subrange(9, enc_word(w).len() as int) =~= encode_utf8(s@));
            lemma_match_sub(bytes@, pos as int, enc_word(w), 9, enc_word(w).len() as int);
            assert(bl == encode_utf8(s@).len());
        }
    }
    match utf8_to_string(seg) {
        Some(s) => {
            proof {
                decode_utf8_encode_utf8(seg@);
                assert(encode_utf8(s@) == seg@);
                assert(bytes@.subrange(pos as int, (p2 + bl) as int) =~= enc_word(Option::Some(s)));
                assert forall|w: Option<String>| #[trigger] word_matches(bytes@, pos as int, w) implies word_eq(
                    Option::Some(s),
                    w,
                ) && p2 + bl == pos + enc_word(w).len() by {
                    encode_utf8_decode_utf8(w->Some_0@);
                    assert(enc_word(w).len() == 9 + encode_utf8(w->Some_0@).len());
                }
            }
            Ok((Some(s), p2 + bl))
        },
        None => {
            proof {
                assert forall|w: Option<String>| #[trigger] word_matches(bytes@, pos as int, w) implies false by {
                    encode_utf8_valid_utf8(w->Some_0@);
                }
            }
            Err(DecodeError::BadUtf8)
        },
    }
}

fn parse_opt_u32(bytes: &[u8], pos: usize) -> (r: Result<(Option<u32>, usize), DecodeError>)
    requires
        pos <= bytes@.len(),
    ensures
        r is Ok ==> pos <= r->Ok_0.1 <= bytes@.len() && bytes@.subrange(pos as int, r->Ok_0.1 as int)
            == enc_opt_u32(r->Ok_0.0),
        forall|o: Option<u32>|
            #[trigger] opt_matches(bytes@, pos as int, o) ==> r is Ok && r->Ok_0.0 == o
                && r->Ok_0.1 == pos + enc_opt_u32(o).len(),
{
    proof {
        assert forall|o: Option<u32>| #[trigger] opt_matches(bytes@, pos as int, o) implies pos + 1
            <= bytes@.len() && bytes@[pos as int] == enc_opt_u32(o)[0] && (enc_opt_u32(o)[0] == 0u8
            || enc_opt_u32(o)[0] == 1u8) by {
            lemma_match_sub(bytes@, pos as int, enc_opt_u32(o), 0, 1);
            assert(bytes@.subrange(pos as int, pos + 1)[0] == enc_opt_u32(o).subrange(0, 1)[0]);
            match o {
                Option::None => {
                    assert(enc_opt_u32(o)[0] == 0u8);
                },
                Option::Some(v) => {
                    assert(enc_opt_u32(o)[0] == 1u8);
                },
            }
        }
    }
    let (tag, p1) = match parse_u8(bytes, pos) {
        Ok(x) => x,
        Err(e) => {
            return Err(e);
        },
    };
    if tag == 0 {
        proof {
            assert(bytes@.subrange(pos as int, p1 as int) =~= enc_opt_u32(Option::None));
            assert forall|o: Option<u32>| #[trigger] opt_matches(bytes@, pos as int, o)
                implies o is None by {
                if o is Some {
                    assert(enc_opt_u32(o)[0] == 1u8);
                }
            }
        }
        return Ok((None, p1));
    }
    if tag != 1 {
        return Err(DecodeError::BadTag);
    }
    proof {
        assert forall|o: Option<u32>| #[trigger] opt_matches(bytes@, pos as int, o) implies o
            is Some && p1 + 4 <= bytes@.len() && bytes@.subrange(p1 as int, p1 + 4)
            == spec_u32_to_le_bytes(o->Some_0) by {
            if o is None {
                assert(enc_opt_u32(o) =~= seq![0u8]);
                assert(enc_opt_u32(o)[0] == 0u8);
            }
            assert(o is Some);
            let v = o->Some_0;
            lemma_auto_spec_u32_to_from_le_bytes();
            assert(enc_opt_u32(o) =~= seq![1u8] + spec_u32_to_le_bytes(v));
            assert(enc_opt_u32(o).subrange(1, 5) =~= spec_u32_to_le_bytes(v));
            lemma_match_sub(bytes@, pos as int, enc_opt_u32(o), 1, 5);
        }
    }
    let (v, p2) = match parse_u32(bytes, p1) {
        Ok(x) => x,
        Err(e) => {
            return Err(e);
        },
    };
    proof {
        lemma_auto_spec_u32_to_from_le_bytes();
        assert(bytes@.subrange(pos as int, p2 as int) =~= enc_opt_u32(Option::Some(v)));
        assert forall|o: Option<u32>| #[trigger] opt_matches(bytes@, pos as int, o) implies v
            == o->Some_0 && p2 == pos + enc_opt_u32(o).len() by {
            assert(spec_u32_to_le_bytes(v) == spec_u32_to_le_bytes(o->Some_0));
        }
    }
    Ok((Some(v), p2))
}

fn parse_node(bytes: &[u8], pos: usize) -> (r: Result<(Node, usize), DecodeError>)
    requires
        pos <= bytes@.len(),
    ensures
        r is Ok ==> pos <= r->Ok_0.1 <= bytes@.len() && bytes@.subrange(pos as int, r->Ok_0.1 as int)
            == enc_node(r->Ok_0.0),
        forall|n: Node|
            #[trigger] node_matches(bytes@, pos as int, n) ==> r is Ok && node_eq(r->Ok_0.0, n)
                && r->Ok_0.1 == pos + enc_node(n).len(),
{
    proof {
        assert forall|n: Node| #[trigger] node_matches(bytes@, pos as int, n)
            implies word_matches(bytes@, pos as int, n.word) by {
            assert(enc_node(n).subrange(0, enc_word(n.word).len() as int) =~= enc_word(n.word));
            lemma_match_sub(bytes@, pos as int, enc_node(n), 0, enc_word(n.word).len() as int);
        }
    }
    let (word, p1) = match parse_word(bytes, pos) {
        Ok(x) => x,
        Err(e) => {
            return Err(e);
        },
    };
    proof {
        assert forall|n: Node| #[trigger] node_matches(bytes@, pos as int, n) implies p1 + 8
            <= bytes@.len() && bytes@.subrange(p1 as int, p1 + 8) == spec_u64_to_le_bytes(
            n.next@.len() as u64,
        ) by {
            lemma_auto_spec_u64_to_from_le_bytes();
            assert(word_matches(bytes@, pos as int, n.word));
            assert(p1 == pos + enc_word(n.word).len());
            let wl = enc_word(n.word).len() as int;
            assert(enc_node(n) == enc_word(n.word) + spec_u64_to_le_bytes(n.next@.len() as u64)
                + enc_opts(n.next@, 0));
            assert(enc_node(n).subrange(wl, wl + 8) =~= spec_u64_to_le_bytes(
                n.next@.len() as u64,
            ));
            lemma_match_sub(bytes@, pos as int, enc_node(n), wl, wl + 8);
        }
    }
    let (cnt, p2) = match parse_u64(bytes, p1) {
        Ok(x) => x,
        Err(e) => {
            return Err(e);
        },
    };
    proof {
        assert forall|n: Node| #[trigger] node_matches(bytes@, pos as int, n) implies cnt
            == n.next@.len() as u64 && n.next@.len() <= usize::MAX && opts_match(
            bytes@,
            p2 as int,
            n.next@,
            0,
        ) && p2 + enc_opts(n.next@, 0).len() == pos + enc_node(n).len() by {
            vstd::std_specs::vec::axiom_spec_len(&n.next);
            lemma_auto_spec_u64_to_from_le_bytes();
            assert(spec_u64_to_le_bytes(cnt) == spec_u64_to_le_bytes(n.next@.len() as u64));
            let wl = enc_word(n.word).len() as int;
            assert(enc_node(n).subrange(wl + 8, enc_node(n).len() as int) =~= enc_opts(
                n.next@,
                0,
            ));
            lemma_match_sub(bytes@, pos as int, enc_node(n), wl + 8, enc_node(n).len() as int);
        }
    }
    if cnt > (bytes.len() - p2) as u64 {
        proof {
            assert forall|n: Node| #[trigger] node_matches(bytes@, pos as int, n)
                implies false by {
                lemma_enc_opts_len(n.next@, 0);
            }
        }
        return Err(DecodeError::Truncated);
    }
    let cntu = cnt as usize;
    let mut next: Vec<Option<u32>> = Vec::new();
    let mut p = p2;
    let mut k: usize = 0;
    while k < cntu
        invariant
            k <= cntu,
            p2 <= p <= bytes@.len(),
            next@.len() == k,
            bytes@.subrange(p2 as int, p as int) == enc_opts(next@, 0),
            forall|n: Node|
                #[trigger] node_matches(bytes@, pos as int, n) ==> cntu == n.next@.len() && next@
                    == n.next@.subrange(0, k as int) && opts_match(bytes@, p as int, n.next@, k as int)
                    && p + enc_opts(n.next@, k as int).len() == pos + enc_node(n).len(),
        decreases cntu - k,
    {
        proof {
            assert forall|n: Node| #[trigger] node_matches(bytes@, pos as int, n)
                implies opt_matches(bytes@, p as int, n.next@[k as int]) by {
                assert(enc_opts(n.next@, k as int) == enc_opt_u32(n.next@[k as int]) + enc_opts(
                    n.next@,
                    k + 1,
                ));
                assert(enc_opts(n.next@, k as int).subrange(
                    0,
                    enc_opt_u32(n.next@[k as int]).len() as int,
                ) =~= enc_opt_u32(n.next@[k as int]));
                lemma_match_sub(
                    bytes@,
                    p as int,
                    enc_opts(n.next@, k as int),
                    0,
                    enc_opt_u32(n.next@[k as int]).len() as int,
                );
            }
        }
        let ghost next0 = next@;
        let ghost pprev = p;
        let (o, pnew) = match parse_opt_u32(bytes, p) {
            Ok(x) => x,
            Err(e) => {
                return Err(e);
            },
        };
        next.push(o);
        p = pnew;
        proof {
            lemma_enc_opts_snoc(next0, o, 0);
            assert(bytes@.subrange(p2 as int, p as int) =~= enc_opts(next0, 0) + enc_opt_u32(o));
            assert forall|n: Node| #[trigger] node_matches(bytes@, pos as int, n) implies next@
                == n.next@.subrange(0, k + 1) && opts_match(bytes@, p as int, n.next@, k + 1) && p
                + enc_opts(n.next@, k + 1).len() == pos + enc_node(n).len() by {
                assert(o == n.next@[k as int]);
                assert(next@ =~= n.next@.subrange(0, k + 1));
                assert(enc_opts(n.next@, k as int) == enc_opt_u32(n.next@[k as int]) + enc_opts(
                    n.next@,
                    k + 1,
                ));
                assert(enc_opts(n.next@, k as int).subrange(
                    enc_opt_u32(n.next@[k as int]).len() as int,
                    enc_opts(n.next@, k as int).len() as int,
                ) =~= enc_opts(n.next@, k + 1));
                lemma_match_sub(
                    bytes@,
                    pprev as int,
                    enc_opts(n.next@, k as int),
                    enc_opt_u32(n.next@[k as int]).len() as int,
                    enc_opts(n.next@, k as int).len() as int,
                );
            }
        }
        k += 1;
    }
    let node = Node { word, next };
    proof {
        assert(bytes@.subrange(pos as int, p as int) =~= enc_node(node));
        assert forall|n: Node| #[trigger] node_matches(bytes@, pos as int, n) implies node_eq(
            node,
            n,
        ) && p == pos + enc_node(n).len() by {
            assert(node.next@ =~= n.next@);
            assert(enc_opts(n.next@, cntu as int) =~= Seq::<u8>::empty());
        }
    }
    Ok((node, p))
}

impl BKTree {
    /// Serialises the tree to its canonical byte string.
    pub fn encode(&self) -> (out: Vec<u8>)
        ensures
            out@ == enc_tree(*self),
    {
        let mut out: Vec<u8> = Vec::new();
        push_u16(&mut out, self.max_word_length);
        push_u16(&mut out, self.alphabet_length);
        push_u32(&mut out, self.size);
        push_u64(&mut out, self.tree.len() as u64);
        let ghost header = out@;
        let mut k: usize = 0;
        while k < self.tree.len()
            invariant
                k <= self.tree@.len(),
                out@ + enc_nodes(self.tree@, k as int) == header + enc_nodes(self.tree@, 0),
            decreases self.tree@.len() - k,
        {
            let ghost before = out@;
            push_node(&mut out, &self.tree[k]);
            proof {
                assert(enc_nodes(self.tree@, k as int) == enc_node(self.tree@[k as int])
                    + enc_nodes(self.tree@, k + 1));
                assert(out@ + enc_nodes(self.tree@, k + 1) =~= before + enc_nodes(
                    self.tree@,
                    k as int,
                ));
            }
            k += 1;
        }
        proof {
            assert(enc_nodes(self.tree@, self.tree@.len() as int) =~= Seq::<u8>::empty());
            assert(out@ =~= out@ + Seq::<u8>::empty());
            assert(out@ =~= enc_tree(*self));
        }
        out
    }
}

impl BloomFilter {
    /// Serialises the filter to its canonical byte string.
    pub fn encode(&self) -> (out: Vec<u8>)
        ensures
            out@ == enc_filter(*self),
    {
        let mut out: Vec<u8> = Vec::new();
        push_u32(&mut out, self.fp_prob_bits);
        push_u64(&mut out, self.size);
        push_u32(&mut out, self.hash_count);
        push_u64(&mut out, self.bitarray.len() as u64);
        let mut cells = self.bitarray.clone();
        out.append(&mut cells);
        proof {
            assert(out@ =~= enc_filter(*self));
        }
        out
    }
}

/// The bytes from `pos` on begin with the encodings of the arena slots of
/// `tree` from slot `i` on.
pub open spec fn nodes_match(bytes: Seq<u8>, pos: int, tree: Seq<Node>, i: int) -> bool {
    &&& pos + enc_nodes(tree, i).len() <= bytes.len()
    &&& bytes.subrange(pos, pos + enc_nodes(tree, i).len()) == enc_nodes(tree, i)
}

impl BKTree {
    /// Parses the canonical byte string of a tree. Succeeds exactly on the
    /// encoder's outputs, restoring every field verbatim; anything else gets
    /// a typed decode error.
    #[verifier::loop_isolation(false)]
    #[verifier::rlimit(60)]
    pub fn decode(bytes: &[u8]) -> (r: Result<BKTree, DecodeError>)
        ensures
            r is Ok ==> bytes@ == enc_tree(r->Ok_0),
            forall|t: BKTree|
                bytes@ == #[trigger] enc_tree(t) ==> r is Ok && tree_eq(r->Ok_0, t),
            r is Ok <==> exists|t: BKTree| bytes@ == #[trigger] enc_tree(t),
    {
        proof {
            lemma_auto_spec_u16_to_from_le_bytes();
            lemma_auto_spec_u32_to_from_le_bytes();
            lemma_auto_spec_u64_to_from_le_bytes();
            assert forall|t: BKTree| bytes@ == #[trigger] enc_tree(t) implies bytes@.subrange(0, 2)
                == spec_u16_to_le_bytes(t.max_word_length) && bytes@.subrange(2, 4)
                == spec_u16_to_le_bytes(t.alphabet_length) && bytes@.subrange(4, 8)
                == spec_u32_to_le_bytes(t.size) && bytes@.subrange(8, 16) == spec_u64_to_le_bytes(
                t.tree@.len() as u64,
            ) && nodes_match(bytes@, 16, t.tree@, 0) && bytes@.len() == 16 + enc_nodes(
                t.tree@,
                0,
            ).len() by {
                assert(bytes@.subrange(0, bytes@.len() as int) =~= bytes@);
                lemma_match_sub(bytes@, 0, enc_tree(t), 0, 2);
                assert(enc_tree(t).subrange(0, 2) =~= spec_u16_to_le_bytes(t.max_word_length));
                lemma_match_sub(bytes@, 0, enc_tree(t), 2, 4);
                assert(enc_tree(t).subrange(2, 4) =~= spec_u16_to_le_bytes(t.alphabet_length));
                lemma_match_sub(bytes@, 0, enc_tree(t), 4, 8);
                assert(enc_tree(t).subrange(4, 8) =~= spec_u32_to_le_bytes(t.size));
                lemma_match_sub(bytes@, 0, enc_tree(t), 8, 16);
                assert(enc_tree(t).subrange(8, 16) =~= spec_u64_to_le_bytes(
                    t.tree@.len() as u64,
                ));
                lemma_match_sub(bytes@, 0, enc_tree(t), 16, enc_tree(t).len() as int);
                assert(enc_tree(t).subrange(16, enc_tree(t).len() as int) =~= enc_nodes(
                    t.tree@,
                    0,
                ));
            }
        }
        let (mwl, p1) = match parse_u16(bytes, 0) {
            Ok(x) => x,
            Err(e) => {
                return Err(e);
            },
        };
        let (al, p2) = match parse_u16(bytes, p1) {
            Ok(x) => x,
            Err(e) => {
                return Err(e);
            },
        };
        let (sz, p3) = match parse_u32(bytes, p2) {
            Ok(x) => x,
            Err(e) => {
                return Err(e);
            },
        };
        let (cnt, p4) = match parse_u64(bytes, p3) {
            Ok(x) => x,
            Err(e) => {
                return Err(e);
            },
        };
        proof {
            assert forall|t: BKTree| bytes@ == #[trigger] enc_tree(t) implies mwl
                == t.max_word_length && al == t.alphabet_length && sz == t.size && cnt
                == t.tree@.len() as u64 && t.tree@.len() <= usize::MAX by {
                vstd::std_specs::vec::axiom_spec_len(&t.tree);
                assert(spec_u16_to_le_bytes(mwl) == spec_u16_to_le_bytes(t.max_word_length));
                assert(spec_u16_to_le_bytes(al) == spec_u16_to_le_bytes(t.alphabet_length));
                assert(spec_u32_to_le_bytes(sz) == spec_u32_to_le_bytes(t.size));
                assert(spec_u64_to_le_bytes(cnt) == spec_u64_to_le_bytes(t.tree@.len() as u64));
            }
        }
        if cnt > (bytes.len() - p4) as u64 {
            proof {
                assert forall|t: BKTree| bytes@ != #[trigger] enc_tree(t) by {
                    if bytes@ == enc_tree(t) {
                        lemma_enc_nodes_len(t.tree@, 0);
                    }
                }
            }
            return Err(DecodeError::Truncated);
        }
        let cntu = cnt as usize;
        let mut nodes: Vec<Node> = Vec::new();
        let mut p = p4;
        let mut k: usize = 0;
        while k < cntu
            invariant
                k <= cntu,
                p4 <= p <= bytes@.len(),
                nodes@.len() == k,
                bytes@.subrange(p4 as int, p as int) == enc_nodes(nodes@, 0),
                forall|t: BKTree|
                    bytes@ == #[trigger] enc_tree(t) ==> cntu == t.tree@.len() && (forall|j: int|
                        0 <= j < k ==> node_eq(#[trigger] nodes@[j], t.tree@[j])) && nodes_match(
                        bytes@,
                        p as int,
                        t.tree@,
                        k as int,
                    ) && p + enc_nodes(t.tree@, k as int).len() == bytes@.len(),
            decreases cntu - k,
        {
            proof {
                assert forall|t: BKTree| bytes@ == #[trigger] enc_tree(t) implies node_matches(
                    bytes@,
                    p as int,
                    t.tree@[k as int],
                ) by {
                    assert(enc_nodes(t.tree@, k as int) == enc_node(t.tree@[k as int]) + enc_nodes(
                        t.tree@,
                        k + 1,
                    ));
                    assert(enc_nodes(t.tree@, k as int).subrange(
                        0,
                        enc_node(t.tree@[k as int]).len() as int,
                    ) =~= enc_node(t.tree@[k as int]));
                    lemma_match_sub(
                        bytes@,
                        p as int,
                        enc_nodes(t.tree@, k as int),
                        0,
                        enc_node(t.tree@[k as int]).len() as int,
                    );
                }
            }
            let ghost nodes0 = nodes@;
            let ghost pprev = p;
            let (node, pnew) = match parse_node(bytes, p) {
                Ok(x) => x,
                Err(e) => {
                    return Err(e);
                },
            };
            nodes.push(node);
            p = pnew;
            proof {
                lemma_enc_nodes_snoc(nodes0, node, 0);
                assert(bytes@.subrange(p4 as int, p as int) =~= enc_nodes(nodes0, 0) + enc_node(
                    node,
                ));
                assert forall|t: BKTree| bytes@ == #[trigger] enc_tree(t) implies (forall|j: int|
                    0 <= j < k + 1 ==> node_eq(#[trigger] nodes@[j], t.tree@[j])) && nodes_match(
                    bytes@,
                    p as int,
                    t.tree@,
                    k + 1,
                ) && p + enc_nodes(t.tree@, k + 1).len() == bytes@.len() by {
                    assert(node_eq(node, t.tree@[k as int]));
                    assert(enc_node(node) == enc_node(t.tree@[k as int])) by {
                        assert(enc_word(node.word) == enc_word(t.tree@[k as int].word)) by {
                            if node.word is Some {
                                assert(node.word->Some_0@ == t.tree@[k as int].word->Some_0@);
                            }
                        }
                    }
                    assert(enc_nodes(t.tree@, k as int) == enc_node(t.tree@[k as int]) + enc_nodes(
                        t.tree@,
                        k + 1,
                    ));
                    assert(enc_nodes(t.tree@, k as int).subrange(
                        enc_node(t.tree@[k as int]).len() as int,
                        enc_nodes(t.tree@, k as int).len() as int,
                    ) =~= enc_nodes(t.tree@, k + 1));
                    lemma_match_sub(
                        bytes@,
                        pprev as int,
                        enc_nodes(t.tree@, k as int),
                        enc_node(t.tree@[k as int]).len() as int,
                        enc_nodes(t.tree@, k as int).len() as int,
                    );
                    assert forall|j: int| 0 <= j < k + 1 implies node_eq(
                        #[trigger] nodes@[j],
                        t.tree@[j],
                    ) by {
                        if j < k {
                            assert(nodes@[j] == nodes0[j]);
                        }
                    }
                }
            }
            k += 1;
        }
        if p != bytes.len() {
            proof {
                assert forall|t: BKTree| bytes@ != #[trigger] enc_tree(t) by {
                    if bytes@ == enc_tree(t) {
                        assert(enc_nodes(t.tree@, cntu as int) =~= Seq::<u8>::empty());
                    }
                }
            }
            return Err(DecodeError::TrailingBytes);
        }
        let t = BKTree { max_word_length: mwl, alphabet_length: al, tree: nodes, size: sz };
        proof {
            assert(bytes@.subrange(0, 2) =~= spec_u16_to_le_bytes(mwl));
            assert(bytes@.subrange(2, 4) =~= spec_u16_to_le_bytes(al));
            assert(bytes@.subrange(4, 8) =~= spec_u32_to_le_bytes(sz));
            assert(bytes@.subrange(8, 16) =~= spec_u64_to_le_bytes(cnt));
            assert(bytes@ =~= enc_tree(t));
            assert forall|tt: BKTree| bytes@ == #[trigger] enc_tree(tt) implies tree_eq(
                t,
                tt,
            ) by {
                assert(enc_nodes(tt.tree@, cntu as int) =~= Seq::<u8>::empty());
            }
        }
        Ok(t)
    }
}

impl BloomFilter {
    /// Parses the canonical byte string of a filter. Succeeds exactly on the
    /// encoder's outputs, restoring every field verbatim; anything else gets
    /// a typed decode error.
    pub fn decode(bytes: &[u8]) -> (r: Result<BloomFilter, DecodeError>)
        ensures
            r is Ok ==> bytes@ == enc_filter(r->Ok_0),
            forall|f: BloomFilter|
                bytes@ == #[trigger] enc_filter(f) ==> r is Ok && filter_eq(r->Ok_0, f),
            r is Ok <==> exists|f: BloomFilter| bytes@ == #[trigger] enc_filter(f),
    {
        proof {
            lemma_auto_spec_u32_to_from_le_bytes();
            lemma_auto_spec_u64_to_from_le_bytes();
            assert forall|f: BloomFilter| bytes@ == #[trigger] enc_filter(f) implies bytes@.subrange(
                0,
                4,
            ) == spec_u32_to_le_bytes(f.fp_prob_bits) && bytes@.subrange(4, 12)
                == spec_u64_to_le_bytes(f.size) && bytes@.subrange(12, 16) == spec_u32_to_le_bytes(
                f.hash_count,
            ) && bytes@.subrange(16, 24) == spec_u64_to_le_bytes(f.bitarray@.len() as u64)
                && bytes@.subrange(24, bytes@.len() as int) == f.bitarray@ && bytes@.len() == 24
                + f.bitarray@.len() by {
                assert(bytes@.subrange(0, bytes@.len() as int) =~= bytes@);
                lemma_match_sub(bytes@, 0, enc_filter(f), 0, 4);
                assert(enc_filter(f).subrange(0, 4) =~= spec_u32_to_le_bytes(f.fp_prob_bits));
                lemma_match_sub(bytes@, 0, enc_filter(f), 4, 12);
                assert(enc_filter(f).subrange(4, 12) =~= spec_u64_to_le_bytes(f.size));
                lemma_match_sub(bytes@, 0, enc_filter(f), 12, 16);
                assert(enc_filter(f).subrange(12, 16) =~= spec_u32_to_le_bytes(f.hash_count));
                lemma_match_sub(bytes@, 0, enc_filter(f), 16, 24);
                assert(enc_filter(f).subrange(16, 24) =~= spec_u64_to_le_bytes(
                    f.bitarray@.len() as u64,
                ));
                lemma_match_sub(bytes@, 0, enc_filter(f), 24, enc_filter(f).len() as int);
                assert(enc_filter(f).subrange(24, enc_filter(f).len() as int) =~= f.bitarray@);
            }
        }
        let (fpb, p1) = match parse_u32(bytes, 0) {
            Ok(x) => x,
            Err(e) => {
                return Err(e);
            },
        };
        let (size, p2) = match parse_u64(bytes, p1) {
            Ok(x) => x,
            Err(e) => {
                return Err(e);
            },
        };
        let (hc, p3) = match parse_u32(bytes, p2) {
            Ok(x) => x,
            Err(e) => {
                return Err(e);
            },
        };
        let (blen, p4) = match parse_u64(bytes, p3) {
            Ok(x) => x,
            Err(e) => {
                return Err(e);
            },
        };
        proof {
            assert forall|f: BloomFilter| bytes@ == #[trigger] enc_filter(f) implies fpb
                == f.fp_prob_bits && size == f.size && hc == f.hash_count && blen
                == f.bitarray@.len() as u64 && f.bitarray@.len() <= usize::MAX by {
                vstd::std_specs::vec::axiom_spec_len(&f.bitarray);
                assert(spec_u32_to_le_bytes(fpb) == spec_u32_to_le_bytes(f.fp_prob_bits));
                assert(spec_u64_to_le_bytes(size) == spec_u64_to_le_bytes(f.size));
                assert(spec_u32_to_le_bytes(hc) == spec_u32_to_le_bytes(f.hash_count));
                assert(spec_u64_to_le_bytes(blen) == spec_u64_to_le_bytes(
                    f.bitarray@.len() as u64,
                ));
            }
        }
        if blen != (bytes.len() - p4) as u64 {
            return Err(DecodeError::Truncated);
        }
        let bl = blen as usize;
        let seg = slice_subrange(bytes, p4, p4 + bl);
        let bitarray = vstd::slice::slice_to_vec(seg);
        let f = BloomFilter { fp_prob_bits: fpb, size, hash_count: hc, bitarray };
        proof {
            assert(bytes@.subrange(0, 4) =~= spec_u32_to_le_bytes(fpb));
            assert(bytes@.subrange(4, 12) =~= spec_u64_to_le_bytes(size));
            assert(bytes@.subrange(12, 16) =~= spec_u32_to_le_bytes(hc));
            assert(bytes@.subrange(16, 24) =~= spec_u64_to_le_bytes(blen));
            assert(bytes@ =~= enc_filter(f));
        }
        Ok(f)
    }
}

impl BKTree {
    /// Runtime validation for trees that arrive from outside the builder — a
    /// decoded blob, say. Rebuilds an arena by reinserting the stored words
    /// in slot order and accepts only a field-for-field match with what the
    /// verified builder produced, so every accepted tree is well-formed and
    /// safe to query. A blob that decodes but matches no built tree is
    /// rejected, as is one whose words break the configuration.
    #[verifier::loop_isolation(false)]
    pub fn validate(&self) -> (r: bool)
        ensures
            r ==> self.wf(),
    {
        if self.size as usize > self.tree.len() {
            return false;
        }
        if self.tree.len() > u32::MAX as usize {
            return false;
        }
        let mut fresh = BKTree::new(self.max_word_length, self.alphabet_length, self.tree.len());
        let mut j: usize = 0;
        while j < self.size as usize
            invariant
                j <= self.size as usize,
                fresh.wf(),
                fresh.max_word_length == self.max_word_length,
                fresh.alphabet_length == self.alphabet_length,
                fresh.capacity() == self.tree@.len(),
            decreases self.size as usize - j,
        {
            match &self.tree[j].word {
                Some(w) => {
                    match fresh.add(w.as_str()) {
                        Ok(()) => {
                        },
                        Err(_) => {
                            return false;
                        },
                    }
                },
                None => {
                    return false;
                },
            }
            j += 1;
        }
        if fresh.size != self.size {
            return false;
        }
        let count = self.tree.len();
        let mut j2: usize = 0;
        while j2 < count
            invariant
                j2 <= count,
                count == self.tree@.len(),
                fresh.wf(),
                fresh.max_word_length == self.max_word_length,
                fresh.alphabet_length == self.alphabet_length,
                fresh.size == self.size,
                fresh.tree@.len() == self.tree@.len(),
                forall|q: int| 0 <= q < j2 ==> node_eq(fresh.tree@[q], #[trigger] self.tree@[q]),
            decreases count - j2,
        {
            let same_word: bool = match &fresh.tree[j2].word {
                None => match &self.tree[j2].word {
                    None => true,
                    Some(_) => false,
                },
                Some(a) => match &self.tree[j2].word {
                    None => false,
                    Some(b) => a.eq(b),
                },
            };
            if !same_word {
                return false;
            }
            proof {
                assert(word_eq(fresh.tree@[j2 as int].word, self.tree@[j2 as int].word));
            }
            let width = self.tree[j2].next.len();
            if fresh.tree[j2].next.len() != width {
                return false;
            }
            let mut k: usize = 0;
            while k < width
                invariant
                    k <= width,
                    j2 < count,
                    width == self.tree@[j2 as int].next@.len(),
                    width == fresh.tree@[j2 as int].next@.len(),
                    forall|q: int|
                        0 <= q < k ==> (#[trigger] fresh.tree@[j2 as int].next@[q])
                            == self.tree@[j2 as int].next@[q],
                decreases width - k,
            {
                let same: bool = match fresh.tree[j2].next[k] {
                    None => match self.tree[j2].next[k] {
                        None => true,
                        Some(_) => false,
                    },
                    Some(x) => match self.tree[j2].next[k] {
                        None => false,
                        Some(y) => x == y,
                    },
                };
                if !same {
                    return false;
                }
                k += 1;
            }
            proof {
                assert(fresh.tree@[j2 as int].next@ =~= self.tree@[j2 as int].next@);
                assert(node_eq(fresh.tree@[j2 as int], self.tree@[j2 as int]));
            }
            j2 += 1;
        }
        proof {
            assert(tree_eq(fresh, *self));
            lemma_tree_eq_preserves_wf(fresh, *self);
        }
        true
    }
}

proof fn lemma_in_subtree_congruent(ta: Seq<Node>, tb: Seq<Node>, i: int, j: int)
    requires
        ta.len() == tb.len(),
        forall|q: int| 0 <= q < ta.len() ==> node_eq(#[trigger] ta[q], tb[q]),
        edges_increase(ta),
        0 <= i < ta.len(),
    ensures
        in_subtree(tb, i, j) == in_subtree(ta, i, j),
    decreases ta.len() - i,
{
    assert forall|x: int, e: int| #[trigger] has_edge(ta, x, e) implies has_edge(tb, x, e)
        && edge_target(tb, x, e) == edge_target(ta, x, e) by {
        assert(node_eq(ta[x], tb[x]));
    }
    assert forall|x: int, e: int| #[trigger] has_edge(tb, x, e) implies has_edge(ta, x, e)
        && edge_target(tb, x, e) == edge_target(ta, x, e) by {
        assert(node_eq(ta[x], tb[x]));
    }
    assert(edges_increase(tb));
    if in_subtree(ta, i, j) && i != j {
        let e = choose|e: int|
            #[trigger] has_edge(ta, i, e) && in_subtree(ta, edge_target(ta, i, e), j);
        lemma_in_subtree_congruent(ta, tb, edge_target(ta, i, e), j);
        assert(has_edge(tb, i, e) && in_subtree(tb, edge_target(tb, i, e), j));
    }
    if in_subtree(tb, i, j) && i != j {
        let e = choose|e: int|
            #[trigger] has_edge(tb, i, e) && in_subtree(tb, edge_target(tb, i, e), j);
        lemma_in_subtree_congruent(ta, tb, edge_target(ta, i, e), j);
        assert(has_edge(ta, i, e) && in_subtree(ta, edge_target(ta, i, e), j));
    }
}

/// A tree that agrees field for field with a well-formed tree is itself
/// well-formed: reloading a persisted index yields a tree that supports the
/// same insertions and queries as the one that was saved.
pub proof fn lemma_tree_eq_preserves_wf(a: BKTree, b: BKTree)
    requires
        tree_eq(a, b),
        a.wf(),
    ensures
        b.wf(),
{
    let ta = a.tree@;
    let tb = b.tree@;
    assert forall|q: int| 0 <= q < ta.len() implies word_at(tb, q) == word_at(ta, q) by {
        assert(node_eq(ta[q], tb[q]));
    }
    assert forall|x: int, e: int| #[trigger] has_edge(tb, x, e) implies has_edge(ta, x, e)
        && edge_target(tb, x, e) == edge_target(ta, x, e) by {
        assert(node_eq(ta[x], tb[x]));
    }
    assert forall|x: int, e: int| #[trigger] has_edge(ta, x, e) implies has_edge(tb, x, e)
        && edge_target(tb, x, e) == edge_target(ta, x, e) by {
        assert(node_eq(ta[x], tb[x]));
    }
    assert forall|q: int| 0 <= q < tb.len() implies (#[trigger] tb[q]).next@.len()
        == crate::bk_tree::child_width(b.max_word_length) by {
        assert(node_eq(ta[q], tb[q]));
    }
    assert forall|q: int| 0 <= q < b.size as int implies (#[trigger] tb[q]).word is Some by {
        assert(node_eq(ta[q], tb[q]));
    }
    assert forall|q: int| b.size as int <= q < tb.len() implies (#[trigger] tb[q]).word
        is None by {
        assert(node_eq(ta[q], tb[q]));
    }
    assert forall|q: int, e: int|
        b.size as int <= q < tb.len() && 0 <= e < tb[q].next@.len() implies (#[trigger] tb[q].next@[e])
        is None by {
        assert(node_eq(ta[q], tb[q]));
    }
    assert forall|x: int, e: int, j: int|
        #[trigger] has_edge(tb, x, e) && #[trigger] in_subtree(tb, edge_target(tb, x, e), j) && 0
            <= j < tb.len() implies dl_distance(word_at(tb, x), word_at(tb, j)) == e by {
        lemma_in_subtree_congruent(ta, tb, edge_target(ta, x, e), j);
        assert(in_subtree(ta, edge_target(ta, x, e), j));
        assert(word_at(tb, x) == word_at(ta, x) && word_at(tb, j) == word_at(ta, j));
    }
    assert forall|j: int| 0 <= j < b.size as int implies in_subtree(tb, 0, j) by {
        lemma_in_subtree_congruent(ta, tb, 0, j);
    }
}

} // verus!
