use spell_check::bk_tree::{BKTree, Node};
use spell_check::bloom_filter::BloomFilter;
use spell_check::codec::DecodeError;

fn five_word_tree() -> BKTree {
    let mut tree: BKTree = BKTree::new(5, 255, 5);
    for word in ["hello", "world", "hella", "hell", "help"] {
        tree.add(word).unwrap();
    }
    tree
}

#[test]
fn test_file_serialization() {
    let tree = five_word_tree();
    let bytes = tree.encode();
    let new_tree: BKTree = BKTree::decode(bytes.as_slice()).expect("Failed to decode BKTree");
    assert_eq!(tree, new_tree);
}

#[test]
fn test_ser_deser() {
    let fp_prob: f32 = 0.01;
    let size = (-(20f32) * fp_prob.ln() / (2f32.ln() * 2f32.ln())).ceil() as u64;
    let hash_count = ((size as f32) * 2f32.ln() / 20f32).ceil() as u32;
    let mut bf = BloomFilter::from_params(size, hash_count, fp_prob.to_bits());
    let word_present = vec![
        "A", "quick", "brown", "Fox", "jUmps", "over", "A", "lazy", "DOG",
    ];

    for word in word_present.iter() {
        bf.insert(word);
    }

    let bytes = bf.encode();
    let new_bf = BloomFilter::decode(bytes.as_slice()).unwrap();
    assert_eq!(bf, new_bf);
}

#[test]
fn test_reload_preserves_queries() {
    let tree = five_word_tree();
    let bytes = tree.encode();
    let reloaded = BKTree::decode(bytes.as_slice()).expect("Failed to decode BKTree");
    for query in ["hell", "world", "help", "hulk"] {
        for tolerance in 0..3usize {
            let before = tree.get_similar_words(query, tolerance);
            let after = reloaded.get_similar_words(query, tolerance);
            assert_eq!(before, after);
        }
    }
}

#[test]
fn test_decode_truncated() {
    let tree = five_word_tree();
    let mut bytes = tree.encode();
    bytes.truncate(bytes.len() - 3);
    assert_eq!(BKTree::decode(bytes.as_slice()), Err(DecodeError::Truncated));
    assert_eq!(BKTree::decode(&[]), Err(DecodeError::Truncated));
    assert_eq!(
        BloomFilter::decode(&[1, 2, 3]),
        Err(DecodeError::Truncated)
    );
}

#[test]
fn test_decode_bad_tag() {
    let tree = five_word_tree();
    let mut bytes = tree.encode();
    // the first node's word tag sits right after the 16-byte header
    bytes[16] = 7;
    assert_eq!(BKTree::decode(bytes.as_slice()), Err(DecodeError::BadTag));
}

#[test]
fn test_decode_bad_utf8() {
    let tree = five_word_tree();
    let mut bytes = tree.encode();
    // the first byte of the first word follows its tag and length
    bytes[16 + 1 + 8] = 0xFF;
    assert_eq!(BKTree::decode(bytes.as_slice()), Err(DecodeError::BadUtf8));
}

#[test]
fn test_decode_trailing_bytes() {
    let tree = five_word_tree();
    let mut bytes = tree.encode();
    bytes.push(0);
    assert_eq!(
        BKTree::decode(bytes.as_slice()),
        Err(DecodeError::TrailingBytes)
    );
}

#[test]
fn test_empty_tree_round_trip() {
    let tree = BKTree::new(7, 255, 3);
    let bytes = tree.encode();
    let new_tree = BKTree::decode(bytes.as_slice()).unwrap();
    assert_eq!(tree, new_tree);
}

#[test]
fn test_validate_round_trip() {
    let tree = five_word_tree();
    let reloaded = BKTree::decode(tree.encode().as_slice()).unwrap();
    assert!(reloaded.validate());
}

#[test]
fn test_validate_rejects_tampered_tree() {
    // a decodable but structurally invalid tree: one occupied slot, no word
    let bogus = BKTree {
        max_word_length: 5,
        alphabet_length: 255,
        tree: vec![Node { word: None, next: vec![None; 11] }],
        size: 1,
    };
    let reloaded = BKTree::decode(bogus.encode().as_slice()).unwrap();
    assert!(!reloaded.validate());
}

#[test]
fn test_check_wf() {
    let fp_prob: f32 = 0.01;
    let mut bf = BloomFilter::from_params(64, 4, fp_prob.to_bits());
    bf.insert("quick");
    let reloaded = BloomFilter::decode(bf.encode().as_slice()).unwrap();
    assert!(reloaded.check_wf());
    let bogus = BloomFilter {
        fp_prob_bits: 0,
        size: 3,
        hash_count: 2,
        bitarray: vec![0, 7, 1],
    };
    assert!(!bogus.check_wf());
    let mismatched = BloomFilter {
        fp_prob_bits: 0,
        size: 9,
        hash_count: 2,
        bitarray: vec![0, 1],
    };
    assert!(!mismatched.check_wf());
}
