use spell_check::bk_tree::BKTree;
use spell_check::bloom_filter::BloomFilter;
use spell_check::spell_check::{convert_case, find_suggestions};

#[test]
fn test_convert_case() {
    assert_eq!(convert_case("world", "peter"), "world");
    assert_eq!(convert_case("abc", "XY"), "ABc");
    assert_eq!(convert_case("hello", "HELLO"), "HELLO");
    assert_eq!(convert_case("it's", "IT'S"), "IT'S");
}

#[test]
fn test_find_suggestions() {
    let mut tree: BKTree = BKTree::new(5, 255, 5);
    for word in ["hello", "world", "hella", "hell", "help"] {
        tree.add(word).unwrap();
    }
    let (tolerance, suggestions) = find_suggestions(&tree, "helo");
    assert_eq!(tolerance, 1);
    assert!(suggestions.len() >= 1);
    assert!(suggestions.contains(&"hello".to_string()) || suggestions.contains(&"hell".to_string()));

    // even a far-away token eventually gets candidates
    let (far_tolerance, far) = find_suggestions(&tree, "zzzzz");
    assert!(far_tolerance >= 1);
    assert!(far.len() >= 1);
}

#[test]
fn test_lookup_after_inserts_never_fails() {
    let mut bf = BloomFilter::from_params(64, 4, 0);
    let words = ["alpha", "beta", "gamma", "delta"];
    for (i, w) in words.iter().enumerate() {
        bf.insert(w);
        for earlier in &words[..=i] {
            assert!(bf.lookup(earlier));
        }
    }
}
