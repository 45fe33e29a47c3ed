use spell_check::bk_tree::{BKTree, CapacityError};

#[test]
fn test_similar_words() {
    let mut tree: BKTree = BKTree::new(5, 255, 5);

    tree.add("hello").unwrap();
    tree.add("world").unwrap();
    tree.add("hella").unwrap();
    tree.add("hell").unwrap();
    tree.add("help").unwrap();

    let similar_words: Vec<String> = tree.get_similar_words("hell", 1);
    assert_eq!(similar_words.len(), 4);
    assert!(similar_words.contains(&"hello".to_string()));
    assert!(similar_words.contains(&"hella".to_string()));
    assert!(similar_words.contains(&"hell".to_string()));
    assert!(similar_words.contains(&"help".to_string()));
}

#[test]
fn test_contains_after_add() {
    let mut tree: BKTree = BKTree::new(5, 255, 5);
    for word in ["hello", "world", "hella", "hell", "help"] {
        tree.add(word).unwrap();
    }
    for word in ["hello", "world", "hella", "hell", "help"] {
        assert!(tree.does_contain(word));
        let range = tree.get_similar_words(word, 0);
        assert!(range.contains(&word.to_string()));
    }
    assert!(!tree.does_contain("helper"));
    assert!(!tree.does_contain("word"));
}

#[test]
fn test_add_is_idempotent() {
    let mut tree: BKTree = BKTree::new(5, 255, 5);
    tree.add("hello").unwrap();
    tree.add("world").unwrap();
    assert_eq!(tree.size, 2);
    tree.add("hello").unwrap();
    assert_eq!(tree.size, 2);
}

#[test]
fn test_add_rejections() {
    let mut tree: BKTree = BKTree::new(5, 255, 1);
    assert_eq!(tree.add("overlong"), Err(CapacityError::WordTooLong));
    assert_eq!(tree.add("hēllo"), Err(CapacityError::CharOutOfAlphabet));
    tree.add("hello").unwrap();
    assert_eq!(tree.add("hell"), Err(CapacityError::TreeFull));
    tree.add("hello").unwrap();
}

#[test]
fn test_query_on_empty_tree() {
    let tree: BKTree = BKTree::new(5, 255, 5);
    assert_eq!(tree.get_similar_words("hell", 4).len(), 0);
    let unallocated: BKTree = BKTree::new(5, 255, 0);
    assert_eq!(unallocated.get_similar_words("", 0).len(), 0);
}

#[test]
fn test_query_has_no_duplicates() {
    let mut tree: BKTree = BKTree::new(5, 255, 5);
    for word in ["hello", "world", "hella", "hell", "help"] {
        tree.add(word).unwrap();
    }
    for tolerance in 0..6usize {
        let found = tree.get_similar_words("hell", tolerance);
        for x in 0..found.len() {
            for y in (x + 1)..found.len() {
                assert_ne!(found[x], found[y]);
            }
        }
    }
}
