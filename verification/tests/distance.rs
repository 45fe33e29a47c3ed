use spell_check::bk_tree::BKTree;

#[test]
fn test_distance_transposition() {
    let tree = BKTree::new(8, 255, 0);
    assert_eq!(tree.get_damerau_levenshtein_distance("hello", "hell"), 1);
    assert_eq!(tree.get_damerau_levenshtein_distance("ab", "ba"), 1);
}

#[test]
fn test_distance_symmetric() {
    let tree = BKTree::new(8, 255, 0);
    for (a, b) in [("hello", "help"), ("abc", ""), ("kitten", "sitting")] {
        assert_eq!(
            tree.get_damerau_levenshtein_distance(a, b),
            tree.get_damerau_levenshtein_distance(b, a)
        );
    }
}

#[test]
fn test_distance_zero_iff_equal() {
    let tree = BKTree::new(8, 255, 0);
    assert_eq!(tree.get_damerau_levenshtein_distance("hello", "hello"), 0);
    assert_eq!(tree.get_damerau_levenshtein_distance("", ""), 0);
    assert!(tree.get_damerau_levenshtein_distance("hello", "hella") > 0);
}

#[test]
fn test_distance_values() {
    let tree = BKTree::new(8, 255, 0);
    assert_eq!(tree.get_damerau_levenshtein_distance("", "abc"), 3);
    assert_eq!(tree.get_damerau_levenshtein_distance("kitten", "sitting"), 3);
    assert_eq!(tree.get_damerau_levenshtein_distance("ca", "abc"), 2);
}
