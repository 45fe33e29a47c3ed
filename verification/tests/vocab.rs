use spell_check::dictionary::Dictionary;

#[test]
fn test_from_words() {
    let lines = vec![
        "Hello".to_string(),
        "WORLD".to_string(),
        "puzzles".to_string(),
    ];
    let dictionary = Dictionary::from_words(lines, 255);
    assert_eq!(dictionary.alphabet_length, 255);
    assert_eq!(dictionary.max_word_length, 7);
    assert_eq!(
        dictionary.words,
        vec![
            "hello".to_string(),
            "world".to_string(),
            "puzzles".to_string()
        ]
    );
}

#[test]
fn test_from_words_empty() {
    let dictionary = Dictionary::from_words(Vec::new(), 128);
    assert_eq!(dictionary.words.len(), 0);
    assert_eq!(dictionary.max_word_length, 0);
    assert_eq!(dictionary.alphabet_length, 128);
}
