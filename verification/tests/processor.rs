use spell_check::processor::{get_words, join_input, join_word, split_input, split_word};

#[test]
fn test_get_words() {
    let string: String = "Hello, world!".to_string();
    let words: Vec<String> = get_words(&string);
    assert_eq!(words, vec!["Hello,".to_string(), "world!".to_string()]);
}

#[test]
fn test_split_word() {
    let word: String = "!!!Hello,".to_string();
    let (starting_punctuations, middle_word, ending_punctuations): (String, String, String) =
        split_word(&word);
    assert_eq!(starting_punctuations, "!!!");
    assert_eq!(middle_word, "Hello");
    assert_eq!(ending_punctuations, ",");

    let word = "world!!!".to_string();
    let (starting_punctuations, middle_word, ending_punctuations): (String, String, String) =
        split_word(&word);
    assert_eq!(starting_punctuations, "");
    assert_eq!(middle_word, "world");
    assert_eq!(ending_punctuations, "!!!");
}

#[test]
fn test_split_input() {
    let word: String = "Hello, how are you, my name is John.".to_string();
    let split_words: Vec<(String, String, String)> = split_input(&word);

    assert_eq!(split_words[0], ("".to_string(), "Hello".to_string(), ",".to_string()));
    assert_eq!(split_words[1], ("".to_string(), "how".to_string(), "".to_string()));
    assert_eq!(split_words[2], ("".to_string(), "are".to_string(), "".to_string()));
    assert_eq!(split_words[3], ("".to_string(), "you".to_string(), ",".to_string()));
    assert_eq!(split_words[4], ("".to_string(), "my".to_string(), "".to_string()));
    assert_eq!(split_words[5], ("".to_string(), "name".to_string(), "".to_string()));
    assert_eq!(split_words[6], ("".to_string(), "is".to_string(), "".to_string()));
    assert_eq!(split_words[7], ("".to_string(), "John".to_string(), ".".to_string()));
}

#[test]
fn test_join_word() {
    let parts: (String, String, String) = ("".to_string(), "Hello".to_string(), ",".to_string());
    let word: String = join_word(parts);
    assert_eq!(word, "Hello,");
}

#[test]
fn test_join_input() {
    let split_words: Vec<(String, String, String)> = vec![
        ("".to_string(), "Hello".to_string(), ",".to_string()),
        ("".to_string(), "how".to_string(), "".to_string()),
        ("".to_string(), "are".to_string(), "".to_string()),
        ("".to_string(), "you".to_string(), ",".to_string()),
        ("".to_string(), "my".to_string(), "".to_string()),
        ("".to_string(), "name".to_string(), "".to_string()),
        ("".to_string(), "is".to_string(), "".to_string()),
        ("".to_string(), "John".to_string(), ".".to_string()),
    ];
    let input: String = join_input(split_words);
    assert_eq!(input, "Hello, how are you, my name is John.");
}

#[test]
fn test_split_word_all_punctuation() {
    let word = "!!!".to_string();
    let (start, middle, end) = split_word(&word);
    assert_eq!(start, "!!!");
    assert_eq!(middle, "");
    assert_eq!(end, "");
}

#[test]
fn test_join_input_empty() {
    let input: String = join_input(Vec::new());
    assert_eq!(input, "");
}
