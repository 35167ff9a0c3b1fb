use cipher_crack::dict::Dict;

fn sample_dict() -> Dict {
    Dict::new(vec![
        "hello".to_string(),
        "world".to_string(),
        "attack".to_string(),
        "at".to_string(),
        "dawn".to_string(),
    ])
}

#[test]
fn contains_every_word_checks_each_entry() {
    let dict = sample_dict();
    let all_in = vec!["hello".to_string(), "at".to_string(), "dawn".to_string()];
    assert!(dict.contains_every_word(&all_in));
    let one_out = vec!["hello".to_string(), "moon".to_string()];
    assert!(!dict.contains_every_word(&one_out));
    let none: Vec<String> = vec![];
    assert!(dict.contains_every_word(&none));
}

#[test]
fn str_check_strips_punctuation() {
    let dict = sample_dict();
    assert!(dict.str_contains_every_word("hello, world!"));
    assert!(dict.str_contains_every_word("attack at dawn."));
    assert!(!dict.str_contains_every_word("attack at noon"));
}

#[test]
fn count_words_counts_dictionary_hits() {
    let dict = sample_dict();
    let list = vec![
        "hello".to_string(),
        "moon".to_string(),
        "dawn".to_string(),
        "dawn".to_string(),
    ];
    assert_eq!(dict.count_words(&list), 3);
    let empty: Vec<String> = vec![];
    assert_eq!(dict.count_words(&empty), 0);
}
