use letter_bounced::dictionary::{Dictionary, Word};
use letter_bounced::wordlist::is_playable_word;

#[test]
fn test_extract_digraphs_simple() {
    let expected_digraphs: Vec<String> = vec![
        "AT".to_string(),
        "IR".to_string(),
        "PI".to_string(),
        "RA".to_string(),
        "TE".to_string(),
    ];

    let dictionary = Dictionary::from_strings(vec!["PIRATE".to_string()]);
    let word = &dictionary.words[0];

    assert_eq!(word.digraph_indices.len(), 5);

    let mut resolved_digraphs: Vec<String> = word
        .digraph_indices
        .iter()
        .map(|&idx| dictionary.digraph_strings[idx as usize].clone())
        .collect();
    resolved_digraphs.sort();

    assert_eq!(resolved_digraphs, expected_digraphs);
}

#[test]
fn test_from_bytes_valid_utf8() {
    let text_data = "hello 25\nworld 30\ntest 15\n";
    let bytes = text_data.as_bytes();

    let dictionary = Dictionary::from_bytes(bytes).expect("Should parse valid UTF-8");

    assert_eq!(dictionary.words.len(), 3);
    assert_eq!(dictionary.words[0].word, "hello");
    assert_eq!(dictionary.words[0].frequency, 25);
    assert_eq!(dictionary.words[1].word, "world");
    assert_eq!(dictionary.words[1].frequency, 30);
    assert_eq!(dictionary.words[2].word, "test");
    assert_eq!(dictionary.words[2].frequency, 15);
}

#[test]
fn test_from_bytes_invalid_utf8() {
    let invalid_bytes = vec![0xFF, 0xFE, 0xFD];

    let result = Dictionary::from_bytes(&invalid_bytes);

    assert!(result.is_err());
    assert!(result.unwrap_err().contains("Invalid UTF-8"));
}

#[test]
fn test_is_playable_word() {
    assert!(!is_playable_word("peer"));
    assert!(!is_playable_word("book"));
    assert!(!is_playable_word("coffee"));
    assert!(!is_playable_word("llama"));

    assert!(!is_playable_word("an"));
    assert!(!is_playable_word(""));

    assert!(is_playable_word("dojo"));
    assert!(is_playable_word("word"));
}

// Own tests.

#[test]
fn table_is_sorted_and_shared_by_words() {
    let dictionary = Dictionary::from_strings(vec!["bab".to_string(), "abc".to_string(), "x".to_string()]);
    assert_eq!(dictionary.digraph_strings, vec!["ab", "ba", "bc"]);
    assert_eq!(dictionary.digraphs, dictionary.digraph_strings);
    assert_eq!(dictionary.words[0].digraph_indices, vec![1, 0]);
    assert_eq!(dictionary.words[1].digraph_indices, vec![0, 2]);
    assert!(dictionary.words[2].digraph_indices.is_empty());
    assert_eq!(dictionary.words[0].frequency, Dictionary::DEFAULT_FREQUENCY);
    assert_eq!(dictionary.digraph_to_index.len(), 3);
}

#[test]
fn empty_word_has_no_digraphs() {
    let dictionary = Dictionary::from_words(vec![Word::new(String::new(), 3), Word::new("ab".to_string(), 4)]);
    assert_eq!(dictionary.words.len(), 2);
    assert!(dictionary.words[0].digraph_indices.is_empty());
    assert_eq!(dictionary.digraph_strings, vec!["ab"]);
}

#[test]
fn with_digraph_indices_skips_unknown_digraphs() {
    let dictionary = Dictionary::from_strings(vec!["ab".to_string()]);
    let word = Word::with_digraph_indices("abc".to_string(), 7, &dictionary.digraph_to_index);
    assert_eq!(word.word, "abc");
    assert_eq!(word.frequency, 7);
    assert_eq!(word.digraph_indices, vec![0]);
    let fresh = Word::new("abc".to_string(), 2);
    assert!(fresh.digraph_indices.is_empty());
}

#[test]
fn text_lines_that_do_not_parse_are_skipped() {
    let text = "alpha 10\nbroken\n\nbeta x\ngamma\t-3 extra\r\ndelta 200\n  epsilon   127  \nzeta +5";
    let dictionary = Dictionary::from_text(text);
    let got: Vec<(String, i8)> = dictionary.words.iter().map(|w| (w.word.clone(), w.frequency)).collect();
    assert_eq!(
        got,
        vec![
            ("alpha".to_string(), 10),
            ("gamma".to_string(), -3),
            ("epsilon".to_string(), 127),
            ("zeta".to_string(), 5),
        ]
    );
}

#[test]
fn frequency_limits_of_i8() {
    let dictionary = Dictionary::from_text("a -128\nb 128\nc -129\nd 0007\ne -\nf +");
    let got: Vec<(String, i8)> = dictionary.words.iter().map(|w| (w.word.clone(), w.frequency)).collect();
    assert_eq!(got, vec![("a".to_string(), -128), ("d".to_string(), 7)]);
}

#[test]
fn empty_text_gives_empty_dictionary() {
    let dictionary = Dictionary::from_text("");
    assert!(dictionary.words.is_empty());
    assert!(dictionary.digraph_strings.is_empty());
}

#[test]
fn playable_word_checks_length_in_bytes() {
    assert!(is_playable_word("but"));
    assert!(!is_playable_word("butt"));
    assert!(is_playable_word("ée"));
    assert!(is_playable_word("\0ab"));
    assert!(!is_playable_word("a\0\0b"));
}
