use letter_bounced::board::{Board, BoardError};
use letter_bounced::dictionary::Dictionary;
use std::collections::HashSet;

fn strs_to_vec_strings(strs: &[&str]) -> Vec<String> {
    strs.iter().map(|s| s.to_string()).collect()
}

fn has(list: &[String], s: &str) -> bool {
    list.iter().any(|d| d == s)
}

#[test]
fn test_playable_dictionary_digraphs() {
    let words = &["exfoliating", "monologue", "fungi", "exam", "text", "gym", "gulf", "zing"];
    let dictionary = Dictionary::from_strings(strs_to_vec_strings(words));
    assert!(has(&dictionary.digraphs, "ex"));
    assert!(has(&dictionary.digraphs, "og"));
    assert!(has(&dictionary.digraphs, "gu"));
    assert!(has(&dictionary.digraphs, "fu"));
    assert!(has(&dictionary.digraphs, "xt"));
    assert!(has(&dictionary.digraphs, "zi"));
    assert!(!has(&dictionary.digraphs, "ou"));

    let board = Board::from_sides(strs_to_vec_strings(&["otx", "gmi", "fle", "aun"])).unwrap();

    let playable = board.playable_dictionary(&dictionary);
    assert!(has(&playable.digraphs, "ex"));
    assert!(has(&playable.digraphs, "og"));
    assert!(has(&playable.digraphs, "gu"));
    // FUNGI is not playable (GI is same-side), so FU is not used by any kept word.
    assert!(!has(&playable.digraphs, "fu"));
    assert!(!has(&playable.digraphs, "xt"));
    assert!(!has(&playable.digraphs, "zi"));
    assert!(!has(&playable.digraphs, "ou"));
}

#[test]
fn test_playable_dictionary_filters_words_with_invalid_letters() {
    let board = Board::from_sides(strs_to_vec_strings(&["otx", "gmi", "fle", "aun"])).unwrap();

    let impossible_words = &["demagogue"];
    let possible_words = &["exfoliating", "monologue"];
    let all_words = &[&impossible_words[..], &possible_words[..]].concat();

    let dictionary = Dictionary::from_strings(strs_to_vec_strings(all_words));
    let playable = board.playable_dictionary(&dictionary);

    for word in impossible_words.iter() {
        assert!(
            !playable.words.iter().any(|w| &w.word == word),
            "Word '{}' should not be playable",
            word
        );
    }

    for word in possible_words.iter() {
        assert!(
            playable.words.iter().any(|w| &w.word == word),
            "Word '{}' should be playable",
            word
        );
    }
}

#[test]
fn test_playable_dictionary_filters_words_with_same_side_digraphs() {
    let board = Board::from_sides(strs_to_vec_strings(&["otx", "gmi", "fle", "aun"])).unwrap();

    let impossible_words = &["gin", "mingle"];
    let possible_words = &["exfoliating", "monologue"];
    let all_words = &[&impossible_words[..], &possible_words[..]].concat();

    let dictionary = Dictionary::from_strings(strs_to_vec_strings(all_words));
    let playable = board.playable_dictionary(&dictionary);

    for word in impossible_words.iter() {
        assert!(
            !playable.words.iter().any(|w| w.word == *word),
            "Word '{}' should not be playable",
            word
        );
    }

    for word in possible_words.iter() {
        assert!(
            playable.words.iter().any(|w| w.word == *word),
            "Word '{}' should be playable",
            word
        );
    }
}

#[test]
fn test_validate_sides_content_rejects_non_ascii() {
    let result = Board::from_sides(strs_to_vec_strings(&["otx", "gmi", "fl3", "aun"]));
    match result {
        Err(BoardError::InvalidCharacter { ch, side }) => {
            assert_eq!(ch, '3');
            assert_eq!(side, "left");
        }
        _ => panic!("Expected InvalidCharacter error, got: {:?}", result),
    }
}

#[test]
fn test_validate_normal_board() {
    let result = Board::from_sides(strs_to_vec_strings(&["otx", "gmi", "fle", "aun"]));
    assert!(result.is_ok());
}

#[test]
fn test_rejects_duplicate_on_different_sides() {
    let result = Board::from_sides(strs_to_vec_strings(&["otx", "gmi", "fle", "tun"]));
    match result {
        Err(BoardError::DuplicateLetter { letter, location }) => {
            assert_eq!(letter, 't');
            assert!(location.contains("top"));
            assert!(location.contains("bottom"));
        }
        _ => panic!("Expected DuplicateLetter error, got: {:?}", result),
    }
}

#[test]
fn test_validate_sides_content_rejects_duplicate_on_same_side() {
    let result = Board::from_sides(strs_to_vec_strings(&["ott", "gmi", "fle", "aun"]));
    match result {
        Err(BoardError::DuplicateLetter { letter, location }) => {
            assert_eq!(letter, 't');
            assert!(location.contains("top"));
            assert!(
                !location.contains("and"),
                "Should not mention multiple sides for same-side duplicate"
            );
        }
        _ => panic!("Expected DuplicateLetter error, got: {:?}", result),
    }
}

#[test]
fn test_validate_zero_length_side() {
    let result = Board::from_sides(strs_to_vec_strings(&["otx", "gmi", "fle", ""]));
    match result {
        Err(BoardError::EmptySide) => {}
        _ => panic!("Expected EmptySide error, got: {:?}", result),
    }
}

#[test]
fn test_validate_non_equal_length_sides() {
    let result = Board::from_sides(strs_to_vec_strings(&["otx", "gmi", "fle", "aunz"]));
    match result {
        Err(BoardError::UnequalSideLengths { side1, len1, side2, len2 }) => {
            assert_eq!(side1, "top");
            assert_eq!(len1, 3);
            assert_eq!(side2, "bottom");
            assert_eq!(len2, 4);
        }
        _ => panic!("Expected UnequalSideLengths error, got: {:?}", result),
    }
}

#[test]
fn test_playable_digraphs() {
    let sides = strs_to_vec_strings(&["ab", "cd", "ef", "gh"]);
    let board = Board::from_sides(sides).unwrap();
    let expected_digraphs: HashSet<String> = vec![
        "ac", "ad", "ae", "af", "ag", "ah",
        "bc", "bd", "be", "bf", "bg", "bh",
        "ca", "cb", "ce", "cf", "cg", "ch",
        "da", "db", "de", "df", "dg", "dh",
        "ea", "eb", "ec", "ed", "eg", "eh",
        "fa", "fb", "fc", "fd", "fg", "fh",
        "ga", "gb", "gc", "gd", "ge", "gf",
        "ha", "hb", "hc", "hd", "he", "hf",
    ]
    .into_iter()
    .map(String::from)
    .collect();

    let got: HashSet<String> = board.digraphs.iter().cloned().collect();
    assert_eq!(got, expected_digraphs);
}

// Own tests.

#[test]
fn digraphs_listed_once_and_within_bound() {
    let board = Board::from_sides(strs_to_vec_strings(&["ab", "cd", "ef", "gh"])).unwrap();
    // 8 letters, 4 sides of 2: 64 - 4 * 4 = 48 ordered cross-side pairs.
    assert_eq!(board.digraphs.len(), 48);
    let unique: HashSet<&String> = board.digraphs.iter().collect();
    assert_eq!(unique.len(), 48);
    assert!(!has(&board.digraphs, "ab"));
    assert!(has(&board.digraphs, "ba") == false);
    assert!(has(&board.digraphs, "ha"));
}

#[test]
fn rejects_wrong_side_count() {
    let result = Board::from_sides(strs_to_vec_strings(&["abc", "def", "ghi"]));
    match result {
        Err(BoardError::InvalidSideCount(n)) => assert_eq!(n, 3),
        _ => panic!("Expected InvalidSideCount error, got: {:?}", result),
    }
    let result = Board::from_sides(strs_to_vec_strings(&["ab", "cd", "ef", "gh", "ij"]));
    assert!(matches!(result, Err(BoardError::InvalidSideCount(5))));
}

#[test]
fn side_count_is_checked_before_empty_sides() {
    let result = Board::from_sides(strs_to_vec_strings(&["", "def", "ghi"]));
    assert!(matches!(result, Err(BoardError::InvalidSideCount(3))));
}

#[test]
fn empty_side_is_checked_before_lengths() {
    let result = Board::from_sides(strs_to_vec_strings(&["abcd", "e", "", "fg"]));
    assert!(matches!(result, Err(BoardError::EmptySide)));
}

#[test]
fn unequal_lengths_report_first_mismatch() {
    let result = Board::from_sides(strs_to_vec_strings(&["abc", "de", "f", "ghi"]));
    match result {
        Err(BoardError::UnequalSideLengths { side1, len1, side2, len2 }) => {
            assert_eq!(side1, "top");
            assert_eq!(len1, 3);
            assert_eq!(side2, "right");
            assert_eq!(len2, 2);
        }
        _ => panic!("Expected UnequalSideLengths error, got: {:?}", result),
    }
}

#[test]
fn uppercase_letters_are_rejected() {
    let result = Board::from_sides(strs_to_vec_strings(&["abc", "dEf", "ghi", "jkl"]));
    match result {
        Err(BoardError::InvalidCharacter { ch, side }) => {
            assert_eq!(ch, 'E');
            assert_eq!(side, "right");
        }
        _ => panic!("Expected InvalidCharacter error, got: {:?}", result),
    }
}

#[test]
fn cross_side_duplicate_names_both_sides_in_order() {
    let result = Board::from_sides(strs_to_vec_strings(&["abc", "def", "gbi", "jkl"]));
    match result {
        Err(BoardError::DuplicateLetter { letter, location }) => {
            assert_eq!(letter, 'b');
            assert_eq!(location, "on the top side and the left side");
        }
        _ => panic!("Expected DuplicateLetter error, got: {:?}", result),
    }
    let result = Board::from_sides(strs_to_vec_strings(&["abc", "dee", "ghi", "jkl"]));
    match result {
        Err(BoardError::DuplicateLetter { letter, location }) => {
            assert_eq!(letter, 'e');
            assert_eq!(location, "on the right side");
        }
        _ => panic!("Expected DuplicateLetter error, got: {:?}", result),
    }
}

#[test]
fn filtering_twice_keeps_the_same_words() {
    let board = Board::from_sides(strs_to_vec_strings(&["otx", "gmi", "fle", "aun"])).unwrap();
    let words = &["exfoliating", "monologue", "fungi", "exam", "text", "gym", "gulf", "zing", "a", ""];
    let dictionary = Dictionary::from_strings(strs_to_vec_strings(words));
    let once = board.playable_dictionary(&dictionary);
    let twice = board.playable_dictionary(&once);
    let a: Vec<&String> = once.words.iter().map(|w| &w.word).collect();
    let b: Vec<&String> = twice.words.iter().map(|w| &w.word).collect();
    assert_eq!(a, b);
    assert_eq!(once.digraphs, twice.digraphs);
    assert_eq!(once.digraph_strings, dictionary.digraph_strings);
    // Words shorter than two letters have no digraphs and always stay.
    assert!(a.contains(&&"a".to_string()));
    assert!(a.contains(&&"".to_string()));
}

#[test]
fn fungi_excluded_though_fu_is_legal() {
    let board = Board::from_sides(strs_to_vec_strings(&["otx", "gmi", "fle", "aun"])).unwrap();
    assert!(has(&board.digraphs, "fu"));
    assert!(!has(&board.digraphs, "gi"));
    let dictionary = Dictionary::from_strings(strs_to_vec_strings(&["fungi"]));
    let playable = board.playable_dictionary(&dictionary);
    assert!(playable.words.is_empty());
    assert!(playable.digraphs.is_empty());
}
