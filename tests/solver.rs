use letter_bounced::board::Board;
use letter_bounced::board_input::{format_valid_digraphs, validate_board_spec};
use letter_bounced::dictionary::{Dictionary, Word};
use letter_bounced::solver::{Solution, Solver};
use std::sync::atomic::AtomicBool;
use std::sync::Arc;

#[test]
fn test_solution_display() {
    let words = ["word", "ocean", "dojo"];
    let word_strings = words.iter().map(|&s| s.to_string()).collect();
    let dictionary = Dictionary::from_strings(word_strings);
    let solution = Solution::new(vec![
        dictionary.words[0].clone(),
        dictionary.words[2].clone(),
        dictionary.words[1].clone(),
    ]);
    assert_eq!(solution.to_text(), "word-dojo-ocean");
    let single_word = Solution::new(vec![dictionary.words[0].clone()]);
    assert_eq!(single_word.to_text(), "word");
}

#[test]
fn test_redactable_subsequences() {
    let words = ["foxglove", "eye", "equity"];
    let word_strings = words.iter().map(|&s| s.to_string()).collect();
    let dictionary = Dictionary::from_strings(word_strings);

    let solution = Solution::new(vec![
        dictionary.words[0].clone(),
        dictionary.words[1].clone(),
        dictionary.words[2].clone(),
    ]);

    let redaction_indices = solution.redactable_subsequences();

    let has_redaction = |expected_indices: Vec<usize>| redaction_indices.iter().any(|r| *r == expected_indices);

    assert!(has_redaction(vec![1, 2]), "Should have [1, 2] = EYE-EQUITY (removes head)");
    assert!(has_redaction(vec![2]), "Should have [2] = EQUITY (removes head)");
    assert!(has_redaction(vec![0, 2]), "Should have [0, 2] = FOXGLOVE-EQUITY (valid chain)");

    assert!(!has_redaction(vec![0, 1, 2]), "Should not include full solution [0, 1, 2]");
}

#[test]
fn test_redactable_subsequences_single_word() {
    let words = ["foxglove"];
    let word_strings = words.iter().map(|&s| s.to_string()).collect();
    let dictionary = Dictionary::from_strings(word_strings);

    let solution = Solution::new(vec![dictionary.words[0].clone()]);
    let redactions = solution.redactable_subsequences();

    assert_eq!(redactions.len(), 0, "Single word solution should have no redactions");
}

fn has(solutions: &Vec<Solution>, ws: Vec<&Arc<Word>>) -> bool {
    let vec_word_clones: Vec<Arc<Word>> = ws.iter().map(|&w| Arc::clone(w)).collect();
    let solution = Solution::new(vec_word_clones);
    solutions.contains(&solution)
}

#[test]
fn test_redundancy_filtering() {
    let sides = vec!["vyq".to_string(), "fig".to_string(), "ote".to_string(), "xlu".to_string()];
    let board = Board::from_sides(sides).unwrap();

    let word_strs = ["foxglove", "equity", "eye", "golf", "flog", "glove", "exile", "exit", "tie", "yog"];
    let word_strings = word_strs.iter().map(|&s| s.to_string()).collect();
    let dictionary = Dictionary::from_strings(word_strings);

    let foxglove = &dictionary.words[0];
    let equity = &dictionary.words[1];
    let eye = &dictionary.words[2];
    let golf = &dictionary.words[3];
    let flog = &dictionary.words[4];
    let glove = &dictionary.words[5];
    let exile = &dictionary.words[6];
    let exit = &dictionary.words[7];
    let tie = &dictionary.words[8];
    let yog = &dictionary.words[9];

    let solver = Solver::new(board, &dictionary, 1000);
    let solutions = solver.solve();

    assert!(has(&solutions, vec![foxglove, equity]), "Should have FOXGLOVE-EQUITY");
    assert!(has(&solutions, vec![flog, glove, exile, equity]), "Should have FLOG-GLOVE-EXILE-EQUITY");
    assert!(!has(&solutions, vec![foxglove, eye, equity]), "Should not have FOXGLOVE-EYE-EQUITY");
    assert!(!has(&solutions, vec![foxglove, exit, tie, equity]), "Should not have FOXGLOVE-EXIT-TIE-EQUITY");
    assert!(!has(&solutions, vec![golf, foxglove, equity]), "Should not have GOLF-FOXGLOVE-EQUITY");
    assert!(!has(&solutions, vec![foxglove, equity, yog]), "Should not have FOXGLOVE-EQUITY-YOG");
}

#[test]
fn test_bitmap_coverage() {
    let sides = vec!["ab".to_string(), "cd".to_string(), "ef".to_string(), "gh".to_string()];
    let game = Board::from_sides(sides).unwrap();

    let test_words = ["ac", "ce", "eg"];
    let test_word_strings = test_words.iter().map(|&s| s.to_string()).collect();
    let dictionary = Dictionary::from_strings(test_word_strings);
    let solver = Solver::new(game, &dictionary, 10);

    assert_eq!(solver.all_letters_mask, 0b11111111);

    if let Some(word_ac) = solver.word_bitmaps.iter().find(|wb| wb.word.word == "AC") {
        assert_eq!(word_ac.bitmap, 0b00000101);
    }

    if let Some(word_ce) = solver.word_bitmaps.iter().find(|wb| wb.word.word == "CE") {
        assert_eq!(word_ce.bitmap, 0b00010100);
    }

    if let Some(word_eg) = solver.word_bitmaps.iter().find(|wb| wb.word.word == "EG") {
        assert_eq!(word_eg.bitmap, 0b01010000);
    }

    assert!(!solver.word_bitmaps.is_empty());
}

// Own tests.

fn texts(solutions: &[Solution]) -> Vec<String> {
    solutions.iter().map(|s| format!("{}:{}", s.to_text(), s.score)).collect()
}

#[test]
fn word_bitmaps_follow_reading_order() {
    let game = Board::from_sides(vec!["ab".into(), "cd".into(), "ef".into(), "gh".into()]).unwrap();
    let dictionary = Dictionary::from_strings(vec!["ac".into(), "ce".into(), "eg".into(), "bad".into()]);
    let solver = Solver::new(game, &dictionary, 10);
    let maps: Vec<(String, u32)> = solver.word_bitmaps.iter().map(|w| (w.word.word.clone(), w.bitmap)).collect();
    assert_eq!(
        maps,
        vec![
            ("ac".to_string(), 0b0000_0101),
            ("ce".to_string(), 0b0001_0100),
            ("eg".to_string(), 0b0101_0000),
        ]
    );
    assert_eq!(solver.max_solutions, 10);
}

#[test]
fn score_is_least_frequency_times_ten_over_length() {
    let a = Arc::new(Word::new("abc".to_string(), 20));
    let b = Arc::new(Word::new("cde".to_string(), 7));
    let c = Arc::new(Word::new("efg".to_string(), -4));
    assert_eq!(Solution::new(vec![a.clone()]).score, 200);
    assert_eq!(Solution::new(vec![a.clone(), b.clone()]).score, 35);
    assert_eq!(Solution::new(vec![a.clone(), b.clone(), a.clone()]).score, 23);
    assert_eq!(Solution::new(vec![a.clone(), c.clone()]).score, 0);
}

#[test]
fn redactions_of_four_words_in_mask_order() {
    let ws: Vec<Arc<Word>> = ["ab", "bc", "cd", "da"]
        .iter()
        .map(|s| Arc::new(Word::new(s.to_string(), 1)))
        .collect();
    let solution = Solution::new(ws);
    let r = solution.redactable_subsequences();
    // Masks 1..15 but 15; those keeping word 0 must still chain.
    assert_eq!(
        r,
        vec![
            vec![0],
            vec![1],
            vec![0, 1],
            vec![2],
            vec![1, 2],
            vec![0, 1, 2],
            vec![3],
            vec![1, 3],
            vec![2, 3],
            vec![1, 2, 3],
        ]
    );
}

fn boxed_solver(max: u16) -> Solver {
    let board = Board::from_sides(vec!["vyq".into(), "fig".into(), "ote".into(), "xlu".into()]).unwrap();
    let words = ["foxglove", "equity", "eye", "golf", "flog", "glove", "exile", "exit", "tie", "yog"];
    let dictionary = Dictionary::from_strings(words.iter().map(|s| s.to_string()).collect());
    Solver::new(board, &dictionary, max)
}

#[test]
fn solutions_are_ranked_and_capped() {
    let all = boxed_solver(1000).solve();
    assert!(!all.is_empty());
    for pair in all.windows(2) {
        assert!(pair[0].score >= pair[1].score);
    }
    let one = boxed_solver(1).solve();
    assert_eq!(one.len(), 1);
    assert_eq!(texts(&one), vec!["foxglove-equity:75".to_string()]);
    assert!(boxed_solver(0).solve().is_empty());
}

#[test]
fn every_solution_chains_and_covers_the_board() {
    let all = boxed_solver(1000).solve();
    let letters: Vec<char> = "vyqfigotexlu".chars().collect();
    for s in &all {
        assert!(!s.words.is_empty() && s.words.len() <= 4);
        for pair in s.words.windows(2) {
            assert_eq!(pair[0].word.chars().last(), pair[1].word.chars().next());
        }
        for l in &letters {
            assert!(s.words.iter().any(|w| w.word.contains(*l)), "{} misses {}", s.to_text(), l);
        }
    }
}

#[test]
fn cancelled_search_returns_a_subset() {
    let solver = boxed_solver(1000);
    let full = texts(&solver.solve());
    let flag = Arc::new(AtomicBool::new(true));
    let cancelled = texts(&solver.solve_cancellable(Some(flag)));
    assert!(cancelled.is_empty());
    let open = Arc::new(AtomicBool::new(false));
    let not_cancelled = texts(&solver.solve_cancellable(Some(open)));
    assert_eq!(not_cancelled, full);
    for s in &cancelled {
        assert!(full.contains(s));
    }
}

#[test]
fn single_word_solution_is_kept() {
    let board = Board::from_sides(vec!["ab".into(), "cd".into(), "ef".into(), "gh".into()]).unwrap();
    let dictionary = Dictionary::from_strings(vec!["acegbdfh".into(), "ac".into()]);
    let solutions = Solver::new(board, &dictionary, 5).solve();
    assert_eq!(texts(&solutions), vec!["acegbdfh:150".to_string()]);
}

#[test]
fn board_spec_is_split_and_lowercased() {
    let sides = validate_board_spec("ABC,def,GhI,jkl").unwrap();
    assert_eq!(sides, vec!["abc", "def", "ghi", "jkl"]);
    let sides = validate_board_spec("ab,,c").unwrap();
    assert_eq!(sides, vec!["ab", "", "c"]);
    let err = validate_board_spec("ab,c-d").unwrap_err();
    assert_eq!(err, "Invalid character '-' in game specification. Only A-Z, a-z, and commas are allowed.");
}

#[test]
fn digraphs_are_listed_in_order() {
    let list = vec!["ba".to_string(), "ab".to_string(), "ca".to_string(), "ab".to_string()];
    assert_eq!(format_valid_digraphs(&list), "ab ab ba ca");
    assert_eq!(format_valid_digraphs(&Vec::new()), "");
}
