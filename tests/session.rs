use letter_bounced::dictionary::Dictionary;
use letter_bounced::session::{decide_request, is_same_request, Admission, SolveRequest};

fn request(sides: &[&str], max: u16) -> SolveRequest {
    SolveRequest { sides: sides.iter().map(|s| s.to_string()).collect(), max_solutions: max }
}

#[test]
fn first_request_starts() {
    let r = request(&["abc", "def", "ghi", "jkl"], 10);
    assert_eq!(decide_request(&None, &r), Admission::Start);
}

#[test]
fn identical_request_is_rejected() {
    let running = Some(request(&["abc", "def", "ghi", "jkl"], 10));
    let r = request(&["abc", "def", "ghi", "jkl"], 10);
    assert!(is_same_request(running.as_ref().unwrap(), &r));
    assert_eq!(decide_request(&running, &r), Admission::RejectDuplicate);
}

#[test]
fn different_request_cancels_the_running_one() {
    let running = Some(request(&["abc", "def", "ghi", "jkl"], 10));
    assert_eq!(
        decide_request(&running, &request(&["abc", "def", "ghi", "jkl"], 11)),
        Admission::CancelCurrentThenStart
    );
    assert_eq!(
        decide_request(&running, &request(&["abc", "def", "ghi", "jkm"], 10)),
        Admission::CancelCurrentThenStart
    );
    assert_eq!(
        decide_request(&running, &request(&["abc", "def", "ghi"], 10)),
        Admission::CancelCurrentThenStart
    );
}

#[test]
fn single_lines_parse_like_the_text_format() {
    let w = Dictionary::parse_line("  hello\t25 trailing").unwrap();
    assert_eq!(w.word, "hello");
    assert_eq!(w.frequency, 25);
    assert!(w.digraph_indices.is_empty());
    assert!(Dictionary::parse_line("hello").is_none());
    assert!(Dictionary::parse_line("hello 1000").is_none());
    assert!(Dictionary::parse_line("").is_none());
}
