use yt_history::text::{is_whitespace_char, push_collapse_whitespace};

fn string_of(v: &[char]) -> String {
    v.iter().collect()
}

#[test]
fn whitespace_runs_collapse_to_one_space() {
    let mut target: Vec<char> = Vec::new();
    let piece: Vec<char> = "a \n\t b".chars().collect();
    push_collapse_whitespace(&mut target, &piece);
    assert_eq!(string_of(&target), "a b");
}

#[test]
fn collapsing_continues_across_pieces() {
    let mut target: Vec<char> = "a ".chars().collect();
    let piece: Vec<char> = " b".chars().collect();
    push_collapse_whitespace(&mut target, &piece);
    assert_eq!(string_of(&target), "a b");
}

#[test]
fn narrow_and_no_break_spaces_count_as_whitespace() {
    assert!(is_whitespace_char('\u{a0}'));
    assert!(is_whitespace_char('\u{202f}'));
    assert!(is_whitespace_char('\n'));
    assert!(!is_whitespace_char('x'));
    let mut target: Vec<char> = Vec::new();
    let piece: Vec<char> = "a\u{202f}\u{a0}b".chars().collect();
    push_collapse_whitespace(&mut target, &piece);
    assert_eq!(string_of(&target), "a b");
}
