use yt_history::html_parser::{ModelsParser, ParseError};
use yt_history::source::{ReadOutcome, ScriptedSource};
use yt_history::utf8_reader::Utf8Iter;

fn chars_of(text: &str) -> Utf8Iter<ScriptedSource> {
    Utf8Iter::new(ScriptedSource::new(vec![ReadOutcome::Data(text.as_bytes().to_vec())]))
}

#[test]
fn skip_to_stops_right_after_the_literal() {
    let mut chars = chars_of("xxabcyyy");
    let mut p = ModelsParser::new();
    assert!(p.skip_to(&mut chars, "abc").is_ok());
    // the scan position stands immediately before the first y
    assert_eq!(p.location().chars, 5);
    assert_eq!(p.peek(&mut chars), Ok('y'));
}

#[test]
fn skip_to_reports_closest_partial_match() {
    let mut chars = chars_of("xxab");
    let mut p = ModelsParser::new();
    match p.skip_to(&mut chars, "abc") {
        Err(ParseError::UnterminatedInput { expected, closest }) => {
            assert_eq!(expected, "abc");
            let (text, loc) = closest.expect("a partial match was seen");
            assert_eq!(text, "ab");
            // the candidate began after the two discarded characters
            assert_eq!(loc.chars, 2);
            assert_eq!(loc.lines, 1);
            assert_eq!(loc.columns, 3);
        }
        other => panic!("expected unterminated input, got {:?}", other),
    }
}

#[test]
fn skip_to_does_not_retry_the_mismatching_character() {
    // the matcher resets on a mismatch without reconsidering the character:
    // the candidate a-a fails at the second a, which starts no new candidate
    let mut chars = chars_of("aab");
    let mut p = ModelsParser::new();
    match p.skip_to(&mut chars, "ab") {
        Err(ParseError::UnterminatedInput { closest, .. }) => {
            let (text, _) = closest.expect("a partial match was seen");
            assert_eq!(text, "a");
        }
        other => panic!("expected unterminated input, got {:?}", other),
    }
}

#[test]
fn read_until_collapses_whitespace() {
    let mut chars = chars_of("hello\nworld<");
    let mut p = ModelsParser::new();
    let text = p.read_until(&mut chars, "<").expect("the literal is there");
    assert_eq!(text, "hello world");
}

#[test]
fn read_until_collapses_runs_and_unicode_spaces() {
    let mut chars = chars_of("a \u{a0}\t b<");
    let mut p = ModelsParser::new();
    let text = p.read_until(&mut chars, "<").expect("the literal is there");
    assert_eq!(text, "a b");
}

#[test]
fn read_until_keeps_failed_partial_matches_in_the_text() {
    // the br of a failed candidate is ordinary body text once it mismatches
    let mut chars = chars_of("a<br>b<br />");
    let mut p = ModelsParser::new();
    let text = p.read_until(&mut chars, "<br />").expect("the literal is there");
    assert_eq!(text, "a<br>b");
}

#[test]
fn counters_track_lines_and_columns() {
    let mut chars = chars_of("ab\ncd\ne<");
    let mut p = ModelsParser::new();
    assert_eq!(p.line(), 1);
    assert_eq!(p.column(), 1);
    let _ = p.read_until(&mut chars, "<").expect("the literal is there");
    // eight characters consumed, standing on line 3 after e<
    assert_eq!(p.location().chars, 8);
    assert_eq!(p.line(), 3);
    assert_eq!(p.column(), 3);
}

#[test]
fn peek_does_not_consume() {
    let mut chars = chars_of("xyz<");
    let mut p = ModelsParser::new();
    assert_eq!(p.peek(&mut chars), Ok('x'));
    assert_eq!(p.location().chars, 0);
    let text = p.read_until(&mut chars, "<").expect("the literal is there");
    assert_eq!(text, "xyz");
}

#[test]
fn invalid_bytes_fail_the_scan_with_the_position() {
    let mut chars = Utf8Iter::new(ScriptedSource::new(vec![ReadOutcome::Data(vec![
        0x61, 0x62, 0xC0, 0x63,
    ])]));
    let mut p = ModelsParser::new();
    match p.skip_to(&mut chars, "zz") {
        Err(ParseError::InvalidUtf8 { location, bytes }) => {
            assert_eq!(bytes, vec![0xC0]);
            assert_eq!(location.chars, 2);
        }
        other => panic!("expected invalid bytes, got {:?}", other),
    }
}
