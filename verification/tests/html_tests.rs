use yt_history::html_parser::{ModelsParser, ParseError};
use yt_history::model::{WhereVideo, WhereWatched};
use yt_history::source::{ReadOutcome, ScriptedSource};
use yt_history::utf8_reader::Utf8Iter;

fn chars_of(text: &str) -> Utf8Iter<ScriptedSource> {
    Utf8Iter::new(ScriptedSource::new(vec![ReadOutcome::Data(text.as_bytes().to_vec())]))
}

fn record(url: &str, title: &str, curl: &str, cname: &str, date: &str) -> String {
    format!(
        "Watched\u{a0}<a href=\"{}\">{}</a><br /><a href=\"{}\">{}</a><br />{}\n",
        url, title, curl, cname, date
    )
}

#[test]
fn two_records_then_garbage_end_cleanly() {
    let mut input = String::new();
    input.push_str(&record(
        "http://v1",
        "Video One",
        "http://c1",
        "Channel One",
        "Jun 29, 2021, 4:49:36 PM EDT",
    ));
    input.push_str(&record(
        "http://v2",
        "Video Two",
        "http://c2",
        "Channel Two",
        "Aug 9, 2019, 4:26:40 PM EDT",
    ));
    input.push_str("trailing junk without any marker");
    let mut p = ModelsParser::new();
    let r = p.parse(chars_of(&input));
    assert!(r.is_ok());
    let models = p.to_models();
    assert_eq!(models.count_videos(WhereVideo::Any), 2);
    assert_eq!(models.count_watches(WhereWatched::Any), 2);
}

#[test]
fn no_anchor_at_all_is_an_error() {
    let mut p = ModelsParser::new();
    let r = p.parse(chars_of("a page with nothing that introduces a record"));
    assert!(matches!(r, Err(ParseError::NoRows)));
}

#[test]
fn repeated_videos_are_deduplicated() {
    let mut input = String::new();
    for _ in 0..3 {
        input.push_str(&record(
            "http://v1",
            "Video One",
            "http://c1",
            "Channel One",
            "Jun 29, 2021, 4:49:36 PM EDT",
        ));
    }
    let mut p = ModelsParser::new();
    p.parse(chars_of(&input)).expect("three well-formed records");
    let models = p.to_models();
    assert_eq!(models.count_videos(WhereVideo::Any), 1);
    assert_eq!(models.count_watches(WhereWatched::Any), 3);
}

#[test]
fn missing_channel_marker_leaves_secondary_fields_empty() {
    let input = format!(
        "Watched\u{a0}<a href=\"http://v1\">Video One</a><br />Watched at \
         10:00<br />Jun 29, 2021, 4:49:36 PM EDT\n"
    );
    let mut p = ModelsParser::new();
    p.parse(chars_of(&input)).expect("one record with the alternate marker");
    let models = p.to_models();
    assert_eq!(models.count_videos(WhereVideo::Any), 1);
    let channels = models.channels();
    assert_eq!(channels.len(), 1);
    assert_eq!(channels[0].url, "");
    assert_eq!(channels[0].name, "");
}

#[test]
fn bad_timestamp_is_a_date_error_with_the_text() {
    let input = record("http://v1", "Video One", "http://c1", "Channel One", "not a date");
    let mut p = ModelsParser::new();
    match p.parse(chars_of(&input)) {
        Err(ParseError::DateParseError { invalid_date, .. }) => {
            assert_eq!(invalid_date, "not a date");
        }
        other => panic!("expected a date error, got {:?}", other),
    }
}

#[test]
fn truncated_record_reports_unterminated_input() {
    // the input ends while the first record's identifier is being read, so
    // not even one record is complete
    let input = "Watched\u{a0}<a href=\"http://v1";
    let mut p = ModelsParser::new();
    match p.parse(chars_of(input)) {
        Err(ParseError::UnterminatedInput { expected, .. }) => {
            assert_eq!(expected, "\"");
        }
        other => panic!("expected unterminated input, got {:?}", other),
    }
}

#[test]
fn multiline_title_is_collapsed() {
    let input = record(
        "http://v1",
        "A title\nsplit over\n lines",
        "http://c1",
        "Channel One",
        "Jun 29, 2021, 4:49:36 PM EDT",
    );
    let mut p = ModelsParser::new();
    p.parse(chars_of(&input)).expect("one record");
    let models = p.to_models();
    let videos = models.videos();
    assert_eq!(videos[0].title, "A title split over lines");
}

#[test]
fn records_survive_chunked_reads() {
    let input = record(
        "http://v1",
        "Video One",
        "http://c1",
        "Channel One",
        "Jun 29, 2021, 4:49:36 PM EDT",
    );
    let bytes = input.as_bytes();
    let chunks: Vec<ReadOutcome> =
        bytes.chunks(3).map(|c| ReadOutcome::Data(c.to_vec())).collect();
    let mut p = ModelsParser::new();
    p.parse(Utf8Iter::new(ScriptedSource::new(chunks))).expect("chunking changes nothing");
    let models = p.to_models();
    assert_eq!(models.count_videos(WhereVideo::Any), 1);
}

#[test]
fn invalid_bytes_inside_a_record_abort_the_parse() {
    let mut bytes = record(
        "http://v1",
        "Video One",
        "http://c1",
        "Channel One",
        "Jun 29, 2021, 4:49:36 PM EDT",
    )
    .into_bytes();
    // corrupt a byte in the middle of the record's title
    bytes[30] = 0xC0;
    let mut p = ModelsParser::new();
    let r = p.parse(Utf8Iter::new(ScriptedSource::new(vec![ReadOutcome::Data(bytes)])));
    assert!(matches!(r, Err(ParseError::InvalidUtf8 { .. })));
}

#[test]
fn date_error_reports_the_position_of_the_record_end() {
    let input = record("http://v1", "Video One", "http://c1", "Channel One", "nonsense");
    let mut p = ModelsParser::new();
    match p.parse(chars_of(&input)) {
        Err(ParseError::DateParseError { location, .. }) => {
            // the whole first line, line break included, has been consumed
            assert_eq!(location.chars, input.chars().count());
            assert_eq!(location.lines, 2);
            assert_eq!(location.columns, 1);
        }
        other => panic!("expected a date error, got {:?}", other),
    }
}
