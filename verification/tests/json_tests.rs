use yt_history::json_parser::{parse, DataRow, Subtitles};
use yt_history::model::{WhereVideo, WhereWatched};

fn row(title: &str, url: &str, subtitles: Vec<Subtitles>, time: &str) -> DataRow {
    DataRow {
        header: "YouTube".to_owned(),
        title: title.to_owned(),
        title_url: url.to_owned(),
        subtitles,
        time: time.to_owned(),
        products: vec!["YouTube".to_owned()],
        activity_controls: vec!["YouTube watch history".to_owned()],
    }
}

fn benn() -> Subtitles {
    Subtitles {
        name: "Benn Jordan".to_owned(),
        url: "https://www.youtube.com/channel/UCshObcm-nLhbu8MY50EZ5Ng".to_owned(),
    }
}

#[test]
fn one_row_becomes_one_watch() {
    let rows = vec![row(
        "Watched An Addictive Alternative To DAWs",
        "https://www.youtube.com/watch?v=rtTWtzWav8I",
        vec![benn()],
        "2023-06-04T04:07:59.107Z",
    )];
    let m = parse(rows).expect("a well-formed row");
    assert_eq!(m.count_videos(WhereVideo::Any), 1);
    assert_eq!(m.count_watches(WhereWatched::Any), 1);
    // the fixed leading marker is stripped from the title
    assert_eq!(m.videos()[0].title, "An Addictive Alternative To DAWs");
    assert_eq!(m.channels()[0].name, "Benn Jordan");
    // the RFC 3339 instant, in milliseconds since the Unix epoch
    assert_eq!(m.watches()[0].when, 1685851679107);
}

#[test]
fn visited_rows_are_excluded() {
    let rows = vec![
        row(
            "Visited YouTube Music",
            "https://music.example",
            vec![],
            "2023-06-04T04:07:59.107Z",
        ),
        row(
            "Watched Video One",
            "http://v1",
            vec![benn()],
            "2023-06-04T05:00:00Z",
        ),
    ];
    let m = parse(rows).expect("the remaining row is well formed");
    assert_eq!(m.count_videos(WhereVideo::Any), 1);
    assert_eq!(m.count_watches(WhereWatched::Any), 1);
    assert_eq!(m.videos()[0].url, "http://v1");
}

#[test]
fn missing_subtitles_fall_back_to_the_default_channel() {
    let rows = vec![row(
        "Watched Video One",
        "http://v1",
        vec![],
        "2023-06-04T05:00:00Z",
    )];
    let m = parse(rows).expect("a well-formed row");
    assert_eq!(m.channels().len(), 1);
    assert_eq!(m.channels()[0].url, "(hidden)");
    assert_eq!(m.channels()[0].name, "(hidden)");
}

#[test]
fn a_bad_time_fails_the_import() {
    let rows = vec![row("Watched Video One", "http://v1", vec![benn()], "yesterday")];
    assert!(parse(rows).is_err());
}

#[test]
fn a_title_without_the_marker_is_kept_whole() {
    let rows = vec![row("Some plain title", "http://v1", vec![benn()], "2023-06-04T05:00:00Z")];
    let m = parse(rows).expect("a well-formed row");
    assert_eq!(m.videos()[0].title, "Some plain title");
}

#[test]
fn empty_input_builds_an_empty_store() {
    let m = parse(vec![]).expect("nothing to do");
    assert_eq!(m.count_videos(WhereVideo::Any), 0);
    assert_eq!(m.count_watches(WhereWatched::Any), 0);
}

#[test]
fn only_the_first_subtitle_names_the_channel() {
    let other = Subtitles { name: "Someone Else".to_owned(), url: "http://other".to_owned() };
    let rows = vec![DataRow {
        subtitles: vec![benn(), other],
        ..row("Watched Video One", "http://v1", vec![], "2023-06-04T05:00:00Z")
    }];
    let m = parse(rows).expect("a well-formed row");
    assert_eq!(m.channels().len(), 1);
    assert_eq!(m.channels()[0].name, "Benn Jordan");
}
