use yt_history::model::{
    ChannelMatcher, Models, VideoMatcher, WatchedMatcher, WhereChannel, WhereVideo, WhereWatched,
};

fn sample() -> Models {
    let mut m = Models::new();
    let c1 = m.find_or_create_channel(&"http://c1".to_owned(), &"Channel One".to_owned());
    let c2 = m.find_or_create_channel(&"http://c2".to_owned(), &"Channel Two".to_owned());
    let v1 = m.find_or_create_video("http://v1".to_owned(), "Video One".to_owned(), c1);
    let v2 = m.find_or_create_video("http://v2".to_owned(), "Video Two".to_owned(), c2);
    m.insert_watched(100, WhereVideo::Reference(v1));
    m.insert_watched(200, WhereVideo::Reference(v2));
    m.insert_watched(300, WhereVideo::Reference(v1));
    m
}

#[test]
fn find_or_create_deduplicates_by_url() {
    let mut m = Models::new();
    let a = m.find_or_create_channel(&"http://c1".to_owned(), &"First Name".to_owned());
    let b = m.find_or_create_channel(&"http://c1".to_owned(), &"Other Name".to_owned());
    assert_eq!(a, b);
    assert_eq!(m.channels().len(), 1);
    // the channel already there keeps its name
    assert_eq!(m.channels()[0].name, "First Name");
}

#[test]
fn count_videos_by_matcher_and_reference() {
    let m = sample();
    assert_eq!(m.count_videos(WhereVideo::Any), 2);
    assert_eq!(m.count_videos(WhereVideo::Reference(0)), 1);
    assert_eq!(m.count_videos(WhereVideo::Reference(9)), 0);
    let matcher = VideoMatcher {
        url: Some("http://v1".to_owned()),
        title: None,
        channel: None,
    };
    assert_eq!(m.count_videos(WhereVideo::Structure(matcher)), 1);
    let by_channel = VideoMatcher {
        url: None,
        title: None,
        channel: Some(WhereChannel::Structure(ChannelMatcher {
            url: Some("http://c2".to_owned()),
            name: None,
        })),
    };
    assert_eq!(m.count_videos(WhereVideo::Structure(by_channel)), 1);
}

#[test]
fn count_watches_by_matcher() {
    let m = sample();
    assert_eq!(m.count_watches(WhereWatched::Any), 3);
    let at_100 = WatchedMatcher { video: None, when: Some(100) };
    assert_eq!(m.count_watches(WhereWatched::Structure(at_100)), 1);
    let of_v1 = WatchedMatcher { video: Some(WhereVideo::Reference(0)), when: None };
    assert_eq!(m.count_watches(WhereWatched::Structure(of_v1)), 2);
}

#[test]
fn count_watched_by_video_counts_per_index() {
    let m = sample();
    let counts = m.count_watched_by_video();
    assert_eq!(counts, vec![2, 1]);
}

#[test]
fn find_channel_by_name_scans_in_order() {
    let m = sample();
    let found = m.find_channel(WhereChannel::Structure(ChannelMatcher {
        url: None,
        name: Some("Channel Two".to_owned()),
    }));
    assert_eq!(found, Some(1));
    let missing = m.find_channel(WhereChannel::Structure(ChannelMatcher {
        url: None,
        name: Some("Nobody".to_owned()),
    }));
    assert_eq!(missing, None);
    assert_eq!(m.find_channel(WhereChannel::Any), Some(0));
}

#[test]
fn cache_round_trip_rebuilds_the_same_store() {
    let m = sample();
    let flat = m.to_scalar();
    let back = Models::from_scalar(&flat).expect("a flattened store decodes");
    assert_eq!(back.channels(), m.channels());
    assert_eq!(back.videos(), m.videos());
    assert_eq!(back.watches(), m.watches());
}

#[test]
fn from_scalar_rejects_dangling_references() {
    let m = sample();
    let mut flat = m.to_scalar();
    flat.videos[0].channel = "http://nowhere".to_owned();
    assert!(Models::from_scalar(&flat).is_none());

    let mut flat2 = m.to_scalar();
    flat2.watches[0].video = "http://nowhere".to_owned();
    assert!(Models::from_scalar(&flat2).is_none());
}

#[test]
fn insert_video_updates_in_place_under_a_known_url() {
    let mut m = Models::new();
    let c = m.find_or_create_channel(&"http://c1".to_owned(), &"Channel One".to_owned());
    m.insert_video("http://v1".to_owned(), "Old Title".to_owned(), WhereChannel::Reference(c));
    m.insert_video("http://v1".to_owned(), "New Title".to_owned(), WhereChannel::Reference(c));
    assert_eq!(m.videos().len(), 1);
    assert_eq!(m.videos()[0].title, "New Title");
}
