//! The record store: channels and videos deduplicated by URL, and the watch
//! sequence in order of insertion.
//!
//! Channels live in an arena and videos refer to their channel by index;
//! watches refer to their video by index. Equality and deduplication are
//! index and URL comparisons. The store's invariant — URLs unique, indices
//! in range — is [`ModelsView::wf`].

use vstd::prelude::*;

verus! {

/// A channel: its URL is its identity.
#[derive(Debug, Clone, PartialEq, Eq)]
pub struct Channel {
    pub url: String,
    pub name: String,
}

/// A video: its URL is its identity; `channel` indexes the store's channels.
#[derive(Debug, Clone, PartialEq, Eq)]
pub struct Video {
    pub url: String,
    pub title: String,
    pub channel: usize,
}

/// One watch: `video` indexes the store's videos; `when` is the watch time
/// in milliseconds since the Unix epoch.
#[derive(Debug, Clone, Copy, PartialEq, Eq, Structural)]
pub struct Watched {
    pub video: usize,
    pub when: i64,
}

/// The mathematical value of a [`Channel`].
pub ghost struct ChannelView {
    pub url: Seq<char>,
    pub name: Seq<char>,
}

/// The mathematical value of a [`Video`].
pub ghost struct VideoView {
    pub url: Seq<char>,
    pub title: Seq<char>,
    pub channel: int,
}

/// The mathematical value of a [`Watched`].
pub ghost struct WatchedView {
    pub video: int,
    pub when: int,
}

impl View for Channel {
    type V = ChannelView;

    open spec fn view(&self) -> ChannelView {
        ChannelView { url: self.url@, name: self.name@ }
    }
}

impl View for Video {
    type V = VideoView;

    open spec fn view(&self) -> VideoView {
        VideoView { url: self.url@, title: self.title@, channel: self.channel as int }
    }
}

impl View for Watched {
    type V = WatchedView;

    open spec fn view(&self) -> WatchedView {
        WatchedView { video: self.video as int, when: self.when as int }
    }
}

/// The element-wise views of a channel list.
pub open spec fn views_of_channels(v: Seq<Channel>) -> Seq<ChannelView> {
    v.map_values(|c: Channel| c@)
}

/// The element-wise views of a video list.
pub open spec fn views_of_videos(v: Seq<Video>) -> Seq<VideoView> {
    v.map_values(|x: Video| x@)
}

/// The element-wise views of a watch list.
pub open spec fn views_of_watches(v: Seq<Watched>) -> Seq<WatchedView> {
    v.map_values(|x: Watched| x@)
}

/// The mathematical value of the whole store.
#[verifier::ext_equal]
pub ghost struct ModelsView {
    pub channels: Seq<ChannelView>,
    pub videos: Seq<VideoView>,
    pub watches: Seq<WatchedView>,
}

impl ModelsView {
    /// URLs are unique and every index is in range.
    pub open spec fn wf(self) -> bool {
        &&& forall|i: int, j: int|
            #![trigger self.channels[i].url, self.channels[j].url]
            0 <= i < j < self.channels.len() ==> self.channels[i].url != self.channels[j].url
        &&& forall|i: int, j: int|
            #![trigger self.videos[i].url, self.videos[j].url]
            0 <= i < j < self.videos.len() ==> self.videos[i].url != self.videos[j].url
        &&& forall|i: int|
            0 <= i < self.videos.len() ==> 0 <= #[trigger] self.videos[i].channel
                < self.channels.len()
        &&& forall|i: int|
            0 <= i < self.watches.len() ==> 0 <= #[trigger] self.watches[i].video
                < self.videos.len()
    }
}

/// The first index of a channel with this URL.
pub open spec fn find_channel_idx(chs: Seq<ChannelView>, url: Seq<char>) -> Option<int>
    decreases chs.len(),
{
    if chs.len() == 0 {
        None
    } else if chs[0].url == url {
        Some(0int)
    } else {
        match find_channel_idx(chs.skip(1), url) {
            Some(j) => Some(j + 1),
            None => None,
        }
    }
}

/// What `find_channel_idx` returns: the first match, if any.
pub proof fn lemma_find_channel_idx(chs: Seq<ChannelView>, url: Seq<char>)
    ensures
        match find_channel_idx(chs, url) {
            Some(j) => {
                &&& 0 <= j < chs.len()
                &&& chs[j].url == url
                &&& forall|k: int| 0 <= k < j ==> #[trigger] chs[k].url != url
            },
            None => forall|k: int| 0 <= k < chs.len() ==> #[trigger] chs[k].url != url,
        },
    decreases chs.len(),
{
    if chs.len() > 0 && chs[0].url != url {
        lemma_find_channel_idx(chs.skip(1), url);
        assert(forall|k: int| 1 <= k < chs.len() ==> chs[k] == chs.skip(1)[k - 1]);
    }
}

/// The first index of a video with this URL.
pub open spec fn find_video_idx(vs: Seq<VideoView>, url: Seq<char>) -> Option<int>
    decreases vs.len(),
{
    if vs.len() == 0 {
        None
    } else if vs[0].url == url {
        Some(0int)
    } else {
        match find_video_idx(vs.skip(1), url) {
            Some(j) => Some(j + 1),
            None => None,
        }
    }
}

/// What `find_video_idx` returns: the first match, if any.
pub proof fn lemma_find_video_idx(vs: Seq<VideoView>, url: Seq<char>)
    ensures
        match find_video_idx(vs, url) {
            Some(j) => {
                &&& 0 <= j < vs.len()
                &&& vs[j].url == url
                &&& forall|k: int| 0 <= k < j ==> #[trigger] vs[k].url != url
            },
            None => forall|k: int| 0 <= k < vs.len() ==> #[trigger] vs[k].url != url,
        },
    decreases vs.len(),
{
    if vs.len() > 0 && vs[0].url != url {
        lemma_find_video_idx(vs.skip(1), url);
        assert(forall|k: int| 1 <= k < vs.len() ==> vs[k] == vs.skip(1)[k - 1]);
    }
}

/// Criteria a channel is matched on. A present URL is a primary-key match:
/// the name is then not consulted.
pub struct ChannelMatcher {
    pub url: Option<String>,
    pub name: Option<String>,
}

/// How to pick a channel: by criteria, by index, or any at all.
pub enum WhereChannel {
    Structure(ChannelMatcher),
    Reference(usize),
    Any,
}

/// Criteria a video is matched on.
pub struct VideoMatcher {
    pub url: Option<String>,
    pub title: Option<String>,
    pub channel: Option<WhereChannel>,
}

/// How to pick a video: by criteria, by index, or any at all.
pub enum WhereVideo {
    Structure(VideoMatcher),
    Reference(usize),
    Any,
}

/// Criteria a watch is matched on.
pub struct WatchedMatcher {
    pub video: Option<WhereVideo>,
    pub when: Option<i64>,
}

/// How to pick a watch: by criteria, by index, or any at all.
pub enum WhereWatched {
    Structure(WatchedMatcher),
    Reference(usize),
    Any,
}

/// What [`ChannelMatcher::matches`] decides.
pub open spec fn spec_channel_matcher(m: ChannelMatcher, c: ChannelView) -> bool {
    match m.url {
        Some(u) => c.url == u@,
        None => match m.name {
            Some(n) => c.name == n@,
            None => true,
        },
    }
}

/// What [`WhereChannel::matches`] decides, for the channel at `idx`.
pub open spec fn spec_where_channel(w: WhereChannel, idx: int, c: ChannelView) -> bool {
    match w {
        WhereChannel::Structure(m) => spec_channel_matcher(m, c),
        WhereChannel::Reference(i) => i as int == idx,
        WhereChannel::Any => true,
    }
}

/// What [`VideoMatcher::matches`] decides: every present criterion holds.
pub open spec fn spec_video_matcher(
    m: VideoMatcher,
    v: VideoView,
    channels: Seq<ChannelView>,
) -> bool {
    &&& match m.url {
        Some(u) => v.url == u@,
        None => true,
    }
    &&& match m.title {
        Some(t) => v.title == t@,
        None => true,
    }
    &&& match m.channel {
        Some(wc) => spec_where_channel(wc, v.channel, channels[v.channel]),
        None => true,
    }
}

/// What [`WhereVideo::matches`] decides, for the video at `idx`. A matcher
/// with a URL is a primary-key match: the other criteria are not consulted.
pub open spec fn spec_where_video(
    w: WhereVideo,
    idx: int,
    v: VideoView,
    channels: Seq<ChannelView>,
) -> bool {
    match w {
        WhereVideo::Structure(m) => match m.url {
            Some(u) => v.url == u@,
            None => {
                &&& match m.title {
                    Some(t) => v.title == t@,
                    None => true,
                }
                &&& match m.channel {
                    Some(wc) => spec_where_channel(wc, v.channel, channels[v.channel]),
                    None => true,
                }
            },
        },
        WhereVideo::Reference(i) => i as int == idx,
        WhereVideo::Any => true,
    }
}

/// What [`WatchedMatcher::matches`] decides: every present criterion holds.
pub open spec fn spec_watched_matcher(
    m: WatchedMatcher,
    w: WatchedView,
    videos: Seq<VideoView>,
    channels: Seq<ChannelView>,
) -> bool {
    &&& match m.video {
        Some(wv) => spec_where_video(wv, w.video, videos[w.video], channels),
        None => true,
    }
    &&& match m.when {
        Some(t) => w.when == t as int,
        None => true,
    }
}

/// What [`WhereWatched::matches`] decides, for the watch at `idx`.
pub open spec fn spec_where_watched(
    w: WhereWatched,
    idx: int,
    watched: WatchedView,
    videos: Seq<VideoView>,
    channels: Seq<ChannelView>,
) -> bool {
    match w {
        WhereWatched::Structure(m) => spec_watched_matcher(m, watched, videos, channels),
        WhereWatched::Reference(i) => i as int == idx,
        WhereWatched::Any => true,
    }
}

impl ChannelMatcher {
    /// Whether `channel` meets the criteria.
    pub fn matches(&self, channel: &Channel) -> (r: bool)
        ensures
            r == spec_channel_matcher(*self, channel@),
    {
        match &self.url {
            Some(u) => channel.url == *u,
            None => match &self.name {
                Some(n) => channel.name == *n,
                None => true,
            },
        }
    }
}

impl WhereChannel {
    /// Whether the channel standing at `index` is the one picked.
    pub fn matches(&self, index: usize, channel: &Channel) -> (r: bool)
        ensures
            r == spec_where_channel(*self, index as int, channel@),
    {
        match self {
            WhereChannel::Structure(matcher) => matcher.matches(channel),
            WhereChannel::Reference(i) => *i == index,
            WhereChannel::Any => true,
        }
    }
}

impl VideoMatcher {
    /// Whether `video` meets every present criterion.
    pub fn matches(&self, video: &Video, channels: &Vec<Channel>) -> (r: bool)
        requires
            video.channel < channels@.len(),
        ensures
            r == spec_video_matcher(*self, video@, channels@.map_values(|c: Channel| c@)),
    {
        let url_ok = match &self.url {
            Some(u) => video.url == *u,
            None => true,
        };
        let title_ok = match &self.title {
            Some(t) => video.title == *t,
            None => true,
        };
        let channel_ok = match &self.channel {
            Some(wc) => wc.matches(video.channel, &channels[video.channel]),
            None => true,
        };
        url_ok && title_ok && channel_ok
    }
}

impl WhereVideo {
    /// Whether the video standing at `index` is the one picked.
    pub fn matches(&self, index: usize, video: &Video, channels: &Vec<Channel>) -> (r: bool)
        requires
            video.channel < channels@.len(),
        ensures
            r == spec_where_video(
                *self,
                index as int,
                video@,
                channels@.map_values(|c: Channel| c@),
            ),
    {
        match self {
            WhereVideo::Structure(matcher) => match &matcher.url {
                Some(u) => video.url == *u,
                None => {
                    let title_ok = match &matcher.title {
                        Some(t) => video.title == *t,
                        None => true,
                    };
                    let channel_ok = match &matcher.channel {
                        Some(wc) => wc.matches(video.channel, &channels[video.channel]),
                        None => true,
                    };
                    title_ok && channel_ok
                },
            },
            WhereVideo::Reference(i) => *i == index,
            WhereVideo::Any => true,
        }
    }
}

impl WatchedMatcher {
    /// Whether `watched` meets every present criterion.
    pub fn matches(&self, watched: &Watched, videos: &Vec<Video>, channels: &Vec<Channel>) -> (r:
        bool)
        requires
            watched.video < videos@.len(),
            forall|i: int|
                0 <= i < videos@.len() ==> #[trigger] videos@[i].channel < channels@.len(),
        ensures
            r == spec_watched_matcher(
                *self,
                watched@,
                videos@.map_values(|v: Video| v@),
                channels@.map_values(|c: Channel| c@),
            ),
    {
        let video_ok = match &self.video {
            Some(wv) => wv.matches(watched.video, &videos[watched.video], channels),
            None => true,
        };
        let when_ok = match &self.when {
            Some(t) => watched.when == *t,
            None => true,
        };
        video_ok && when_ok
    }
}

impl WhereWatched {
    /// Whether the watch standing at `index` is the one picked.
    pub fn matches(
        &self,
        index: usize,
        watched: &Watched,
        videos: &Vec<Video>,
        channels: &Vec<Channel>,
    ) -> (r: bool)
        requires
            watched.video < videos@.len(),
            forall|i: int|
                0 <= i < videos@.len() ==> #[trigger] videos@[i].channel < channels@.len(),
        ensures
            r == spec_where_watched(
                *self,
                index as int,
                watched@,
                videos@.map_values(|v: Video| v@),
                channels@.map_values(|c: Channel| c@),
            ),
    {
        match self {
            WhereWatched::Structure(matcher) => matcher.matches(watched, videos, channels),
            WhereWatched::Reference(i) => *i == index,
            WhereWatched::Any => true,
        }
    }
}

/// The record store.
#[derive(Debug)]
pub struct Models {
    channels: Vec<Channel>,
    videos: Vec<Video>,
    watches: Vec<Watched>,
}

impl View for Models {
    type V = ModelsView;

    closed spec fn view(&self) -> ModelsView {
        ModelsView {
            channels: views_of_channels(self.channels@),
            videos: views_of_videos(self.videos@),
            watches: views_of_watches(self.watches@),
        }
    }
}

/// The first index of a channel meeting the matcher's criteria.
pub open spec fn find_first_channel_match(chs: Seq<ChannelView>, m: ChannelMatcher) -> Option<int>
    decreases chs.len(),
{
    if chs.len() == 0 {
        None
    } else if spec_channel_matcher(m, chs[0]) {
        Some(0int)
    } else {
        match find_first_channel_match(chs.skip(1), m) {
            Some(j) => Some(j + 1),
            None => None,
        }
    }
}

/// What `find_first_channel_match` returns: the first match, if any.
pub proof fn lemma_find_first_channel_match(chs: Seq<ChannelView>, m: ChannelMatcher)
    ensures
        match find_first_channel_match(chs, m) {
            Some(j) => {
                &&& 0 <= j < chs.len()
                &&& spec_channel_matcher(m, chs[j])
                &&& forall|k: int| 0 <= k < j ==> !spec_channel_matcher(m, #[trigger] chs[k])
            },
            None => forall|k: int|
                0 <= k < chs.len() ==> !spec_channel_matcher(m, #[trigger] chs[k]),
        },
    decreases chs.len(),
{
    if chs.len() > 0 && !spec_channel_matcher(m, chs[0]) {
        lemma_find_first_channel_match(chs.skip(1), m);
        assert(forall|k: int| 1 <= k < chs.len() ==> chs[k] == chs.skip(1)[k - 1]);
    }
}

/// The first index of a video meeting every criterion of the matcher.
pub open spec fn find_first_video_match(
    vs: Seq<VideoView>,
    m: VideoMatcher,
    channels: Seq<ChannelView>,
) -> Option<int>
    decreases vs.len(),
{
    if vs.len() == 0 {
        None
    } else if spec_video_matcher(m, vs[0], channels) {
        Some(0int)
    } else {
        match find_first_video_match(vs.skip(1), m, channels) {
            Some(j) => Some(j + 1),
            None => None,
        }
    }
}

/// What `find_first_video_match` returns: the first match, if any.
pub proof fn lemma_find_first_video_match(
    vs: Seq<VideoView>,
    m: VideoMatcher,
    channels: Seq<ChannelView>,
)
    ensures
        match find_first_video_match(vs, m, channels) {
            Some(j) => {
                &&& 0 <= j < vs.len()
                &&& spec_video_matcher(m, vs[j], channels)
                &&& forall|k: int|
                    0 <= k < j ==> !spec_video_matcher(m, #[trigger] vs[k], channels)
            },
            None => forall|k: int|
                0 <= k < vs.len() ==> !spec_video_matcher(m, #[trigger] vs[k], channels),
        },
    decreases vs.len(),
{
    if vs.len() > 0 && !spec_video_matcher(m, vs[0], channels) {
        lemma_find_first_video_match(vs.skip(1), m, channels);
        assert(forall|k: int| 1 <= k < vs.len() ==> vs[k] == vs.skip(1)[k - 1]);
    }
}

/// What [`Models::find_channel`] returns.
pub open spec fn spec_find_channel(mv: ModelsView, w: WhereChannel) -> Option<int> {
    match w {
        WhereChannel::Structure(m) => match m.url {
            Some(u) => find_channel_idx(mv.channels, u@),
            None => find_first_channel_match(mv.channels, m),
        },
        WhereChannel::Reference(i) => if (i as int) < mv.channels.len() {
            Some(i as int)
        } else {
            None
        },
        WhereChannel::Any => if mv.channels.len() > 0 {
            Some(0int)
        } else {
            None
        },
    }
}

/// What [`Models::find_video`] returns.
pub open spec fn spec_find_video(mv: ModelsView, w: WhereVideo) -> Option<int> {
    match w {
        WhereVideo::Structure(m) => match m.url {
            Some(u) => find_video_idx(mv.videos, u@),
            None => find_first_video_match(mv.videos, m, mv.channels),
        },
        WhereVideo::Reference(i) => if (i as int) < mv.videos.len() {
            Some(i as int)
        } else {
            None
        },
        WhereVideo::Any => if mv.videos.len() > 0 {
            Some(0int)
        } else {
            None
        },
    }
}

/// How many of `vs` meet every criterion of the matcher.
pub open spec fn count_videos_matching(
    vs: Seq<VideoView>,
    m: VideoMatcher,
    channels: Seq<ChannelView>,
) -> nat
    decreases vs.len(),
{
    if vs.len() == 0 {
        0
    } else {
        count_videos_matching(vs.drop_last(), m, channels) + (if spec_video_matcher(
            m,
            vs.last(),
            channels,
        ) {
            1nat
        } else {
            0nat
        })
    }
}

/// How many of `ws` meet every criterion of the matcher.
pub open spec fn count_watches_matching(
    ws: Seq<WatchedView>,
    m: WatchedMatcher,
    videos: Seq<VideoView>,
    channels: Seq<ChannelView>,
) -> nat
    decreases ws.len(),
{
    if ws.len() == 0 {
        0
    } else {
        count_watches_matching(ws.drop_last(), m, videos, channels) + (if spec_watched_matcher(
            m,
            ws.last(),
            videos,
            channels,
        ) {
            1nat
        } else {
            0nat
        })
    }
}

/// How many of `ws` watched the video at index `v`.
pub open spec fn count_watches_of_video(ws: Seq<WatchedView>, v: int) -> nat
    decreases ws.len(),
{
    if ws.len() == 0 {
        0
    } else {
        count_watches_of_video(ws.drop_last(), v) + (if ws.last().video == v {
            1nat
        } else {
            0nat
        })
    }
}

/// What [`Models::count_videos`] returns.
pub open spec fn spec_count_videos(mv: ModelsView, w: WhereVideo) -> nat {
    match w {
        WhereVideo::Structure(m) => count_videos_matching(mv.videos, m, mv.channels),
        WhereVideo::Reference(i) => if (i as int) < mv.videos.len() {
            1nat
        } else {
            0nat
        },
        WhereVideo::Any => mv.videos.len(),
    }
}

/// What [`Models::count_watches`] returns.
pub open spec fn spec_count_watches(mv: ModelsView, w: WhereWatched) -> nat {
    match w {
        WhereWatched::Structure(m) => count_watches_matching(mv.watches, m, mv.videos, mv.channels),
        WhereWatched::Reference(i) => 0,
        WhereWatched::Any => mv.watches.len(),
    }
}


/// Updating a video in place, keeping its URL and a valid channel index,
/// keeps the store well formed.
proof fn lemma_wf_update_video(pre: ModelsView, post: ModelsView, j: int, v: VideoView)
    requires
        pre.wf(),
        post.channels == pre.channels,
        post.watches == pre.watches,
        post.videos == pre.videos.update(j, v),
        0 <= j < pre.videos.len(),
        v.url == pre.videos[j].url,
        0 <= v.channel < pre.channels.len(),
    ensures
        post.wf(),
{
    assert forall|a: int, b: int| 0 <= a < b < post.videos.len() implies post.videos[a].url
        != post.videos[b].url by {
        assert(pre.videos[a].url != pre.videos[b].url);
    }
    assert forall|a: int| 0 <= a < post.videos.len() implies 0 <= #[trigger] post.videos[a].channel
        < post.channels.len() by {
        if a != j {
            assert(post.videos[a] == pre.videos[a]);
        }
    }
}

/// Appending a video with a fresh URL and a valid channel index keeps the
/// store well formed.
proof fn lemma_wf_push_video(pre: ModelsView, post: ModelsView, v: VideoView)
    requires
        pre.wf(),
        post.channels == pre.channels,
        post.watches == pre.watches,
        post.videos == pre.videos.push(v),
        find_video_idx(pre.videos, v.url) is None,
        0 <= v.channel < pre.channels.len(),
    ensures
        post.wf(),
{
    lemma_find_video_idx(pre.videos, v.url);
    assert forall|a: int, b: int| 0 <= a < b < post.videos.len() implies post.videos[a].url
        != post.videos[b].url by {
        if b < pre.videos.len() {
            assert(pre.videos[a].url != pre.videos[b].url);
        } else {
            assert(post.videos[a] == pre.videos[a]);
        }
    }
    assert forall|a: int| 0 <= a < post.videos.len() implies 0 <= #[trigger] post.videos[a].channel
        < post.channels.len() by {
        if a < pre.videos.len() {
            assert(post.videos[a] == pre.videos[a]);
        }
    }
}

/// Renaming a channel in place, keeping its URL, keeps the store well
/// formed.
proof fn lemma_wf_update_channel(pre: ModelsView, post: ModelsView, j: int, c: ChannelView)
    requires
        pre.wf(),
        post.videos == pre.videos,
        post.watches == pre.watches,
        post.channels == pre.channels.update(j, c),
        0 <= j < pre.channels.len(),
        c.url == pre.channels[j].url,
    ensures
        post.wf(),
{
    assert forall|a: int, b: int| 0 <= a < b < post.channels.len() implies post.channels[a].url
        != post.channels[b].url by {
        assert(pre.channels[a].url != pre.channels[b].url);
    }
}

/// Appending a channel with a fresh URL keeps the store well formed.
proof fn lemma_wf_push_channel(pre: ModelsView, post: ModelsView, c: ChannelView)
    requires
        pre.wf(),
        post.videos == pre.videos,
        post.watches == pre.watches,
        post.channels == pre.channels.push(c),
        find_channel_idx(pre.channels, c.url) is None,
    ensures
        post.wf(),
{
    lemma_find_channel_idx(pre.channels, c.url);
    assert forall|a: int, b: int| 0 <= a < b < post.channels.len() implies post.channels[a].url
        != post.channels[b].url by {
        if b < pre.channels.len() {
            assert(pre.channels[a].url != pre.channels[b].url);
        } else {
            assert(post.channels[a] == pre.channels[a]);
        }
    }
    assert forall|a: int| 0 <= a < post.videos.len() implies 0 <= #[trigger] post.videos[a].channel
        < post.channels.len() by {
        assert(pre.videos[a].channel < pre.channels.len());
    }
}

impl Models {
    /// An empty store.
    pub fn new() -> (r: Models)
        ensures
            r@.channels == Seq::<ChannelView>::empty(),
            r@.videos == Seq::<VideoView>::empty(),
            r@.watches == Seq::<WatchedView>::empty(),
            r@.wf(),
    {
        let r = Models { channels: Vec::new(), videos: Vec::new(), watches: Vec::new() };
        proof {
            assert(r@.channels =~= Seq::<ChannelView>::empty());
            assert(r@.videos =~= Seq::<VideoView>::empty());
            assert(r@.watches =~= Seq::<WatchedView>::empty());
        }
        r
    }

    /// The channels arena, in index order.
    pub fn channels(&self) -> (r: &Vec<Channel>)
        ensures
            views_of_channels(r@) == self@.channels,
    {
        &self.channels
    }

    /// The videos arena, in index order.
    pub fn videos(&self) -> (r: &Vec<Video>)
        ensures
            views_of_videos(r@) == self@.videos,
    {
        &self.videos
    }

    /// The watches, in order of insertion.
    pub fn watches(&self) -> (r: &Vec<Watched>)
        ensures
            views_of_watches(r@) == self@.watches,
    {
        &self.watches
    }

    /// Store a channel under its URL: a channel already there under it is
    /// renamed in place, else the channel is appended. Returns its index.
    pub fn insert_channel(&mut self, url: String, name: String) -> (r: usize)
        requires
            old(self)@.wf(),
        ensures
            final(self)@.wf(),
            final(self)@.videos == old(self)@.videos,
            final(self)@.watches == old(self)@.watches,
            match find_channel_idx(old(self)@.channels, url@) {
                Some(j) => {
                    &&& final(self)@.channels == old(self)@.channels.update(
                        j,
                        ChannelView { url: url@, name: name@ },
                    )
                    &&& r as int == j
                },
                None => {
                    &&& final(self)@.channels == old(self)@.channels.push(
                        ChannelView { url: url@, name: name@ },
                    )
                    &&& r as int == old(self)@.channels.len()
                },
            },
    {
        proof {
            lemma_find_channel_idx(old(self)@.channels, url@);
        }
        let n = self.channels.len();
        let mut i: usize = 0;
        while i < n
            invariant
                old(self)@.wf(),
                self == old(self),
                i <= n == self.channels@.len(),
                forall|k: int| 0 <= k < i ==> #[trigger] self@.channels[k].url != url@,
            decreases n - i,
        {
            if self.channels[i].url == url {
                assert(self@.channels[i as int].url == url@);
                assert(find_channel_idx(old(self)@.channels, url@) == Some(i as int)) by {
                    lemma_find_channel_idx(old(self)@.channels, url@);
                }
                let ghost pre_url = self@.channels[i as int].url;
                self.channels[i] = Channel { url, name };
                proof {
                    assert(self@.channels =~= old(self)@.channels.update(
                        i as int,
                        ChannelView { url: pre_url, name: name@ },
                    ));
                    assert(self@.videos =~= old(self)@.videos);
                    assert(self@.watches =~= old(self)@.watches);
                    lemma_wf_update_channel(
                        old(self)@,
                        self@,
                        i as int,
                        ChannelView { url: pre_url, name: name@ },
                    );
                }
                return i;
            }
            assert(self@.channels[i as int].url != url@);
            i = i + 1;
        }
        assert(find_channel_idx(old(self)@.channels, url@) is None) by {
            lemma_find_channel_idx(old(self)@.channels, url@);
        }
        let ghost cv = ChannelView { url: url@, name: name@ };
        self.channels.push(Channel { url, name });
        proof {
            assert(self@.channels =~= old(self)@.channels.push(cv));
            assert(self@.videos =~= old(self)@.videos);
            assert(self@.watches =~= old(self)@.watches);
            lemma_wf_push_channel(old(self)@, self@, cv);
        }
        n
    }

    /// The index of the channel picked by `where_channel`, if one is.
    pub fn find_channel(&self, where_channel: WhereChannel) -> (r: Option<usize>)
        requires
            self@.wf(),
        ensures
            match r {
                Some(i) => spec_find_channel(self@, where_channel) == Some(i as int),
                None => spec_find_channel(self@, where_channel) is None,
            },
    {
        match &where_channel {
            WhereChannel::Structure(matcher) => {
                proof {
                    assert(where_channel == WhereChannel::Structure(*matcher));
                }
                let by_url = matcher.url.is_some();
                let n = self.channels.len();
                let mut i: usize = 0;
                while i < n
                    invariant
                        self@.wf(),
                        i <= n == self.channels@.len(),
                        where_channel == WhereChannel::Structure(*matcher),
                        by_url == matcher.url is Some,
                        by_url ==> forall|k: int|
                            0 <= k < i ==> #[trigger] self@.channels[k].url
                                != matcher.url->Some_0@,
                        !by_url ==> forall|k: int|
                            0 <= k < i ==> !spec_channel_matcher(
                                *matcher,
                                #[trigger] self@.channels[k],
                            ),
                    decreases n - i,
                {
                    let hit = if by_url {
                        match &matcher.url {
                            Some(u) => self.channels[i].url == *u,
                            None => false,
                        }
                    } else {
                        matcher.matches(&self.channels[i])
                    };
                    assert(self@.channels[i as int] == self.channels@[i as int]@);
                    if hit {
                        proof {
                            if by_url {
                                assert(self@.channels[i as int].url == matcher.url->Some_0@);
                                lemma_find_channel_idx(self@.channels, matcher.url->Some_0@);
                            } else {
                                assert(spec_channel_matcher(*matcher, self@.channels[i as int]));
                                lemma_find_first_channel_match(self@.channels, *matcher);
                            }
                            assert(spec_find_channel(self@, where_channel) == Some(i as int));
                        }
                        return Some(i);
                    }
                    proof {
                        if by_url {
                            assert(self@.channels[i as int].url != matcher.url->Some_0@);
                        } else {
                            assert(!spec_channel_matcher(*matcher, self@.channels[i as int]));
                        }
                    }
                    i = i + 1;
                }
                proof {
                    if by_url {
                        lemma_find_channel_idx(self@.channels, matcher.url->Some_0@);
                    } else {
                        lemma_find_first_channel_match(self@.channels, *matcher);
                    }
                }
                None
            },
            WhereChannel::Reference(i) => {
                if *i < self.channels.len() {
                    Some(*i)
                } else {
                    None
                }
            },
            WhereChannel::Any => {
                if self.channels.len() > 0 {
                    Some(0)
                } else {
                    None
                }
            },
        }
    }

    /// The index of the video picked by `where_video`, if one is.
    pub fn find_video(&self, where_video: WhereVideo) -> (r: Option<usize>)
        requires
            self@.wf(),
        ensures
            match r {
                Some(i) => spec_find_video(self@, where_video) == Some(i as int),
                None => spec_find_video(self@, where_video) is None,
            },
    {
        match &where_video {
            WhereVideo::Structure(matcher) => {
                proof {
                    assert(where_video == WhereVideo::Structure(*matcher));
                }
                let by_url = matcher.url.is_some();
                let n = self.videos.len();
                let mut i: usize = 0;
                while i < n
                    invariant
                        self@.wf(),
                        i <= n == self.videos@.len(),
                        where_video == WhereVideo::Structure(*matcher),
                        by_url == matcher.url is Some,
                        by_url ==> forall|k: int|
                            0 <= k < i ==> #[trigger] self@.videos[k].url != matcher.url->Some_0@,
                        !by_url ==> forall|k: int|
                            0 <= k < i ==> !spec_video_matcher(
                                *matcher,
                                #[trigger] self@.videos[k],
                                self@.channels,
                            ),
                    decreases n - i,
                {
                    assert(self@.videos[i as int] == self.videos@[i as int]@);
                    assert(self.videos@[i as int].channel < self.channels@.len()) by {
                        assert(self@.videos[i as int].channel < self@.channels.len());
                    }
                    let hit = if by_url {
                        match &matcher.url {
                            Some(u) => self.videos[i].url == *u,
                            None => false,
                        }
                    } else {
                        matcher.matches(&self.videos[i], &self.channels)
                    };
                    if hit {
                        proof {
                            if by_url {
                                assert(self@.videos[i as int].url == matcher.url->Some_0@);
                                lemma_find_video_idx(self@.videos, matcher.url->Some_0@);
                            } else {
                                assert(spec_video_matcher(
                                    *matcher,
                                    self@.videos[i as int],
                                    self@.channels,
                                ));
                                lemma_find_first_video_match(
                                    self@.videos,
                                    *matcher,
                                    self@.channels,
                                );
                            }
                            assert(spec_find_video(self@, where_video) == Some(i as int));
                        }
                        return Some(i);
                    }
                    proof {
                        if by_url {
                            assert(self@.videos[i as int].url != matcher.url->Some_0@);
                        } else {
                            assert(!spec_video_matcher(
                                *matcher,
                                self@.videos[i as int],
                                self@.channels,
                            ));
                        }
                    }
                    i = i + 1;
                }
                proof {
                    if by_url {
                        lemma_find_video_idx(self@.videos, matcher.url->Some_0@);
                    } else {
                        lemma_find_first_video_match(self@.videos, *matcher, self@.channels);
                    }
                }
                None
            },
            WhereVideo::Reference(i) => {
                if *i < self.videos.len() {
                    Some(*i)
                } else {
                    None
                }
            },
            WhereVideo::Any => {
                if self.videos.len() > 0 {
                    Some(0)
                } else {
                    None
                }
            },
        }
    }

    /// Store a video under its URL: a video already there under it is
    /// retitled and re-homed in place, else the video is appended. Returns
    /// its index.
    pub fn insert_video(&mut self, url: String, title: String, channel: WhereChannel) -> (r: usize)
        requires
            old(self)@.wf(),
            spec_find_channel(old(self)@, channel) is Some,
        ensures
            final(self)@.wf(),
            final(self)@.channels == old(self)@.channels,
            final(self)@.watches == old(self)@.watches,
            ({
                let ci = spec_find_channel(old(self)@, channel)->Some_0;
                match find_video_idx(old(self)@.videos, url@) {
                    Some(j) => {
                        &&& final(self)@.videos == old(self)@.videos.update(
                            j,
                            VideoView { url: url@, title: title@, channel: ci },
                        )
                        &&& r as int == j
                    },
                    None => {
                        &&& final(self)@.videos == old(self)@.videos.push(
                            VideoView { url: url@, title: title@, channel: ci },
                        )
                        &&& r as int == old(self)@.videos.len()
                    },
                }
            }),
    {
        let ghost wch = channel;
        let ci = match self.find_channel(channel) {
            Some(ci) => ci,
            None => {
                proof {
                    assert(false);
                }
                0
            },
        };
        proof {
            lemma_spec_find_channel_in_range(old(self)@, wch);
            assert(ci as int == spec_find_channel(old(self)@, wch)->Some_0);
        }
        let n = self.videos.len();
        let mut i: usize = 0;
        while i < n
            invariant
                old(self)@.wf(),
                self == old(self),
                i <= n == self.videos@.len(),
                wch == channel,
                0 <= (ci as int) < self@.channels.len(),
                ci as int == spec_find_channel(old(self)@, wch)->Some_0,
                forall|k: int| 0 <= k < i ==> #[trigger] self@.videos[k].url != url@,
            decreases n - i,
        {
            if self.videos[i].url == url {
                assert(self@.videos[i as int].url == url@);
                assert(find_video_idx(old(self)@.videos, url@) == Some(i as int)) by {
                    lemma_find_video_idx(old(self)@.videos, url@);
                }
                let ghost pre_url = self@.videos[i as int].url;
                self.videos[i] = Video { url, title, channel: ci };
                proof {
                    let vv = VideoView { url: pre_url, title: title@, channel: ci as int };
                    assert(self@.videos =~= old(self)@.videos.update(i as int, vv));
                    assert(self@.channels =~= old(self)@.channels);
                    assert(self@.watches =~= old(self)@.watches);
                    lemma_wf_update_video(old(self)@, self@, i as int, vv);
                }
                return i;
            }
            assert(self@.videos[i as int].url != url@);
            i = i + 1;
        }
        assert(find_video_idx(old(self)@.videos, url@) is None) by {
            lemma_find_video_idx(old(self)@.videos, url@);
        }
        let ghost vv = VideoView { url: url@, title: title@, channel: ci as int };
        self.videos.push(Video { url, title, channel: ci });
        proof {
            assert(self@.videos =~= old(self)@.videos.push(vv));
            assert(self@.channels =~= old(self)@.channels);
            assert(self@.watches =~= old(self)@.watches);
            lemma_wf_push_video(old(self)@, self@, vv);
        }
        n
    }

    /// Record a watch of the video picked by `video`, now. Returns the
    /// watch stored.
    pub fn insert_watched(&mut self, when: i64, video: WhereVideo) -> (r: Watched)
        requires
            old(self)@.wf(),
            spec_find_video(old(self)@, video) is Some,
        ensures
            final(self)@.wf(),
            final(self)@.channels == old(self)@.channels,
            final(self)@.videos == old(self)@.videos,
            final(self)@.watches == old(self)@.watches.push(
                WatchedView { video: spec_find_video(old(self)@, video)->Some_0, when: when as int },
            ),
            r.video as int == spec_find_video(old(self)@, video)->Some_0,
            r.when == when,
    {
        let ghost wv = video;
        let vi = match self.find_video(video) {
            Some(vi) => vi,
            None => {
                proof {
                    assert(false);
                }
                0
            },
        };
        proof {
            lemma_spec_find_video_in_range(old(self)@, wv);
            assert(vi as int == spec_find_video(old(self)@, wv)->Some_0);
        }
        let watched = Watched { video: vi, when };
        self.watches.push(watched);
        proof {
            assert(self@.watches =~= old(self)@.watches.push(
                WatchedView { video: vi as int, when: when as int },
            ));
            assert(self@.channels =~= old(self)@.channels);
            assert(self@.videos =~= old(self)@.videos);
        }
        watched
    }

    /// The index of the channel with this URL, creating it with this name if
    /// none is there. A channel already there keeps its name.
    pub fn find_or_create_channel(&mut self, url: &String, name: &String) -> (r: usize)
        requires
            old(self)@.wf(),
        ensures
            final(self)@.wf(),
            final(self)@.videos == old(self)@.videos,
            final(self)@.watches == old(self)@.watches,
            match find_channel_idx(old(self)@.channels, url@) {
                Some(j) => {
                    &&& final(self)@.channels == old(self)@.channels
                    &&& r as int == j
                },
                None => {
                    &&& final(self)@.channels == old(self)@.channels.push(
                        ChannelView { url: url@, name: name@ },
                    )
                    &&& r as int == old(self)@.channels.len()
                },
            },
    {
        let matcher = ChannelMatcher { url: Some(url.clone()), name: Some(name.clone()) };
        match self.find_channel(WhereChannel::Structure(matcher)) {
            Some(i) => i,
            None => self.insert_channel(url.clone(), name.clone()),
        }
    }

    /// The index of the video with this URL, creating it with this title and
    /// channel if none is there. A video already there keeps its fields.
    pub fn find_or_create_video(&mut self, url: String, title: String, channel: usize) -> (r:
        usize)
        requires
            old(self)@.wf(),
            (channel as int) < old(self)@.channels.len(),
        ensures
            final(self)@.wf(),
            final(self)@.channels == old(self)@.channels,
            final(self)@.watches == old(self)@.watches,
            match find_video_idx(old(self)@.videos, url@) {
                Some(j) => {
                    &&& final(self)@.videos == old(self)@.videos
                    &&& r as int == j
                },
                None => {
                    &&& final(self)@.videos == old(self)@.videos.push(
                        VideoView { url: url@, title: title@, channel: channel as int },
                    )
                    &&& r as int == old(self)@.videos.len()
                },
            },
    {
        let matcher = VideoMatcher { url: Some(url.clone()), title: None, channel: None };
        match self.find_video(WhereVideo::Structure(matcher)) {
            Some(i) => i,
            None => self.insert_video(url, title, WhereChannel::Reference(channel)),
        }
    }

    /// How many stored videos `where_video` picks.
    pub fn count_videos(&self, where_video: WhereVideo) -> (r: u64)
        requires
            self@.wf(),
        ensures
            r as nat == spec_count_videos(self@, where_video),
    {
        match where_video {
            WhereVideo::Structure(matcher) => {
                let n = self.videos.len();
                let mut count: u64 = 0;
                let mut i: usize = 0;
                while i < n
                    invariant
                        self@.wf(),
                        i <= n == self.videos@.len(),
                        count as nat == count_videos_matching(
                            self@.videos.take(i as int),
                            matcher,
                            self@.channels,
                        ),
                        count <= i,
                    decreases n - i,
                {
                    let ghost pre = self@.videos.take(i as int);
                    assert(self@.videos[i as int] == self.videos@[i as int]@);
                    assert(self.videos@[i as int].channel < self.channels@.len()) by {
                        assert(self@.videos[i as int].channel < self@.channels.len());
                    }
                    if matcher.matches(&self.videos[i], &self.channels) {
                        count = count + 1;
                    }
                    i = i + 1;
                    proof {
                        assert(self@.videos.take(i as int).drop_last() =~= pre);
                        assert(self@.videos.take(i as int).last() == self@.videos[i - 1]);
                    }
                }
                proof {
                    assert(self@.videos.take(n as int) =~= self@.videos);
                }
                count
            },
            WhereVideo::Reference(i) => {
                if i < self.videos.len() {
                    1
                } else {
                    0
                }
            },
            WhereVideo::Any => self.videos.len() as u64,
        }
    }

    /// How many stored watches `where_watch` picks. Picking one watch by
    /// index is not a counting question and is not accepted here.
    pub fn count_watches(&self, where_watch: WhereWatched) -> (r: u64)
        requires
            self@.wf(),
            !(where_watch is Reference),
        ensures
            r as nat == spec_count_watches(self@, where_watch),
    {
        match where_watch {
            WhereWatched::Structure(matcher) => {
                let n = self.watches.len();
                let mut count: u64 = 0;
                let mut i: usize = 0;
                while i < n
                    invariant
                        self@.wf(),
                        i <= n == self.watches@.len(),
                        count as nat == count_watches_matching(
                            self@.watches.take(i as int),
                            matcher,
                            self@.videos,
                            self@.channels,
                        ),
                        count <= i,
                    decreases n - i,
                {
                    let ghost pre = self@.watches.take(i as int);
                    assert(self@.watches[i as int] == self.watches@[i as int]@);
                    assert(self.watches@[i as int].video < self.videos@.len()) by {
                        assert(self@.watches[i as int].video < self@.videos.len());
                    }
                    assert forall|k: int| 0 <= k < self.videos@.len() implies (
                    #[trigger] self.videos@[k]).channel < self.channels@.len() by {
                        assert(self@.videos[k] == self.videos@[k]@);
                        assert(self@.videos[k].channel < self@.channels.len());
                    }
                    if matcher.matches(&self.watches[i], &self.videos, &self.channels) {
                        count = count + 1;
                    }
                    i = i + 1;
                    proof {
                        assert(self@.watches.take(i as int).drop_last() =~= pre);
                        assert(self@.watches.take(i as int).last() == self@.watches[i - 1]);
                    }
                }
                proof {
                    assert(self@.watches.take(n as int) =~= self@.watches);
                }
                count
            },
            WhereWatched::Reference(_) => {
                proof {
                    assert(false);
                }
                0
            },
            WhereWatched::Any => self.watches.len() as u64,
        }
    }

    /// For each video index, how many watches it has.
    pub fn count_watched_by_video(&self) -> (r: Vec<u64>)
        requires
            self@.wf(),
        ensures
            r@.len() == self@.videos.len(),
            forall|v: int|
                0 <= v < r@.len() ==> #[trigger] r@[v] as nat == count_watches_of_video(
                    self@.watches,
                    v,
                ),
    {
        let n = self.videos.len();
        let m = self.watches.len();
        let mut counts: Vec<u64> = Vec::new();
        let mut v: usize = 0;
        while v < n
            invariant
                self@.wf(),
                v <= n == self.videos@.len(),
                m == self.watches@.len(),
                counts@.len() == v,
                forall|k: int|
                    0 <= k < v ==> #[trigger] counts@[k] as nat == count_watches_of_video(
                        self@.watches,
                        k,
                    ),
            decreases n - v,
        {
            let mut count: u64 = 0;
            let mut j: usize = 0;
            while j < m
                invariant
                    self@.wf(),
                    j <= m == self.watches@.len(),
                    count as nat == count_watches_of_video(
                        self@.watches.take(j as int),
                        v as int,
                    ),
                    count <= j,
                decreases m - j,
            {
                let ghost pre = self@.watches.take(j as int);
                if self.watches[j].video == v {
                    count = count + 1;
                }
                j = j + 1;
                proof {
                    assert(self@.watches.take(j as int).drop_last() =~= pre);
                    assert(self@.watches.take(j as int).last() == self@.watches[j - 1]);
                }
            }
            proof {
                assert(self@.watches.take(m as int) =~= self@.watches);
            }
            counts.push(count);
            v = v + 1;
        }
        counts
    }

    /// The store in its flat cache form: every reference becomes a URL.
    pub fn to_scalar(&self) -> (r: ScalarModels)
        requires
            self@.wf(),
        ensures
            r@ =~= spec_to_scalar(self@),
    {
        let ghost target = spec_to_scalar(self@);
        let mut watches: Vec<ScalarWatched> = Vec::new();
        let mut i: usize = 0;
        while i < self.watches.len()
            invariant
                self@.wf(),
                target == spec_to_scalar(self@),
                i <= self.watches@.len(),
                views_of_scalar_watches(watches@) =~= target.watches.take(i as int),
            decreases self.watches@.len() - i,
        {
            assert(self@.watches[i as int] == self.watches@[i as int]@);
            assert(self@.watches[i as int].video < self@.videos.len());
            let ghost pre = watches@;
            proof {
                assert(target.watches.len() == self@.watches.len());
                assert(self@.watches.len() == self.watches@.len());
                assert(views_of_scalar_watches(pre).len() == pre.len());
                assert(pre.len() == i as int);
            }
            let vi = self.watches[i].video;
            assert(self@.videos[vi as int] == self.videos@[vi as int]@);
            let video_url = self.videos[vi].url.clone();
            let when = self.watches[i].when;
            watches.push(ScalarWatched { video: video_url, when });
            i = i + 1;
            proof {
                assert(watches@ == pre.push(ScalarWatched { video: video_url, when }));
                assert forall|k: int| 0 <= k < i implies views_of_scalar_watches(watches@)[k]
                    == target.watches.take(i as int)[k] by {
                    if k < i - 1 {
                        assert(watches@[k] == pre[k]);
                        assert(views_of_scalar_watches(pre)[k] == target.watches.take(
                            i as int - 1,
                        )[k]);
                    } else {
                        assert(watches@[k]@ == target.watches[k]);
                    }
                }
                assert(views_of_scalar_watches(watches@).len() == i as int);
                assert(views_of_scalar_watches(watches@) =~= target.watches.take(i as int));
            }
        }
        let mut channels: Vec<ScalarChannel> = Vec::new();
        let mut i: usize = 0;
        while i < self.channels.len()
            invariant
                self@.wf(),
                target == spec_to_scalar(self@),
                i <= self.channels@.len(),
                views_of_scalar_channels(channels@) =~= target.channels.take(i as int),
            decreases self.channels@.len() - i,
        {
            assert(self@.channels[i as int] == self.channels@[i as int]@);
            let ghost pre = channels@;
            proof {
                assert(target.channels.len() == self@.channels.len());
                assert(self@.channels.len() == self.channels@.len());
                assert(views_of_scalar_channels(pre).len() == pre.len());
                assert(pre.len() == i as int);
            }
            let url = self.channels[i].url.clone();
            let name = self.channels[i].name.clone();
            channels.push(ScalarChannel { url, name });
            i = i + 1;
            proof {
                assert(channels@.len() == i);
                assert forall|k: int| 0 <= k < i implies views_of_scalar_channels(channels@)[k]
                    == target.channels.take(i as int)[k] by {
                    if k < i - 1 {
                        assert(channels@[k] == pre[k]);
                        assert(views_of_scalar_channels(pre)[k] == target.channels.take(
                            i as int - 1,
                        )[k]);
                    } else {
                        assert(channels@[k]@ == target.channels[k]);
                    }
                }
                assert(views_of_scalar_channels(channels@) =~= target.channels.take(i as int));
            }
        }
        let mut videos: Vec<ScalarVideo> = Vec::new();
        let mut i: usize = 0;
        while i < self.videos.len()
            invariant
                self@.wf(),
                target == spec_to_scalar(self@),
                i <= self.videos@.len(),
                views_of_scalar_videos(videos@) =~= target.videos.take(i as int),
            decreases self.videos@.len() - i,
        {
            assert(self@.videos[i as int] == self.videos@[i as int]@);
            assert(self@.videos[i as int].channel < self@.channels.len());
            let ci = self.videos[i].channel;
            assert(self@.channels[ci as int] == self.channels@[ci as int]@);
            let ghost pre = videos@;
            proof {
                assert(target.videos.len() == self@.videos.len());
                assert(self@.videos.len() == self.videos@.len());
                assert(views_of_scalar_videos(pre).len() == pre.len());
                assert(pre.len() == i as int);
            }
            let url = self.videos[i].url.clone();
            let title = self.videos[i].title.clone();
            let channel_url = self.channels[ci].url.clone();
            videos.push(ScalarVideo { url, title, channel: channel_url });
            i = i + 1;
            proof {
                assert forall|k: int| 0 <= k < i implies views_of_scalar_videos(videos@)[k]
                    == target.videos.take(i as int)[k] by {
                    if k < i - 1 {
                        assert(videos@[k] == pre[k]);
                        assert(views_of_scalar_videos(pre)[k] == target.videos.take(
                            i as int - 1,
                        )[k]);
                    } else {
                        assert(videos@[k]@ == target.videos[k]);
                    }
                }
                assert(views_of_scalar_videos(videos@).len() == i as int);
                assert(views_of_scalar_videos(videos@) =~= target.videos.take(i as int));
            }
        }
        proof {
            assert(target.watches.take(self.watches@.len() as int) =~= target.watches);
            assert(target.channels.take(self.channels@.len() as int) =~= target.channels);
            assert(target.videos.take(self.videos@.len() as int) =~= target.videos);
        }
        ScalarModels { watches, channels, videos }
    }

    /// Rebuild a store from its flat cache form. `None` exactly when a video
    /// names a channel URL, or a watch a video URL, that the form does not
    /// define.
    pub fn from_scalar(s: &ScalarModels) -> (r: Option<Models>)
        ensures
            match r {
                Some(m) => spec_from_scalar(s@) == Some(m@) && m@.wf(),
                None => spec_from_scalar(s@) is None,
            },
    {
        let mut m = Models::new();
        let cn = s.channels.len();
        let mut i: usize = 0;
        while i < cn
            invariant
                m@.wf(),
                i <= cn == s.channels@.len(),
                m@.videos == Seq::<VideoView>::empty(),
                m@.watches == Seq::<WatchedView>::empty(),
                m@.channels =~= fold_scalar_channels(Seq::empty(), s@.channels.take(i as int)),
            decreases cn - i,
        {
            assert(s@.channels[i as int] == s.channels@[i as int]@);
            let url = s.channels[i].url.clone();
            let name = s.channels[i].name.clone();
            m.insert_channel(url, name);
            i = i + 1;
            proof {
                assert(s@.channels.take(i as int).drop_last() =~= s@.channels.take(i as int - 1));
                assert(s@.channels.take(i as int).last() == s@.channels[i as int - 1]);
            }
        }
        assert(s@.channels.take(cn as int) =~= s@.channels);
        let ghost channels_done = m@.channels;
        let vn = s.videos.len();
        let mut i: usize = 0;
        while i < vn
            invariant
                m@.wf(),
                i <= vn == s.videos@.len(),
                m@.channels == channels_done,
                channels_done == fold_scalar_channels(Seq::empty(), s@.channels),
                m@.watches == Seq::<WatchedView>::empty(),
                Some(m@.videos) =~= fold_scalar_videos(
                    Seq::empty(),
                    channels_done,
                    s@.videos.take(i as int),
                ),
            decreases vn - i,
        {
            assert(s@.videos[i as int] == s.videos@[i as int]@);
            let matcher = ChannelMatcher { url: Some(s.videos[i].channel.clone()), name: None };
            let found = m.find_channel(WhereChannel::Structure(matcher));
            proof {
                assert(s@.videos.take(i as int + 1).drop_last() =~= s@.videos.take(i as int));
                assert(s@.videos.take(i as int + 1).last() == s@.videos[i as int]);
            }
            match found {
                None => {
                    proof {
                        assert(fold_scalar_videos(
                            Seq::empty(),
                            channels_done,
                            s@.videos.take(i as int + 1),
                        ) is None);
                        lemma_fold_videos_none_stable(
                            Seq::empty(),
                            channels_done,
                            s@.videos,
                            i as int + 1,
                        );
                    }
                    return None;
                },
                Some(ci) => {
                    proof {
                        lemma_spec_find_channel_in_range(
                            m@,
                            WhereChannel::Structure(
                                ChannelMatcher {
                                    url: Some(s.videos@[i as int].channel),
                                    name: None,
                                },
                            ),
                        );
                    }
                    let url = s.videos[i].url.clone();
                    let title = s.videos[i].title.clone();
                    m.insert_video(url, title, WhereChannel::Reference(ci));
                },
            }
            i = i + 1;
        }
        assert(s@.videos.take(vn as int) =~= s@.videos);
        let ghost videos_done = m@.videos;
        let wn = s.watches.len();
        let mut i: usize = 0;
        while i < wn
            invariant
                m@.wf(),
                i <= wn == s.watches@.len(),
                m@.channels == channels_done,
                m@.videos == videos_done,
                channels_done == fold_scalar_channels(Seq::empty(), s@.channels),
                Some(videos_done) == fold_scalar_videos(Seq::empty(), channels_done, s@.videos),
                Some(m@.watches) =~= fold_scalar_watches(
                    Seq::empty(),
                    videos_done,
                    s@.watches.take(i as int),
                ),
            decreases wn - i,
        {
            assert(s@.watches[i as int] == s.watches@[i as int]@);
            let matcher = VideoMatcher {
                url: Some(s.watches[i].video.clone()),
                title: None,
                channel: None,
            };
            let found = m.find_video(WhereVideo::Structure(matcher));
            proof {
                assert(s@.watches.take(i as int + 1).drop_last() =~= s@.watches.take(i as int));
                assert(s@.watches.take(i as int + 1).last() == s@.watches[i as int]);
            }
            match found {
                None => {
                    proof {
                        assert(fold_scalar_watches(
                            Seq::empty(),
                            videos_done,
                            s@.watches.take(i as int + 1),
                        ) is None);
                        lemma_fold_watches_none_stable(
                            Seq::empty(),
                            videos_done,
                            s@.watches,
                            i as int + 1,
                        );
                    }
                    return None;
                },
                Some(vi) => {
                    proof {
                        lemma_spec_find_video_in_range(
                            m@,
                            WhereVideo::Structure(
                                VideoMatcher {
                                    url: Some(s.watches@[i as int].video),
                                    title: None,
                                    channel: None,
                                },
                            ),
                        );
                    }
                    let when = s.watches[i].when;
                    m.insert_watched(when, WhereVideo::Reference(vi));
                },
            }
            i = i + 1;
        }
        assert(s@.watches.take(wn as int) =~= s@.watches);
        Some(m)
    }
}

/// A failed video fold stays failed however much more is folded in.
pub proof fn lemma_fold_videos_none_stable(
    vs: Seq<VideoView>,
    channels: Seq<ChannelView>,
    svs: Seq<ScalarVideoView>,
    i: int,
)
    requires
        0 <= i <= svs.len(),
        fold_scalar_videos(vs, channels, svs.take(i)) is None,
    ensures
        fold_scalar_videos(vs, channels, svs) is None,
    decreases svs.len() - i,
{
    if i < svs.len() {
        assert(svs.take(i + 1).drop_last() =~= svs.take(i));
        lemma_fold_videos_none_stable(vs, channels, svs, i + 1);
    } else {
        assert(svs.take(i) =~= svs);
    }
}

/// A failed watch fold stays failed however much more is folded in.
pub proof fn lemma_fold_watches_none_stable(
    ws: Seq<WatchedView>,
    videos: Seq<VideoView>,
    sws: Seq<ScalarWatchedView>,
    i: int,
)
    requires
        0 <= i <= sws.len(),
        fold_scalar_watches(ws, videos, sws.take(i)) is None,
    ensures
        fold_scalar_watches(ws, videos, sws) is None,
    decreases sws.len() - i,
{
    if i < sws.len() {
        assert(sws.take(i + 1).drop_last() =~= sws.take(i));
        lemma_fold_watches_none_stable(ws, videos, sws, i + 1);
    } else {
        assert(sws.take(i) =~= sws);
    }
}



/// A channel in the flat cache form.
#[derive(Debug, Clone, PartialEq, Eq)]
pub struct ScalarChannel {
    pub url: String,
    pub name: String,
}

/// A video in the flat cache form: its channel is named by URL.
#[derive(Debug, Clone, PartialEq, Eq)]
pub struct ScalarVideo {
    pub url: String,
    pub title: String,
    pub channel: String,
}

/// A watch in the flat cache form: its video is named by URL.
#[derive(Debug, Clone, PartialEq, Eq)]
pub struct ScalarWatched {
    pub video: String,
    pub when: i64,
}

/// The whole store in the flat cache form: plain lists, references by URL.
#[derive(Debug, Clone, PartialEq, Eq)]
pub struct ScalarModels {
    pub watches: Vec<ScalarWatched>,
    pub channels: Vec<ScalarChannel>,
    pub videos: Vec<ScalarVideo>,
}

/// The mathematical value of a [`ScalarChannel`].
pub ghost struct ScalarChannelView {
    pub url: Seq<char>,
    pub name: Seq<char>,
}

/// The mathematical value of a [`ScalarVideo`].
pub ghost struct ScalarVideoView {
    pub url: Seq<char>,
    pub title: Seq<char>,
    pub channel: Seq<char>,
}

/// The mathematical value of a [`ScalarWatched`].
pub ghost struct ScalarWatchedView {
    pub video: Seq<char>,
    pub when: int,
}

/// The mathematical value of a [`ScalarModels`].
#[verifier::ext_equal]
pub ghost struct ScalarModelsView {
    pub watches: Seq<ScalarWatchedView>,
    pub channels: Seq<ScalarChannelView>,
    pub videos: Seq<ScalarVideoView>,
}

impl View for ScalarChannel {
    type V = ScalarChannelView;

    open spec fn view(&self) -> ScalarChannelView {
        ScalarChannelView { url: self.url@, name: self.name@ }
    }
}

impl View for ScalarVideo {
    type V = ScalarVideoView;

    open spec fn view(&self) -> ScalarVideoView {
        ScalarVideoView { url: self.url@, title: self.title@, channel: self.channel@ }
    }
}

impl View for ScalarWatched {
    type V = ScalarWatchedView;

    open spec fn view(&self) -> ScalarWatchedView {
        ScalarWatchedView { video: self.video@, when: self.when as int }
    }
}

/// The element-wise views of a scalar channel list.
pub open spec fn views_of_scalar_channels(v: Seq<ScalarChannel>) -> Seq<ScalarChannelView> {
    v.map_values(|c: ScalarChannel| c@)
}

/// The element-wise views of a scalar video list.
pub open spec fn views_of_scalar_videos(v: Seq<ScalarVideo>) -> Seq<ScalarVideoView> {
    v.map_values(|x: ScalarVideo| x@)
}

/// The element-wise views of a scalar watch list.
pub open spec fn views_of_scalar_watches(v: Seq<ScalarWatched>) -> Seq<ScalarWatchedView> {
    v.map_values(|x: ScalarWatched| x@)
}

impl View for ScalarModels {
    type V = ScalarModelsView;

    open spec fn view(&self) -> ScalarModelsView {
        ScalarModelsView {
            watches: views_of_scalar_watches(self.watches@),
            channels: views_of_scalar_channels(self.channels@),
            videos: views_of_scalar_videos(self.videos@),
        }
    }
}

/// The flat cache form of a well-formed store: references become URLs.
pub open spec fn spec_to_scalar(m: ModelsView) -> ScalarModelsView
    recommends
        m.wf(),
{
    ScalarModelsView {
        watches: Seq::new(
            m.watches.len(),
            |i: int|
                ScalarWatchedView {
                    video: m.videos[m.watches[i].video].url,
                    when: m.watches[i].when,
                },
        ),
        channels: Seq::new(
            m.channels.len(),
            |i: int| ScalarChannelView { url: m.channels[i].url, name: m.channels[i].name },
        ),
        videos: Seq::new(
            m.videos.len(),
            |i: int|
                ScalarVideoView {
                    url: m.videos[i].url,
                    title: m.videos[i].title,
                    channel: m.channels[m.videos[i].channel].url,
                },
        ),
    }
}

/// Fold one scalar channel into the arena: rename in place under a known
/// URL, else append.
pub open spec fn scalar_insert_channel(
    chs: Seq<ChannelView>,
    c: ScalarChannelView,
) -> Seq<ChannelView> {
    match find_channel_idx(chs, c.url) {
        Some(j) => chs.update(j, ChannelView { url: c.url, name: c.name }),
        None => chs.push(ChannelView { url: c.url, name: c.name }),
    }
}

/// Fold all scalar channels into an empty arena, in order.
pub open spec fn fold_scalar_channels(
    chs: Seq<ChannelView>,
    cs: Seq<ScalarChannelView>,
) -> Seq<ChannelView>
    decreases cs.len(),
{
    if cs.len() == 0 {
        chs
    } else {
        scalar_insert_channel(fold_scalar_channels(chs, cs.drop_last()), cs.last())
    }
}

/// Fold one scalar video in; a channel URL naming no channel fails.
pub open spec fn scalar_insert_video(
    vs: Seq<VideoView>,
    channels: Seq<ChannelView>,
    v: ScalarVideoView,
) -> Option<Seq<VideoView>> {
    match find_channel_idx(channels, v.channel) {
        None => None,
        Some(ci) => Some(
            match find_video_idx(vs, v.url) {
                Some(j) => vs.update(j, VideoView { url: v.url, title: v.title, channel: ci }),
                None => vs.push(VideoView { url: v.url, title: v.title, channel: ci }),
            },
        ),
    }
}

/// Fold all scalar videos in, in order; the first failure wins.
pub open spec fn fold_scalar_videos(
    vs: Seq<VideoView>,
    channels: Seq<ChannelView>,
    svs: Seq<ScalarVideoView>,
) -> Option<Seq<VideoView>>
    decreases svs.len(),
{
    if svs.len() == 0 {
        Some(vs)
    } else {
        match fold_scalar_videos(vs, channels, svs.drop_last()) {
            None => None,
            Some(prev) => scalar_insert_video(prev, channels, svs.last()),
        }
    }
}

/// Fold all scalar watches in, in order; a video URL naming no video fails.
pub open spec fn fold_scalar_watches(
    ws: Seq<WatchedView>,
    videos: Seq<VideoView>,
    sws: Seq<ScalarWatchedView>,
) -> Option<Seq<WatchedView>>
    decreases sws.len(),
{
    if sws.len() == 0 {
        Some(ws)
    } else {
        match fold_scalar_watches(ws, videos, sws.drop_last()) {
            None => None,
            Some(prev) => match find_video_idx(videos, sws.last().video) {
                None => None,
                Some(vi) => Some(prev.push(WatchedView { video: vi, when: sws.last().when })),
            },
        }
    }
}

/// Rebuild a store from its flat cache form: channels first, then videos
/// resolving their channel URLs, then watches resolving their video URLs. A
/// dangling URL fails the whole decoding.
pub open spec fn spec_from_scalar(s: ScalarModelsView) -> Option<ModelsView> {
    let channels = fold_scalar_channels(Seq::empty(), s.channels);
    match fold_scalar_videos(Seq::empty(), channels, s.videos) {
        None => None,
        Some(videos) => match fold_scalar_watches(Seq::empty(), videos, s.watches) {
            None => None,
            Some(watches) => Some(ModelsView { channels, videos, watches }),
        },
    }
}

/// A found channel index lies in the arena.
pub proof fn lemma_spec_find_channel_in_range(mv: ModelsView, w: WhereChannel)
    ensures
        match spec_find_channel(mv, w) {
            Some(j) => 0 <= j < mv.channels.len(),
            None => true,
        },
{
    match w {
        WhereChannel::Structure(m) => match m.url {
            Some(u) => lemma_find_channel_idx(mv.channels, u@),
            None => lemma_find_first_channel_match(mv.channels, m),
        },
        WhereChannel::Reference(i) => {},
        WhereChannel::Any => {},
    }
}

/// A found video index lies in the arena.
pub proof fn lemma_spec_find_video_in_range(mv: ModelsView, w: WhereVideo)
    ensures
        match spec_find_video(mv, w) {
            Some(j) => 0 <= j < mv.videos.len(),
            None => true,
        },
{
    match w {
        WhereVideo::Structure(m) => match m.url {
            Some(u) => lemma_find_video_idx(mv.videos, u@),
            None => lemma_find_first_video_match(mv.videos, m, mv.channels),
        },
        WhereVideo::Reference(i) => {},
        WhereVideo::Any => {},
    }
}


/// Folding back the flattened channels rebuilds them at the same indices.
proof fn lemma_round_trip_channels(m: ModelsView, i: int)
    requires
        m.wf(),
        0 <= i <= m.channels.len(),
    ensures
        fold_scalar_channels(Seq::empty(), spec_to_scalar(m).channels.take(i)) == m.channels.take(
            i,
        ),
    decreases i,
{
    let sc = spec_to_scalar(m).channels;
    if i == 0 {
        assert(sc.take(0) =~= Seq::<ScalarChannelView>::empty());
        assert(fold_scalar_channels(Seq::empty(), sc.take(0)) =~= m.channels.take(0));
    } else {
        lemma_round_trip_channels(m, i - 1);
        assert(sc.take(i).drop_last() =~= sc.take(i - 1));
        assert(sc.take(i).last() == sc[i - 1]);
        let url = m.channels[i - 1].url;
        lemma_find_channel_idx(m.channels.take(i - 1), url);
        match find_channel_idx(m.channels.take(i - 1), url) {
            Some(j) => {
                assert(m.channels.take(i - 1)[j] == m.channels[j]);
                assert(m.channels[j].url == m.channels[i - 1].url);
                assert(false);
            },
            None => {},
        }
        assert(ChannelView { url: sc[i - 1].url, name: sc[i - 1].name } == m.channels[i - 1]);
        assert(m.channels.take(i - 1).push(m.channels[i - 1]) =~= m.channels.take(i));
    }
}

/// Folding back the flattened videos rebuilds them at the same indices,
/// resolving each channel URL to the original channel index.
proof fn lemma_round_trip_videos(m: ModelsView, i: int)
    requires
        m.wf(),
        0 <= i <= m.videos.len(),
    ensures
        fold_scalar_videos(Seq::empty(), m.channels, spec_to_scalar(m).videos.take(i)) == Some(
            m.videos.take(i),
        ),
    decreases i,
{
    let sv = spec_to_scalar(m).videos;
    if i == 0 {
        assert(sv.take(0) =~= Seq::<ScalarVideoView>::empty());
        assert(m.videos.take(0) =~= Seq::<VideoView>::empty());
    } else {
        lemma_round_trip_videos(m, i - 1);
        assert(sv.take(i).drop_last() =~= sv.take(i - 1));
        assert(sv.take(i).last() == sv[i - 1]);
        let vchan = m.videos[i - 1].channel;
        let curl = m.channels[vchan].url;
        assert(sv[i - 1].channel == curl);
        lemma_find_channel_idx(m.channels, curl);
        match find_channel_idx(m.channels, curl) {
            Some(j) => {
                assert(m.channels[j].url == m.channels[vchan].url);
                if j < vchan {
                    assert(false);
                }
                if vchan < j {
                    assert(false);
                }
                assert(j == vchan);
            },
            None => {
                assert(m.channels[vchan].url == curl);
                assert(false);
            },
        }
        let vurl = m.videos[i - 1].url;
        lemma_find_video_idx(m.videos.take(i - 1), vurl);
        match find_video_idx(m.videos.take(i - 1), vurl) {
            Some(j) => {
                assert(m.videos.take(i - 1)[j] == m.videos[j]);
                assert(m.videos[j].url == m.videos[i - 1].url);
                assert(false);
            },
            None => {},
        }
        assert(VideoView { url: sv[i - 1].url, title: sv[i - 1].title, channel: vchan }
            == m.videos[i - 1]);
        assert(m.videos.take(i - 1).push(m.videos[i - 1]) =~= m.videos.take(i));
    }
}

/// Folding back the flattened watches rebuilds them in order, resolving each
/// video URL to the original video index.
proof fn lemma_round_trip_watches(m: ModelsView, i: int)
    requires
        m.wf(),
        0 <= i <= m.watches.len(),
    ensures
        fold_scalar_watches(Seq::empty(), m.videos, spec_to_scalar(m).watches.take(i)) == Some(
            m.watches.take(i),
        ),
    decreases i,
{
    let sw = spec_to_scalar(m).watches;
    if i == 0 {
        assert(sw.take(0) =~= Seq::<ScalarWatchedView>::empty());
        assert(m.watches.take(0) =~= Seq::<WatchedView>::empty());
    } else {
        lemma_round_trip_watches(m, i - 1);
        assert(sw.take(i).drop_last() =~= sw.take(i - 1));
        assert(sw.take(i).last() == sw[i - 1]);
        let wvid = m.watches[i - 1].video;
        let vurl = m.videos[wvid].url;
        assert(sw[i - 1].video == vurl);
        lemma_find_video_idx(m.videos, vurl);
        match find_video_idx(m.videos, vurl) {
            Some(j) => {
                assert(m.videos[j].url == m.videos[wvid].url);
                if j < wvid {
                    assert(false);
                }
                if wvid < j {
                    assert(false);
                }
                assert(j == wvid);
            },
            None => {
                assert(m.videos[wvid].url == vurl);
                assert(false);
            },
        }
        assert(WatchedView { video: wvid, when: sw[i - 1].when } == m.watches[i - 1]);
        assert(m.watches.take(i - 1).push(m.watches[i - 1]) =~= m.watches.take(i));
    }
}

/// Round trip through the cache form: flattening a well-formed store and
/// decoding the result rebuilds the very same store — channels and videos
/// at the same indices, the watch sequence in the same order.
pub proof fn lemma_cache_round_trip(m: ModelsView)
    requires
        m.wf(),
    ensures
        spec_from_scalar(spec_to_scalar(m)) == Some(m),
{
    let s = spec_to_scalar(m);
    lemma_round_trip_channels(m, m.channels.len() as int);
    assert(s.channels.take(s.channels.len() as int) =~= s.channels);
    assert(m.channels.take(m.channels.len() as int) =~= m.channels);
    assert(fold_scalar_channels(Seq::empty(), s.channels) == m.channels);
    lemma_round_trip_videos(m, m.videos.len() as int);
    assert(s.videos.take(s.videos.len() as int) =~= s.videos);
    assert(m.videos.take(m.videos.len() as int) =~= m.videos);
    assert(fold_scalar_videos(Seq::empty(), m.channels, s.videos) == Some(m.videos));
    lemma_round_trip_watches(m, m.watches.len() as int);
    assert(s.watches.take(s.watches.len() as int) =~= s.watches);
    assert(m.watches.take(m.watches.len() as int) =~= m.watches);
    assert(fold_scalar_watches(Seq::empty(), m.videos, s.watches) == Some(m.watches));
    assert(ModelsView { channels: m.channels, videos: m.videos, watches: m.watches } =~= m);
}

} // verus!
