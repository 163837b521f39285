//! Folding rows of the JSON export into the record store.
//!
//! A row carries a title, an identifier, an optional channel in its first
//! subtitle, and an RFC 3339 time. Rows whose title says the visit was not a
//! watch are excluded; a row with no subtitle falls back to a fixed default
//! channel. The deserialization itself is the caller's concern: this module
//! takes plain rows.

use vstd::prelude::*;

verus! {

use crate::dates::{parse_rfc3339, rfc3339_of};
use crate::model::{
    find_channel_idx, find_video_idx, lemma_find_channel_idx, lemma_find_video_idx, ChannelView,
    Models, ModelsView, VideoView, WatchedView, WhereVideo,
};

/// One subtitle of a row: the channel's name and URL.
#[derive(Debug, Clone, PartialEq, Eq)]
pub struct Subtitles {
    pub name: String,
    pub url: String,
}

/// One row of the JSON export.
#[derive(Debug, Clone, PartialEq, Eq)]
pub struct DataRow {
    pub header: String,
    pub title: String,
    pub title_url: String,
    pub subtitles: Vec<Subtitles>,
    pub time: String,
    pub products: Vec<String>,
    pub activity_controls: Vec<String>,
}

/// The channel a row names: its first subtitle, or the fixed default pair
/// when it has none.
pub open spec fn spec_row_channel(row: DataRow) -> (Seq<char>, Seq<char>) {
    if row.subtitles@.len() > 0 {
        (row.subtitles@[0].url@, row.subtitles@[0].name@)
    } else {
        ("(hidden)"@, "(hidden)"@)
    }
}

/// The row's title with the fixed leading marker stripped, when it has one.
pub open spec fn spec_row_title(row: DataRow) -> Seq<char> {
    spec_row_title_seq(row.title@)
}

/// Fold one row into the store: a row that is not a watch leaves it
/// unchanged, a row whose time is not RFC 3339 fails, any other row is
/// deduplicated in by URL and appends one watch.
pub open spec fn spec_add_row(m: ModelsView, row: DataRow) -> Option<ModelsView> {
    if row.title@ == "Visited YouTube Music"@ {
        Some(m)
    } else {
        match rfc3339_of(row.time@) {
            None => None,
            Some(t) => {
                let curl = spec_row_channel(row).0;
                let cname = spec_row_channel(row).1;
                let ci = match find_channel_idx(m.channels, curl) {
                    Some(j) => j,
                    None => m.channels.len() as int,
                };
                let channels2 = match find_channel_idx(m.channels, curl) {
                    Some(j) => m.channels,
                    None => m.channels.push(ChannelView { url: curl, name: cname }),
                };
                let vi = match find_video_idx(m.videos, row.title_url@) {
                    Some(j) => j,
                    None => m.videos.len() as int,
                };
                let videos2 = match find_video_idx(m.videos, row.title_url@) {
                    Some(j) => m.videos,
                    None => m.videos.push(
                        VideoView { url: row.title_url@, title: spec_row_title(row), channel: ci },
                    ),
                };
                Some(
                    ModelsView {
                        channels: channels2,
                        videos: videos2,
                        watches: m.watches.push(WatchedView { video: vi, when: t as int }),
                    },
                )
            },
        }
    }
}

/// Fold all rows in, in order; the first row with a bad time fails the
/// whole import.
pub open spec fn spec_rows_models(m: ModelsView, rows: Seq<DataRow>) -> Option<ModelsView>
    decreases rows.len(),
{
    if rows.len() == 0 {
        Some(m)
    } else {
        match spec_rows_models(m, rows.drop_last()) {
            None => None,
            Some(prev) => spec_add_row(prev, rows.last()),
        }
    }
}

/// A failed row fold stays failed however many more rows are folded in.
pub proof fn lemma_rows_none_stable(m: ModelsView, rows: Seq<DataRow>, i: int)
    requires
        0 <= i <= rows.len(),
        spec_rows_models(m, rows.take(i)) is None,
    ensures
        spec_rows_models(m, rows) is None,
    decreases rows.len() - i,
{
    if i < rows.len() {
        assert(rows.take(i + 1).drop_last() =~= rows.take(i));
        lemma_rows_none_stable(m, rows, i + 1);
    } else {
        assert(rows.take(i) =~= rows);
    }
}

/// A row whose title says the visit was not a watch changes nothing, and a
/// row with no subtitle is filed under the fixed default channel.
pub proof fn lemma_row_handling(m: ModelsView, row: DataRow)
    ensures
        row.title@ == "Visited YouTube Music"@ ==> spec_add_row(m, row) == Some(m),
        row.subtitles@.len() == 0 ==> spec_row_channel(row) == ("(hidden)"@, "(hidden)"@),
{
}

/// The empty store that an import starts from.
pub open spec fn empty_models() -> ModelsView {
    ModelsView {
        channels: Seq::<ChannelView>::empty(),
        videos: Seq::<VideoView>::empty(),
        watches: Seq::<WatchedView>::empty(),
    }
}

/// Fold the rows of a JSON export into a store. `Err` exactly when some row
/// that is a watch carries a time that is not RFC 3339; the message is what
/// the time parser said of the first such row.
pub fn parse(rows: Vec<DataRow>) -> (r: Result<Models, String>)
    ensures
        match r {
            Ok(m) => {
                &&& spec_rows_models(empty_models(), rows@) == Some(m@)
                &&& m@.wf()
            },
            Err(_) => spec_rows_models(empty_models(), rows@) is None,
        },
{
    let mut models = Models::new();
    proof {
        assert(models@ =~= empty_models());
    }
    let marker: String = "Visited YouTube Music".to_owned();
    let n = rows.len();
    let mut i: usize = 0;
    while i < n
        invariant
            i <= n == rows@.len(),
            models@.wf(),
            marker@ == "Visited YouTube Music"@,
            Some(models@) =~= spec_rows_models(empty_models(), rows@.take(i as int)),
        decreases n - i,
    {
        let ghost pre = models@;
        proof {
            assert(rows@.take(i as int + 1).drop_last() =~= rows@.take(i as int));
            assert(rows@.take(i as int + 1).last() == rows@[i as int]);
        }
        let row = &rows[i];
        let skip_row = row.title == marker;
        if !skip_row {
            let t = match parse_rfc3339(row.time.as_str()) {
                Ok(t) => t,
                Err(msg) => {
                    proof {
                        assert(spec_rows_models(
                            empty_models(),
                            rows@.take(i as int + 1),
                        ) is None);
                        lemma_rows_none_stable(empty_models(), rows@, i as int + 1);
                    }
                    return Err(msg);
                },
            };
            let (curl, cname) = if row.subtitles.len() > 0 {
                (row.subtitles[0].url.clone(), row.subtitles[0].name.clone())
            } else {
                (string_hidden(), string_hidden())
            };
            let title = strip_watched_prefix(&row.title);
            let ghost g_curl = curl@;
            let ghost g_title = title@;
            let ci = models.find_or_create_channel(&curl, &cname);
            proof {
                lemma_find_channel_idx(pre.channels, g_curl);
            }
            let vi = models.find_or_create_video(row.title_url.clone(), title, ci);
            proof {
                lemma_find_video_idx(pre.videos, row.title_url@);
            }
            models.insert_watched(t, WhereVideo::Reference(vi));
            proof {
                let target = spec_add_row(pre, rows@[i as int])->Some_0;
                assert(models@.channels =~= target.channels);
                assert(models@.videos =~= target.videos);
                assert(models@.watches =~= target.watches);
                assert(models@ =~= target);
            }
        }
        i = i + 1;
    }
    proof {
        assert(rows@.take(n as int) =~= rows@);
    }
    Ok(models)
}

/// The fixed default channel name and identifier.
fn string_hidden() -> (r: String)
    ensures
        r@ == "(hidden)"@,
{
    "(hidden)".to_owned()
}

/// The row title with the fixed leading marker stripped, when it has one.
pub fn strip_watched_prefix(title: &String) -> (r: String)
    ensures
        r@ == spec_row_title_seq(title@),
{
    proof {
        reveal_strlit("Watched ");
    }
    let marker = "Watched ";
    let tlen = title.as_str().unicode_len();
    if tlen >= 8 {
        let mut k: usize = 0;
        let mut matched = true;
        while k < 8
            invariant
                k <= 8,
                tlen == title@.len(),
                tlen >= 8,
                marker@ == "Watched "@,
                marker@.len() == 8,
                matched == (forall|j: int| 0 <= j < k ==> title@[j] == marker@[j]),
            decreases 8 - k,
        {
            let c = title.as_str().get_char(k);
            let w = marker.get_char(k);
            if c != w {
                matched = false;
            }
            k = k + 1;
        }
        if matched {
            proof {
                assert(title@.take(8) =~= "Watched "@);
            }
            let rest = title.as_str().substring_char(8, tlen);
            rest.to_owned()
        } else {
            proof {
                let j = choose|j: int| 0 <= j < 8 && title@[j] != marker@[j];
                if title@.take(8) == "Watched "@ {
                    assert(title@.take(8)[j] == "Watched "@[j]);
                    assert(false);
                }
            }
            title.clone()
        }
    } else {
        title.clone()
    }
}

/// What stripping the marker yields, over the bare character sequence.
pub open spec fn spec_row_title_seq(title: Seq<char>) -> Seq<char> {
    if title.len() >= 8 && title.take(8) == "Watched "@ {
        title.skip(8)
    } else {
        title
    }
}

} // verus!
