//! The position-tracking scanner and the record grammar over the HTML
//! export.
//!
//! The scanner owns the running position (characters consumed, line, column)
//! and a one-character lookahead, and pulls decoded characters from a
//! [`Utf8Iter`]. Its two primitives — skip forward past a literal, and
//! accumulate text until a literal — run the automaton of [`crate::scan`]
//! and report a "closest partial match" diagnostic on failure. The record
//! grammar applies them in a fixed order to pull one record at a time.

use vstd::prelude::*;

verus! {

use crate::model::{Models, ModelsView, WhereVideo, find_channel_idx, find_video_idx, ChannelView,
    VideoView, WatchedView};
use crate::scan::{scan_fold, scan_hits, no_hit, closest_text, closest_at, ScanState,
    lemma_fold_wf};
use crate::source::ByteSource;
use crate::text::{collapse_ws, push_collapse, collapse_step, collapse_push,
    push_collapse_whitespace, string_from_chars, sat, sat_inc, nl_count, col_count};
use crate::utf8::Event;
use crate::utf8_reader::{Utf8Iter, Error, all_ch, ch_chars, event_of, lemma_all_ch_append,
    lemma_ch_chars_one, lemma_ch_chars_append};
use crate::dates::{history_datetime_of, parse_history_datetime};

/// A snapshot of the scan position: characters consumed so far, and the
/// 1-based column and line standing at. Each counter saturates at the
/// largest `usize` rather than overflow.
#[derive(Debug, Clone, Copy, PartialEq, Eq, Structural)]
pub struct Location {
    pub chars: usize,
    pub columns: usize,
    pub lines: usize,
}

/// `l` is the position after consuming exactly the characters `t`.
pub open spec fn loc_of(l: Location, t: Seq<char>) -> bool {
    &&& l.chars as nat == sat(t.len())
    &&& l.lines as nat == sat(nl_count(t) + 1)
    &&& l.columns as nat == sat(col_count(t) + 1)
}

/// Why a scan, or the whole extraction, failed.
#[derive(Debug, Clone, PartialEq)]
pub enum ParseError {
    /// The input ended before the expected literal was matched. `closest`
    /// is the longest partial match seen, with the position just before it.
    UnterminatedInput { expected: String, closest: Option<(String, Location)> },
    /// An invalid byte span stood where a character was needed.
    InvalidUtf8 { location: Location, bytes: Vec<u8> },
    /// The underlying source failed to read.
    IoError { location: Location, error: String },
    /// A record's trailing free text did not parse as a timestamp.
    DateParseError { location: Location, invalid_date: String, error: String },
    /// The input held no record at all.
    NoRows,
}

/// The lookahead as a sequence: one character, or none.
pub open spec fn look_seq(look: Option<char>) -> Seq<char> {
    match look {
        Some(c) => seq![c],
        None => Seq::empty(),
    }
}

/// The events a call appended to a history.
pub open spec fn news_of(post: Seq<Event>, base: Seq<Event>) -> Seq<Event> {
    post.skip(base.len() as int)
}

/// The characters a call consumed beyond a base.
pub open spec fn delta_of(post: Seq<char>, base: Seq<char>) -> Seq<char> {
    post.skip(base.len() as int)
}

/// A history extended by a nonempty tail is nonempty and ends as the tail
/// ends.
proof fn lemma_news_last(whole: Seq<Event>, a: Seq<Event>, b: Seq<Event>)
    requires
        whole == a + b,
        b.len() > 0,
    ensures
        whole.len() > 0,
        whole.last() == b.last(),
{
    assert(whole[whole.len() - 1] == b[b.len() - 1]);
}

/// One extracted record: identifier and label, the optional secondary pair,
/// and the trailing timestamp, both as its raw text and as milliseconds
/// since the Unix epoch.
#[derive(Debug, Clone, PartialEq, Eq)]
pub struct DataRow {
    pub url: String,
    pub title: String,
    pub channel_name: String,
    pub channel_url: String,
    pub date_text: String,
    pub date: i64,
}

/// The scanner and record extractor over the HTML export format.
pub struct ModelsParser {
    models: Models,
    line: usize,
    column: usize,
    chars_read: usize,
    look: Option<char>,
    taken: Ghost<Seq<char>>,
    seen: Ghost<Seq<Event>>,
}

impl ModelsParser {
    /// Every character consumed and counted so far.
    pub closed spec fn taken(&self) -> Seq<char> {
        self.taken@
    }

    /// Every event pulled from the character stream so far.
    pub closed spec fn seen(&self) -> Seq<Event> {
        self.seen@
    }

    /// The lookahead character, pulled but not yet counted.
    pub closed spec fn look(&self) -> Option<char> {
        self.look
    }

    /// The records folded into the store so far.
    pub closed spec fn models_view(&self) -> ModelsView {
        self.models@
    }

    /// The position counters match the characters counted.
    pub closed spec fn counters_ok(&self) -> bool {
        &&& self.chars_read as nat == sat(self.taken@.len())
        &&& self.line as nat == sat(nl_count(self.taken@))
        &&& self.column as nat == sat(col_count(self.taken@))
    }

    /// The scanner's invariant: the events pulled account for every counted
    /// character plus the lookahead, the counters match, and the store is
    /// well formed.
    pub closed spec fn wf(&self) -> bool {
        &&& ch_chars(self.seen@) == self.taken@ + look_seq(self.look)
        &&& self.counters_ok()
        &&& self.models@.wf()
    }

    /// A scanner at the very start of its input, with an empty store.
    pub fn new() -> (r: ModelsParser)
        ensures
            r.wf(),
            r.taken() == Seq::<char>::empty(),
            r.seen() == Seq::<Event>::empty(),
            r.look() is None,
            r.models_view().channels == Seq::<ChannelView>::empty(),
            r.models_view().videos == Seq::<VideoView>::empty(),
            r.models_view().watches == Seq::<WatchedView>::empty(),
    {
        let r = ModelsParser {
            models: Models::new(),
            line: 0,
            column: 0,
            chars_read: 0,
            look: None,
            taken: Ghost(Seq::empty()),
            seen: Ghost(Seq::empty()),
        };
        proof {
            assert(ch_chars(r.seen@) =~= Seq::<char>::empty());
            assert(r.taken@ + look_seq(r.look) =~= Seq::<char>::empty());
        }
        r
    }

    /// The store built so far, surrendering the scanner.
    pub fn to_models(self) -> (r: Models)
        ensures
            r@ == self.models_view(),
    {
        self.models
    }

    /// The current line of the scanner, starting at 1.
    pub fn line(&self) -> (r: usize)
        requires
            self.counters_ok(),
        ensures
            r as nat == sat(nl_count(self.taken()) + 1),
    {
        sat_inc(self.line)
    }

    /// The current column of the scanner, starting at 1.
    pub fn column(&self) -> (r: usize)
        requires
            self.counters_ok(),
        ensures
            r as nat == sat(col_count(self.taken()) + 1),
    {
        sat_inc(self.column)
    }

    /// The current position of the scanner.
    pub fn location(&self) -> (r: Location)
        requires
            self.counters_ok(),
        ensures
            loc_of(r, self.taken()),
    {
        Location { chars: self.chars_read, columns: self.column(), lines: self.line() }
    }

    /// Count one consumed character: lines advance on a line break, columns
    /// reset on one.
    fn advance(&mut self, c: char)
        requires
            old(self).counters_ok(),
        ensures
            final(self).counters_ok(),
            final(self).taken@ == old(self).taken@.push(c),
            final(self).seen == old(self).seen,
            final(self).look == old(self).look,
            final(self).models == old(self).models,
    {
        proof {
            assert(self.taken@.push(c).drop_last() =~= self.taken@);
        }
        if c == '\n' {
            self.line = sat_inc(self.line);
            self.column = 0;
        } else {
            self.column = sat_inc(self.column);
        }
        self.chars_read = sat_inc(self.chars_read);
        self.taken = Ghost(self.taken@.push(c));
    }

    /// Discard characters until the literal `s` has been matched in full;
    /// the position is left immediately after it. On failure nothing past
    /// the failure point is consumed: the error carries the position
    /// reached and, when the input ended, the closest partial match seen
    /// with the position just before it began.
    pub fn skip_to<S: ByteSource>(&mut self, chars: &mut Utf8Iter<S>, s: &str) -> (r: Result<
        (),
        ParseError,
    >)
        requires
            old(self).wf(),
            old(chars).wf(),
            old(chars).events() == old(self).seen(),
            s@.len() > 0,
        ensures
            final(self).wf(),
            final(chars).wf(),
            final(chars).events() == final(self).seen(),
            final(self).models_view() == old(self).models_view(),
            old(self).seen().is_prefix_of(final(self).seen()),
            old(self).taken().is_prefix_of(final(self).taken()),
            final(chars).budget() <= old(chars).budget(),
            Utf8Iter::fuel_le(final(chars), old(chars)),
            final(self).look() is None,
            delta_of(final(self).taken(), old(self).taken()) == look_seq(old(self).look()) + ch_chars(news_of(final(self).seen(), old(self).seen())),
            match r {
                Ok(()) => {
                    &&& all_ch(news_of(final(self).seen(), old(self).seen()))
                    &&& scan_hits(s@, delta_of(final(self).taken(), old(self).taken()))
                    &&& delta_of(final(self).taken(), old(self).taken()).len() > look_seq(old(self).look()).len() ==> Utf8Iter::fuel_less(
                        final(chars),
                        old(chars),
                    )
                },
                Err(e) => {
                    &&& no_hit(s@, delta_of(final(self).taken(), old(self).taken()))
                    &&& news_of(final(self).seen(), old(self).seen()).len() > 0
                    &&& all_ch(news_of(final(self).seen(), old(self).seen()).drop_last())
                    &&& (e is UnterminatedInput ==> news_of(final(self).seen(), old(self).seen()).last() == Event::Stop)
                    &&& (!(e is UnterminatedInput) ==> !(news_of(final(self).seen(), old(self).seen()).last() is Stop))
                    &&& match e {
                        ParseError::UnterminatedInput { expected, closest } => {
                            &&& expected@ == s@
                            &&& match closest {
                                None => closest_text(s@, delta_of(final(self).taken(), old(self).taken())).len() == 0,
                                Some(cl) => {
                                    &&& closest_text(s@, delta_of(final(self).taken(), old(self).taken())).len() > 0
                                    &&& cl.0@ == closest_text(s@, delta_of(final(self).taken(), old(self).taken()))
                                    &&& loc_of(
                                        cl.1,
                                        old(self).taken() + delta_of(final(self).taken(), old(self).taken()).take(closest_at(s@, delta_of(final(self).taken(), old(self).taken()))),
                                    )
                                },
                            }
                        },
                        ParseError::InvalidUtf8 { location, bytes } => {
                            &&& news_of(final(self).seen(), old(self).seen()).last() == (Event::Bad { bytes: bytes@ })
                            &&& loc_of(location, final(self).taken())
                        },
                        ParseError::IoError { location, error } => {
                            &&& news_of(final(self).seen(), old(self).seen()).last() == (Event::Fault { msg: error@ })
                            &&& loc_of(location, final(self).taken())
                        },
                        _ => false,
                    }
                },
            },
    {
        let slen = s.unicode_len();
        let mut cand: Vec<char> = Vec::new();
        let mut best: Vec<char> = Vec::new();
        let mut cand_loc = Location { chars: 0, columns: 0, lines: 0 };
        let mut best_loc = Location { chars: 0, columns: 0, lines: 0 };
        let ghost mut g_cand_at: int = 0;
        let ghost mut g_best_at: int = 0;
        loop
            invariant
                self.wf(),
                chars.wf(),
                chars.events() == self.seen(),
                self.models == old(self).models,
                slen == s@.len(),
                s@.len() > 0,
                old(self).taken().is_prefix_of(self.taken()),
                old(self).seen().is_prefix_of(self.seen()),
                self.look() is Some ==> *self == *old(self) && cand@ == Seq::<char>::empty()
                    && best@ == Seq::<char>::empty(),
                chars.budget() <= old(chars).budget(),
                Utf8Iter::fuel_le(chars, old(chars)),
                all_ch(self.seen().skip(old(self).seen().len() as int)),
                self.taken().skip(old(self).taken().len() as int) + look_seq(self.look())
                    == look_seq(old(self).look()) + ch_chars(
                    self.seen().skip(old(self).seen().len() as int),
                ),
                scan_fold(s@, self.taken().skip(old(self).taken().len() as int)) == (ScanState {
                    cand: cand@,
                    cand_at: g_cand_at,
                    best: best@,
                    best_at: g_best_at,
                }),
                cand@ != s@,
                cand@.len() < s@.len(),
                cand@.len() > 0 ==> loc_of(
                    cand_loc,
                    old(self).taken() + self.taken().skip(old(self).taken().len() as int).take(
                        g_cand_at,
                    ),
                ),
                best@.len() > 0 ==> loc_of(
                    best_loc,
                    old(self).taken() + self.taken().skip(old(self).taken().len() as int).take(
                        g_best_at,
                    ),
                ),
                self.taken().skip(old(self).taken().len() as int).len() <= look_seq(
                    old(self).look(),
                ).len() ==> *chars == *old(chars),
                self.taken().skip(old(self).taken().len() as int).len() > look_seq(
                    old(self).look(),
                ).len() ==> Utf8Iter::fuel_less(chars, old(chars)),
            decreases chars.budget(), chars.pending_bytes(), (if self.look is Some {
                1int
            } else {
                0int
            }),
        {
            let ghost pre_self = *self;
            let ghost pre_chars = *chars;
            let ghost pre_delta = self.taken().skip(old(self).taken().len() as int);
            let ghost pre_news = self.seen().skip(old(self).seen().len() as int);
            let got: Result<char, Error> = match self.look {
                Some(c0) => {
                    self.look = None;
                    Ok(c0)
                },
                None => {
                    let r = chars.next();
                    self.seen = Ghost(chars.events());
                    proof {
                        lemma_ch_chars_append(pre_self.seen@, seq![event_of(r)]);
                        lemma_ch_chars_one(event_of(r));
                        assert(self.seen@.skip(old(self).seen().len() as int) =~= pre_news
                            + seq![event_of(r)]);
                        lemma_ch_chars_append(pre_news, seq![event_of(r)]);
                    }
                    r
                },
            };
            match got {
                Ok(c) => {
                    let here = self.location();
                    self.advance(c);
                    let ghost delta = self.taken().skip(old(self).taken().len() as int);
                    let ghost news = self.seen().skip(old(self).seen().len() as int);
                    proof {
                        assert(delta =~= pre_delta.push(c));
                        assert(delta.drop_last() =~= pre_delta);
                        // the counted characters and the events stay in step
                        assert(ch_chars(self.seen@) =~= self.taken@ + look_seq(self.look));
                        assert(delta + look_seq(self.look()) =~= look_seq(old(self).look())
                            + ch_chars(news));
                        lemma_fold_wf(s@, pre_delta);
                        if cand@.len() > 0 {
                            assert(delta.take(g_cand_at) =~= pre_delta.take(g_cand_at));
                        }
                        if best@.len() > 0 {
                            assert(delta.take(g_best_at) =~= pre_delta.take(g_best_at));
                        }
                    }
                    let want = s.get_char(cand.len());
                    if c == want {
                        if cand.len() == 0 {
                            cand_loc = here;
                            proof {
                                g_cand_at = delta.len() - 1;
                                assert(delta.take(g_cand_at) =~= pre_delta);
                                assert(old(self).taken() + pre_delta =~= pre_self.taken@);
                            }
                        }
                        cand.push(c);
                        proof {
                            assert(scan_fold(s@, delta) == (ScanState {
                                cand: cand@,
                                cand_at: g_cand_at,
                                best: best@,
                                best_at: g_best_at,
                            }));
                        }
                        if cand.len() == slen {
                            proof {
                                lemma_fold_wf(s@, delta);
                                assert(cand@ =~= s@);
                                assert(scan_hits(s@, delta));
                            }
                            return Ok(());
                        }
                        proof {
                            assert(cand@.len() < s@.len());
                            if cand@ == s@ {
                                assert(cand@.len() == s@.len());
                                assert(false);
                            }
                        }
                    } else {
                        proof {
                            lemma_fold_wf(s@, pre_delta);
                        }
                        if cand.len() > best.len() {
                            best.clear();
                            best_loc = cand_loc;
                            proof {
                                g_best_at = g_cand_at;
                            }
                            best.append(&mut cand);
                        } else {
                            cand.clear();
                        }
                        proof {
                            g_cand_at = 0;
                            assert(scan_fold(s@, delta) == (ScanState {
                                cand: cand@,
                                cand_at: g_cand_at,
                                best: best@,
                                best_at: g_best_at,
                            }));
                        }
                    }
                },
                Err(e) => {
                    proof {
                        assert(self.taken() == pre_self.taken@);
                        assert(all_ch(pre_news));
                        let news = self.seen().skip(old(self).seen().len() as int);
                        assert(news.drop_last() =~= pre_news);
                    }
                    match e {
                        Error::End => {
                            let use_cand = cand.len() > best.len();
                            let ctext = if use_cand {
                                cand
                            } else {
                                best
                            };
                            let cloc = if use_cand {
                                cand_loc
                            } else {
                                best_loc
                            };
                            let closest: Option<(String, Location)> = if ctext.len() == 0 {
                                None
                            } else {
                                Some((string_from_chars(&ctext), cloc))
                            };
                            return Err(
                                ParseError::UnterminatedInput { expected: s.to_owned(), closest },
                            );
                        },
                        Error::InvalidBytes(b) => {
                            let location = self.location();
                            return Err(ParseError::InvalidUtf8 { location, bytes: b });
                        },
                        Error::IoError(m) => {
                            let location = self.location();
                            return Err(ParseError::IoError { location, error: m });
                        },
                    }
                },
            }
        }
    }

    /// Accumulate characters until the literal `s` has been matched in
    /// full, returning the accumulated text with every white-space run
    /// collapsed to one ASCII space. Characters of the matched literal are
    /// not part of the text; characters of partial matches that failed are.
    #[verifier::rlimit(80)]
    pub fn read_until<S: ByteSource>(&mut self, chars: &mut Utf8Iter<S>, s: &str) -> (r: Result<
        String,
        ParseError,
    >)
        requires
            old(self).wf(),
            old(chars).wf(),
            old(chars).events() == old(self).seen(),
            s@.len() > 0,
        ensures
            final(self).wf(),
            final(chars).wf(),
            final(chars).events() == final(self).seen(),
            final(self).models_view() == old(self).models_view(),
            old(self).seen().is_prefix_of(final(self).seen()),
            old(self).taken().is_prefix_of(final(self).taken()),
            final(chars).budget() <= old(chars).budget(),
            Utf8Iter::fuel_le(final(chars), old(chars)),
            final(self).look() is None,
            delta_of(final(self).taken(), old(self).taken()) == look_seq(old(self).look()) + ch_chars(news_of(final(self).seen(), old(self).seen())),
            match r {
                Ok(text) => {
                    &&& all_ch(news_of(final(self).seen(), old(self).seen()))
                    &&& scan_hits(s@, delta_of(final(self).taken(), old(self).taken()))
                    &&& text@ == collapse_ws(delta_of(final(self).taken(), old(self).taken()).take(delta_of(final(self).taken(), old(self).taken()).len() - s@.len()))
                    &&& delta_of(final(self).taken(), old(self).taken()).len() > look_seq(old(self).look()).len() ==> Utf8Iter::fuel_less(
                        final(chars),
                        old(chars),
                    )
                },
                Err(e) => {
                    &&& no_hit(s@, delta_of(final(self).taken(), old(self).taken()))
                    &&& news_of(final(self).seen(), old(self).seen()).len() > 0
                    &&& all_ch(news_of(final(self).seen(), old(self).seen()).drop_last())
                    &&& (e is UnterminatedInput ==> news_of(final(self).seen(), old(self).seen()).last() == Event::Stop)
                    &&& (!(e is UnterminatedInput) ==> !(news_of(final(self).seen(), old(self).seen()).last() is Stop))
                    &&& match e {
                        ParseError::UnterminatedInput { expected, closest } => {
                            &&& expected@ == s@
                            &&& match closest {
                                None => closest_text(s@, delta_of(final(self).taken(), old(self).taken())).len() == 0,
                                Some(cl) => {
                                    &&& closest_text(s@, delta_of(final(self).taken(), old(self).taken())).len() > 0
                                    &&& cl.0@ == closest_text(s@, delta_of(final(self).taken(), old(self).taken()))
                                    &&& loc_of(
                                        cl.1,
                                        old(self).taken() + delta_of(final(self).taken(), old(self).taken()).take(closest_at(s@, delta_of(final(self).taken(), old(self).taken()))),
                                    )
                                },
                            }
                        },
                        ParseError::InvalidUtf8 { location, bytes } => {
                            &&& news_of(final(self).seen(), old(self).seen()).last() == (Event::Bad { bytes: bytes@ })
                            &&& loc_of(location, final(self).taken())
                        },
                        ParseError::IoError { location, error } => {
                            &&& news_of(final(self).seen(), old(self).seen()).last() == (Event::Fault { msg: error@ })
                            &&& loc_of(location, final(self).taken())
                        },
                        _ => false,
                    }
                },
            },
    {
        let slen = s.unicode_len();
        let mut cand: Vec<char> = Vec::new();
        let mut best: Vec<char> = Vec::new();
        let mut read: Vec<char> = Vec::new();
        let mut cand_loc = Location { chars: 0, columns: 0, lines: 0 };
        let mut best_loc = Location { chars: 0, columns: 0, lines: 0 };
        let ghost mut g_cand_at: int = 0;
        let ghost mut g_best_at: int = 0;
        proof {
            assert(Seq::<char>::empty().take(0) =~= Seq::<char>::empty());
        }
        loop
            invariant
                self.wf(),
                chars.wf(),
                chars.events() == self.seen(),
                self.models == old(self).models,
                slen == s@.len(),
                s@.len() > 0,
                old(self).taken().is_prefix_of(self.taken()),
                old(self).seen().is_prefix_of(self.seen()),
                self.look() is Some ==> *self == *old(self) && cand@ == Seq::<char>::empty()
                    && best@ == Seq::<char>::empty() && read@ == Seq::<char>::empty(),
                chars.budget() <= old(chars).budget(),
                Utf8Iter::fuel_le(chars, old(chars)),
                all_ch(self.seen().skip(old(self).seen().len() as int)),
                self.taken().skip(old(self).taken().len() as int) + look_seq(self.look())
                    == look_seq(old(self).look()) + ch_chars(
                    self.seen().skip(old(self).seen().len() as int),
                ),
                scan_fold(s@, self.taken().skip(old(self).taken().len() as int)) == (ScanState {
                    cand: cand@,
                    cand_at: g_cand_at,
                    best: best@,
                    best_at: g_best_at,
                }),
                cand@ != s@,
                cand@.len() < s@.len(),
                ({
                    let delta = self.taken().skip(old(self).taken().len() as int);
                    read@ == push_collapse(
                        Seq::<char>::empty(),
                        delta.take(delta.len() - cand@.len()),
                    )
                }),
                cand@.len() > 0 ==> loc_of(
                    cand_loc,
                    old(self).taken() + self.taken().skip(old(self).taken().len() as int).take(
                        g_cand_at,
                    ),
                ),
                best@.len() > 0 ==> loc_of(
                    best_loc,
                    old(self).taken() + self.taken().skip(old(self).taken().len() as int).take(
                        g_best_at,
                    ),
                ),
                self.taken().skip(old(self).taken().len() as int).len() <= look_seq(
                    old(self).look(),
                ).len() ==> *chars == *old(chars),
                self.taken().skip(old(self).taken().len() as int).len() > look_seq(
                    old(self).look(),
                ).len() ==> Utf8Iter::fuel_less(chars, old(chars)),
            decreases chars.budget(), chars.pending_bytes(), (if self.look is Some {
                1int
            } else {
                0int
            }),
        {
            let ghost pre_self = *self;
            let ghost pre_chars = *chars;
            let ghost pre_delta = self.taken().skip(old(self).taken().len() as int);
            let ghost pre_news = self.seen().skip(old(self).seen().len() as int);
            let got: Result<char, Error> = match self.look {
                Some(c0) => {
                    self.look = None;
                    Ok(c0)
                },
                None => {
                    let r = chars.next();
                    self.seen = Ghost(chars.events());
                    proof {
                        lemma_ch_chars_append(pre_self.seen@, seq![event_of(r)]);
                        lemma_ch_chars_one(event_of(r));
                        assert(self.seen@.skip(old(self).seen().len() as int) =~= pre_news
                            + seq![event_of(r)]);
                        lemma_ch_chars_append(pre_news, seq![event_of(r)]);
                    }
                    r
                },
            };
            match got {
                Ok(c) => {
                    let here = self.location();
                    self.advance(c);
                    let ghost delta = self.taken().skip(old(self).taken().len() as int);
                    let ghost news = self.seen().skip(old(self).seen().len() as int);
                    proof {
                        assert(delta =~= pre_delta.push(c));
                        assert(delta.drop_last() =~= pre_delta);
                        assert(ch_chars(self.seen@) =~= self.taken@ + look_seq(self.look));
                        assert(delta + look_seq(self.look()) =~= look_seq(old(self).look())
                            + ch_chars(news));
                        lemma_fold_wf(s@, pre_delta);
                        if cand@.len() > 0 {
                            assert(delta.take(g_cand_at) =~= pre_delta.take(g_cand_at));
                        }
                        if best@.len() > 0 {
                            assert(delta.take(g_best_at) =~= pre_delta.take(g_best_at));
                        }
                    }
                    let want = s.get_char(cand.len());
                    if c == want {
                        if cand.len() == 0 {
                            cand_loc = here;
                            proof {
                                g_cand_at = delta.len() - 1;
                                assert(delta.take(g_cand_at) =~= pre_delta);
                                assert(old(self).taken() + pre_delta =~= pre_self.taken@);
                            }
                        }
                        cand.push(c);
                        proof {
                            assert(scan_fold(s@, delta) == (ScanState {
                                cand: cand@,
                                cand_at: g_cand_at,
                                best: best@,
                                best_at: g_best_at,
                            }));
                            assert(delta.take(delta.len() - cand@.len()) =~= pre_delta.take(
                                pre_delta.len() - (cand@.len() - 1),
                            ));
                        }
                        if cand.len() == slen {
                            proof {
                                lemma_fold_wf(s@, delta);
                                assert(cand@ =~= s@);
                                assert(scan_hits(s@, delta));
                            }
                            return Ok(string_from_chars(&read));
                        }
                        proof {
                            if cand@ == s@ {
                                assert(cand@.len() == s@.len());
                                assert(false);
                            }
                        }
                    } else {
                        let ghost pre_read = read@;
                        push_collapse_whitespace(&mut read, &cand);
                        collapse_push(&mut read, c);
                        proof {
                            let before = pre_delta.take(pre_delta.len() - cand@.len());
                            crate::text::lemma_push_collapse_append(
                                Seq::<char>::empty(),
                                before,
                                cand@,
                            );
                            if cand@.len() > 0 {
                                assert(before + cand@ =~= pre_delta);
                            } else {
                                assert(before + cand@ =~= pre_delta);
                            }
                            assert(push_collapse(Seq::<char>::empty(), pre_delta).push(c)
                                =~= push_collapse(Seq::<char>::empty(), pre_delta).push(c));
                            assert(read@ == collapse_step(
                                push_collapse(Seq::<char>::empty(), pre_delta),
                                c,
                            ));
                            assert(read@ == push_collapse(Seq::<char>::empty(), delta));
                            assert(delta.take(delta.len() - 0) =~= delta);
                        }
                        if cand.len() > best.len() {
                            best.clear();
                            best_loc = cand_loc;
                            proof {
                                g_best_at = g_cand_at;
                            }
                            best.append(&mut cand);
                        } else {
                            cand.clear();
                        }
                        proof {
                            g_cand_at = 0;
                            assert(scan_fold(s@, delta) == (ScanState {
                                cand: cand@,
                                cand_at: g_cand_at,
                                best: best@,
                                best_at: g_best_at,
                            }));
                        }
                    }
                },
                Err(e) => {
                    proof {
                        assert(self.taken() == pre_self.taken@);
                        assert(all_ch(pre_news));
                        let news = self.seen().skip(old(self).seen().len() as int);
                        assert(news.drop_last() =~= pre_news);
                    }
                    match e {
                        Error::End => {
                            let use_cand = cand.len() > best.len();
                            let ctext = if use_cand {
                                cand
                            } else {
                                best
                            };
                            let cloc = if use_cand {
                                cand_loc
                            } else {
                                best_loc
                            };
                            let closest: Option<(String, Location)> = if ctext.len() == 0 {
                                None
                            } else {
                                Some((string_from_chars(&ctext), cloc))
                            };
                            return Err(
                                ParseError::UnterminatedInput { expected: s.to_owned(), closest },
                            );
                        },
                        Error::InvalidBytes(b) => {
                            let location = self.location();
                            return Err(ParseError::InvalidUtf8 { location, bytes: b });
                        },
                        Error::IoError(m) => {
                            let location = self.location();
                            return Err(ParseError::IoError { location, error: m });
                        },
                    }
                },
            }
        }
    }

    /// The next character, without consuming it: the position does not move
    /// and the same character is seen by the next scan. A decode failure or
    /// the end of the input is reported as the scan primitives report it.
    /// The lookahead must be empty: a second peek before a scan has taken
    /// the held character would overwrite it.
    pub fn peek<S: ByteSource>(&mut self, chars: &mut Utf8Iter<S>) -> (r: Result<char, ParseError>)
        requires
            old(self).wf(),
            old(chars).wf(),
            old(chars).events() == old(self).seen(),
            old(self).look() is None,
        ensures
            final(self).wf(),
            final(chars).wf(),
            final(chars).events() == final(self).seen(),
            final(self).models_view() == old(self).models_view(),
            final(self).taken() == old(self).taken(),
            old(self).seen().is_prefix_of(final(self).seen()),
            final(chars).budget() <= old(chars).budget(),
            Utf8Iter::fuel_le(final(chars), old(chars)),
            r is Ok ==> final(self).look() == Some(r->Ok_0),
            r is Ok ==> news_of(final(self).seen(), old(self).seen()) == seq![(Event::Ch { c: r->Ok_0 })],
            r is Err ==> final(self).look() is None,
            r is Err ==> news_of(final(self).seen(), old(self).seen()).len() == 1,
            r is Err ==> !(r->Err_0 is NoRows),
            r is Err ==> (r->Err_0 is UnterminatedInput ==> news_of(final(self).seen(), old(self).seen()).last() == Event::Stop),
            r is Err ==> match r->Err_0 {
                ParseError::UnterminatedInput { expected, closest } => closest is None
                    && expected@ == "any character"@,
                ParseError::InvalidUtf8 { location, bytes } => {
                    &&& news_of(final(self).seen(), old(self).seen()).last() == (Event::Bad { bytes: bytes@ })
                    &&& loc_of(location, final(self).taken())
                },
                ParseError::IoError { location, error } => {
                    &&& news_of(final(self).seen(), old(self).seen()).last() == (Event::Fault { msg: error@ })
                    &&& loc_of(location, final(self).taken())
                },
                _ => false,
            },
    {
        let ghost pre_seen = self.seen@;
        let r = chars.next();
        self.seen = Ghost(chars.events());
        proof {
            lemma_ch_chars_append(pre_seen, seq![event_of(r)]);
            lemma_ch_chars_one(event_of(r));
            assert(self.seen@.skip(old(self).seen().len() as int) =~= seq![event_of(r)]);
        }
        match r {
            Ok(c) => {
                self.look = Some(c);
                proof {
                    assert(ch_chars(self.seen@) =~= self.taken@ + look_seq(self.look));
                }
                Ok(c)
            },
            Err(Error::End) => Err(
                ParseError::UnterminatedInput {
                    expected: String::from_str("any character"),
                    closest: None,
                },
            ),
            Err(Error::InvalidBytes(b)) => {
                let location = self.location();
                Err(ParseError::InvalidUtf8 { location, bytes: b })
            },
            Err(Error::IoError(m)) => {
                let location = self.location();
                Err(ParseError::IoError { location, error: m })
            },
        }
    }

    /// The first half of one record: the anchor, the identifier, the label,
    /// and the separator before the optional secondary block. `Ok(None)`
    /// means the anchor marker never came before the input ended: no record
    /// begins here.
    #[verifier::rlimit(100)]
    #[verifier::spinoff_prover]
    fn read_head<S: ByteSource>(&mut self, chars: &mut Utf8Iter<S>) -> (r: (
        Result<Option<(String, String)>, ParseError>,
        Ghost<HeadTrace>,
    ))
        requires
            old(self).wf(),
            old(chars).wf(),
            old(chars).events() == old(self).seen(),
        ensures
            final(self).wf(),
            final(chars).wf(),
            final(chars).events() == final(self).seen(),
            final(self).models_view() == old(self).models_view(),
            old(self).seen().is_prefix_of(final(self).seen()),
            old(self).taken().is_prefix_of(final(self).taken()),
            final(chars).budget() <= old(chars).budget(),
            Utf8Iter::fuel_le(final(chars), old(chars)),
            r.0 matches Ok(opt) ==> final(self).look() is None,
            r.0 matches Ok(Some(ut)) ==> head_trace_ok(r.1@, ut.0@, ut.1@, delta_of(final(self).taken(), old(self).taken())) && all_ch(
                news_of(final(self).seen(), old(self).seen()),
            ) && Utf8Iter::fuel_less(final(chars), old(chars)),
            r.0 matches Ok(None) ==> no_hit("Watched\u{00a0}<a href=\""@, delta_of(final(self).taken(), old(self).taken())) && news_of(final(self).seen(), old(self).seen()).len()
                > 0 && news_of(final(self).seen(), old(self).seen()).last() == Event::Stop && all_ch(news_of(final(self).seen(), old(self).seen()).drop_last()),
            r.0 matches Err(e) ==> !(e is NoRows) && !(e is DateParseError),
            r.0 matches Err(e) ==> !(no_hit("Watched\u{00a0}<a href=\""@, delta_of(final(self).taken(), old(self).taken())) && news_of(final(self).seen(), old(self).seen()).len() > 0 && news_of(final(self).seen(), old(self).seen()).last()
                == Event::Stop && all_ch(news_of(final(self).seen(), old(self).seen()).drop_last())),
            r.0 matches Err(e) ==> news_of(final(self).seen(), old(self).seen()).len() > 0
                && match e {
                ParseError::UnterminatedInput { expected, closest } => news_of(final(self).seen(), old(self).seen()).last() == Event::Stop,
                ParseError::InvalidUtf8 { location, bytes } => news_of(final(self).seen(), old(self).seen()).last() == (Event::Bad { bytes: bytes@ })
                    && loc_of(location, final(self).taken()),
                ParseError::IoError { location, error } => news_of(final(self).seen(), old(self).seen()).last() == (Event::Fault { msg: error@ })
                    && loc_of(location, final(self).taken()),
                _ => false,
            },
    {
        proof {
            reveal_strlit("Watched\u{00a0}<a href=\"");
            reveal_strlit("\"");
            reveal_strlit(">");
            reveal_strlit("<");
            reveal_strlit("<br />");
        }
        let ghost t0 = self.taken();
        let ghost s0 = self.seen();
        let ghost dummy = HeadTrace {
            d_anchor: Seq::empty(),
            d_url: Seq::empty(),
            d_gt: Seq::empty(),
            d_title: Seq::empty(),
            d_br: Seq::empty(),
        };
        match self.skip_to(chars, "Watched\u{00a0}<a href=\"") {
            Ok(()) => {},
            Err(e) => {
                if matches!(e, ParseError::UnterminatedInput { .. }) {
                    return (Ok(None), Ghost(dummy));
                } else {
                    return (Err(e), Ghost(dummy));
                }
            },
        }
        let ghost c1 = *chars;
        let ghost t1 = self.taken();
        let ghost s1 = self.seen();
        let ghost d_anchor = t1.skip(t0.len() as int);
        proof {
            crate::scan::lemma_hit_suffix("Watched\u{00a0}<a href=\""@, d_anchor);
            assert(d_anchor.len() > 1);
            assert(Utf8Iter::fuel_less(&c1, old(chars)));
            assert(scan_fold("Watched\u{00a0}<a href=\""@, d_anchor).cand
                == "Watched\u{00a0}<a href=\""@);
        }
        let ghost cprev = *chars;
        let url = match self.read_until(chars, "\"") {
            Ok(x) => x,
            Err(e) => {
                proof {
                    crate::scan::lemma_fold_absorbing(
                        "Watched\u{00a0}<a href=\""@,
                        d_anchor,
                        self.taken().skip(t1.len() as int),
                    );
                    assert(d_anchor + self.taken().skip(t1.len() as int) =~= delta_of(
                        self.taken(),
                        old(self).taken(),
                    ));
                    assert(self.seen().skip(s0.len() as int) =~= s1.skip(s0.len() as int)
                        + self.seen().skip(s1.len() as int));
                    lemma_news_last(
                        self.seen().skip(s0.len() as int),
                        s1.skip(s0.len() as int),
                        self.seen().skip(s1.len() as int),
                    );
                }
                return (Err(e), Ghost(dummy));
            },
        };
        proof {
            lemma_fuel_less_le(old(chars), &cprev, chars);
            lemma_all_ch_append(s1.skip(s0.len() as int), self.seen().skip(s1.len() as int));
            assert(self.seen().skip(s0.len() as int) =~= s1.skip(s0.len() as int)
                + self.seen().skip(s1.len() as int));
        }
        let ghost t2 = self.taken();
        let ghost s2 = self.seen();
        let ghost d_url = t2.skip(t1.len() as int);
        let ghost cprev = *chars;
        match self.skip_to(chars, ">") {
            Ok(()) => {},
            Err(e) => {
                proof {
                    crate::scan::lemma_fold_absorbing(
                        "Watched\u{00a0}<a href=\""@,
                        d_anchor,
                        self.taken().skip(t1.len() as int),
                    );
                    assert(d_anchor + self.taken().skip(t1.len() as int) =~= delta_of(
                        self.taken(),
                        old(self).taken(),
                    ));
                    assert(self.seen().skip(s0.len() as int) =~= s2.skip(s0.len() as int)
                        + self.seen().skip(s2.len() as int));
                    lemma_news_last(
                        self.seen().skip(s0.len() as int),
                        s2.skip(s0.len() as int),
                        self.seen().skip(s2.len() as int),
                    );
                }
                return (Err(e), Ghost(dummy));
            },
        }
        proof {
            lemma_fuel_less_le(old(chars), &cprev, chars);
            lemma_all_ch_append(s2.skip(s0.len() as int), self.seen().skip(s2.len() as int));
            assert(self.seen().skip(s0.len() as int) =~= s2.skip(s0.len() as int)
                + self.seen().skip(s2.len() as int));
        }
        let ghost t3 = self.taken();
        let ghost s3 = self.seen();
        let ghost d_gt = t3.skip(t2.len() as int);
        let ghost cprev = *chars;
        let title = match self.read_until(chars, "<") {
            Ok(x) => x,
            Err(e) => {
                proof {
                    crate::scan::lemma_fold_absorbing(
                        "Watched\u{00a0}<a href=\""@,
                        d_anchor,
                        self.taken().skip(t1.len() as int),
                    );
                    assert(d_anchor + self.taken().skip(t1.len() as int) =~= delta_of(
                        self.taken(),
                        old(self).taken(),
                    ));
                    assert(self.seen().skip(s0.len() as int) =~= s3.skip(s0.len() as int)
                        + self.seen().skip(s3.len() as int));
                    lemma_news_last(
                        self.seen().skip(s0.len() as int),
                        s3.skip(s0.len() as int),
                        self.seen().skip(s3.len() as int),
                    );
                }
                return (Err(e), Ghost(dummy));
            },
        };
        proof {
            lemma_fuel_less_le(old(chars), &cprev, chars);
            lemma_all_ch_append(s3.skip(s0.len() as int), self.seen().skip(s3.len() as int));
            assert(self.seen().skip(s0.len() as int) =~= s3.skip(s0.len() as int)
                + self.seen().skip(s3.len() as int));
        }
        let ghost t4 = self.taken();
        let ghost s4 = self.seen();
        let ghost d_title = t4.skip(t3.len() as int);
        let ghost cprev = *chars;
        match self.skip_to(chars, "<br />") {
            Ok(()) => {},
            Err(e) => {
                proof {
                    crate::scan::lemma_fold_absorbing(
                        "Watched\u{00a0}<a href=\""@,
                        d_anchor,
                        self.taken().skip(t1.len() as int),
                    );
                    assert(d_anchor + self.taken().skip(t1.len() as int) =~= delta_of(
                        self.taken(),
                        old(self).taken(),
                    ));
                    assert(self.seen().skip(s0.len() as int) =~= s4.skip(s0.len() as int)
                        + self.seen().skip(s4.len() as int));
                    lemma_news_last(
                        self.seen().skip(s0.len() as int),
                        s4.skip(s0.len() as int),
                        self.seen().skip(s4.len() as int),
                    );
                }
                return (Err(e), Ghost(dummy));
            },
        }
        proof {
            lemma_fuel_less_le(old(chars), &cprev, chars);
            lemma_all_ch_append(s4.skip(s0.len() as int), self.seen().skip(s4.len() as int));
            assert(self.seen().skip(s0.len() as int) =~= s4.skip(s0.len() as int)
                + self.seen().skip(s4.len() as int));
        }
        let ghost t5 = self.taken();
        let ghost d_br = t5.skip(t4.len() as int);
        let ghost tr = HeadTrace { d_anchor, d_url, d_gt, d_title, d_br };
        proof {
            let delta = self.taken().skip(old(self).taken().len() as int);
            assert(t2.skip(t0.len() as int) =~= d_anchor + d_url);
            assert(t3.skip(t0.len() as int) =~= (d_anchor + d_url) + d_gt);
            assert(t4.skip(t0.len() as int) =~= ((d_anchor + d_url) + d_gt) + d_title);
            assert(delta =~= (((d_anchor + d_url) + d_gt) + d_title) + d_br);
            reveal(head_trace_ok);
            assert(head_trace_ok(tr, url@, title@, delta));
        }
        (Ok(Some((url, title))), Ghost(tr))
    }

    /// The optional secondary block, decided by the peeked character: a
    /// nested identifier/label pair after `<`, an alternate textual marker
    /// skipped after `W`, or nothing at all.
    #[verifier::rlimit(100)]
    #[verifier::spinoff_prover]
    fn read_secondary<S: ByteSource>(&mut self, chars: &mut Utf8Iter<S>, next_c: char) -> (r: (
        Result<(String, String), ParseError>,
        Ghost<SecTrace>,
    ))
        requires
            old(self).wf(),
            old(chars).wf(),
            old(chars).events() == old(self).seen(),
            old(self).look() == Some(next_c),
        ensures
            final(self).wf(),
            final(chars).wf(),
            final(chars).events() == final(self).seen(),
            final(self).models_view() == old(self).models_view(),
            old(self).seen().is_prefix_of(final(self).seen()),
            old(self).taken().is_prefix_of(final(self).taken()),
            final(chars).budget() <= old(chars).budget(),
            Utf8Iter::fuel_le(final(chars), old(chars)),
            r.0 matches Ok(un) ==> sec_trace_ok(r.1@, un.0@, un.1@, delta_of(final(self).taken(), old(self).taken()), next_c) && all_ch(
                news_of(final(self).seen(), old(self).seen()),
            ),
            r.0 matches Ok(un) ==> (next_c == '<' || next_c == 'W' ==> final(self).look()
                is None),
            r.0 matches Ok(un) ==> (next_c != '<' && next_c != 'W' ==> final(self).look() == old(
                self,
            ).look() && delta_of(final(self).taken(), old(self).taken()) == Seq::<char>::empty()),
            r.0 matches Err(e) ==> !(e is NoRows) && !(e is DateParseError),
            r.0 matches Err(e) ==> news_of(final(self).seen(), old(self).seen()).len() > 0
                && match e {
                ParseError::UnterminatedInput { expected, closest } => news_of(final(self).seen(), old(self).seen()).last() == Event::Stop,
                ParseError::InvalidUtf8 { location, bytes } => news_of(final(self).seen(), old(self).seen()).last() == (Event::Bad { bytes: bytes@ })
                    && loc_of(location, final(self).taken()),
                ParseError::IoError { location, error } => news_of(final(self).seen(), old(self).seen()).last() == (Event::Fault { msg: error@ })
                    && loc_of(location, final(self).taken()),
                _ => false,
            },
    {
        proof {
            reveal_strlit("\"");
            reveal_strlit(">");
            reveal_strlit("<");
            reveal_strlit("<br />");
        }
        let ghost t5 = self.taken();
        let ghost s5 = self.seen();
        let ghost mut g_st: SecTrace = SecTrace::Plain;
        let mut channel_url = String::new();
        let mut channel_name = String::new();
        if next_c == '<' {
            match self.skip_to(chars, "\"") {
                Ok(()) => {},
                Err(e) => {
                    return (Err(e), Ghost(SecTrace::Plain));
                },
            }
            let ghost u1 = self.taken();
            let ghost v1 = self.seen();
            let ghost e_q = u1.skip(t5.len() as int);
            channel_url = match self.read_until(chars, "\"") {
                Ok(x) => x,
                Err(e) => {
                    proof {
                        assert(self.seen().skip(s5.len() as int) =~= v1.skip(s5.len() as int)
                            + self.seen().skip(v1.len() as int));
                        lemma_news_last(
                            self.seen().skip(s5.len() as int),
                            v1.skip(s5.len() as int),
                            self.seen().skip(v1.len() as int),
                        );
                    }
                    return (Err(e), Ghost(SecTrace::Plain));
                },
            };
            proof {
                lemma_all_ch_append(v1.skip(s5.len() as int), self.seen().skip(v1.len() as int));
                assert(self.seen().skip(s5.len() as int) =~= v1.skip(s5.len() as int)
                    + self.seen().skip(v1.len() as int));
            }
            let ghost u2 = self.taken();
            let ghost v2 = self.seen();
            let ghost e_url = u2.skip(u1.len() as int);
            match self.skip_to(chars, ">") {
                Ok(()) => {},
                Err(e) => {
                    proof {
                        assert(self.seen().skip(s5.len() as int) =~= v2.skip(s5.len() as int)
                            + self.seen().skip(v2.len() as int));
                        lemma_news_last(
                            self.seen().skip(s5.len() as int),
                            v2.skip(s5.len() as int),
                            self.seen().skip(v2.len() as int),
                        );
                    }
                    return (Err(e), Ghost(SecTrace::Plain));
                },
            }
            proof {
                lemma_all_ch_append(v2.skip(s5.len() as int), self.seen().skip(v2.len() as int));
                assert(self.seen().skip(s5.len() as int) =~= v2.skip(s5.len() as int)
                    + self.seen().skip(v2.len() as int));
            }
            let ghost u3 = self.taken();
            let ghost v3 = self.seen();
            let ghost e_gt = u3.skip(u2.len() as int);
            channel_name = match self.read_until(chars, "<") {
                Ok(x) => x,
                Err(e) => {
                    proof {
                        assert(self.seen().skip(s5.len() as int) =~= v3.skip(s5.len() as int)
                            + self.seen().skip(v3.len() as int));
                        lemma_news_last(
                            self.seen().skip(s5.len() as int),
                            v3.skip(s5.len() as int),
                            self.seen().skip(v3.len() as int),
                        );
                    }
                    return (Err(e), Ghost(SecTrace::Plain));
                },
            };
            proof {
                lemma_all_ch_append(v3.skip(s5.len() as int), self.seen().skip(v3.len() as int));
                assert(self.seen().skip(s5.len() as int) =~= v3.skip(s5.len() as int)
                    + self.seen().skip(v3.len() as int));
            }
            let ghost u4 = self.taken();
            let ghost v4 = self.seen();
            let ghost e_name = u4.skip(u3.len() as int);
            match self.skip_to(chars, "<br />") {
                Ok(()) => {},
                Err(e) => {
                    proof {
                        assert(self.seen().skip(s5.len() as int) =~= v4.skip(s5.len() as int)
                            + self.seen().skip(v4.len() as int));
                        lemma_news_last(
                            self.seen().skip(s5.len() as int),
                            v4.skip(s5.len() as int),
                            self.seen().skip(v4.len() as int),
                        );
                    }
                    return (Err(e), Ghost(SecTrace::Plain));
                },
            }
            proof {
                lemma_all_ch_append(v4.skip(s5.len() as int), self.seen().skip(v4.len() as int));
                assert(self.seen().skip(s5.len() as int) =~= v4.skip(s5.len() as int)
                    + self.seen().skip(v4.len() as int));
            }
            let ghost u5 = self.taken();
            let ghost e_br = u5.skip(u4.len() as int);
            proof {
                g_st = SecTrace::Channel { e_q, e_url, e_gt, e_name, e_br };
                let delta = self.taken().skip(old(self).taken().len() as int);
                assert(u2.skip(t5.len() as int) =~= e_q + e_url);
                assert(u3.skip(t5.len() as int) =~= (e_q + e_url) + e_gt);
                assert(u4.skip(t5.len() as int) =~= ((e_q + e_url) + e_gt) + e_name);
                assert(delta =~= (((e_q + e_url) + e_gt) + e_name) + e_br);
                assert(e_q[0] == next_c);
                reveal(sec_trace_ok);
                assert(sec_trace_ok(g_st, channel_url@, channel_name@, delta, next_c));
            }
        } else if next_c == 'W' {
            match self.skip_to(chars, "<br />") {
                Ok(()) => {},
                Err(e) => {
                    return (Err(e), Ghost(SecTrace::Plain));
                },
            }
            let ghost u5 = self.taken();
            let ghost e_br = u5.skip(t5.len() as int);
            proof {
                g_st = SecTrace::WatchedAt { e_br };
                let delta = self.taken().skip(old(self).taken().len() as int);
                assert(delta =~= e_br);
                assert(e_br[0] == next_c);
                reveal(sec_trace_ok);
                assert(sec_trace_ok(g_st, channel_url@, channel_name@, delta, next_c));
            }
        } else {
            proof {
                reveal(sec_trace_ok);
                let delta = self.taken().skip(old(self).taken().len() as int);
                assert(delta =~= Seq::<char>::empty());
                assert(self.seen().skip(old(self).seen().len() as int) =~= Seq::<Event>::empty());
                assert(sec_trace_ok(SecTrace::Plain, channel_url@, channel_name@, delta, next_c));
            }
        }
        ((Ok((channel_url, channel_name))), Ghost(g_st))
    }

    /// Extract one record, or report that no further record begins: when
    /// the anchor marker is not found before the input ends there are no
    /// more records, which the caller treats as an error only if no record
    /// was ever found.
    #[verifier::rlimit(100)]
    #[verifier::spinoff_prover]
    pub fn next_data_row<S: ByteSource>(&mut self, chars: &mut Utf8Iter<S>) -> (r: Result<
        Option<DataRow>,
        ParseError,
    >)
        requires
            old(self).wf(),
            old(chars).wf(),
            old(chars).events() == old(self).seen(),
        ensures
            final(self).wf(),
            final(chars).wf(),
            final(chars).events() == final(self).seen(),
            final(self).models_view() == old(self).models_view(),
            old(self).seen().is_prefix_of(final(self).seen()),
            old(self).taken().is_prefix_of(final(self).taken()),
            final(chars).budget() <= old(chars).budget(),
            Utf8Iter::fuel_le(final(chars), old(chars)),
            r matches Ok(Some(row)) ==> (exists|tr: RowTrace|
                #[trigger] row_trace_ok(tr, row, delta_of(final(self).taken(), old(self).taken()))) && final(self).look() is None
                && Utf8Iter::fuel_less(final(chars), old(chars)),
            r matches Ok(None) ==> no_hit("Watched\u{00a0}<a href=\""@, delta_of(final(self).taken(), old(self).taken())) && news_of(final(self).seen(), old(self).seen()).len() > 0
                && news_of(final(self).seen(), old(self).seen()).last() == Event::Stop && all_ch(news_of(final(self).seen(), old(self).seen()).drop_last()) && final(self).look()
                is None,
            r matches Err(e) ==> !(e is NoRows),
            r matches Err(e) ==> !(no_hit("Watched\u{00a0}<a href=\""@, delta_of(final(self).taken(), old(self).taken())) && news_of(final(self).seen(), old(self).seen()).len() > 0 && news_of(final(self).seen(), old(self).seen()).last()
                == Event::Stop && all_ch(news_of(final(self).seen(), old(self).seen()).drop_last())),
            r matches Err(e) ==> match e {
                ParseError::UnterminatedInput { expected, closest } => news_of(final(self).seen(), old(self).seen()).len() > 0
                    && news_of(final(self).seen(), old(self).seen()).last() == Event::Stop,
                ParseError::InvalidUtf8 { location, bytes } => news_of(final(self).seen(), old(self).seen()).len() > 0
                    && news_of(final(self).seen(), old(self).seen()).last() == (Event::Bad { bytes: bytes@ })
                    && loc_of(location, final(self).taken()),
                ParseError::IoError { location, error } => news_of(final(self).seen(), old(self).seen()).len() > 0
                    && news_of(final(self).seen(), old(self).seen()).last() == (Event::Fault { msg: error@ })
                    && loc_of(location, final(self).taken()),
                ParseError::DateParseError { location, invalid_date, error } => history_datetime_of(invalid_date@) is None
                    && loc_of(location, final(self).taken()),
                ParseError::NoRows => false,
            },
    {
        proof {
            reveal_strlit("\n");
        }
        let ghost t0 = self.taken();
        let ghost s0 = self.seen();
        let (head_res, head_tr) = self.read_head(chars);
        let (url, title) = match head_res {
            Ok(Some(ut)) => ut,
            Ok(None) => {
                return Ok(None);
            },
            Err(e) => {
                return Err(e);
            },
        };
        let ghost g_url = url@;
        let ghost g_title = title@;
        let ghost t5 = self.taken();
        let ghost s_head = self.seen();
        let ghost c_head = *chars;
        let ghost head_delta = t5.skip(t0.len() as int);
        let ghost htr = head_tr@;
        proof {
            assert(head_trace_ok(htr, g_url, g_title, head_delta));
            reveal(head_trace_ok);
            crate::scan::lemma_fold_absorbing(
                "Watched\u{00a0}<a href=\""@,
                htr.d_anchor,
                htr.d_url + htr.d_gt + htr.d_title + htr.d_br,
            );
            assert(htr.d_anchor + (htr.d_url + htr.d_gt + htr.d_title + htr.d_br)
                =~= head_delta);
            assert(scan_fold("Watched\u{00a0}<a href=\""@, head_delta).cand
                == "Watched\u{00a0}<a href=\""@);
            assert(Utf8Iter::fuel_less(&c_head, old(chars)));
        }
        let pk = match self.peek(chars) {
            Ok(c) => c,
            Err(e) => {
                proof {
                    crate::scan::lemma_fold_absorbing(
                        "Watched\u{00a0}<a href=\""@,
                        head_delta,
                        self.taken().skip(t5.len() as int),
                    );
                    assert(head_delta + self.taken().skip(t5.len() as int) =~= delta_of(
                        self.taken(),
                        old(self).taken(),
                    ));
                    assert(self.seen().skip(s0.len() as int) =~= s_head.skip(s0.len() as int)
                        + self.seen().skip(s_head.len() as int));
                    lemma_news_last(
                        self.seen().skip(s0.len() as int),
                        s_head.skip(s0.len() as int),
                        self.seen().skip(s_head.len() as int),
                    );
                }
                return Err(e);
            },
        };
        let ghost s_pk = self.seen();
        let ghost c_peek = *chars;
        proof {
            assert(self.look() == Some(pk));
            lemma_fuel_less_le(old(chars), &c_head, &c_peek);
        }

        let (sec_res, sec_tr) = self.read_secondary(chars, pk);
        let (channel_url, channel_name) = match sec_res {
            Ok(x) => x,
            Err(e) => {
                proof {
                    crate::scan::lemma_fold_absorbing(
                        "Watched\u{00a0}<a href=\""@,
                        head_delta,
                        self.taken().skip(t5.len() as int),
                    );
                    assert(head_delta + self.taken().skip(t5.len() as int) =~= delta_of(
                        self.taken(),
                        old(self).taken(),
                    ));
                    assert(self.seen().skip(s0.len() as int) =~= s_pk.skip(s0.len() as int)
                        + self.seen().skip(s_pk.len() as int));
                    lemma_news_last(
                        self.seen().skip(s0.len() as int),
                        s_pk.skip(s0.len() as int),
                        self.seen().skip(s_pk.len() as int),
                    );
                }
                return Err(e);
            },
        };
        let ghost g_curl = channel_url@;
        let ghost g_cname = channel_name@;
        let ghost c_sec = *chars;
        let ghost s_sec = self.seen();
        let ghost t6 = self.taken();
        let ghost sec_delta = t6.skip(t5.len() as int);
        let ghost st = sec_tr@;
        proof {
            assert(sec_trace_ok(st, g_curl, g_cname, sec_delta, pk));
            assert(pk != '<' && pk != 'W' ==> self.look() == Some(pk) && t6 == t5);
            lemma_fuel_less_le(old(chars), &c_peek, &c_sec);
        }
        let ghost look_before_date = self.look();
        let date_text = match self.read_until(chars, "\n") {
            Ok(x) => x,
            Err(e) => {
                proof {
                    crate::scan::lemma_fold_absorbing(
                        "Watched\u{00a0}<a href=\""@,
                        head_delta,
                        self.taken().skip(t5.len() as int),
                    );
                    assert(head_delta + self.taken().skip(t5.len() as int) =~= delta_of(
                        self.taken(),
                        old(self).taken(),
                    ));
                    assert(self.seen().skip(s0.len() as int) =~= s_sec.skip(s0.len() as int)
                        + self.seen().skip(s_sec.len() as int));
                    lemma_news_last(
                        self.seen().skip(s0.len() as int),
                        s_sec.skip(s0.len() as int),
                        self.seen().skip(s_sec.len() as int),
                    );
                }
                return Err(e);
            },
        };
        let ghost g_dtext = date_text@;
        let ghost t7 = self.taken();
        let ghost s7 = self.seen();
        let ghost d_date = t7.skip(t6.len() as int);
        proof {
            lemma_fuel_less_le(old(chars), &c_sec, chars);
            assert(scan_hits("\n"@, d_date));
            assert(d_date == look_seq(look_before_date) + ch_chars(s7.skip(s_sec.len() as int)));
            reveal_strlit("\n");
            assert(g_dtext == collapse_ws(d_date.take(d_date.len() - 1)));
            assert(self.look() is None);
        }
        let date = match parse_history_datetime(date_text.as_str()) {
            Ok(d) => d,
            Err(err) => {
                let location = self.location();
                proof {
                    crate::scan::lemma_fold_absorbing(
                        "Watched\u{00a0}<a href=\""@,
                        head_delta,
                        self.taken().skip(t5.len() as int),
                    );
                    assert(head_delta + self.taken().skip(t5.len() as int) =~= delta_of(
                        self.taken(),
                        old(self).taken(),
                    ));
                }
                return Err(
                    ParseError::DateParseError { location, invalid_date: date_text, error: err },
                );
            },
        };
        let row = DataRow { url, title, channel_name, channel_url, date_text, date };
        proof {
            assert(row.url@ == g_url);
            assert(row.title@ == g_title);
            assert(row.channel_url@ == g_curl);
            assert(row.channel_name@ == g_cname);
            assert(row.date_text@ == g_dtext);
            assert(history_datetime_of(g_dtext) == Some(date));
            let delta = t7.skip(t0.len() as int);
            let tr = RowTrace {
                d_anchor: htr.d_anchor,
                d_url: htr.d_url,
                d_gt: htr.d_gt,
                d_title: htr.d_title,
                d_br: htr.d_br,
                sec: st,
                d_date,
            };
            reveal(row_trace_ok);
            reveal(head_trace_ok);
            reveal(sec_trace_ok);
            assert(sec_chars(st) =~= sec_delta);
            assert(delta =~= (head_delta + sec_delta) + d_date);
            assert(head_delta =~= htr.d_anchor + htr.d_url + htr.d_gt + htr.d_title + htr.d_br);
            assert(delta =~= tr.d_anchor + tr.d_url + tr.d_gt + tr.d_title + tr.d_br + sec_chars(
                tr.sec,
            ) + tr.d_date);
            assert(d_date.len() > 0);
            if st is Plain {
                assert(sec_delta =~= Seq::<char>::empty());
                assert(look_before_date == Some(pk));
                assert(d_date[0] == pk);
                assert((sec_chars(tr.sec) + tr.d_date)[0] == pk);
            } else {
                assert(sec_delta[0] == pk);
                assert((sec_chars(tr.sec) + tr.d_date)[0] == pk);
            }
            assert(row_trace_ok(tr, row, delta));
            assert(Utf8Iter::fuel_less(chars, old(chars)));
        }
        let res: Result<Option<DataRow>, ParseError> = Ok(Some(row));
        proof {
            assert(res->Ok_0->Some_0.url@ == g_url);
            assert(exists|tr2: RowTrace|
                #[trigger] row_trace_ok(
                    tr2,
                    res->Ok_0->Some_0,
                    delta_of(self.taken(), old(self).taken()),
                ));
        }
        res
    }

    /// Fold one record into the store: its channel and video deduplicated by
    /// URL, one watch appended.
    fn insert_row(&mut self, row: DataRow) -> (r: Result<(), ParseError>)
        requires
            old(self).wf(),
        ensures
            final(self).wf(),
            r is Ok,
            final(self).models_view() == spec_insert_row(old(self).models_view(), row),
            final(self).taken() == old(self).taken(),
            final(self).seen() == old(self).seen(),
            final(self).look() == old(self).look(),
    {
        let ghost g_curl = row.channel_url@;
        let ghost g_cname = row.channel_name@;
        let ghost g_url = row.url@;
        let ghost g_title = row.title@;
        let ghost mv0 = self.models@;
        let channel = self.models.find_or_create_channel(&row.channel_url, &row.channel_name);
        proof {
            crate::model::lemma_find_channel_idx(mv0.channels, g_curl);
            assert((channel as int) < self.models@.channels.len());
        }
        let video = self.models.find_or_create_video(row.url, row.title, channel);
        proof {
            crate::model::lemma_find_video_idx(mv0.videos, g_url);
            assert((video as int) < self.models@.videos.len());
            assert(crate::model::spec_find_video(
                self.models@,
                WhereVideo::Reference(video),
            ) is Some);
        }
        self.models.insert_watched(row.date, WhereVideo::Reference(video));
        proof {
            let target = spec_insert_row(mv0, row);
            assert(self.models@.channels =~= target.channels);
            assert(self.models@.videos =~= target.videos);
            assert(self.models@.watches =~= target.watches);
            assert(self.models@ =~= target);
        }
        Ok(())
    }

    /// Read records until no further one begins, folding each into the
    /// store. It is an error only if no record at all is found: a stream
    /// that ends after at least one record ends the extraction cleanly.
    /// On success the store holds exactly the extracted records, folded in
    /// order; on any other failure it holds exactly the records completed
    /// before the failing one, which contributes nothing.
    pub fn parse<S: ByteSource>(&mut self, raw_chars: Utf8Iter<S>) -> (r: Result<(), ParseError>)
        requires
            old(self).wf(),
            raw_chars.wf(),
            raw_chars.events() == old(self).seen(),
        ensures
            final(self).wf(),
            (r == Err::<(), ParseError>(ParseError::NoRows) <==> {
                let news = news_of(final(self).seen(), old(self).seen());
                &&& no_hit(
                    "Watched\u{00a0}<a href=\""@,
                    delta_of(final(self).taken(), old(self).taken()),
                )
                &&& news.len() > 0
                &&& news.last() == Event::Stop
                &&& all_ch(news.drop_last())
            }),
            r == Err::<(), ParseError>(ParseError::NoRows) ==> final(self).models_view() == old(
                self,
            ).models_view(),
            r is Ok ==> final(self).models_view().watches.len() > old(
                self,
            ).models_view().watches.len(),
            (r is Ok ==> exists|rows: Seq<DataRow>, tail: Seq<char>|
                {
                    &&& #[trigger] parse_split(
                        rows,
                        tail,
                        delta_of(final(self).taken(), old(self).taken()),
                    )
                    &&& rows.len() >= 1
                    &&& no_hit("Watched\u{00a0}<a href=\""@, tail)
                    &&& final(self).models_view() == spec_insert_rows(
                        old(self).models_view(),
                        rows,
                    )
                }),
            (r matches Err(e) ==> (e is NoRows || exists|rows: Seq<DataRow>, tail: Seq<char>|
                {
                    &&& #[trigger] parse_split(
                        rows,
                        tail,
                        delta_of(final(self).taken(), old(self).taken()),
                    )
                    &&& final(self).models_view() == spec_insert_rows(
                        old(self).models_view(),
                        rows,
                    )
                })),
    {
        let mut chars = raw_chars;
        let ghost t0 = self.taken();
        let ghost s0 = self.seen();
        let ghost mut g_rows: Seq<DataRow> = Seq::empty();
        let ghost mut g_used: Seq<char> = Seq::empty();
        let first = self.next_data_row(&mut chars);
        match first {
            Err(e) => {
                proof {
                    assert(!(e is NoRows));
                    let delta = delta_of(self.taken(), old(self).taken());
                    assert(Seq::<char>::empty() + delta =~= delta);
                    assert(rows_trace_ok(Seq::<DataRow>::empty(), Seq::<char>::empty()));
                    assert(parse_split(Seq::<DataRow>::empty(), delta, delta));
                    assert(spec_insert_rows(old(self).models_view(), Seq::<DataRow>::empty())
                        == old(self).models_view());
                }
                return Err(e);
            },
            Ok(None) => {
                proof {
                    assert(no_hit(
                        "Watched\u{00a0}<a href=\""@,
                        delta_of(self.taken(), old(self).taken()),
                    ));
                    assert(news_of(self.seen(), old(self).seen()).len() > 0);
                    assert(news_of(self.seen(), old(self).seen()).last() == Event::Stop);
                    assert(all_ch(news_of(self.seen(), old(self).seen()).drop_last()));
                }
                return Err(ParseError::NoRows);
            },
            Ok(Some(row)) => {
                let ghost g_row = row;
                let ghost d0 = delta_of(self.taken(), old(self).taken());
                match self.insert_row(row) {
                    Ok(()) => {},
                    Err(e) => {
                        return Err(e);
                    },
                }
                proof {
                    assert(rows_trace_ok(Seq::<DataRow>::empty(), Seq::<char>::empty()));
                    lemma_rows_trace_push(Seq::empty(), Seq::empty(), g_row, d0);
                    assert(Seq::<char>::empty() + d0 =~= d0);
                    assert(Seq::<DataRow>::empty().push(g_row) =~= seq![g_row]);
                    g_rows = seq![g_row];
                    g_used = d0;
                    assert(rows_trace_ok(g_rows, g_used));
                    lemma_insert_rows_push(old(self).models_view(), Seq::empty(), g_row);
                    assert(spec_insert_rows(old(self).models_view(), Seq::<DataRow>::empty())
                        == old(self).models_view());
                    assert(self.models_view() == spec_insert_rows(
                        old(self).models_view(),
                        g_rows,
                    ));
                }
            },
        }
        proof {
            assert(!no_hit(
                "Watched\u{00a0}<a href=\""@,
                delta_of(self.taken(), old(self).taken()),
            )) by {
                let row0 = first->Ok_0->Some_0;
                let d0 = self.taken().skip(t0.len() as int);
                let tr = choose|tr: RowTrace| row_trace_ok(tr, row0, d0);
                reveal(row_trace_ok);
                reveal(head_trace_ok);
                assert(scan_fold("Watched\u{00a0}<a href=\""@, tr.d_anchor).cand
                    == "Watched\u{00a0}<a href=\""@);
                crate::scan::lemma_fold_absorbing(
                    "Watched\u{00a0}<a href=\""@,
                    tr.d_anchor,
                    tr.d_url + tr.d_gt + tr.d_title + tr.d_br + sec_chars(tr.sec) + tr.d_date,
                );
                assert(tr.d_anchor + (tr.d_url + tr.d_gt + tr.d_title + tr.d_br + sec_chars(
                    tr.sec,
                ) + tr.d_date) =~= d0);
            }
        }
        loop
            invariant
                self.wf(),
                chars.wf(),
                chars.events() == self.seen(),
                self.models_view().watches.len() > old(self).models_view().watches.len()
                    || self.models_view().watches.len() >= 1,
                self.models_view().watches.len() > old(self).models_view().watches.len(),
                old(self).taken().is_prefix_of(self.taken()),
                old(self).seen().is_prefix_of(self.seen()),
                !no_hit(
                    "Watched\u{00a0}<a href=\""@,
                    delta_of(self.taken(), old(self).taken()),
                ),
                rows_trace_ok(g_rows, g_used),
                g_rows.len() >= 1,
                delta_of(self.taken(), old(self).taken()) == g_used,
                self.models_view() == spec_insert_rows(old(self).models_view(), g_rows),
            decreases chars.budget(), chars.pending_bytes(),
        {
            let ghost t_pre = self.taken();
            match self.next_data_row(&mut chars) {
                Ok(Some(row)) => {
                    let ghost g_row = row;
                    proof {
                        assert(delta_of(self.taken(), old(self).taken()).len() >= delta_of(
                            t_pre,
                            old(self).taken(),
                        ).len());
                        crate::scan::lemma_fold_absorbing(
                            "Watched\u{00a0}<a href=\""@,
                            delta_of(t_pre, old(self).taken()),
                            self.taken().skip(t_pre.len() as int),
                        );
                        assert(delta_of(t_pre, old(self).taken()) + self.taken().skip(
                            t_pre.len() as int,
                        ) =~= delta_of(self.taken(), old(self).taken()));
                    }
                    match self.insert_row(row) {
                        Ok(()) => {},
                        Err(e) => {
                            return Err(e);
                        },
                    }
                    proof {
                        let d = self.taken().skip(t_pre.len() as int);
                        lemma_rows_trace_push(g_rows, g_used, g_row, d);
                        lemma_insert_rows_push(old(self).models_view(), g_rows, g_row);
                        g_rows = g_rows.push(g_row);
                        g_used = g_used + d;
                        assert(delta_of(self.taken(), old(self).taken()) =~= g_used);
                    }
                },
                Ok(None) => {
                    proof {
                        crate::scan::lemma_fold_absorbing(
                            "Watched\u{00a0}<a href=\""@,
                            delta_of(t_pre, old(self).taken()),
                            self.taken().skip(t_pre.len() as int),
                        );
                        assert(delta_of(t_pre, old(self).taken()) + self.taken().skip(
                            t_pre.len() as int,
                        ) =~= delta_of(self.taken(), old(self).taken()));
                        let tail = self.taken().skip(t_pre.len() as int);
                        let delta = delta_of(self.taken(), old(self).taken());
                        assert(delta =~= g_used + tail);
                        assert(parse_split(g_rows, tail, delta));
                    }
                    return Ok(());
                },
                Err(e) => {
                    proof {
                        assert(!(e is NoRows));
                        crate::scan::lemma_fold_absorbing(
                            "Watched\u{00a0}<a href=\""@,
                            delta_of(t_pre, old(self).taken()),
                            self.taken().skip(t_pre.len() as int),
                        );
                        assert(delta_of(t_pre, old(self).taken()) + self.taken().skip(
                            t_pre.len() as int,
                        ) =~= delta_of(self.taken(), old(self).taken()));
                        let tail = self.taken().skip(t_pre.len() as int);
                        let delta = delta_of(self.taken(), old(self).taken());
                        assert(delta =~= g_used + tail);
                        assert(parse_split(g_rows, tail, delta));
                    }
                    return Err(e);
                },
            }
        }
    }

    /// What the scanner's invariant yields a caller: the position counters
    /// match the characters counted, and the store is well formed.
    pub proof fn lemma_wf_parts(&self)
        requires
            self.wf(),
        ensures
            self.counters_ok(),
            self.models_view().wf(),
    {
    }
}

/// How one record's consumed characters decompose into the grammar's steps:
/// the anchor, the identifier, the label, the separator, the optional
/// secondary block, and the trailing timestamp line.
pub ghost struct RowTrace {
    pub d_anchor: Seq<char>,
    pub d_url: Seq<char>,
    pub d_gt: Seq<char>,
    pub d_title: Seq<char>,
    pub d_br: Seq<char>,
    pub sec: SecTrace,
    pub d_date: Seq<char>,
}

/// The three shapes the optional secondary block takes, decided by the
/// first character after the separator.
pub ghost enum SecTrace {
    /// A nested identifier/label pair, read like the primary one.
    Channel { e_q: Seq<char>, e_url: Seq<char>, e_gt: Seq<char>, e_name: Seq<char>, e_br: Seq<char> },
    /// An alternate textual marker: skipped to the next separator.
    WatchedAt { e_br: Seq<char> },
    /// No secondary block at all.
    Plain,
}

/// The characters a secondary block consumed.
pub open spec fn sec_chars(sec: SecTrace) -> Seq<char> {
    match sec {
        SecTrace::Channel { e_q, e_url, e_gt, e_name, e_br } => e_q + e_url + e_gt + e_name + e_br,
        SecTrace::WatchedAt { e_br } => e_br,
        SecTrace::Plain => Seq::empty(),
    }
}

/// How the first half of a record decomposes: the anchor, the identifier,
/// the label, and the separator.
pub ghost struct HeadTrace {
    pub d_anchor: Seq<char>,
    pub d_url: Seq<char>,
    pub d_gt: Seq<char>,
    pub d_title: Seq<char>,
    pub d_br: Seq<char>,
}

/// The first half of the record grammar: `delta` is exactly what the four
/// scans up to the separator consumed, and `url` and `title` are the
/// collapsed texts read before the quote and before the tag open.
#[verifier::opaque]
pub open spec fn head_trace_ok(
    tr: HeadTrace,
    url: Seq<char>,
    title: Seq<char>,
    delta: Seq<char>,
) -> bool {
    &&& delta == tr.d_anchor + tr.d_url + tr.d_gt + tr.d_title + tr.d_br
    &&& scan_hits("Watched\u{00a0}<a href=\""@, tr.d_anchor)
    &&& scan_hits("\""@, tr.d_url)
    &&& url == collapse_ws(tr.d_url.take(tr.d_url.len() - 1))
    &&& scan_hits(">"@, tr.d_gt)
    &&& scan_hits("<"@, tr.d_title)
    &&& title == collapse_ws(tr.d_title.take(tr.d_title.len() - 1))
    &&& scan_hits("<br />"@, tr.d_br)
}

/// The secondary half of the record grammar, decided by the peeked
/// character `c`: a nested pair after `<`, a skipped textual marker after
/// `W`, else nothing consumed and empty secondary fields.
#[verifier::opaque]
pub open spec fn sec_trace_ok(
    st: SecTrace,
    curl: Seq<char>,
    cname: Seq<char>,
    delta: Seq<char>,
    c: char,
) -> bool {
    match st {
        SecTrace::Channel { e_q, e_url, e_gt, e_name, e_br } => {
            &&& c == '<'
            &&& delta == e_q + e_url + e_gt + e_name + e_br
            &&& delta.len() > 0
            &&& delta[0] == c
            &&& scan_hits("\""@, e_q)
            &&& scan_hits("\""@, e_url)
            &&& curl == collapse_ws(e_url.take(e_url.len() - 1))
            &&& scan_hits(">"@, e_gt)
            &&& scan_hits("<"@, e_name)
            &&& cname == collapse_ws(e_name.take(e_name.len() - 1))
            &&& scan_hits("<br />"@, e_br)
        },
        SecTrace::WatchedAt { e_br } => {
            &&& c == 'W'
            &&& delta == e_br
            &&& delta.len() > 0
            &&& delta[0] == c
            &&& scan_hits("<br />"@, e_br)
            &&& curl == Seq::<char>::empty()
            &&& cname == Seq::<char>::empty()
        },
        SecTrace::Plain => {
            &&& c != '<'
            &&& c != 'W'
            &&& delta == Seq::<char>::empty()
            &&& curl == Seq::<char>::empty()
            &&& cname == Seq::<char>::empty()
        },
    }
}

/// The whole record grammar: `delta` is exactly one record's consumption
/// and `row` carries what its pieces say. The timestamp line must parse
/// under the fixed history layout.
#[verifier::opaque]
pub open spec fn row_trace_ok(tr: RowTrace, row: DataRow, delta: Seq<char>) -> bool {
    &&& delta == tr.d_anchor + tr.d_url + tr.d_gt + tr.d_title + tr.d_br + sec_chars(tr.sec)
        + tr.d_date
    &&& head_trace_ok(
        HeadTrace {
            d_anchor: tr.d_anchor,
            d_url: tr.d_url,
            d_gt: tr.d_gt,
            d_title: tr.d_title,
            d_br: tr.d_br,
        },
        row.url@,
        row.title@,
        tr.d_anchor + tr.d_url + tr.d_gt + tr.d_title + tr.d_br,
    )
    &&& (sec_chars(tr.sec) + tr.d_date).len() > 0
    &&& sec_trace_ok(
        tr.sec,
        row.channel_url@,
        row.channel_name@,
        sec_chars(tr.sec),
        (sec_chars(tr.sec) + tr.d_date)[0],
    )
    &&& scan_hits("\n"@, tr.d_date)
    &&& row.date_text@ == collapse_ws(tr.d_date.take(tr.d_date.len() - 1))
    &&& history_datetime_of(row.date_text@) == Some(row.date)
}

/// How one record changes the store: its channel and video deduplicated by
/// URL (a known one keeps its fields), one watch appended.
pub open spec fn spec_insert_row(m: ModelsView, row: DataRow) -> ModelsView {
    let ci = match find_channel_idx(m.channels, row.channel_url@) {
        Some(j) => j,
        None => m.channels.len() as int,
    };
    let channels2 = match find_channel_idx(m.channels, row.channel_url@) {
        Some(j) => m.channels,
        None => m.channels.push(ChannelView { url: row.channel_url@, name: row.channel_name@ }),
    };
    let vi = match find_video_idx(m.videos, row.url@) {
        Some(j) => j,
        None => m.videos.len() as int,
    };
    let videos2 = match find_video_idx(m.videos, row.url@) {
        Some(j) => m.videos,
        None => m.videos.push(VideoView { url: row.url@, title: row.title@, channel: ci }),
    };
    ModelsView {
        channels: channels2,
        videos: videos2,
        watches: m.watches.push(WatchedView { video: vi, when: row.date as int }),
    }
}

/// The store after folding a sequence of records, first to last.
pub open spec fn spec_insert_rows(m: ModelsView, rows: Seq<DataRow>) -> ModelsView
    decreases rows.len(),
{
    if rows.len() == 0 {
        m
    } else {
        spec_insert_row(spec_insert_rows(m, rows.drop_last()), rows.last())
    }
}

/// Folding a sequence of records appends exactly one watch per record, in
/// order — the watch past position `i` of the old end carries record `i`'s
/// timestamp — and touches no watch already there.
pub proof fn lemma_insert_rows_watches(m: ModelsView, rows: Seq<DataRow>)
    ensures
        spec_insert_rows(m, rows).watches.len() == m.watches.len() + rows.len(),
        forall|i: int|
            0 <= i < rows.len() ==> #[trigger] spec_insert_rows(m, rows).watches[m.watches.len()
                + i].when == rows[i].date as int,
        forall|i: int|
            0 <= i < m.watches.len() ==> #[trigger] spec_insert_rows(m, rows).watches[i]
                == m.watches[i],
    decreases rows.len(),
{
    if rows.len() > 0 {
        lemma_insert_rows_watches(m, rows.drop_last());
        let m1 = spec_insert_rows(m, rows.drop_last());
        assert forall|i: int| 0 <= i < rows.len() implies #[trigger] spec_insert_rows(
            m,
            rows,
        ).watches[m.watches.len() + i].when == rows[i].date as int by {
            if i < rows.len() - 1 {
                assert(rows.drop_last()[i] == rows[i]);
                let j = m.watches.len() + i;
                assert(spec_insert_rows(m, rows).watches[j] == m1.watches[j]);
            }
        }
    }
}

/// Folding one more record folds it onto the store the earlier records
/// built.
pub proof fn lemma_insert_rows_push(m: ModelsView, rows: Seq<DataRow>, row: DataRow)
    ensures
        spec_insert_rows(m, rows.push(row)) == spec_insert_row(spec_insert_rows(m, rows), row),
{
    assert(rows.push(row).drop_last() =~= rows);
    assert(rows.push(row).last() == row);
}

/// The characters `used` decompose into one complete record per row, in
/// order: each row was read off its own segment under the record grammar.
pub open spec fn rows_trace_ok(rows: Seq<DataRow>, used: Seq<char>) -> bool
    decreases rows.len(),
{
    if rows.len() == 0 {
        used == Seq::<char>::empty()
    } else {
        exists|d_front: Seq<char>, d_last: Seq<char>|
            {
                &&& used == #[trigger] (d_front + d_last)
                &&& rows_trace_ok(rows.drop_last(), d_front)
                &&& exists|tr: RowTrace| #[trigger] row_trace_ok(tr, rows.last(), d_last)
            }
    }
}

/// One more record, read off the characters `d`, extends a decomposition.
pub proof fn lemma_rows_trace_push(rows: Seq<DataRow>, used: Seq<char>, row: DataRow, d: Seq<char>)
    requires
        rows_trace_ok(rows, used),
        exists|tr: RowTrace| row_trace_ok(tr, row, d),
    ensures
        rows_trace_ok(rows.push(row), used + d),
{
    let rows2 = rows.push(row);
    assert(rows2.drop_last() =~= rows);
    assert(rows2.last() == row);
    let tr = choose|tr: RowTrace| row_trace_ok(tr, row, d);
    assert(row_trace_ok(tr, rows2.last(), d));
    assert(rows_trace_ok(rows2, used + d));
}

/// The characters `delta` decompose into the records `rows`, in order,
/// followed by `tail`.
pub open spec fn parse_split(rows: Seq<DataRow>, tail: Seq<char>, delta: Seq<char>) -> bool {
    exists|used: Seq<char>|
        {
            &&& delta == #[trigger] (used + tail)
            &&& rows_trace_ok(rows, used)
        }
}

/// Composing a strict fuel decrease with a non-increase stays strict.
pub proof fn lemma_fuel_less_le<S: ByteSource>(a: &Utf8Iter<S>, b: &Utf8Iter<S>, c: &Utf8Iter<S>)
    requires
        Utf8Iter::fuel_less(b, a),
        Utf8Iter::fuel_le(c, b),
    ensures
        Utf8Iter::fuel_less(c, a),
{
}

} // verus!
