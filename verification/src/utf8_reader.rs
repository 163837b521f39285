//! A streaming UTF-8 reader: it pulls byte chunks from a [`ByteSource`] and
//! hands out one decoded character per call, reporting invalid byte spans and
//! read failures without losing its place.
//!
//! The ghost state records the whole interaction: `byte_script` is the
//! sequence of chunks received (an empty chunk standing for a dry read), and
//! `events` is everything the reader has handed out. The reader's contract
//! ties the two together through [`feed`], so the characters a caller sees
//! are a pure function of the bytes that arrived — however they were chunked.

use vstd::prelude::*;

verus! {

use crate::source::{ByteSource, ReadOutcome};
use crate::utf8::{
    decode_events, decode_front, decoded_rest, lemma_decode_append, lemma_step_len, Event,
    FrontStep, utf8_step, Utf8Step, vec_drop_front,
};

/// Why the reader could not hand out a character.
#[derive(Debug, Clone, PartialEq, Eq)]
pub enum Error {
    /// An invalid byte span was read. Calling `next()` again moves past it.
    InvalidBytes(Vec<u8>),
    /// The underlying source failed to read.
    IoError(String),
    /// No data is available now. `next()` may be called again: a file can
    /// grow and a pipe can receive another packet.
    End,
}

/// The event that one `next()` outcome appends to the reader's history.
pub open spec fn event_of(r: Result<char, Error>) -> Event {
    match r {
        Ok(c) => Event::Ch { c },
        Err(Error::InvalidBytes(bs)) => Event::Bad { bytes: bs@ },
        Err(Error::IoError(m)) => Event::Fault { msg: m@ },
        Err(Error::End) => Event::Stop,
    }
}

/// The decoding part of an event history: the characters and invalid spans,
/// with dry reads and read failures left out.
pub open spec fn dec_part(evs: Seq<Event>) -> Seq<Event>
    decreases evs.len(),
{
    if evs.len() == 0 {
        seq![]
    } else {
        let rest = dec_part(evs.skip(1));
        match evs[0] {
            Event::Ch { c } => seq![evs[0]] + rest,
            Event::Bad { bytes } => seq![evs[0]] + rest,
            Event::Fault { msg } => rest,
            Event::Stop => rest,
        }
    }
}

/// `dec_part` of a single event.
pub proof fn lemma_dec_part_one(e: Event)
    ensures
        dec_part(seq![e]) == (match e {
            Event::Ch { c } => seq![e],
            Event::Bad { bytes } => seq![e],
            Event::Fault { msg } => Seq::<Event>::empty(),
            Event::Stop => Seq::<Event>::empty(),
        }),
{
    assert(seq![e].skip(1) =~= Seq::<Event>::empty());
    assert(dec_part(Seq::<Event>::empty()) =~= Seq::<Event>::empty());
    match e {
        Event::Ch { c } => {
            assert(dec_part(seq![e]) =~= seq![e] + dec_part(seq![e].skip(1)));
        },
        Event::Bad { bytes } => {
            assert(dec_part(seq![e]) =~= seq![e] + dec_part(seq![e].skip(1)));
        },
        _ => {},
    }
}

/// `dec_part` distributes over concatenation.
pub proof fn lemma_dec_part_append(a: Seq<Event>, b: Seq<Event>)
    ensures
        dec_part(a + b) == dec_part(a) + dec_part(b),
    decreases a.len(),
{
    if a.len() == 0 {
        assert(a + b =~= b);
        assert(dec_part(a) + dec_part(b) =~= dec_part(b));
    } else {
        assert((a + b).skip(1) =~= a.skip(1) + b);
        lemma_dec_part_append(a.skip(1), b);
        assert((a + b)[0] == a[0]);
        match a[0] {
            Event::Ch { c } => {
                assert(seq![a[0]] + (dec_part(a.skip(1)) + dec_part(b)) =~= (seq![a[0]] + dec_part(
                    a.skip(1),
                )) + dec_part(b));
            },
            Event::Bad { bytes } => {
                assert(seq![a[0]] + (dec_part(a.skip(1)) + dec_part(b)) =~= (seq![a[0]] + dec_part(
                    a.skip(1),
                )) + dec_part(b));
            },
            _ => {},
        }
    }
}


/// Only characters: no invalid span, no failure, no dry read.
pub open spec fn all_ch(evs: Seq<Event>) -> bool {
    forall|i: int| 0 <= i < evs.len() ==> evs[i] is Ch
}

/// Two all-character histories joined are all characters still.
pub proof fn lemma_all_ch_append(a: Seq<Event>, b: Seq<Event>)
    requires
        all_ch(a),
        all_ch(b),
    ensures
        all_ch(a + b),
{
    assert forall|i: int| 0 <= i < (a + b).len() implies (a + b)[i] is Ch by {
        if i < a.len() {
            assert((a + b)[i] == a[i]);
        } else {
            assert((a + b)[i] == b[i - a.len()]);
        }
    }
}

/// The characters of an event history, in order.
pub open spec fn ch_chars(evs: Seq<Event>) -> Seq<char>
    decreases evs.len(),
{
    if evs.len() == 0 {
        seq![]
    } else {
        let rest = ch_chars(evs.skip(1));
        match evs[0] {
            Event::Ch { c } => seq![c] + rest,
            _ => rest,
        }
    }
}

/// `ch_chars` of a single event.
pub proof fn lemma_ch_chars_one(e: Event)
    ensures
        ch_chars(seq![e]) == (match e {
            Event::Ch { c } => seq![c],
            _ => Seq::<char>::empty(),
        }),
{
    assert(seq![e].skip(1) =~= Seq::<Event>::empty());
    assert(ch_chars(Seq::<Event>::empty()) =~= Seq::<char>::empty());
    match e {
        Event::Ch { c } => {
            assert(ch_chars(seq![e]) =~= seq![c] + ch_chars(seq![e].skip(1)));
        },
        _ => {},
    }
}

/// `ch_chars` distributes over concatenation.
pub proof fn lemma_ch_chars_append(a: Seq<Event>, b: Seq<Event>)
    ensures
        ch_chars(a + b) == ch_chars(a) + ch_chars(b),
    decreases a.len(),
{
    if a.len() == 0 {
        assert(a + b =~= b);
        assert(ch_chars(a) + ch_chars(b) =~= ch_chars(b));
    } else {
        assert((a + b).skip(1) =~= a.skip(1) + b);
        lemma_ch_chars_append(a.skip(1), b);
        assert((a + b)[0] == a[0]);
        match a[0] {
            Event::Ch { c } => {
                assert(seq![c] + (ch_chars(a.skip(1)) + ch_chars(b)) =~= (seq![c] + ch_chars(
                    a.skip(1),
                )) + ch_chars(b));
            },
            _ => {},
        }
    }
}

/// What a whole script of chunks decodes to: the events decided so far and
/// the still-undecided trailing bytes. An empty chunk is a dry read: it
/// flushes a trailing incomplete sequence as one invalid span, because the
/// reader cannot tell whether more bytes will ever arrive to complete it.
pub open spec fn feed(script: Seq<Seq<u8>>) -> (Seq<Event>, Seq<u8>)
    decreases script.len(),
{
    if script.len() == 0 {
        (seq![], seq![])
    } else {
        let (ev, rest) = feed(script.drop_last());
        let chunk = script.last();
        if chunk.len() == 0 {
            if rest.len() == 0 {
                (ev, rest)
            } else {
                (ev + seq![Event::Bad { bytes: rest }], seq![])
            }
        } else {
            (ev + decode_events(rest + chunk), decoded_rest(rest + chunk))
        }
    }
}

/// Chunk-boundary invariance: a script of data chunks (no dry reads) decodes
/// to exactly the events of the chunks' concatenation, however the bytes
/// were split.
pub proof fn lemma_chunk_invariance(script: Seq<Seq<u8>>)
    requires
        forall|i: int| 0 <= i < script.len() ==> script[i].len() > 0,
    ensures
        feed(script).0 == decode_events(script.flatten()),
        feed(script).1 == decoded_rest(script.flatten()),
    decreases script.len(),
{
    broadcast use vstd::prelude::Seq::lemma_flatten_push;

    if script.len() == 0 {
        assert(script.flatten() =~= Seq::<u8>::empty());
    } else {
        let front = script.drop_last();
        let chunk = script.last();
        lemma_chunk_invariance(front);
        assert(front.push(chunk) =~= script);
        assert(script.flatten() == front.flatten() + chunk);
        lemma_decode_append(front.flatten(), chunk);
    }
}

/// Turns a byte source into a stream of decoded characters.
pub struct Utf8Iter<S: ByteSource> {
    source: S,
    buf: Vec<u8>,
    emitted: Ghost<Seq<Event>>,
    script: Ghost<Seq<Seq<u8>>>,
}

impl<S: ByteSource> Utf8Iter<S> {
    /// Everything this reader has handed out, in order.
    pub closed spec fn events(&self) -> Seq<Event> {
        self.emitted@
    }

    /// The chunks received from the source so far; an empty chunk records a
    /// dry read.
    pub closed spec fn byte_script(&self) -> Seq<Seq<u8>> {
        self.script@
    }

    /// Bytes received but not yet decided.
    pub closed spec fn undecoded(&self) -> Seq<u8> {
        self.buf@
    }

    /// The source's remaining budget; together with `pending_bytes` it bounds
    /// how much work this reader can still do.
    pub closed spec fn budget(&self) -> nat {
        self.source.budget()
    }

    /// How many bytes are buffered but not yet handed out.
    pub closed spec fn pending_bytes(&self) -> nat {
        self.buf@.len()
    }

    /// The reader's invariant: what it has handed out, plus what is still
    /// buffered, accounts exactly for every byte received.
    pub closed spec fn wf(&self) -> bool {
        &&& feed(self.script@).0 == dec_part(self.emitted@) + decode_events(self.buf@)
        &&& feed(self.script@).1 == decoded_rest(self.buf@)
    }

    /// The public face of the invariant: the events handed out so far are
    /// exactly the decoded form of the bytes received, up to the undecoded
    /// buffered tail.
    pub proof fn lemma_events_follow_script(&self)
        requires
            self.wf(),
        ensures
            feed(self.byte_script()).0 == dec_part(self.events()) + decode_events(
                self.undecoded(),
            ),
            feed(self.byte_script()).1 == decoded_rest(self.undecoded()),
    {
    }

    /// A reader over `reader` with nothing read yet.
    pub fn new(reader: S) -> (r: Utf8Iter<S>)
        ensures
            r.wf(),
            r.events() == Seq::<Event>::empty(),
            r.byte_script() == Seq::<Seq<u8>>::empty(),
            r.budget() == reader.budget(),
            r.pending_bytes() == 0,
    {
        let r = Utf8Iter {
            source: reader,
            buf: Vec::new(),
            emitted: Ghost(Seq::empty()),
            script: Ghost(Seq::empty()),
        };
        proof {
            assert(decode_events(r.buf@) =~= Seq::<Event>::empty());
            assert(feed(r.script@).0 =~= dec_part(r.emitted@) + decode_events(r.buf@));
        }
        r
    }

    /// The measure that shrinks whenever a character or an invalid span is
    /// handed out: a loop that pulls from the reader terminates on it.
    pub open spec fn fuel_less(post: &Self, pre: &Self) -> bool {
        ||| post.budget() < pre.budget()
        ||| (post.budget() == pre.budget() && post.pending_bytes() < pre.pending_bytes())
    }

    /// The measure never grows, whatever a call returned.
    pub open spec fn fuel_le(post: &Self, pre: &Self) -> bool {
        ||| post.budget() < pre.budget()
        ||| (post.budget() == pre.budget() && post.pending_bytes() <= pre.pending_bytes())
    }

    /// The next character in the stream, possibly made of several bytes from
    /// the underlying source.
    ///
    /// The buffered bytes are drained first: while their front decides a
    /// character or a maximal invalid span, that is returned and nothing is
    /// read. Only a buffer that ends in a proper prefix of an encoding pulls
    /// more bytes. `Err(End)` means the source reported no data while nothing
    /// was buffered; the reader stays usable, since a file can grow and a
    /// pipe can receive more. A dry read that leaves an incomplete encoding
    /// buffered flushes those bytes as one `InvalidBytes` span: the reader
    /// cannot know whether the bytes completing them will ever arrive.
    /// A read failure is reported as `IoError` and loses nothing: every byte
    /// buffered before the call, and every byte received during it, stays
    /// buffered for the next call.
    pub fn next(&mut self) -> (r: Result<char, Error>)
        requires
            old(self).wf(),
        ensures
            final(self).wf(),
            final(self).events() == old(self).events() + seq![event_of(r)],
            old(self).byte_script().is_prefix_of(final(self).byte_script()),
            final(self).budget() <= old(self).budget(),
            Self::fuel_le(final(self), old(self)),
            match r {
                Ok(_) => Self::fuel_less(final(self), old(self)),
                Err(Error::InvalidBytes(_)) => Self::fuel_less(final(self), old(self)),
                Err(_) => true,
            },
            (utf8_step(old(self).undecoded()) matches Utf8Step::Scalar { code, len } ==> {
                &&& r == Ok::<char, Error>(code as char)
                &&& final(self).undecoded() == old(self).undecoded().skip(len)
                &&& final(self).byte_script() == old(self).byte_script()
            }),
            (utf8_step(old(self).undecoded()) matches Utf8Step::Malformed { len } ==> {
                &&& (r matches Err(Error::InvalidBytes(bs)) && bs@ == old(self).undecoded().take(
                    len,
                ))
                &&& final(self).undecoded() == old(self).undecoded().skip(len)
                &&& final(self).byte_script() == old(self).byte_script()
            }),
            (r == Err::<char, Error>(Error::End) ==> {
                &&& old(self).pending_bytes() == 0
                &&& final(self).pending_bytes() == 0
                &&& final(self).byte_script() == old(self).byte_script().push(Seq::<u8>::empty())
            }),
            (r matches Err(Error::IoError(_)) ==> {
                &&& utf8_step(old(self).undecoded()) is Incomplete
                &&& final(self).undecoded() == old(self).undecoded()
                    + final(self).byte_script().skip(
                    old(self).byte_script().len() as int,
                ).flatten()
            }),
    {
        proof {
            assert(old(self).script@.skip(old(self).script@.len() as int) =~= Seq::<
                Seq<u8>,
            >::empty());
            assert(Seq::<Seq<u8>>::empty().flatten() =~= Seq::<u8>::empty());
            assert(old(self).buf@ + Seq::<u8>::empty() =~= old(self).buf@);
        }
        loop
            invariant
                feed(self.script@).0 == dec_part(self.emitted@) + decode_events(self.buf@),
                feed(self.script@).1 == decoded_rest(self.buf@),
                self.emitted@ == old(self).emitted@,
                old(self).script@.is_prefix_of(self.script@),
                self.source.budget() <= old(self).source.budget(),
                self.source.budget() == old(self).source.budget() ==> self.buf@ == old(
                    self,
                ).buf@,
                self.buf@ == old(self).buf@ + self.script@.skip(
                    old(self).script@.len() as int,
                ).flatten(),
                utf8_step(old(self).buf@) is Incomplete || (self.buf@ == old(self).buf@
                    && self.script@ == old(self).script@),
                self.buf@.len() == 0 ==> (self.script@ == old(self).script@ && old(
                    self,
                ).buf@.len() == 0),
            decreases self.source.budget(),
        {
            let ghost pre_emitted = self.emitted@;
            match decode_front(&self.buf) {
                FrontStep::Got { c, len } => {
                    proof {
                        lemma_step_len(self.buf@);
                        lemma_dec_part_append(pre_emitted, seq![Event::Ch { c }]);
                        lemma_dec_part_one(Event::Ch { c });
                        assert(dec_part(pre_emitted + seq![Event::Ch { c }]) + decode_events(
                            self.buf@.skip(len as int),
                        ) =~= dec_part(pre_emitted) + decode_events(self.buf@));
                    }
                    self.emitted = Ghost(self.emitted@ + seq![Event::Ch { c }]);
                    vec_drop_front(&mut self.buf, len);
                    return Ok(c);
                },
                FrontStep::Malformed { len } => {
                    proof {
                        lemma_step_len(self.buf@);
                    }
                    let mut bad: Vec<u8> = Vec::new();
                    let mut i: usize = 0;
                    while i < len
                        invariant
                            i <= len <= self.buf@.len(),
                            bad@ == self.buf@.take(i as int),
                        decreases len - i,
                    {
                        bad.push(self.buf[i]);
                        i = i + 1;
                        assert(bad@ =~= self.buf@.take(i as int));
                    }
                    proof {
                        let ev = Event::Bad { bytes: bad@ };
                        lemma_dec_part_append(pre_emitted, seq![ev]);
                        lemma_dec_part_one(ev);
                        assert(dec_part(pre_emitted + seq![ev]) + decode_events(
                            self.buf@.skip(len as int),
                        ) =~= dec_part(pre_emitted) + decode_events(self.buf@));
                    }
                    self.emitted = Ghost(self.emitted@ + seq![Event::Bad { bytes: bad@ }]);
                    vec_drop_front(&mut self.buf, len);
                    return Err(Error::InvalidBytes(bad));
                },
                FrontStep::Incomplete => {
                    let ghost pre_buf = self.buf@;
                    let ghost pre_script = self.script@;
                    proof {
                        // the front of the buffer decides nothing, so the
                        // buffer at entry decided nothing either
                        if !(utf8_step(old(self).buf@) is Incomplete) {
                            assert(self.buf@ == old(self).buf@);
                        }
                        assert(utf8_step(old(self).buf@) is Incomplete);
                    }
                    match self.source.read_some() {
                        ReadOutcome::Data(mut chunk) => {
                            if chunk.len() > 0 {
                                let ghost g_chunk = chunk@;
                                proof {
                                    assert(decoded_rest(pre_buf) == pre_buf);
                                    assert(decode_events(pre_buf) =~= Seq::<Event>::empty());
                                    let script2 = pre_script.push(chunk@);
                                    assert(script2.drop_last() =~= pre_script);
                                    assert(script2.last() == chunk@);
                                    assert(feed(script2).0 =~= dec_part(pre_emitted)
                                        + decode_events(pre_buf + chunk@));
                                    assert(pre_script.is_prefix_of(script2));
                                }
                                self.script = Ghost(self.script@.push(chunk@));
                                self.buf.append(&mut chunk);
                                proof {
                                    let k = old(self).script@.len() as int;
                                    assert(self.script@.skip(k) =~= pre_script.skip(k).push(
                                        g_chunk,
                                    ));
                                    pre_script.skip(k).lemma_flatten_push(g_chunk);
                                    assert(self.buf@ =~= old(self).buf@ + (pre_script.skip(
                                        k,
                                    ).flatten() + g_chunk));
                                }
                            } else {
                                let res = self.settle_dry();
                                proof {
                                    assert(old(self).script@ =~= self.script@.subrange(
                                        0,
                                        old(self).script@.len() as int,
                                    ));
                                    if res == Err::<char, Error>(Error::End) {
                                        assert(pre_buf.len() == 0);
                                    }
                                }
                                return res;
                            }
                        },
                        ReadOutcome::End => {
                            let res = self.settle_dry();
                            proof {
                                assert(old(self).script@ =~= self.script@.subrange(
                                    0,
                                    old(self).script@.len() as int,
                                ));
                                if res == Err::<char, Error>(Error::End) {
                                    assert(pre_buf.len() == 0);
                                }
                            }
                            return res;
                        },
                        ReadOutcome::Failure(m) => {
                            proof {
                                lemma_dec_part_append(
                                    pre_emitted,
                                    seq![Event::Fault { msg: m@ }],
                                );
                                lemma_dec_part_one(Event::Fault { msg: m@ });
                                assert(dec_part(pre_emitted + seq![Event::Fault { msg: m@ }])
                                    =~= dec_part(pre_emitted));
                            }
                            self.emitted = Ghost(
                                self.emitted@ + seq![Event::Fault { msg: m@ }],
                            );
                            return Err(Error::IoError(m));
                        },
                    }
                },
            }
        }
    }

    /// A dry read arrived while the buffer cannot decide anything: report
    /// the end, flushing a trailing incomplete encoding as invalid first.
    fn settle_dry(&mut self) -> (r: Result<char, Error>)
        requires
            old(self).wf(),
            utf8_step(old(self).undecoded()) is Incomplete,
        ensures
            final(self).wf(),
            final(self).events() == old(self).events() + seq![event_of(r)],
            final(self).byte_script() == old(self).byte_script().push(Seq::<u8>::empty()),
            final(self).budget() == old(self).budget(),
            final(self).pending_bytes() <= old(self).pending_bytes(),
            r is Err,
            old(self).pending_bytes() == 0 ==> r == Err::<char, Error>(Error::End),
            old(self).pending_bytes() > 0 ==> (match r {
                Err(Error::InvalidBytes(bs)) => {
                    &&& bs@ == old(self).undecoded()
                    &&& final(self).pending_bytes() == 0
                },
                _ => false,
            }),
    {
        let ghost pre_emitted = self.emitted@;
        let ghost pre_buf = self.buf@;
        let ghost pre_script = self.script@;
        proof {
            assert(decoded_rest(pre_buf) == pre_buf);
            assert(decode_events(pre_buf) =~= Seq::<Event>::empty());
            let script2 = pre_script.push(Seq::<u8>::empty());
            assert(script2.drop_last() =~= pre_script);
            assert(script2.last() =~= Seq::<u8>::empty());
            assert(pre_script.is_prefix_of(script2));
        }
        if self.buf.len() == 0 {
            proof {
                let script2 = pre_script.push(Seq::<u8>::empty());
                assert(feed(script2) == feed(pre_script));
                lemma_dec_part_append(pre_emitted, seq![Event::Stop]);
                lemma_dec_part_one(Event::Stop);
                assert(dec_part(pre_emitted + seq![Event::Stop]) =~= dec_part(pre_emitted));
            }
            self.script = Ghost(self.script@.push(Seq::empty()));
            self.emitted = Ghost(self.emitted@ + seq![Event::Stop]);
            Err(Error::End)
        } else {
            let mut bad: Vec<u8> = Vec::new();
            let n = self.buf.len();
            let mut i: usize = 0;
            while i < n
                invariant
                    i <= n == self.buf@.len(),
                    bad@ == self.buf@.take(i as int),
                decreases n - i,
            {
                bad.push(self.buf[i]);
                i = i + 1;
                assert(bad@ =~= self.buf@.take(i as int));
            }
            assert(bad@ =~= pre_buf);
            proof {
                let ev = Event::Bad { bytes: pre_buf };
                let script2 = pre_script.push(Seq::<u8>::empty());
                assert(feed(script2).0 =~= feed(pre_script).0 + seq![ev]);
                assert(feed(script2).1 =~= Seq::<u8>::empty());
                lemma_dec_part_append(pre_emitted, seq![ev]);
                lemma_dec_part_one(ev);
                assert(decode_events(Seq::<u8>::empty()) =~= Seq::<Event>::empty());
                assert(decoded_rest(Seq::<u8>::empty()) =~= Seq::<u8>::empty());
                assert(dec_part(pre_emitted + seq![ev]) + decode_events(Seq::<u8>::empty())
                    =~= dec_part(pre_emitted) + seq![ev]);
            }
            self.script = Ghost(self.script@.push(Seq::empty()));
            self.emitted = Ghost(self.emitted@ + seq![Event::Bad { bytes: pre_buf }]);
            self.buf.clear();
            Err(Error::InvalidBytes(bad))
        }
    }
}

} // verus!
