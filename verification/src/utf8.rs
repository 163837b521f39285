//! The byte-level model of incremental UTF-8 decoding.
//!
//! A byte sequence is consumed from the front, one step at a time. Each step
//! either yields a decoded scalar, rejects a maximal invalid prefix (the same
//! spans that Rust's standard UTF-8 validation reports), or asks for more
//! bytes because the sequence ends in a proper prefix of a valid encoding.

use vstd::prelude::*;

verus! {

use vstd::utf8::{
    codepoint_width_2, codepoint_width_3, codepoint_width_4, is_continuation_byte, is_scalar,
};

/// What examining the front of a byte sequence yields.
pub ghost enum Utf8Step {
    /// The first `len` bytes encode the Unicode scalar `code`.
    Scalar { code: u32, len: int },
    /// The first `len` bytes form a maximal invalid sequence.
    Malformed { len: int },
    /// The bytes so far are a proper prefix of some valid encoding.
    Incomplete,
}

/// A one-byte encoding: 0xxxxxxx.
pub open spec fn is_lead_1(b: u8) -> bool {
    b <= 0x7f
}

/// A leading byte of a two-byte encoding that is not overlong.
pub open spec fn is_lead_2(b: u8) -> bool {
    0xc2 <= b <= 0xdf
}

/// A leading byte of a three-byte encoding.
pub open spec fn is_lead_3(b: u8) -> bool {
    0xe0 <= b <= 0xef
}

/// A leading byte of a four-byte encoding of a scalar at most 0x10ffff.
pub open spec fn is_lead_4(b: u8) -> bool {
    0xf0 <= b <= 0xf4
}

/// The range the second byte must lie in, given a three-byte leading byte:
/// 0xe0 excludes overlong encodings, 0xed excludes surrogates.
pub open spec fn second_ok_3(b0: u8, b1: u8) -> bool {
    if b0 == 0xe0 {
        0xa0 <= b1 <= 0xbf
    } else if b0 == 0xed {
        0x80 <= b1 <= 0x9f
    } else {
        is_continuation_byte(b1)
    }
}

/// The range the second byte must lie in, given a four-byte leading byte:
/// 0xf0 excludes overlong encodings, 0xf4 excludes scalars above 0x10ffff.
pub open spec fn second_ok_4(b0: u8, b1: u8) -> bool {
    if b0 == 0xf0 {
        0x90 <= b1 <= 0xbf
    } else if b0 == 0xf4 {
        0x80 <= b1 <= 0x8f
    } else {
        is_continuation_byte(b1)
    }
}

/// One decoding step on the front of `b`. Invalid spans follow the maximal
/// subpart convention: the bytes rejected are exactly those that could no
/// longer begin a valid encoding, and nothing after them.
pub open spec fn utf8_step(b: Seq<u8>) -> Utf8Step {
    if b.len() == 0 {
        Utf8Step::Incomplete
    } else {
        let b0 = b[0];
        if is_lead_1(b0) {
            Utf8Step::Scalar { code: b0 as u32, len: 1 }
        } else if is_lead_2(b0) {
            if b.len() < 2 {
                Utf8Step::Incomplete
            } else if is_continuation_byte(b[1]) {
                Utf8Step::Scalar { code: codepoint_width_2(b0, b[1]), len: 2 }
            } else {
                Utf8Step::Malformed { len: 1 }
            }
        } else if is_lead_3(b0) {
            if b.len() < 2 {
                Utf8Step::Incomplete
            } else if !second_ok_3(b0, b[1]) {
                Utf8Step::Malformed { len: 1 }
            } else if b.len() < 3 {
                Utf8Step::Incomplete
            } else if is_continuation_byte(b[2]) {
                Utf8Step::Scalar { code: codepoint_width_3(b0, b[1], b[2]), len: 3 }
            } else {
                Utf8Step::Malformed { len: 2 }
            }
        } else if is_lead_4(b0) {
            if b.len() < 2 {
                Utf8Step::Incomplete
            } else if !second_ok_4(b0, b[1]) {
                Utf8Step::Malformed { len: 1 }
            } else if b.len() < 3 {
                Utf8Step::Incomplete
            } else if !is_continuation_byte(b[2]) {
                Utf8Step::Malformed { len: 2 }
            } else if b.len() < 4 {
                Utf8Step::Incomplete
            } else if is_continuation_byte(b[3]) {
                Utf8Step::Scalar { code: codepoint_width_4(b0, b[1], b[2], b[3]), len: 4 }
            } else {
                Utf8Step::Malformed { len: 3 }
            }
        } else {
            Utf8Step::Malformed { len: 1 }
        }
    }
}

/// Every decided step consumes at least one byte and no more than are there.
pub proof fn lemma_step_len(b: Seq<u8>)
    ensures
        match utf8_step(b) {
            Utf8Step::Scalar { code, len } => 1 <= len <= b.len(),
            Utf8Step::Malformed { len } => 1 <= len <= b.len(),
            Utf8Step::Incomplete => true,
        },
{
}

/// A decided step yields a Unicode scalar value.
pub proof fn lemma_step_scalar(b: Seq<u8>)
    ensures
        match utf8_step(b) {
            Utf8Step::Scalar { code, len } => is_scalar(code),
            _ => true,
        },
{
    if b.len() > 0 {
        let b0 = b[0];
        if is_lead_1(b0) {
        } else if is_lead_2(b0) && b.len() >= 2 && is_continuation_byte(b[1]) {
            let b1 = b[1];
            assert(0xc2 <= b0 <= 0xdf && 0x80 <= b1 <= 0xbf ==> 0x80 <= (((b0 & 0x1f) as u32)
                << 6) | ((b1 & 0x3f) as u32) <= 0x7ff) by (bit_vector);
        } else if is_lead_3(b0) && b.len() >= 3 && second_ok_3(b0, b[1]) && is_continuation_byte(
            b[2],
        ) {
            let b1 = b[1];
            let b2 = b[2];
            assert((0xe0 <= b0 <= 0xef && 0x80 <= b1 <= 0xbf && 0x80 <= b2 <= 0xbf && (b0 == 0xe0
                ==> 0xa0 <= b1) && (b0 == 0xed ==> b1 <= 0x9f)) ==> {
                let v = (((b0 & 0x0f) as u32) << 12) | (((b1 & 0x3f) as u32) << 6) | ((b2
                    & 0x3f) as u32);
                0x800 <= v <= 0xffff && !(0xd800 <= v <= 0xdfff)
            }) by (bit_vector);
        } else if is_lead_4(b0) && b.len() >= 4 && second_ok_4(b0, b[1]) && is_continuation_byte(
            b[2],
        ) && is_continuation_byte(b[3]) {
            let b1 = b[1];
            let b2 = b[2];
            let b3 = b[3];
            assert((0xf0 <= b0 <= 0xf4 && 0x80 <= b1 <= 0xbf && 0x80 <= b2 <= 0xbf && 0x80 <= b3
                <= 0xbf && (b0 == 0xf0 ==> 0x90 <= b1) && (b0 == 0xf4 ==> b1 <= 0x8f)) ==> {
                let v = (((b0 & 0x07) as u32) << 18) | (((b1 & 0x3f) as u32) << 12) | (((b2
                    & 0x3f) as u32) << 6) | ((b3 & 0x3f) as u32);
                0x10000 <= v <= 0x10ffff
            }) by (bit_vector);
        }
    }
}

/// A decided step is decided by the bytes it examined alone: appending more
/// bytes never changes it.
pub proof fn lemma_step_stable(b: Seq<u8>, ext: Seq<u8>)
    requires
        !(utf8_step(b) is Incomplete),
    ensures
        utf8_step(b + ext) == utf8_step(b),
{
    assert((b + ext).len() == b.len() + ext.len());
    assert(forall|i: int| 0 <= i < b.len() ==> (b + ext)[i] == b[i]);
}

/// One observable event of the decoded stream. Decoding bytes yields only
/// `Ch` (a character) and `Bad` (a maximal invalid byte span); a reader over
/// a live source additionally observes `Fault` (a read failure) and `Stop`
/// (no data available now).
pub ghost enum Event {
    Ch { c: char },
    Bad { bytes: Seq<u8> },
    Fault { msg: Seq<char> },
    Stop,
}

/// All events that the bytes decide on their own, stopping at a trailing
/// proper prefix of a valid encoding.
pub open spec fn decode_events(b: Seq<u8>) -> Seq<Event>
    decreases b.len(),
    via decode_events_decreases
{
    match utf8_step(b) {
        Utf8Step::Scalar { code, len } => seq![Event::Ch { c: code as char }] + decode_events(
            b.skip(len),
        ),
        Utf8Step::Malformed { len } => seq![Event::Bad { bytes: b.take(len) }] + decode_events(
            b.skip(len),
        ),
        Utf8Step::Incomplete => seq![],
    }
}

#[via_fn]
proof fn decode_events_decreases(b: Seq<u8>) {
    lemma_step_len(b);
}

/// The trailing bytes that `decode_events` left undecided.
pub open spec fn decoded_rest(b: Seq<u8>) -> Seq<u8>
    decreases b.len(),
    via decoded_rest_decreases
{
    match utf8_step(b) {
        Utf8Step::Scalar { code, len } => decoded_rest(b.skip(len)),
        Utf8Step::Malformed { len } => decoded_rest(b.skip(len)),
        Utf8Step::Incomplete => b,
    }
}

#[via_fn]
proof fn decoded_rest_decreases(b: Seq<u8>) {
    lemma_step_len(b);
}


/// Decoding is incremental: the events of `a + c` are the events of `a`
/// followed by the events of `a`'s undecided tail joined with `c`. This is
/// what makes decoding invariant under how the bytes are chunked.
pub proof fn lemma_decode_append(a: Seq<u8>, c: Seq<u8>)
    ensures
        decode_events(a + c) == decode_events(a) + decode_events(decoded_rest(a) + c),
        decoded_rest(a + c) == decoded_rest(decoded_rest(a) + c),
    decreases a.len(),
{
    lemma_step_len(a);
    match utf8_step(a) {
        Utf8Step::Incomplete => {
            assert(decoded_rest(a) == a);
            assert(decode_events(a) == Seq::<Event>::empty());
            assert(decode_events(a + c) == decode_events(a) + decode_events(a + c));
        },
        Utf8Step::Scalar { code, len } => {
            lemma_step_stable(a, c);
            assert((a + c).skip(len) == a.skip(len) + c);
            lemma_decode_append(a.skip(len), c);
            assert(decode_events(a + c) == seq![Event::Ch { c: code as char }] + decode_events(
                (a + c).skip(len),
            ));
            assert(decode_events(a) + decode_events(decoded_rest(a) + c) == seq![
                Event::Ch { c: code as char },
            ] + (decode_events(a.skip(len)) + decode_events(decoded_rest(a.skip(len)) + c)));
        },
        Utf8Step::Malformed { len } => {
            lemma_step_stable(a, c);
            assert((a + c).take(len) == a.take(len));
            assert((a + c).skip(len) == a.skip(len) + c);
            lemma_decode_append(a.skip(len), c);
            assert(decode_events(a + c) == seq![Event::Bad { bytes: a.take(len) }]
                + decode_events((a + c).skip(len)));
            assert(decode_events(a) + decode_events(decoded_rest(a) + c) == seq![
                Event::Bad { bytes: a.take(len) },
            ] + (decode_events(a.skip(len)) + decode_events(decoded_rest(a.skip(len)) + c)));
        },
    }
}

/// The decided form of one decoding step, as executable data.
pub enum FrontStep {
    /// The first `len` bytes encode the character `c`.
    Got { c: char, len: usize },
    /// The first `len` bytes form a maximal invalid sequence.
    Malformed { len: usize },
    /// More bytes are needed before anything is decided.
    Incomplete,
}

/// Relies on char::from_u32: for a Unicode scalar value it returns the
/// character with exactly that value.
#[verifier::external_body]
fn char_of_u32(v: u32) -> (c: char)
    requires
        is_scalar(v),
    ensures
        c as u32 == v,
{
    char::from_u32(v).unwrap()
}

/// Decide what the front of `v` holds, exactly as `utf8_step` says.
pub fn decode_front(v: &Vec<u8>) -> (r: FrontStep)
    ensures
        match utf8_step(v@) {
            Utf8Step::Scalar { code, len } => r == (FrontStep::Got {
                c: code as char,
                len: len as usize,
            }),
            Utf8Step::Malformed { len } => r == (FrontStep::Malformed { len: len as usize }),
            Utf8Step::Incomplete => r == FrontStep::Incomplete,
        },
{
    proof {
        lemma_step_scalar(v@);
    }
    if v.len() == 0 {
        return FrontStep::Incomplete;
    }
    let b0 = v[0];
    if b0 <= 0x7f {
        let c = char_of_u32(b0 as u32);
        proof {
            vstd::utf8::char_u32_cast(c, b0 as u32);
        }
        FrontStep::Got { c, len: 1 }
    } else if 0xc2 <= b0 && b0 <= 0xdf {
        if v.len() < 2 {
            FrontStep::Incomplete
        } else {
            let b1 = v[1];
            if 0x80 <= b1 && b1 <= 0xbf {
                let code: u32 = (((b0 & 0x1f) as u32) << 6) | ((b1 & 0x3f) as u32);
                let c = char_of_u32(code);
                proof {
                    vstd::utf8::char_u32_cast(c, code);
                }
                FrontStep::Got { c, len: 2 }
            } else {
                FrontStep::Malformed { len: 1 }
            }
        }
    } else if 0xe0 <= b0 && b0 <= 0xef {
        if v.len() < 2 {
            FrontStep::Incomplete
        } else {
            let b1 = v[1];
            let lo: u8 = if b0 == 0xe0 {
                0xa0
            } else {
                0x80
            };
            let hi: u8 = if b0 == 0xed {
                0x9f
            } else {
                0xbf
            };
            if !(lo <= b1 && b1 <= hi) {
                FrontStep::Malformed { len: 1 }
            } else if v.len() < 3 {
                FrontStep::Incomplete
            } else {
                let b2 = v[2];
                if 0x80 <= b2 && b2 <= 0xbf {
                    let code: u32 = (((b0 & 0x0f) as u32) << 12) | (((b1 & 0x3f) as u32) << 6) | ((
                    b2 & 0x3f) as u32);
                    let c = char_of_u32(code);
                    proof {
                        vstd::utf8::char_u32_cast(c, code);
                    }
                    FrontStep::Got { c, len: 3 }
                } else {
                    FrontStep::Malformed { len: 2 }
                }
            }
        }
    } else if 0xf0 <= b0 && b0 <= 0xf4 {
        if v.len() < 2 {
            FrontStep::Incomplete
        } else {
            let b1 = v[1];
            let lo: u8 = if b0 == 0xf0 {
                0x90
            } else {
                0x80
            };
            let hi: u8 = if b0 == 0xf4 {
                0x8f
            } else {
                0xbf
            };
            if !(lo <= b1 && b1 <= hi) {
                FrontStep::Malformed { len: 1 }
            } else if v.len() < 3 {
                FrontStep::Incomplete
            } else if !(0x80 <= v[2] && v[2] <= 0xbf) {
                FrontStep::Malformed { len: 2 }
            } else if v.len() < 4 {
                FrontStep::Incomplete
            } else {
                let b3 = v[3];
                if 0x80 <= b3 && b3 <= 0xbf {
                    let b2 = v[2];
                    let code: u32 = (((b0 & 0x07) as u32) << 18) | (((b1 & 0x3f) as u32) << 12) | ((
                    (b2 & 0x3f) as u32) << 6) | ((b3 & 0x3f) as u32);
                    let c = char_of_u32(code);
                    proof {
                        vstd::utf8::char_u32_cast(c, code);
                    }
                    FrontStep::Got { c, len: 4 }
                } else {
                    FrontStep::Malformed { len: 3 }
                }
            }
        }
    } else {
        FrontStep::Malformed { len: 1 }
    }
}

/// Remove the first `n` bytes of `v`, keeping the rest in order.
pub fn vec_drop_front(v: &mut Vec<u8>, n: usize)
    requires
        n <= old(v).len(),
    ensures
        final(v)@ == old(v)@.skip(n as int),
{
    let mut k: usize = 0;
    while k < n
        invariant
            k <= n <= old(v).len(),
            v@ == old(v)@.skip(k as int),
        decreases n - k,
    {
        v.remove(0);
        k = k + 1;
        assert(v@ =~= old(v)@.skip(k as int));
    }
}

/// A byte that can never begin an encoding, wherever it stands.
pub open spec fn is_standalone_bad(b: u8) -> bool {
    !is_lead_1(b) && !is_lead_2(b) && !is_lead_3(b) && !is_lead_4(b)
}

/// A byte that can never begin an encoding is rejected as exactly one
/// invalid span of itself, and decoding resumes on whatever follows.
pub proof fn lemma_lone_invalid_byte(b: u8, rest: Seq<u8>)
    requires
        is_standalone_bad(b),
    ensures
        decode_events(seq![b] + rest) == seq![Event::Bad { bytes: seq![b] }] + decode_events(
            rest,
        ),
        decoded_rest(seq![b] + rest) == decoded_rest(rest),
{
    let whole = seq![b] + rest;
    assert(whole[0] == b);
    assert(utf8_step(whole) == (Utf8Step::Malformed { len: 1 }));
    assert(whole.take(1) =~= seq![b]);
    assert(whole.skip(1) =~= rest);
}

} // verus!
