//! Character-level text helpers: the whitespace-collapsing fold that label
//! text goes through, and saturating position counters.

use vstd::prelude::*;

verus! {

/// The Unicode white-space characters (the White_Space property).
pub open spec fn is_ws(c: char) -> bool {
    ||| c == ' '
    ||| ('\u{09}' <= c <= '\u{0d}')
    ||| c == '\u{85}'
    ||| c == '\u{a0}'
    ||| c == '\u{1680}'
    ||| ('\u{2000}' <= c <= '\u{200a}')
    ||| c == '\u{2028}'
    ||| c == '\u{2029}'
    ||| c == '\u{202f}'
    ||| c == '\u{205f}'
    ||| c == '\u{3000}'
}

/// Whether `c` is a Unicode white-space character.
pub fn is_whitespace_char(c: char) -> (r: bool)
    ensures
        r == is_ws(c),
{
    c == ' ' || ('\u{09}' <= c && c <= '\u{0d}') || c == '\u{85}' || c == '\u{a0}' || c
        == '\u{1680}' || ('\u{2000}' <= c && c <= '\u{200a}') || c == '\u{2028}' || c == '\u{2029}'
        || c == '\u{202f}' || c == '\u{205f}' || c == '\u{3000}'
}

/// One step of the whitespace-collapsing fold: white space becomes one ASCII
/// space, and never two in a row.
pub open spec fn collapse_step(t: Seq<char>, c: char) -> Seq<char> {
    if is_ws(c) {
        if t.len() > 0 && is_ws(t.last()) {
            t
        } else {
            t.push(' ')
        }
    } else {
        t.push(c)
    }
}

/// Append `s` to `t`, converting white space to U+0020 and collapsing runs.
pub open spec fn push_collapse(t: Seq<char>, s: Seq<char>) -> Seq<char>
    decreases s.len(),
{
    if s.len() == 0 {
        t
    } else {
        collapse_step(push_collapse(t, s.drop_last()), s.last())
    }
}

/// `s` with every white-space run collapsed to one ASCII space.
pub open spec fn collapse_ws(s: Seq<char>) -> Seq<char> {
    push_collapse(Seq::empty(), s)
}

/// The fold composes: pushing `a` then `b` is pushing `a + b`.
pub proof fn lemma_push_collapse_append(t: Seq<char>, a: Seq<char>, b: Seq<char>)
    ensures
        push_collapse(push_collapse(t, a), b) == push_collapse(t, a + b),
    decreases b.len(),
{
    if b.len() == 0 {
        assert(a + b =~= a);
    } else {
        lemma_push_collapse_append(t, a, b.drop_last());
        assert((a + b).drop_last() =~= a + b.drop_last());
        assert((a + b).last() == b.last());
    }
}

/// Append one character to a collapsed accumulator, collapsing white space.
pub fn collapse_push(target: &mut Vec<char>, c: char)
    ensures
        final(target)@ == collapse_step(old(target)@, c),
{
    if is_whitespace_char(c) {
        let n = target.len();
        if n > 0 && is_whitespace_char(target[n - 1]) {
        } else {
            target.push(' ');
        }
    } else {
        target.push(c);
    }
}

/// Appends `s` to `target`, converting white-space characters to U+0020
/// SPACE. Consecutive white space is collapsed.
pub fn push_collapse_whitespace(target: &mut Vec<char>, s: &Vec<char>)
    ensures
        final(target)@ == push_collapse(old(target)@, s@),
{
    let ghost t0 = target@;
    let mut i: usize = 0;
    while i < s.len()
        invariant
            i <= s@.len(),
            target@ == push_collapse(t0, s@.take(i as int)),
        decreases s@.len() - i,
    {
        collapse_push(target, s[i]);
        i = i + 1;
        assert(s@.take(i as int).drop_last() =~= s@.take(i as int - 1));
        assert(s@.take(i as int).last() == s@[i as int - 1]);
    }
    assert(s@.take(s@.len() as int) =~= s@);
}

/// Relies on String's FromIterator over characters: the resulting string
/// holds exactly the given characters in order.
#[verifier::external_body]
pub(crate) fn string_from_chars(v: &Vec<char>) -> (s: String)
    ensures
        s@ == v@,
{
    v.iter().collect()
}

/// `n` clamped to what a `usize` can hold.
pub open spec fn sat(n: nat) -> nat {
    if n > usize::MAX as nat {
        usize::MAX as nat
    } else {
        n
    }
}

/// Add one, saturating at `usize::MAX`.
pub fn sat_inc(x: usize) -> (r: usize)
    ensures
        r as nat == sat((x + 1) as nat),
{
    if x == usize::MAX {
        x
    } else {
        x + 1
    }
}

/// How many line breaks `t` holds.
pub open spec fn nl_count(t: Seq<char>) -> nat
    decreases t.len(),
{
    if t.len() == 0 {
        0
    } else {
        nl_count(t.drop_last()) + (if t.last() == '\n' {
            1nat
        } else {
            0nat
        })
    }
}

/// How many characters follow the last line break of `t`.
pub open spec fn col_count(t: Seq<char>) -> nat
    decreases t.len(),
{
    if t.len() == 0 {
        0
    } else if t.last() == '\n' {
        0
    } else {
        col_count(t.drop_last()) + 1
    }
}

} // verus!
