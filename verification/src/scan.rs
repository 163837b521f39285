//! The literal-matching automaton the scanner runs over the character
//! stream.
//!
//! The automaton keeps a candidate partial match: the prefix of the sought
//! literal matched so far. A character that matches the literal at the
//! candidate's length extends the candidate; one that does not resets it to
//! empty — the mismatching character is not reconsidered as a fresh start.
//! The longest candidate that ever failed is kept, with where it began, as
//! the "closest match" diagnostic; an earlier candidate wins ties.

use vstd::prelude::*;

verus! {

/// The automaton's state after some characters: the live candidate and the
/// best failed one, each with the index where it began.
pub ghost struct ScanState {
    pub cand: Seq<char>,
    pub cand_at: int,
    pub best: Seq<char>,
    pub best_at: int,
}

/// Run the automaton for literal `s` over the characters `t`. Reaching a
/// full match is absorbing: the scanner stops pulling there.
pub open spec fn scan_fold(s: Seq<char>, t: Seq<char>) -> ScanState
    decreases t.len(),
{
    if t.len() == 0 {
        ScanState { cand: Seq::empty(), cand_at: 0, best: Seq::empty(), best_at: 0 }
    } else {
        let st = scan_fold(s, t.drop_last());
        let c = t.last();
        let i = t.len() - 1;
        if st.cand == s {
            st
        } else if st.cand.len() < s.len() && c == s[st.cand.len() as int] {
            ScanState {
                cand: st.cand.push(c),
                cand_at: if st.cand.len() == 0 {
                    i
                } else {
                    st.cand_at
                },
                best: st.best,
                best_at: st.best_at,
            }
        } else if st.cand.len() > st.best.len() {
            ScanState { cand: Seq::empty(), cand_at: 0, best: st.cand, best_at: st.cand_at }
        } else {
            ScanState { cand: Seq::empty(), cand_at: 0, best: st.best, best_at: st.best_at }
        }
    }
}

/// The literal was matched, and its match ends exactly at the end of `t`.
pub open spec fn scan_hits(s: Seq<char>, t: Seq<char>) -> bool {
    &&& t.len() > 0
    &&& scan_fold(s, t).cand == s
    &&& scan_fold(s, t.drop_last()).cand != s
}

/// The literal was never matched anywhere in `t`.
pub open spec fn no_hit(s: Seq<char>, t: Seq<char>) -> bool {
    scan_fold(s, t).cand != s
}

/// The closest-match diagnostic after scanning all of `t` without a hit: the
/// longest partial match seen, the still-live candidate included.
pub open spec fn closest_text(s: Seq<char>, t: Seq<char>) -> Seq<char> {
    let st = scan_fold(s, t);
    if st.cand.len() > st.best.len() {
        st.cand
    } else {
        st.best
    }
}

/// Where the closest match began, as an index into `t`.
pub open spec fn closest_at(s: Seq<char>, t: Seq<char>) -> int {
    let st = scan_fold(s, t);
    if st.cand.len() > st.best.len() {
        st.cand_at
    } else {
        st.best_at
    }
}

/// Shape of the automaton's state: candidates are prefixes of the literal,
/// the live candidate is the suffix of what was scanned, and the best failed
/// candidate is a proper prefix of the literal standing where it began.
pub proof fn lemma_fold_wf(s: Seq<char>, t: Seq<char>)
    requires
        s.len() > 0,
    ensures
        ({
            let st = scan_fold(s, t);
            &&& st.cand.is_prefix_of(s)
            &&& st.best.is_prefix_of(s)
            &&& st.best.len() < s.len()
            &&& (st.cand != s && st.cand.len() > 0 ==> {
                &&& 0 <= st.cand_at
                &&& st.cand_at + st.cand.len() == t.len()
                &&& st.cand == t.subrange(st.cand_at, t.len() as int)
            })
            &&& (st.best.len() > 0 ==> {
                &&& 0 <= st.best_at
                &&& st.best_at + st.best.len() <= t.len()
                &&& st.best == t.subrange(st.best_at, st.best_at + st.best.len())
            })
        }),
    decreases t.len(),
{
    if t.len() > 0 {
        lemma_fold_wf(s, t.drop_last());
        let st = scan_fold(s, t.drop_last());
        let c = t.last();
        assert(forall|i: int| 0 <= i < t.len() - 1 ==> t.drop_last()[i] == t[i]);
        let stn = scan_fold(s, t);
        if st.cand == s {
            assert(stn == st);
            if stn.best.len() > 0 {
                assert(stn.best =~= t.subrange(stn.best_at, stn.best_at + stn.best.len()));
            }
        } else if st.cand.len() < s.len() && c == s[st.cand.len() as int] {
            assert(stn.cand == st.cand.push(c));
            assert(stn.cand.is_prefix_of(s)) by {
                assert(st.cand =~= s.subrange(0, st.cand.len() as int));
                assert(stn.cand =~= s.subrange(0, stn.cand.len() as int));
            }
            if stn.cand != s {
                if st.cand.len() == 0 {
                    assert(stn.cand_at == t.len() - 1);
                    assert(stn.cand =~= t.subrange(stn.cand_at, t.len() as int));
                } else {
                    assert(stn.cand =~= t.subrange(stn.cand_at, t.len() as int));
                }
            }
            if stn.best.len() > 0 {
                assert(stn.best =~= t.subrange(stn.best_at, stn.best_at + stn.best.len()));
            }
        } else {
            if st.cand.len() >= s.len() {
                assert(st.cand =~= s);
            }
            assert(st.cand.len() < s.len());
            if stn.best.len() > 0 {
                assert(stn.best =~= t.subrange(stn.best_at, stn.best_at + stn.best.len()));
            }
        }
    }
}

/// When the scan hits, what was scanned ends with the literal itself.
pub proof fn lemma_hit_suffix(s: Seq<char>, t: Seq<char>)
    requires
        s.len() > 0,
        scan_hits(s, t),
    ensures
        t.len() >= s.len(),
        t.skip(t.len() - s.len()) == s,
{
    let st = scan_fold(s, t.drop_last());
    lemma_fold_wf(s, t.drop_last());
    assert(scan_fold(s, t).cand == st.cand.push(t.last()));
    assert(st.cand.len() == s.len() - 1);
    assert(t.skip(t.len() - s.len()) =~= s);
}

/// Once the literal has been matched, it stays matched over any extension.
pub proof fn lemma_fold_absorbing(s: Seq<char>, t: Seq<char>, ext: Seq<char>)
    requires
        scan_fold(s, t).cand == s,
    ensures
        scan_fold(s, t + ext).cand == s,
    decreases ext.len(),
{
    if ext.len() == 0 {
        assert(t + ext =~= t);
    } else {
        lemma_fold_absorbing(s, t, ext.drop_last());
        assert((t + ext).drop_last() =~= t + ext.drop_last());
        assert((t + ext).len() > 0);
    }
}

} // verus!
