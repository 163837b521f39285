//! Byte sources a decoder can pull from.
//!
//! A source hands out chunks of bytes on demand. `End` (and an empty chunk)
//! means no data is available right now, not that none will ever come: a
//! growing file or a pipe may produce more later. Every source carries a
//! `budget`, an upper bound on how many more times it can hand out data; it
//! is what makes every loop that drains a source provably terminating.

use vstd::prelude::*;

verus! {

/// What one read from a byte source yields.
pub enum ReadOutcome {
    /// Some bytes. An empty chunk means the same as `End`.
    Data(Vec<u8>),
    /// No data available now; the source stays usable.
    End,
    /// The read itself failed, with a message describing the cause.
    Failure(String),
}

/// A pull-based byte source.
pub trait ByteSource: Sized {
    /// An upper bound on how many more times this source can hand out data.
    spec fn budget(&self) -> nat;

    /// Hand out the next chunk of bytes, if any.
    fn read_some(&mut self) -> (r: ReadOutcome)
        ensures
            final(self).budget() <= old(self).budget(),
            match r {
                ReadOutcome::Data(b) => b@.len() > 0 ==> final(self).budget() < old(
                    self,
                ).budget(),
                _ => true,
            },
    ;
}

/// A source that replays a fixed script of read outcomes, then reports `End`
/// forever. It stands in for a pipe in tests: the script can interleave data,
/// dry spells and failures in any order.
pub struct ScriptedSource {
    events: Vec<ReadOutcome>,
}

impl ScriptedSource {
    /// The outcomes still to be replayed, front first.
    pub closed spec fn script(&self) -> Seq<ReadOutcome> {
        self.events@
    }

    /// A source that will replay `events` front to back.
    pub fn new(events: Vec<ReadOutcome>) -> (r: ScriptedSource)
        ensures
            r.budget() == events@.len(),
            r.script() == events@,
    {
        ScriptedSource { events }
    }
}

impl ByteSource for ScriptedSource {
    closed spec fn budget(&self) -> nat {
        self.events@.len()
    }

    fn read_some(&mut self) -> (r: ReadOutcome)
        ensures
            final(self).budget() <= old(self).budget(),
            match r {
                ReadOutcome::Data(b) => b@.len() > 0 ==> final(self).budget() < old(
                    self,
                ).budget(),
                _ => true,
            },
            old(self).script().len() == 0 ==> r == ReadOutcome::End && final(self).script()
                == old(self).script(),
            old(self).script().len() > 0 ==> r == old(self).script()[0] && final(self).script()
                == old(self).script().skip(1),
    {
        if self.events.len() == 0 {
            ReadOutcome::End
        } else {
            let r = self.events.remove(0);
            proof {
                assert(self.events@ =~= old(self).events@.skip(1));
            }
            r
        }
    }
}

} // verus!
