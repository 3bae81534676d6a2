//! The published candidate set: replaced whole by the cycle, copied out by readers.
use crate::aggregate::ranked;
use crate::model::PositionCandidate;
use vstd::prelude::*;

verus! {

/// Holds the candidate set of the last cycle that published one.
pub struct CandidateStore {
    current: Vec<PositionCandidate>,
}

impl CandidateStore {
    /// The candidates held, in rank order.
    pub closed spec fn view(&self) -> Seq<PositionCandidate> {
        self.current@
    }

    /// An empty store: before the first cycle readers get an empty list.
    pub fn new() -> (r: CandidateStore)
        ensures
            r.view().len() == 0,
    {
        CandidateStore { current: Vec::new() }
    }

    /// Publishes `set` in place of the held set, which is handed back.
    pub fn replace(&mut self, set: Vec<PositionCandidate>) -> (r: Vec<PositionCandidate>)
        ensures
            final(self).view() == set@,
            r@ == old(self).view(),
    {
        let mut held = set;
        std::mem::swap(&mut self.current, &mut held);
        held
    }

    /// A copy of the first `n` candidates held (all of them where fewer are held).
    pub fn read_top(&self, n: usize) -> (r: Vec<PositionCandidate>)
        ensures
            r@ == self.view().take(if n < self.view().len() {
                n as int
            } else {
                self.view().len() as int
            }),
            ranked(self.view()) ==> ranked(r@),
    {
        let end = if n < self.current.len() {
            n
        } else {
            self.current.len()
        };
        let mut out: Vec<PositionCandidate> = Vec::new();
        let mut i: usize = 0;
        while i < end
            invariant
                end <= self.current@.len(),
                i <= end,
                out@ == self.current@.take(i as int),
            decreases end - i,
        {
            out.push(self.current[i].duplicate());
            assert(out@ =~= self.current@.take(i + 1));
            i = i + 1;
        }
        out
    }
}

} // verus!
