//! The engines of the proof of work: how many there are, and which one is
//! next.
use crate::config::MAX_POW_THREADS;
use crate::errors::{other, ChainError, Fault};
use vstd::prelude::*;

verus! {

/// How many engines there are, given how many are asked for: at least one, at
/// most the largest number.
pub fn engine_count(asked: usize) -> (r: usize)
    ensures
        r == if asked < 1 {
            1
        } else if asked > MAX_POW_THREADS {
            MAX_POW_THREADS
        } else {
            asked
        },
{
    if asked < 1 {
        1
    } else if asked > MAX_POW_THREADS {
        MAX_POW_THREADS
    } else {
        asked
    }
}

/// The engines, used in turn.
pub struct PowEngine {
    size: usize,
    idx: usize,
}

impl PowEngine {
    /// How many engines there are.
    pub closed spec fn size(&self) -> usize {
        self.size
    }

    /// How often an engine was used, counted around.
    pub closed spec fn uses(&self) -> usize {
        self.idx
    }

    /// A number of engines, none of them used.
    pub fn new(size: usize) -> (r: Self)
        ensures
            r.size() == size,
            r.uses() == 0,
    {
        PowEngine { size, idx: 0 }
    }

    /// The engine whose turn it is.
    pub fn next(&mut self) -> (r: Result<usize, ChainError>)
        ensures
            final(self).size() == old(self).size(),
            match r {
                Ok(i) => {
                    &&& old(self).size() > 0
                    &&& i == old(self).uses() as int % old(self).size() as int
                    &&& final(self).uses() == old(self).uses().wrapping_add(1)
                },
                Err(e) => {
                    &&& old(self).size() == 0
                    &&& e@ == Fault::Other("RandomX pool empty"@)
                    &&& final(self).uses() == old(self).uses()
                },
            },
    {
        if self.size == 0 {
            return Err(other("RandomX pool empty"));
        }
        let i: usize = self.idx % self.size;
        self.idx = self.idx.wrapping_add(1);
        Ok(i)
    }
}

} // verus!
