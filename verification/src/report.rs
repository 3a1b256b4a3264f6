//! Run statistics.
//!
//! The counters behind the human-readable run report: processed and
//! skipped units and bytes, the smallest and largest unit, and the ids
//! the run started and ended with.  Formatting, timing and the report
//! file live with the caller.

use vstd::prelude::*;

verus! {

/// The counters of one run.  They only move in evaluation mode.
pub struct RunStats {
    eval: bool,
    start_id: u32,
    end_id: u32,
    sum_bytes: usize,
    min_bytes: usize,
    max_bytes: usize,
    skip_bytes: usize,
    skip_cnt: usize,
    process_cnt: usize,
}

impl RunStats {
    /// Whether the counters move, for contracts.
    pub closed spec fn spec_eval(&self) -> bool {
        self.eval
    }

    /// The id the run started with, for contracts.
    pub closed spec fn spec_start_id(&self) -> u32 {
        self.start_id
    }

    /// The id the run ended with, for contracts.
    pub closed spec fn spec_end_id(&self) -> u32 {
        self.end_id
    }

    /// The total processed bytes, for contracts.
    pub closed spec fn spec_sum_bytes(&self) -> usize {
        self.sum_bytes
    }

    /// The smallest processed unit, for contracts.
    pub closed spec fn spec_min_bytes(&self) -> usize {
        self.min_bytes
    }

    /// The largest processed unit, for contracts.
    pub closed spec fn spec_max_bytes(&self) -> usize {
        self.max_bytes
    }

    /// The total skipped bytes, for contracts.
    pub closed spec fn spec_skip_bytes(&self) -> usize {
        self.skip_bytes
    }

    /// The count of skipped units, for contracts.
    pub closed spec fn spec_skip_cnt(&self) -> usize {
        self.skip_cnt
    }

    /// The count of processed units, for contracts.
    pub closed spec fn spec_process_cnt(&self) -> usize {
        self.process_cnt
    }

    /// Fresh counters, moving only when `eval` is set.
    pub fn new(eval: bool) -> (r: Self)
        ensures
            r.spec_eval() == eval,
            r.spec_start_id() == 0,
            r.spec_end_id() == 0,
            r.spec_sum_bytes() == 0,
            r.spec_min_bytes() == 0,
            r.spec_max_bytes() == 0,
            r.spec_skip_bytes() == 0,
            r.spec_skip_cnt() == 0,
            r.spec_process_cnt() == 0,
    {
        RunStats {
            eval,
            start_id: 0,
            end_id: 0,
            sum_bytes: 0,
            min_bytes: 0,
            max_bytes: 0,
            skip_bytes: 0,
            skip_cnt: 0,
            process_cnt: 0,
        }
    }

    /// Records the id the run starts with.
    pub fn start(&mut self, id: u32)
        ensures
            final (self).spec_eval() == old(self).spec_eval(),
            old(self).spec_eval() ==> final (self).spec_start_id() == id,
            final (self).spec_end_id() == old(self).spec_end_id(),
            !old(self).spec_eval() ==> *final (self) == *old(self),
            final (self).spec_sum_bytes() == old(self).spec_sum_bytes(),
            final (self).spec_process_cnt() == old(self).spec_process_cnt(),
            final (self).spec_skip_cnt() == old(self).spec_skip_cnt(),
    {
        if self.eval {
            self.start_id = id;
        }
    }

    /// Records the id the run ends with.
    pub fn end(&mut self, id: u32)
        ensures
            final (self).spec_eval() == old(self).spec_eval(),
            old(self).spec_eval() ==> final (self).spec_end_id() == id,
            !old(self).spec_eval() ==> *final (self) == *old(self),
            final (self).spec_sum_bytes() == old(self).spec_sum_bytes(),
            final (self).spec_process_cnt() == old(self).spec_process_cnt(),
            final (self).spec_skip_cnt() == old(self).spec_skip_cnt(),
    {
        if self.eval {
            self.end_id = id;
        }
    }

    /// Counts one processed unit: the total grows by its size, the
    /// largest unit is tracked, and the smallest is tracked for any unit
    /// that does not beat the largest.
    pub fn process(&mut self, bytes: usize)
        requires
            old(self).spec_sum_bytes() + bytes <= usize::MAX,
            old(self).spec_process_cnt() < usize::MAX,
        ensures
            final (self).spec_eval() == old(self).spec_eval(),
            !old(self).spec_eval() ==> *final (self) == *old(self),
            old(self).spec_eval() ==> {
                &&& final (self).spec_sum_bytes() == old(self).spec_sum_bytes() + bytes
                &&& final (self).spec_process_cnt() == old(self).spec_process_cnt() + 1
                &&& final (self).spec_max_bytes() == if bytes > old(self).spec_max_bytes() {
                    bytes
                } else {
                    old(self).spec_max_bytes()
                }
                &&& final (self).spec_min_bytes() == if bytes > old(self).spec_max_bytes() {
                    old(self).spec_min_bytes()
                } else if bytes < old(self).spec_min_bytes() || old(self).spec_min_bytes() == 0 {
                    bytes
                } else {
                    old(self).spec_min_bytes()
                }
                &&& final (self).spec_skip_bytes() == old(self).spec_skip_bytes()
                &&& final (self).spec_skip_cnt() == old(self).spec_skip_cnt()
            },
    {
        if self.eval {
            if bytes > self.max_bytes {
                self.max_bytes = bytes;
            } else if bytes < self.min_bytes || self.min_bytes == 0 {
                self.min_bytes = bytes;
            }
            self.sum_bytes = self.sum_bytes + bytes;
            self.process_cnt = self.process_cnt + 1;
        }
    }

    /// Counts one skipped unit.
    pub fn skip(&mut self, bytes: usize)
        requires
            old(self).spec_skip_bytes() + bytes <= usize::MAX,
            old(self).spec_skip_cnt() < usize::MAX,
        ensures
            final (self).spec_eval() == old(self).spec_eval(),
            !old(self).spec_eval() ==> *final (self) == *old(self),
            old(self).spec_eval() ==> {
                &&& final (self).spec_skip_bytes() == old(self).spec_skip_bytes() + bytes
                &&& final (self).spec_skip_cnt() == old(self).spec_skip_cnt() + 1
                &&& final (self).spec_sum_bytes() == old(self).spec_sum_bytes()
                &&& final (self).spec_process_cnt() == old(self).spec_process_cnt()
            },
    {
        if self.eval {
            self.skip_bytes = self.skip_bytes + bytes;
            self.skip_cnt = self.skip_cnt + 1;
        }
    }

    /// The counters a report needs, in one call: start id, end id, total
    /// bytes, smallest, largest, skipped bytes, skipped count, processed
    /// count.
    pub fn snapshot(&self) -> (r: (u32, u32, usize, usize, usize, usize, usize, usize))
        ensures
            r.0 == self.spec_start_id(),
            r.1 == self.spec_end_id(),
            r.2 == self.spec_sum_bytes(),
            r.3 == self.spec_min_bytes(),
            r.4 == self.spec_max_bytes(),
            r.5 == self.spec_skip_bytes(),
            r.6 == self.spec_skip_cnt(),
            r.7 == self.spec_process_cnt(),
    {
        (
            self.start_id,
            self.end_id,
            self.sum_bytes,
            self.min_bytes,
            self.max_bytes,
            self.skip_bytes,
            self.skip_cnt,
            self.process_cnt,
        )
    }
}

} // verus!
