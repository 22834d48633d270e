//! What the sweep over the periods keeps track of: which periods it covers,
//! and which of them have been searched to the end.

use vstd::prelude::*;

verus! {

/// The number of periods that a completion table has a slot for.
pub const TABLE_SIZE: usize = 64;

/// The least period that the search accepts.
pub const MIN_PERIOD: usize = 3;

/// The greatest period that the search accepts: its values have to fit in a
/// mask of 64 bits, next to the unused value 0.
pub const MAX_PERIOD: usize = 63;

/// The periods of a sweep and the number of workers that share them.
#[derive(Debug, Clone, Copy, PartialEq, Eq)]
pub struct SweepConfig {
    /// The first period that is searched.
    pub start_period: usize,
    /// The period at which the sweep stops; it is not searched itself.
    pub end_period: usize,
    /// The number of periods that are searched at the same time.
    pub worker_count: usize,
}

impl SweepConfig {
    /// Whether every period of the sweep can be searched and has a slot in
    /// the completion table, and there is a worker to do it.
    pub open spec fn valid(self) -> bool {
        &&& MIN_PERIOD <= self.start_period <= self.end_period <= TABLE_SIZE
        &&& self.worker_count >= 1
    }

    /// The sweep over the periods from 5 up to 60, with 7 workers.
    pub fn standard() -> (config: SweepConfig)
        ensures
            config == (SweepConfig { start_period: 5, end_period: 61, worker_count: 7 }),
            config.valid(),
    {
        SweepConfig { start_period: 5, end_period: 61, worker_count: 7 }
    }

    /// Checks the configuration before a sweep is started on it.
    pub fn is_valid(&self) -> (ok: bool)
        ensures
            ok == self.valid(),
    {
        MIN_PERIOD <= self.start_period && self.start_period <= self.end_period && self.end_period
            <= TABLE_SIZE && self.worker_count >= 1
    }
}

/// Whether `least` is the least period that `done` does not mark, or `None`
/// where it marks them all.
pub open spec fn is_least_open(done: Seq<bool>, least: Option<usize>) -> bool {
    match least {
        Some(p) => p < done.len() && !done[p as int] && forall|q: int| 0 <= q < p ==> done[q],
        None => forall|q: int| 0 <= q < done.len() ==> done[q],
    }
}

/// One mark for each period below 64: whether its search has been completed.
#[derive(Debug, PartialEq, Eq)]
pub struct CompletionTable {
    /// The marks, by period.
    pub completed: Vec<bool>,
}

impl CompletionTable {
    /// Whether the table has its 64 slots.
    pub open spec fn wf(&self) -> bool {
        self.completed@.len() == TABLE_SIZE
    }

    /// The table at the start of a sweep: the periods below `start_period`
    /// count as completed, the others are open.
    pub fn new(start_period: usize) -> (table: CompletionTable)
        ensures
            table.wf(),
            forall|p: int| 0 <= p < TABLE_SIZE ==> table.completed@[p] == (p < start_period),
    {
        let mut completed: Vec<bool> = Vec::new();
        let mut p: usize = 0;
        while p < TABLE_SIZE
            invariant
                p <= TABLE_SIZE,
                completed@.len() == p,
                forall|q: int| 0 <= q < p ==> completed@[q] == (q < start_period),
            decreases TABLE_SIZE - p,
        {
            completed.push(p < start_period);
            p += 1;
        }
        CompletionTable { completed }
    }

    /// Whether the period has been completed. A worker asks this before it
    /// completes a period: a period is completed once.
    pub fn is_completed(&self, period: usize) -> (done: bool)
        requires
            self.wf(),
            period < TABLE_SIZE,
        ensures
            done == self.completed@[period as int],
    {
        self.completed[period]
    }

    /// The least period that is still open, if there is one.
    pub fn least_uncompleted(&self) -> (least: Option<usize>)
        requires
            self.wf(),
        ensures
            is_least_open(self.completed@, least),
    {
        let mut p: usize = 0;
        while p < TABLE_SIZE
            invariant
                self.wf(),
                p <= TABLE_SIZE,
                forall|q: int| 0 <= q < p ==> self.completed@[q],
            decreases TABLE_SIZE - p,
        {
            if !self.completed[p] {
                return Some(p);
            }
            p += 1;
        }
        None
    }

    /// Marks an open period as completed and returns the least period that
    /// is open after that. No mark is ever taken back, and a period that is
    /// marked cannot be completed again.
    pub fn complete(&mut self, period: usize) -> (least: Option<usize>)
        requires
            old(self).wf(),
            period < TABLE_SIZE,
            !old(self).completed@[period as int],
        ensures
            final(self).wf(),
            final(self).completed@ == old(self).completed@.update(period as int, true),
            forall|q: int|
                0 <= q < TABLE_SIZE && old(self).completed@[q] ==> final(self).completed@[q],
            is_least_open(final(self).completed@, least),
    {
        self.completed[period] = true;
        self.least_uncompleted()
    }
}

} // verus!
