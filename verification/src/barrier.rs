//! A reusable barrier: no participant proceeds before all have arrived.

use vstd::prelude::*;
use crate::port::Event;

verus! {

/// A barrier for a fixed number of participants. It counts arrivals; the
/// arrival that completes the count releases the barrier and starts the
/// next round.
#[derive(Clone, Copy, Debug, PartialEq, Eq, Structural)]
pub struct Barrier {
    pub participants: usize,
    pub arrived: usize,
    pub generation: u64,
}

/// What an arrival learns.
#[derive(Clone, Copy, Debug, PartialEq, Eq, Structural)]
pub enum BarrierWait {
    /// Others are still missing: wait for the release.
    Waiting,
    /// This arrival completed the round: it leads, and all may proceed.
    Leader,
}

impl BarrierWait {
    /// What a processor reports to the scheduler after its arrival: a
    /// processor that waits has suspended until the barrier is released; the
    /// leader has work to run now.
    pub fn as_event(self) -> (e: Event)
        ensures
            e == (match self {
                BarrierWait::Waiting => Event::Async,
                BarrierWait::Leader => Event::Sync,
            }),
    {
        match self {
            BarrierWait::Waiting => Event::Async,
            BarrierWait::Leader => Event::Sync,
        }
    }
}

impl Barrier {
    /// Fewer arrivals are counted than there are participants.
    pub open spec fn well_formed(&self) -> bool {
        self.participants > 0 && self.arrived < self.participants
    }

    /// The barrier after one more arrival.
    pub open spec fn after_arrival(self) -> Barrier {
        if self.arrived + 1 == self.participants {
            Barrier {
                participants: self.participants,
                arrived: 0,
                generation: if self.generation < u64::MAX {
                    (self.generation + 1) as u64
                } else {
                    0
                },
            }
        } else {
            Barrier { arrived: (self.arrived + 1) as usize, ..self }
        }
    }

    /// A barrier for `participants` arrivals per round; `None` for none.
    pub fn new(participants: usize) -> (b: Option<Barrier>)
        ensures
            b.is_some() <==> participants > 0,
            b matches Some(barrier) ==> barrier == (Barrier { participants, arrived: 0, generation: 0 }) && barrier.well_formed(),
    {
        if participants == 0 {
            None
        } else {
            Some(Barrier { participants, arrived: 0, generation: 0 })
        }
    }

    /// Counts one arrival. The arrival that completes the round is told
    /// that it leads; the count then starts again and the round number
    /// moves on.
    pub fn arrive(&mut self) -> (w: BarrierWait)
        requires
            old(self).well_formed(),
        ensures
            final(self).well_formed(),
            *final(self) == old(self).after_arrival(),
            w == (if old(self).arrived + 1 == old(self).participants {
                BarrierWait::Leader
            } else {
                BarrierWait::Waiting
            }),
    {
        if self.arrived + 1 == self.participants {
            self.arrived = 0;
            self.generation = if self.generation < u64::MAX {
                self.generation + 1
            } else {
                0
            };
            BarrierWait::Leader
        } else {
            self.arrived = self.arrived + 1;
            BarrierWait::Waiting
        }
    }

    /// How many arrivals the current round still waits for.
    pub fn missing(&self) -> (n: usize)
        requires
            self.well_formed(),
        ensures
            n == self.participants - self.arrived,
            n > 0,
    {
        self.participants - self.arrived
    }
}

/// The barrier after `n` arrivals.
pub open spec fn after_arrivals(b: Barrier, n: nat) -> Barrier
    decreases n,
{
    if n == 0 {
        b
    } else {
        after_arrivals(b, (n - 1) as nat).after_arrival()
    }
}

/// A fresh round is released by exactly the last of its participants: no
/// earlier arrival moves the round number.
pub proof fn lemma_released_by_last_arrival(b: Barrier, n: nat)
    requires
        b.well_formed(),
        b.arrived == 0,
        n <= b.participants,
    ensures
        n < b.participants ==> after_arrivals(b, n) == (Barrier { arrived: n as usize, ..b }),
        n == b.participants ==> after_arrivals(b, n).arrived == 0 && after_arrivals(b, n).generation != b.generation,
    decreases n,
{
    if n > 0 {
        lemma_released_by_last_arrival(b, (n - 1) as nat);
    }
}

} // verus!
