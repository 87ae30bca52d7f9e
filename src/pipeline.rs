//! The priority pipeline: packets wait in `incoming`, ordered by priority band, and
//! move to `outgoing` in batches.
use vstd::prelude::*;
use std::collections::VecDeque;
use std::time::{Duration, Instant};
use crate::protocol::{AVLPacket, GateError, packet_priority};

verus! {

/// `std::time::Instant`, carried opaquely from one clock reading to the next.
#[verifier::external_type_specification]
#[verifier::external_body]
pub struct ExInstant(Instant);

/// Relies on `std::time::Instant::now`: a reading of the monotonic clock.
#[verifier::external_body]
fn clock_now() -> Instant {
    Instant::now()
}

/// Relies on `std::time::Instant::elapsed`: the time since `start`.
#[verifier::external_body]
fn elapsed_since(start: &Instant) -> Duration {
    start.elapsed()
}

/// Relies on the ordering of `std::time::Duration`: whether `elapsed > budget`.
#[verifier::external_body]
fn duration_exceeds(elapsed: &Duration, budget: &Duration) -> bool {
    *elapsed > *budget
}

/// Two FIFO queues and the size of the batches that move between them.
pub struct ProcessingPipeline {
    incoming_queue: VecDeque<AVLPacket>,
    outgoing_queue: VecDeque<AVLPacket>,
    batch_size: usize,
}

pub struct PipelineView {
    pub incoming: Seq<AVLPacket>,
    pub outgoing: Seq<AVLPacket>,
    pub batch_size: nat,
}

impl View for ProcessingPipeline {
    type V = PipelineView;

    closed spec fn view(&self) -> PipelineView {
        PipelineView {
            incoming: self.incoming_queue@,
            outgoing: self.outgoing_queue@,
            batch_size: self.batch_size as nat,
        }
    }
}

/// Index of the first packet in `q` whose priority is strictly below `pr`, or the
/// length of `q` when there is none.
pub open spec fn first_lower(q: Seq<AVLPacket>, pr: u8) -> nat
    decreases q.len(),
{
    if q.len() == 0 {
        0
    } else if packet_priority(q[0]) < pr {
        0
    } else {
        1 + first_lower(q.drop_first(), pr)
    }
}

/// `q` with `p` placed by its priority: 0–3 at the tail, 4–7 before the first packet of
/// strictly lower priority, 8 and above at the head.
pub open spec fn place(q: Seq<AVLPacket>, p: AVLPacket) -> Seq<AVLPacket> {
    let pr = packet_priority(p);
    if pr <= 3 {
        q.push(p)
    } else if pr <= 7 {
        q.insert(first_lower(q, pr) as int, p)
    } else {
        seq![p] + q
    }
}

/// Up to one batch moves from the head of `incoming` to the tail of `outgoing`.
pub open spec fn release(v: PipelineView) -> PipelineView {
    let n = if v.incoming.len() < v.batch_size {
        v.incoming.len()
    } else {
        v.batch_size
    };
    PipelineView {
        incoming: v.incoming.skip(n as int),
        outgoing: v.outgoing + v.incoming.take(n as int),
        ..v
    }
}

/// The pipeline after `p` is placed, with a batch released when `incoming` has reached
/// the batch size or `budget_spent` holds.
pub open spec fn submitted(v: PipelineView, p: AVLPacket, budget_spent: bool) -> PipelineView {
    let placed = PipelineView { incoming: place(v.incoming, p), ..v };
    if placed.incoming.len() >= v.batch_size || budget_spent {
        release(placed)
    } else {
        placed
    }
}

impl ProcessingPipeline {
    pub fn new(batch_size: usize) -> (r: Self)
        ensures
            r@.incoming == Seq::<AVLPacket>::empty(),
            r@.outgoing == Seq::<AVLPacket>::empty(),
            r@.batch_size == batch_size,
    {
        ProcessingPipeline {
            incoming_queue: VecDeque::new(),
            outgoing_queue: VecDeque::new(),
            batch_size,
        }
    }

    /// `(incoming length, outgoing length)`.
    pub fn queue_stats(&self) -> (r: (usize, usize))
        ensures
            r.0 == self@.incoming.len(),
            r.1 == self@.outgoing.len(),
    {
        (self.incoming_queue.len(), self.outgoing_queue.len())
    }

    /// Drains everything: all of `incoming`, then all of `outgoing`, each in order.
    pub fn flush(&mut self) -> (r: Result<Vec<AVLPacket>, GateError>)
        ensures
            match r {
                Ok(v) => v@ == old(self)@.incoming + old(self)@.outgoing,
                Err(_) => false,
            },
            final(self)@.incoming == Seq::<AVLPacket>::empty(),
            final(self)@.outgoing == Seq::<AVLPacket>::empty(),
            final(self)@.batch_size == old(self)@.batch_size,
    {
        let ghost inc = self.incoming_queue@;
        let ghost out = self.outgoing_queue@;
        let mut flushed: Vec<AVLPacket> = Vec::new();
        while self.incoming_queue.len() > 0
            invariant
                flushed@ + self.incoming_queue@ == inc,
                self.outgoing_queue@ == out,
                self.batch_size == old(self).batch_size,
            decreases self.incoming_queue@.len(),
        {
            match self.incoming_queue.pop_front() {
                Some(p) => {
                    flushed.push(p);
                    proof {
                        assert(flushed@ + self.incoming_queue@ =~= inc);
                    }
                },
                None => {},
            }
        }
        proof {
            assert(flushed@ =~= inc);
        }
        while self.outgoing_queue.len() > 0
            invariant
                flushed@ + self.outgoing_queue@ == inc + out,
                self.incoming_queue@ == Seq::<AVLPacket>::empty(),
                self.batch_size == old(self).batch_size,
            decreases self.outgoing_queue@.len(),
        {
            match self.outgoing_queue.pop_front() {
                Some(p) => {
                    flushed.push(p);
                    proof {
                        assert(flushed@ + self.outgoing_queue@ =~= inc + out);
                    }
                },
                None => {},
            }
        }
        proof {
            assert(flushed@ =~= inc + out);
        }
        Ok(flushed)
    }

    fn insert_position(&self, pr: u8) -> (r: usize)
        ensures
            r == first_lower(self@.incoming, pr),
            r <= self@.incoming.len(),
    {
        let ghost q = self.incoming_queue@;
        proof {
            assert(q.skip(0) =~= q);
        }
        let mut i: usize = 0;
        while i < self.incoming_queue.len() && self.incoming_queue[i].priority() >= pr
            invariant
                q == self.incoming_queue@,
                i <= q.len(),
                first_lower(q, pr) == i + first_lower(q.skip(i as int), pr),
            decreases q.len() - i,
        {
            proof {
                assert(q.skip(i as int).drop_first() =~= q.skip(i + 1));
                assert(q.skip(i as int)[0] == q[i as int]);
            }
            i = i + 1;
        }
        proof {
            if i < q.len() {
                assert(q.skip(i as int)[0] == q[i as int]);
            }
        }
        i
    }

    /// Moves up to `batch_size` packets from the head of `incoming` to the tail of
    /// `outgoing`, in order.
    fn process_batch(&mut self)
        ensures
            final(self)@ == release(old(self)@),
    {
        let ghost inc = self.incoming_queue@;
        let ghost out = self.outgoing_queue@;
        let n = if self.incoming_queue.len() < self.batch_size {
            self.incoming_queue.len()
        } else {
            self.batch_size
        };
        let mut i: usize = 0;
        while i < n
            invariant
                i <= n <= inc.len(),
                self.incoming_queue@ == inc.skip(i as int),
                self.outgoing_queue@ == out + inc.take(i as int),
                self.batch_size == old(self).batch_size,
            decreases n - i,
        {
            match self.incoming_queue.pop_front() {
                Some(p) => {
                    self.outgoing_queue.push_back(p);
                    proof {
                        assert(self.incoming_queue@ =~= inc.skip(i + 1));
                        assert(self.outgoing_queue@ =~= out + inc.take(i + 1));
                    }
                },
                None => {},
            }
            i = i + 1;
        }
        proof {
            assert(self@ =~~= release(old(self)@));
        }
    }

    fn place_packet(&mut self, packet: AVLPacket)
        ensures
            final(self)@ == (PipelineView { incoming: place(old(self)@.incoming, packet), ..old(self)@ }),
    {
        let pr = packet.priority();
        if pr <= 3 {
            self.incoming_queue.push_back(packet);
        } else if pr <= 7 {
            let at = self.insert_position(pr);
            self.incoming_queue.insert(at, packet);
        } else {
            self.incoming_queue.push_front(packet);
        }
        proof {
            assert(self@ =~~= (PipelineView { incoming: place(old(self)@.incoming, packet), ..old(self)@ }));
        }
    }

    /// Places `packet` by priority and releases a batch if `incoming` has reached the
    /// batch size or `budget_spent` holds.
    pub fn submit(&mut self, packet: AVLPacket, budget_spent: bool)
        ensures
            final(self)@ == submitted(old(self)@, packet, budget_spent),
    {
        self.place_packet(packet);
        if self.incoming_queue.len() >= self.batch_size || budget_spent {
            self.process_batch();
        }
    }

    /// Places `packet` by priority, then releases a batch if `incoming` has reached the
    /// batch size or, when `timeout` is given, the time spent in this call exceeds it.
    pub fn process_incoming(&mut self, packet: AVLPacket, timeout: Option<Duration>) -> (r: Result<
        (),
        GateError,
    >)
        ensures
            r is Ok,
            final(self)@ == submitted(old(self)@, packet, false) || (timeout is Some
                && final(self)@ == submitted(old(self)@, packet, true)),
    {
        let start = clock_now();
        self.place_packet(packet);
        let budget_spent = match &timeout {
            Some(t) => duration_exceeds(&elapsed_since(&start), t),
            None => false,
        };
        if self.incoming_queue.len() >= self.batch_size || budget_spent {
            self.process_batch();
        }
        Ok(())
    }
}

} // verus!
