use crate::payment::Payment;
use vstd::prelude::*;

verus! {

/// What happens to a payment at a point of simulated time.
pub enum PaymentEvent {
    /// The payment is due to be attempted.
    Scheduled { payment: Payment },
    /// The payment has failed for good.
    UpdateFailed { payment: Payment },
    /// The payment has reached its receiver.
    UpdateSuccesful { payment: Payment },
}

/// An event waiting in the queue, with its due time and the number that
/// records the order in which it was scheduled.
pub struct ScheduledEvent {
    pub time: u64,
    pub seq: u64,
    pub event: PaymentEvent,
}

/// `a` leaves the queue before `b`: it is due earlier, or at the same time
/// and was scheduled first.
pub open spec fn precedes(a: ScheduledEvent, b: ScheduledEvent) -> bool {
    a.time < b.time || (a.time == b.time && a.seq < b.seq)
}

/// The events stand in the order in which they leave the queue.
pub open spec fn is_ordered(s: Seq<ScheduledEvent>) -> bool {
    forall|i: int, j: int| 0 <= i < j < s.len() ==> precedes(#[trigger] s[i], #[trigger] s[j])
}

/// Pending events ordered by (time, order of scheduling), with a simulated
/// clock that moves to the time of each dispatched event.
pub struct EventQueue {
    events: Vec<ScheduledEvent>,
    now: u64,
    next_seq: u64,
}

impl View for EventQueue {
    type V = Seq<ScheduledEvent>;

    closed spec fn view(&self) -> Seq<ScheduledEvent> {
        self.events@
    }
}

impl EventQueue {
    /// The simulated time of the last dispatched event.
    pub closed spec fn now_spec(&self) -> u64 {
        self.now
    }

    /// How many events have been scheduled so far; also the number the next one gets.
    pub closed spec fn issued(&self) -> u64 {
        self.next_seq
    }

    pub open spec fn wf(&self) -> bool {
        &&& is_ordered(self@)
        &&& forall|i: int|
            0 <= i < self@.len() ==> (#[trigger] self@[i]).seq < self.issued() && self@[i].time
                >= self.now_spec()
    }

    pub fn new() -> (r: EventQueue)
        ensures
            r.wf(),
            r@.len() == 0,
            r.now_spec() == 0,
            r.issued() == 0,
    {
        EventQueue { events: Vec::new(), now: 0, next_seq: 0 }
    }

    /// Adds `event`, due at `time`, behind every pending event due no later.
    pub fn schedule(&mut self, time: u64, event: PaymentEvent)
        requires
            old(self).wf(),
            time >= old(self).now_spec(),
            old(self).issued() < u64::MAX,
        ensures
            final(self).wf(),
            final(self).now_spec() == old(self).now_spec(),
            final(self).issued() == old(self).issued() + 1,
            exists|i: int|
                {
                    &&& 0 <= i <= old(self)@.len()
                    &&& final(self)@ == #[trigger] old(self)@.insert(
                        i,
                        (ScheduledEvent { time, seq: old(self).issued(), event }),
                    )
                    &&& forall|j: int| 0 <= j < i ==> (#[trigger] old(self)@[j]).time <= time
                    &&& forall|j: int|
                        i <= j < old(self)@.len() ==> (#[trigger] old(self)@[j]).time > time
                },
    {
        let mut i: usize = 0;
        while i < self.events.len() && self.events[i].time <= time
            invariant
                0 <= i <= self.events@.len(),
                forall|j: int| 0 <= j < i ==> (#[trigger] self.events@[j]).time <= time,
            decreases self.events@.len() - i,
        {
            i = i + 1;
        }
        let ghost old_events = self.events@;
        let entry = ScheduledEvent { time, seq: self.next_seq, event };
        self.events.insert(i, entry);
        self.next_seq = self.next_seq + 1;
        proof {
            assert forall|j: int| i <= j < old_events.len() implies (#[trigger] old_events[j]).time
                > time by {
                if j > i {
                    assert(precedes(old_events[i as int], old_events[j]));
                }
            }
            let s = self.events@;
            assert forall|a: int, b: int| 0 <= a < b < s.len() implies precedes(
                #[trigger] s[a],
                #[trigger] s[b],
            ) by {
                if a < i && b < i {
                    assert(precedes(old_events[a], old_events[b]));
                } else if a < i && b > i {
                    assert(s[b] == old_events[b - 1]);
                    assert(precedes(old_events[a], old_events[b - 1]));
                } else if a > i && b > i {
                    assert(precedes(old_events[a - 1], old_events[b - 1]));
                }
            }
        }
    }

    /// Removes and returns the pending event that is due first, and moves the
    /// clock to its time; `None` when nothing is pending.
    pub fn next(&mut self) -> (r: Option<PaymentEvent>)
        requires
            old(self).wf(),
        ensures
            final(self).wf(),
            final(self).issued() == old(self).issued(),
            old(self)@.len() == 0 ==> {
                &&& r.is_none()
                &&& final(self)@ == old(self)@
                &&& final(self).now_spec() == old(self).now_spec()
            },
            old(self)@.len() > 0 ==> {
                &&& r == Some(old(self)@[0].event)
                &&& final(self)@ == old(self)@.drop_first()
                &&& final(self).now_spec() == old(self)@[0].time
            },
    {
        if self.events.len() == 0 {
            return None;
        }
        let ghost old_events = self.events@;
        let entry = self.events.remove(0);
        self.now = entry.time;
        proof {
            assert forall|j: int| 0 <= j < self.events@.len() implies (
            #[trigger] self.events@[j]).time >= self.now by {
                assert(precedes(old_events[0], old_events[j + 1]));
            }
            assert forall|a: int, b: int| 0 <= a < b < self.events@.len() implies precedes(
                #[trigger] self.events@[a],
                #[trigger] self.events@[b],
            ) by {
                assert(precedes(old_events[a + 1], old_events[b + 1]));
            }
        }
        Some(entry.event)
    }

    /// The simulated time of the last dispatched event; zero before the first.
    pub fn now(&self) -> (r: u64)
        ensures
            r == self.now_spec(),
    {
        self.now
    }

    /// Number of pending events.
    pub fn queue_length(&self) -> (r: usize)
        ensures
            r == self@.len(),
    {
        self.events.len()
    }
}

/// Dispatch order: `next` always hands out the first pending event, and the
/// pending events are ordered by time, those due at the same time by the
/// order in which `schedule` received them. So events leave in
/// non-decreasing time order, and first in, first out among equal times.
pub proof fn lemma_dispatch_order(q: EventQueue, i: int, j: int)
    requires
        q.wf(),
        0 <= i < j < q@.len(),
    ensures
        q@[i].time <= q@[j].time,
        q@[i].time == q@[j].time ==> q@[i].seq < q@[j].seq,
{
    assert(precedes(q@[i], q@[j]));
}

} // verus!
