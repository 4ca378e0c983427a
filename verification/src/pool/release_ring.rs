//! The bounded ticket queue of retained frames whose last handle was dropped
//! after their eviction matured.
//!
//! A producer takes a ticket, then publishes into the slot the ticket names;
//! the consumer pops tickets in order and stops at one not yet published. A
//! slot is reused only after the consumer turned it over.

use crate::num::{least_power_at_least, next_power_of_two, power_of_two};
use vstd::prelude::*;

verus! {

/// The largest budget a ring is built for.
pub const RING_CAPACITY_MAX: u32 = 0x8000_0000;

/// Tickets stay far enough from the counter's end for a slot sequence to be
/// representable.
pub const TICKET_MAX: u64 = 0x3fff_ffff_ffff_ffff;

#[derive(Debug, Clone, Copy, PartialEq, Eq, Structural)]
struct ReleaseSlot {
    sequence: u64,
    frame: u32,
}

#[derive(Debug)]
pub struct ReleaseRing {
    slots: Vec<ReleaseSlot>,
    tail: u64,
    capacity: u64,
}

impl ReleaseRing {
    pub closed spec fn wf(self) -> bool {
        &&& 2 <= self.capacity <= 0x8000_0000
        &&& self.slots@.len() == self.capacity
        &&& forall|i: int|
            0 <= i < self.capacity ==> (#[trigger] self.slots@[i]).sequence <= TICKET_MAX
                + self.capacity
    }

    pub closed spec fn room(self) -> nat {
        self.capacity as nat
    }

    /// The tickets handed out so far.
    pub closed spec fn tickets(self) -> nat {
        self.tail as nat
    }

    /// Ticket `ticket` is published and not yet popped.
    pub closed spec fn published(self, ticket: int) -> bool {
        self.slots@[ticket % (self.capacity as int)].sequence == ticket + 1
    }

    /// The slot of `ticket` is free for it.
    pub closed spec fn vacant_for(self, ticket: int) -> bool {
        self.slots@[ticket % (self.capacity as int)].sequence == ticket
    }

    /// The frame published under `ticket`.
    pub closed spec fn frame_at(self, ticket: int) -> u32 {
        self.slots@[ticket % (self.capacity as int)].frame
    }

    /// Between the consumer at `cursor` and the producers every ticket is
    /// published, and every slot beyond is free for its next ticket.
    pub open spec fn settled(self, cursor: int) -> bool {
        &&& self.wf()
        &&& 0 <= cursor <= self.tickets() <= cursor + self.room()
        &&& forall|t: int| cursor <= t < self.tickets() ==> #[trigger] self.published(t)
        &&& forall|t: int|
            self.tickets() <= t < cursor + self.room() ==> #[trigger] self.vacant_for(t)
    }

    /// The published frames the consumer at `cursor` has yet to pop.
    pub open spec fn pending(self, cursor: int) -> Seq<u32> {
        Seq::new((self.tickets() - cursor) as nat, |k: int| self.frame_at(cursor + k))
    }

    /// An empty ring for at most `max_retained_frames` frames.
    pub fn preallocated(max_retained_frames: u32) -> (ring: Self)
        requires
            0 < max_retained_frames <= RING_CAPACITY_MAX,
        ensures
            ring.settled(0),
            ring.tickets() == 0,
            max_retained_frames == 1 ==> ring.room() == 2,
            max_retained_frames > 1 ==> least_power_at_least(
                max_retained_frames as int,
                ring.room() as int,
            ),
            ring.room() >= max_retained_frames,
            ring.pending(0) == Seq::<u32>::empty(),
    {
        let wanted: u64 = next_power_of_two(max_retained_frames);
        let capacity: u64 = if wanted < 2 {
            2
        } else {
            wanted
        };
        proof {
            vstd::arithmetic::power2::lemma2_to64();
            assert(vstd::arithmetic::power2::pow2(0) == 1);
            assert(power_of_two(1));
        }
        let mut slots: Vec<ReleaseSlot> = Vec::new();
        let mut i: u64 = 0;
        while i < capacity
            invariant
                i <= capacity,
                slots@.len() == i,
                forall|k: int| 0 <= k < i ==> (#[trigger] slots@[k]).sequence == k,
            decreases capacity - i,
        {
            slots.push(ReleaseSlot { sequence: i, frame: 0 });
            i = i + 1;
        }
        let ring = ReleaseRing { slots, tail: 0, capacity };
        proof {
            assert forall|t: int| 0 <= t < ring.room() implies #[trigger] ring.vacant_for(t) by {
                assert(t % (capacity as int) == t) by (nonlinear_arith)
                    requires
                        0 <= t < capacity,
                ;
            }
            assert(ring.pending(0) =~= Seq::empty());
        }
        ring
    }

    /// Takes the next ticket.
    pub fn claim_ticket(&mut self) -> (ticket: u64)
        requires
            old(self).wf(),
            old(self).tickets() < TICKET_MAX,
        ensures
            final(self).wf(),
            ticket == old(self).tickets(),
            final(self).tickets() == old(self).tickets() + 1,
            final(self).room() == old(self).room(),
            forall|t: int| #[trigger] final(self).published(t) == old(self).published(t),
            forall|t: int| #[trigger] final(self).vacant_for(t) == old(self).vacant_for(t),
            forall|t: int| #[trigger] final(self).frame_at(t) == old(self).frame_at(t),
    {
        let ticket: u64 = self.tail;
        self.tail = self.tail + 1;
        ticket
    }

    /// Publishes `frame` under a ticket whose slot is free for it.
    pub fn publish(&mut self, ticket: u64, frame: u32)
        requires
            old(self).wf(),
            ticket < TICKET_MAX,
            old(self).vacant_for(ticket as int),
        ensures
            final(self).wf(),
            final(self).tickets() == old(self).tickets(),
            final(self).room() == old(self).room(),
            final(self).published(ticket as int),
            final(self).frame_at(ticket as int) == frame,
            forall|t: int|
                #![trigger final(self).published(t)]
                #![trigger final(self).vacant_for(t)]
                #![trigger final(self).frame_at(t)]
                t % (old(self).room() as int) != ticket as int % (old(self).room() as int) ==> {
                    &&& final(self).published(t) == old(self).published(t)
                    &&& final(self).vacant_for(t) == old(self).vacant_for(t)
                    &&& final(self).frame_at(t) == old(self).frame_at(t)
                },
    {
        let index: usize = self.slot_index(ticket);
        self.slots.set(index, ReleaseSlot { sequence: ticket + 1, frame });
    }

    fn slot_index(&self, ticket: u64) -> (index: usize)
        requires
            self.wf(),
        ensures
            index == ticket as int % (self.capacity as int),
            index < self.slots@.len(),
    {
        (ticket % self.capacity) as usize
    }

    /// Queues `frame` behind every earlier ticket.
    pub fn push(&mut self, frame: u32)
        requires
            old(self).wf(),
            old(self).tickets() < TICKET_MAX,
            old(self).vacant_for(old(self).tickets() as int),
        ensures
            final(self).wf(),
            final(self).tickets() == old(self).tickets() + 1,
            final(self).room() == old(self).room(),
            final(self).published(old(self).tickets() as int),
            final(self).frame_at(old(self).tickets() as int) == frame,
            forall|t: int|
                #![trigger final(self).published(t)]
                #![trigger final(self).vacant_for(t)]
                #![trigger final(self).frame_at(t)]
                t % (old(self).room() as int) != old(self).tickets() as int % (old(
                    self,
                ).room() as int) ==> {
                    &&& final(self).published(t) == old(self).published(t)
                    &&& final(self).vacant_for(t) == old(self).vacant_for(t)
                    &&& final(self).frame_at(t) == old(self).frame_at(t)
                },
            forall|cursor: int|
                #[trigger] old(self).settled(cursor) && old(self).tickets() < cursor + old(
                    self,
                ).room() ==> final(self).settled(cursor) && final(self).pending(cursor) == old(
                    self,
                ).pending(cursor).push(frame),
    {
        let ticket: u64 = self.claim_ticket();
        self.publish(ticket, frame);
        proof {
            assert forall|cursor: int|
                #[trigger] old(self).settled(cursor) && old(self).tickets() < cursor + old(
                    self,
                ).room() implies self.settled(cursor) && self.pending(cursor) == old(self).pending(
                cursor,
            ).push(frame) by {
                self.lemma_pushed(*old(self), cursor, frame);
            }
        }
    }

    proof fn lemma_pushed(self, start: Self, cursor: int, frame: u32)
        requires
            start.settled(cursor),
            start.tickets() < cursor + start.room(),
            self.wf(),
            self.tickets() == start.tickets() + 1,
            self.room() == start.room(),
            self.published(start.tickets() as int),
            self.frame_at(start.tickets() as int) == frame,
            forall|t: int|
                #![trigger self.published(t)]
                #![trigger self.vacant_for(t)]
                #![trigger self.frame_at(t)]
                t % (start.room() as int) != start.tickets() as int % (start.room() as int) ==> {
                    &&& self.published(t) == start.published(t)
                    &&& self.vacant_for(t) == start.vacant_for(t)
                    &&& self.frame_at(t) == start.frame_at(t)
                },
        ensures
            self.settled(cursor),
            self.pending(cursor) == start.pending(cursor).push(frame),
    {
        let room = self.room() as int;
        let ticket = start.tickets() as int;
        assert forall|t: int| cursor <= t < cursor + room && t != ticket implies #[trigger] (t
            % room) != ticket % room by {
            lemma_tickets_apart(t, ticket, room);
        }
        assert forall|t: int| cursor <= t < self.tickets() implies #[trigger] self.published(t) by {
            if t != ticket {
                assert(t % room != ticket % room);
                assert(start.published(t));
            }
        }
        assert forall|t: int|
            self.tickets() <= t < cursor + self.room() implies #[trigger] self.vacant_for(t) by {
            assert(t % room != ticket % room);
            assert(start.vacant_for(t));
        }
        assert forall|k: int| 0 <= k < self.pending(cursor).len() implies self.pending(cursor)[k]
            == start.pending(cursor).push(frame)[k] by {
            if cursor + k != ticket {
                assert((cursor + k) % room != ticket % room);
                assert(self.frame_at(cursor + k) == start.frame_at(cursor + k));
            }
        }
        assert(self.pending(cursor) =~= start.pending(cursor).push(frame));
    }

    /// Pops the ticket at `cursor` if it is published.
    pub fn pop(&mut self, cursor: &mut u64) -> (frame: Option<u32>)
        requires
            old(self).wf(),
            *old(cursor) < TICKET_MAX,
        ensures
            final(self).wf(),
            final(self).tickets() == old(self).tickets(),
            final(self).room() == old(self).room(),
            frame is Some <==> old(self).published(*old(cursor) as int),
            match frame {
                Some(f) => {
                    &&& f == old(self).frame_at(*old(cursor) as int)
                    &&& *final(cursor) == *old(cursor) + 1
                    &&& final(self).vacant_for(*old(cursor) + old(self).room())
                    &&& forall|t: int|
                #![trigger final(self).published(t)]
                #![trigger final(self).vacant_for(t)]
                #![trigger final(self).frame_at(t)]
                        t % (old(self).room() as int) != *old(cursor) as int % (old(
                            self,
                        ).room() as int) ==> {
                            &&& final(self).published(t) == old(self).published(t)
                            &&& final(self).vacant_for(t) == old(self).vacant_for(t)
                            &&& final(self).frame_at(t) == old(self).frame_at(t)
                        }
                },
                None => *final(self) == *old(self) && *final(cursor) == *old(cursor),
            },
            old(self).settled(*old(cursor) as int) ==> {
                &&& final(self).settled(*final(cursor) as int)
                &&& frame is None <==> old(self).pending(*old(cursor) as int).len() == 0
                &&& frame matches Some(f) ==> seq![f] + final(self).pending(*final(cursor) as int)
                    == old(self).pending(*old(cursor) as int)
            },
    {
        let at: u64 = *cursor;
        let index: usize = self.slot_index(at);
        let slot: ReleaseSlot = self.slots[index];
        let ghost start = *self;
        if slot.sequence != at + 1 {
            proof {
                if start.settled(at as int) && start.tickets() > at {
                    assert(start.published(at as int));
                }
                if start.settled(at as int) {
                    assert(start.pending(at as int).len() == 0);
                }
            }
            return None;
        }
        self.slots.set(index, ReleaseSlot { sequence: at + self.capacity, frame: slot.frame });
        *cursor = at + 1;
        proof {
            let room = self.room() as int;
            assert((at + room) % room == at as int % room) by {
                vstd::arithmetic::div_mod::lemma_mod_add_multiples_vanish(at as int, room);
            }
            if start.settled(at as int) {
                if start.tickets() <= at {
                    assert(start.vacant_for(at as int));
                }
                assert forall|t: int| at < t < at + room implies #[trigger] (t % room) != at as int
                    % room by {
                    lemma_tickets_apart(t, at as int, room);
                }
                assert forall|t: int| at + 1 <= t < self.tickets() implies #[trigger] self.published(
                    t,
                ) by {
                    assert(t % room != at as int % room);
                    assert(start.published(t));
                }
                assert forall|t: int|
                    self.tickets() <= t < at + 1 + self.room() implies #[trigger] self.vacant_for(
                    t,
                ) by {
                    if t < at + room {
                        assert(t % room != at as int % room);
                        assert(start.vacant_for(t));
                    }
                }
                assert forall|t: int| at + 1 <= t < self.tickets() implies #[trigger] self.frame_at(
                    t,
                ) == start.frame_at(t) by {
                    assert(t % room != at as int % room);
                }
                assert(seq![slot.frame] + self.pending(at + 1) =~= start.pending(at as int));
            }
        }
        Some(slot.frame)
    }
}

proof fn lemma_tickets_apart(a: int, b: int, room: int)
    requires
        room > 0,
        a != b,
        a - b < room,
        b - a < room,
    ensures
        a % room != b % room,
{
    vstd::arithmetic::div_mod::lemma_fundamental_div_mod(a, room);
    vstd::arithmetic::div_mod::lemma_fundamental_div_mod(b, room);
    if a % room == b % room {
        let q = a / room - b / room;
        assert(a - b == room * q) by (nonlinear_arith)
            requires
                a == room * (a / room) + a % room,
                b == room * (b / room) + b % room,
                a % room == b % room,
                q == a / room - b / room,
        ;
        assert(q == 0) by (nonlinear_arith)
            requires
                a - b == room * q,
                -room < a - b < room,
                room > 0,
        ;
    }
}

} // verus!
