//! CLOCK second-chance eviction over a per-frame reference bit, and the marker
//! that arbitrates credit for a speculative frame's first touch.
//!
//! A repeat touch of a set bit stores nothing. Eviction sweeps a deterministic
//! hand, clearing set bits until it lands on a clear one.

use crate::pool::diagnostics::DiagnosticCounter;
use crate::pool::frames::ReadFrameIdx;
use crate::pool::prefetch::notifications::DirtyFrames;
use vstd::prelude::*;

verus! {

/// What became of a speculative frame before a demand reader or an eviction
/// took its marker.
#[derive(Debug, Clone, Copy, PartialEq, Eq, Structural)]
pub enum SpeculationOutcome {
    Absent,
    Unconsumed,
    /// First touched, by the named reader when it is known.
    Consumed(Option<u32>),
}

/// How many steps the hand takes from `hand` to reach `frame`.
pub open spec fn distance(hand: int, frame: int, count: int) -> int {
    if frame >= hand {
        frame - hand
    } else {
        frame - hand + count
    }
}

#[derive(Debug)]
pub struct Clock {
    reference_bits: Vec<bool>,
    count: u32,
    hand: u32,
    reference_stores: DiagnosticCounter,
    speculation: Vec<u64>,
    consumed: DirtyFrames,
    completed: DirtyFrames,
}

/// The speculation a marker word stands for.
spec fn outcome_of(marker: u64) -> SpeculationOutcome {
    if marker == 0 {
        SpeculationOutcome::Absent
    } else if marker == 1 {
        SpeculationOutcome::Unconsumed
    } else if marker == u64::MAX {
        SpeculationOutcome::Consumed(None)
    } else {
        SpeculationOutcome::Consumed(Some((marker - 2) as u32))
    }
}

impl Clock {
    pub closed spec fn wf(self) -> bool {
        &&& self.count > 0
        &&& self.reference_bits@.len() == self.count
        &&& self.speculation@.len() == self.count
        &&& self.hand < self.count
        &&& self.consumed.wf() && self.consumed.frame_count() == self.count
        &&& self.completed.wf() && self.completed.frame_count() == self.count
        &&& forall|i: int|
            0 <= i < self.count ==> (#[trigger] self.speculation@[i]) < 0x1_0000_0002
                || self.speculation@[i] == u64::MAX
    }

    pub closed spec fn frame_count(self) -> nat {
        self.count as nat
    }

    pub open spec fn has(self, frame: ReadFrameIdx) -> bool {
        frame.0 < self.frame_count()
    }

    /// The reference bit of `frame`.
    pub closed spec fn referenced(self, frame: ReadFrameIdx) -> bool {
        self.reference_bits@[frame.0 as int]
    }

    /// The frame the next sweep starts at.
    pub closed spec fn hand_position(self) -> int {
        self.hand as int
    }

    /// Clear-to-set stores so far, modulo the counter's width.
    pub closed spec fn stores(self) -> u64 {
        self.reference_stores@
    }

    /// The speculation of `frame`.
    pub closed spec fn speculation(self, frame: ReadFrameIdx) -> SpeculationOutcome {
        outcome_of(self.speculation@[frame.0 as int])
    }

    /// Frames whose speculation was consumed since the last drain.
    pub closed spec fn consumed_frames(self) -> Set<ReadFrameIdx> {
        self.consumed@
    }

    /// Frames whose speculative fill completed since the last drain.
    pub closed spec fn completed_frames(self) -> Set<ReadFrameIdx> {
        self.completed@
    }

    /// Everything but the reference bits, the hand and the store count.
    pub open spec fn same_speculation(self, other: Clock) -> bool {
        &&& self.frame_count() == other.frame_count()
        &&& self.consumed_frames() == other.consumed_frames()
        &&& self.completed_frames() == other.completed_frames()
        &&& forall|f: ReadFrameIdx|
            self.has(f) ==> #[trigger] self.speculation(f) == other.speculation(f)
    }

    /// Everything but the speculation markers and their notifications.
    pub open spec fn same_references(self, other: Clock) -> bool {
        &&& self.frame_count() == other.frame_count()
        &&& self.hand_position() == other.hand_position()
        &&& self.stores() == other.stores()
        &&& forall|f: ReadFrameIdx|
            self.has(f) ==> #[trigger] self.referenced(f) == other.referenced(f)
    }

    /// The hand points at a frame.
    pub proof fn lemma_hand(self)
        requires
            self.wf(),
        ensures
            0 <= self.hand_position() < self.frame_count() <= u32::MAX,
    {
    }

    /// A clock with every reference bit clear and the hand at frame zero.
    #[must_use]
    pub fn with_frame_count(frame_count: u32) -> (clock: Self)
        requires
            frame_count > 0,
        ensures
            clock.fresh(frame_count),
    {
        let consumed = DirtyFrames::new(frame_count);
        let completed = DirtyFrames::new(frame_count);
        Clock {
            reference_bits: vec![false; frame_count as usize],
            count: frame_count,
            hand: 0,
            reference_stores: DiagnosticCounter::new(),
            speculation: vec![0; frame_count as usize],
            consumed,
            completed,
        }
    }

    /// A clock as it leaves construction.
    pub open spec fn fresh(self, frame_count: u32) -> bool {
        &&& self.wf()
        &&& self.frame_count() == frame_count
        &&& self.hand_position() == 0
        &&& self.stores() == 0
        &&& self.consumed_frames() == Set::<ReadFrameIdx>::empty()
        &&& self.completed_frames() == Set::<ReadFrameIdx>::empty()
        &&& forall|f: ReadFrameIdx|
            self.has(f) ==> !(#[trigger] self.referenced(f))
        &&& forall|f: ReadFrameIdx|
            self.has(f) ==> #[trigger] self.speculation(f) == SpeculationOutcome::Absent
    }

    pub fn try_with_frame_count(frame_count: u32) -> (clock: Option<Self>)
        requires
            frame_count > 0,
        ensures
            clock matches Some(c) && c.fresh(frame_count),
    {
        Some(Self::with_frame_count(frame_count))
    }

    /// Records a touch of `frame`, returning whether it set a clear bit. A
    /// repeat touch of a set bit stores nothing.
    #[must_use]
    pub fn reference(&mut self, frame: ReadFrameIdx) -> (stored: bool)
        requires
            old(self).wf(),
            old(self).has(frame),
        ensures
            final(self).wf(),
            stored == !old(self).referenced(frame),
            final(self).touched(*old(self), frame, None),
    {
        self.reference_from(frame, None)
    }

    /// `self` is `other` after a touch of `frame` by `reader`.
    pub open spec fn touched(self, other: Clock, frame: ReadFrameIdx, reader: Option<u32>) -> bool {
        let consumes = !other.referenced(frame) && other.speculation(frame)
            == SpeculationOutcome::Unconsumed;
        &&& other.referenced(frame) ==> self == other
        &&& self.frame_count() == other.frame_count()
        &&& self.hand_position() == other.hand_position()
        &&& !other.referenced(frame) ==> self.stores() == other.stores().wrapping_add(1)
        &&& forall|f: ReadFrameIdx|
            self.has(f) ==> #[trigger] self.referenced(f) == (other.referenced(f) || f == frame)
        &&& forall|f: ReadFrameIdx|
            self.has(f) ==> #[trigger] self.speculation(f) == (if f == frame && consumes {
                SpeculationOutcome::Consumed(reader)
            } else {
                other.speculation(f)
            })
        &&& self.consumed_frames() == (if consumes {
            other.consumed_frames().insert(frame)
        } else {
            other.consumed_frames()
        })
        &&& self.completed_frames() == other.completed_frames()
    }

    /// A touch credited to `reader` where the frame was speculative.
    pub fn reference_from(&mut self, frame: ReadFrameIdx, reader: Option<u32>) -> (stored: bool)
        requires
            old(self).wf(),
            old(self).has(frame),
        ensures
            final(self).wf(),
            stored == !old(self).referenced(frame),
            final(self).touched(*old(self), frame, reader),
    {
        let index: usize = self.checked_index(frame);
        if self.reference_bits[index] {
            false
        } else {
            self.consume_speculation(frame, reader);
            let ghost credited = *self;
            self.reference_bits.set(index, true);
            self.reference_stores.increment();
            assert(forall|f: ReadFrameIdx|
                self.has(f) ==> #[trigger] self.speculation(f) == credited.speculation(f));
            true
        }
    }

    fn consume_speculation(&mut self, frame: ReadFrameIdx, reader: Option<u32>)
        requires
            old(self).wf(),
            old(self).has(frame),
        ensures
            final(self).wf(),
            final(self).same_references(*old(self)),
            final(self).reference_bits@ == old(self).reference_bits@,
            final(self).completed_frames() == old(self).completed_frames(),
            forall|f: ReadFrameIdx|
                final(self).has(f) ==> #[trigger] final(self).speculation(f) == (if f == frame
                    && old(self).speculation(frame) == SpeculationOutcome::Unconsumed {
                    SpeculationOutcome::Consumed(reader)
                } else {
                    old(self).speculation(f)
                }),
            final(self).consumed_frames() == (if old(self).speculation(frame)
                == SpeculationOutcome::Unconsumed {
                old(self).consumed_frames().insert(frame)
            } else {
                old(self).consumed_frames()
            }),
    {
        let index: usize = self.checked_index(frame);
        if self.speculation[index] == 1 {
            let marker: u64 = match reader {
                Some(slot) => slot as u64 + 2,
                None => u64::MAX,
            };
            self.speculation.set(index, marker);
            self.consumed.notify(frame);
        }
    }

    /// `self` is `other` with `frame` marked for its first touch.
    pub open spec fn marked(self, other: Clock, frame: ReadFrameIdx) -> bool {
        &&& self.frame_count() == other.frame_count()
        &&& self.hand_position() == other.hand_position()
        &&& self.stores() == other.stores()
        &&& self.consumed_frames() == other.consumed_frames()
        &&& self.completed_frames() == other.completed_frames()
        &&& forall|f: ReadFrameIdx|
            self.has(f) ==> #[trigger] self.referenced(f) == (other.referenced(f) && f != frame)
        &&& forall|f: ReadFrameIdx|
            self.has(f) ==> #[trigger] self.speculation(f) == (if f == frame {
                SpeculationOutcome::Unconsumed
            } else {
                other.speculation(f)
            })
    }

    /// `self` is `other` with nothing left to notify of.
    pub open spec fn quieted(self, other: Clock) -> bool {
        &&& self.same_references(other)
        &&& self.consumed_frames() == Set::<ReadFrameIdx>::empty()
        &&& self.completed_frames() == Set::<ReadFrameIdx>::empty()
        &&& forall|f: ReadFrameIdx|
            self.has(f) ==> #[trigger] self.speculation(f) == other.speculation(f)
    }

    /// `self` is `other` with the marker of `frame` taken.
    pub open spec fn unmarked(self, other: Clock, frame: ReadFrameIdx) -> bool {
        &&& self.same_references(other)
        &&& self.consumed_frames() == other.consumed_frames()
        &&& self.completed_frames() == other.completed_frames()
        &&& forall|f: ReadFrameIdx|
            self.has(f) ==> #[trigger] self.speculation(f) == (if f == frame {
                SpeculationOutcome::Absent
            } else {
                other.speculation(f)
            })
    }

    /// Marks a frame taken by a speculative fill: its bit is clear and its
    /// first touch is still to come.
    pub fn begin_speculation(&mut self, frame: ReadFrameIdx)
        requires
            old(self).wf(),
            old(self).has(frame),
            old(self).speculation(frame) == SpeculationOutcome::Absent,
        ensures
            final(self).wf(),
            final(self).marked(*old(self), frame),
    {
        let index: usize = self.checked_index(frame);
        self.reference_bits.set(index, false);
        self.speculation.set(index, 1);
    }

    pub fn speculation_consumed(&self, frame: ReadFrameIdx) -> (consumed: bool)
        requires
            self.wf(),
            self.has(frame),
        ensures
            consumed == (self.speculation(frame) is Consumed),
    {
        self.speculation[self.checked_index(frame)] >= 2
    }

    pub fn is_speculative(&self, frame: ReadFrameIdx) -> (speculative: bool)
        requires
            self.wf(),
            self.has(frame),
        ensures
            speculative == !(self.speculation(frame) is Absent),
    {
        self.speculation[self.checked_index(frame)] != 0
    }

    /// Takes the marker of `frame`, leaving it absent.
    pub fn take_speculation(&mut self, frame: ReadFrameIdx) -> (outcome: SpeculationOutcome)
        requires
            old(self).wf(),
            old(self).has(frame),
        ensures
            final(self).wf(),
            outcome == old(self).speculation(frame),
            final(self).unmarked(*old(self), frame),
    {
        let index: usize = self.checked_index(frame);
        let marker: u64 = self.speculation[index];
        self.speculation.set(index, 0);
        if marker == 0 {
            SpeculationOutcome::Absent
        } else if marker == 1 {
            SpeculationOutcome::Unconsumed
        } else if marker == u64::MAX {
            SpeculationOutcome::Consumed(None)
        } else {
            SpeculationOutcome::Consumed(Some((marker - 2) as u32))
        }
    }

    /// Notes that the speculative fill of `frame` completed.
    pub fn notify_completed(&mut self, frame: ReadFrameIdx)
        requires
            old(self).wf(),
            old(self).has(frame),
        ensures
            final(self).wf(),
            final(self).same_references(*old(self)),
            final(self).consumed_frames() == old(self).consumed_frames(),
            final(self).completed_frames() == old(self).completed_frames().insert(frame),
            forall|f: ReadFrameIdx|
                final(self).has(f) ==> #[trigger] final(self).speculation(f) == old(
                    self,
                ).speculation(f),
    {
        self.completed.notify(frame);
    }

    /// Hands out the consumed frames in index order and forgets them.
    pub fn drain_consumed(&mut self) -> (frames: Vec<ReadFrameIdx>)
        requires
            old(self).wf(),
        ensures
            final(self).wf(),
            final(self).same_references(*old(self)),
            final(self).consumed_frames() == Set::<ReadFrameIdx>::empty(),
            final(self).completed_frames() == old(self).completed_frames(),
            forall|f: ReadFrameIdx|
                final(self).has(f) ==> #[trigger] final(self).speculation(f) == old(
                    self,
                ).speculation(f),
            forall|i: int, j: int|
                0 <= i < j < frames@.len() ==> (#[trigger] frames@[i]).0 < (#[trigger] frames@[j]).0,
            forall|f: ReadFrameIdx| frames@.contains(f) <==> old(self).consumed_frames().contains(f),
    {
        self.consumed.drain()
    }

    /// Hands out the completed frames in index order and forgets them.
    pub fn drain_completed(&mut self) -> (frames: Vec<ReadFrameIdx>)
        requires
            old(self).wf(),
        ensures
            final(self).wf(),
            final(self).same_references(*old(self)),
            final(self).consumed_frames() == old(self).consumed_frames(),
            final(self).completed_frames() == Set::<ReadFrameIdx>::empty(),
            forall|f: ReadFrameIdx|
                final(self).has(f) ==> #[trigger] final(self).speculation(f) == old(
                    self,
                ).speculation(f),
            forall|i: int, j: int|
                0 <= i < j < frames@.len() ==> (#[trigger] frames@[i]).0 < (#[trigger] frames@[j]).0,
            forall|f: ReadFrameIdx| frames@.contains(f) <==> old(self).completed_frames().contains(f),
    {
        self.completed.drain()
    }

    /// Only frames of this clock are notified.
    pub proof fn lemma_notified(self, frame: ReadFrameIdx)
        requires
            self.wf(),
        ensures
            self.consumed_frames().contains(frame) ==> self.has(frame),
            self.completed_frames().contains(frame) ==> self.has(frame),
    {
        self.consumed.lemma_bounded(frame);
        self.completed.lemma_bounded(frame);
    }

    /// Cumulative count of clear-to-set reference-bit stores.
    #[must_use]
    pub fn reference_stores(&self) -> (stores: u64)
        ensures
            stores == self.stores(),
    {
        self.reference_stores.get()
    }

    /// Whether `frame`'s reference bit is set.
    #[must_use]
    pub fn is_referenced(&self, frame: ReadFrameIdx) -> (referenced: bool)
        requires
            self.wf(),
            self.has(frame),
        ensures
            referenced == self.referenced(frame),
    {
        self.reference_bits[self.checked_index(frame)]
    }

    /// `self` is `other` after a sweep that evicted `victim`: the hand passed
    /// only set bits before it, spending them, and stopped at the first clear
    /// one. Where every bit was set it went around once and took the frame it
    /// started at.
    pub open spec fn swept(self, other: Clock, victim: ReadFrameIdx) -> bool {
        let hand = other.hand_position();
        let count = other.frame_count() as int;
        &&& other.has(victim)
        &&& forall|f: ReadFrameIdx|
            other.has(f) && distance(hand, f.0 as int, count) < distance(
                hand,
                victim.0 as int,
                count,
            ) ==> #[trigger] other.referenced(f)
        &&& other.referenced(victim) ==> victim.0 == hand && forall|f: ReadFrameIdx|
            other.has(f) ==> #[trigger] other.referenced(f)
        &&& self.hand_position() == (if victim.0 + 1 == count {
            0
        } else {
            victim.0 + 1
        })
        &&& forall|f: ReadFrameIdx|
            other.has(f) ==> #[trigger] self.referenced(f) == (other.referenced(f)
                && !other.referenced(victim) && distance(hand, f.0 as int, count) >= distance(
                hand,
                victim.0 as int,
                count,
            ))
        &&& self.stores() == other.stores()
        &&& self.same_speculation(other)
    }

    /// The hand offers `victims` in turn, one sweep each.
    pub open spec fn offers(trace: Seq<Clock>, victims: Seq<ReadFrameIdx>) -> bool {
        &&& trace.len() == victims.len() + 1
        &&& forall|k: int|
            0 <= k < victims.len() ==> (#[trigger] trace[k + 1]).swept(trace[k], victims[k])
    }

    /// Advances the hand until it lands on a clear bit, clearing every set bit
    /// it passes, and evicts that frame.
    pub fn evict_victim(&mut self) -> (victim: ReadFrameIdx)
        requires
            old(self).wf(),
        ensures
            final(self).wf(),
            final(self).swept(*old(self), victim),
    {
        let ghost start = *self;
        let mut passed: u32 = 0;
        let mut index: u32 = self.hand;
        while self.reference_bits[index as usize]
            invariant
                start.wf(),
                self.count == start.count,
                self.hand == start.hand,
                self.reference_stores == start.reference_stores,
                self.speculation == start.speculation,
                self.consumed == start.consumed,
                self.completed == start.completed,
                self.reference_bits@.len() == self.count,
                passed <= self.count,
                index < self.count,
                passed < self.count ==> distance(
                    start.hand as int,
                    index as int,
                    start.count as int,
                ) == passed,
                passed == self.count ==> index == start.hand,
                forall|i: int|
                    0 <= i < self.count ==> #[trigger] self.reference_bits@[i] == (
                    start.reference_bits@[i] && distance(start.hand as int, i, start.count as int)
                        >= passed),
                forall|i: int|
                    0 <= i < self.count && distance(start.hand as int, i, start.count as int)
                        < passed ==> #[trigger] start.reference_bits@[i],
            decreases self.count - passed,
        {
            self.reference_bits.set(index as usize, false);
            index = index + 1;
            if index == self.count {
                index = 0;
            }
            passed = passed + 1;
        }
        self.hand = if index + 1 == self.count {
            0
        } else {
            index + 1
        };
        proof {
            let victim = ReadFrameIdx(index);
            assert forall|f: ReadFrameIdx|
                start.has(f) && distance(start.hand as int, f.0 as int, start.count as int)
                    < distance(
                    start.hand as int,
                    victim.0 as int,
                    start.count as int,
                ) implies #[trigger] start.referenced(f) by {
                assert(start.reference_bits@[f.0 as int]);
            }
            if start.referenced(victim) {
                assert forall|f: ReadFrameIdx| start.has(f) implies #[trigger] start.referenced(
                    f,
                ) by {
                    assert(start.reference_bits@[f.0 as int]);
                }
            }
            assert(self.speculation@ == start.speculation@);
        }
        ReadFrameIdx(index)
    }

    fn checked_index(&self, frame: ReadFrameIdx) -> (index: usize)
        requires
            self.wf(),
            self.has(frame),
        ensures
            index == frame.0,
            index < self.reference_bits@.len(),
            index < self.speculation@.len(),
    {
        frame.get() as usize
    }
}

/// A repeat touch stores nothing: once a frame's bit is set, touching it
/// again leaves the clock exactly as it was.
pub proof fn repeat_touch_stores_nothing(
    before: Clock,
    once: Clock,
    twice: Clock,
    frame: ReadFrameIdx,
    reader: Option<u32>,
    again: Option<u32>,
)
    requires
        before.has(frame),
        once.touched(before, frame, reader),
        twice.touched(once, frame, again),
    ensures
        twice == once,
{
    assert(once.referenced(frame));
}

/// A first touch stores one bit, that of its frame, and leaves the hand alone.
pub proof fn a_first_touch_stores_one_bit(
    before: Clock,
    after: Clock,
    frame: ReadFrameIdx,
    reader: Option<u32>,
    other: ReadFrameIdx,
)
    requires
        before.has(frame),
        before.has(other),
        !before.referenced(frame),
        after.touched(before, frame, reader),
    ensures
        after.referenced(frame),
        after.stores() == before.stores().wrapping_add(1),
        after.hand_position() == before.hand_position(),
        after.completed_frames() == before.completed_frames(),
        other != frame ==> after.referenced(other) == before.referenced(other)
            && after.speculation(other) == before.speculation(other)
            && after.consumed_frames().contains(other) == before.consumed_frames().contains(other),
{
}

/// A touched frame survives the next sweep unless every frame was touched:
/// its bit buys it a second chance.
pub proof fn touched_frame_gets_a_second_chance(
    before: Clock,
    after: Clock,
    victim: ReadFrameIdx,
    frame: ReadFrameIdx,
    idle: ReadFrameIdx,
)
    requires
        before.has(frame),
        before.referenced(frame),
        before.has(idle),
        !before.referenced(idle),
        after.swept(before, victim),
    ensures
        victim != frame,
        !before.referenced(victim),
{
}

/// A frame left untouched falls to the second sweep at the latest once the
/// hand reaches it: the sweep that passes a frame leaves its bit clear.
pub proof fn a_passed_frame_has_spent_its_chance(
    before: Clock,
    after: Clock,
    victim: ReadFrameIdx,
    frame: ReadFrameIdx,
)
    requires
        before.has(frame),
        after.swept(before, victim),
        distance(before.hand_position(), frame.0 as int, before.frame_count() as int) <= distance(
            before.hand_position(),
            victim.0 as int,
            before.frame_count() as int,
        ),
    ensures
        !after.referenced(frame),
{
    assert(after.referenced(frame) == (before.referenced(frame) && !before.referenced(victim)
        && distance(before.hand_position(), frame.0 as int, before.frame_count() as int)
        >= distance(before.hand_position(), victim.0 as int, before.frame_count() as int)));
}

/// The distance of a frame is the number of steps that take the hand there,
/// going round.
pub proof fn the_hand_goes_round(hand: int, frame: int, count: int)
    requires
        0 <= hand < count,
        0 <= frame < count,
    ensures
        0 <= distance(hand, frame, count) < count,
        (hand + distance(hand, frame, count)) % count == frame,
        distance(hand, frame, count) == 0 <==> frame == hand,
{
    if frame < hand {
        assert((frame + count) % count == frame) by (nonlinear_arith)
            requires
                0 <= frame < count,
        ;
    } else {
        assert(frame % count == frame) by (nonlinear_arith)
            requires
                0 <= frame < count,
        ;
    }
}

/// A sweep evicts the first frame from the hand on that was not used since the
/// hand last passed it, or, where all were, the frame at the hand. The frames it
/// passes lose their mark, those ahead of it keep theirs, and the hand stops
/// behind the victim.
pub proof fn a_sweep_takes_the_first_unused_frame(
    before: Clock,
    after: Clock,
    victim: ReadFrameIdx,
    steps: int,
    frame: ReadFrameIdx,
    away: int,
)
    requires
        before.wf(),
        after.swept(before, victim),
        0 <= steps < before.frame_count(),
        victim.0 == (before.hand_position() + steps) % (before.frame_count() as int),
        before.has(frame),
        0 <= away < before.frame_count(),
        frame.0 == (before.hand_position() + away) % (before.frame_count() as int),
    ensures
        away < steps ==> before.referenced(frame) && !after.referenced(frame),
        before.referenced(victim) ==> steps == 0 && before.referenced(frame) && !after.referenced(
            frame,
        ),
        !before.referenced(victim) && away >= steps ==> after.referenced(frame)
            == before.referenced(frame),
        after.hand_position() == (before.hand_position() + steps + 1) % (
        before.frame_count() as int),
        after.speculation(frame) == before.speculation(frame),
{
    let count = before.frame_count() as int;
    let hand = before.hand_position();
    lemma_steps(hand, victim.0 as int, count, steps);
    lemma_steps(hand, frame.0 as int, count, away);
    if victim.0 + 1 == count {
        assert((hand + steps + 1) % count == 0) by (nonlinear_arith)
            requires
                0 <= hand < count,
                0 <= steps < count,
                (hand + steps) % count + 1 == count,
        ;
    } else {
        assert((hand + steps + 1) % count == (hand + steps) % count + 1) by (nonlinear_arith)
            requires
                0 <= hand < count,
                0 <= steps < count,
                (hand + steps) % count + 1 < count,
        ;
    }
}

/// The steps that lead to a frame are its distance.
proof fn lemma_steps(hand: int, frame: int, count: int, steps: int)
    requires
        0 <= hand < count,
        0 <= frame < count,
        0 <= steps < count,
        frame == (hand + steps) % count,
    ensures
        distance(hand, frame, count) == steps,
{
    if hand + steps < count {
        assert((hand + steps) % count == hand + steps) by (nonlinear_arith)
            requires
                0 <= hand + steps < count,
        ;
    } else {
        assert((hand + steps) % count == hand + steps - count) by (nonlinear_arith)
            requires
                count <= hand + steps < 2 * count,
        ;
    }
}

/// The first use of a predicted page is noticed, with the reader that used it,
/// and no use but the first: a touch marks its frame, and turns a prediction
/// that is waiting for its first use into one that is used.
pub proof fn the_first_use_of_a_prediction_is_noticed(
    before: Clock,
    after: Clock,
    frame: ReadFrameIdx,
    reader: Option<u32>,
    other: ReadFrameIdx,
)
    requires
        after.touched(before, frame, reader),
        before.has(frame),
        before.has(other),
    ensures
        after.referenced(frame),
        !before.referenced(frame) && before.speculation(frame) is Unconsumed
            ==> after.speculation(frame) == SpeculationOutcome::Consumed(reader)
            && after.consumed_frames().contains(frame),
        !(before.speculation(frame) is Unconsumed) ==> after.speculation(frame)
            == before.speculation(frame),
        before.referenced(frame) ==> after == before,
        other != frame ==> after.speculation(other) == before.speculation(other)
            && after.referenced(other) == before.referenced(other)
            && after.consumed_frames().contains(other) == before.consumed_frames().contains(other),
        after.hand_position() == before.hand_position(),
{
}

/// A frame that is to be filled on speculation waits for its first use: it
/// counts as unused, whatever was in it before.
pub proof fn a_speculative_frame_waits_for_its_first_use(
    before: Clock,
    marked: Clock,
    after: Clock,
    frame: ReadFrameIdx,
    reader: Option<u32>,
)
    requires
        before.has(frame),
        marked.marked(before, frame),
        after.touched(marked, frame, reader),
    ensures
        !marked.referenced(frame),
        marked.speculation(frame) is Unconsumed,
        after.speculation(frame) == SpeculationOutcome::Consumed(reader),
{
}

} // verus!
