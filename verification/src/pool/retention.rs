//! Fixed retention bookkeeping: which frames are kept alive by retained
//! handles, within a budget of distinct frames, and which of them wait for
//! reclamation behind their last handle.

use crate::pool::epoch::{matured, FrameGuard, FrameOutcome};
use crate::pool::frames::{ArenaId, ReadFrameIdx};
use crate::pool::release_ring::{ReleaseRing, RING_CAPACITY_MAX, TICKET_MAX};
use crate::product::WaitState;
use vstd::prelude::*;

verus! {

/// The mark of a frame whose eviction matured while handles kept it.
pub const HELD: u32 = 0x1_0000;

/// The most handles one frame can have.
pub const COUNT_MASK: u32 = 0xffff;

/// A handle that keeps one frame's bytes until it is released.
#[derive(Debug)]
pub struct RetainedFrame {
    pool: ArenaId,
    frame: ReadFrameIdx,
}

impl RetainedFrame {
    pub closed spec fn pool(self) -> ArenaId {
        self.pool
    }

    pub closed spec fn kept(self) -> ReadFrameIdx {
        self.frame
    }

    pub(crate) fn new(pool: ArenaId, frame: ReadFrameIdx) -> (handle: Self)
        ensures
            handle.pool() == pool,
            handle.kept() == frame,
    {
        RetainedFrame { pool, frame }
    }

    /// The retained frame.
    pub fn frame(&self) -> (frame: ReadFrameIdx)
        ensures
            frame == self.kept(),
    {
        self.frame
    }
}

/// A refused promotion gives the still-live guard back.
#[derive(Debug)]
pub struct RetainRefused {
    pub guard: FrameGuard,
    pub reason: RetainRefusedReason,
}

#[derive(Debug, Clone, Copy, PartialEq, Eq, Structural)]
pub enum RetainRefusedReason {
    Exhausted,
    FileRetiring,
}

#[derive(Debug, Clone, Copy, PartialEq, Eq, Structural)]
pub struct RetentionStats {
    pub occupied_budget: u32,
    pub refused_budget: u64,
    pub refused_ceiling: u64,
    pub refused_contention: u64,
    pub refused_retiring: u64,
    pub retained_evictions_held: u64,
}

/// What one attempt from an observed word comes to.
#[derive(Debug, Clone, Copy, PartialEq, Eq, Structural)]
pub enum Promotion {
    Retained,
    /// The word changed since it was observed.
    Retry,
    Refused(RetainRefusedReason),
}

/// The frames that occupy a unit of the budget.
pub open spec fn occupied_frames(words: Seq<u32>) -> Set<int> {
    Set::new(|i: int| 0 <= i < words.len() && words[i] != 0)
}

#[derive(Debug)]
pub struct Retention {
    words: Vec<u32>,
    tags: Vec<u64>,
    retiring: Vec<bool>,
    occupied_budget: u32,
    refused_budget: u64,
    refused_ceiling: u64,
    refused_contention: u64,
    refused_retiring: u64,
    retained_evictions_held: u64,
    release_ring: Option<ReleaseRing>,
    release_cursor: u64,
    max_retained_frames: u32,
    max_concurrent_readers: u32,
    frame_count: u32,
}

impl Retention {
    pub closed spec fn enabled(self) -> bool {
        self.max_retained_frames > 0
    }

    pub closed spec fn frames(self) -> nat {
        self.frame_count as nat
    }

    pub closed spec fn budget(self) -> nat {
        self.max_retained_frames as nat
    }

    pub closed spec fn readers(self) -> nat {
        self.max_concurrent_readers as nat
    }

    /// The file slots that can be marked retiring.
    pub closed spec fn file_slots(self) -> nat {
        self.retiring@.len()
    }

    pub open spec fn has(self, frame: ReadFrameIdx) -> bool {
        frame.0 < self.frames()
    }

    spec fn word_at(self, frame: ReadFrameIdx) -> u32 {
        if self.enabled() {
            self.words@[frame.0 as int]
        } else {
            0
        }
    }

    /// The live handles of `frame`.
    pub closed spec fn handles(self, frame: ReadFrameIdx) -> nat {
        (self.word_at(frame) as int % 0x1_0000) as nat
    }

    /// `frame`'s eviction matured under its handles.
    pub closed spec fn held(self, frame: ReadFrameIdx) -> bool {
        self.word_at(frame) >= HELD
    }

    /// The eviction tag of a held frame.
    pub closed spec fn tag_of(self, frame: ReadFrameIdx) -> u64 {
        self.tags@[frame.0 as int]
    }

    pub closed spec fn is_retiring(self, file_slot: int) -> bool {
        self.retiring@[file_slot]
    }

    /// The held frames without handles, in the order their last handle went.
    pub closed spec fn pending(self) -> Seq<ReadFrameIdx> {
        if self.enabled() {
            Seq::new(
                self.release_ring->0.pending(self.release_cursor as int).len(),
                |k: int|
                    ReadFrameIdx(self.release_ring->0.pending(self.release_cursor as int)[k]),
            )
        } else {
            Seq::empty()
        }
    }

    /// The releases queued so far.
    pub closed spec fn tickets(self) -> nat {
        if self.enabled() {
            self.release_ring->0.tickets()
        } else {
            0
        }
    }

    pub closed spec fn stats(self) -> RetentionStats {
        RetentionStats {
            occupied_budget: self.occupied_budget,
            refused_budget: self.refused_budget,
            refused_ceiling: self.refused_ceiling,
            refused_contention: self.refused_contention,
            refused_retiring: self.refused_retiring,
            retained_evictions_held: self.retained_evictions_held,
        }
    }

    pub closed spec fn wf(self) -> bool {
        &&& self.max_retained_frames == 0 ==> {
            &&& self.words@.len() == 0
            &&& self.tags@.len() == 0
            &&& self.retiring@.len() == 0
            &&& self.release_ring is None
            &&& self.occupied_budget == 0
        }
        &&& self.max_retained_frames > 0 ==> {
            &&& self.max_retained_frames <= RING_CAPACITY_MAX
            &&& self.words@.len() == self.frame_count
            &&& self.tags@.len() == self.frame_count
            &&& self.release_ring is Some
            &&& self.release_ring->0.settled(self.release_cursor as int)
            &&& self.release_ring->0.room() >= self.max_retained_frames
            &&& self.occupied_budget == occupied_frames(self.words@).len()
            &&& self.occupied_budget <= self.max_retained_frames
            &&& forall|i: int| 0 <= i < self.frame_count ==> #[trigger] self.words@[i] < 2 * HELD
            &&& self.queued()
        }
    }

    /// The ring holds each held frame without handles exactly once.
    spec fn queued(self) -> bool {
        let ring = self.release_ring->0.pending(self.release_cursor as int);
        &&& ring.no_duplicates()
        &&& forall|k: int|
            0 <= k < ring.len() ==> (#[trigger] ring[k]) < self.frame_count
                && self.words@[ring[k] as int] == HELD
        &&& forall|i: int|
            0 <= i < self.frame_count && #[trigger] self.words@[i] == HELD ==> ring.contains(
                i as u32,
            )
    }

    /// What the budget counts: every frame with a handle or a hold occupies
    /// one unit, and the pending frames are exactly the held ones without
    /// handles, each once.
    pub proof fn lemma_budget(self)
        requires
            self.wf(),
        ensures
            self.budget() <= u32::MAX,
            self.stats().occupied_budget <= self.budget(),
            forall|f: ReadFrameIdx|
                self.has(f) && (#[trigger] self.handles(f) > 0 || self.held(f)) ==> self.stats().occupied_budget
                    > 0,
            self.pending().no_duplicates(),
            forall|f: ReadFrameIdx|
                #[trigger] self.pending().contains(f) <==> self.has(f) && self.held(f)
                    && self.handles(f) == 0,
            self.pending().len() <= self.stats().occupied_budget,
    {
        if self.enabled() {
            let ring = self.release_ring->0.pending(self.release_cursor as int);
            let set = occupied_frames(self.words@);
            lemma_occupied_finite(self.words@);
            assert forall|f: ReadFrameIdx|
                self.has(f) && (#[trigger] self.handles(f) > 0 || self.held(f)) implies self.stats().occupied_budget
                > 0 by {
                assert(set.contains(f.0 as int));
                if set.len() == 0 {
                    assert(set =~= Set::empty());
                }
            }
            assert(self.pending().no_duplicates()) by {
                assert forall|i: int, j: int|
                    0 <= i < self.pending().len() && 0 <= j < self.pending().len() && i
                        != j implies self.pending()[i] != self.pending()[j] by {
                    assert(ring[i] != ring[j]);
                }
            }
            assert forall|f: ReadFrameIdx|
                #[trigger] self.pending().contains(f) <==> self.has(f) && self.held(f)
                    && self.handles(f) == 0 by {
                if self.pending().contains(f) {
                    let k = choose|k: int| 0 <= k < self.pending().len() && self.pending()[k] == f;
                    assert(ring[k] == f.0);
                }
                if self.has(f) && self.held(f) && self.handles(f) == 0 {
                    assert(self.words@[f.0 as int] == HELD);
                    let k = choose|k: int| 0 <= k < ring.len() && ring[k] == f.0;
                    assert(self.pending()[k] == f);
                }
            }
            lemma_distinct_within(ring, self.words@);
        }
    }

    /// Disabled retention keeps nothing.
    pub proof fn lemma_disabled(self)
        requires
            !self.enabled(),
        ensures
            self.pending() == Seq::<ReadFrameIdx>::empty(),
            self.tickets() == 0,
            forall|f: ReadFrameIdx| #[trigger] self.handles(f) == 0,
            forall|f: ReadFrameIdx| !(#[trigger] self.held(f)),
    {
    }

    /// Fixed storage for `frame_count` frames and `file_slots` file slots. A
    /// zero budget disables retention.
    pub fn preallocated(
        frame_count: u32,
        max_retained_frames: u32,
        max_concurrent_readers: u32,
        file_slots: u32,
    ) -> (retention: Self)
        requires
            max_retained_frames <= RING_CAPACITY_MAX,
        ensures
            retention.wf(),
            retention.enabled() == (max_retained_frames > 0),
            retention.frames() == frame_count,
            retention.budget() == max_retained_frames,
            retention.readers() == max_concurrent_readers,
            retention.enabled() ==> retention.file_slots() == file_slots,
            retention.tickets() == 0,
            retention.pending() == Seq::<ReadFrameIdx>::empty(),
            retention.stats() == (RetentionStats {
                occupied_budget: 0,
                refused_budget: 0,
                refused_ceiling: 0,
                refused_contention: 0,
                refused_retiring: 0,
                retained_evictions_held: 0,
            }),
            forall|f: ReadFrameIdx|
                retention.has(f) ==> #[trigger] retention.handles(f) == 0 && !retention.held(f),
            forall|f: ReadFrameIdx| retention.has(f) ==> !(#[trigger] retention.held(f)),
            forall|s: int| 0 <= s < retention.file_slots() ==> !(#[trigger] retention.is_retiring(s)),
    {
        if max_retained_frames == 0 {
            return Retention {
                words: Vec::new(),
                tags: Vec::new(),
                retiring: Vec::new(),
                occupied_budget: 0,
                refused_budget: 0,
                refused_ceiling: 0,
                refused_contention: 0,
                refused_retiring: 0,
                retained_evictions_held: 0,
                release_ring: None,
                release_cursor: 0,
                max_retained_frames: 0,
                max_concurrent_readers,
                frame_count,
            };
        }
        let words: Vec<u32> = vec![0u32; frame_count as usize];
        let tags: Vec<u64> = vec![0u64; frame_count as usize];
        let retiring: Vec<bool> = vec![false; file_slots as usize];
        let ring = ReleaseRing::preallocated(max_retained_frames);
        let retention = Retention {
            words,
            tags,
            retiring,
            occupied_budget: 0,
            refused_budget: 0,
            refused_ceiling: 0,
            refused_contention: 0,
            refused_retiring: 0,
            retained_evictions_held: 0,
            release_ring: Some(ring),
            release_cursor: 0,
            max_retained_frames,
            max_concurrent_readers,
            frame_count,
        };
        proof {
            assert(occupied_frames(retention.words@) =~= Set::empty());
            assert(retention.pending() =~= Seq::empty());
        }
        retention
    }

    pub fn retention_stats(&self) -> (stats: RetentionStats)
        ensures
            stats == self.stats(),
    {
        RetentionStats {
            occupied_budget: self.occupied_budget,
            refused_budget: self.refused_budget,
            refused_ceiling: self.refused_ceiling,
            refused_contention: self.refused_contention,
            refused_retiring: self.refused_retiring,
            retained_evictions_held: self.retained_evictions_held,
        }
    }

    pub fn is_disabled(&self) -> (disabled: bool)
        ensures
            disabled == !self.enabled(),
    {
        self.max_retained_frames == 0
    }

    pub fn has_occupied_budget(&self) -> (occupied: bool)
        ensures
            occupied == (self.stats().occupied_budget > 0),
    {
        self.occupied_budget > 0
    }

    /// Everything the handles, holds and queue record.
    pub open spec fn same_frames(self, other: Retention) -> bool {
        &&& self.enabled() == other.enabled()
        &&& self.frames() == other.frames()
        &&& self.budget() == other.budget()
        &&& self.readers() == other.readers()
        &&& self.file_slots() == other.file_slots()
        &&& self.pending() == other.pending()
        &&& self.tickets() == other.tickets()
        &&& self.stats().occupied_budget == other.stats().occupied_budget
        &&& forall|f: ReadFrameIdx|
            self.has(f) ==> #[trigger] self.handles(f) == other.handles(f)
        &&& forall|f: ReadFrameIdx| self.has(f) ==> #[trigger] self.held(f) == other.held(f)
        &&& forall|f: ReadFrameIdx| self.has(f) ==> #[trigger] self.tag_of(f) == other.tag_of(f)
    }

    pub open spec fn same_retiring(self, other: Retention) -> bool {
        forall|s: int|
            0 <= s < self.file_slots() ==> #[trigger] self.is_retiring(s) == other.is_retiring(s)
    }

    /// From here on no frame of the file slot is newly retained.
    pub fn mark_file_retiring(&mut self, file_slot: u32)
        requires
            old(self).wf(),
            old(self).enabled() ==> file_slot < old(self).file_slots(),
        ensures
            final(self).wf(),
            final(self).same_frames(*old(self)),
            final(self).stats() == old(self).stats(),
            forall|s: int|
                0 <= s < old(self).file_slots() ==> #[trigger] final(self).is_retiring(s) == (old(
                    self,
                ).is_retiring(s) || s == file_slot),
    {
        if !self.is_disabled() {
            self.retiring.set(file_slot as usize, true);
        }
    }

    pub fn clear_file_retiring(&mut self, file_slot: u32)
        requires
            old(self).wf(),
            old(self).enabled() ==> file_slot < old(self).file_slots(),
        ensures
            final(self).wf(),
            final(self).same_frames(*old(self)),
            final(self).stats() == old(self).stats(),
            forall|s: int|
                0 <= s < old(self).file_slots() ==> #[trigger] final(self).is_retiring(s) == (old(
                    self,
                ).is_retiring(s) && s != file_slot),
    {
        if !self.is_disabled() {
            self.retiring.set(file_slot as usize, false);
        }
    }

    /// The word an attempt observes before it promotes.
    pub fn observe(&self, frame: ReadFrameIdx) -> (word: u32)
        requires
            self.wf(),
            self.enabled(),
            self.has(frame),
        ensures
            word == self.observed(frame),
    {
        self.words[frame.0 as usize]
    }

    pub closed spec fn observed(self, frame: ReadFrameIdx) -> u32 {
        self.word_at(frame)
    }

    /// A word counts handles below its hold.
    pub proof fn lemma_observed(self, frame: ReadFrameIdx)
        requires
            self.wf(),
            self.has(frame),
        ensures
            self.observed(frame) == self.handles(frame) + (if self.held(frame) {
                HELD as int
            } else {
                0
            }),
            self.handles(frame) <= COUNT_MASK,
    {
        if self.enabled() {
            assert(self.words@[frame.0 as int] < 2 * HELD);
        }
    }

    /// What an attempt from the observed word `previous` comes to.
    pub open spec fn promotion(self, frame: ReadFrameIdx, previous: u32) -> Promotion {
        if previous == COUNT_MASK {
            Promotion::Refused(RetainRefusedReason::Exhausted)
        } else if previous > 0 {
            if self.observed(frame) == previous {
                Promotion::Retained
            } else {
                Promotion::Retry
            }
        } else if self.stats().occupied_budget >= self.budget() {
            if self.handles(frame) > 0 {
                Promotion::Retry
            } else {
                Promotion::Refused(RetainRefusedReason::Exhausted)
            }
        } else if self.observed(frame) == 0 {
            Promotion::Retained
        } else {
            Promotion::Retry
        }
    }

    /// `self` is `other` with one more handle on `frame`.
    pub open spec fn retained(self, other: Retention, frame: ReadFrameIdx) -> bool {
        &&& self.enabled() == other.enabled()
        &&& self.frames() == other.frames()
        &&& self.budget() == other.budget()
        &&& self.readers() == other.readers()
        &&& self.file_slots() == other.file_slots()
        &&& self.same_retiring(other)
        &&& self.pending() == other.pending()
        &&& self.tickets() == other.tickets()
        &&& self.stats() == (RetentionStats {
            occupied_budget: self.stats().occupied_budget,
            ..other.stats()
        })
        &&& self.stats().occupied_budget == other.stats().occupied_budget + (if other.handles(frame)
            == 0 {
            1int
        } else {
            0
        })
        &&& forall|f: ReadFrameIdx|
            self.has(f) ==> #[trigger] self.handles(f) == other.handles(f) + (if f == frame {
                1nat
            } else {
                0
            })
        &&& forall|f: ReadFrameIdx| self.has(f) ==> #[trigger] self.held(f) == other.held(f)
        &&& forall|f: ReadFrameIdx| self.has(f) ==> #[trigger] self.tag_of(f) == other.tag_of(f)
    }

    /// One attempt from an observed word: it takes effect only if the word is
    /// still what was observed.
    pub fn promote_once(&mut self, frame: ReadFrameIdx, previous: u32) -> (step: Promotion)
        requires
            old(self).wf(),
            old(self).enabled(),
            old(self).has(frame),
            previous < HELD,
        ensures
            final(self).wf(),
            step == old(self).promotion(frame, previous),
            match step {
                Promotion::Retained => final(self).retained(*old(self), frame),
                Promotion::Retry => *final(self) == *old(self),
                Promotion::Refused(_) => {
                    &&& final(self).same_frames(*old(self))
                    &&& final(self).same_retiring(*old(self))
                    &&& previous == COUNT_MASK ==> final(self).stats() == (RetentionStats {
                        refused_ceiling: old(self).stats().refused_ceiling.wrapping_add(1),
                        ..old(self).stats()
                    })
                    &&& previous != COUNT_MASK ==> final(self).stats() == (RetentionStats {
                        refused_budget: old(self).stats().refused_budget.wrapping_add(1),
                        ..old(self).stats()
                    })
                },
            },
    {
        let word: u32 = self.words[frame.0 as usize];
        if previous == COUNT_MASK {
            self.refused_ceiling = self.refused_ceiling.wrapping_add(1);
            return Promotion::Refused(RetainRefusedReason::Exhausted);
        }
        if previous > 0 {
            if word != previous {
                return Promotion::Retry;
            }
            self.add_handle(frame);
            return Promotion::Retained;
        }
        if self.occupied_budget >= self.max_retained_frames {
            if word % HELD > 0 {
                return Promotion::Retry;
            }
            self.refused_budget = self.refused_budget.wrapping_add(1);
            return Promotion::Refused(RetainRefusedReason::Exhausted);
        }
        if word != 0 {
            return Promotion::Retry;
        }
        self.add_handle(frame);
        Promotion::Retained
    }

    fn add_handle(&mut self, frame: ReadFrameIdx)
        requires
            old(self).wf(),
            old(self).enabled(),
            old(self).has(frame),
            old(self).observed(frame) < COUNT_MASK,
            old(self).observed(frame) == 0 ==> old(self).stats().occupied_budget < old(
                self,
            ).budget(),
        ensures
            final(self).wf(),
            final(self).retained(*old(self), frame),
    {
        let index: usize = frame.0 as usize;
        let word: u32 = self.words[index];
        self.words.set(index, word + 1);
        if word == 0 {
            self.occupied_budget = self.occupied_budget + 1;
        }
        proof {
            lemma_occupied_update(old(self).words@, index as int, (word + 1) as u32);
            assert(self.pending() =~= old(self).pending());
            let ring = self.release_ring->0.pending(self.release_cursor as int);
            assert forall|k: int| 0 <= k < ring.len() implies (#[trigger] ring[k])
                < self.frame_count && self.words@[ring[k] as int] == HELD by {
                assert(old(self).words@[ring[k] as int] == HELD);
            }
            assert forall|i: int|
                0 <= i < self.frame_count && #[trigger] self.words@[i] == HELD implies ring.contains(
                i as u32,
            ) by {
                assert(old(self).words@[i] == HELD);
            }
        }
    }

    /// Adds a handle to a frame a guard pins. The attempt is refused at the
    /// per-frame ceiling, when it would exceed the budget, and when the
    /// frame's file is retiring; a refusal changes nothing but its count.
    pub fn promote(&mut self, frame: ReadFrameIdx, file_slot: u32) -> (outcome: Result<
        (),
        RetainRefusedReason,
    >)
        requires
            old(self).wf(),
            old(self).has(frame),
            !old(self).held(frame),
            old(self).enabled() ==> file_slot < old(self).file_slots(),
        ensures
            final(self).wf(),
            match outcome {
                Ok(()) => {
                    &&& old(self).admits(frame)
                    &&& !old(self).is_retiring(file_slot as int)
                    &&& final(self).retained(*old(self), frame)
                },
                Err(RetainRefusedReason::Exhausted) => {
                    &&& !old(self).admits(frame)
                    &&& final(self).refused(*old(self), frame)
                },
                Err(RetainRefusedReason::FileRetiring) => {
                    &&& old(self).admits(frame)
                    &&& old(self).is_retiring(file_slot as int)
                    &&& final(self).refused(*old(self), frame)
                },
            },
    {
        if self.is_disabled() {
            self.refused_budget = self.refused_budget.wrapping_add(1);
            return Err(RetainRefusedReason::Exhausted);
        }
        proof {
            self.lemma_observed(frame);
        }
        let word: u32 = self.words[frame.0 as usize];
        match self.promote_once(frame, word) {
            Promotion::Retained => self.reject_retiring(frame, file_slot),
            Promotion::Retry => Err(RetainRefusedReason::Exhausted),
            Promotion::Refused(reason) => Err(reason),
        }
    }

    /// One more handle on `frame` stays within the ceiling and the budget.
    pub open spec fn admits(self, frame: ReadFrameIdx) -> bool {
        &&& self.enabled()
        &&& self.handles(frame) < COUNT_MASK
        &&& self.handles(frame) == 0 ==> self.stats().occupied_budget < self.budget()
    }

    /// A refused handle changes nothing but the count of its reason.
    pub open spec fn refused(self, other: Retention, frame: ReadFrameIdx) -> bool {
        &&& self.same_frames(other)
        &&& self.same_retiring(other)
        &&& self.stats() == (if other.admits(frame) {
            RetentionStats {
                refused_retiring: other.stats().refused_retiring.wrapping_add(1),
                ..other.stats()
            }
        } else if other.enabled() && other.handles(frame) == COUNT_MASK {
            RetentionStats {
                refused_ceiling: other.stats().refused_ceiling.wrapping_add(1),
                ..other.stats()
            }
        } else {
            RetentionStats {
                refused_budget: other.stats().refused_budget.wrapping_add(1),
                ..other.stats()
            }
        })
    }

    /// The attempt from the `k`th observation is the first that need not be
    /// retried.
    pub open spec fn decides(self, frame: ReadFrameIdx, observations: Seq<u32>, k: int) -> bool {
        &&& 0 <= k < observations.len()
        &&& !(self.promotion(frame, observations[k]) is Retry)
        &&& forall|j: int|
            0 <= j < k ==> self.promotion(frame, #[trigger] observations[j]) is Retry
    }

    /// Attempts from a series of observed words, as racing promoters see
    /// them: the first attempt that does not have to be retried decides, and
    /// when every allowed attempt was overtaken the refusal is counted as
    /// contention.
    pub fn promote_racing(
        &mut self,
        frame: ReadFrameIdx,
        file_slot: u32,
        observations: &Vec<u32>,
    ) -> (outcome: Result<(), RetainRefusedReason>)
        requires
            old(self).wf(),
            old(self).enabled(),
            old(self).has(frame),
            !old(self).held(frame),
            file_slot < old(self).file_slots(),
            observations@.len() == old(self).readers() + 1,
            forall|k: int| 0 <= k < observations@.len() ==> #[trigger] observations@[k] < HELD,
        ensures
            final(self).wf(),
            (forall|k: int|
                0 <= k < observations@.len() ==> old(self).promotion(
                    frame,
                    #[trigger] observations@[k],
                ) is Retry) ==> {
                &&& outcome == Err::<(), RetainRefusedReason>(RetainRefusedReason::Exhausted)
                &&& final(self).same_frames(*old(self))
                &&& final(self).same_retiring(*old(self))
                &&& final(self).stats() == (RetentionStats {
                    refused_contention: old(self).stats().refused_contention.wrapping_add(1),
                    ..old(self).stats()
                })
            },
            forall|k: int| #[trigger]
                old(self).decides(frame, observations@, k) ==> match old(self).promotion(
                    frame,
                    observations@[k],
                ) {
                    Promotion::Retained => if old(self).is_retiring(file_slot as int) {
                        &&& outcome == Err::<(), RetainRefusedReason>(
                            RetainRefusedReason::FileRetiring,
                        )
                        &&& final(self).same_frames(*old(self))
                        &&& final(self).same_retiring(*old(self))
                        &&& final(self).stats() == (RetentionStats {
                            refused_retiring: old(self).stats().refused_retiring.wrapping_add(1),
                            ..old(self).stats()
                        })
                    } else {
                        outcome is Ok && final(self).retained(*old(self), frame)
                    },
                    Promotion::Refused(reason) => {
                        &&& outcome == Err::<(), RetainRefusedReason>(reason)
                        &&& final(self).same_frames(*old(self))
                        &&& final(self).same_retiring(*old(self))
                        &&& final(self).stats() == (if observations@[k] == COUNT_MASK {
                            RetentionStats {
                                refused_ceiling: old(self).stats().refused_ceiling.wrapping_add(1),
                                ..old(self).stats()
                            }
                        } else {
                            RetentionStats {
                                refused_budget: old(self).stats().refused_budget.wrapping_add(1),
                                ..old(self).stats()
                            }
                        })
                    },
                    Promotion::Retry => true,
                },
    {
        let mut k: usize = 0;
        while k < observations.len()
            invariant
                k <= observations@.len(),
                *self == *old(self),
                old(self).wf(),
                old(self).enabled(),
                old(self).has(frame),
                !old(self).held(frame),
                file_slot < old(self).file_slots(),
                forall|j: int| 0 <= j < observations@.len() ==> #[trigger] observations@[j] < HELD,
                forall|j: int|
                    0 <= j < k ==> old(self).promotion(frame, #[trigger] observations@[j]) is Retry,
            decreases observations@.len() - k,
        {
            let previous: u32 = observations[k];
            match self.promote_once(frame, previous) {
                Promotion::Retained => {
                    proof {
                        assert(old(self).promotion(frame, observations@[k as int]) is Retained);
                        old(self).lemma_observed(frame);
                    }
                    return self.reject_retiring(frame, file_slot);
                },
                Promotion::Retry => {},
                Promotion::Refused(reason) => {
                    assert(!(old(self).promotion(frame, observations@[k as int]) is Retry));
                    return Err(reason);
                },
            }
            k = k + 1;
        }
        self.refused_contention = self.refused_contention.wrapping_add(1);
        Err(RetainRefusedReason::Exhausted)
    }

    /// Takes the new handle back where its file is retiring.
    fn reject_retiring(&mut self, frame: ReadFrameIdx, file_slot: u32) -> (outcome: Result<
        (),
        RetainRefusedReason,
    >)
        requires
            old(self).wf(),
            old(self).enabled(),
            old(self).has(frame),
            !old(self).held(frame),
            old(self).handles(frame) > 0,
            file_slot < old(self).file_slots(),
        ensures
            final(self).wf(),
            outcome is Ok <==> !old(self).is_retiring(file_slot as int),
            match outcome {
                Ok(()) => *final(self) == *old(self),
                Err(reason) => {
                    &&& reason == RetainRefusedReason::FileRetiring
                    &&& old(self).retained_stats_undone(*final(self), frame)
                },
            },
    {
        if !self.retiring[file_slot as usize] {
            return Ok(());
        }
        self.drop_handle(frame);
        self.refused_retiring = self.refused_retiring.wrapping_add(1);
        Err(RetainRefusedReason::FileRetiring)
    }

    /// `other` is `self` without one handle of `frame`, one refusal counted.
    spec fn retained_stats_undone(self, other: Retention, frame: ReadFrameIdx) -> bool {
        &&& other.enabled() == self.enabled()
        &&& other.frames() == self.frames()
        &&& other.budget() == self.budget()
        &&& other.readers() == self.readers()
        &&& other.file_slots() == self.file_slots()
        &&& other.same_retiring(self)
        &&& other.pending() == self.pending()
        &&& other.tickets() == self.tickets()
        &&& other.stats() == (RetentionStats {
            occupied_budget: (self.stats().occupied_budget - (if self.handles(frame) == 1 {
                1int
            } else {
                0
            })) as u32,
            refused_retiring: self.stats().refused_retiring.wrapping_add(1),
            ..self.stats()
        })
        &&& self.stats().occupied_budget > 0
        &&& forall|f: ReadFrameIdx|
            other.has(f) ==> #[trigger] other.handles(f) == self.handles(f) - (if f == frame {
                1int
            } else {
                0
            })
        &&& forall|f: ReadFrameIdx| other.has(f) ==> #[trigger] other.held(f) == self.held(f)
        &&& forall|f: ReadFrameIdx| other.has(f) ==> #[trigger] other.tag_of(f) == self.tag_of(f)
    }

    /// Removes one handle and returns whether it was the last one of a held
    /// frame, which is then still to be queued.
    fn drop_handle(&mut self, frame: ReadFrameIdx)
        requires
            old(self).wf(),
            old(self).enabled(),
            old(self).has(frame),
            old(self).handles(frame) > 0,
            !(old(self).held(frame) && old(self).handles(frame) == 1),
        ensures
            final(self).wf(),
            final(self).max_retained_frames == old(self).max_retained_frames,
            final(self).retiring == old(self).retiring,
            final(self).words@ == old(self).words@.update(
                frame.0 as int,
                (old(self).words@[frame.0 as int] - 1) as u32,
            ),
            final(self).tags == old(self).tags,
            final(self).release_ring == old(self).release_ring,
            final(self).release_cursor == old(self).release_cursor,
            final(self).max_concurrent_readers == old(self).max_concurrent_readers,
            final(self).frame_count == old(self).frame_count,
            old(self).stats().occupied_budget > 0,
            final(self).stats() == (RetentionStats {
                occupied_budget: (old(self).stats().occupied_budget - (if old(self).observed(frame)
                    == 1 {
                    1int
                } else {
                    0
                })) as u32,
                ..old(self).stats()
            }),
    {
        let index: usize = frame.0 as usize;
        let word: u32 = self.words[index];
        proof {
            self.lemma_observed(frame);
            lemma_occupied_update(old(self).words@, index as int, (word - 1) as u32);
            lemma_occupied_finite(self.words@);
            assert(occupied_frames(self.words@).contains(index as int));
            if occupied_frames(self.words@).len() == 0 {
                assert(occupied_frames(self.words@) =~= Set::empty());
            }
        }
        self.words.set(index, word - 1);
        if word - 1 == 0 {
            self.occupied_budget = self.occupied_budget - 1;
        }
        proof {
            let ring = self.release_ring->0.pending(self.release_cursor as int);
            assert forall|k: int| 0 <= k < ring.len() implies (#[trigger] ring[k])
                < self.frame_count && self.words@[ring[k] as int] == HELD by {
                assert(old(self).words@[ring[k] as int] == HELD);
            }
            assert forall|i: int|
                0 <= i < self.frame_count && #[trigger] self.words@[i] == HELD implies ring.contains(
                i as u32,
            ) by {
                if i != index {
                    assert(old(self).words@[i] == HELD);
                }
            }
        }
    }

    /// `self` is `other` without one handle of `frame`: the last handle frees
    /// the frame's budget unit, or queues the frame when it was held.
    pub open spec fn released(self, other: Retention, frame: ReadFrameIdx) -> bool {
        let queued = other.held(frame) && other.handles(frame) == 1;
        &&& other.enabled()
        &&& self.enabled()
        &&& self.frames() == other.frames()
        &&& self.budget() == other.budget()
        &&& self.readers() == other.readers()
        &&& self.file_slots() == other.file_slots()
        &&& self.same_retiring(other)
        &&& self.pending() == (if queued {
            other.pending().push(frame)
        } else {
            other.pending()
        })
        &&& self.tickets() == other.tickets() + (if queued {
            1nat
        } else {
            0
        })
        &&& other.stats().occupied_budget > 0
        &&& self.stats() == (RetentionStats {
            occupied_budget: (other.stats().occupied_budget - (if other.handles(frame) == 1
                && !other.held(frame) {
                1int
            } else {
                0
            })) as u32,
            ..other.stats()
        })
        &&& forall|f: ReadFrameIdx|
            self.has(f) ==> #[trigger] self.handles(f) == other.handles(f) - (if f == frame {
                1int
            } else {
                0
            })
        &&& forall|f: ReadFrameIdx| self.has(f) ==> #[trigger] self.held(f) == other.held(f)
        &&& forall|f: ReadFrameIdx| self.has(f) ==> #[trigger] self.tag_of(f) == other.tag_of(f)
    }

    /// `wait` once one handle of `frame` is dropped: the last handle of a held
    /// frame marks a release pending and wakes a parked waiter.
    pub open spec fn notified(self, frame: ReadFrameIdx, wait: WaitState) -> WaitState {
        let pending = WaitState { ring_pending: true, ..wait };
        if !self.held(frame) || self.handles(frame) != 1 {
            wait
        } else if wait.parks_in_progress != 0 {
            pending.woken_once()
        } else {
            pending
        }
    }

    /// Removes one handle. The last handle of a held frame queues it for
    /// reclamation, marks a release pending and wakes a parked waiter.
    pub fn release(&mut self, frame: ReadFrameIdx, wait: &mut WaitState)
        requires
            old(self).wf(),
            old(self).enabled(),
            old(self).has(frame),
            old(self).handles(frame) > 0,
            old(self).tickets() < TICKET_MAX,
        ensures
            final(self).wf(),
            final(self).released(*old(self), frame),
            *final(wait) == old(self).notified(frame, *old(wait)),
    {
        proof {
            self.lemma_observed(frame);
        }
        let index: usize = frame.0 as usize;
        let word: u32 = self.words[index];
        if word != HELD + 1 {
            self.drop_handle(frame);
            assert(self.pending() =~= old(self).pending());
            return;
        }
        self.words.set(index, HELD);
        let ghost before = self.release_ring->0;
        let ghost queue = before.pending(self.release_cursor as int);
        proof {
            lemma_occupied_update(old(self).words@, index as int, HELD);
            lemma_occupied_finite(old(self).words@);
            assert(occupied_frames(old(self).words@).contains(index as int));
            if occupied_frames(old(self).words@).len() == 0 {
                assert(occupied_frames(old(self).words@) =~= Set::empty());
            }
            assert(!queue.contains(frame.0)) by {
                if queue.contains(frame.0) {
                    let k = choose|k: int| 0 <= k < queue.len() && queue[k] == frame.0;
                    assert(old(self).words@[queue[k] as int] == HELD);
                }
            }
            let longer = queue.push(frame.0);
            assert(longer.no_duplicates()) by {
                assert forall|i: int, j: int|
                    0 <= i < longer.len() && 0 <= j < longer.len() && i != j implies longer[i]
                    != longer[j] by {
                    if i == queue.len() {
                        assert(queue.contains(queue[j]));
                    }
                    if j == queue.len() {
                        assert(queue.contains(queue[i]));
                    }
                }
            }
            assert forall|k: int| 0 <= k < longer.len() implies (#[trigger] longer[k])
                < self.words@.len() && self.words@[longer[k] as int] != 0 by {
                if k < queue.len() {
                    assert(old(self).words@[queue[k] as int] == HELD);
                }
            }
            lemma_distinct_within(longer, self.words@);
            assert(before.vacant_for(before.tickets() as int));
        }
        match &mut self.release_ring {
            Some(ring) => {
                ring.push(frame.get());
            },
            None => {},
        }
        wait.set_ring_pending();
        let _woke: bool = wait.wake_if_parked();
        proof {
            let ring = self.release_ring->0.pending(self.release_cursor as int);
            assert(ring == queue.push(frame.0));
            assert forall|k: int| 0 <= k < ring.len() implies (#[trigger] ring[k])
                < self.frame_count && self.words@[ring[k] as int] == HELD by {
                if k < queue.len() {
                    assert(queue[k] == ring[k]);
                    assert(old(self).words@[queue[k] as int] == HELD);
                }
            }
            assert forall|i: int|
                0 <= i < self.frame_count && #[trigger] self.words@[i] == HELD implies ring.contains(
                i as u32,
            ) by {
                if i == index {
                    assert(ring[queue.len() as int] == i as u32);
                } else {
                    assert(old(self).words@[i] == HELD);
                    let k = choose|k: int| 0 <= k < queue.len() && queue[k] == i as u32;
                    assert(ring[k] == i as u32);
                }
            }
            assert(self.pending() =~= old(self).pending().push(frame));
        }
    }

    /// `self` is `other` with `frame` held under the tag `tag`.
    pub open spec fn holds_matured(self, other: Retention, frame: ReadFrameIdx, tag: u64) -> bool {
        &&& other.enabled()
        &&& self.enabled()
        &&& self.frames() == other.frames()
        &&& self.budget() == other.budget()
        &&& self.readers() == other.readers()
        &&& self.file_slots() == other.file_slots()
        &&& self.same_retiring(other)
        &&& self.pending() == other.pending()
        &&& self.tickets() == other.tickets()
        &&& self.stats() == (RetentionStats {
            retained_evictions_held: other.stats().retained_evictions_held.wrapping_add(1),
            ..other.stats()
        })
        &&& forall|f: ReadFrameIdx|
            self.has(f) ==> #[trigger] self.handles(f) == other.handles(f)
        &&& forall|f: ReadFrameIdx|
            self.has(f) ==> #[trigger] self.held(f) == (other.held(f) || f == frame)
        &&& forall|f: ReadFrameIdx|
            self.has(f) ==> #[trigger] self.tag_of(f) == (if f == frame {
                tag
            } else {
                other.tag_of(f)
            })
    }

    /// Decides what becomes of a frame whose eviction matured: without
    /// handles it is freed, otherwise it is held until the last one goes.
    pub fn matured_outcome(&mut self, frame: ReadFrameIdx, tag: u64) -> (outcome: FrameOutcome)
        requires
            old(self).wf(),
            old(self).has(frame),
            !old(self).held(frame),
        ensures
            final(self).wf(),
            outcome == (if old(self).handles(frame) == 0 {
                FrameOutcome::Freed
            } else {
                FrameOutcome::Held
            }),
            outcome == FrameOutcome::Freed ==> *final(self) == *old(self),
            outcome == FrameOutcome::Held ==> final(self).holds_matured(*old(self), frame, tag),
    {
        if self.is_disabled() {
            return FrameOutcome::Freed;
        }
        proof {
            self.lemma_observed(frame);
        }
        let index: usize = frame.0 as usize;
        let word: u32 = self.words[index];
        if word == 0 {
            return FrameOutcome::Freed;
        }
        self.tags.set(index, tag);
        self.words.set(index, word + HELD);
        self.retained_evictions_held = self.retained_evictions_held.wrapping_add(1);
        proof {
            lemma_occupied_update(old(self).words@, index as int, (word + HELD) as u32);
            let ring = self.release_ring->0.pending(self.release_cursor as int);
            assert forall|k: int| 0 <= k < ring.len() implies (#[trigger] ring[k])
                < self.frame_count && self.words@[ring[k] as int] == HELD by {
                assert(old(self).words@[ring[k] as int] == HELD);
            }
            assert forall|i: int|
                0 <= i < self.frame_count && #[trigger] self.words@[i] == HELD implies ring.contains(
                i as u32,
            ) by {
                assert(old(self).words@[i] == HELD);
            }
            assert(self.pending() =~= old(self).pending());
            assert(forall|f: ReadFrameIdx|
                self.has(f) && f != frame ==> self.words@[f.0 as int] == old(
                    self,
                ).words@[f.0 as int]);
            assert((word + HELD) as int % 0x1_0000 == word as int % 0x1_0000);
        }
        FrameOutcome::Held
    }

    /// Reclaims every queued frame, in the order their last handles went, and
    /// gives their budget units back.
    pub fn drain_releases(&mut self, wait: &mut WaitState, pass_start_epoch: u64) -> (frames: Vec<
        ReadFrameIdx,
    >)
        requires
            old(self).wf(),
            old(self).enabled(),
            old(self).tickets() < TICKET_MAX,
            forall|f: ReadFrameIdx|
                old(self).has(f) && #[trigger] old(self).held(f) ==> matured(
                    old(self).tag_of(f),
                    pass_start_epoch,
                ),
        ensures
            final(self).wf(),
            frames@ == old(self).pending(),
            final(self).pending() == Seq::<ReadFrameIdx>::empty(),
            final(self).tickets() == old(self).tickets(),
            final(self).enabled(),
            final(self).frames() == old(self).frames(),
            final(self).budget() == old(self).budget(),
            final(self).readers() == old(self).readers(),
            final(self).file_slots() == old(self).file_slots(),
            final(self).same_retiring(*old(self)),
            old(self).stats().occupied_budget >= frames@.len(),
            final(self).stats() == (RetentionStats {
                occupied_budget: (old(self).stats().occupied_budget - frames@.len()) as u32,
                ..old(self).stats()
            }),
            forall|f: ReadFrameIdx|
                final(self).has(f) ==> #[trigger] final(self).handles(f) == old(self).handles(f),
            forall|f: ReadFrameIdx|
                final(self).has(f) ==> #[trigger] final(self).held(f) == (old(self).held(f)
                    && old(self).handles(f) > 0),
            forall|f: ReadFrameIdx|
                final(self).has(f) ==> #[trigger] final(self).tag_of(f) == old(self).tag_of(f),
            *final(wait) == (WaitState { ring_pending: false, ..*old(wait) }),
    {
        wait.clear_ring_pending();
        let ghost start = *self;
        proof {
            start.lemma_budget();
        }
        let mut frames: Vec<ReadFrameIdx> = Vec::new();
        let mut done: bool = false;
        while !done
            invariant
                self.wf(),
                self.enabled(),
                start.wf(),
                self.tickets() == start.tickets(),
                start.tickets() < TICKET_MAX,
                self.tags == start.tags,
                self.retiring == start.retiring,
                self.frame_count == start.frame_count,
                self.max_retained_frames == start.max_retained_frames,
                self.max_concurrent_readers == start.max_concurrent_readers,
                frames@ + self.pending() == start.pending(),
                start.stats().occupied_budget >= frames@.len(),
                self.stats() == (RetentionStats {
                    occupied_budget: (start.stats().occupied_budget - frames@.len()) as u32,
                    ..start.stats()
                }),
                forall|i: int|
                    0 <= i < self.frame_count ==> #[trigger] self.words@[i] == (if frames@.contains(
                        ReadFrameIdx(i as u32),
                    ) {
                        0
                    } else {
                        start.words@[i]
                    }),
                forall|f: ReadFrameIdx|
                    #[trigger] frames@.contains(f) ==> f.0 < self.frame_count
                        && start.words@[f.0 as int] == HELD,
                done ==> self.pending().len() == 0,
            decreases self.pending().len() + (if done {
                0int
            } else {
                1
            }),
        {
            let ghost before = *self;
            let ghost taken = frames@;
            match self.pop_release() {
                Some(frame) => {
                    frames.push(frame);
                    proof {
                        assert(before.pending()[0] == frame);
                        assert(frames@ + self.pending() =~= taken + before.pending());
                        before.lemma_budget();
                        assert forall|i: int| 0 <= i < self.frame_count implies #[trigger] self.words@[i]
                            == (if frames@.contains(ReadFrameIdx(i as u32)) {
                            0
                        } else {
                            start.words@[i]
                        }) by {
                            let f = ReadFrameIdx(i as u32);
                            assert(frames@.contains(f) <==> taken.contains(f) || f == frame) by {
                                if taken.contains(f) {
                                    let k = choose|k: int| 0 <= k < taken.len() && taken[k] == f;
                                    assert(frames@[k] == f);
                                }
                                assert(frames@[taken.len() as int] == frame);
                            }
                            assert(before.words@[i] == (if taken.contains(f) {
                                0
                            } else {
                                start.words@[i]
                            }));
                        }
                        assert forall|f: ReadFrameIdx| #[trigger] frames@.contains(f) implies f.0
                            < self.frame_count && start.words@[f.0 as int] == HELD by {
                            if f != frame {
                                let k = choose|k: int| 0 <= k < frames@.len() && frames@[k] == f;
                                assert(taken[k] == f);
                                assert(taken.contains(f));
                            } else {
                                assert(before.words@[f.0 as int] == HELD);
                            }
                        }
                    }
                },
                None => {
                    done = true;
                },
            }
        }
        proof {
            assert(frames@ =~= start.pending());
            assert(self.pending() =~= Seq::empty());
            assert forall|f: ReadFrameIdx| self.has(f) implies #[trigger] self.held(f) == (
            start.held(f) && start.handles(f) > 0) by {
                assert(start.pending().contains(f) <==> start.held(f) && start.handles(f) == 0);
                assert(self.words@[f.0 as int] == (if frames@.contains(
                    ReadFrameIdx(f.0 as int as u32),
                ) {
                    0
                } else {
                    start.words@[f.0 as int]
                }));
            }
            assert forall|f: ReadFrameIdx| self.has(f) implies #[trigger] self.handles(f)
                == start.handles(f) by {
                assert(start.pending().contains(f) <==> start.held(f) && start.handles(f) == 0);
                assert(self.words@[f.0 as int] == (if frames@.contains(
                    ReadFrameIdx(f.0 as int as u32),
                ) {
                    0
                } else {
                    start.words@[f.0 as int]
                }));
            }
        }
        frames
    }

    /// Takes the oldest queued frame: it is no longer held and gives its
    /// budget unit back.
    fn pop_release(&mut self) -> (frame: Option<ReadFrameIdx>)
        requires
            old(self).wf(),
            old(self).enabled(),
            old(self).tickets() < TICKET_MAX,
        ensures
            final(self).wf(),
            frame is None <==> old(self).pending().len() == 0,
            frame is None ==> final(self).pending() == old(self).pending() && final(self).words@
                == old(self).words@ && final(self).stats() == old(self).stats(),
            final(self).tickets() == old(self).tickets(),
            final(self).tags == old(self).tags,
            final(self).retiring == old(self).retiring,
            final(self).frame_count == old(self).frame_count,
            final(self).max_retained_frames == old(self).max_retained_frames,
            final(self).max_concurrent_readers == old(self).max_concurrent_readers,
            frame matches Some(f) ==> {
                &&& old(self).has(f)
                &&& old(self).words@[f.0 as int] == HELD
                &&& seq![f] + final(self).pending() == old(self).pending()
                &&& final(self).words@ == old(self).words@.update(f.0 as int, 0)
                &&& old(self).stats().occupied_budget > 0
                &&& final(self).stats() == (RetentionStats {
                    occupied_budget: (old(self).stats().occupied_budget - 1) as u32,
                    ..old(self).stats()
                })
            },
    {
        let ghost ring_before = self.release_ring->0;
        let ghost cursor_before = self.release_cursor;
        let ghost queue = ring_before.pending(cursor_before as int);
        let mut cursor: u64 = self.release_cursor;
        let popped: Option<u32> = match &mut self.release_ring {
            Some(ring) => ring.pop(&mut cursor),
            None => None,
        };
        self.release_cursor = cursor;
        match popped {
            Some(raw) => {
                let frame = ReadFrameIdx::new(raw);
                let ghost ring_after = self.release_ring->0;
                let ghost rest = ring_after.pending(cursor as int);
                proof {
                    assert(queue[0] == raw);
                    assert(queue =~= seq![raw] + rest);
                    lemma_occupied_update(old(self).words@, raw as int, 0);
                    lemma_occupied_finite(old(self).words@);
                    assert(occupied_frames(old(self).words@).contains(raw as int));
                    if occupied_frames(old(self).words@).len() == 0 {
                        assert(occupied_frames(old(self).words@) =~= Set::empty());
                    }
                }
                self.words.set(raw as usize, 0);
                self.occupied_budget = self.occupied_budget - 1;
                proof {
                    assert(rest.no_duplicates()) by {
                        assert forall|i: int, j: int|
                            0 <= i < rest.len() && 0 <= j < rest.len() && i != j implies rest[i]
                            != rest[j] by {
                            assert(queue[i + 1] == rest[i] && queue[j + 1] == rest[j]);
                        }
                    }
                    assert forall|k: int| 0 <= k < rest.len() implies (#[trigger] rest[k])
                        < self.frame_count && self.words@[rest[k] as int] == HELD by {
                        assert(queue[k + 1] == rest[k]);
                        assert(queue[k + 1] != queue[0]);
                    }
                    assert forall|i: int|
                        0 <= i < self.frame_count && #[trigger] self.words@[i]
                            == HELD implies rest.contains(i as u32) by {
                        assert(old(self).words@[i] == HELD);
                        let k = choose|k: int| 0 <= k < queue.len() && queue[k] == i as u32;
                        assert(k > 0);
                        assert(rest[k - 1] == i as u32);
                    }
                    assert(seq![frame] + self.pending() =~= old(self).pending());
                }
                Some(frame)
            },
            None => {
                assert(self.pending() =~= old(self).pending());
                None
            },
        }
    }
}

proof fn lemma_occupied_finite(words: Seq<u32>)
    ensures
        occupied_frames(words).finite(),
        occupied_frames(words).len() <= words.len(),
{
    vstd::set_lib::lemma_int_range(0, words.len() as int);
    vstd::set_lib::lemma_len_subset(
        occupied_frames(words),
        vstd::set_lib::set_int_range(0, words.len() as int),
    );
}

/// How one word's change moves the count of occupied frames.
proof fn lemma_occupied_update(words: Seq<u32>, i: int, word: u32)
    requires
        0 <= i < words.len(),
    ensures
        occupied_frames(words.update(i, word)).len() == occupied_frames(words).len() - (if words[i]
            != 0 {
            1int
        } else {
            0
        }) + (if word != 0 {
            1int
        } else {
            0
        }),
{
    lemma_occupied_finite(words);
    lemma_occupied_finite(words.update(i, word));
    let before = occupied_frames(words);
    let after = occupied_frames(words.update(i, word));
    if word != 0 {
        assert(after =~= before.insert(i));
    } else {
        assert(after =~= before.remove(i));
    }
}

/// Distinct occupied frames are no more than the occupied frames.
proof fn lemma_distinct_within(list: Seq<u32>, words: Seq<u32>)
    requires
        list.no_duplicates(),
        forall|k: int|
            0 <= k < list.len() ==> (#[trigger] list[k]) < words.len() && words[list[k] as int]
                != 0,
    ensures
        list.len() <= occupied_frames(words).len(),
{
    lemma_occupied_finite(words);
    let wide = Seq::new(list.len(), |k: int| list[k] as int);
    assert(wide.no_duplicates()) by {
        assert forall|i: int, j: int|
            0 <= i < wide.len() && 0 <= j < wide.len() && i != j implies wide[i] != wide[j] by {
            assert(list[i] != list[j]);
        }
    }
    wide.unique_seq_to_set();
    assert(wide.to_set().subset_of(occupied_frames(words))) by {
        assert forall|x: int| wide.to_set().contains(x) implies occupied_frames(words).contains(
            x,
        ) by {
            let k = choose|k: int| 0 <= k < wide.len() && wide[k] == x;
            assert(list[k] == x);
        }
    }
    vstd::set_lib::lemma_len_subset(wide.to_set(), occupied_frames(words));
}

/// A frame takes another handle exactly where retention has a budget, the frame
/// has fewer than 65535 handles, and it has one already or the budget has a unit
/// left for it.
pub proof fn a_handle_is_to_be_had_within_the_budget(retention: Retention, frame: ReadFrameIdx)
    requires
        retention.wf(),
        retention.has(frame),
    ensures
        retention.admits(frame) <==> retention.budget() > 0 && retention.handles(frame) < 65535 && (
        retention.handles(frame) > 0 || retention.stats().occupied_budget < retention.budget()),
{
}

/// An attempt that saw the frame as it is decides at once: it succeeds exactly
/// where a handle is to be had, and is refused otherwise, never retried. An
/// attempt that saw another count of handles does not take one.
pub proof fn an_undisturbed_attempt_decides(retention: Retention, frame: ReadFrameIdx, seen: u32)
    requires
        retention.wf(),
        retention.enabled(),
        retention.has(frame),
        !retention.held(frame),
        seen < 0x1_0000,
    ensures
        seen == retention.handles(frame) ==> {
            &&& retention.promotion(frame, seen) is Retained <==> retention.handles(frame) < 65535
                && (retention.handles(frame) > 0 || retention.stats().occupied_budget
                < retention.budget())
            &&& !(retention.promotion(frame, seen) is Retry)
        },
        seen != retention.handles(frame) ==> !(retention.promotion(frame, seen) is Retained),
{
}

/// An attempt that saw another count of handles than there is has to be tried
/// again, unless it saw the ceiling; where an attempt is refused, the handles or
/// the budget are exhausted.
pub proof fn a_disturbed_attempt_is_retried(retention: Retention, frame: ReadFrameIdx, seen: u32)
    requires
        retention.wf(),
        retention.enabled(),
        retention.has(frame),
        !retention.held(frame),
        seen < 0x1_0000,
        seen != retention.handles(frame),
    ensures
        retention.promotion(frame, seen) is Retry <==> seen != 65535,
        seen == 65535 ==> retention.promotion(frame, seen) == Promotion::Refused(
            RetainRefusedReason::Exhausted,
        ),
{
}

/// A handle counts for its frame and, where it is the frame's first, for the
/// budget; releasing it gives back both, so that a release undoes a retention.
pub proof fn a_release_undoes_a_retention(
    before: Retention,
    kept: Retention,
    after: Retention,
    frame: ReadFrameIdx,
)
    requires
        before.wf(),
        before.has(frame),
        !before.held(frame),
        kept.retained(before, frame),
        after.released(kept, frame),
    ensures
        kept.handles(frame) == before.handles(frame) + 1,
        before.handles(frame) == 0 ==> kept.stats().occupied_budget
            == before.stats().occupied_budget + 1,
        before.handles(frame) > 0 ==> kept.stats().occupied_budget
            == before.stats().occupied_budget,
        after.handles(frame) == before.handles(frame),
        after.stats() == before.stats(),
        after.pending() == before.pending(),
        forall|f: ReadFrameIdx|
            f != frame && before.has(f) ==> #[trigger] kept.handles(f) == before.handles(f)
                && after.handles(f) == before.handles(f),
{
    assert(kept.held(frame) == before.held(frame));
}

/// The last handle of a frame whose eviction has matured gives the frame back:
/// it joins the end of the release queue, and keeps its unit of the budget until
/// the queue is drained. No other release queues anything.
pub proof fn a_last_release_queues_its_frame(before: Retention, after: Retention, frame: ReadFrameIdx)
    requires
        before.wf(),
        before.has(frame),
        before.handles(frame) > 0,
        after.released(before, frame),
    ensures
        after.handles(frame) == before.handles(frame) - 1,
        before.held(frame) && before.handles(frame) == 1 ==> after.pending()
            == before.pending().push(frame) && after.stats() == before.stats(),
        !(before.held(frame) && before.handles(frame) == 1) ==> after.pending()
            == before.pending(),
        !before.held(frame) && before.handles(frame) == 1 ==> after.stats().occupied_budget
            == before.stats().occupied_budget - 1,
        before.handles(frame) > 1 ==> after.stats() == before.stats(),
{
    before.lemma_budget();
}

/// A release that queues its frame marks the ring and wakes the owner loop if
/// and only if the loop is parked; no other release disturbs it.
pub proof fn a_queued_release_wakes_a_parked_loop(
    before: Retention,
    frame: ReadFrameIdx,
    wait: WaitState,
)
    ensures
        ({
            let after = before.notified(frame, wait);
            &&& before.held(frame) && before.handles(frame) == 1 ==> after.ring_pending
            &&& before.held(frame) && before.handles(frame) == 1 && wait.parks_in_progress > 0
                ==> after.current == wait.current.wrapping_add(1)
            &&& before.held(frame) && before.handles(frame) == 1 && wait.parks_in_progress == 0
                ==> after.current == wait.current
            &&& !(before.held(frame) && before.handles(frame) == 1) ==> after == wait
            &&& after.consumed == wait.consumed
        }),
{
}

/// A refused handle is counted once, by its reason: a retiring file where a
/// handle was to be had, the ceiling where the frame has 65535 handles, and the
/// budget otherwise. Nothing else changes.
pub proof fn a_refused_handle_is_counted_by_its_reason(
    before: Retention,
    after: Retention,
    frame: ReadFrameIdx,
)
    requires
        before.wf(),
        before.has(frame),
        after.refused(before, frame),
    ensures
        ({
            let was = before.stats();
            let is = after.stats();
            let full = before.budget() > 0 && before.handles(frame) == 65535;
            let spent = before.budget() == 0 || before.handles(frame) == 0 && was.occupied_budget
                >= before.budget();
            &&& is.occupied_budget == was.occupied_budget
            &&& is.refused_contention == was.refused_contention
            &&& is.retained_evictions_held == was.retained_evictions_held
            &&& is.refused_ceiling == if full {
                was.refused_ceiling.wrapping_add(1)
            } else {
                was.refused_ceiling
            }
            &&& is.refused_budget == if spent {
                was.refused_budget.wrapping_add(1)
            } else {
                was.refused_budget
            }
            &&& is.refused_retiring == if !full && !spent {
                was.refused_retiring.wrapping_add(1)
            } else {
                was.refused_retiring
            }
        }),
        after.handles(frame) == before.handles(frame),
        after.pending() == before.pending(),
{
}

} // verus!
