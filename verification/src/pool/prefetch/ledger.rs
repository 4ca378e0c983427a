//! The ledger of speculative credits: which frames were filled ahead of
//! demand, for whom, and what became of them.

use crate::pool::clock::{Clock, SpeculationOutcome};
use crate::pool::file_slots::{FileOwned, FileSlots};
use crate::pool::frames::{FreeFrames, ReadFrameIdx};
use crate::pool::prefetch::feedback::{in_order, sort_feedback, Feedback};
use crate::pool::prefetch::index_queue::{queued, queued_all, unqueued, IndexQueue};
use crate::pool::prefetch::pattern::{Pattern, PatternState};
use crate::pool::prefetch::{PrefetchStats, Readahead, Source};
use crate::pool::PageId;
use vstd::prelude::*;

verus! {

/// The bytes one vectored read may span.
pub const VECTOR_BYTES_MAX: u32 = 131072;

/// Where the 64-bit counters of the pool count as used up.
pub const WEAR_MAX: u64 = 0x3000_0000_0000_0000;

/// One speculative frame.
#[derive(Debug, Clone, Copy, PartialEq, Eq, Structural)]
pub struct Entry {
    pub page: PageId,
    pub frame: ReadFrameIdx,
    pub source: Source,
    pub protected: u64,
}

/// How a speculative credit ends.
#[derive(Debug, Clone, Copy, PartialEq, Eq, Structural)]
pub enum Terminal {
    Promoted(Option<u32>),
    Evicted,
    Failed,
}

/// Membership in one reader's current predictions.
#[derive(Debug, Clone, Copy, PartialEq, Eq, Structural)]
pub struct ReaderMember(pub u32);

impl FileOwned for ReaderMember {
    open spec fn owner(self) -> u32 {
        self.0
    }

    fn file_slot(self) -> (slot: u32) {
        self.0
    }

    fn blank() -> (value: Self) {
        ReaderMember(0)
    }
}

pub struct Prefetch {
    reserve: FreeFrames,
    entries: Vec<Option<Entry>>,
    patterns: Vec<Pattern>,
    stats: PrefetchStats,
    capacity: u32,
    request_limit: usize,
    active: bool,
    vector_width: u32,
    automatic_width: u32,
    ready: IndexQueue,
    cleanup: IndexQueue,
    waiting: IndexQueue,
    members: FileSlots<ReaderMember>,
    frame_entries: Vec<Option<u32>>,
    vacant: Vec<u32>,
    feedback: Vec<Feedback>,
    stamp: u64,
    pending_releases: u32,
    reader_cursor: u32,
    wear: Ghost<nat>,
}

/// `source` names the reader's current incarnation.
pub open spec fn current(source: Source, patterns: Seq<Pattern>) -> bool {
    source matches Source::Automatic { reader, incarnation } && reader < patterns.len()
        && patterns[reader as int].incarnation == incarnation
}

/// A source that a reader's pattern did issue: of an earlier incarnation, or
/// of its current stream.
pub open spec fn traceable(source: Source, page: PageId, patterns: Seq<Pattern>) -> bool {
    match source {
        Source::Explicit => true,
        Source::Automatic { reader, incarnation } => {
            &&& reader < patterns.len()
            &&& incarnation <= patterns[reader as int].incarnation
            &&& incarnation == patterns[reader as int].incarnation ==> {
                &&& patterns[reader as int].state is Streaming
                &&& patterns[reader as int].state->demand.file == page.file
            }
        },
    }
}

/// The source a feedback came from.
pub open spec fn origin(feedback: Feedback) -> Source {
    Source::Automatic { reader: feedback.reader, incarnation: feedback.incarnation }
}

spec fn frames_match(entries: Seq<Option<Entry>>, frame_entries: Seq<Option<u32>>) -> bool {
    &&& forall|i: int|
        0 <= i < entries.len() && (#[trigger] entries[i]) is Some ==> entries[i]->0.frame.0
            < frame_entries.len() && frame_entries[entries[i]->0.frame.0 as int] == Some(i as u32)
    &&& forall|f: int|
        0 <= f < frame_entries.len() && (#[trigger] frame_entries[f]) is Some
            ==> frame_entries[f]->0 < entries.len() && (
        entries[frame_entries[f]->0 as int] matches Some(e) && e.frame.0 == f)
}

spec fn vacant_match(entries: Seq<Option<Entry>>, vacant: Seq<u32>) -> bool {
    &&& vacant.no_duplicates()
    &&& forall|k: int|
        0 <= k < vacant.len() ==> (#[trigger] vacant[k]) < entries.len()
            && entries[vacant[k] as int] is None
    &&& forall|i: int|
        0 <= i < entries.len() && (#[trigger] entries[i]) is None ==> vacant.contains(i as u32)
}

spec fn sources_match(
    entries: Seq<Option<Entry>>,
    feedback: Seq<Feedback>,
    patterns: Seq<Pattern>,
) -> bool {
    &&& forall|r: int| 0 <= r < patterns.len() ==> (#[trigger] patterns[r]).wf()
    &&& forall|i: int|
        0 <= i < entries.len() && (#[trigger] entries[i]) is Some ==> traceable(
            entries[i]->0.source,
            entries[i]->0.page,
            patterns,
        )
    &&& forall|k: int|
        0 <= k < feedback.len() ==> traceable(
            origin(#[trigger] feedback[k]),
            feedback[k].page,
            patterns,
        )
}

spec fn members_match(
    entries: Seq<Option<Entry>>,
    patterns: Seq<Pattern>,
    members: FileSlots<ReaderMember>,
) -> bool {
    forall|i: int|
        0 <= i < members.capacity() ==> #[trigger] members.at(i) == (if i < entries.len()
            && entries[i] is Some && current(entries[i]->0.source, patterns) {
            Some(ReaderMember(entries[i]->0.source->reader))
        } else {
            None
        })
}

spec fn queue_match(entries: Seq<Option<Entry>>, queue: Seq<u32>) -> bool {
    forall|i: u32| #[trigger] queue.contains(i) ==> i < entries.len() && entries[i as int] is Some
}

spec fn ready_match(patterns: Seq<Pattern>, ready: Seq<u32>, width: u32) -> bool {
    forall|r: u32|
        r < patterns.len() ==> (#[trigger] ready.contains(r) <==> patterns[r as int].due(
            r,
            width,
        ) is Some)
}

/// The credits given out are the credits ended plus those outstanding.
pub open spec fn balanced(stats: PrefetchStats) -> bool {
    stats.admitted == stats.demand_promoted + stats.evicted_unused + stats.failed + stats.occupied
}

/// The slots as unsigned indices.
pub open spec fn indices(list: Seq<int>) -> Seq<u32> {
    Seq::new(list.len(), |k: int| list[k] as u32)
}

/// The stats after one credit ended with `terminal`.
pub open spec fn settled(stats: PrefetchStats, terminal: Terminal) -> PrefetchStats {
    let fewer = PrefetchStats { occupied: (stats.occupied - 1) as u32, ..stats };
    match terminal {
        Terminal::Promoted(_) => PrefetchStats {
            demand_promoted: (stats.demand_promoted + 1) as u64,
            ..fewer
        },
        Terminal::Evicted => PrefetchStats {
            evicted_unused: (stats.evicted_unused + 1) as u64,
            ..fewer
        },
        Terminal::Failed => PrefetchStats { failed: (stats.failed + 1) as u64, ..fewer },
    }
}

/// A consumed marker decides over the terminal the caller had in mind.
pub open spec fn decided(outcome: SpeculationOutcome, terminal: Terminal) -> Terminal {
    match outcome {
        SpeculationOutcome::Consumed(reader) => Terminal::Promoted(reader),
        _ => terminal,
    }
}

/// The feedback a credit that ended with `terminal` gives its own reader.
pub open spec fn credited(entry: Entry, terminal: Terminal) -> Option<Feedback> {
    match (entry.source, terminal) {
        (
            Source::Automatic { reader, incarnation },
            Terminal::Promoted(Some(consumer)),
        ) => if consumer == reader {
            Some(Feedback { reader, incarnation, page: entry.page })
        } else {
            None
        },
        _ => None,
    }
}

/// A stream that goes on under its incarnation keeps its file and its next
/// page.
pub open spec fn streams_on(before: Pattern, after: Pattern) -> bool {
    &&& before.incarnation <= after.incarnation
    &&& before.incarnation == after.incarnation && before.state is Streaming ==> {
        &&& after.state is Streaming
        &&& after.state->Streaming_next == before.state->Streaming_next
        &&& after.state->Streaming_demand.file == before.state->Streaming_demand.file
    }
}

/// The frames of `set`, in index order.
pub open spec fn lists(frames: Seq<ReadFrameIdx>, set: Set<ReadFrameIdx>) -> bool {
    &&& forall|i: int, j: int|
        0 <= i < j < frames.len() ==> (#[trigger] frames[i]).0 < (#[trigger] frames[j]).0
    &&& forall|f: ReadFrameIdx| #[trigger] frames.contains(f) <==> set.contains(f)
}

/// Ascending frames below `n` are at most `n`.
proof fn lemma_ascending_len(frames: Seq<ReadFrameIdx>, n: int)
    requires
        n >= 0,
        forall|i: int, j: int|
            0 <= i < j < frames.len() ==> (#[trigger] frames[i]).0 < (#[trigger] frames[j]).0,
        forall|k: int| 0 <= k < frames.len() ==> (#[trigger] frames[k]).0 < n,
    ensures
        frames.len() <= n,
    decreases frames.len(),
{
    if frames.len() > 0 {
        let last = frames.last();
        lemma_ascending_len(frames.drop_last(), last.0 as int);
    }
}

/// Every pattern after it took in the feedback of `order` in turn.
pub open spec fn confirmed_all(patterns: Seq<Pattern>, order: Seq<Feedback>, capacity: u32) -> Seq<
    Pattern,
>
    decreases order.len(),
{
    if order.len() == 0 {
        patterns
    } else {
        let before = confirmed_all(patterns, order.drop_last(), capacity);
        let last = order.last();
        before.update(
            last.reader as int,
            before[last.reader as int].confirmed(last.page, last.incarnation, capacity),
        )
    }
}

impl Prefetch {
    /// The speculative credits.
    pub closed spec fn credits(self) -> nat {
        self.capacity as nat
    }

    pub closed spec fn frames(self) -> nat {
        self.frame_entries@.len()
    }

    pub closed spec fn entry_at(self, i: int) -> Option<Entry> {
        self.entries@[i]
    }

    /// The speculative entry of `frame`.
    pub closed spec fn entry_of(self, frame: ReadFrameIdx) -> Option<Entry> {
        match self.frame_entries@[frame.0 as int] {
            Some(index) => self.entries@[index as int],
            None => None,
        }
    }

    /// The credit that holds `frame`.
    pub closed spec fn credit_of(self, frame: ReadFrameIdx) -> Option<u32> {
        self.frame_entries@[frame.0 as int]
    }

    /// The free credits; the last one is given out first.
    pub closed spec fn free_credits(self) -> Seq<u32> {
        self.vacant@
    }

    pub closed spec fn patterns(self) -> Seq<Pattern> {
        self.patterns@
    }

    pub closed spec fn stats(self) -> PrefetchStats {
        self.stats
    }

    /// Frames set aside for speculation.
    pub closed spec fn reserved(self) -> Seq<ReadFrameIdx> {
        self.reserve@
    }

    /// Feedback not yet taken in.
    pub closed spec fn queued_feedback(self) -> Seq<Feedback> {
        self.feedback@
    }

    /// Entries to be cleaned up.
    pub closed spec fn cleanup_queue(self) -> Seq<u32> {
        self.cleanup@
    }

    /// Entries whose clean-up waits for a release.
    pub closed spec fn waiting_queue(self) -> Seq<u32> {
        self.waiting@
    }

    /// Readers whose stream wants to issue.
    pub closed spec fn ready_queue(self) -> Seq<u32> {
        self.ready@
    }

    /// The current predictions of `reader`, newest first.
    pub closed spec fn predictions(self, reader: int) -> Seq<u32> {
        indices(self.members.members(reader))
    }

    pub closed spec fn is_active(self) -> bool {
        self.active
    }

    pub closed spec fn limit(self) -> nat {
        self.request_limit as nat
    }

    pub closed spec fn automatic(self) -> u32 {
        self.automatic_width
    }

    pub closed spec fn protection_stamp(self) -> u64 {
        self.stamp
    }

    pub closed spec fn releases_seen(self) -> u32 {
        self.pending_releases
    }

    pub closed spec fn cursor(self) -> u32 {
        self.reader_cursor
    }

    /// How much of the ledger's counters has been used.
    pub closed spec fn wear(self) -> nat {
        self.wear@
    }

    /// Bounds the wear once every credit has come back and all feedback was
    /// taken in.
    pub open spec fn strain(self) -> nat {
        self.wear() + self.queued_feedback().len() + self.stats().occupied as nat
    }

    spec fn shaped(self) -> bool {
        &&& self.entries@.len() == self.capacity
        &&& self.frame_entries@.len() > 0
        &&& self.frame_entries@.len() <= u32::MAX
        &&& self.patterns@.len() <= u32::MAX
        &&& self.patterns@.len() > 0 ==> self.capacity > 0
        &&& self.reserve.wf()
        &&& self.reserve.room() == self.capacity
        &&& self.cleanup.wf() && self.cleanup.room() == self.capacity
        &&& self.waiting.wf() && self.waiting.room() == self.capacity
        &&& self.ready.wf() && self.ready.room() == self.patterns@.len()
        &&& self.members.wf()
        &&& self.members.capacity() == (if self.capacity == 0 {
            1int
        } else {
            self.capacity as int
        })
        &&& self.members.file_capacity() == self.patterns@.len()
        &&& self.automatic_width >= 1
        &&& self.request_limit <= u32::MAX
        &&& self.stats.capacity == 0 && self.stats.reserve_free == 0 && self.stats.reads_in_flight
            == 0
        &&& self.patterns@.len() > 0 ==> self.reader_cursor < self.patterns@.len()
    }

    spec fn worn(self) -> bool {
        &&& self.stats.admitted <= self.wear@
        &&& self.stats.automatic_admitted <= self.stats.admitted
        &&& forall|r: int|
            0 <= r < self.patterns@.len() ==> (#[trigger] self.patterns@[r]).incarnation
                <= self.wear@
    }

    pub closed spec fn wf(self) -> bool {
        &&& self.shaped()
        &&& self.worn()
        &&& balanced(self.stats)
        &&& self.vacant@.len() + self.stats.occupied == self.capacity
        &&& self.feedback@.len() + self.stats.occupied <= self.capacity
        &&& frames_match(self.entries@, self.frame_entries@)
        &&& vacant_match(self.entries@, self.vacant@)
        &&& sources_match(self.entries@, self.feedback@, self.patterns@)
        &&& members_match(self.entries@, self.patterns@, self.members)
        &&& queue_match(self.entries@, self.cleanup@)
        &&& queue_match(self.entries@, self.waiting@)
        &&& ready_match(self.patterns@, self.ready@, self.automatic_width)
    }

    /// The markers of `clock` belong to this ledger: a frame is marked while
    /// it has an entry, and a consumed marker is notified.
    pub open spec fn linked(self, clock: Clock) -> bool {
        &&& clock.wf()
        &&& clock.frame_count() == self.frames()
        &&& forall|f: ReadFrameIdx|
            f.0 < self.frames() ==> (#[trigger] self.entry_of(f) is Some <==> !(clock.speculation(
                f,
            ) is Absent))
        &&& forall|f: ReadFrameIdx|
            f.0 < self.frames() && #[trigger] clock.speculation(f) is Consumed
                ==> clock.consumed_frames().contains(f)
    }

    /// What the ledger promises about its books.
    pub proof fn lemma_books(self)
        requires
            self.wf(),
        ensures
            balanced(self.stats()),
            self.stats().occupied <= self.credits() <= u32::MAX,
            self.stats().admitted <= self.wear(),
            self.queued_feedback().len() + self.stats().occupied <= self.credits(),
            self.reserved().len() <= self.credits(),
            0 < self.frames() <= u32::MAX,
            self.patterns().len() <= u32::MAX,
            self.limit() <= u32::MAX,
            forall|f: ReadFrameIdx|
                f.0 < self.frames() && #[trigger] self.entry_of(f) is Some ==> self.entry_of(
                    f,
                )->0.frame == f,
            forall|r: int|
                0 <= r < self.patterns().len() ==> (#[trigger] self.patterns()[r]).wf()
                    && self.patterns()[r].incarnation <= self.wear(),
    {
        assert forall|f: ReadFrameIdx|
            f.0 < self.frames() && #[trigger] self.entry_of(f) is Some implies self.entry_of(
            f,
        )->0.frame == f by {
            assert(self.frame_entries@[f.0 as int] is Some);
        }
    }

    /// The entry of a frame, by index.
    pub proof fn lemma_entry(self, i: int)
        requires
            self.wf(),
            0 <= i < self.credits(),
            self.entry_at(i) is Some,
        ensures
            self.entry_at(i)->0.frame.0 < self.frames(),
            self.entry_of(self.entry_at(i)->0.frame) == self.entry_at(i),
            self.credit_of(self.entry_at(i)->0.frame) == Some(i as u32),
    {
    }

    /// Feedback that is owed is for a reader that is predicted for.
    pub proof fn lemma_feedback_reader(self, clock: Clock, feedback: Feedback)
        requires
            self.wf(),
            self.owes(clock, feedback),
        ensures
            feedback.reader < self.patterns().len(),
    {
        if self.queued_feedback().contains(feedback) {
            let k = choose|k: int| 0 <= k < self.feedback@.len() && self.feedback@[k] == feedback;
            assert(traceable(origin(self.feedback@[k]), self.feedback@[k].page, self.patterns@));
        } else {
            let f = choose|f: ReadFrameIdx|
                f.0 < self.frames() && #[trigger] self.harvest_at(clock, f) == Some(feedback);
            assert(self.frame_entries@[f.0 as int] is Some);
            let i = self.frame_entries@[f.0 as int]->0;
            assert(self.entries@[i as int] is Some);
        }
    }

    /// Two credits never hold one frame.
    pub proof fn lemma_distinct_entries(self, i: int, j: int)
        requires
            self.wf(),
            0 <= i < self.credits(),
            0 <= j < self.credits(),
            i != j,
            self.entry_at(i) is Some,
            self.entry_at(j) is Some,
        ensures
            self.entry_at(i)->0.frame != self.entry_at(j)->0.frame,
    {
    }

    /// An empty ledger of the given geometry.
    pub open spec fn laid_out(
        self,
        capacity: u32,
        readers: u32,
        reads: u32,
        mode: Readahead,
        frames: u32,
        granule: u32,
    ) -> bool {
        &&& self.wf()
        &&& self.credits() == capacity
        &&& self.frames() == frames
        &&& self.patterns() == Seq::new(
            if mode == Readahead::Automatic && capacity > 0 {
                readers as nat
            } else {
                0
            },
            |r: int| Pattern { state: PatternState::Empty, incarnation: 0 },
        )
        &&& self.reserved() == Seq::<ReadFrameIdx>::empty()
        &&& self.queued_feedback() == Seq::<Feedback>::empty()
        &&& self.cleanup_queue() == Seq::<u32>::empty()
        &&& self.waiting_queue() == Seq::<u32>::empty()
        &&& self.ready_queue() == Seq::<u32>::empty()
        &&& !self.is_active()
        &&& self.limit() == request_bound(capacity, reads)
        &&& self.automatic() == automatic_window(capacity, reads, granule)
        &&& self.stats() == (PrefetchStats {
            admitted: 0,
            automatic_admitted: 0,
            demand_promoted: 0,
            evicted_unused: 0,
            failed: 0,
            deferred: 0,
            submission_refused: 0,
            occupied: 0,
            capacity: 0,
            reserve_free: 0,
            reads_in_flight: 0,
        })
        &&& self.wear() == 0
        &&& self.cursor() == 0
        &&& self.protection_stamp() == 0
        &&& self.releases_seen() == 0
        &&& self.free_credits() == Seq::new(capacity as nat, |i: int| i as u32)
        &&& forall|i: int| 0 <= i < capacity ==> (#[trigger] self.entry_at(i)) is None
        &&& forall|f: ReadFrameIdx| f.0 < frames ==> (#[trigger] self.entry_of(f)) is None
        &&& forall|f: ReadFrameIdx| f.0 < frames ==> (#[trigger] self.credit_of(f)) is None
        &&& forall|r: int|
            0 <= r < self.patterns().len() ==> #[trigger] self.predictions(r) == Seq::<u32>::empty()
    }

    /// Fixed storage for `capacity` credits over `frames` frames; automatic
    /// prediction for `readers` readers where `mode` asks for it.
    pub fn with_geometry(
        capacity: u32,
        readers: u32,
        reads: u32,
        mode: Readahead,
        frames: u32,
        granule: u32,
    ) -> (ledger: Self)
        requires
            frames > 0,
            granule > 0,
        ensures
            ledger.laid_out(capacity, readers, reads, mode, frames, granule),
    {
        let pattern_count: u32 = match mode {
            Readahead::Automatic => if capacity > 0 {
                readers
            } else {
                0
            },
            Readahead::Disabled => 0,
        };
        let vector_width: u32 = if VECTOR_BYTES_MAX / granule < 1 {
            1
        } else if VECTOR_BYTES_MAX / granule > 32 {
            32
        } else {
            VECTOR_BYTES_MAX / granule
        };
        let spare: u32 = if reads == 0 {
            0
        } else {
            reads - 1
        };
        let shared: u32 = if capacity <= spare {
            capacity
        } else {
            spare
        };
        let automatic_width: u32 = if shared >= 2 * vector_width {
            vector_width
        } else {
            1
        };
        let widest: u32 = if capacity >= reads {
            capacity
        } else {
            reads
        };
        let quadrupled: u32 = if widest <= u32::MAX / 4 {
            widest * 4
        } else {
            u32::MAX
        };
        let request_limit: usize = if quadrupled < 1 {
            1
        } else {
            quadrupled as usize
        };
        let mut vacant: Vec<u32> = Vec::new();
        let mut entries: Vec<Option<Entry>> = Vec::new();
        let mut i: u32 = 0;
        while i < capacity
            invariant
                i <= capacity,
                vacant@.len() == i,
                entries@.len() == i,
                forall|k: int| 0 <= k < i ==> #[trigger] vacant@[k] == k,
                forall|k: int| 0 <= k < i ==> (#[trigger] entries@[k]) is None,
            decreases capacity - i,
        {
            vacant.push(i);
            entries.push(None);
            i = i + 1;
        }
        let mut patterns: Vec<Pattern> = Vec::new();
        let mut r: u32 = 0;
        while r < pattern_count
            invariant
                r <= pattern_count,
                patterns@ == Seq::new(
                    r as nat,
                    |k: int| Pattern { state: PatternState::Empty, incarnation: 0 },
                ),
            decreases pattern_count - r,
        {
            patterns.push(Pattern::new());
            r = r + 1;
            assert(patterns@ =~= Seq::new(
                r as nat,
                |k: int| Pattern { state: PatternState::Empty, incarnation: 0 },
            ));
        }
        let mut frame_entries: Vec<Option<u32>> = Vec::new();
        let mut f: u32 = 0;
        while f < frames
            invariant
                f <= frames,
                frame_entries@.len() == f,
                forall|k: int| 0 <= k < f ==> (#[trigger] frame_entries@[k]) is None,
            decreases frames - f,
        {
            frame_entries.push(None);
            f = f + 1;
        }
        let ledger = Prefetch {
            reserve: FreeFrames::empty(capacity),
            entries,
            patterns,
            stats: PrefetchStats::default(),
            capacity,
            request_limit,
            active: false,
            vector_width,
            automatic_width,
            ready: IndexQueue::new(pattern_count),
            cleanup: IndexQueue::new(capacity),
            waiting: IndexQueue::new(capacity),
            members: FileSlots::new(
                if capacity == 0 {
                    1
                } else {
                    capacity
                },
                pattern_count,
            ),
            frame_entries,
            vacant,
            feedback: Vec::new(),
            stamp: 0,
            pending_releases: 0,
            reader_cursor: 0,
            wear: Ghost(0),
        };
        proof {
            assert forall|k: int| 0 <= k < entries@.len() && (
            #[trigger] ledger.entries@[k]) is None implies ledger.vacant@.contains(k as u32) by {
                assert(ledger.vacant@[k] == k as u32);
            }
            assert(vacant_match(ledger.entries@, ledger.vacant@));
            assert(ledger.vacant@ =~= Seq::new(capacity as nat, |i: int| i as u32));
            assert(indices(Seq::<int>::empty()) =~= Seq::<u32>::empty());
            assert(forall|r: u32| r < ledger.patterns@.len() ==> !(#[trigger] ledger.ready@.contains(r)));
        }
        ledger
    }

    pub fn try_with_geometry(
        capacity: u32,
        readers: u32,
        reads: u32,
        mode: Readahead,
        frames: u32,
        granule: u32,
    ) -> (ledger: Option<Self>)
        requires
            frames > 0,
            granule > 0,
        ensures
            ledger matches Some(l) && l.laid_out(capacity, readers, reads, mode, frames, granule),
    {
        Some(Self::with_geometry(capacity, readers, reads, mode, frames, granule))
    }

    /// The credits still free.
    pub fn available(&self) -> (available: u32)
        requires
            self.wf(),
        ensures
            available == self.credits() - self.stats().occupied,
    {
        self.capacity - self.stats.occupied
    }

    /// Everything but the reserve.
    pub open spec fn same_books(self, other: Prefetch) -> bool {
        &&& self.credits() == other.credits()
        &&& self.frames() == other.frames()
        &&& self.patterns() == other.patterns()
        &&& self.stats() == other.stats()
        &&& self.queued_feedback() == other.queued_feedback()
        &&& self.cleanup_queue() == other.cleanup_queue()
        &&& self.waiting_queue() == other.waiting_queue()
        &&& self.ready_queue() == other.ready_queue()
        &&& self.is_active() == other.is_active()
        &&& self.limit() == other.limit()
        &&& self.automatic() == other.automatic()
        &&& self.protection_stamp() == other.protection_stamp()
        &&& self.releases_seen() == other.releases_seen()
        &&& self.cursor() == other.cursor()
        &&& self.wear() == other.wear()
        &&& self.same_credits(other)
    }

    /// Moves free frames into the reserve until it covers the free credits.
    pub fn fill_reserve(&mut self, free: &mut FreeFrames)
        requires
            old(self).wf(),
            old(free).wf(),
        ensures
            final(self).wf(),
            final(free).wf(),
            final(free).room() == old(free).room(),
            final(self).same_books(*old(self)),
            ({
                let wanted = old(self).credits() - old(self).stats().occupied - old(
                    self,
                ).reserved().len();
                let moved = if !old(self).is_active() || wanted <= 0 {
                    0
                } else if wanted <= old(free)@.len() {
                    wanted
                } else {
                    old(free)@.len() as int
                };
                let kept = old(free)@.len() - moved;
                &&& final(free)@ == old(free)@.take(kept)
                &&& final(self).reserved() == old(self).reserved() + old(free)@.skip(kept).reverse()
            }),
    {
        let ghost given = free@;
        let ghost start = self.reserve@;
        if !self.active {
            assert(free@ =~= given.take(given.len() as int));
            assert(self.reserve@ =~= start + given.skip(given.len() as int).reverse());
            return;
        }
        let available: u32 = self.available();
        while self.reserve.len() < available && free.len() > 0
            invariant
                self.wf(),
                free.wf(),
                free.room() == old(free).room(),
                self.same_books(*old(self)),
                available == self.credits() - self.stats().occupied,
                given == old(free)@,
                start == old(self).reserved(),
                free@.len() <= given.len(),
                free@ == given.take(free@.len() as int),
                self.reserve@ == start + given.skip(free@.len() as int).reverse(),
                self.reserve@.len() == start.len() + given.len() - free@.len(),
                free@.len() < given.len() ==> self.reserve@.len() <= available,
            decreases free@.len(),
        {
            let ghost before = free@;
            let ghost prior = *self;
            if let Some(frame) = free.pop() {
                self.reserve.push(frame);
                assert(self.same_credits(prior));
                assert(free@ =~= given.take(free@.len() as int));
                assert(given.skip(free@.len() as int).reverse() =~= given.skip(
                    before.len() as int,
                ).reverse().push(frame));
                assert(self.reserve@ =~= start + given.skip(free@.len() as int).reverse());
            }
        }
        assert(free@ =~= given.take(free@.len() as int));
    }

    /// Takes a reserved frame.
    pub fn pop_reserve(&mut self) -> (frame: Option<ReadFrameIdx>)
        requires
            old(self).wf(),
        ensures
            final(self).wf(),
            final(self).same_books(*old(self)),
            old(self).reserved().len() == 0 ==> frame is None && final(self).reserved() == old(
                self,
            ).reserved(),
            old(self).reserved().len() > 0 ==> frame == Some(old(self).reserved().last())
                && final(self).reserved() == old(self).reserved().drop_last(),
    {
        self.reserve.pop()
    }

    /// Gives a frame to the reserve.
    pub fn push_reserve(&mut self, frame: ReadFrameIdx)
        requires
            old(self).wf(),
            old(self).reserved().len() < old(self).credits(),
        ensures
            final(self).wf(),
            final(self).same_books(*old(self)),
            final(self).reserved() == old(self).reserved().push(frame),
    {
        self.reserve.push(frame);
    }

    /// The reserved frame the next speculation claims.
    pub fn reserve_top(&self) -> (frame: Option<ReadFrameIdx>)
        ensures
            frame is Some <==> self.reserved().len() > 0,
            frame matches Some(f) ==> f == self.reserved().last(),
    {
        self.reserve.top()
    }

    pub fn reserve_len(&self) -> (len: u32)
        requires
            self.wf(),
        ensures
            len == self.reserved().len(),
    {
        self.reserve.len()
    }

    /// Every field that a pattern's change leaves alone.
    spec fn kept(self, other: Prefetch) -> bool {
        &&& self.reserve == other.reserve
        &&& self.entries == other.entries
        &&& self.stats == other.stats
        &&& self.capacity == other.capacity
        &&& self.request_limit == other.request_limit
        &&& self.active == other.active
        &&& self.vector_width == other.vector_width
        &&& self.automatic_width == other.automatic_width
        &&& self.waiting == other.waiting
        &&& self.frame_entries == other.frame_entries
        &&& self.vacant == other.vacant
        &&& self.feedback == other.feedback
        &&& self.stamp == other.stamp
        &&& self.pending_releases == other.pending_releases
        &&& self.reader_cursor == other.reader_cursor
    }

    /// `self` is `other` after `reader`'s pattern became `pattern`: a new
    /// incarnation puts the reader's predictions up for clean-up, and the
    /// reader is ready exactly while its stream wants to issue.
    pub open spec fn repatterned(self, other: Prefetch, reader: u32, pattern: Pattern) -> bool {
        let fresh = pattern.incarnation != other.patterns()[reader as int].incarnation;
        &&& self.credits() == other.credits()
        &&& self.frames() == other.frames()
        &&& self.patterns() == other.patterns().update(reader as int, pattern)
        &&& self.stats() == other.stats()
        &&& self.reserved() == other.reserved()
        &&& self.queued_feedback() == other.queued_feedback()
        &&& self.cleanup_queue() == (if fresh {
            queued_all(other.cleanup_queue(), other.predictions(reader as int))
        } else {
            other.cleanup_queue()
        })
        &&& self.waiting_queue() == other.waiting_queue()
        &&& self.ready_queue() == (if pattern.due(reader, other.automatic()) is Some {
            queued(other.ready_queue(), reader)
        } else {
            unqueued(other.ready_queue(), reader)
        })
        &&& self.is_active() == other.is_active()
        &&& self.limit() == other.limit()
        &&& self.automatic() == other.automatic()
        &&& self.protection_stamp() == other.protection_stamp()
        &&& self.releases_seen() == other.releases_seen()
        &&& self.cursor() == other.cursor()
        &&& self.wear() == other.wear() + (if fresh {
            1nat
        } else {
            0
        })
        &&& self.same_entries(other)
        &&& forall|r: int|
            0 <= r < other.patterns().len() ==> #[trigger] self.predictions(r) == (if fresh && r
                == reader {
                Seq::<u32>::empty()
            } else {
                other.predictions(r)
            })
    }

    /// Every credit holds what it held.
    pub open spec fn same_entries(self, other: Prefetch) -> bool {
        &&& self.free_credits() == other.free_credits()
        &&& forall|i: int|
            0 <= i < self.credits() ==> #[trigger] self.entry_at(i) == other.entry_at(i)
        &&& forall|f: ReadFrameIdx|
            f.0 < self.frames() ==> #[trigger] self.entry_of(f) == other.entry_of(f)
        &&& forall|f: ReadFrameIdx|
            f.0 < self.frames() ==> #[trigger] self.credit_of(f) == other.credit_of(f)
    }

    /// Every credit holds what it held, and for the same readers.
    pub open spec fn same_credits(self, other: Prefetch) -> bool {
        &&& self.same_entries(other)
        &&& forall|r: int|
            0 <= r < other.patterns().len() ==> #[trigger] self.predictions(r)
                == other.predictions(r)
    }

    /// Puts `reader`'s predictions up for clean-up and forgets they are its.
    /// Returns how many there were.
    fn invalidate_reader(&mut self, reader: u32) -> (visited: u32)
        requires
            old(self).wf(),
            reader < old(self).patterns@.len(),
        ensures
            visited == old(self).predictions(reader as int).len(),
            old(self).credits() > 0 ==> visited <= old(self).credits(),
            final(self).kept(*old(self)),
            final(self).patterns == old(self).patterns,
            final(self).ready == old(self).ready,
            final(self).wear == old(self).wear,
            final(self).cleanup.wf(),
            final(self).cleanup.room() == old(self).cleanup.room(),
            final(self).cleanup@ == queued_all(
                old(self).cleanup@,
                old(self).predictions(reader as int),
            ),
            queue_match(final(self).entries@, final(self).cleanup@),
            final(self).members.wf(),
            final(self).members.capacity() == old(self).members.capacity(),
            final(self).members.file_capacity() == old(self).members.file_capacity(),
            forall|i: int|
                0 <= i < old(self).members.capacity() ==> #[trigger] final(self).members.at(i) == (
                if old(self).members.at(i) == Some(ReaderMember(reader)) {
                    None
                } else {
                    old(self).members.at(i)
                }),
            forall|o: int|
                0 <= o < old(self).patterns@.len() ==> #[trigger] final(self).members.members(o)
                    == (if o == reader {
                    Seq::<int>::empty()
                } else {
                    old(self).members.members(o)
                }),
    {
        let ghost start = *self;
        let ghost full = self.members.members(reader as int);
        let list: Vec<(usize, ReaderMember)> = self.members.owned_by(reader);
        proof {
            start.members.lemma_members(reader as int);
            assert(full.skip(0) =~= full);
            assert(indices(full).take(0) =~= Seq::empty());
        }
        let mut k: usize = 0;
        while k < list.len()
            invariant
                k <= list@.len(),
                start.wf(),
                reader < start.patterns@.len(),
                full == start.members.members(reader as int),
                list@.len() == full.len(),
                full.no_duplicates(),
                forall|i: int|
                    #[trigger] full.contains(i) <==> 0 <= i < start.members.capacity()
                        && start.members.at(i) is Some && start.members.at(i)->0.owner() == reader,
                forall|j: int| 0 <= j < list@.len() ==> (#[trigger] list@[j]).0 == full[j],
                self.kept(start),
                self.patterns == start.patterns,
                self.ready == start.ready,
                self.wear == start.wear,
                self.cleanup.wf(),
                self.cleanup.room() == start.cleanup.room(),
                self.cleanup@ == queued_all(start.cleanup@, indices(full).take(k as int)),
                queue_match(self.entries@, self.cleanup@),
                self.members.wf(),
                self.members.capacity() == start.members.capacity(),
                self.members.file_capacity() == start.members.file_capacity(),
                self.members.members(reader as int) == full.skip(k as int),
                forall|o: int|
                    0 <= o < start.patterns@.len() && o != reader
                        ==> #[trigger] self.members.members(o) == start.members.members(o),
                forall|i: int|
                    0 <= i < start.members.capacity() ==> #[trigger] self.members.at(i) == (
                    if full.take(k as int).contains(i) {
                        None
                    } else {
                        start.members.at(i)
                    }),
            decreases list@.len() - k,
        {
            let index: usize = list[k].0;
            let ghost before = *self;
            proof {
                assert(full[k as int] == index);
                assert(full.contains(index as int));
                assert(!full.take(k as int).contains(index as int)) by {
                    if full.take(k as int).contains(index as int) {
                        let j = choose|j: int|
                            0 <= j < full.take(k as int).len() && full.take(k as int)[j] == index;
                        assert(full[j] == full[k as int]);
                    }
                }
                assert(before.members.at(index as int) == start.members.at(index as int));
                assert(start.entries@[index as int] is Some);
            }
            self.members.remove(index);
            self.cleanup.push(index as u32);
            proof {
                let rest = full.skip(k as int);
                assert(rest[0] == index);
                let at = rest.index_of(index as int);
                assert(rest[at] == index);
                assert(at == 0) by {
                    assert(full[k + at] == full[k as int]);
                }
                assert(rest.remove(0) =~= full.skip(k + 1));
                assert forall|i: int| 0 <= i < start.members.capacity() implies #[trigger] self.members.at(
                    i,
                ) == (if full.take(k + 1).contains(i) {
                    None
                } else {
                    start.members.at(i)
                }) by {
                    assert(full.take(k + 1) =~= full.take(k as int).push(index as int));
                    if full.take(k as int).contains(i) {
                        let j = choose|j: int|
                            0 <= j < full.take(k as int).len() && full.take(k as int)[j] == i;
                        assert(full.take(k + 1)[j] == i);
                    }
                    if full.take(k + 1).contains(i) && i != index {
                        let longer = full.take(k + 1);
                        let j = choose|j: int| 0 <= j < longer.len() && longer[j] == i;
                        assert(full.take(k as int)[j] == i);
                    }
                    assert(full.take(k + 1)[k as int] == index);
                }
                assert(indices(full).take(k + 1).drop_last() =~= indices(full).take(k as int));
                assert(indices(full).take(k + 1).last() == index as u32);
                assert forall|i: u32| #[trigger] self.cleanup@.contains(i) implies i
                    < self.entries@.len() && self.entries@[i as int] is Some by {
                    if !before.cleanup@.contains(i) {
                        assert(i == index as u32) by {
                            let j = choose|j: int|
                                0 <= j < self.cleanup@.len() && self.cleanup@[j] == i;
                            if j < before.cleanup@.len() {
                                assert(before.cleanup@[j] == i);
                            }
                        }
                    }
                }
            }
            k = k + 1;
        }
        proof {
            assert(indices(full).take(k as int) =~= indices(full));
            assert(full.take(k as int) =~= full);
            assert(full.skip(k as int) =~= Seq::empty());
            assert forall|i: int| 0 <= i < start.members.capacity() implies #[trigger] self.members.at(
                i,
            ) == (if start.members.at(i) == Some(ReaderMember(reader)) {
                None
            } else {
                start.members.at(i)
            }) by {
                assert(full.contains(i) <==> start.members.at(i) is Some
                    && start.members.at(i)->0.owner() == reader);
            }
        }
        list.len() as u32
    }

    /// Replaces `reader`'s pattern by what it became. Returns how many of the
    /// reader's predictions that abandons.
    fn pattern_changed(&mut self, reader: u32, pattern: Pattern) -> (visited: u32)
        requires
            old(self).wf(),
            reader < old(self).patterns().len(),
            pattern.wf(),
            pattern.incarnation == old(self).patterns()[reader as int].incarnation
                || pattern.incarnation == old(self).patterns()[reader as int].incarnation + 1,
            pattern.incarnation == old(self).patterns()[reader as int].incarnation && old(
                self,
            ).patterns()[reader as int].state is Streaming ==> pattern.state is Streaming
                && pattern.state->demand.file == old(
                self,
            ).patterns()[reader as int].state->demand.file,
        ensures
            final(self).wf(),
            final(self).repatterned(*old(self), reader, pattern),
            visited == (if pattern.incarnation != old(
                self,
            ).patterns()[reader as int].incarnation {
                old(self).predictions(reader as int).len()
            } else {
                0
            }),
            old(self).credits() > 0 ==> visited <= old(self).credits(),
    {
        let ghost start = *self;
        let fresh: bool = pattern.incarnation() != self.patterns[reader as usize].incarnation();
        let mut visited: u32 = 0;
        if fresh {
            visited = self.invalidate_reader(reader);
            proof {
                self.wear@ = self.wear@ + 1;
            }
        }
        self.patterns.set(reader as usize, pattern);
        self.refresh_ready(reader);
        proof {
            assert forall|r: int| 0 <= r < self.patterns@.len() implies (
            #[trigger] self.patterns@[r]).wf() && self.patterns@[r].incarnation <= self.wear@ by {
                assert(start.patterns@[r].wf());
            }
            assert forall|i: int| 0 <= i < self.entries@.len() && (
            #[trigger] self.entries@[i]) is Some implies traceable(
                self.entries@[i]->0.source,
                self.entries@[i]->0.page,
                self.patterns@,
            ) by {
                assert(traceable(
                    start.entries@[i]->0.source,
                    start.entries@[i]->0.page,
                    start.patterns@,
                ));
            }
            assert forall|k: int| 0 <= k < self.feedback@.len() implies traceable(
                origin(#[trigger] self.feedback@[k]),
                self.feedback@[k].page,
                self.patterns@,
            ) by {
                assert(traceable(
                    origin(start.feedback@[k]),
                    start.feedback@[k].page,
                    start.patterns@,
                ));
            }
            assert forall|i: int| 0 <= i < self.members.capacity() implies #[trigger] self.members.at(
                i,
            ) == (if i < self.entries@.len() && self.entries@[i] is Some && current(
                self.entries@[i]->0.source,
                self.patterns@,
            ) {
                Some(ReaderMember(self.entries@[i]->0.source->reader))
            } else {
                None
            }) by {
                assert(start.members.at(i) == (if i < start.entries@.len()
                    && start.entries@[i] is Some && current(
                    start.entries@[i]->0.source,
                    start.patterns@,
                ) {
                    Some(ReaderMember(start.entries@[i]->0.source->reader))
                } else {
                    None
                }));
                if i < start.entries@.len() && start.entries@[i] is Some {
                    assert(traceable(
                        start.entries@[i]->0.source,
                        start.entries@[i]->0.page,
                        start.patterns@,
                    ));
                }
            }
            assert(self.same_entries(start));
            assert(indices(Seq::<int>::empty()) =~= Seq::<u32>::empty());
            assert(self.patterns@ =~= start.patterns@.update(reader as int, pattern));
        }
        visited
    }

    /// Keeps `reader` in the ready queue exactly while its stream wants to
    /// issue.
    fn refresh_ready(&mut self, reader: u32)
        requires
            reader < old(self).patterns@.len(),
            old(self).patterns@[reader as int].wf(),
            old(self).ready.wf(),
            old(self).ready.room() == old(self).patterns@.len(),
            forall|r: u32|
                r < old(self).patterns@.len() && r != reader ==> (#[trigger] old(
                    self,
                ).ready@.contains(r) <==> old(self).patterns@[r as int].due(
                    r,
                    old(self).automatic_width,
                ) is Some),
        ensures
            final(self).kept(*old(self)),
            final(self).patterns == old(self).patterns,
            final(self).cleanup == old(self).cleanup,
            final(self).members == old(self).members,
            final(self).wear == old(self).wear,
            final(self).ready.wf(),
            final(self).ready.room() == old(self).ready.room(),
            final(self).ready@ == (if old(self).patterns@[reader as int].due(
                reader,
                old(self).automatic_width,
            ) is Some {
                queued(old(self).ready@, reader)
            } else {
                unqueued(old(self).ready@, reader)
            }),
            ready_match(final(self).patterns@, final(self).ready@, final(self).automatic_width),
    {
        let pattern: Pattern = self.patterns[reader as usize];
        proof {
            self.ready.lemma_members();
        }
        let ghost before = self.ready@;
        if pattern.window(reader, self.automatic_width).is_some() {
            self.ready.push(reader);
            proof {
                assert forall|r: u32| #[trigger] self.ready@.contains(r) <==> before.contains(r)
                    || r == reader by {
                    lemma_queued_contains(before, reader, r);
                }
            }
        } else {
            self.ready.remove(reader);
            proof {
                assert forall|r: u32| #[trigger] self.ready@.contains(r) <==> before.contains(r)
                    && r != reader by {
                    lemma_unqueued_contains(before, reader, r);
                }
            }
        }
    }

    /// Abandons `reader`'s stream.
    pub fn reset_reader(&mut self, reader: u32)
        requires
            old(self).wf(),
            old(self).wear() < u64::MAX,
        ensures
            final(self).wf(),
            reader < old(self).patterns().len() ==> final(self).repatterned(
                *old(self),
                reader,
                old(self).patterns()[reader as int].restarted(PatternState::Empty),
            ),
            reader >= old(self).patterns().len() ==> *final(self) == *old(self),
    {
        if (reader as usize) < self.patterns.len() {
            let mut pattern: Pattern = self.patterns[reader as usize];
            assert(pattern.incarnation <= self.wear@);
            pattern.reset();
            let _visited: u32 = self.pattern_changed(reader, pattern);
        }
    }

    /// Moves `reader`'s stream past its prediction `page`.
    pub fn issued(&mut self, reader: u32, page: PageId)
        requires
            old(self).wf(),
            old(self).wear() < u64::MAX,
            reader < old(self).patterns().len(),
            old(self).patterns()[reader as int].state is Streaming,
            page == (PageId {
                file: old(self).patterns()[reader as int].state->demand.file,
                granule_idx: old(self).patterns()[reader as int].state->next,
            }),
        ensures
            final(self).wf(),
            final(self).repatterned(
                *old(self),
                reader,
                old(self).patterns()[reader as int].advanced(),
            ),
    {
        let mut pattern: Pattern = self.patterns[reader as usize];
        assert(pattern.incarnation <= self.wear@ && pattern.wf());
        pattern.issued(page);
        let _visited: u32 = self.pattern_changed(reader, pattern);
    }

    /// `reader`'s next prediction.
    pub fn request(&self, reader: u32) -> (request: Option<(PageId, Source)>)
        requires
            reader < self.patterns().len(),
        ensures
            request == self.patterns()[reader as int].prediction(reader),
    {
        self.patterns[reader as usize].request(reader)
    }

    /// The number of readers that are predicted for.
    pub fn pattern_count(&self) -> (count: u32)
        requires
            self.wf(),
        ensures
            count == self.patterns().len(),
    {
        self.patterns.len() as u32
    }

    /// Moves `reader` behind the other ready ones.
    pub fn advance_turn(&mut self, reader: u32)
        requires
            old(self).wf(),
            reader < old(self).patterns().len(),
        ensures
            final(self).wf(),
            final(self).patterns() == old(self).patterns(),
            final(self).stats() == old(self).stats(),
            final(self).same_credits(*old(self)),
            final(self).credits() == old(self).credits(),
            final(self).frames() == old(self).frames(),
            final(self).reserved() == old(self).reserved(),
            final(self).queued_feedback() == old(self).queued_feedback(),
            final(self).wear() == old(self).wear(),
            final(self).limit() == old(self).limit(),
            final(self).automatic() == old(self).automatic(),
            final(self).same_switches(*old(self)),
            final(self).cleanup_queue() == old(self).cleanup_queue(),
            final(self).waiting_queue() == old(self).waiting_queue(),
            final(self).protection_stamp() == old(self).protection_stamp(),
            final(self).releases_seen() == old(self).releases_seen(),
            final(self).ready_queue() == ({
                let left = unqueued(old(self).ready_queue(), reader);
                if old(self).patterns()[reader as int].due(reader, old(self).automatic()) is Some {
                    queued(left, reader)
                } else {
                    unqueued(left, reader)
                }
            }),
    {
        let ghost start = *self;
        proof {
            start.ready.lemma_members();
        }
        self.ready.remove(reader);
        proof {
            assert forall|r: u32|
                r < self.patterns@.len() && r != reader implies (#[trigger] self.ready@.contains(r)
                <==> self.patterns@[r as int].due(r, self.automatic_width) is Some) by {
                lemma_unqueued_contains(start.ready@, reader, r);
                assert(start.ready@.contains(r) <==> start.patterns@[r as int].due(
                    r,
                    start.automatic_width,
                ) is Some);
            }
            assert(self.patterns@[reader as int].wf());
        }
        self.refresh_ready(reader);
        assert(self.same_entries(start));
    }

    /// Nothing but entries, books, patterns and queues differs.
    pub open spec fn same_setup(self, other: Prefetch) -> bool {
        &&& self.credits() == other.credits()
        &&& self.frames() == other.frames()
        &&& self.reserved() == other.reserved()
        &&& self.is_active() == other.is_active()
        &&& self.limit() == other.limit()
        &&& self.automatic() == other.automatic()
        &&& self.protection_stamp() == other.protection_stamp()
        &&& self.releases_seen() == other.releases_seen()
        &&& self.cursor() == other.cursor()
    }

    /// `self` is `other` with one more credit out: `frame` holds `page` for
    /// `source`.
    pub open spec fn enrolled(
        self,
        other: Prefetch,
        page: PageId,
        frame: ReadFrameIdx,
        source: Source,
    ) -> bool {
        let entry = Entry { page, frame, source, protected: other.protection_stamp() };
        &&& other.entry_of(frame) is None
        &&& self.same_setup(other)
        &&& self.patterns() == other.patterns()
        &&& self.queued_feedback() == other.queued_feedback()
        &&& self.cleanup_queue() == other.cleanup_queue()
        &&& self.waiting_queue() == other.waiting_queue()
        &&& self.ready_queue() == other.ready_queue()
        &&& self.stats() == (PrefetchStats {
            admitted: (other.stats().admitted + 1) as u64,
            automatic_admitted: (other.stats().automatic_admitted + (if source is Automatic {
                1int
            } else {
                0
            })) as u64,
            occupied: (other.stats().occupied + 1) as u32,
            ..other.stats()
        })
        &&& self.wear() == other.wear() + 1
        &&& forall|f: ReadFrameIdx|
            f.0 < self.frames() ==> #[trigger] self.entry_of(f) == (if f == frame {
                Some(entry)
            } else {
                other.entry_of(f)
            })
        &&& self.filled_credit(other, other.free_credits().last(), entry)
    }

    /// The free credit `credit` holds `entry`; the others are as they were.
    pub open spec fn filled_credit(self, other: Prefetch, credit: u32, entry: Entry) -> bool {
        &&& credit < self.credits()
        &&& other.entry_at(credit as int) is None
        &&& self.free_credits() == other.free_credits().drop_last()
        &&& forall|i: int|
            0 <= i < self.credits() ==> #[trigger] self.entry_at(i) == (if i == credit {
                Some(entry)
            } else {
                other.entry_at(i)
            })
        &&& forall|f: ReadFrameIdx|
            f.0 < self.frames() ==> #[trigger] self.credit_of(f) == (if f == entry.frame {
                Some(credit)
            } else {
                other.credit_of(f)
            })
        &&& forall|r: int|
            0 <= r < other.patterns().len() ==> #[trigger] self.predictions(r) == (
            if entry.source is Automatic && entry.source->reader == r {
                seq![credit] + other.predictions(r)
            } else {
                other.predictions(r)
            })
    }

    /// A credit is out for the frame on top of the reserve, which is being
    /// filled with `page` for `source`.
    pub open spec fn drawn(self, other: Prefetch, page: PageId, source: Source) -> bool {
        exists|popped: Prefetch|
            {
                &&& popped.same_books(other)
                &&& popped.reserved() == other.reserved().drop_last()
                &&& #[trigger] self.enrolled(popped, page, other.reserved().last(), source)
            }
    }

    /// Takes a credit for `frame`, which is being filled with `page`.
    pub fn enroll(&mut self, clock: &mut Clock, page: PageId, frame: ReadFrameIdx, source: Source)
        requires
            old(self).wf(),
            old(self).linked(*old(clock)),
            old(self).queued_feedback().len() == 0,
            old(self).stats().occupied < old(self).credits(),
            frame.0 < old(self).frames(),
            old(self).entry_of(frame) is None,
            source is Explicit || current(source, old(self).patterns()),
            traceable(source, page, old(self).patterns()),
            old(self).wear() < WEAR_MAX,
        ensures
            final(self).wf(),
            final(self).linked(*final(clock)),
            final(self).enrolled(*old(self), page, frame, source),
            final(clock).marked(*old(clock), frame),
    {
        let ghost start = *self;
        let ghost top = self.vacant@.len() - 1;
        let ghost marks = *clock;
        assert(self.vacant@.len() > 0);
        let index: u32 = match self.vacant.pop() {
            Some(index) => index,
            None => 0,
        };
        proof {
            assert(start.vacant@[top] == index);
            assert(start.entries@[index as int] is None);
            assert(start.frame_entries@[frame.0 as int] is None) by {
                if start.frame_entries@[frame.0 as int] is Some {
                    assert(start.entries@[start.frame_entries@[frame.0 as int]->0 as int] is Some);
                }
            }
            assert(start.members.at(index as int) is None);
        }
        self.frame_entries.set(frame.0 as usize, Some(index));
        if let Source::Automatic { reader, .. } = source {
            self.members.insert(index as usize, ReaderMember(reader));
        }
        self.entries.set(
            index as usize,
            Some(Entry { page, frame, source, protected: self.stamp }),
        );
        clock.begin_speculation(frame);
        self.stats.admitted = self.stats.admitted + 1;
        self.stats.occupied = self.stats.occupied + 1;
        if let Source::Automatic { .. } = source {
            self.stats.automatic_admitted = self.stats.automatic_admitted + 1;
        }
        proof {
            self.wear@ = self.wear@ + 1;
            assert forall|r: int| 0 <= r < start.patterns().len() implies #[trigger] self.predictions(
                r,
            ) == (if source is Automatic && source->reader == r {
                seq![index] + start.predictions(r)
            } else {
                start.predictions(r)
            }) by {
                assert(indices(seq![index as int] + start.members.members(r)) =~= seq![index]
                    + indices(start.members.members(r)));
            }
            assert(self.filled_credit(
                start,
                index,
                Entry { page, frame, source, protected: start.stamp },
            ));
            assert(start.vacant@ =~= self.vacant@.push(index));
            assert forall|i: int| 0 <= i < self.entries@.len() && (
            #[trigger] self.entries@[i]) is None implies self.vacant@.contains(i as u32) by {
                assert(start.entries@[i] is None);
                let k = choose|k: int| 0 <= k < start.vacant@.len() && start.vacant@[k] == i as u32;
                assert(k != top);
                assert(self.vacant@[k] == i as u32);
            }
            assert forall|k: int| 0 <= k < self.vacant@.len() implies (#[trigger] self.vacant@[k])
                < self.entries@.len() && self.entries@[self.vacant@[k] as int] is None by {
                assert(start.vacant@[k] == self.vacant@[k]);
                assert(start.vacant@[k] != start.vacant@[top]);
            }
            assert(self.vacant@.no_duplicates()) by {
                assert forall|a: int, b: int|
                    0 <= a < self.vacant@.len() && 0 <= b < self.vacant@.len() && a
                        != b implies self.vacant@[a] != self.vacant@[b] by {
                    assert(start.vacant@[a] != start.vacant@[b]);
                }
            }
            assert forall|i: int| 0 <= i < self.entries@.len() && (
            #[trigger] self.entries@[i]) is Some implies traceable(
                self.entries@[i]->0.source,
                self.entries@[i]->0.page,
                self.patterns@,
            ) by {
                if i != index {
                    assert(start.entries@[i] is Some);
                }
            }
            assert forall|i: int| 0 <= i < self.members.capacity() implies #[trigger] self.members.at(
                i,
            ) == (if i < self.entries@.len() && self.entries@[i] is Some && current(
                self.entries@[i]->0.source,
                self.patterns@,
            ) {
                Some(ReaderMember(self.entries@[i]->0.source->reader))
            } else {
                None
            }) by {
                assert(i != index ==> self.members.at(i) == start.members.at(i));
            }
            assert(frames_match(self.entries@, self.frame_entries@)) by {
                assert forall|i: int| 0 <= i < self.entries@.len() && (
                #[trigger] self.entries@[i]) is Some implies self.entries@[i]->0.frame.0
                    < self.frame_entries@.len()
                    && self.frame_entries@[self.entries@[i]->0.frame.0 as int] == Some(
                    i as u32,
                ) by {
                    if i != index {
                        assert(start.entries@[i] is Some);
                    }
                }
                assert forall|f: int| 0 <= f < self.frame_entries@.len() && (
                #[trigger] self.frame_entries@[f]) is Some implies self.frame_entries@[f]->0
                    < self.entries@.len() && (
                self.entries@[self.frame_entries@[f]->0 as int] matches Some(e) && e.frame.0
                    == f) by {
                    if f != frame.0 {
                        assert(start.frame_entries@[f] is Some);
                    }
                }
            }
            assert forall|i: u32| #[trigger] self.cleanup@.contains(i) implies i
                < self.entries@.len() && self.entries@[i as int] is Some by {
                assert(start.cleanup@.contains(i));
            }
            assert forall|i: u32| #[trigger] self.waiting@.contains(i) implies i
                < self.entries@.len() && self.entries@[i as int] is Some by {
                assert(start.waiting@.contains(i));
            }
            assert forall|f: ReadFrameIdx| f.0 < self.frames() implies #[trigger] self.entry_of(f)
                == (if f == frame {
                Some(Entry { page, frame, source, protected: start.stamp })
            } else {
                start.entry_of(f)
            }) by {
                if f != frame && start.frame_entries@[f.0 as int] is Some {
                    assert(start.frame_entries@[f.0 as int]->0 != index);
                }
            }
            assert forall|f: ReadFrameIdx| f.0 < self.frames() implies (#[trigger] self.entry_of(
                f,
            ) is Some <==> !(clock.speculation(f) is Absent)) by {
                assert(start.entry_of(f) is Some <==> !(marks.speculation(f) is Absent));
            }
        }
    }

    /// `self` is `other` after the credit of `frame` ended with `terminal`. A
    /// prediction that was not used abandons the stream it belongs to, whose
    /// other predictions are put up for clean-up.
    pub open spec fn ended(
        self,
        other: Prefetch,
        clock: Clock,
        frame: ReadFrameIdx,
        terminal: Terminal,
    ) -> bool {
        let entry = other.entry_of(frame)->0;
        let credit = other.credit_of(frame)->0;
        let end = decided(clock.speculation(frame), terminal);
        let reader = entry.source->reader;
        let abandoned = !(end is Promoted) && current(entry.source, other.patterns());
        &&& other.entry_of(frame) is Some
        &&& other.credit_of(frame) is Some
        &&& self.same_setup(other)
        &&& self.stats() == settled(other.stats(), end)
        &&& self.queued_feedback() == (match credited(entry, end) {
            Some(feedback) => other.queued_feedback().push(feedback),
            None => other.queued_feedback(),
        })
        &&& self.patterns() == (if abandoned {
            other.patterns().update(
                reader as int,
                other.patterns()[reader as int].restarted(PatternState::Empty),
            )
        } else {
            other.patterns()
        })
        &&& self.wear() == other.wear() + (if abandoned {
            1nat
        } else {
            0
        })
        &&& self.waiting_queue() == unqueued(other.waiting_queue(), credit)
        &&& self.cleanup_queue() == (if abandoned {
            queued_all(
                unqueued(other.cleanup_queue(), credit),
                unqueued(other.predictions(reader as int), credit),
            )
        } else {
            unqueued(other.cleanup_queue(), credit)
        })
        &&& self.ready_queue() == (if abandoned {
            unqueued(other.ready_queue(), reader)
        } else {
            other.ready_queue()
        })
        &&& self.free_credits() == other.free_credits().push(credit)
        &&& forall|i: int|
            0 <= i < self.credits() ==> #[trigger] self.entry_at(i) == (if i == credit {
                None
            } else {
                other.entry_at(i)
            })
        &&& forall|f: ReadFrameIdx|
            f.0 < self.frames() ==> #[trigger] self.entry_of(f) == (if f == frame {
                None
            } else {
                other.entry_of(f)
            })
        &&& forall|f: ReadFrameIdx|
            f.0 < self.frames() ==> #[trigger] self.credit_of(f) == (if f == frame {
                None
            } else {
                other.credit_of(f)
            })
        &&& forall|r: int|
            0 <= r < other.patterns().len() ==> #[trigger] self.predictions(r) == (if abandoned && r
                == reader {
                Seq::<u32>::empty()
            } else {
                unqueued(other.predictions(r), credit)
            })
    }

    /// Ends the credit in slot `index`.
    fn finish_index(&mut self, clock: &mut Clock, index: u32, terminal: Terminal)
        requires
            old(self).wf(),
            old(clock).wf(),
            old(clock).frame_count() == old(self).frames(),
            index < old(self).credits(),
            old(self).entry_at(index as int) is Some,
            old(self).wear() < u64::MAX,
        ensures
            final(self).wf(),
            final(clock).wf(),
            old(self).linked(*old(clock)) ==> final(self).linked(*final(clock)),
            final(self).ended(
                *old(self),
                *old(clock),
                old(self).entry_at(index as int)->0.frame,
                terminal,
            ),
            final(clock).unmarked(*old(clock), old(self).entry_at(index as int)->0.frame),
    {
        let ghost start = *self;
        let ghost marks = *clock;
        proof {
            start.lemma_entry(index as int);
            start.cleanup.lemma_members();
            start.waiting.lemma_members();
        }
        let entry: Entry = match self.entries[index as usize] {
            Some(entry) => entry,
            None => Entry {
                page: PageId::new(crate::driver::FileId::new(0, 0, 0), 0),
                frame: ReadFrameIdx(0),
                source: Source::Explicit,
                protected: 0,
            },
        };
        self.entries.set(index as usize, None);
        if !self.members.is_none(index as usize) {
            self.members.remove(index as usize);
        }
        self.cleanup.remove(index);
        self.waiting.remove(index);
        self.frame_entries.set(entry.frame.0 as usize, None);
        self.vacant.push(index);
        let outcome: SpeculationOutcome = clock.take_speculation(entry.frame);
        let end: Terminal = match outcome {
            SpeculationOutcome::Consumed(reader) => Terminal::Promoted(reader),
            _ => terminal,
        };
        proof {
            start.lemma_occupied(index as int);
        }
        self.stats.occupied = self.stats.occupied - 1;
        match end {
            Terminal::Promoted(_) => {
                self.stats.demand_promoted = self.stats.demand_promoted + 1;
            },
            Terminal::Evicted => {
                self.stats.evicted_unused = self.stats.evicted_unused + 1;
            },
            Terminal::Failed => {
                self.stats.failed = self.stats.failed + 1;
            },
        }
        proof {
            self.lemma_withdrawn(start, index as int, entry);
            if start.linked(marks) {
                assert forall|f: ReadFrameIdx|
                    f.0 < self.frames() implies (#[trigger] self.entry_of(f) is Some <==> !(
                clock.speculation(f) is Absent)) by {
                    assert(start.entry_of(f) is Some <==> !(marks.speculation(f) is Absent));
                }
            }
        }
        let ghost withdrawn = *self;
        proof {
            assert forall|r: int| 0 <= r < start.patterns().len() implies #[trigger] self.predictions(
                r,
            ) == unqueued(start.predictions(r), index) by {
                start.members.lemma_members(r);
                let list = start.members.members(r);
                assert forall|k: int| 0 <= k < list.len() implies 0 <= #[trigger] list[k]
                    <= u32::MAX by {
                    assert(list.contains(list[k]));
                }
                lemma_indices_without(start.members.members(r), index);
            }
        }
        self.finish_index_feedback(entry, end);
        proof {
            assert(start.credit_of(entry.frame) == Some(index));
            assert(forall|f: ReadFrameIdx|
                f.0 < self.frames() ==> #[trigger] self.entry_of(f) == withdrawn.entry_of(f));
            assert(forall|f: ReadFrameIdx|
                f.0 < self.frames() ==> #[trigger] self.credit_of(f) == withdrawn.credit_of(f));
        }
    }

    /// An entry occupies a credit.
    proof fn lemma_occupied(self, index: int)
        requires
            self.wf(),
            0 <= index < self.capacity,
            self.entries@[index] is Some,
        ensures
            self.stats.occupied > 0,
    {
        let list = self.vacant@.push(index as u32);
        assert(list.no_duplicates()) by {
            assert forall|a: int, b: int|
                0 <= a < list.len() && 0 <= b < list.len() && a != b implies list[a] != list[b] by {
                if a < self.vacant@.len() {
                    assert(self.entries@[self.vacant@[a] as int] is None);
                }
                if b < self.vacant@.len() {
                    assert(self.entries@[self.vacant@[b] as int] is None);
                }
            }
        }
        assert forall|k: int| 0 <= k < list.len() implies #[trigger] list[k] < self.capacity by {
            if k < self.vacant@.len() {
                assert(self.vacant@[k] < self.entries@.len());
            }
        }
        lemma_distinct_below(list, self.capacity as int);
    }

    /// The ledger stays in order when the entry in slot `index` is withdrawn.
    proof fn lemma_withdrawn(self, start: Self, index: int, entry: Entry)
        requires
            start.wf(),
            0 <= index < start.capacity,
            start.entries@[index] == Some(entry),
            self.reserve == start.reserve,
            self.entries@ == start.entries@.update(index, None),
            self.patterns == start.patterns,
            self.capacity == start.capacity,
            self.automatic_width == start.automatic_width,
            self.request_limit == start.request_limit,
            self.ready == start.ready,
            self.feedback == start.feedback,
            self.reader_cursor == start.reader_cursor,
            self.wear == start.wear,
            self.cleanup.wf(),
            self.cleanup.room() == start.cleanup.room(),
            self.cleanup@ == unqueued(start.cleanup@, index as u32),
            self.waiting.wf(),
            self.waiting.room() == start.waiting.room(),
            self.waiting@ == unqueued(start.waiting@, index as u32),
            self.members.wf(),
            self.members.capacity() == start.members.capacity(),
            self.members.file_capacity() == start.members.file_capacity(),
            self.members.at(index) is None,
            forall|i: int|
                0 <= i < start.members.capacity() && i != index ==> #[trigger] self.members.at(i)
                    == start.members.at(i),
            self.frame_entries@ == start.frame_entries@.update(entry.frame.0 as int, None),
            self.vacant@ == start.vacant@.push(index as u32),
            self.stats.admitted == start.stats.admitted,
            self.stats.automatic_admitted == start.stats.automatic_admitted,
            self.stats.occupied == start.stats.occupied - 1,
            self.stats.capacity == 0,
            self.stats.reserve_free == 0,
            self.stats.reads_in_flight == 0,
            balanced(self.stats),
        ensures
            self.wf(),
            forall|f: ReadFrameIdx|
                f.0 < self.frames() ==> #[trigger] self.entry_of(f) == (if f == entry.frame {
                    None
                } else {
                    start.entry_of(f)
                }),
    {
        start.cleanup.lemma_members();
        start.waiting.lemma_members();
        assert(!start.vacant@.contains(index as u32)) by {
            if start.vacant@.contains(index as u32) {
                let k = choose|k: int|
                    0 <= k < start.vacant@.len() && start.vacant@[k] == index as u32;
                assert(start.entries@[start.vacant@[k] as int] is None);
            }
        }
        assert(self.vacant@.no_duplicates()) by {
            assert forall|a: int, b: int|
                0 <= a < self.vacant@.len() && 0 <= b < self.vacant@.len() && a
                    != b implies self.vacant@[a] != self.vacant@[b] by {
                if a < start.vacant@.len() {
                    assert(start.vacant@.contains(start.vacant@[a]));
                }
                if b < start.vacant@.len() {
                    assert(start.vacant@.contains(start.vacant@[b]));
                }
            }
        }
        assert forall|k: int| 0 <= k < self.vacant@.len() implies (#[trigger] self.vacant@[k])
            < self.entries@.len() && self.entries@[self.vacant@[k] as int] is None by {
            if k < start.vacant@.len() {
                assert(start.vacant@[k] == self.vacant@[k]);
            }
        }
        assert forall|i: int| 0 <= i < self.entries@.len() && (
        #[trigger] self.entries@[i]) is None implies self.vacant@.contains(i as u32) by {
            if i == index {
                assert(self.vacant@[start.vacant@.len() as int] == i as u32);
            } else {
                assert(start.entries@[i] is None);
                let k = choose|k: int| 0 <= k < start.vacant@.len() && start.vacant@[k] == i as u32;
                assert(self.vacant@[k] == i as u32);
            }
        }
        assert forall|i: int| 0 <= i < self.entries@.len() && (
        #[trigger] self.entries@[i]) is Some implies traceable(
            self.entries@[i]->0.source,
            self.entries@[i]->0.page,
            self.patterns@,
        ) by {
            assert(start.entries@[i] is Some);
        }
        assert forall|i: int| 0 <= i < self.members.capacity() implies #[trigger] self.members.at(i)
            == (if i < self.entries@.len() && self.entries@[i] is Some && current(
            self.entries@[i]->0.source,
            self.patterns@,
        ) {
            Some(ReaderMember(self.entries@[i]->0.source->reader))
        } else {
            None
        }) by {
            assert(i != index ==> self.members.at(i) == start.members.at(i));
        }
        assert forall|i: u32| #[trigger] self.cleanup@.contains(i) implies i < self.entries@.len()
            && self.entries@[i as int] is Some by {
            lemma_unqueued_contains(start.cleanup@, index as u32, i);
            assert(start.cleanup@.contains(i));
        }
        assert forall|i: u32| #[trigger] self.waiting@.contains(i) implies i < self.entries@.len()
            && self.entries@[i as int] is Some by {
            lemma_unqueued_contains(start.waiting@, index as u32, i);
            assert(start.waiting@.contains(i));
        }
        assert(frames_match(self.entries@, self.frame_entries@)) by {
            assert forall|i: int| 0 <= i < self.entries@.len() && (
            #[trigger] self.entries@[i]) is Some implies self.entries@[i]->0.frame.0
                < self.frame_entries@.len()
                && self.frame_entries@[self.entries@[i]->0.frame.0 as int] == Some(i as u32) by {
                assert(start.entries@[i] is Some);
            }
            assert forall|f: int| 0 <= f < self.frame_entries@.len() && (
            #[trigger] self.frame_entries@[f]) is Some implies self.frame_entries@[f]->0
                < self.entries@.len() && (
            self.entries@[self.frame_entries@[f]->0 as int] matches Some(e) && e.frame.0 == f) by {
                assert(start.frame_entries@[f] is Some);
            }
        }
        assert forall|f: ReadFrameIdx| f.0 < self.frames() implies #[trigger] self.entry_of(f) == (
        if f == entry.frame {
            None
        } else {
            start.entry_of(f)
        }) by {
            if f != entry.frame && start.frame_entries@[f.0 as int] is Some {
                assert(start.frame_entries@[f.0 as int]->0 != index);
            }
        }
        assert(forall|r: int|
            0 <= r < self.patterns@.len() ==> (#[trigger] self.patterns@[r]) == start.patterns@[r]);
    }

    /// Queues what an ended credit tells its reader, or abandons the stream
    /// whose prediction was not used.
    fn finish_index_feedback(&mut self, entry: Entry, end: Terminal)
        requires
            old(self).wf(),
            old(self).queued_feedback().len() + old(self).stats().occupied < old(self).credits(),
            traceable(entry.source, entry.page, old(self).patterns()),
            old(self).wear() < u64::MAX,
        ensures
            final(self).wf(),
            final(self).same_setup(*old(self)),
            final(self).same_entries(*old(self)),
            final(self).stats() == old(self).stats(),
            final(self).queued_feedback() == (match credited(entry, end) {
                Some(feedback) => old(self).queued_feedback().push(feedback),
                None => old(self).queued_feedback(),
            }),
            final(self).patterns() == (if !(end is Promoted) && current(
                entry.source,
                old(self).patterns(),
            ) {
                let reader = entry.source->reader;
                old(self).patterns().update(
                    reader as int,
                    old(self).patterns()[reader as int].restarted(PatternState::Empty),
                )
            } else {
                old(self).patterns()
            }),
            final(self).wear() == old(self).wear() + (if !(end is Promoted) && current(
                entry.source,
                old(self).patterns(),
            ) {
                1nat
            } else {
                0
            }),
            final(self).waiting_queue() == old(self).waiting_queue(),
            ({
                let reader = entry.source->reader;
                if !(end is Promoted) && current(entry.source, old(self).patterns()) {
                    &&& final(self).cleanup_queue() == queued_all(
                        old(self).cleanup_queue(),
                        old(self).predictions(reader as int),
                    )
                    &&& final(self).ready_queue() == unqueued(old(self).ready_queue(), reader)
                    &&& forall|r: int|
                        0 <= r < old(self).patterns().len() ==> #[trigger] final(self).predictions(
                            r,
                        ) == (if r == reader {
                            Seq::<u32>::empty()
                        } else {
                            old(self).predictions(r)
                        })
                } else {
                    &&& final(self).cleanup_queue() == old(self).cleanup_queue()
                    &&& final(self).ready_queue() == old(self).ready_queue()
                    &&& final(self).same_credits(*old(self))
                }
            }),
    {
        if let Source::Automatic { reader, incarnation } = entry.source {
            match end {
                Terminal::Promoted(Some(consumer)) => {
                    if consumer == reader {
                        let ghost start = *self;
                        self.feedback.push(Feedback { reader, incarnation, page: entry.page });
                        proof {
                            assert forall|k: int| 0 <= k < self.feedback@.len() implies traceable(
                                origin(#[trigger] self.feedback@[k]),
                                self.feedback@[k].page,
                                self.patterns@,
                            ) by {
                                if k < start.feedback@.len() {
                                    assert(start.feedback@[k] == self.feedback@[k]);
                                }
                            }
                        }
                    }
                },
                Terminal::Promoted(None) => {},
                Terminal::Evicted | Terminal::Failed => {
                    if self.patterns[reader as usize].owns(incarnation) {
                        self.reset_reader(reader);
                    }
                },
            }
        }
    }

    /// Ends the credit of `frame`, if it has one.
    pub fn finish(&mut self, clock: &mut Clock, frame: ReadFrameIdx, terminal: Terminal)
        requires
            old(self).wf(),
            old(self).linked(*old(clock)),
            frame.0 < old(self).frames(),
            old(self).wear() < u64::MAX,
        ensures
            final(self).wf(),
            final(self).linked(*final(clock)),
            old(self).entry_of(frame) is Some ==> final(self).ended(
                *old(self),
                *old(clock),
                frame,
                terminal,
            ) && final(clock).unmarked(*old(clock), frame),
            old(self).entry_of(frame) is None ==> *final(self) == *old(self) && *final(clock)
                == *old(clock),
    {
        match self.frame_entries[frame.0 as usize] {
            Some(index) => {
                assert(self.entries@[index as int] matches Some(e) && e.frame == frame);
                self.finish_index(clock, index, terminal);
            },
            None => {},
        }
    }

    /// Every feedback was issued by its reader's pattern.
    spec fn all_traceable(list: Seq<Feedback>, patterns: Seq<Pattern>) -> bool {
        forall|k: int|
            0 <= k < list.len() ==> traceable(origin(#[trigger] list[k]), list[k].page, patterns)
    }

    /// `self` is `other` with no feedback queued.
    pub open spec fn relieved(self, other: Prefetch) -> bool {
        &&& self.same_setup(other)
        &&& self.same_credits(other)
        &&& self.patterns() == other.patterns()
        &&& self.stats() == other.stats()
        &&& self.cleanup_queue() == other.cleanup_queue()
        &&& self.waiting_queue() == other.waiting_queue()
        &&& self.ready_queue() == other.ready_queue()
        &&& self.wear() == other.wear()
        &&& self.queued_feedback() == Seq::<Feedback>::empty()
    }

    /// The ledgers of `trace` come one after the other as each reader's
    /// pattern takes in the feedback of `order`.
    pub open spec fn feeds(trace: Seq<Prefetch>, order: Seq<Feedback>) -> bool {
        &&& trace.len() == order.len() + 1
        &&& forall|k: int| 0 <= k < order.len() ==> #[trigger] Self::feeds_at(trace, order, k)
    }

    pub open spec fn feeds_at(trace: Seq<Prefetch>, order: Seq<Feedback>, k: int) -> bool {
        let reader = order[k].reader;
        trace[k + 1].repatterned(
            trace[k],
            reader,
            trace[k].patterns()[reader as int].confirmed(
                order[k].page,
                order[k].incarnation,
                trace[k].credits() as u32,
            ),
        )
    }

    /// The feedback queued in `other` was handed to the patterns in this order,
    /// each reader's in stream order, by way of the ledgers of `trace`.
    pub open spec fn flushes(
        self,
        other: Prefetch,
        trace: Seq<Prefetch>,
        order: Seq<Feedback>,
    ) -> bool {
        &&& Self::feeds(trace, order)
        &&& in_order(order)
        &&& order.to_multiset() == other.queued_feedback().to_multiset()
        &&& trace[0].relieved(other)
        &&& trace.last() == self
    }

    pub open spec fn flushed(self, other: Prefetch) -> bool {
        exists|trace: Seq<Prefetch>, order: Seq<Feedback>| #[trigger]
            self.flushes(other, trace, order)
    }

    /// How many predictions lose their stream as `order` is handed out.
    pub open spec fn abandoned(trace: Seq<Prefetch>, order: Seq<Feedback>) -> nat
        decreases order.len(),
    {
        if order.len() == 0 {
            0
        } else {
            let k = order.len() - 1;
            let reader = order[k].reader as int;
            Self::abandoned(trace, order.drop_last()) + (if trace[k + 1].patterns()[reader].incarnation
                != trace[k].patterns()[reader].incarnation {
                trace[k].predictions(reader).len()
            } else {
                0
            })
        }
    }

    /// The count speaks of the ledgers up to the last feedback alone.
    proof fn lemma_abandoned_prefix(
        trace: Seq<Prefetch>,
        longer: Seq<Prefetch>,
        order: Seq<Feedback>,
    )
        requires
            trace.len() == order.len() + 1,
            longer.len() > order.len(),
            forall|k: int| 0 <= k < trace.len() ==> #[trigger] longer[k] == trace[k],
        ensures
            Self::abandoned(longer, order) == Self::abandoned(trace, order),
        decreases order.len(),
    {
        if order.len() > 0 {
            let k = order.len() - 1;
            assert(longer[k] == trace[k] && longer[k + 1] == trace[k + 1]);
            Self::lemma_abandoned_prefix(trace.drop_last(), trace, order.drop_last());
            Self::lemma_abandoned_prefix(trace.drop_last(), longer, order.drop_last());
        }
    }

    /// Hands the queued feedback to its readers' patterns, each reader's in
    /// stream order. Returns how many predictions that abandons.
    fn flush_feedback(&mut self) -> (visited: u64)
        requires
            old(self).wf(),
            old(self).wear() + old(self).credits() < u64::MAX,
        ensures
            final(self).wf(),
            final(self).same_setup(*old(self)),
            final(self).same_entries(*old(self)),
            final(self).stats() == old(self).stats(),
            final(self).queued_feedback() == Seq::<Feedback>::empty(),
            final(self).patterns().len() == old(self).patterns().len(),
            final(self).wear() <= old(self).wear() + old(self).queued_feedback().len(),
            forall|r: int|
                0 <= r < old(self).patterns().len() ==> streams_on(
                    old(self).patterns()[r],
                    #[trigger] final(self).patterns()[r],
                ),
            exists|order: Seq<Feedback>|
                {
                    &&& in_order(order)
                    &&& order.to_multiset() == old(self).queued_feedback().to_multiset()
                    &&& final(self).patterns() == #[trigger] confirmed_all(
                        old(self).patterns(),
                        order,
                        old(self).credits() as u32,
                    )
                },
            exists|trace: Seq<Prefetch>, order: Seq<Feedback>|
                {
                    &&& #[trigger] final(self).flushes(*old(self), trace, order)
                    &&& visited == Self::abandoned(trace, order)
                },
            visited <= old(self).queued_feedback().len() * old(self).credits(),
    {
        let ghost start = *self;
        let mut list: Vec<Feedback> = Vec::new();
        std::mem::swap(&mut list, &mut self.feedback);
        let order: Vec<Feedback> = sort_feedback(list);
        proof {
            assert(list@ == start.feedback@);
            assert forall|k: int| 0 <= k < order@.len() implies traceable(
                origin(#[trigger] order@[k]),
                order@[k].page,
                self.patterns@,
            ) by {
                order@.to_multiset_ensures();
                start.feedback@.to_multiset_ensures();
                assert(order@.contains(order@[k]));
                assert(order@.to_multiset().count(order@[k]) > 0);
                assert(start.feedback@.to_multiset().count(order@[k]) > 0);
                assert(start.feedback@.contains(order@[k]));
                let j = choose|j: int|
                    0 <= j < start.feedback@.len() && start.feedback@[j] == order@[k];
                assert(traceable(
                    origin(start.feedback@[j]),
                    start.feedback@[j].page,
                    start.patterns@,
                ));
            }
            assert(order@.take(0) =~= Seq::empty());
            assert(self.same_credits(start));
        }
        let ghost mut trace: Seq<Prefetch> = seq![*self];
        let mut visited: u64 = 0;
        let mut i: usize = 0;
        while i < order.len()
            invariant
                i <= order@.len(),
                visited == Self::abandoned(trace, order@.take(i as int)),
                visited <= i * start.credits(),
                trace.len() == i + 1,
                trace[0].relieved(start),
                trace.last() == *self,
                forall|k: int| 0 <= k < i ==> #[trigger] Self::feeds_at(trace, order@, k),
                self.wf(),
                start.wf(),
                self.same_setup(start),
                self.same_entries(start),
                self.stats() == start.stats(),
                self.feedback@.len() == 0,
                order@.len() == start.feedback@.len(),
                order@.len() <= start.credits(),
                start.wear() + start.credits() < u64::MAX,
                self.wear() <= start.wear() + i,
                Self::all_traceable(order@, self.patterns@),
                forall|r: int|
                    0 <= r < start.patterns().len() ==> streams_on(
                        start.patterns()[r],
                        #[trigger] self.patterns()[r],
                    ),
                self.patterns().len() == start.patterns().len(),
                self.patterns() == confirmed_all(
                    start.patterns(),
                    order@.take(i as int),
                    start.credits() as u32,
                ),
            decreases order@.len() - i,
        {
            let feedback: Feedback = order[i];
            let ghost before = *self;
            let reader: u32 = feedback.reader;
            assert(traceable(origin(order@[i as int]), order@[i as int].page, self.patterns@));
            let mut pattern: Pattern = self.patterns[reader as usize];
            let ghost prior = pattern;
            assert(prior.wf() && prior.incarnation <= self.wear());
            pattern.promoted(feedback.page, feedback.incarnation, self.capacity);
            let abandoned: u32 = self.pattern_changed(reader, pattern);
            proof {
                let credits = start.credits() as int;
                assert(visited + abandoned <= (i + 1) * credits) by (nonlinear_arith)
                    requires
                        visited <= i * credits,
                        abandoned <= credits,
                ;
                assert((i + 1) * credits <= 0xffff_ffff * 0xffff_ffff) by (nonlinear_arith)
                    requires
                        0 <= i + 1 <= 0xffff_ffff,
                        0 <= credits <= 0xffff_ffff,
                ;
            }
            visited = visited + abandoned as u64;
            proof {
                assert(order@.take(i + 1).drop_last() =~= order@.take(i as int));
                assert(order@.take(i + 1).last() == feedback);
                assert forall|k: int| 0 <= k < order@.len() implies traceable(
                    origin(#[trigger] order@[k]),
                    order@[k].page,
                    self.patterns@,
                ) by {
                    assert(traceable(origin(order@[k]), order@[k].page, before.patterns@));
                }
                assert forall|r: int| 0 <= r < start.patterns().len() implies streams_on(
                    start.patterns()[r],
                    #[trigger] self.patterns()[r],
                ) by {
                    assert(streams_on(start.patterns()[r], before.patterns()[r]));
                    assert(traceable(origin(feedback), feedback.page, before.patterns()));
                }
                assert(self.same_entries(start));
                let longer = trace.push(*self);
                assert forall|k: int| 0 <= k < i + 1 implies #[trigger] Self::feeds_at(
                    longer,
                    order@,
                    k,
                ) by {
                    if k < i {
                        assert(Self::feeds_at(trace, order@, k));
                    }
                }
                Self::lemma_abandoned_prefix(trace, longer, order@.take(i as int));
                assert(longer[i as int] == before && longer[i + 1] == *self);
                trace = longer;
            }
            i = i + 1;
        }
        proof {
            assert(order@.take(i as int) =~= order@);
            assert(self.feedback@ =~= Seq::empty());
            assert(self.patterns() == confirmed_all(
                start.patterns(),
                order@,
                start.credits() as u32,
            ));
            assert(Self::feeds(trace, order@));
            assert(self.flushes(start, trace, order@));
        }
        visited
    }

    /// The patterns took in `order`, which is the queued feedback and that of
    /// the consumed credits, each reader's in stream order.
    pub open spec fn took(self, other: Prefetch, before: Clock, order: Seq<Feedback>) -> bool {
        &&& in_order(order)
        &&& self.patterns() == confirmed_all(other.patterns(), order, other.credits() as u32)
        &&& forall|x: Feedback| #[trigger] order.contains(x) <==> other.owes(before, x)
    }

    /// `feedback` is queued, or still to be harvested from a consumed credit.
    pub open spec fn owes(self, clock: Clock, feedback: Feedback) -> bool {
        self.queued_feedback().contains(feedback) || self.harvest(clock, feedback)
    }

    pub open spec fn took_feedback(self, other: Prefetch, before: Clock) -> bool {
        exists|order: Seq<Feedback>| #[trigger] self.took(other, before, order)
    }

    /// `self` is `other` once the completed fills whose stream was abandoned
    /// are up for clean-up.
    pub open spec fn noted(self, other: Prefetch, completed: Seq<ReadFrameIdx>) -> bool {
        &&& self.same_setup(other)
        &&& self.same_credits(other)
        &&& self.patterns() == other.patterns()
        &&& self.stats() == other.stats()
        &&& self.queued_feedback() == other.queued_feedback()
        &&& self.cleanup_queue() == queued_all(other.cleanup_queue(), other.overdue(completed))
        &&& self.waiting_queue() == other.waiting_queue()
        &&& self.ready_queue() == other.ready_queue()
        &&& self.wear() == other.wear()
    }

    /// The ledgers and clocks of `trace` come one after the other as the
    /// consumed credits among `frames` end.
    pub open spec fn harvests(trace: Seq<(Prefetch, Clock)>, frames: Seq<ReadFrameIdx>) -> bool {
        &&& trace.len() == frames.len() + 1
        &&& forall|k: int| 0 <= k < frames.len() ==> #[trigger] Self::harvests_at(trace, frames, k)
    }

    pub open spec fn harvests_at(
        trace: Seq<(Prefetch, Clock)>,
        frames: Seq<ReadFrameIdx>,
        k: int,
    ) -> bool {
        let (ledger, clock) = trace[k];
        let (next, after) = trace[k + 1];
        if ledger.entry_of(frames[k]) is Some && clock.speculation(frames[k]) is Consumed {
            next.ended(ledger, clock, frames[k], Terminal::Promoted(None)) && after.unmarked(
                clock,
                frames[k],
            )
        } else {
            next == ledger && after == clock
        }
    }

    /// The steps from `other` and `before` to `self` and `after`: what was
    /// completed is noted, what was consumed ends, both in frame order, and
    /// the feedback goes to the patterns.
    pub open spec fn tallies(
        self,
        other: Prefetch,
        before: Clock,
        after: Clock,
        trace: Seq<(Prefetch, Clock)>,
        completed: Seq<ReadFrameIdx>,
        consumed: Seq<ReadFrameIdx>,
    ) -> bool {
        &&& lists(completed, before.completed_frames())
        &&& lists(consumed, before.consumed_frames())
        &&& Self::harvests(trace, consumed)
        &&& trace[0].0.noted(other, completed)
        &&& trace[0].1.quieted(before)
        &&& trace.last().1 == after
        &&& self.flushed(trace.last().0)
    }

    pub open spec fn tallied(self, other: Prefetch, before: Clock, after: Clock) -> bool {
        exists|
            trace: Seq<(Prefetch, Clock)>,
            completed: Seq<ReadFrameIdx>,
            consumed: Seq<ReadFrameIdx>,
        | #[trigger] self.tallies(other, before, after, trace, completed, consumed)
    }

    /// `self` and `after` are `other` and `before` once the consumed credits
    /// were returned and all feedback was taken in.
    pub open spec fn reconciled(self, other: Prefetch, before: Clock, after: Clock) -> bool {
        &&& self.same_setup(other)
        &&& self.queued_feedback() == Seq::<Feedback>::empty()
        &&& self.strain() <= other.strain()
        &&& self.stats() == (PrefetchStats {
            demand_promoted: self.stats().demand_promoted,
            occupied: self.stats().occupied,
            ..other.stats()
        })
        &&& self.stats().demand_promoted + self.stats().occupied == other.stats().demand_promoted
            + other.stats().occupied
        &&& self.stats().occupied <= other.stats().occupied
        &&& forall|f: ReadFrameIdx|
            f.0 < self.frames() ==> #[trigger] self.entry_of(f) == (if before.speculation(
                f,
            ) is Consumed {
                None
            } else {
                other.entry_of(f)
            })
        &&& self.patterns().len() == other.patterns().len()
        &&& forall|r: int|
            0 <= r < other.patterns().len() ==> streams_on(
                other.patterns()[r],
                #[trigger] self.patterns()[r],
            )
        &&& self.took_feedback(other, before)
        &&& self.tallied(other, before, after)
        &&& after.same_references(before)
        &&& after.consumed_frames() == Set::<ReadFrameIdx>::empty()
        &&& after.completed_frames() == Set::<ReadFrameIdx>::empty()
        &&& forall|f: ReadFrameIdx|
            after.has(f) ==> #[trigger] after.speculation(f) == (if before.speculation(
                f,
            ) is Consumed {
                SpeculationOutcome::Absent
            } else {
                before.speculation(f)
            })
    }

    /// `feedback` comes from an entry its own reader consumed.
    pub open spec fn harvest(self, clock: Clock, feedback: Feedback) -> bool {
        exists|f: ReadFrameIdx|
            f.0 < self.frames() && #[trigger] self.harvest_at(clock, f) == Some(feedback)
    }

    /// The feedback the consumed entry of `frame` gives.
    pub open spec fn harvest_at(self, clock: Clock, frame: ReadFrameIdx) -> Option<Feedback> {
        match (self.entry_of(frame), clock.speculation(frame)) {
            (Some(entry), SpeculationOutcome::Consumed(reader)) => credited(
                entry,
                Terminal::Promoted(reader),
            ),
            _ => None,
        }
    }

    /// How many of `frames` hold a credit.
    pub open spec fn credited_among(self, frames: Seq<ReadFrameIdx>) -> nat
        decreases frames.len(),
    {
        if frames.len() == 0 {
            0
        } else {
            self.credited_among(frames.drop_last()) + (if self.entry_of(frames.last()) is Some {
                1nat
            } else {
                0
            })
        }
    }

    /// Puts completed but obsolete fills up for clean-up. Returns how many fills
    /// hold a credit.
    fn note_completed(&mut self, completed: &Vec<ReadFrameIdx>) -> (visited: u64)
        requires
            old(self).wf(),
            forall|k: int|
                0 <= k < completed@.len() ==> (#[trigger] completed@[k]).0 < old(self).frames(),
        ensures
            final(self).wf(),
            final(self).same_setup(*old(self)),
            final(self).same_entries(*old(self)),
            final(self).stats() == old(self).stats(),
            final(self).queued_feedback() == old(self).queued_feedback(),
            final(self).patterns() == old(self).patterns(),
            final(self).wear() == old(self).wear(),
            final(self).cleanup_queue() == queued_all(
                old(self).cleanup_queue(),
                old(self).overdue(completed@),
            ),
            final(self).waiting_queue() == old(self).waiting_queue(),
            final(self).ready_queue() == old(self).ready_queue(),
            final(self).same_credits(*old(self)),
            visited == old(self).credited_among(completed@),
            visited <= completed@.len(),
    {
        let ghost start = *self;
        let mut visited: u64 = 0;
        let mut k: usize = 0;
        proof {
            assert(completed@.take(0) =~= Seq::empty());
        }
        while k < completed.len()
            invariant
                visited == start.credited_among(completed@.take(k as int)),
                visited <= k,
                start == *old(self),
                start.wf(),
                self.cleanup_queue() == queued_all(
                    start.cleanup_queue(),
                    start.overdue(completed@.take(k as int)),
                ),
                self.waiting_queue() == start.waiting_queue(),
                self.ready_queue() == start.ready_queue(),
                self.same_credits(start),
                k <= completed@.len(),
                self.wf(),
                self.same_setup(*old(self)),
                self.same_entries(*old(self)),
                self.stats() == old(self).stats(),
                self.queued_feedback() == old(self).queued_feedback(),
                self.patterns() == old(self).patterns(),
                self.wear() == old(self).wear(),
                forall|j: int|
                    0 <= j < completed@.len() ==> (#[trigger] completed@[j]).0 < self.frames(),
            decreases completed@.len() - k,
        {
            proof {
                assert(completed@.take(k + 1).drop_last() =~= completed@.take(k as int));
                assert(completed@.take(k + 1).last() == completed@[k as int]);
                assert(self.credit_of(completed@[k as int]) == start.credit_of(completed@[k as int]));
                assert(self.entry_of(completed@[k as int]) == start.entry_of(completed@[k as int]));
            }
            if let Some(index) = self.frame_entries[completed[k].0 as usize] {
                if let Some(entry) = self.entries[index as usize] {
                    let ghost before = *self;
                    visited = visited + 1;
                    if self.obsolete(entry) {
                        self.cleanup.push(index);
                        proof {
                            assert forall|i: u32| #[trigger] self.cleanup@.contains(i) implies i
                                < self.entries@.len() && self.entries@[i as int] is Some by {
                                lemma_queued_contains(before.cleanup@, index, i);
                                assert(i == index || before.cleanup@.contains(i));
                            }
                            assert(self.same_credits(before));
                            let earlier = start.overdue(completed@.take(k as int));
                            assert(earlier.push(index).drop_last() =~= earlier);
                        }
                    }
                }
            }
            k = k + 1;
        }
        assert(completed@.take(k as int) =~= completed@);
        visited
    }

    /// The credits of the frames in `completed` whose stream was abandoned.
    pub open spec fn overdue(self, completed: Seq<ReadFrameIdx>) -> Seq<u32>
        decreases completed.len(),
    {
        if completed.len() == 0 {
            Seq::empty()
        } else {
            let earlier = self.overdue(completed.drop_last());
            match self.entry_of(completed.last()) {
                Some(entry) => if entry.source is Automatic && !current(
                    entry.source,
                    self.patterns(),
                ) {
                    earlier.push(self.credit_of(completed.last())->0)
                } else {
                    earlier
                },
                None => earlier,
            }
        }
    }

    /// What a reconciliation from `other` and `before` to `self` and `after`
    /// visits: each completed and each consumed frame that holds a credit, and
    /// each prediction its feedback abandons.
    pub open spec fn visits(
        self,
        other: Prefetch,
        before: Clock,
        after: Clock,
        visited: u64,
    ) -> bool {
        exists|
            trace: Seq<(Prefetch, Clock)>,
            completed: Seq<ReadFrameIdx>,
            consumed: Seq<ReadFrameIdx>,
            fed: Seq<Prefetch>,
            order: Seq<Feedback>,
        |
            {
                &&& #[trigger] self.tallies(other, before, after, trace, completed, consumed)
                &&& #[trigger] self.flushes(trace.last().0, fed, order)
                &&& visited == other.credited_among(completed) + other.credited_among(consumed)
                    + Self::abandoned(fed, order)
            }
    }

    /// Returns every consumed credit and takes in all feedback.
    pub fn reconcile(&mut self, clock: &mut Clock)
        requires
            old(self).wf(),
            old(self).linked(*old(clock)),
            old(self).wear() < WEAR_MAX,
        ensures
            final(self).wf(),
            final(self).linked(*final(clock)),
            final(self).reconciled(*old(self), *old(clock), *final(clock)),
    {
        let _visited: u64 = self.reconcile_model(clock);
    }

    /// Returns every consumed credit and takes in all feedback, and reports how
    /// many credits that visited.
    pub fn reconcile_model(&mut self, clock: &mut Clock) -> (visited: u64)
        requires
            old(self).wf(),
            old(self).linked(*old(clock)),
            old(self).wear() < WEAR_MAX,
        ensures
            final(self).wf(),
            final(self).linked(*final(clock)),
            final(self).reconciled(*old(self), *old(clock), *final(clock)),
            final(self).visits(*old(self), *old(clock), *final(clock), visited),
    {
        let ghost start = *self;
        let ghost marks = *clock;
        let completed: Vec<ReadFrameIdx> = clock.drain_completed();
        proof {
            assert forall|k: int| 0 <= k < completed@.len() implies (#[trigger] completed@[k]).0
                < self.frames() by {
                assert(completed@.contains(completed@[k]));
                marks.lemma_notified(completed@[k]);
            }
        }
        let filled: u64 = self.note_completed(&completed);
        let ghost noted = *self;
        let consumed: Vec<ReadFrameIdx> = clock.drain_consumed();
        let ghost drained = *clock;
        proof {
            assert forall|k: int| 0 <= k < consumed@.len() implies (#[trigger] consumed@[k]).0
                < self.frames() by {
                assert(consumed@.contains(consumed@[k]));
                marks.lemma_notified(consumed@[k]);
            }
            assert(forall|f: ReadFrameIdx|
                drained.has(f) ==> #[trigger] drained.speculation(f) == marks.speculation(f));
        }
        let ghost mut trace: Seq<(Prefetch, Clock)> = seq![(noted, drained)];
        let mut harvest: u64 = 0;
        let mut k: usize = 0;
        proof {
            assert(consumed@.take(0) =~= Seq::empty());
        }
        while k < consumed.len()
            invariant
                k <= consumed@.len(),
                harvest == noted.credited_among(consumed@.take(k as int)),
                harvest <= k,
                trace.len() == k + 1,
                trace[0] == (noted, drained),
                trace.last() == (*self, *clock),
                forall|j: int| 0 <= j < k ==> #[trigger] Self::harvests_at(trace, consumed@, j),
                self.wf(),
                self.harvesting(noted, marks, *clock, consumed@, k as int),
                noted.wf(),
                noted.wear() < WEAR_MAX,
                forall|j: int|
                    0 <= j < consumed@.len() ==> (#[trigger] consumed@[j]).0 < self.frames(),
                forall|i: int, j: int|
                    0 <= i < j < consumed@.len() ==> (#[trigger] consumed@[i]).0 < (
                    #[trigger] consumed@[j]).0,
            decreases consumed@.len() - k,
        {
            let frame: ReadFrameIdx = consumed[k];
            let ghost before = *self;
            let ghost clock_before = *clock;
            proof {
                assert(!consumed@.take(k as int).contains(frame)) by {
                    if consumed@.take(k as int).contains(frame) {
                        let j = choose|j: int|
                            0 <= j < consumed@.take(k as int).len() && consumed@.take(
                                k as int,
                            )[j] == frame;
                        assert(consumed@[j].0 < consumed@[k as int].0);
                    }
                }
                assert(before.entry_of(frame) == noted.entry_of(frame));
                assert(consumed@.take(k + 1).drop_last() =~= consumed@.take(k as int));
            }
            if let Some(index) = self.frame_entries[frame.0 as usize] {
                assert(self.entries@[index as int] matches Some(e) && e.frame == frame);
                assert(self.entry_of(frame) is Some);
                harvest = harvest + 1;
                if clock.speculation_consumed(frame) {
                    self.finish_index(clock, index, Terminal::Promoted(None));
                }
            }
            proof {
                self.lemma_harvest_step(
                    before,
                    noted,
                    marks,
                    clock_before,
                    *clock,
                    consumed@,
                    k as int,
                );
                let longer = trace.push((*self, *clock));
                assert forall|j: int| 0 <= j < k + 1 implies #[trigger] Self::harvests_at(
                    longer,
                    consumed@,
                    j,
                ) by {
                    if j < k {
                        assert(Self::harvests_at(trace, consumed@, j));
                    }
                }
                trace = longer;
            }
            k = k + 1;
        }
        let ghost harvested = *self;
        proof {
            assert(consumed@.take(k as int) =~= consumed@);
            noted.lemma_books();
            harvested.lemma_books();
        }
        let abandoned: u64 = self.flush_feedback();
        proof {
            let (fed, handed) = choose|fed: Seq<Prefetch>, handed: Seq<Feedback>|
                {
                    &&& #[trigger] self.flushes(harvested, fed, handed)
                    &&& abandoned == Self::abandoned(fed, handed)
                };
            let order = choose|order: Seq<Feedback>|
                {
                    &&& in_order(order)
                    &&& order.to_multiset() == harvested.queued_feedback().to_multiset()
                    &&& self.patterns() == #[trigger] confirmed_all(
                        harvested.patterns(),
                        order,
                        harvested.credits() as u32,
                    )
                };
            order.to_multiset_ensures();
            harvested.queued_feedback().to_multiset_ensures();
            assert(harvested.patterns() == start.patterns());
            assert forall|r: int| 0 <= r < start.patterns().len() implies streams_on(
                start.patterns()[r],
                #[trigger] self.patterns()[r],
            ) by {
                assert(streams_on(harvested.patterns()[r], self.patterns()[r]));
            }
            assert forall|x: Feedback| #[trigger] order.contains(x) <==> start.owes(marks, x) by {
                assert(order.contains(x) <==> order.to_multiset().count(x) > 0);
                assert(order.contains(x) <==> harvested.queued_feedback().contains(x));
                start.lemma_harvest(noted, harvested, marks, consumed@, x);
            }
            assert forall|f: ReadFrameIdx| f.0 < self.frames() implies #[trigger] self.entry_of(f)
                == (if marks.speculation(f) is Consumed {
                None
            } else {
                start.entry_of(f)
            }) by {
                assert(harvested.entry_of(f) == self.entry_of(f));
                if marks.speculation(f) is Consumed {
                    assert(consumed@.contains(f));
                }
                assert(noted.entry_of(f) == start.entry_of(f));
            }
            assert forall|f: ReadFrameIdx| clock.has(f) implies #[trigger] clock.speculation(f) == (
            if marks.speculation(f) is Consumed {
                SpeculationOutcome::Absent
            } else {
                marks.speculation(f)
            }) by {
                if marks.speculation(f) is Consumed {
                    assert(consumed@.contains(f));
                }
                assert(start.entry_of(f) is Some <==> !(marks.speculation(f) is Absent));
            }
            assert forall|f: ReadFrameIdx| f.0 < self.frames() implies (#[trigger] self.entry_of(
                f,
            ) is Some <==> !(clock.speculation(f) is Absent)) by {
                assert(start.entry_of(f) is Some <==> !(marks.speculation(f) is Absent));
            }
            assert(self.patterns() == confirmed_all(
                start.patterns(),
                order,
                start.credits() as u32,
            ));
            assert(self.took(start, marks, order));
            assert(Self::harvests(trace, consumed@));
            assert(self.tallies(start, marks, *clock, trace, completed@, consumed@));
            noted.lemma_same_credited(start, consumed@);
            start.lemma_books();
            lemma_ascending_len(completed@, start.frames() as int);
            lemma_ascending_len(consumed@, start.frames() as int);
            let queued = harvested.queued_feedback().len() as int;
            let credits = start.credits() as int;
            assert(queued * credits <= 0xffff_ffff * 0xffff_ffff) by (nonlinear_arith)
                requires
                    0 <= queued <= 0xffff_ffff,
                    0 <= credits <= 0xffff_ffff,
            ;
            assert(self.flushes(trace.last().0, fed, handed));
        }
        filled + harvest + abandoned
    }

    /// The same entries give the same count.
    proof fn lemma_same_credited(self, other: Prefetch, frames: Seq<ReadFrameIdx>)
        requires
            self.same_entries(other),
            self.frames() == other.frames(),
            forall|k: int| 0 <= k < frames.len() ==> (#[trigger] frames[k]).0 < other.frames(),
        ensures
            self.credited_among(frames) == other.credited_among(frames),
        decreases frames.len(),
    {
        if frames.len() > 0 {
            self.lemma_same_credited(other, frames.drop_last());
            assert(frames.last() == frames[frames.len() - 1]);
            assert(self.entry_of(frames.last()) == other.entry_of(frames.last()));
        }
    }

    /// Where a harvest of the consumed frames stands after `k` of them.
    spec fn harvesting(
        self,
        noted: Prefetch,
        marks: Clock,
        clock: Clock,
        consumed: Seq<ReadFrameIdx>,
        k: int,
    ) -> bool {
        &&& self.same_setup(noted)
        &&& self.wear() == noted.wear()
        &&& self.patterns() == noted.patterns()
        &&& clock.wf()
        &&& clock.frame_count() == self.frames()
        &&& clock.same_references(marks)
        &&& clock.consumed_frames() == Set::<ReadFrameIdx>::empty()
        &&& clock.completed_frames() == Set::<ReadFrameIdx>::empty()
        &&& self.stats() == (PrefetchStats {
            demand_promoted: self.stats().demand_promoted,
            occupied: self.stats().occupied,
            ..noted.stats()
        })
        &&& self.stats().demand_promoted + self.stats().occupied == noted.stats().demand_promoted
            + noted.stats().occupied
        &&& self.queued_feedback().len() + self.stats().occupied <= noted.queued_feedback().len()
            + noted.stats().occupied
        &&& self.stats().occupied <= noted.stats().occupied
        &&& forall|f: ReadFrameIdx|
            f.0 < self.frames() ==> #[trigger] self.entry_of(f) == (if marks.speculation(
                f,
            ) is Consumed && consumed.take(k).contains(f) {
                None
            } else {
                noted.entry_of(f)
            })
        &&& forall|f: ReadFrameIdx|
            f.0 < self.frames() ==> #[trigger] clock.speculation(f) == (if marks.speculation(
                f,
            ) is Consumed && noted.entry_of(f) is Some && consumed.take(k).contains(f) {
                SpeculationOutcome::Absent
            } else {
                marks.speculation(f)
            })
        &&& forall|f: ReadFrameIdx|
            f.0 < self.frames() ==> (#[trigger] noted.entry_of(f) is Some <==> !(marks.speculation(
                f,
            ) is Absent))
        &&& forall|x: Feedback|
            #[trigger] self.queued_feedback().contains(x) <==> noted.queued_feedback().contains(x)
                || exists|f: ReadFrameIdx|
                f.0 < noted.frames() && consumed.take(k).contains(f) && #[trigger] noted.harvest_at(
                    marks,
                    f,
                ) == Some(x)
    }

    proof fn lemma_harvest_step(
        self,
        before: Prefetch,
        noted: Prefetch,
        marks: Clock,
        clock_before: Clock,
        clock: Clock,
        consumed: Seq<ReadFrameIdx>,
        k: int,
    )
        requires
            0 <= k < consumed.len(),
            consumed[k].0 < before.frames(),
            !consumed.take(k).contains(consumed[k]),
            before.wf(),
            before.harvesting(noted, marks, clock_before, consumed, k),
            before.entry_of(consumed[k]) is Some && clock_before.speculation(
                consumed[k],
            ) is Consumed ==> {
                &&& self.ended(before, clock_before, consumed[k], Terminal::Promoted(None))
                &&& clock.wf()
                &&& clock.unmarked(clock_before, consumed[k])
            },
            !(before.entry_of(consumed[k]) is Some && clock_before.speculation(
                consumed[k],
            ) is Consumed) ==> self == before && clock == clock_before,
        ensures
            self.harvesting(noted, marks, clock, consumed, k + 1),
    {
        let frame = consumed[k];
        assert(consumed.take(k + 1) =~= consumed.take(k).push(frame));
        assert forall|f: ReadFrameIdx| consumed.take(k + 1).contains(f) <==> consumed.take(
            k,
        ).contains(f) || f == frame by {
            if consumed.take(k).contains(f) {
                let j = choose|j: int| 0 <= j < consumed.take(k).len() && consumed.take(k)[j] == f;
                assert(consumed.take(k + 1)[j] == f);
            }
            assert(consumed.take(k + 1)[k] == frame);
            if consumed.take(k + 1).contains(f) && f != frame {
                let longer = consumed.take(k + 1);
                let j = choose|j: int| 0 <= j < longer.len() && longer[j] == f;
                assert(consumed.take(k)[j] == f);
            }
        }
        assert(clock_before.speculation(frame) == marks.speculation(frame));
        assert(before.entry_of(frame) == noted.entry_of(frame));
        if before.entry_of(frame) is Some && clock_before.speculation(frame) is Consumed {
            before.lemma_enrolled(frame);
        }
        assert forall|x: Feedback|
            #[trigger] self.queued_feedback().contains(x) <==> noted.queued_feedback().contains(x)
                || exists|f: ReadFrameIdx|
                f.0 < noted.frames() && consumed.take(k + 1).contains(f)
                    && #[trigger] noted.harvest_at(marks, f) == Some(x) by {
            let gained = noted.harvest_at(marks, frame);
            assert(self.queued_feedback() == (match gained {
                Some(y) => before.queued_feedback().push(y),
                None => before.queued_feedback(),
            }));
            if let Some(y) = gained {
                let list = before.queued_feedback();
                assert(list.push(y)[list.len() as int] == y);
                if list.contains(x) {
                    let j = choose|j: int| 0 <= j < list.len() && list[j] == x;
                    assert(list.push(y)[j] == x);
                }
                if list.push(y).contains(x) && x != y {
                    let j = choose|j: int| 0 <= j < list.push(y).len() && list.push(y)[j] == x;
                    assert(list[j] == x);
                }
            }
            assert(before.queued_feedback().contains(x) <==> noted.queued_feedback().contains(x)
                || exists|f: ReadFrameIdx|
                f.0 < noted.frames() && consumed.take(k).contains(f) && #[trigger] noted.harvest_at(
                    marks,
                    f,
                ) == Some(x));
        }
    }

    /// An entry is filed under its own frame and counted.
    pub proof fn lemma_enrolled(self, frame: ReadFrameIdx)
        requires
            self.wf(),
            frame.0 < self.frames(),
            self.entry_of(frame) is Some,
        ensures
            self.entry_of(frame)->0.frame == frame,
            self.stats().occupied > 0,
    {
        assert(self.frame_entries@[frame.0 as int] is Some);
        self.lemma_occupied(self.frame_entries@[frame.0 as int]->0 as int);
    }

    /// The feedback harvested from every consumed frame.
    proof fn lemma_harvest(
        self,
        noted: Prefetch,
        harvested: Prefetch,
        marks: Clock,
        consumed: Seq<ReadFrameIdx>,
        x: Feedback,
    )
        requires
            self.linked(marks),
            noted.same_entries(self),
            noted.frames() == self.frames(),
            noted.queued_feedback() == self.queued_feedback(),
            forall|f: ReadFrameIdx| consumed.contains(f) <==> marks.consumed_frames().contains(f),
            harvested.queued_feedback().contains(x) <==> noted.queued_feedback().contains(x)
                || exists|f: ReadFrameIdx|
                f.0 < noted.frames() && consumed.contains(f) && #[trigger] noted.harvest_at(
                    marks,
                    f,
                ) == Some(x),
        ensures
            harvested.queued_feedback().contains(x) <==> self.queued_feedback().contains(x)
                || self.harvest(marks, x),
    {
        assert(forall|f: ReadFrameIdx|
            f.0 < self.frames() ==> #[trigger] self.harvest_at(marks, f) == noted.harvest_at(
                marks,
                f,
            )) by {
            assert(forall|f: ReadFrameIdx|
                f.0 < self.frames() ==> #[trigger] noted.entry_of(f) == self.entry_of(f));
        }
        if self.harvest(marks, x) {
            let f = choose|f: ReadFrameIdx|
                f.0 < self.frames() && #[trigger] self.harvest_at(marks, f) == Some(x);
            assert(marks.speculation(f) is Consumed);
            assert(consumed.contains(f));
            assert(noted.harvest_at(marks, f) == Some(x));
        }
        if exists|f: ReadFrameIdx|
            f.0 < noted.frames() && consumed.contains(f) && #[trigger] noted.harvest_at(marks, f)
                == Some(x) {
            let f = choose|f: ReadFrameIdx|
                f.0 < noted.frames() && consumed.contains(f) && #[trigger] noted.harvest_at(
                    marks,
                    f,
                ) == Some(x);
            assert(self.harvest_at(marks, f) == Some(x));
        }
    }

    /// Takes in queued feedback before anything relies on the patterns.
    pub fn reconcile_feedback(&mut self, clock: &mut Clock)
        requires
            old(self).wf(),
            old(self).linked(*old(clock)),
            old(self).wear() < WEAR_MAX,
        ensures
            final(self).wf(),
            final(self).linked(*final(clock)),
            old(self).queued_feedback().len() == 0 ==> *final(self) == *old(self) && *final(clock)
                == *old(clock),
            old(self).queued_feedback().len() > 0 ==> final(self).reconciled(
                *old(self),
                *old(clock),
                *final(clock),
            ),
            final(self).queued_feedback().len() == 0,
    {
        if self.feedback.len() > 0 {
            self.reconcile(clock);
        }
    }

    /// Whether the stream that issued `entry` was abandoned.
    pub fn obsolete(&self, entry: Entry) -> (obsolete: bool)
        requires
            self.wf(),
            traceable(entry.source, entry.page, self.patterns()),
        ensures
            obsolete == (entry.source is Automatic && !current(entry.source, self.patterns())),
    {
        self.source_obsolete(entry.source)
    }

    /// Whether the stream behind `source` was abandoned.
    pub fn source_obsolete(&self, source: Source) -> (obsolete: bool)
        requires
            self.wf(),
            source matches Source::Automatic { reader, .. } ==> reader < self.patterns().len(),
        ensures
            obsolete == (source is Automatic && !current(source, self.patterns())),
    {
        match source {
            Source::Explicit => false,
            Source::Automatic { reader, incarnation } => !self.patterns[reader as usize].owns(
                incarnation,
            ),
        }
    }

    /// Any queued feedback was taken in.
    pub open spec fn caught_up(self, other: Prefetch, before: Clock, after: Clock) -> bool {
        if other.queued_feedback().len() == 0 {
            self == other && after == before
        } else {
            self.reconciled(other, before, after)
        }
    }

    /// The pattern of `reader`, where it is predicted for, has seen a demand
    /// of `page`.
    pub open spec fn trained(self, other: Prefetch, reader: u32, page: PageId) -> bool {
        if reader < other.patterns().len() {
            self.repatterned(
                other,
                reader,
                other.patterns()[reader as int].observed(page, other.credits() as u32),
            )
        } else {
            self == other
        }
    }

    /// Takes in a demand of `page` by `reader`, where it is predicted for.
    pub fn observe(&mut self, clock: &mut Clock, reader: u32, page: PageId)
        requires
            old(self).wf(),
            old(self).linked(*old(clock)),
            old(self).wear() < WEAR_MAX,
        ensures
            final(self).wf(),
            final(self).linked(*final(clock)),
            final(clock).same_references(*old(clock)),
            final(self).strain() <= old(self).strain() + 1,
            exists|calm: Prefetch|
                {
                    &&& calm.wf()
                    &&& #[trigger] calm.caught_up(*old(self), *old(clock), *final(clock))
                    &&& final(self).trained(calm, reader, page)
                },
    {
        self.reconcile_feedback(clock);
        let ghost calm = *self;
        if (reader as usize) < self.patterns.len() {
            let mut pattern: Pattern = self.patterns[reader as usize];
            pattern.observe(page, self.capacity);
            self.pattern_changed(reader, pattern);
        }
        assert(calm.caught_up(*old(self), *old(clock), *clock));
    }

    /// Everything but the counters, the switch and whose turn it is.
    pub open spec fn same_records(self, other: Prefetch) -> bool {
        &&& self.credits() == other.credits()
        &&& self.frames() == other.frames()
        &&& self.patterns() == other.patterns()
        &&& self.queued_feedback() == other.queued_feedback()
        &&& self.reserved() == other.reserved()
        &&& self.cleanup_queue() == other.cleanup_queue()
        &&& self.waiting_queue() == other.waiting_queue()
        &&& self.ready_queue() == other.ready_queue()
        &&& self.limit() == other.limit()
        &&& self.automatic() == other.automatic()
        &&& self.protection_stamp() == other.protection_stamp()
        &&& self.releases_seen() == other.releases_seen()
        &&& self.wear() == other.wear()
        &&& self.same_credits(other)
    }

    /// The reserve is on or off as before, and it is the same reader's turn.
    pub open spec fn same_switches(self, other: Prefetch) -> bool {
        self.is_active() == other.is_active() && self.cursor() == other.cursor()
    }

    /// Everything but the queues, the reserve and the settings.
    pub open spec fn same_ledger(self, other: Prefetch) -> bool {
        &&& self.credits() == other.credits()
        &&& self.frames() == other.frames()
        &&& self.patterns() == other.patterns()
        &&& self.stats() == other.stats()
        &&& self.queued_feedback() == other.queued_feedback()
        &&& self.reserved() == other.reserved()
        &&& self.wear() == other.wear()
        &&& self.limit() == other.limit()
        &&& self.automatic() == other.automatic()
        &&& self.same_credits(other)
    }

    /// Parks a clean-up until something is released.
    pub fn wait_cleanup(&mut self, index: u32)
        requires
            old(self).wf(),
            index < old(self).credits(),
            old(self).entry_at(index as int) is Some,
        ensures
            final(self).wf(),
            final(self).same_ledger(*old(self)),
            final(self).same_switches(*old(self)),
            final(self).protection_stamp() == old(self).protection_stamp(),
            final(self).releases_seen() == old(self).releases_seen(),
            final(self).cleanup_queue() == old(self).cleanup_queue(),
            final(self).ready_queue() == old(self).ready_queue(),
            final(self).waiting_queue() == queued(old(self).waiting_queue(), index),
    {
        let ghost before = *self;
        self.waiting.push(index);
        proof {
            assert forall|i: u32| #[trigger] self.waiting@.contains(i) implies i
                < self.entries@.len() && self.entries@[i as int] is Some by {
                lemma_queued_contains(before.waiting@, index, i);
                assert(i == index || before.waiting@.contains(i));
            }
            assert(self.same_entries(before));
        }
    }

    /// After a release, queues every parked clean-up again.
    pub fn retry_cleanup(&mut self, releases: u32)
        requires
            old(self).wf(),
        ensures
            final(self).wf(),
            final(self).same_ledger(*old(self)),
            final(self).same_switches(*old(self)),
            final(self).protection_stamp() == old(self).protection_stamp(),
            final(self).ready_queue() == old(self).ready_queue(),
            final(self).releases_seen() == releases,
            old(self).releases_seen() == releases ==> final(self).cleanup_queue() == old(
                self,
            ).cleanup_queue() && final(self).waiting_queue() == old(self).waiting_queue(),
            old(self).releases_seen() != releases ==> {
                &&& final(self).waiting_queue() == Seq::<u32>::empty()
                &&& final(self).cleanup_queue() == queued_all(
                    old(self).cleanup_queue(),
                    old(self).waiting_queue(),
                )
            },
    {
        if self.pending_releases == releases {
            return;
        }
        self.pending_releases = releases;
        let ghost start = *self;
        let ghost parked = self.waiting@;
        let ghost mut moved: int = 0;
        let mut done: bool = false;
        proof {
            assert(parked.take(0) =~= Seq::empty());
            assert(parked.skip(0) =~= parked);
        }
        while !done
            invariant
                self.wf(),
                self.kept_but_queues(start),
                self.pending_releases == releases,
                0 <= moved <= parked.len(),
                self.waiting@ == parked.skip(moved),
                self.cleanup@ == queued_all(start.cleanup@, parked.take(moved)),
                done ==> moved == parked.len(),
            decreases parked.len() - moved + (if done {
                0int
            } else {
                1
            }),
        {
            let ghost before = *self;
            match self.waiting.pop() {
                Some(index) => {
                    proof {
                        assert(before.waiting@[0] == index);
                        assert(before.waiting@.contains(index));
                    }
                    self.cleanup.push(index);
                    proof {
                        assert(parked[moved] == index);
                        assert(parked.take(moved + 1).drop_last() =~= parked.take(moved));
                        assert(parked.take(moved + 1).last() == index);
                        assert(self.waiting@ =~= parked.skip(moved + 1));
                        assert forall|i: u32| #[trigger] self.cleanup@.contains(i) implies i
                            < self.entries@.len() && self.entries@[i as int] is Some by {
                            lemma_queued_contains(before.cleanup@, index, i);
                            assert(i == index || before.cleanup@.contains(i));
                        }
                        assert forall|i: u32| #[trigger] self.waiting@.contains(i) implies i
                            < self.entries@.len() && self.entries@[i as int] is Some by {
                            let k = choose|k: int|
                                0 <= k < self.waiting@.len() && self.waiting@[k] == i;
                            assert(before.waiting@[k + 1] == i);
                            assert(before.waiting@.contains(i));
                        }
                        moved = moved + 1;
                    }
                },
                None => {
                    done = true;
                },
            }
        }
        proof {
            assert(parked.take(moved) =~= parked);
            assert(self.waiting@ =~= Seq::empty());
            assert(self.same_entries(start));
        }
    }

    spec fn kept_but_queues(self, other: Prefetch) -> bool {
        &&& self.reserve == other.reserve
        &&& self.entries == other.entries
        &&& self.patterns == other.patterns
        &&& self.stats == other.stats
        &&& self.stamp == other.stamp
        &&& self.active == other.active
        &&& self.reader_cursor == other.reader_cursor
        &&& self.capacity == other.capacity
        &&& self.request_limit == other.request_limit
        &&& self.automatic_width == other.automatic_width
        &&& self.ready == other.ready
        &&& self.frame_entries == other.frame_entries
        &&& self.vacant == other.vacant
        &&& self.members == other.members
        &&& self.feedback == other.feedback
        &&& self.wear == other.wear
    }

    /// Opens an explicit request: what it names from here on is protected.
    pub fn begin_explicit(&mut self)
        requires
            old(self).wf(),
            old(self).protection_stamp() < u64::MAX,
        ensures
            final(self).wf(),
            final(self).same_ledger(*old(self)),
            final(self).same_switches(*old(self)),
            final(self).cleanup_queue() == old(self).cleanup_queue(),
            final(self).waiting_queue() == old(self).waiting_queue(),
            final(self).ready_queue() == old(self).ready_queue(),
            final(self).releases_seen() == old(self).releases_seen(),
            final(self).protection_stamp() == old(self).protection_stamp() + 1,
    {
        let ghost before = *self;
        self.stamp = self.stamp + 1;
        assert(self.same_entries(before));
    }

    /// Protects the entry of `frame`, if it has one, for the current request.
    pub fn protect(&mut self, frame: ReadFrameIdx)
        requires
            old(self).wf(),
            frame.0 < old(self).frames(),
        ensures
            final(self).wf(),
            final(self).patterns() == old(self).patterns(),
            final(self).stats() == old(self).stats(),
            final(self).reserved() == old(self).reserved(),
            final(self).credits() == old(self).credits(),
            final(self).frames() == old(self).frames(),
            final(self).queued_feedback() == old(self).queued_feedback(),
            final(self).wear() == old(self).wear(),
            final(self).limit() == old(self).limit(),
            final(self).automatic() == old(self).automatic(),
            final(self).same_switches(*old(self)),
            final(self).cleanup_queue() == old(self).cleanup_queue(),
            final(self).waiting_queue() == old(self).waiting_queue(),
            final(self).ready_queue() == old(self).ready_queue(),
            final(self).releases_seen() == old(self).releases_seen(),
            final(self).protection_stamp() == old(self).protection_stamp(),
            final(self).free_credits() == old(self).free_credits(),
            forall|f: ReadFrameIdx| #[trigger] final(self).credit_of(f) == old(self).credit_of(f),
            forall|r: int| #[trigger] final(self).predictions(r) == old(self).predictions(r),
            forall|i: int|
                0 <= i < old(self).credits() ==> #[trigger] final(self).entry_at(i) == (match old(
                    self,
                ).entry_at(i) {
                    Some(entry) => Some(
                        if entry.frame == frame {
                            Entry { protected: old(self).protection_stamp(), ..entry }
                        } else {
                            entry
                        },
                    ),
                    None => None,
                }),
            forall|f: ReadFrameIdx|
                f.0 < old(self).frames() ==> #[trigger] final(self).entry_of(f) == (if f == frame
                    && old(self).entry_of(f) is Some {
                    Some(
                        Entry {
                            protected: old(self).protection_stamp(),
                            ..old(self).entry_of(f)->0
                        },
                    )
                } else {
                    old(self).entry_of(f)
                }),
    {
        let ghost start = *self;
        if let Some(index) = self.frame_entries[frame.0 as usize] {
            if let Some(entry) = self.entries[index as usize] {
                self.entries.set(index as usize, Some(Entry { protected: self.stamp, ..entry }));
                proof {
                    assert forall|i: int| 0 <= i < self.members.capacity() implies #[trigger] self.members.at(
                        i,
                    ) == (if i < self.entries@.len() && self.entries@[i] is Some && current(
                        self.entries@[i]->0.source,
                        self.patterns@,
                    ) {
                        Some(ReaderMember(self.entries@[i]->0.source->reader))
                    } else {
                        None
                    }) by {
                        assert(start.members.at(i) == self.members.at(i));
                    }
                    assert forall|i: int| 0 <= i < self.entries@.len() && (
                    #[trigger] self.entries@[i]) is Some implies traceable(
                        self.entries@[i]->0.source,
                        self.entries@[i]->0.page,
                        self.patterns@,
                    ) by {
                        assert(start.entries@[i] is Some);
                    }
                    assert(frames_match(self.entries@, self.frame_entries@)) by {
                        assert forall|i: int| 0 <= i < self.entries@.len() && (
                        #[trigger] self.entries@[i]) is Some implies self.entries@[i]->0.frame.0
                            < self.frame_entries@.len()
                            && self.frame_entries@[self.entries@[i]->0.frame.0 as int] == Some(
                            i as u32,
                        ) by {
                            assert(start.entries@[i] is Some);
                        }
                        assert forall|f: int| 0 <= f < self.frame_entries@.len() && (
                        #[trigger] self.frame_entries@[f]) is Some implies self.frame_entries@[f]->0
                            < self.entries@.len() && (
                        self.entries@[self.frame_entries@[f]->0 as int] matches Some(e)
                            && e.frame.0 == f) by {
                            assert(start.frame_entries@[f] is Some);
                        }
                    }
                    assert(vacant_match(self.entries@, self.vacant@)) by {
                        assert forall|i: int| 0 <= i < self.entries@.len() && (
                        #[trigger] self.entries@[i]) is None implies self.vacant@.contains(
                            i as u32,
                        ) by {
                            assert(start.entries@[i] is None);
                        }
                        assert forall|k: int| 0 <= k < self.vacant@.len() implies (
                        #[trigger] self.vacant@[k]) < self.entries@.len()
                            && self.entries@[self.vacant@[k] as int] is None by {
                            assert(start.entries@[start.vacant@[k] as int] is None);
                        }
                    }
                    assert(queue_match(self.entries@, self.cleanup@)) by {
                        assert forall|i: u32| #[trigger] self.cleanup@.contains(i) implies i
                            < self.entries@.len() && self.entries@[i as int] is Some by {
                            assert(start.entries@[i as int] is Some);
                        }
                    }
                    assert(queue_match(self.entries@, self.waiting@)) by {
                        assert forall|i: u32| #[trigger] self.waiting@.contains(i) implies i
                            < self.entries@.len() && self.entries@[i as int] is Some by {
                            assert(start.entries@[i as int] is Some);
                        }
                    }
                    assert forall|f: ReadFrameIdx|
                        f.0 < self.frames() implies #[trigger] self.entry_of(f) == (if f == frame
                        && start.entry_of(f) is Some {
                        Some(Entry { protected: start.stamp, ..start.entry_of(f)->0 })
                    } else {
                        start.entry_of(f)
                    }) by {
                        if f != frame && start.frame_entries@[f.0 as int] is Some {
                            assert(start.entries@[start.frame_entries@[f.0 as int]->0 as int]->0.frame
                                == f);
                        }
                    }
                }
            }
        }
    }

    /// Whether `entry` is protected by the current request.
    pub fn protected(&self, entry: Entry) -> (protected: bool)
        ensures
            protected == (entry.protected == self.protection_stamp()),
    {
        entry.protected == self.stamp
    }

    /// Lets the reserve be filled.
    pub fn activate(&mut self, active: bool)
        requires
            old(self).wf(),
        ensures
            final(self).wf(),
            final(self).same_records(*old(self)),
            final(self).stats() == old(self).stats(),
            final(self).is_active() == active,
            final(self).cursor() == old(self).cursor(),
    {
        let ghost before = *self;
        self.active = active;
        assert(self.same_entries(before));
    }

    pub fn active(&self) -> (active: bool)
        ensures
            active == self.is_active(),
    {
        self.active
    }

    /// The speculative credits.
    pub fn capacity(&self) -> (capacity: u32)
        ensures
            capacity == self.credits(),
    {
        self.capacity
    }

    pub fn request_limit(&self) -> (limit: usize)
        ensures
            limit == self.limit(),
    {
        self.request_limit
    }

    pub fn books(&self) -> (stats: PrefetchStats)
        ensures
            stats == self.stats(),
    {
        self.stats
    }

    /// The entry in slot `index`.
    pub fn entry(&self, index: u32) -> (entry: Option<Entry>)
        requires
            self.wf(),
            index < self.credits(),
        ensures
            entry == self.entry_at(index as int),
            entry matches Some(e) ==> e.frame.0 < self.frames() && self.entry_of(e.frame) == entry
                && traceable(e.source, e.page, self.patterns()),
    {
        assert(self.entries@[index as int] is Some ==> traceable(
            self.entries@[index as int]->0.source,
            self.entries@[index as int]->0.page,
            self.patterns@,
        ));
        self.entries[index as usize]
    }

    /// Counts `deferred` refusals for want of room.
    pub fn note_deferred(&mut self, deferred: u64)
        requires
            old(self).wf(),
        ensures
            final(self).wf(),
            final(self).same_records(*old(self)),
            final(self).is_active() == old(self).is_active(),
            final(self).cursor() == old(self).cursor(),
            final(self).stats() == (PrefetchStats {
                deferred: old(self).stats().deferred.wrapping_add(deferred),
                ..old(self).stats()
            }),
    {
        let ghost before = *self;
        self.stats.deferred = self.stats.deferred.wrapping_add(deferred);
        assert(self.same_entries(before));
    }

    /// Counts one read the driver refused.
    pub fn note_refused(&mut self)
        requires
            old(self).wf(),
        ensures
            final(self).wf(),
            final(self).same_records(*old(self)),
            final(self).is_active() == old(self).is_active(),
            final(self).cursor() == old(self).cursor(),
            final(self).stats() == (PrefetchStats {
                submission_refused: old(self).stats().submission_refused.wrapping_add(1),
                ..old(self).stats()
            }),
    {
        let ghost before = *self;
        self.stats.submission_refused = self.stats.submission_refused.wrapping_add(1);
        assert(self.same_entries(before));
    }

    /// `request` is the prediction of the first reader, round-robin from where
    /// the last turn ended, that has one; the turn ends behind that reader.
    pub open spec fn next_turn(self, other: Prefetch, request: Option<(PageId, Source)>) -> bool {
        let readers = other.patterns().len() as int;
        match request {
            Some((page, source)) => {
                &&& source is Automatic
                &&& source->reader < readers
                &&& other.patterns()[source->reader as int].prediction(source->reader) == Some(
                    (page, source),
                )
                &&& forall|r: u32|
                    turn(other.cursor(), r, readers) < turn(other.cursor(), source->reader, readers)
                        && r < readers ==> (#[trigger] other.patterns()[r as int]).prediction(
                        r,
                    ) is None
                &&& self.cursor() == (if source->reader + 1 == readers {
                    0
                } else {
                    source->reader + 1
                })
            },
            None => {
                &&& forall|r: u32|
                    r < readers ==> (#[trigger] other.patterns()[r as int]).prediction(r) is None
                &&& self.cursor() == other.cursor()
            },
        }
    }

    /// The next prediction in turn: readers are asked round-robin from where
    /// the last turn ended.
    pub fn next_request(&mut self) -> (request: Option<(PageId, Source)>)
        requires
            old(self).wf(),
            old(self).patterns().len() > 0,
        ensures
            final(self).wf(),
            final(self).same_records(*old(self)),
            final(self).stats() == old(self).stats(),
            final(self).is_active() == old(self).is_active(),
            final(self).next_turn(*old(self), request),
    {
        let readers: u32 = self.patterns.len() as u32;
        let ghost start = *self;
        let ghost first = self.reader_cursor;
        let mut asked: u32 = 0;
        while asked < readers
            invariant
                asked <= readers,
                readers == self.patterns@.len(),
                readers > 0,
                start == *old(self),
                start.wf(),
                self.wf(),
                self.same_records(start),
                self.stats() == start.stats(),
                self.active == start.active,
                first == start.reader_cursor,
                self.reader_cursor < readers,
                asked < readers ==> turn(first, self.reader_cursor, readers as int) == asked,
                asked == readers ==> self.reader_cursor == first,
                forall|r: u32|
                    r < readers && turn(first, r, readers as int) < asked ==> (
                    #[trigger] start.patterns()[r as int]).prediction(r) is None,
            decreases readers - asked,
        {
            let reader: u32 = self.reader_cursor;
            let ghost before = *self;
            self.reader_cursor = if reader + 1 == readers {
                0
            } else {
                reader + 1
            };
            assert(self.same_credits(before));
            let request: Option<(PageId, Source)> = self.patterns[reader as usize].request(reader);
            if request.is_some() {
                return request;
            }
            assert(start.patterns()[reader as int].prediction(reader) is None);
            asked = asked + 1;
        }
        None
    }
}

/// Distinct numbers below `n` are at most `n`.
pub proof fn lemma_distinct_below(list: Seq<u32>, n: int)
    requires
        list.no_duplicates(),
        n >= 0,
        forall|k: int| 0 <= k < list.len() ==> #[trigger] list[k] < n,
    ensures
        list.len() <= n,
{
    let wide = Seq::new(list.len(), |k: int| list[k] as int);
    assert(wide.no_duplicates()) by {
        assert forall|i: int, j: int|
            0 <= i < wide.len() && 0 <= j < wide.len() && i != j implies wide[i] != wide[j] by {
            assert(list[i] != list[j]);
        }
    }
    wide.unique_seq_to_set();
    vstd::set_lib::lemma_int_range(0, n);
    assert(wide.to_set().subset_of(vstd::set_lib::set_int_range(0, n))) by {
        assert forall|x: int| wide.to_set().contains(x) implies vstd::set_lib::set_int_range(
            0,
            n,
        ).contains(x) by {
            let k = choose|k: int| 0 <= k < wide.len() && wide[k] == x;
            assert(list[k] == x);
        }
    }
    vstd::set_lib::lemma_len_subset(wide.to_set(), vstd::set_lib::set_int_range(0, n));
}

/// Leaving out a slot leaves out its index.
proof fn lemma_indices_without(list: Seq<int>, index: u32)
    requires
        list.no_duplicates(),
        forall|k: int| 0 <= k < list.len() ==> 0 <= #[trigger] list[k] <= u32::MAX,
    ensures
        list.contains(index as int) ==> indices(list.remove(list.index_of(index as int)))
            == unqueued(indices(list), index),
        !list.contains(index as int) ==> unqueued(indices(list), index) == indices(list),
{
    let narrow = indices(list);
    if narrow.contains(index) {
        let k = choose|k: int| 0 <= k < narrow.len() && narrow[k] == index;
        assert(list[k] == index as int);
    }
    if list.contains(index as int) {
        let at = list.index_of(index as int);
        assert(list[at] == index as int);
        assert(narrow[at] == index);
        let j = narrow.index_of(index);
        assert(narrow[j] == index);
        assert(list[j] == index as int);
        assert(j == at);
        assert(indices(list.remove(at)) =~= narrow.remove(at));
    }
}

proof fn lemma_queued_contains(queue: Seq<u32>, index: u32, r: u32)
    ensures
        queued(queue, index).contains(r) <==> queue.contains(r) || r == index,
{
    if !queue.contains(index) {
        let longer = queue.push(index);
        assert(longer[queue.len() as int] == index);
        if queue.contains(r) {
            let k = choose|k: int| 0 <= k < queue.len() && queue[k] == r;
            assert(longer[k] == r);
        }
        if longer.contains(r) && r != index {
            let k = choose|k: int| 0 <= k < longer.len() && longer[k] == r;
            assert(queue[k] == r);
        }
    }
}

proof fn lemma_unqueued_contains(queue: Seq<u32>, index: u32, r: u32)
    requires
        queue.no_duplicates(),
    ensures
        unqueued(queue, index).contains(r) <==> queue.contains(r) && r != index,
{
    if queue.contains(index) {
        let at = queue.index_of(index);
        assert(queue[at] == index);
        let left = queue.remove(at);
        if left.contains(r) {
            let k = choose|k: int| 0 <= k < left.len() && left[k] == r;
            let j = if k < at {
                k
            } else {
                k + 1
            };
            assert(queue[j] == r);
        }
        if queue.contains(r) && r != index {
            let k = choose|k: int| 0 <= k < queue.len() && queue[k] == r;
            if k < at {
                assert(left[k] == r);
            } else {
                assert(left[k - 1] == r);
            }
        }
    }
}

/// How many turns after `first` reader `r` is asked.
pub open spec fn turn(first: u32, r: u32, readers: int) -> int {
    if r >= first {
        r - first
    } else {
        r - first + readers
    }
}

/// How many pages one explicit request may examine.
pub open spec fn request_bound(capacity: u32, reads: u32) -> nat {
    let widest = if capacity >= reads {
        capacity as int
    } else {
        reads as int
    };
    let quadrupled = if widest * 4 <= u32::MAX {
        widest * 4
    } else {
        u32::MAX as int
    };
    if quadrupled < 1 {
        1
    } else {
        quadrupled as nat
    }
}

/// How many predictions are issued together: a full vector where credits and
/// reads can carry two of them.
pub open spec fn automatic_window(capacity: u32, reads: u32, granule: u32) -> u32 {
    let whole = VECTOR_BYTES_MAX / granule;
    let vector: u32 = if whole < 1 {
        1
    } else if whole > 32 {
        32
    } else {
        whole
    };
    let spare: u32 = if reads == 0 {
        0
    } else {
        (reads - 1) as u32
    };
    let shared = if capacity <= spare {
        capacity
    } else {
        spare
    };
    if shared >= 2 * vector {
        vector
    } else {
        1
    }
}

} // verus!
