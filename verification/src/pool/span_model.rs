//! Vectored speculative reads in the bounded model: one operation slot whose
//! pages land in order as bytes arrive.

use crate::driver::{FileId, OpToken};
use crate::pool::cache::{flight_at, flight_ok, flown, write_at};
use crate::pool::clock::Clock;
use crate::pool::frames::{FrameState, Frames, InFlightFrame, ReadFrameIdx, FRAME_GENERATION_MAX};
use crate::pool::miss::{
    MissEntry, MissInterest, MissInterests, MissOutcome, MissSlot, MissTable,
};
use crate::pool::model::{modeled_page, PoolModel};
use crate::pool::prefetch::feedback::Feedback;
use crate::pool::prefetch::ledger::{Prefetch, WEAR_MAX};
use crate::pool::prefetch::pattern::{Pattern, PatternState};
use crate::pool::prefetch::{Readahead, Source};
use crate::pool::read_spans::{
    ReadSpan, ReadSpans, RouteState, SpanPage, SpanSlot, VECTOR_FRAMES_MAX,
};
use crate::pool::residency::Residency;
use crate::pool::span_routing::{miss_of, progressed};
use crate::pool::{PageId, SECTOR_BYTES};
use vstd::prelude::*;

verus! {

/// One vectored read in progress: the byte each of its pages holds at the
/// source, and how many bytes have yet to arrive.
pub struct SpanRead {
    pub contents: Vec<u8>,
    pub remaining: u32,
}

/// The speculative half of the bounded model: the misses and routes of its one
/// vectored read and the books of its predictions.
pub struct ReadaheadControl {
    pub miss: MissTable,
    pub interests: MissInterests,
    pub spans: ReadSpans,
    pub prefetch: Prefetch,
    pub writes: Vec<Option<InFlightFrame>>,
    pub operation: Option<SpanRead>,
    pub turn: u32,
    pub reads_in_flight: u32,
}

/// The first `arrived` bytes of a frame hold `byte`.
pub open spec fn holds_prefix(bytes: Seq<u8>, arrived: int, byte: u8) -> bool {
    forall|j: int| 0 <= j < arrived && j < bytes.len() ==> #[trigger] bytes[j] == byte
}

impl ReadaheadControl {
    /// The token the operation slot gives out at its present turn.
    pub open spec fn token(self) -> OpToken {
        OpToken { slot: 0, generation: self.turn }
    }

    /// Page `k` of the span waits for its bytes: its miss is pending, and what
    /// has arrived of it is in its frame.
    pub open spec fn awaits(self, span: ReadSpan, k: int, byte: u8, frames: Frames) -> bool {
        let index = span.page_at(k)->0.slot.0 as int;
        let entry = self.miss.entry_at(index)->0;
        &&& self.miss.is_pending(index)
        &&& span.resolves(k, entry, entry.frame)
        &&& holds_prefix(frames.contents(entry.frame), span.arrived() - k * SECTOR_BYTES, byte)
    }

    /// The span in flight and its operation agree.
    pub open spec fn in_order(self, read: SpanRead, span: ReadSpan, frames: Frames) -> bool {
        &&& span.wf()
        &&& span.installed()
        &&& span.granule_bytes() == SECTOR_BYTES
        &&& span.operation() == self.token()
        &&& read.contents@.len() == span.pages_len()
        &&& span.arrived() + read.remaining == span.total()
        &&& read.remaining > 0
        &&& forall|k: int|
            span.complete_prefix() <= k < span.pages_len() ==> #[trigger] self.awaits(
                span,
                k,
                read.contents@[k],
                frames,
            )
    }

    /// The route of the operation slot.
    pub open spec fn lane(self) -> int {
        match self.spans.route(0) {
            Some((_, slot)) => slot.0 as int,
            None => -1,
        }
    }

    /// The miss of a page has been entered and waits.
    pub open spec fn entered(self, page: PageId, taken: SpanPage) -> bool {
        let index = taken.slot.0 as int;
        &&& self.miss.is_pending(index)
        &&& self.miss.entry_at(index)->0.page == page
        &&& self.miss.entry_at(index)->0.generation == taken.generation
    }

    /// The reads in flight of two books are the same.
    pub open spec fn in_flight_alike(self, other: ReadaheadControl) -> bool {
        &&& self.miss == other.miss
        &&& self.spans == other.spans
        &&& self.operation == other.operation
        &&& self.turn == other.turn
    }

    /// The span the operation slot carries.
    pub open spec fn flying(self) -> ReadSpan {
        self.spans.state(self.lane())->InFlight_0
    }

    /// The operation slot and the routes agree.
    pub open spec fn routed(self, frames: Frames) -> bool {
        &&& self.spans.wf()
        &&& self.spans.capacity() == frames.frame_count()
        &&& self.spans.operation_slots() == 1
        &&& match self.operation {
            Some(read) => {
                &&& self.spans.route(0) matches Some((token, _)) && token == self.token()
                &&& 0 <= self.lane() < self.spans.capacity()
                &&& self.spans.state(self.lane()) == RouteState::InFlight(self.flying())
                &&& self.in_order(read, self.flying(), frames)
                &&& self.spans.vacancies().len() + 1 == self.spans.capacity()
            },
            None => {
                &&& self.spans.route(0) is None
                &&& self.spans.vacancies().len() == self.spans.capacity()
            },
        }
    }

    /// The misses and the predictions agree with the frames and the clock.
    pub open spec fn booked(self, residency: Residency, clock: Clock) -> bool {
        let n = residency.frames.frame_count();
        &&& self.miss.wf()
        &&& self.miss.capacity() == n
        &&& self.miss.pending_room() == n
        &&& self.miss.linked(self.interests)
        &&& self.reads_in_flight == self.miss.pending_count()
        &&& flight_ok(residency.frames, self.miss, self.writes@)
        &&& self.prefetch.wf()
        &&& self.prefetch.linked(clock)
        &&& self.prefetch.frames() == n
        &&& self.prefetch.patterns().len() == 2
    }

    /// The books and the routes agree with the frames and the clock.
    pub open spec fn tracks(self, residency: Residency, clock: Clock) -> bool {
        self.booked(residency, clock) && self.routed(residency.frames)
    }

    /// Books with the same reads in flight are routed alike.
    pub proof fn lemma_alike(self, other: ReadaheadControl, frames: Frames)
        requires
            other.routed(frames),
            self.in_flight_alike(other),
        ensures
            self.routed(frames),
    {
        if self.operation is Some {
            let read = self.operation->0;
            let span = self.flying();
            assert forall|k: int|
                span.complete_prefix() <= k < span.pages_len() implies #[trigger] self.awaits(
                span,
                k,
                read.contents@[k],
                frames,
            ) by {
                assert(other.awaits(span, k, read.contents@[k], frames));
            }
        }
    }

    /// A step that leaves every frame under a read alone, and the clock's marks
    /// with the predictions, keeps the books in agreement.
    pub proof fn lemma_kept(
        self,
        before: Residency,
        earlier: Clock,
        after: Residency,
        later: Clock,
    )
        requires
            self.tracks(before, earlier),
            after.frames.same_shape(before.frames),
            forall|f: ReadFrameIdx|
                before.has(f) ==> (#[trigger] after.frames.residency(f) is InFlight
                    <==> before.frames.residency(f) is InFlight),
            forall|f: ReadFrameIdx|
                before.has(f) && #[trigger] after.frames.residency(f) is InFlight ==> {
                    &&& after.frames.page(f) == before.frames.page(f)
                    &&& after.frames.contents(f) == before.frames.contents(f)
                },
            later == earlier || exists|frame: ReadFrameIdx, reader: Option<u32>|
                before.has(frame) && #[trigger] later.touched(earlier, frame, reader),
            later.wf(),
        ensures
            self.tracks(after, later),
    {
        assert forall|i: int| #[trigger] self.miss.is_pending(i) implies flight_at(
            after.frames,
            self.miss.entry_at(i)->0,
        ) by {
            let entry = self.miss.entry_at(i)->0;
            assert(flight_at(before.frames, entry));
            assert(after.frames.residency(entry.frame) is InFlight);
        }
        assert forall|f: ReadFrameIdx|
            after.frames.has(f) && #[trigger] after.frames.residency(
                f,
            ) is InFlight implies flown(self.miss, f) by {
            assert(before.frames.residency(f) is InFlight);
        }
        assert forall|f: ReadFrameIdx| after.frames.has(f) implies write_at(
            after.frames,
            f,
            #[trigger] self.writes@[f.0 as int],
        ) by {
            assert(write_at(before.frames, f, self.writes@[f.0 as int]));
            assert(after.frames.residency(f) is InFlight <==> before.frames.residency(
                f,
            ) is InFlight);
        }
        if later != earlier {
            let (frame, reader) = choose|frame: ReadFrameIdx, reader: Option<u32>|
                before.has(frame) && #[trigger] later.touched(earlier, frame, reader);
            assert forall|f: ReadFrameIdx| f.0 < self.prefetch.frames() implies (
            #[trigger] self.prefetch.entry_of(f) is Some <==> !(later.speculation(
                f,
            ) is Absent)) by {
                assert(self.prefetch.entry_of(f) is Some <==> !(earlier.speculation(f) is Absent));
                assert(later.has(f));
            }
            assert forall|f: ReadFrameIdx|
                f.0 < self.prefetch.frames() && #[trigger] later.speculation(
                    f,
                ) is Consumed implies later.consumed_frames().contains(f) by {
                assert(later.has(f));
                assert(earlier.speculation(f) is Consumed ==> earlier.consumed_frames().contains(
                    f,
                ));
            }
        }
        if self.operation is Some {
            let read = self.operation->0;
            let span = self.flying();
            assert forall|k: int|
                span.complete_prefix() <= k < span.pages_len() implies #[trigger] self.awaits(
                span,
                k,
                read.contents@[k],
                after.frames,
            ) by {
                assert(self.awaits(span, k, read.contents@[k], before.frames));
                let index = span.page_at(k)->0.slot.0 as int;
                let entry = self.miss.entry_at(index)->0;
                assert(flight_at(before.frames, entry));
                assert(after.frames.residency(entry.frame) is InFlight);
            }
        }
    }

    /// The books as they are built: nothing pending, nothing predicted.
    pub open spec fn opened(self, frames: u32, capacity: u32) -> bool {
        &&& self.miss.fresh(frames, frames)
        &&& self.interests@ == Seq::new(
            frames as nat,
            |i: int| MissInterest { generation: 0, waiters: 0 },
        )
        &&& self.spans.wf()
        &&& self.spans.capacity() == frames
        &&& self.spans.operation_slots() == 1
        &&& self.spans.vacancies().len() == frames
        &&& self.spans.route(0) is None
        &&& self.prefetch.wf()
        &&& self.prefetch.credits() == capacity
        &&& self.prefetch.frames() == frames
        &&& self.prefetch.patterns() == Seq::new(
            2,
            |r: int| Pattern { state: PatternState::Empty, incarnation: 0 },
        )
        &&& self.prefetch.queued_feedback() == Seq::<Feedback>::empty()
        &&& self.prefetch.stats().occupied == 0
        &&& self.prefetch.wear() == 0
        &&& forall|f: ReadFrameIdx|
            f.0 < frames ==> (#[trigger] self.prefetch.entry_of(f)) is None
        &&& self.writes@ == Seq::new(frames as nat, |i: int| None::<InFlightFrame>)
        &&& self.operation is None
        &&& self.turn == 0
        &&& self.reads_in_flight == 0
    }

    /// The pages of the span in flight, and how many of them have landed.
    fn span_extent(&self) -> (extent: (u32, u32))
        requires
            self.operation is Some,
            self.spans.wf(),
            self.spans.operation_slots() == 1,
            self.spans.route(0) is Some,
            0 <= self.lane() < self.spans.capacity(),
            self.spans.state(self.lane()) == RouteState::InFlight(self.flying()),
        ensures
            extent.0 == self.flying().pages_len(),
            extent.1 == self.flying().complete_prefix(),
    {
        match self.spans.in_flight(0) {
            Some(span) => (span.count(), span.published()),
            None => (0, 0),
        }
    }

    /// The frame page `k` of the span in flight fills.
    fn span_target(&self, k: u32) -> (frame: ReadFrameIdx)
        requires
            self.operation is Some,
            self.spans.wf(),
            self.spans.operation_slots() == 1,
            self.spans.route(0) is Some,
            0 <= self.lane() < self.spans.capacity(),
            self.spans.state(self.lane()) == RouteState::InFlight(self.flying()),
            self.flying().wf(),
            self.flying().installed(),
            k < self.flying().pages_len(),
            self.miss.is_pending(miss_of(self.flying(), k as int)),
        ensures
            frame == self.miss.entry_at(miss_of(self.flying(), k as int))->0.frame,
    {
        proof {
            assert(self.flying().page_at(k as int) is Some);
        }
        if let Some(span) = self.spans.in_flight(0) {
            if let Some(page) = span.page(k) {
                if let Some(entry) = self.miss.entry(page.slot.index()) {
                    return entry.frame;
                }
            }
        }
        ReadFrameIdx::new(0)
    }

    /// The byte the source of page `k` holds.
    fn span_byte(&self, k: u32) -> (byte: u8)
        requires
            self.operation matches Some(read) && k < read.contents@.len(),
        ensures
            byte == self.operation->0.contents@[k as int],
    {
        match &self.operation {
            Some(read) => read.contents[k as usize],
            None => 0,
        }
    }

    pub fn new(frames: u32, capacity: u32) -> (control: Self)
        requires
            1 <= capacity <= frames,
        ensures
            control.opened(frames, capacity),
    {
        let mut writes: Vec<Option<InFlightFrame>> = Vec::new();
        let mut i: u32 = 0;
        while i < frames
            invariant
                i <= frames,
                writes@ == Seq::new(i as nat, |k: int| None::<InFlightFrame>),
            decreases frames - i,
        {
            writes.push(None);
            i = i + 1;
            proof {
                assert(writes@ =~= Seq::new(i as nat, |k: int| None::<InFlightFrame>));
            }
        }
        ReadaheadControl {
            miss: MissTable::new(frames, frames),
            interests: MissInterests::with_capacity(frames),
            spans: ReadSpans::new(frames, 1),
            prefetch: Prefetch::with_geometry(
                capacity,
                2,
                frames,
                Readahead::Automatic,
                frames,
                SECTOR_BYTES,
            ),
            writes,
            operation: None,
            turn: 0,
            reads_in_flight: 0,
        }
    }
}

/// A run of one byte.
fn repeated(byte: u8, len: u32) -> (run: Vec<u8>)
    ensures
        run@ == Seq::new(len as nat, |j: int| byte),
{
    let mut run: Vec<u8> = Vec::new();
    let mut i: u32 = 0;
    while i < len
        invariant
            i <= len,
            run@ == Seq::new(i as nat, |j: int| byte),
        decreases len - i,
    {
        run.push(byte);
        i = i + 1;
        proof {
            assert(run@ =~= Seq::new(i as nat, |j: int| byte));
        }
    }
    run
}

/// The free frames.
pub open spec fn free_frames(frames: Frames) -> Set<int> {
    Set::new(|i: int| 0 <= i < frames.frame_count() && frames.residency(ReadFrameIdx(i as u32)) is Free)
}

/// The miss slots a new read may take.
pub open spec fn open_slots(miss: MissTable, interests: MissInterests) -> Set<int> {
    Set::new(|i: int| 0 <= i < miss.capacity() && miss.reusable(interests, i))
}

/// A set of indices below a bound is finite.
proof fn lemma_bounded_finite(s: Set<int>, bound: int)
    requires
        0 <= bound,
        forall|i: int| s.contains(i) ==> 0 <= i < bound,
    ensures
        s.finite(),
{
    vstd::set_lib::lemma_int_range(0, bound);
    assert(s.subset_of(vstd::set_lib::set_int_range(0, bound)));
    vstd::set_lib::lemma_len_subset(s, vstd::set_lib::set_int_range(0, bound));
}

impl PoolModel {
    /// The speculative half of the model.
    pub open spec fn books(self) -> ReadaheadControl {
        self.readahead->0
    }

    /// The speculative counters have room for `more` predictions.
    pub open spec fn speculates(self, more: int) -> bool {
        &&& self.readahead is Some
        &&& self.books().prefetch.strain() + more < WEAR_MAX
        &&& forall|i: int|
            0 <= i < self.books().interests@.len() ==> (
            #[trigger] self.books().interests@[i]).generation + more < u64::MAX
    }

    /// The least free frame of the model.
    pub open spec fn least_free(self, frame: ReadFrameIdx) -> bool {
        &&& self.residency.has(frame)
        &&& self.residency.frames.residency(frame) is Free
        &&& forall|f: ReadFrameIdx|
            f.0 < frame.0 ==> !(#[trigger] self.residency.frames.residency(f) is Free)
    }

    /// The least miss slot a new read may take.
    pub open spec fn least_slot(self, slot: MissSlot) -> bool {
        &&& slot.0 < self.books().miss.capacity()
        &&& self.books().miss.reusable(self.books().interests, slot.0 as int)
        &&& forall|i: int|
            0 <= i < slot.0 ==> !(#[trigger] self.books().miss.reusable(
                self.books().interests,
                i,
            ))
    }

    /// The model's page `page` is neither mapped nor pending.
    pub open spec fn absent(self, page: PageId) -> bool {
        &&& !self.residency.table@.contains_key(page)
        &&& forall|i: int| #[trigger]
            self.books().miss.is_pending(i) ==> self.books().miss.entry_at(i)->0.page != page
    }

    /// What one page of a vectored read takes on admission: the least free
    /// frame, claimed for it, and the least open miss slot; one credit of the
    /// books and one read credit.
    pub open spec fn page_admitted(
        self,
        other: PoolModel,
        page: PageId,
        taken: SpanPage,
        frame: ReadFrameIdx,
    ) -> bool {
        let (now, was) = (self.books(), other.books());
        &&& other.least_free(frame)
        &&& other.least_slot(taken.slot)
        &&& taken.generation == was.interests@[taken.slot.0 as int].generation + 1
        &&& self.residency.same_but_frames(other.residency)
        &&& self.residency.keeps(other.residency)
        &&& self.residency.frames.same_except(other.residency.frames, frame)
        &&& self.residency.frames.residency(frame) is InFlight
        &&& self.residency.frames.generation(frame) == other.residency.frames.generation(frame)
        &&& self.residency.frames.page(frame) == Some(page)
        &&& self.residency.frames.contents(frame) == other.residency.frames.contents(frame)
        &&& self.clock.marked(other.clock, frame)
        &&& self.files == other.files
        &&& self.held == other.held
        &&& self.wait == other.wait
        &&& self.locked_checks == other.locked_checks
        &&& self.readahead is Some
        &&& now.miss.admitted(
            was.miss,
            taken.slot,
            page,
            frame,
            was.token(),
            taken.generation,
        )
        &&& now.interests@ == was.interests@.update(
            taken.slot.0 as int,
            MissInterest { generation: taken.generation, waiters: 0 },
        )
        &&& now.prefetch.enrolled(was.prefetch, page, frame, Source::Explicit)
        &&& now.reads_in_flight == was.reads_in_flight + 1
        &&& now.spans == was.spans
        &&& now.operation == was.operation
        &&& now.turn == was.turn
    }

    /// Finds the least free frame.
    fn find_free(&self) -> (frame: ReadFrameIdx)
        requires
            self.wf(),
            free_frames(self.residency.frames).len() > 0,
        ensures
            self.least_free(frame),
    {
        proof {
            self.residency.lemma_facts();
            lemma_bounded_finite(
                free_frames(self.residency.frames),
                self.residency.frames.frame_count() as int,
            );
        }
        let count: u32 = self.residency.frames.count();
        let ghost some = free_frames(self.residency.frames).choose();
        proof {
            assert(free_frames(self.residency.frames).contains(some));
        }
        let mut index: u32 = 0;
        while index < count
            invariant_except_break
                index <= count,
                count == self.residency.frames.frame_count(),
                self.wf(),
                0 <= some < count,
                self.residency.frames.wf(),
                self.residency.frames.residency(ReadFrameIdx(some as u32)) is Free,
                forall|f: ReadFrameIdx|
                    f.0 < index ==> !(#[trigger] self.residency.frames.residency(f) is Free),
            ensures
                index < count,
                self.least_free(ReadFrameIdx(index)),
            decreases count - index,
        {
            let free: bool = match self.residency.frames.state(ReadFrameIdx::new(index)) {
                FrameState::Free => true,
                _ => false,
            };
            if free {
                break;
            }
            proof {
                if index + 1 == count {
                    assert(ReadFrameIdx(some as u32).0 < index || some == index);
                }
            }
            index = index + 1;
        }
        ReadFrameIdx::new(index)
    }

    /// Claims the least free frame for one page of a vectored read and enters
    /// its miss and its prediction.
    #[verifier::rlimit(60)]
    fn admit_span_claim(&mut self, page: PageId) -> (taken: (SpanPage, Ghost<ReadFrameIdx>))
        requires
            old(self).wf(),
            old(self).speculates(1),
            old(self).books().operation is None,
            old(self).books().prefetch.queued_feedback().len() == 0,
            old(self).books().prefetch.stats().occupied < old(self).books().prefetch.credits(),
            old(self).books().reads_in_flight < old(self).residency.frames.frame_count(),
            free_frames(old(self).residency.frames).len() > 0,
            open_slots(old(self).books().miss, old(self).books().interests).len() > 0,
            old(self).absent(page),
            forall|f: ReadFrameIdx|
                old(self).residency.has(f) && #[trigger] old(self).residency.frames.residency(
                    f,
                ) is Free ==> old(self).books().prefetch.entry_of(f) is None,
        ensures
            final(self).wf(),
            final(self).page_admitted(*old(self), page, taken.0, taken.1@),
    {
        let ghost before = *self;
        let ghost was = before.books();
        proof {
            before.residency.lemma_facts();
            was.prefetch.lemma_books();
        }
        let frame: ReadFrameIdx = self.find_free();
        let mut control: ReadaheadControl = match self.readahead.take() {
            Some(control) => control,
            None => { vstd::pervasive::unreached() },
        };
        proof {
            lemma_bounded_finite(
                open_slots(was.miss, was.interests),
                was.miss.capacity() as int,
            );
            let some = open_slots(was.miss, was.interests).choose();
            assert(open_slots(was.miss, was.interests).contains(some));
            assert(was.miss.reusable(was.interests, some));
        }
        let slot: MissSlot = match control.miss.admission_slot(&control.interests) {
            Some(slot) => slot,
            None => { vstd::pervasive::unreached() },
        };
        let token: OpToken = OpToken::new(0, control.turn);
        let generation: u64 = control.miss.install_speculative(
            slot,
            page,
            frame,
            token,
            &mut control.interests,
        );
        control.prefetch.enroll(&mut self.clock, page, frame, Source::Explicit);
        control.reads_in_flight = control.reads_in_flight + 1;
        let write: Option<InFlightFrame> = self.residency.claim(frame, page);
        control.writes.set(frame.get() as usize, write);
        let ghost now = control;
        self.readahead = Some(control);
        proof {
            self.residency.lemma_facts();
            self.lemma_claimed(before, page, SpanPage { slot, generation }, frame);
        }
        (SpanPage { slot, generation }, Ghost(frame))
    }

    /// The model after one admission is whole.
    #[verifier::rlimit(60)]
    proof fn lemma_claimed(
        self,
        before: PoolModel,
        page: PageId,
        taken: SpanPage,
        frame: ReadFrameIdx,
    )
        requires
            before.wf(),
            before.readahead is Some,
            before.books().operation is None,
            self.page_admitted(before, page, taken, frame),
            self.residency.wf(),
            self.clock.wf(),
            self.books().miss.wf(),
            self.books().miss.linked(self.books().interests),
            self.books().prefetch.wf(),
            self.books().prefetch.linked(self.clock),
            self.books().writes@.len() == before.books().writes@.len(),
            self.books().writes@[frame.0 as int] matches Some(token) && token.target() == frame
                && token.arena() == before.residency.frames.arena(),
            forall|i: int|
                0 <= i < before.books().writes@.len() && i != frame.0
                    ==> #[trigger] self.books().writes@[i] == before.books().writes@[i],
        ensures
            self.wf(),
    {
        let (now, was) = (self.books(), before.books());
        before.residency.lemma_facts();
        let slot = taken.slot.0 as int;
        assert(!was.miss.is_pending(slot));
        assert forall|i: int| #[trigger] now.miss.is_pending(i) implies flight_at(
            self.residency.frames,
            now.miss.entry_at(i)->0,
        ) by {
            if i != slot {
                assert(now.miss.entry_at(i) == was.miss.entry_at(i));
                assert(was.miss.is_pending(i));
                assert(flight_at(before.residency.frames, was.miss.entry_at(i)->0));
            }
        }
        assert forall|i: int, j: int| #[trigger]
            now.miss.is_pending(i) && #[trigger] now.miss.is_pending(j) && now.miss.entry_at(
                i,
            )->0.frame == now.miss.entry_at(j)->0.frame implies i == j by {
            if i != slot {
                assert(was.miss.is_pending(i));
                assert(flight_at(before.residency.frames, was.miss.entry_at(i)->0));
            }
            if j != slot {
                assert(was.miss.is_pending(j));
                assert(flight_at(before.residency.frames, was.miss.entry_at(j)->0));
            }
        }
        assert forall|f: ReadFrameIdx|
            self.residency.has(f) && #[trigger] self.residency.frames.residency(
                f,
            ) is InFlight implies flown(now.miss, f) by {
            if f == frame {
                assert(now.miss.is_pending(slot));
            } else {
                assert(before.residency.frames.residency(f) is InFlight);
                assert(flown(was.miss, f));
                let i = choose|i: int| #[trigger]
                    was.miss.is_pending(i) && was.miss.entry_at(i)->0.frame == f;
                assert(now.miss.entry_at(i) == was.miss.entry_at(i));
                assert(now.miss.is_pending(i));
            }
        }
        assert forall|f: ReadFrameIdx| self.residency.has(f) implies write_at(
            self.residency.frames,
            f,
            #[trigger] now.writes@[f.0 as int],
        ) by {
            if f != frame {
                assert(write_at(before.residency.frames, f, was.writes@[f.0 as int]));
            }
        }
    }

    /// The predictions' notices have been taken in; all else is as it was.
    pub open spec fn refreshed(self, other: PoolModel) -> bool {
        let (now, was) = (self.books(), other.books());
        &&& self.residency == other.residency
        &&& self.files == other.files
        &&& self.held == other.held
        &&& self.wait == other.wait
        &&& self.locked_checks == other.locked_checks
        &&& self.readahead is Some
        &&& now.prefetch.reconciled(was.prefetch, other.clock, self.clock)
        &&& now.miss == was.miss
        &&& now.interests == was.interests
        &&& now.spans == was.spans
        &&& now.writes == was.writes
        &&& now.operation == was.operation
        &&& now.turn == was.turn
        &&& now.reads_in_flight == was.reads_in_flight
    }

    /// Takes in what the clock noted of the predictions, and reports how many
    /// credits that visited.
    pub fn reconcile_readahead(&mut self) -> (visited: u64)
        requires
            old(self).wf(),
            old(self).speculates(0),
        ensures
            final(self).wf(),
            final(self).refreshed(*old(self)),
            final(self).books().prefetch.visits(
                old(self).books().prefetch,
                old(self).clock,
                final(self).clock,
                visited,
            ),
    {
        let ghost before = *self;
        let mut control: ReadaheadControl = match self.readahead.take() {
            Some(control) => control,
            None => { vstd::pervasive::unreached() },
        };
        let visited: u64 = control.prefetch.reconcile_model(&mut self.clock);
        self.readahead = Some(control);
        proof {
            self.books().lemma_alike(before.books(), self.residency.frames);
        }
        visited
    }

    /// Page `k` of a vectored read is admitted at step `k`.
    pub open spec fn admitting_step(
        steps: Seq<PoolModel>,
        taken: Seq<SpanPage>,
        frames: Seq<ReadFrameIdx>,
        first: u32,
        k: int,
    ) -> bool {
        steps[k + 1].page_admitted(
            steps[k],
            modeled_page(0, (first + k) as u32),
            taken[k],
            frames[k],
        )
    }

    /// `steps` admits the pages of a vectored read one after the other.
    pub open spec fn admitting(
        steps: Seq<PoolModel>,
        taken: Seq<SpanPage>,
        frames: Seq<ReadFrameIdx>,
        first: u32,
        count: int,
    ) -> bool {
        &&& steps.len() == count + 1
        &&& taken.len() == count
        &&& frames.len() == count
        &&& forall|k: int|
            0 <= k < count ==> #[trigger] Self::admitting_step(steps, taken, frames, first, k)
    }

    /// The operation slot has taken the span of the admitted pages.
    pub open spec fn launched(
        self,
        other: PoolModel,
        first: u32,
        contents: Seq<u8>,
        taken: Seq<SpanPage>,
    ) -> bool {
        let (now, was) = (self.books(), other.books());
        let span = now.flying();
        &&& self.residency == other.residency
        &&& self.clock == other.clock
        &&& self.files == other.files
        &&& self.held == other.held
        &&& self.wait == other.wait
        &&& self.locked_checks == other.locked_checks
        &&& self.readahead is Some
        &&& now.miss == was.miss
        &&& now.interests == was.interests
        &&& now.prefetch == was.prefetch
        &&& now.writes == was.writes
        &&& now.turn == was.turn
        &&& now.reads_in_flight == was.reads_in_flight
        &&& now.operation matches Some(read) && read.contents@ == contents && read.remaining
            == contents.len() * SECTOR_BYTES
        &&& was.spans.vacancies().len() > 0
        &&& now.lane() == was.spans.vacancies()[0]
        &&& span.first_page() == modeled_page(0, first)
        &&& span.pages_len() == contents.len()
        &&& span.arrived() == 0
        &&& forall|k: int|
            0 <= k < contents.len() ==> #[trigger] span.page_at(k) == Some(taken[k])
    }

    /// The pages of a vectored read have been admitted and its span launched.
    pub open spec fn span_admitted(self, other: PoolModel, first: u32, contents: Seq<u8>) -> bool {
        exists|steps: Seq<PoolModel>, taken: Seq<SpanPage>, frames: Seq<ReadFrameIdx>|
            {
                &&& #[trigger] Self::admitting(
                    steps,
                    taken,
                    frames,
                    first,
                    contents.len() as int,
                )
                &&& steps[0].refreshed(other)
                &&& self.launched(steps[contents.len() as int], first, contents, taken)
            }
    }

    /// The model has room for a vectored read of `count` absent pages: books,
    /// read credits, free frames and miss slots.
    pub open spec fn admits_span(self, first: u32, count: int) -> bool {
        &&& self.readahead is Some
        &&& self.books().operation is None
        &&& 2 <= count <= VECTOR_FRAMES_MAX
        &&& first + count <= u32::MAX + 1
        &&& count + self.books().reads_in_flight <= self.residency.frames.frame_count()
        &&& free_frames(self.residency.frames).len() >= count
        &&& open_slots(self.books().miss, self.books().interests).len() >= count
        &&& forall|k: int|
            0 <= k < count ==> #[trigger] self.absent(modeled_page(0, (first + k) as u32))
        &&& forall|f: ReadFrameIdx|
            self.residency.has(f) && #[trigger] self.residency.frames.residency(f) is Free
                ==> self.books().prefetch.entry_of(f) is None || self.clock.speculation(
                f,
            ) is Consumed
        &&& forall|ledger: Prefetch, clock: Clock| #[trigger]
            ledger.reconciled(self.books().prefetch, self.clock, clock) ==> count
                + ledger.stats().occupied <= ledger.credits()
    }

    /// Admits one vectored read of consecutive absent pages, whose source holds
    /// one byte of `contents` throughout each page.
    #[verifier::rlimit(80)]
    pub fn admit_span(&mut self, first: u32, contents: &[u8]) -> (token: OpToken)
        requires
            old(self).wf(),
            old(self).admits_span(first, contents@.len() as int),
            old(self).speculates(2 * contents@.len() as int),
        ensures
            final(self).wf(),
            token == old(self).books().token(),
            final(self).span_admitted(*old(self), first, contents@),
    {
        let ghost before = *self;
        let count: u32 = contents.len() as u32;
        let _visited: u64 = self.reconcile_readahead();
        let ghost start = *self;
        let ghost mut steps: Seq<PoolModel> = seq![start];
        let ghost mut frames: Seq<ReadFrameIdx> = Seq::empty();
        let mut taken: Vec<SpanPage> = Vec::new();
        let mut source: Vec<u8> = Vec::new();
        let mut i: u32 = 0;
        proof {
            start.residency.lemma_facts();
            assert forall|f: ReadFrameIdx|
                start.residency.has(f) && #[trigger] start.residency.frames.residency(
                    f,
                ) is Free implies start.books().prefetch.entry_of(f) is None by {
                assert(before.residency.frames.residency(f) is Free);
            }
            assert forall|k: int| 0 <= k < count implies #[trigger] start.absent(
                modeled_page(0, (first + k) as u32),
            ) by {
                assert(before.absent(modeled_page(0, (first + k) as u32)));
            }
        }
        while i < count
            invariant
                i <= count,
                count == contents@.len(),
                2 <= count <= VECTOR_FRAMES_MAX,
                first + count <= u32::MAX + 1,
                self.wf(),
                self.readahead is Some,
                self.books().operation is None,
                self.books().turn == before.books().turn,
                self.books().spans == start.books().spans,
                self.books().prefetch.queued_feedback().len() == 0,
                self.books().prefetch.stats().occupied + (count - i)
                    <= self.books().prefetch.credits(),
                self.books().reads_in_flight + (count - i) <= self.residency.frames.frame_count(),
                self.speculates(2 * (count - i)),
                free_frames(self.residency.frames).len() >= count - i,
                open_slots(self.books().miss, self.books().interests).len() >= count - i,
                forall|k: int|
                    i <= k < count ==> #[trigger] self.absent(
                        modeled_page(0, (first + k) as u32),
                    ),
                forall|f: ReadFrameIdx|
                    self.residency.has(f) && #[trigger] self.residency.frames.residency(
                        f,
                    ) is Free ==> self.books().prefetch.entry_of(f) is None,
                steps.len() == i + 1,
                steps[0] == start,
                steps[i as int] == *self,
                frames.len() == i,
                taken@.len() == i,
                source@ == contents@.take(i as int),
                forall|k: int|
                    0 <= k < i ==> #[trigger] Self::admitting_step(
                        steps,
                        taken@,
                        frames,
                        first,
                        k,
                    ),
                forall|k: int|
                    0 <= k < i ==> self.books().entered(
                        modeled_page(0, (first + k) as u32),
                        #[trigger] taken@[k],
                    ),
            decreases count - i,
        {
            let ghost earlier = *self;
            let page: PageId = PageId::new(FileId::new(0, 0, 0), first + i);
            proof {
                assert(self.absent(modeled_page(0, (first + i) as u32)));
            }
            let (one, frame) = self.admit_span_claim(page);
            let ghost held = taken@;
            taken.push(one);
            source.push(contents[i as usize]);
            proof {
                self.lemma_room_left(earlier, page, one, frame@);
                let longer = steps.push(*self);
                let more = frames.push(frame@);
                assert forall|k: int| 0 <= k < i + 1 implies #[trigger] Self::admitting_step(
                    longer,
                    taken@,
                    more,
                    first,
                    k,
                ) by {
                    if k < i {
                        assert(Self::admitting_step(steps, held, frames, first, k));
                    }
                }
                assert forall|k: int| 0 <= k < i + 1 implies self.books().entered(
                    modeled_page(0, (first + k) as u32),
                    #[trigger] taken@[k],
                ) by {
                    if k < i {
                        assert(earlier.books().entered(
                            modeled_page(0, (first + k) as u32),
                            held[k],
                        ));
                    }
                }
                assert forall|k: int| i + 1 <= k < count implies #[trigger] self.absent(
                    modeled_page(0, (first + k) as u32),
                ) by {
                    assert(earlier.absent(modeled_page(0, (first + k) as u32)));
                }
                assert(source@ =~= contents@.take(i + 1));
                steps = longer;
                frames = more;
            }
            i = i + 1;
        }
        let ghost end = *self;
        proof {
            assert(contents@.take(count as int) =~= contents@);
            assert(Self::admitting(steps, taken@, frames, first, count as int));
        }
        let token: OpToken = self.launch_span(first, &taken, source);
        proof {
            assert(self.launched(end, first, contents@, taken@));
        }
        token
    }

    /// Routes the admitted pages as one span and hands it the operation slot.
    #[verifier::rlimit(60)]
    fn launch_span(&mut self, first: u32, taken: &Vec<SpanPage>, contents: Vec<u8>) -> (token:
        OpToken)
        requires
            old(self).wf(),
            old(self).readahead is Some,
            old(self).books().operation is None,
            taken@.len() == contents@.len(),
            2 <= contents@.len() <= VECTOR_FRAMES_MAX,
            first + contents@.len() <= u32::MAX + 1,
            forall|k: int|
                0 <= k < taken@.len() ==> old(self).books().entered(
                    modeled_page(0, (first + k) as u32),
                    #[trigger] taken@[k],
                ),
        ensures
            final(self).wf(),
            token == old(self).books().token(),
            final(self).launched(*old(self), first, contents@, taken@),
    {
        let ghost before = *self;
        let ghost was = before.books();
        let ghost source = contents@;
        proof {
            before.residency.lemma_facts();
        }
        let mut control: ReadaheadControl = match self.readahead.take() {
            Some(control) => control,
            None => { vstd::pervasive::unreached() },
        };
        let count: u32 = contents.len() as u32;
        let token: OpToken = OpToken::new(0, control.turn);
        let lane: SpanSlot = match control.spans.reserve() {
            Some(lane) => lane,
            None => { vstd::pervasive::unreached() },
        };
        let mut span: ReadSpan = ReadSpan::new(
            PageId::new(FileId::new(0, 0, 0), first),
            token,
            count,
            SECTOR_BYTES,
        );
        let mut i: usize = 0;
        while i < taken.len()
            invariant
                i <= taken@.len(),
                taken@.len() == count,
                span.wf(),
                span.pages_len() == count,
                span.first_page() == modeled_page(0, first),
                span.operation() == token,
                span.granule_bytes() == SECTOR_BYTES,
                span.arrived() == 0,
                span.complete_prefix() == 0,
                forall|k: int| 0 <= k < i ==> #[trigger] span.page_at(k) == Some(taken@[k]),
                forall|k: int| i <= k < count ==> (#[trigger] span.page_at(k)) is None,
            decreases taken@.len() - i,
        {
            span.install(i, taken[i].slot, taken[i].generation);
            i = i + 1;
        }
        let ghost flown = span;
        control.spans.commit(lane, span);
        control.operation = Some(SpanRead { contents, remaining: count * SECTOR_BYTES });
        let ghost now = control;
        self.readahead = Some(control);
        proof {
            assert(now.lane() == lane.0);
            assert(now.flying() == flown);
            let read = now.operation->0;
            assert(flown.total() == count * SECTOR_BYTES);
            assert forall|k: int|
                flown.complete_prefix() <= k < flown.pages_len() implies #[trigger] now.awaits(
                flown,
                k,
                read.contents@[k],
                self.residency.frames,
            ) by {
                assert(flown.page_at(k) == Some(taken@[k]));
                assert(was.entered(modeled_page(0, (first + k) as u32), taken@[k]));
            }
            assert(now.in_order(read, flown, self.residency.frames));
        }
        token
    }

    /// One admission uses up one free frame and one open slot, and no more.
    #[verifier::rlimit(60)]
    proof fn lemma_room_left(
        self,
        before: PoolModel,
        page: PageId,
        taken: SpanPage,
        frame: ReadFrameIdx,
    )
        requires
            before.wf(),
            before.readahead is Some,
            before.books().prefetch.stats().occupied < before.books().prefetch.credits(),
            self.page_admitted(before, page, taken, frame),
        ensures
            free_frames(self.residency.frames).len() + 1 == free_frames(
                before.residency.frames,
            ).len(),
            open_slots(self.books().miss, self.books().interests).len() + 1 == open_slots(
                before.books().miss,
                before.books().interests,
            ).len(),
            self.books().prefetch.strain() == before.books().prefetch.strain() + 2,
            forall|i: int|
                0 <= i < before.books().interests@.len() ==> (
                #[trigger] self.books().interests@[i]).generation <= before.books().interests@[i].generation
                    + 1,
            self.books().entered(page, taken),
            forall|other: PageId, slot: SpanPage| #[trigger]
                before.books().entered(other, slot) ==> self.books().entered(other, slot),
            forall|other: PageId| #[trigger]
                before.absent(other) && other != page ==> self.absent(other),
            forall|f: ReadFrameIdx|
                self.residency.has(f) && #[trigger] self.residency.frames.residency(f) is Free
                    ==> before.residency.frames.residency(f) is Free && f != frame,
    {
        let (now, was) = (self.books(), before.books());
        before.residency.lemma_facts();
        was.prefetch.lemma_books();
        let free = free_frames(before.residency.frames);
        lemma_bounded_finite(free, before.residency.frames.frame_count() as int);
        assert(free_frames(self.residency.frames) =~= free.remove(frame.0 as int)) by {
            assert forall|i: int| #[trigger] free_frames(self.residency.frames).contains(i)
                <==> free.remove(frame.0 as int).contains(i) by {
                if 0 <= i < before.residency.frames.frame_count() {
                    let f = ReadFrameIdx(i as u32);
                    assert(self.residency.has(f));
                    if f != frame {
                        assert(self.residency.frames.word(f) == before.residency.frames.word(f));
                    }
                }
            }
        }
        assert(free.contains(frame.0 as int));
        let slots = open_slots(was.miss, was.interests);
        let slot = taken.slot.0 as int;
        lemma_bounded_finite(slots, was.miss.capacity() as int);
        assert(slots.contains(slot));
        assert(open_slots(now.miss, now.interests) =~= slots.remove(slot)) by {
            assert forall|i: int| #[trigger] open_slots(now.miss, now.interests).contains(i)
                <==> slots.remove(slot).contains(i) by {
                if 0 <= i < was.miss.capacity() && i != slot {
                    assert(now.miss.entry_at(i) == was.miss.entry_at(i));
                    assert(now.interests@[i] == was.interests@[i]);
                }
            }
        }
        assert forall|other: PageId, took: SpanPage| #[trigger]
            was.entered(other, took) implies now.entered(other, took) by {
            assert(took.slot.0 != slot);
            assert(now.miss.entry_at(took.slot.0 as int) == was.miss.entry_at(took.slot.0 as int));
        }
        assert forall|other: PageId| #[trigger]
            before.absent(other) && other != page implies self.absent(other) by {
            assert forall|i: int| #[trigger] now.miss.is_pending(i) implies now.miss.entry_at(
                i,
            )->0.page != other by {
                if i != slot {
                    assert(now.miss.entry_at(i) == was.miss.entry_at(i));
                    assert(was.miss.is_pending(i));
                }
            }
        }
    }

    /// The bytes of a frame once those between `from` and `to` hold `byte`.
    pub open spec fn painted(bytes: Seq<u8>, from: int, to: int, byte: u8) -> Seq<u8> {
        Seq::new(
            bytes.len(),
            |j: int|
                if from <= j < to {
                    byte
                } else {
                    bytes[j]
                },
        )
    }

    /// The frame that page `k` of the span in flight fills.
    pub open spec fn target(self, k: int) -> ReadFrameIdx {
        self.books().miss.entry_at(miss_of(self.books().flying(), k))->0.frame
    }

    /// Page `k` has what `bytes` more of the vector bring to it.
    pub open spec fn painted_page(self, other: PoolModel, bytes: u32, k: int) -> bool {
        let arrived = other.books().flying().arrived() as int;
        let frame = other.target(k);
        self.residency.frames.contents(frame) == Self::painted(
            other.residency.frames.contents(frame),
            arrived - k * SECTOR_BYTES,
            arrived + bytes - k * SECTOR_BYTES,
            other.books().operation->0.contents@[k],
        )
    }

    /// Frame `f` is one the span in flight fills, from page `from` on.
    pub open spec fn fills(self, f: ReadFrameIdx, from: int) -> bool {
        exists|k: int|
            from <= k < self.books().flying().pages_len() && #[trigger] self.target(k) == f
    }

    /// Nothing but the bytes of frames under the read has changed.
    pub open spec fn same_but_bytes(self, other: PoolModel) -> bool {
        &&& self.residency.same_but_frames(other.residency)
        &&& self.residency.frames.same_shape(other.residency.frames)
        &&& self.clock == other.clock
        &&& self.wait == other.wait
        &&& self.beside(other)
        &&& forall|f: ReadFrameIdx|
            other.residency.has(f) ==> #[trigger] self.residency.frames.word(f)
                == other.residency.frames.word(f)
        &&& forall|f: ReadFrameIdx|
            other.residency.has(f) ==> #[trigger] self.residency.frames.page(f)
                == other.residency.frames.page(f)
        &&& forall|f: ReadFrameIdx|
            other.residency.has(f) && !other.fills(
                f,
                other.books().flying().complete_prefix() as int,
            ) ==> #[trigger] self.residency.frames.contents(f) == other.residency.frames.contents(
                f,
            )
    }

    /// The bytes of the completion have been written to the frames they are
    /// for.
    pub open spec fn delivered(self, other: PoolModel, bytes: u32) -> bool {
        let span = other.books().flying();
        &&& self.same_but_bytes(other)
        &&& forall|k: int|
            span.complete_prefix() <= k < span.pages_len() ==> #[trigger] self.painted_page(
                other,
                bytes,
                k,
            )
    }

    /// The frames of two pages of the span are two frames.
    proof fn lemma_targets(self, a: int, b: int)
        requires
            self.wf(),
            self.readahead is Some,
            self.books().operation is Some,
            self.books().flying().complete_prefix() <= a < self.books().flying().pages_len(),
            self.books().flying().complete_prefix() <= b < self.books().flying().pages_len(),
        ensures
            self.residency.has(self.target(a)),
            self.residency.frames.residency(self.target(a)) is InFlight,
            self.residency.frames.page(self.target(a)) == Some(
                self.books().miss.entry_at(miss_of(self.books().flying(), a))->0.page,
            ),
            self.books().writes@.len() == self.residency.frames.frame_count(),
            self.books().writes@[self.target(a).0 as int] is Some,
            self.residency.frames.owns(self.books().writes@[self.target(a).0 as int]->0),
            self.books().writes@[self.target(a).0 as int]->0.target() == self.target(a),
            a != b ==> self.target(a) != self.target(b),
            a != b ==> miss_of(self.books().flying(), a) != miss_of(self.books().flying(), b),
    {
        let books = self.books();
        let read = books.operation->0;
        let span = books.flying();
        assert(books.awaits(span, a, read.contents@[a], self.residency.frames));
        assert(books.awaits(span, b, read.contents@[b], self.residency.frames));
        assert(flight_at(
            self.residency.frames,
            books.miss.entry_at(miss_of(span, a))->0,
        ));
        assert(flight_at(
            self.residency.frames,
            books.miss.entry_at(miss_of(span, b))->0,
        ));
        assert(write_at(
            self.residency.frames,
            self.target(a),
            books.writes@[self.target(a).0 as int],
        ));
    }

    /// Writes the bytes a completion brought to the frames they are for.
    #[verifier::rlimit(80)]
    fn deliver(&mut self, bytes: u32)
        requires
            old(self).wf(),
            old(self).readahead is Some,
            old(self).books().operation matches Some(read) && bytes <= read.remaining,
        ensures
            final(self).plane_wf(),
            final(self).residency.keeps(old(self).residency),
            final(self).books().booked(final(self).residency, final(self).clock),
            final(self).delivered(*old(self), bytes),
    {
        let ghost before = *self;
        let ghost was = before.books();
        let ghost span = was.flying();
        let ghost read = was.operation->0;
        proof {
            before.residency.lemma_facts();
            before.residency.lemma_keeps_itself();
            span.lemma_progress();
        }
        let control: ReadaheadControl = match self.readahead.take() {
            Some(control) => control,
            None => { vstd::pervasive::unreached() },
        };
        let (count, had): (u32, u32) = control.span_extent();
        let total: u32 = count * SECTOR_BYTES;
        let remaining: u32 = match &control.operation {
            Some(read) => read.remaining,
            None => 0,
        };
        let arrived: u32 = total - remaining;
        let mut k: u32 = had;
        while k < count
            invariant
                had <= k <= count <= VECTOR_FRAMES_MAX,
                had == span.complete_prefix(),
                count == span.pages_len(),
                arrived == span.arrived(),
                arrived + bytes <= count * SECTOR_BYTES,
                before.wf(),
                before.readahead is Some,
                control == was,
                was == before.books(),
                was.operation == Some(read),
                span == was.flying(),
                self.readahead is None,
                self.files == before.files,
                self.held == before.held,
                self.locked_checks == before.locked_checks,
                self.wait == before.wait,
                self.clock == before.clock,
                self.residency.wf(),
                self.residency.keeps(before.residency),
                self.residency.same_but_frames(before.residency),
                self.residency.frames.same_shape(before.residency.frames),
                forall|f: ReadFrameIdx|
                    before.residency.has(f) ==> #[trigger] self.residency.frames.word(f)
                        == before.residency.frames.word(f),
                forall|f: ReadFrameIdx|
                    before.residency.has(f) ==> #[trigger] self.residency.frames.page(f)
                        == before.residency.frames.page(f),
                forall|f: ReadFrameIdx|
                    before.residency.has(f) && !before.fills(f, had as int)
                        ==> #[trigger] self.residency.frames.contents(f)
                        == before.residency.frames.contents(f),
                forall|j: int|
                    had <= j < k ==> #[trigger] self.painted_page(before, bytes, j),
                forall|j: int|
                    k <= j < count ==> self.residency.frames.contents(
                        #[trigger] before.target(j),
                    ) == before.residency.frames.contents(before.target(j)),
            decreases count - k,
        {
            let ghost earlier = *self;
            proof {
                before.lemma_targets(k as int, k as int);
                earlier.residency.lemma_facts();
                before.residency.lemma_facts();
                assert(was.awaits(span, k as int, read.contents@[k as int], before.residency.frames));
                assert(earlier.residency.frames.contents(before.target(k as int))
                    == before.residency.frames.contents(before.target(k as int)));
                earlier.residency.frames.lemma_published(before.target(k as int));
            }
            let base: u32 = k * SECTOR_BYTES;
            let low: u32 = if arrived > base {
                arrived - base
            } else {
                0
            };
            let high: u32 = if arrived + bytes <= base {
                0
            } else if arrived + bytes - base < SECTOR_BYTES {
                arrived + bytes - base
            } else {
                SECTOR_BYTES
            };
            let frame: ReadFrameIdx = control.span_target(k);
            if low < high {
                let byte: u8 = control.span_byte(k);
                let source: Vec<u8> = repeated(byte, high - low);
                if let Some(token) = &control.writes[frame.get() as usize] {
                    self.residency.transfer(token, low, source.as_slice());
                }
                proof {
                    self.residency.lemma_facts();
                    self.residency.lemma_same_holds_frames(earlier.residency);
                    earlier.residency.lemma_same_holds_frames(before.residency);
                    self.residency.lemma_keeps_again(earlier.residency, before.residency);
                }
            }
            proof {
                assert(self.residency.frames.contents(frame) =~= Self::painted(
                    before.residency.frames.contents(frame),
                    arrived - k * SECTOR_BYTES,
                    arrived + bytes - k * SECTOR_BYTES,
                    read.contents@[k as int],
                ));
                assert(self.painted_page(before, bytes, k as int));
                assert(before.target(k as int) == frame);
                assert(before.fills(frame, had as int));
                assert forall|j: int| had <= j < k + 1 implies #[trigger] self.painted_page(
                    before,
                    bytes,
                    j,
                ) by {
                    if j < k {
                        assert(earlier.painted_page(before, bytes, j));
                        before.lemma_targets(j, k as int);
                    }
                }
                assert forall|j: int| k + 1 <= j < count implies self.residency.frames.contents(
                    #[trigger] before.target(j),
                ) == before.residency.frames.contents(before.target(j)) by {
                    before.lemma_targets(j, k as int);
                }
            }
            k = k + 1;
        }
        let ghost bare = *self;
        self.readahead = Some(control);
        proof {
            self.residency.lemma_facts();
            let now = self.books();
            assert forall|j: int| had <= j < count implies #[trigger] self.painted_page(
                before,
                bytes,
                j,
            ) by {
                assert(bare.painted_page(before, bytes, j));
            }
            assert forall|i: int| #[trigger] now.miss.is_pending(i) implies flight_at(
                self.residency.frames,
                now.miss.entry_at(i)->0,
            ) by {
                assert(flight_at(before.residency.frames, was.miss.entry_at(i)->0));
            }
            assert forall|f: ReadFrameIdx|
                self.residency.has(f) && #[trigger] self.residency.frames.residency(
                    f,
                ) is InFlight implies flown(now.miss, f) by {
                assert(before.residency.frames.residency(f) is InFlight);
            }
            assert forall|f: ReadFrameIdx| self.residency.has(f) implies write_at(
                self.residency.frames,
                f,
                #[trigger] now.writes@[f.0 as int],
            ) by {
                assert(write_at(before.residency.frames, f, was.writes@[f.0 as int]));
                assert(self.residency.frames.word(f) == before.residency.frames.word(f));
            }
        }
    }

    /// What the landing of one page of a vectored read does: its frame is
    /// published and mapped, its miss settled, one read credit returned.
    pub open spec fn page_landed(self, other: PoolModel, index: int) -> bool {
        let (now, was) = (self.books(), other.books());
        let entry = was.miss.entry_at(index)->0;
        let frame = entry.frame;
        &&& self.residency.table@ == other.residency.table@.insert(entry.page, frame)
        &&& self.residency.readers == other.residency.readers
        &&& self.residency.evict_queue == other.residency.evict_queue
        &&& self.residency.retention == other.residency.retention
        &&& self.residency.epoch == other.residency.epoch
        &&& self.residency.pins == other.residency.pins
        &&& self.residency.keeps(other.residency)
        &&& self.residency.frames.same_except(other.residency.frames, frame)
        &&& self.residency.frames.residency(frame) is Resident
        &&& self.residency.frames.generation(frame) == other.residency.frames.generation(frame) + 1
        &&& self.residency.frames.page(frame) == Some(entry.page)
        &&& self.residency.frames.contents(frame) == other.residency.frames.contents(frame)
        &&& if other.clock.speculation(frame) is Absent {
            self.clock.touched(other.clock, frame, None)
        } else {
            &&& self.clock.same_references(other.clock)
            &&& self.clock.consumed_frames() == other.clock.consumed_frames()
            &&& self.clock.completed_frames() == other.clock.completed_frames().insert(frame)
            &&& forall|f: ReadFrameIdx|
                self.clock.has(f) ==> #[trigger] self.clock.speculation(f)
                    == other.clock.speculation(f)
        }
        &&& self.files == other.files
        &&& self.held == other.held
        &&& self.wait == other.wait
        &&& self.locked_checks == other.locked_checks
        &&& self.readahead is Some
        &&& now.miss.same_except(was.miss, index)
        &&& now.miss.pending_count() == was.miss.pending_count() - 1
        &&& now.miss.entry_at(index) == (if was.interests@[index].waiters == 0 {
            None
        } else {
            Some(MissEntry { outcome: MissOutcome::Succeeded, ..entry })
        })
        &&& forall|f: ReadFrameIdx|
            f.0 < was.miss.capacity() && f != frame ==> #[trigger] now.miss.protection(f)
                == was.miss.protection(f)
        &&& now.interests == was.interests
        &&& now.prefetch == was.prefetch
        &&& now.reads_in_flight == was.reads_in_flight - 1
        &&& now.spans == was.spans
        &&& now.operation == was.operation
        &&& now.turn == was.turn
    }

    /// Publishes the frame of one completed page and settles its miss.
    #[verifier::rlimit(60)]
    fn complete_span_publish(&mut self, index: usize)
        requires
            old(self).plane_wf(),
            old(self).readahead is Some,
            old(self).books().booked(old(self).residency, old(self).clock),
            old(self).books().miss.is_pending(index as int),
            old(self).books().miss.protection(
                old(self).books().miss.entry_at(index as int)->0.frame,
            ) is None,
            old(self).residency.frames.generation(
                old(self).books().miss.entry_at(index as int)->0.frame,
            ) < FRAME_GENERATION_MAX,
        ensures
            final(self).plane_wf(),
            final(self).books().booked(final(self).residency, final(self).clock),
            final(self).page_landed(*old(self), index as int),
    {
        let ghost before = *self;
        let ghost was = before.books();
        let ghost due = was.miss.entry_at(index as int)->0;
        proof {
            before.residency.lemma_facts();
            was.miss.lemma_entry(index as int);
            assert(flight_at(before.residency.frames, due));
            assert(write_at(before.residency.frames, due.frame, was.writes@[due.frame.0 as int]));
        }
        let mut control: ReadaheadControl = match self.readahead.take() {
            Some(control) => control,
            None => { vstd::pervasive::unreached() },
        };
        let entry: MissEntry = match control.miss.entry(index) {
            Some(entry) => entry,
            None => { vstd::pervasive::unreached() },
        };
        let frame: ReadFrameIdx = entry.frame;
        let mut write: Option<InFlightFrame> = None;
        control.writes.set_and_swap(frame.get() as usize, &mut write);
        if let Some(token) = write {
            let _frame: ReadFrameIdx = self.residency.publish(token);
        }
        if self.clock.is_speculative(frame) {
            self.clock.notify_completed(frame);
        } else {
            let _stored: bool = self.clock.reference(frame);
        }
        control.miss.succeed(index);
        control.reads_in_flight = control.reads_in_flight - 1;
        let ghost settled = control.miss;
        control.miss.clean_terminal_zero(
            MissSlot::new(index),
            entry.generation,
            &control.interests,
        );
        let ghost now = control;
        self.readahead = Some(control);
        proof {
            self.residency.lemma_facts();
            assert forall|f: ReadFrameIdx| f.0 < was.miss.capacity() && f != frame implies
                #[trigger] now.miss.protection(f) == was.miss.protection(f) by {
                assert(settled.protection(f) == was.miss.protection(f));
                if was.miss.protection(f) is Some {
                    was.miss.lemma_protection(f);
                }
            }
            self.lemma_landed(before, index as int);
        }
    }

    /// The books after one landing agree with the frames again.
    #[verifier::rlimit(60)]
    proof fn lemma_landed(self, before: PoolModel, index: int)
        requires
            before.plane_wf(),
            before.readahead is Some,
            before.books().booked(before.residency, before.clock),
            before.books().miss.is_pending(index),
            self.page_landed(before, index),
            self.residency.wf(),
            self.clock.wf(),
            self.clock.frame_count() == before.clock.frame_count(),
            self.books().miss.wf(),
            self.books().miss.linked(self.books().interests),
            self.books().writes@ == before.books().writes@.update(
                before.books().miss.entry_at(index)->0.frame.0 as int,
                None,
            ),
        ensures
            self.plane_wf(),
            self.books().booked(self.residency, self.clock),
    {
        let (now, was) = (self.books(), before.books());
        let frame = was.miss.entry_at(index)->0.frame;
        before.residency.lemma_facts();
        assert(flight_at(before.residency.frames, was.miss.entry_at(index)->0));
        assert forall|i: int| #[trigger] now.miss.is_pending(i) implies was.miss.is_pending(i) && i
            != index && now.miss.entry_at(i) == was.miss.entry_at(i) by {
            if i != index {
                assert(now.miss.entry_at(i) == was.miss.entry_at(i));
            }
        }
        assert forall|i: int| #[trigger] now.miss.is_pending(i) implies flight_at(
            self.residency.frames,
            now.miss.entry_at(i)->0,
        ) by {
            assert(was.miss.is_pending(i));
            assert(flight_at(before.residency.frames, was.miss.entry_at(i)->0));
            assert(was.miss.entry_at(i)->0.frame != frame);
        }
        assert forall|f: ReadFrameIdx|
            self.residency.has(f) && #[trigger] self.residency.frames.residency(
                f,
            ) is InFlight implies flown(now.miss, f) by {
            assert(f != frame);
            assert(before.residency.frames.residency(f) is InFlight);
            assert(flown(was.miss, f));
            let i = choose|i: int| #[trigger]
                was.miss.is_pending(i) && was.miss.entry_at(i)->0.frame == f;
            assert(i != index);
            assert(now.miss.entry_at(i) == was.miss.entry_at(i));
            assert(now.miss.is_pending(i));
        }
        assert forall|f: ReadFrameIdx| self.residency.has(f) implies write_at(
            self.residency.frames,
            f,
            #[trigger] now.writes@[f.0 as int],
        ) by {
            assert(write_at(before.residency.frames, f, was.writes@[f.0 as int]));
        }
        assert forall|f: ReadFrameIdx| f.0 < now.prefetch.frames() implies (
        #[trigger] now.prefetch.entry_of(f) is Some <==> !(self.clock.speculation(
            f,
        ) is Absent)) by {
            assert(was.prefetch.entry_of(f) is Some <==> !(before.clock.speculation(f) is Absent));
            assert(self.clock.has(f));
        }
        assert forall|f: ReadFrameIdx|
            f.0 < now.prefetch.frames() && #[trigger] self.clock.speculation(
                f,
            ) is Consumed implies self.clock.consumed_frames().contains(f) by {
            assert(self.clock.has(f));
            assert(before.clock.speculation(f) is Consumed
                ==> before.clock.consumed_frames().contains(f));
        }
    }

    /// How many pages of the span are complete once `bytes` more have arrived.
    pub open spec fn reaches(self, bytes: u32) -> int {
        (self.books().flying().arrived() + bytes) / SECTOR_BYTES as int
    }

    /// The span in flight has left its route for the time of its completion.
    pub open spec fn parked(self, other: PoolModel) -> bool {
        let (now, was) = (self.books(), other.books());
        &&& self.residency == other.residency
        &&& self.clock == other.clock
        &&& self.files == other.files
        &&& self.held == other.held
        &&& self.wait == other.wait
        &&& self.locked_checks == other.locked_checks
        &&& self.readahead is Some
        &&& now.miss == was.miss
        &&& now.interests == was.interests
        &&& now.prefetch == was.prefetch
        &&& now.writes == was.writes
        &&& now.turn == was.turn
        &&& now.reads_in_flight == was.reads_in_flight
        &&& now.operation is None
        &&& now.spans.wf()
        &&& now.spans.same_except(was.spans, was.lane(), -1)
        &&& now.spans.state(was.lane()) is Completing
        &&& now.spans.vacancies() == was.spans.vacancies()
    }

    /// Step `k` of a landing: page `from + k` of the span has landed.
    pub open spec fn landing_step(steps: Seq<PoolModel>, span: ReadSpan, from: int, k: int) -> bool {
        steps[k + 1].page_landed(steps[k], miss_of(span, from + k))
    }

    /// `steps` lands pages `from` to `upto` of the span in order.
    pub open spec fn landing(steps: Seq<PoolModel>, span: ReadSpan, from: int, upto: int) -> bool {
        &&& from <= upto
        &&& steps.len() == upto - from + 1
        &&& forall|k: int|
            0 <= k < upto - from ==> #[trigger] Self::landing_step(steps, span, from, k)
    }

    /// The route after a completion: free again once the whole vector has
    /// arrived, else resumed where it stands.
    pub open spec fn resumed(self, other: PoolModel, before: PoolModel, bytes: u32) -> bool {
        let (now, was, first) = (self.books(), other.books(), before.books());
        let whole = first.operation->0.remaining == bytes;
        &&& self.residency == other.residency
        &&& self.clock == other.clock
        &&& self.files == other.files
        &&& self.held == other.held
        &&& self.wait == other.wait
        &&& self.locked_checks == other.locked_checks
        &&& self.readahead is Some
        &&& now.miss == was.miss
        &&& now.interests == was.interests
        &&& now.prefetch == was.prefetch
        &&& now.writes == was.writes
        &&& now.reads_in_flight == was.reads_in_flight
        &&& if whole {
            &&& now.operation is None
            &&& now.turn == first.turn.wrapping_add(1)
            &&& now.spans.route(0) is None
            &&& now.spans.vacancies() == seq![first.lane() as u32] + first.spans.vacancies()
        } else {
            &&& now.operation matches Some(read) && read.contents@ == first.operation->0.contents@
                && read.remaining == first.operation->0.remaining - bytes
            &&& now.turn == first.turn
            &&& now.lane() == first.lane()
            &&& now.spans.vacancies() == first.spans.vacancies()
            &&& progressed(now.flying(), first.flying(), bytes as int)
        }
    }

    /// What a completion of `bytes` does: the bytes are written to their
    /// frames, the pages they complete land in order, and the route is freed or
    /// resumed.
    pub open spec fn span_completed(self, other: PoolModel, bytes: u32) -> bool {
        exists|given: PoolModel, steps: Seq<PoolModel>|
            {
                &&& #[trigger] given.delivered(other, bytes)
                &&& #[trigger] Self::landing(
                    steps,
                    other.books().flying(),
                    other.books().flying().complete_prefix() as int,
                    other.reaches(bytes),
                )
                &&& steps[0].parked(given)
                &&& self.resumed(
                    steps[other.reaches(bytes) - other.books().flying().complete_prefix()],
                    other,
                    bytes,
                )
            }
    }

    /// Page `k` of the span that `other` had in flight is resident and holds
    /// its source byte throughout.
    pub open spec fn holds_page(self, other: PoolModel, k: int) -> bool {
        let frame = other.target(k);
        let page = other.books().miss.entry_at(miss_of(other.books().flying(), k))->0.page;
        &&& self.residency.table@.contains_key(page)
        &&& self.residency.table@[page] == frame
        &&& self.residency.frames.residency(frame) is Resident
        &&& self.residency.frames.contents(frame) == Seq::new(
            SECTOR_BYTES as nat,
            |j: int| other.books().operation->0.contents@[k],
        )
    }

    /// Page `k` of the span waits as it did in `other`.
    pub open spec fn still_waits(self, other: PoolModel, given: PoolModel, k: int) -> bool {
        let index = miss_of(other.books().flying(), k);
        let frame = other.target(k);
        &&& self.books().miss.is_pending(index)
        &&& self.books().miss.entry_at(index) == other.books().miss.entry_at(index)
        &&& self.residency.frames.word(frame) == other.residency.frames.word(frame)
        &&& self.residency.frames.contents(frame) == given.residency.frames.contents(frame)
    }

    /// A completed page holds its source.
    proof fn lemma_whole_page(self, before: PoolModel, bytes: u32, k: int)
        requires
            before.wf(),
            before.readahead is Some,
            before.books().operation matches Some(read) && bytes <= read.remaining,
            before.books().flying().complete_prefix() <= k < before.reaches(bytes),
            self.delivered(before, bytes),
            self.residency.wf(),
        ensures
            k < before.books().flying().pages_len(),
            self.residency.frames.contents(before.target(k)) == Seq::new(
                SECTOR_BYTES as nat,
                |j: int| before.books().operation->0.contents@[k],
            ),
    {
        let books = before.books();
        let span = books.flying();
        let read = books.operation->0;
        span.lemma_progress();
        let arrived = span.arrived() as int;
        assert(k < span.pages_len());
        before.lemma_targets(k, k);
        before.residency.lemma_facts();
        self.residency.lemma_facts();
        assert(books.awaits(span, k, read.contents@[k], before.residency.frames));
        assert(self.painted_page(before, bytes, k));
        let frame = before.target(k);
        before.residency.frames.lemma_published(frame);
        let old_bytes = before.residency.frames.contents(frame);
        assert(holds_prefix(old_bytes, arrived - k * SECTOR_BYTES, read.contents@[k]));
        let new_bytes = self.residency.frames.contents(frame);
        assert(arrived + bytes - k * SECTOR_BYTES >= SECTOR_BYTES);
        assert forall|j: int| 0 <= j < SECTOR_BYTES implies #[trigger] new_bytes[j]
            == read.contents@[k] by {
            if j < arrived - k * SECTOR_BYTES {
                assert(old_bytes[j] == read.contents@[k]);
            }
        }
        assert(new_bytes =~= Seq::new(SECTOR_BYTES as nat, |j: int| read.contents@[k]));
    }

    /// Completes `bytes` of the vectored read: the bytes are written, and the
    /// pages they complete become resident, in order.
    #[verifier::rlimit(100)]
    pub fn complete_span(&mut self, token: OpToken, bytes: u32)
        requires
            old(self).wf(),
            old(self).readahead is Some,
            old(self).books().operation matches Some(read) && 0 < bytes <= read.remaining,
            token == old(self).books().token(),
            forall|k: int|
                old(self).books().flying().complete_prefix() <= k < old(self).reaches(bytes) ==> {
                    &&& old(self).books().miss.protection(#[trigger] old(self).target(k)) is None
                    &&& old(self).residency.frames.generation(old(self).target(k))
                        < FRAME_GENERATION_MAX
                },
        ensures
            final(self).wf(),
            final(self).span_completed(*old(self), bytes),
            forall|k: int|
                old(self).books().flying().complete_prefix() <= k < old(self).reaches(bytes)
                    ==> #[trigger] final(self).holds_page(*old(self), k),
    {
        let ghost before = *self;
        let ghost was = before.books();
        let ghost flying = was.flying();
        let ghost read = was.operation->0;
        proof {
            before.residency.lemma_facts();
            flying.lemma_progress();
        }
        self.deliver(bytes);
        let ghost given = *self;
        proof {
            given.residency.lemma_facts();
        }
        let mut control: ReadaheadControl = match self.readahead.take() {
            Some(control) => control,
            None => { vstd::pervasive::unreached() },
        };
        let operation: SpanRead = match control.operation.take() {
            Some(operation) => operation,
            None => { vstd::pervasive::unreached() },
        };
        let (lane, mut span): (SpanSlot, ReadSpan) = match control.spans.completing(token) {
            Some(taken) => taken,
            None => { vstd::pervasive::unreached() },
        };
        let had: u32 = span.published();
        let newly: u32 = span.advance(bytes);
        let upto: u32 = had + newly;
        let ghost advanced = span;
        proof {
            advanced.lemma_progress();
            assert(upto == before.reaches(bytes));
            assert(advanced.installed()) by {
                assert forall|k: int| 0 <= k < advanced.pages_len() implies (
                #[trigger] advanced.page_at(k)) is Some by {
                    assert(flying.page_at(k) is Some);
                }
            }
        }
        self.readahead = Some(control);
        let ghost start = *self;
        let ghost mut steps: Seq<PoolModel> = seq![start];
        proof {
            assert(start.parked(given));
            assert forall|k: int| had <= k < advanced.pages_len() implies
                #[trigger] start.still_waits(before, given, k) by {
                before.lemma_targets(k, k);
                assert(was.awaits(flying, k, read.contents@[k], before.residency.frames));
            }
        }
        let mut ordinal: u32 = had;
        while ordinal < upto
            invariant
                had <= ordinal <= upto <= advanced.pages_len(),
                had == flying.complete_prefix(),
                upto == before.reaches(bytes),
                span == advanced,
                advanced.wf(),
                advanced.installed(),
                advanced.pages_len() == flying.pages_len(),
                forall|k: int|
                    0 <= k < flying.pages_len() ==> #[trigger] advanced.page_at(k)
                        == flying.page_at(k),
                before.wf(),
                before.readahead is Some,
                was == before.books(),
                was.operation == Some(read),
                bytes <= read.remaining,
                flying == was.flying(),
                given.delivered(before, bytes),
                given.residency.wf(),
                start.parked(given),
                self.plane_wf(),
                self.readahead is Some,
                self.books().booked(self.residency, self.clock),
                self.books().spans == start.books().spans,
                self.books().operation is None,
                self.books().turn == was.turn,
                self.residency.frames.same_shape(before.residency.frames),
                self.books().miss.capacity() == was.miss.capacity(),
                forall|k: int|
                    ordinal <= k < upto ==> {
                        &&& self.books().miss.protection(#[trigger] before.target(k)) is None
                        &&& before.residency.frames.generation(before.target(k))
                            < FRAME_GENERATION_MAX
                    },
                forall|k: int|
                    ordinal <= k < advanced.pages_len() ==> #[trigger] self.still_waits(
                        before,
                        given,
                        k,
                    ),
                forall|k: int|
                    had <= k < ordinal ==> #[trigger] self.holds_page(before, k),
                steps.len() == ordinal - had + 1,
                steps[0] == start,
                steps[ordinal - had] == *self,
                forall|k: int|
                    0 <= k < ordinal - had ==> #[trigger] Self::landing_step(
                        steps,
                        flying,
                        had as int,
                        k,
                    ),
            decreases upto - ordinal,
        {
            let ghost earlier = *self;
            let ghost k0 = ordinal as int;
            proof {
                assert(earlier.still_waits(before, given, k0));
                before.lemma_targets(k0, k0);
                given.lemma_whole_page(before, bytes, k0);
                assert(advanced.page_at(k0) is Some);
                assert(advanced.page_at(k0) == flying.page_at(k0));
                assert(earlier.books().miss.protection(before.target(k0)) is None);
            }
            let index: usize = match span.page(ordinal) {
                Some(page) => page.slot.index(),
                None => { vstd::pervasive::unreached() },
            };
            self.complete_span_publish(index);
            proof {
                assert(index == miss_of(flying, k0));
                assert(self.holds_page(before, k0));
                assert forall|k: int| had <= k < ordinal + 1 implies #[trigger] self.holds_page(
                    before,
                    k,
                ) by {
                    if k < ordinal {
                        assert(earlier.holds_page(before, k));
                        before.lemma_targets(k, k0);
                        assert(was.awaits(
                            flying,
                            k,
                            read.contents@[k],
                            before.residency.frames,
                        ));
                        assert(was.awaits(
                            flying,
                            k0,
                            read.contents@[k0],
                            before.residency.frames,
                        ));
                    }
                }
                assert forall|k: int|
                    ordinal + 1 <= k < advanced.pages_len() implies #[trigger] self.still_waits(
                    before,
                    given,
                    k,
                ) by {
                    assert(earlier.still_waits(before, given, k));
                    before.lemma_targets(k, k0);
                }
                assert forall|k: int| ordinal + 1 <= k < upto implies {
                    &&& self.books().miss.protection(#[trigger] before.target(k)) is None
                    &&& before.residency.frames.generation(before.target(k))
                        < FRAME_GENERATION_MAX
                } by {
                    assert(earlier.books().miss.protection(before.target(k)) is None);
                    before.lemma_targets(k, k0);
                }
                let longer = steps.push(*self);
                assert forall|k: int| 0 <= k < ordinal + 1 - had implies
                    #[trigger] Self::landing_step(longer, flying, had as int, k) by {
                    if k < ordinal - had {
                        assert(Self::landing_step(steps, flying, had as int, k));
                    }
                }
                steps = longer;
            }
            ordinal = ordinal + 1;
        }
        let ghost end = *self;
        proof {
            assert(Self::landing(steps, flying, had as int, upto as int));
        }
        let mut control: ReadaheadControl = match self.readahead.take() {
            Some(control) => control,
            None => { vstd::pervasive::unreached() },
        };
        if span.is_complete() {
            control.spans.finish(lane, token);
            control.turn = control.turn.wrapping_add(1);
        } else {
            control.spans.resume(lane, span);
            control.operation = Some(
                SpanRead {
                    contents: operation.contents,
                    remaining: operation.remaining - bytes,
                },
            );
        }
        let ghost now = control;
        self.readahead = Some(control);
        proof {
            if read.remaining != bytes {
                assert(now.lane() == lane.0);
                assert(now.flying() == advanced);
                let rest = now.operation->0;
                assert forall|k: int|
                    advanced.complete_prefix() <= k
                        < advanced.pages_len() implies #[trigger] now.awaits(
                    advanced,
                    k,
                    rest.contents@[k],
                    self.residency.frames,
                ) by {
                    assert(end.still_waits(before, given, k));
                    before.lemma_targets(k, k);
                    assert(was.awaits(flying, k, read.contents@[k], before.residency.frames));
                    assert(given.painted_page(before, bytes, k));
                    assert(advanced.page_at(k) == flying.page_at(k));
                    let frame = before.target(k);
                    let old_bytes = before.residency.frames.contents(frame);
                    let new_bytes = self.residency.frames.contents(frame);
                    let arrived = flying.arrived() as int;
                    assert forall|j: int|
                        0 <= j < arrived + bytes - k * SECTOR_BYTES && j
                            < new_bytes.len() implies #[trigger] new_bytes[j]
                        == read.contents@[k] by {
                        if j < arrived - k * SECTOR_BYTES {
                            assert(old_bytes[j] == read.contents@[k]);
                        }
                    }
                }
                assert(now.in_order(rest, advanced, self.residency.frames));
            }
            assert(self.resumed(end, before, bytes));
            assert forall|k: int| had <= k < upto implies #[trigger] self.holds_page(
                before,
                k,
            ) by {
                assert(end.holds_page(before, k));
            }
        }
    }
}

} // verus!
