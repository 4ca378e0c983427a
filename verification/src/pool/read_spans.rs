//! Bounded routes from one logical vector read to its independent page misses.

use crate::driver::OpToken;
use crate::pool::frames::ReadFrameIdx;
use crate::pool::miss::{MissEntry, MissOutcome, MissSlot};
use crate::pool::prefetch::ledger::VECTOR_BYTES_MAX;
use crate::pool::PageId;
use vstd::prelude::*;

verus! {

/// The most pages one vectored read spans.
pub const VECTOR_FRAMES_MAX: u32 = 32;

#[derive(Debug, Clone, Copy, PartialEq, Eq, Structural)]
pub struct SpanSlot(pub u32);

/// The miss one page of a span resolves.
#[derive(Debug, Clone, Copy, PartialEq, Eq, Structural)]
pub struct SpanPage {
    pub slot: MissSlot,
    pub generation: u64,
}

/// One vectored read of `count` consecutive pages: how many of its bytes have
/// arrived and how many of its pages are published.
#[derive(Debug)]
pub struct ReadSpan {
    pages: Vec<Option<SpanPage>>,
    first: PageId,
    token: OpToken,
    count: u32,
    granule: u32,
    filled: u32,
    published: u32,
}

impl ReadSpan {
    pub closed spec fn wf(self) -> bool {
        &&& 2 <= self.count <= VECTOR_FRAMES_MAX
        &&& self.granule > 0
        &&& self.count * self.granule <= VECTOR_BYTES_MAX
        &&& self.pages@.len() == self.count
        &&& self.filled <= self.count * self.granule
        &&& self.published == self.filled / self.granule
        &&& self.first.granule_idx + self.count <= u32::MAX + 1
    }

    pub closed spec fn first_page(self) -> PageId {
        self.first
    }

    pub closed spec fn operation(self) -> OpToken {
        self.token
    }

    pub closed spec fn pages_len(self) -> nat {
        self.count as nat
    }

    pub closed spec fn granule_bytes(self) -> nat {
        self.granule as nat
    }

    pub closed spec fn arrived(self) -> nat {
        self.filled as nat
    }

    /// The pages whose bytes have all arrived.
    pub closed spec fn complete_prefix(self) -> nat {
        self.published as nat
    }

    pub open spec fn total(self) -> nat {
        self.pages_len() * self.granule_bytes()
    }

    /// The miss of page `ordinal`, once installed.
    pub closed spec fn page_at(self, ordinal: int) -> Option<SpanPage> {
        self.pages@[ordinal]
    }

    pub open spec fn installed(self) -> bool {
        forall|k: int| 0 <= k < self.pages_len() ==> (#[trigger] self.page_at(k)) is Some
    }

    pub fn new(first: PageId, token: OpToken, count: u32, granule: u32) -> (span: Self)
        requires
            2 <= count <= VECTOR_FRAMES_MAX,
            granule > 0,
            count * granule <= VECTOR_BYTES_MAX,
            first.granule_idx + count <= u32::MAX + 1,
        ensures
            span.wf(),
            span.first_page() == first,
            span.operation() == token,
            span.pages_len() == count,
            span.granule_bytes() == granule,
            span.arrived() == 0,
            span.complete_prefix() == 0,
            forall|k: int| 0 <= k < count ==> (#[trigger] span.page_at(k)) is None,
    {
        let mut pages: Vec<Option<SpanPage>> = Vec::new();
        let mut i: u32 = 0;
        while i < count
            invariant
                i <= count,
                pages@.len() == i,
                forall|k: int| 0 <= k < i ==> (#[trigger] pages@[k]) is None,
            decreases count - i,
        {
            pages.push(None);
            i = i + 1;
        }
        assert(0u32 / granule == 0) by (nonlinear_arith)
            requires
                granule > 0,
        ;
        ReadSpan { pages, first, token, count, granule, filled: 0, published: 0 }
    }

    /// Everything but the installed pages.
    pub open spec fn same_progress(self, other: ReadSpan) -> bool {
        &&& self.first_page() == other.first_page()
        &&& self.operation() == other.operation()
        &&& self.pages_len() == other.pages_len()
        &&& self.granule_bytes() == other.granule_bytes()
        &&& self.arrived() == other.arrived()
        &&& self.complete_prefix() == other.complete_prefix()
    }

    /// Ties page `ordinal` to its miss, once.
    pub fn install(&mut self, ordinal: usize, slot: MissSlot, generation: u64)
        requires
            old(self).wf(),
            ordinal < old(self).pages_len(),
            old(self).page_at(ordinal as int) is None,
        ensures
            final(self).wf(),
            final(self).same_progress(*old(self)),
            forall|k: int|
                0 <= k < old(self).pages_len() ==> #[trigger] final(self).page_at(k) == (if k
                    == ordinal {
                    Some(SpanPage { slot, generation })
                } else {
                    old(self).page_at(k)
                }),
    {
        self.pages.set(ordinal, Some(SpanPage { slot, generation }));
    }

    /// `entry` is the pending miss of page `ordinal`, filling `frame`.
    pub open spec fn resolves(self, ordinal: int, entry: MissEntry, frame: ReadFrameIdx) -> bool {
        &&& self.page_at(ordinal) matches Some(page) && entry.generation == page.generation
        &&& entry.outcome == MissOutcome::Pending
        &&& entry.frame == frame
        &&& entry.page.file == self.first_page().file
        &&& entry.page.granule_idx == self.first_page().granule_idx + ordinal
    }

    /// The miss slot of page `ordinal`.
    pub fn page(&self, ordinal: u32) -> (page: Option<SpanPage>)
        requires
            self.wf(),
            ordinal < self.pages_len(),
        ensures
            page == self.page_at(ordinal as int),
    {
        self.pages[ordinal as usize]
    }

    pub fn count(&self) -> (count: u32)
        ensures
            count == self.pages_len(),
    {
        self.count
    }

    pub fn token(&self) -> (token: OpToken)
        ensures
            token == self.operation(),
    {
        self.token
    }

    pub fn first(&self) -> (first: PageId)
        ensures
            first == self.first_page(),
    {
        self.first
    }

    pub fn published(&self) -> (published: u32)
        ensures
            published == self.complete_prefix(),
    {
        self.published
    }

    /// Takes in `bytes` more bytes and returns how many pages they complete.
    pub fn advance(&mut self, bytes: u32) -> (newly: u32)
        requires
            old(self).wf(),
            old(self).arrived() + bytes <= old(self).total(),
        ensures
            final(self).wf(),
            final(self).first_page() == old(self).first_page(),
            final(self).operation() == old(self).operation(),
            final(self).pages_len() == old(self).pages_len(),
            final(self).granule_bytes() == old(self).granule_bytes(),
            final(self).arrived() == old(self).arrived() + bytes,
            final(self).complete_prefix() == final(self).arrived() / final(self).granule_bytes(),
            final(self).complete_prefix() == old(self).complete_prefix() + newly,
            final(self).complete_prefix() <= final(self).pages_len(),
            final(self).complete_prefix() == final(self).pages_len() <==> final(self).arrived()
                == final(self).total(),
            forall|k: int|
                0 <= k < old(self).pages_len() ==> #[trigger] final(self).page_at(k) == old(
                    self,
                ).page_at(k),
    {
        let before: u32 = self.published;
        let ghost had = self.filled;
        proof {
            lemma_prefix(had as int, bytes as int, self.granule as int, self.count as int);
        }
        self.filled = self.filled + bytes;
        self.published = self.filled / self.granule;
        self.published - before
    }

    /// How far the span has come.
    pub proof fn lemma_progress(self)
        requires
            self.wf(),
        ensures
            2 <= self.pages_len() <= VECTOR_FRAMES_MAX,
            self.granule_bytes() > 0,
            self.arrived() <= self.total() <= VECTOR_BYTES_MAX,
            self.complete_prefix() == self.arrived() / self.granule_bytes(),
            self.complete_prefix() <= self.pages_len(),
            self.first_page().granule_idx + self.pages_len() <= u32::MAX + 1,
    {
        lemma_prefix(0, self.filled as int, self.granule as int, self.count as int);
    }

    /// Whether every byte has arrived.
    pub fn is_complete(&self) -> (complete: bool)
        requires
            self.wf(),
        ensures
            complete == (self.arrived() == self.total()),
    {
        proof {
            assert(self.count * self.granule >= 0) by (nonlinear_arith)
                requires
                    self.count >= 0,
                    self.granule >= 0,
            ;
        }
        self.filled == self.count * self.granule
    }
}

proof fn lemma_prefix(had: int, more: int, granule: int, count: int)
    requires
        granule > 0,
        0 <= had,
        0 <= more,
        0 <= count,
        had + more <= count * granule,
    ensures
        had / granule <= (had + more) / granule <= count,
        (had + more) / granule == count <==> had + more == count * granule,
{
    vstd::arithmetic::div_mod::lemma_div_is_ordered(had, had + more, granule);
    vstd::arithmetic::div_mod::lemma_div_is_ordered(had + more, count * granule, granule);
    vstd::arithmetic::div_mod::lemma_div_by_multiple(count, granule);
    vstd::arithmetic::div_mod::lemma_fundamental_div_mod(had + more, granule);
    if (had + more) / granule == count {
        assert(granule * count == count * granule) by (nonlinear_arith);
    }
}

#[derive(Debug)]
enum State {
    Free(Option<SpanSlot>),
    Preparing,
    InFlight(ReadSpan),
    Completing,
}

#[derive(Debug, Clone, Copy, PartialEq, Eq, Structural)]
struct Route {
    token: OpToken,
    slot: SpanSlot,
}

/// Where a route stands.
#[derive(Debug)]
pub enum RouteState {
    Vacant,
    Preparing,
    InFlight(ReadSpan),
    Completing,
}

pub struct ReadSpans {
    slots: Vec<State>,
    operations: Vec<Option<Route>>,
    free: Option<SpanSlot>,
    order: Ghost<Seq<u32>>,
}

impl ReadSpans {
    pub closed spec fn capacity(self) -> nat {
        self.slots@.len()
    }

    pub closed spec fn operation_slots(self) -> nat {
        self.operations@.len()
    }

    /// Where the route in slot `i` stands.
    pub closed spec fn state(self, i: int) -> RouteState {
        match self.slots@[i] {
            State::Free(_) => RouteState::Vacant,
            State::Preparing => RouteState::Preparing,
            State::InFlight(span) => RouteState::InFlight(span),
            State::Completing => RouteState::Completing,
        }
    }

    /// The route of driver slot `o`: the operation it serves and its slot.
    pub closed spec fn route(self, o: int) -> Option<(OpToken, SpanSlot)> {
        match self.operations@[o] {
            Some(route) => Some((route.token, route.slot)),
            None => None,
        }
    }

    /// The vacant slots, next to be reserved first.
    pub closed spec fn vacancies(self) -> Seq<u32> {
        self.order@
    }

    spec fn chained(self) -> bool {
        let order = self.order@;
        &&& order.no_duplicates()
        &&& self.free == (if order.len() == 0 {
            None
        } else {
            Some(SpanSlot(order[0]))
        })
        &&& forall|k: int|
            0 <= k < order.len() ==> (#[trigger] order[k]) < self.slots@.len()
                && self.slots@[order[k] as int] == State::Free(
                if k + 1 < order.len() {
                    Some(SpanSlot(order[k + 1]))
                } else {
                    None
                },
            )
        &&& forall|i: int|
            0 <= i < self.slots@.len() && (#[trigger] self.slots@[i]) is Free ==> order.contains(
                i as u32,
            )
    }

    pub closed spec fn wf(self) -> bool {
        &&& self.slots@.len() <= u32::MAX
        &&& self.operations@.len() <= u32::MAX
        &&& self.chained()
        &&& forall|i: int|
            0 <= i < self.slots@.len() && (#[trigger] self.slots@[i]) is InFlight ==> {
                let span = self.slots@[i]->InFlight_0;
                &&& span.wf()
                &&& span.installed()
                &&& span.operation().slot < self.operations@.len()
                &&& self.operations@[span.operation().slot as int] == Some(
                    Route { token: span.operation(), slot: SpanSlot(i as u32) },
                )
            }
        &&& forall|o: int|
            0 <= o < self.operations@.len() && (#[trigger] self.operations@[o]) is Some ==> {
                let route = self.operations@[o]->0;
                &&& route.token.slot == o
                &&& route.slot.0 < self.slots@.len()
                &&& self.slots@[route.slot.0 as int] is InFlight
                    || self.slots@[route.slot.0 as int] is Completing
            }
        &&& forall|a: int, b: int|
            0 <= a < b < self.operations@.len() && (#[trigger] self.operations@[a]) is Some && (
            #[trigger] self.operations@[b]) is Some ==> self.operations@[a]->0.slot
                != self.operations@[b]->0.slot
    }

    /// `reads` vacant routes over a driver of `operations` slots.
    pub fn new(reads: u32, operations: u32) -> (spans: Self)
        requires
            operations > 0,
        ensures
            spans.wf(),
            spans.capacity() == reads,
            spans.operation_slots() == operations,
            spans.vacancies() == Seq::new(reads as nat, |k: int| (reads - 1 - k) as u32),
            forall|i: int| 0 <= i < reads ==> (#[trigger] spans.state(i)) is Vacant,
            forall|o: int| 0 <= o < operations ==> (#[trigger] spans.route(o)) is None,
    {
        let mut slots: Vec<State> = Vec::new();
        let mut next: Option<SpanSlot> = None;
        let mut i: u32 = 0;
        while i < reads
            invariant
                i <= reads,
                slots@.len() == i,
                next == (if i == 0 {
                    None
                } else {
                    Some(SpanSlot((i - 1) as u32))
                }),
                forall|k: int|
                    0 <= k < i ==> #[trigger] slots@[k] == State::Free(
                        if k == 0 {
                            None
                        } else {
                            Some(SpanSlot((k - 1) as u32))
                        },
                    ),
            decreases reads - i,
        {
            slots.push(State::Free(next));
            next = Some(SpanSlot(i));
            i = i + 1;
        }
        let mut routes: Vec<Option<Route>> = Vec::new();
        let mut o: u32 = 0;
        while o < operations
            invariant
                o <= operations,
                routes@.len() == o,
                forall|k: int| 0 <= k < o ==> (#[trigger] routes@[k]) is None,
            decreases operations - o,
        {
            routes.push(None);
            o = o + 1;
        }
        let spans = ReadSpans {
            slots,
            operations: routes,
            free: next,
            order: Ghost(Seq::new(reads as nat, |k: int| (reads - 1 - k) as u32)),
        };
        proof {
            let order = spans.order@;
            assert forall|i: int| 0 <= i < spans.slots@.len() && (
            #[trigger] spans.slots@[i]) is Free implies order.contains(i as u32) by {
                assert(order[reads - 1 - i] == i as u32);
            }
            assert forall|k: int| 0 <= k < order.len() implies (#[trigger] order[k])
                < spans.slots@.len() && spans.slots@[order[k] as int] == State::Free(
                if k + 1 < order.len() {
                    Some(SpanSlot(order[k + 1]))
                } else {
                    None
                },
            ) by {
                assert(spans.slots@[reads - 1 - k] == State::Free(
                    if reads - 1 - k == 0 {
                        None
                    } else {
                        Some(SpanSlot((reads - 1 - k - 1) as u32))
                    },
                ));
            }
        }
        spans
    }

    pub fn try_new(reads: u32, operations: u32) -> (spans: Option<Self>)
        requires
            operations > 0,
        ensures
            spans matches Some(s) && s.wf() && s.capacity() == reads && s.operation_slots()
                == operations,
    {
        Some(Self::new(reads, operations))
    }

    /// Every route but slot `i`, and every driver slot but `o`, as in `other`.
    pub open spec fn same_except(self, other: ReadSpans, i: int, o: int) -> bool {
        &&& self.capacity() == other.capacity()
        &&& self.operation_slots() == other.operation_slots()
        &&& forall|k: int|
            0 <= k < self.capacity() && k != i ==> #[trigger] self.state(k) == other.state(k)
        &&& forall|k: int|
            0 <= k < self.operation_slots() && k != o ==> #[trigger] self.route(k) == other.route(k)
    }

    /// Takes a vacant route, if one is left.
    pub fn reserve(&mut self) -> (slot: Option<SpanSlot>)
        requires
            old(self).wf(),
        ensures
            final(self).wf(),
            slot is None <==> old(self).vacancies().len() == 0,
            match slot {
                Some(s) => {
                    &&& s.0 == old(self).vacancies()[0]
                    &&& s.0 < old(self).capacity()
                    &&& old(self).state(s.0 as int) is Vacant
                    &&& final(self).state(s.0 as int) is Preparing
                    &&& final(self).same_except(*old(self), s.0 as int, -1)
                    &&& final(self).vacancies() == old(self).vacancies().subrange(
                        1,
                        old(self).vacancies().len() as int,
                    )
                },
                None => *final(self) == *old(self),
            },
    {
        let ghost start = *self;
        match self.free {
            Some(slot) => {
                assert(start.order@[0] == slot.0);
                self.free = match &self.slots[slot.0 as usize] {
                    State::Free(next) => *next,
                    _ => None,
                };
                self.slots.set(slot.0 as usize, State::Preparing);
                proof {
                    let rest = start.order@.subrange(1, start.order@.len() as int);
                    self.order@ = rest;
                    assert forall|k: int| 0 <= k < rest.len() implies (#[trigger] rest[k])
                        < self.slots@.len() && self.slots@[rest[k] as int] == State::Free(
                        if k + 1 < rest.len() {
                            Some(SpanSlot(rest[k + 1]))
                        } else {
                            None
                        },
                    ) by {
                        assert(start.order@[k + 1] == rest[k]);
                        assert(start.order@[k + 1] != start.order@[0]);
                    }
                    assert forall|i: int| 0 <= i < self.slots@.len() && (
                    #[trigger] self.slots@[i]) is Free implies rest.contains(i as u32) by {
                        assert(start.slots@[i] is Free);
                        let k = choose|k: int|
                            0 <= k < start.order@.len() && start.order@[k] == i as u32;
                        assert(k > 0);
                        assert(rest[k - 1] == i as u32);
                    }
                    assert(rest.no_duplicates()) by {
                        assert forall|a: int, b: int|
                            0 <= a < rest.len() && 0 <= b < rest.len() && a != b implies rest[a]
                            != rest[b] by {
                            assert(start.order@[a + 1] != start.order@[b + 1]);
                        }
                    }
                    assert forall|i: int| 0 <= i < self.slots@.len() && (
                    #[trigger] self.slots@[i]) is InFlight implies {
                        let span = self.slots@[i]->InFlight_0;
                        &&& span.wf()
                        &&& span.installed()
                        &&& span.operation().slot < self.operations@.len()
                        &&& self.operations@[span.operation().slot as int] == Some(
                            Route { token: span.operation(), slot: SpanSlot(i as u32) },
                        )
                    } by {
                        assert(start.slots@[i] is InFlight);
                    }
                    assert forall|o: int| 0 <= o < self.operations@.len() && (
                    #[trigger] self.operations@[o]) is Some implies {
                        let route = self.operations@[o]->0;
                        &&& route.token.slot == o
                        &&& route.slot.0 < self.slots@.len()
                        &&& self.slots@[route.slot.0 as int] is InFlight
                            || self.slots@[route.slot.0 as int] is Completing
                    } by {
                        assert(start.operations@[o] is Some);
                    }
                }
                Some(slot)
            },
            None => None,
        }
    }

    /// Puts slot `slot` back in front of the vacant ones.
    fn vacate(&mut self, slot: SpanSlot)
        requires
            old(self).chained(),
            old(self).slots@.len() <= u32::MAX,
            slot.0 < old(self).slots@.len(),
            !(old(self).slots@[slot.0 as int] is Free),
        ensures
            final(self).chained(),
            final(self).operations == old(self).operations,
            final(self).slots@.len() == old(self).slots@.len(),
            final(self).slots@[slot.0 as int] is Free,
            forall|i: int|
                0 <= i < old(self).slots@.len() && i != slot.0 ==> #[trigger] final(self).slots@[i]
                    == old(self).slots@[i],
            final(self).order@ == seq![slot.0] + old(self).order@,
    {
        let ghost start = *self;
        let next: Option<SpanSlot> = self.free;
        self.slots.set(slot.0 as usize, State::Free(next));
        self.free = Some(slot);
        proof {
            let longer = seq![slot.0] + start.order@;
            self.order@ = longer;
            assert(!start.order@.contains(slot.0)) by {
                if start.order@.contains(slot.0) {
                    let k = choose|k: int| 0 <= k < start.order@.len() && start.order@[k] == slot.0;
                    assert(start.slots@[start.order@[k] as int] is Free);
                }
            }
            assert forall|k: int| 0 <= k < longer.len() implies (#[trigger] longer[k])
                < self.slots@.len() && self.slots@[longer[k] as int] == State::Free(
                if k + 1 < longer.len() {
                    Some(SpanSlot(longer[k + 1]))
                } else {
                    None
                },
            ) by {
                if k > 0 {
                    assert(longer[k] == start.order@[k - 1]);
                    assert(start.order@.contains(start.order@[k - 1]));
                    if k + 1 < longer.len() {
                        assert(longer[k + 1] == start.order@[k]);
                    }
                } else if longer.len() > 1 {
                    assert(longer[1] == start.order@[0]);
                }
            }
            assert(longer.no_duplicates()) by {
                assert forall|a: int, b: int|
                    0 <= a < longer.len() && 0 <= b < longer.len() && a != b implies longer[a]
                    != longer[b] by {
                    if a > 0 {
                        assert(longer[a] == start.order@[a - 1]);
                        assert(start.order@.contains(start.order@[a - 1]));
                    }
                    if b > 0 {
                        assert(longer[b] == start.order@[b - 1]);
                        assert(start.order@.contains(start.order@[b - 1]));
                    }
                }
            }
            assert forall|i: int| 0 <= i < self.slots@.len() && (
            #[trigger] self.slots@[i]) is Free implies longer.contains(i as u32) by {
                if i == slot.0 {
                    assert(longer[0] == i as u32);
                } else {
                    assert(start.slots@[i] is Free);
                    let k = choose|k: int|
                        0 <= k < start.order@.len() && start.order@[k] == i as u32;
                    assert(longer[k + 1] == i as u32);
                }
            }
        }
    }

    /// Gives a reserved route back.
    pub fn cancel(&mut self, slot: SpanSlot)
        requires
            old(self).wf(),
            slot.0 < old(self).capacity(),
            old(self).state(slot.0 as int) is Preparing,
        ensures
            final(self).wf(),
            final(self).state(slot.0 as int) is Vacant,
            final(self).same_except(*old(self), slot.0 as int, -1),
            final(self).vacancies() == seq![slot.0] + old(self).vacancies(),
    {
        let ghost start = *self;
        self.vacate(slot);
        proof {
            assert forall|i: int| 0 <= i < self.slots@.len() && (
            #[trigger] self.slots@[i]) is InFlight implies {
                let span = self.slots@[i]->InFlight_0;
                &&& span.wf()
                &&& span.installed()
                &&& span.operation().slot < self.operations@.len()
                &&& self.operations@[span.operation().slot as int] == Some(
                    Route { token: span.operation(), slot: SpanSlot(i as u32) },
                )
            } by {
                assert(start.slots@[i] is InFlight);
            }
            assert forall|o: int| 0 <= o < self.operations@.len() && (
            #[trigger] self.operations@[o]) is Some implies {
                let route = self.operations@[o]->0;
                &&& route.token.slot == o
                &&& route.slot.0 < self.slots@.len()
                &&& self.slots@[route.slot.0 as int] is InFlight
                    || self.slots@[route.slot.0 as int] is Completing
            } by {
                assert(start.operations@[o] is Some);
            }
        }
    }

    /// Puts an installed span in flight on a reserved route.
    pub fn commit(&mut self, slot: SpanSlot, span: ReadSpan)
        requires
            old(self).wf(),
            slot.0 < old(self).capacity(),
            old(self).state(slot.0 as int) is Preparing,
            span.wf(),
            span.installed(),
            span.operation().slot < old(self).operation_slots(),
            old(self).route(span.operation().slot as int) is None,
        ensures
            final(self).wf(),
            final(self).state(slot.0 as int) == RouteState::InFlight(span),
            final(self).route(span.operation().slot as int) == Some((span.operation(), slot)),
            final(self).same_except(*old(self), slot.0 as int, span.operation().slot as int),
            final(self).vacancies() == old(self).vacancies(),
    {
        let ghost start = *self;
        let token: OpToken = span.token();
        self.operations.set(token.slot() as usize, Some(Route { token, slot }));
        self.slots.set(slot.0 as usize, State::InFlight(span));
        proof {
            assert forall|k: int| 0 <= k < self.order@.len() implies (#[trigger] self.order@[k])
                < self.slots@.len() && self.slots@[self.order@[k] as int] == State::Free(
                if k + 1 < self.order@.len() {
                    Some(SpanSlot(self.order@[k + 1]))
                } else {
                    None
                },
            ) by {
                assert(start.slots@[start.order@[k] as int] is Free);
            }
            assert forall|i: int| 0 <= i < self.slots@.len() && (
            #[trigger] self.slots@[i]) is Free implies self.order@.contains(i as u32) by {
                assert(start.slots@[i] is Free);
            }
            assert forall|i: int| 0 <= i < self.slots@.len() && (
            #[trigger] self.slots@[i]) is InFlight implies {
                let span = self.slots@[i]->InFlight_0;
                &&& span.wf()
                &&& span.installed()
                &&& span.operation().slot < self.operations@.len()
                &&& self.operations@[span.operation().slot as int] == Some(
                    Route { token: span.operation(), slot: SpanSlot(i as u32) },
                )
            } by {
                if i != slot.0 {
                    assert(start.slots@[i] is InFlight);
                }
            }
            assert forall|o: int| 0 <= o < self.operations@.len() && (
            #[trigger] self.operations@[o]) is Some implies {
                let route = self.operations@[o]->0;
                &&& route.token.slot == o
                &&& route.slot.0 < self.slots@.len()
                &&& self.slots@[route.slot.0 as int] is InFlight
                    || self.slots@[route.slot.0 as int] is Completing
            } by {
                if o != token.slot {
                    assert(start.operations@[o] is Some);
                }
            }
            assert forall|a: int, b: int|
                0 <= a < b < self.operations@.len() && (#[trigger] self.operations@[a]) is Some && (
                #[trigger] self.operations@[b]) is Some implies self.operations@[a]->0.slot
                != self.operations@[b]->0.slot by {
                if a != token.slot {
                    assert(start.operations@[a] is Some);
                }
                if b != token.slot {
                    assert(start.operations@[b] is Some);
                }
            }
        }
    }

    /// Takes the span of a completed operation out of its route.
    pub fn completing(&mut self, token: OpToken) -> (taken: Option<(SpanSlot, ReadSpan)>)
        requires
            old(self).wf(),
            token.slot < old(self).operation_slots(),
            old(self).route(token.slot as int) matches Some((t, s)) ==> t == token && old(
                self,
            ).state(s.0 as int) is InFlight,
        ensures
            final(self).wf(),
            taken is None <==> old(self).route(token.slot as int) is None,
            match taken {
                Some((slot, span)) => {
                    &&& old(self).route(token.slot as int) == Some((token, slot))
                    &&& slot.0 < old(self).capacity()
                    &&& old(self).state(slot.0 as int) == RouteState::InFlight(span)
                    &&& span.wf()
                    &&& span.installed()
                    &&& span.operation() == token
                    &&& final(self).state(slot.0 as int) is Completing
                    &&& final(self).same_except(*old(self), slot.0 as int, -1)
                    &&& final(self).vacancies() == old(self).vacancies()
                },
                None => *final(self) == *old(self),
            },
    {
        let ghost start = *self;
        match self.operations[token.slot() as usize] {
            Some(route) => {
                let mut state: State = State::Completing;
                self.slots.set_and_swap(route.slot.0 as usize, &mut state);
                proof {
                    self.lemma_state_changed(start, route.slot.0 as int);
                }
                match state {
                    State::InFlight(span) => Some((route.slot, span)),
                    _ => None,
                }
            },
            None => None,
        }
    }

    /// The span an operation slot has in flight.
    pub fn in_flight(&self, operation: u32) -> (span: Option<&ReadSpan>)
        requires
            self.wf(),
            operation < self.operation_slots(),
        ensures
            match span {
                Some(s) => {
                    &&& self.route(operation as int) matches Some((_, slot)) && self.state(
                        slot.0 as int,
                    ) == RouteState::InFlight(*s)
                },
                None => self.route(operation as int) matches Some((_, slot)) ==> !(self.state(
                    slot.0 as int,
                ) is InFlight),
            },
    {
        match &self.operations[operation as usize] {
            Some(route) => match &self.slots[route.slot.0 as usize] {
                State::InFlight(span) => Some(span),
                _ => None,
            },
            None => None,
        }
    }

    /// Routes stay in order when a slot moves between flight and completion.
    proof fn lemma_state_changed(self, start: Self, slot: int)
        requires
            start.wf(),
            0 <= slot < start.slots@.len(),
            start.slots@[slot] is InFlight || start.slots@[slot] is Completing,
            self.operations == start.operations,
            self.free == start.free,
            self.order == start.order,
            self.slots@.len() == start.slots@.len(),
            forall|i: int|
                0 <= i < start.slots@.len() && i != slot ==> #[trigger] self.slots@[i]
                    == start.slots@[i],
            self.slots@[slot] is Completing || (self.slots@[slot] is InFlight && ({
                let span = self.slots@[slot]->InFlight_0;
                &&& span.wf()
                &&& span.installed()
                &&& span.operation().slot < self.operations@.len()
                &&& self.operations@[span.operation().slot as int] == Some(
                    Route { token: span.operation(), slot: SpanSlot(slot as u32) },
                )
            })),
        ensures
            self.wf(),
    {
        assert forall|k: int| 0 <= k < self.order@.len() implies (#[trigger] self.order@[k])
            < self.slots@.len() && self.slots@[self.order@[k] as int] == State::Free(
            if k + 1 < self.order@.len() {
                Some(SpanSlot(self.order@[k + 1]))
            } else {
                None
            },
        ) by {
            assert(start.slots@[start.order@[k] as int] is Free);
        }
        assert forall|i: int| 0 <= i < self.slots@.len() && (
        #[trigger] self.slots@[i]) is Free implies self.order@.contains(i as u32) by {
            assert(start.slots@[i] is Free);
        }
        assert forall|i: int| 0 <= i < self.slots@.len() && (
        #[trigger] self.slots@[i]) is InFlight implies {
            let span = self.slots@[i]->InFlight_0;
            &&& span.wf()
            &&& span.installed()
            &&& span.operation().slot < self.operations@.len()
            &&& self.operations@[span.operation().slot as int] == Some(
                Route { token: span.operation(), slot: SpanSlot(i as u32) },
            )
        } by {
            if i != slot {
                assert(start.slots@[i] is InFlight);
            }
        }
        assert forall|o: int| 0 <= o < self.operations@.len() && (
        #[trigger] self.operations@[o]) is Some implies {
            let route = self.operations@[o]->0;
            &&& route.token.slot == o
            &&& route.slot.0 < self.slots@.len()
            &&& self.slots@[route.slot.0 as int] is InFlight
                || self.slots@[route.slot.0 as int] is Completing
        } by {
            assert(start.operations@[o] is Some);
        }
    }

    /// Puts a span with bytes still to come back in flight.
    pub fn resume(&mut self, slot: SpanSlot, span: ReadSpan)
        requires
            old(self).wf(),
            slot.0 < old(self).capacity(),
            old(self).state(slot.0 as int) is Completing,
            span.wf(),
            span.installed(),
            span.arrived() < span.total(),
            span.operation().slot < old(self).operation_slots(),
            old(self).route(span.operation().slot as int) == Some((span.operation(), slot)),
        ensures
            final(self).wf(),
            final(self).state(slot.0 as int) == RouteState::InFlight(span),
            final(self).same_except(*old(self), slot.0 as int, -1),
            final(self).vacancies() == old(self).vacancies(),
    {
        let ghost start = *self;
        self.slots.set(slot.0 as usize, State::InFlight(span));
        proof {
            self.lemma_state_changed(start, slot.0 as int);
        }
    }

    /// Vacates the route of a finished operation.
    pub fn finish(&mut self, slot: SpanSlot, token: OpToken)
        requires
            old(self).wf(),
            slot.0 < old(self).capacity(),
            old(self).state(slot.0 as int) is Completing,
            token.slot < old(self).operation_slots(),
            old(self).route(token.slot as int) == Some((token, slot)),
        ensures
            final(self).wf(),
            final(self).state(slot.0 as int) is Vacant,
            final(self).route(token.slot as int) is None,
            final(self).same_except(*old(self), slot.0 as int, token.slot as int),
            final(self).vacancies() == seq![slot.0] + old(self).vacancies(),
    {
        let ghost start = *self;
        self.operations.set(token.slot() as usize, None);
        self.vacate(slot);
        proof {
            assert forall|i: int| 0 <= i < self.slots@.len() && (
            #[trigger] self.slots@[i]) is InFlight implies {
                let span = self.slots@[i]->InFlight_0;
                &&& span.wf()
                &&& span.installed()
                &&& span.operation().slot < self.operations@.len()
                &&& self.operations@[span.operation().slot as int] == Some(
                    Route { token: span.operation(), slot: SpanSlot(i as u32) },
                )
            } by {
                assert(start.slots@[i] is InFlight);
            }
            assert forall|o: int| 0 <= o < self.operations@.len() && (
            #[trigger] self.operations@[o]) is Some implies {
                let route = self.operations@[o]->0;
                &&& route.token.slot == o
                &&& route.slot.0 < self.slots@.len()
                &&& self.slots@[route.slot.0 as int] is InFlight
                    || self.slots@[route.slot.0 as int] is Completing
            } by {
                assert(start.operations@[o] is Some);
                if o < token.slot {
                    assert(start.operations@[o]->0.slot
                        != start.operations@[token.slot as int]->0.slot);
                } else {
                    assert(start.operations@[token.slot as int]->0.slot
                        != start.operations@[o]->0.slot);
                }
            }
            assert forall|a: int, b: int|
                0 <= a < b < self.operations@.len() && (#[trigger] self.operations@[a]) is Some && (
                #[trigger] self.operations@[b]) is Some implies self.operations@[a]->0.slot
                != self.operations@[b]->0.slot by {
                assert(start.operations@[a] is Some && start.operations@[b] is Some);
            }
        }
    }
}

} // verus!
