//! Routing what one vectored read brought to the page misses that share it.

use crate::driver::OpToken;
use crate::error::IoError;
use crate::pool::cache::Cache;
use crate::pool::prefetch::ledger::WEAR_MAX;
use crate::pool::miss::{MissEntry, MissOutcome};
use crate::pool::read_spans::{ReadSpan, ReadSpans, RouteState, SpanSlot};
use crate::pool::control::SHORT_READ_EOF_ERRNO;
use vstd::prelude::*;

verus! {

/// The miss slot of page `ordinal` of the span.
pub open spec fn miss_of(span: ReadSpan, ordinal: int) -> int {
    span.page_at(ordinal)->0.slot.0 as int
}

/// The span with `bytes` more of it arrived.
pub open spec fn progressed(after: ReadSpan, before: ReadSpan, bytes: int) -> bool {
    &&& after.wf()
    &&& after.installed()
    &&& after.first_page() == before.first_page()
    &&& after.operation() == before.operation()
    &&& after.pages_len() == before.pages_len()
    &&& after.granule_bytes() == before.granule_bytes()
    &&& after.arrived() == before.arrived() + bytes
    &&& after.complete_prefix() == after.arrived() / after.granule_bytes()
    &&& forall|k: int|
        0 <= k < before.pages_len() ==> #[trigger] after.page_at(k) == before.page_at(k)
}

/// The bytes a completion brought.
pub open spec fn brought(result: Result<u32, IoError>) -> int {
    match result {
        Ok(bytes) => bytes as int,
        Err(_) => 0,
    }
}

/// The error number of a failure; one without a number counts as an I/O error.
pub open spec fn number_of(error: IoError) -> i32 {
    match error.raw {
        Some(errno) => errno,
        None => SHORT_READ_EOF_ERRNO,
    }
}

/// The error number a read without progress fails with.
pub open spec fn cause(result: Result<u32, IoError>) -> i32 {
    match result {
        Ok(_) => SHORT_READ_EOF_ERRNO,
        Err(error) => number_of(error),
    }
}

impl Cache {
    /// Page `ordinal` of the span is still a pending miss of this cache.
    pub open spec fn awaits(self, span: ReadSpan, ordinal: int) -> bool {
        let index = miss_of(span, ordinal);
        let entry = self.miss.entry_at(index)->0;
        self.miss.is_pending(index) && span.resolves(ordinal, entry, entry.frame)
    }

    /// Every page of the span beyond its complete prefix is a pending miss of
    /// this cache.
    pub open spec fn carries(self, span: ReadSpan) -> bool {
        &&& span.wf()
        &&& span.installed()
        &&& span.granule_bytes() == self.granule_bytes()
        &&& forall|k: int|
            span.complete_prefix() <= k < span.pages_len() ==> #[trigger] self.awaits(span, k)
    }

    /// Step `k` of a landing: page `from + k` of the span has its outcome.
    pub open spec fn landing_step(
        steps: Seq<Cache>,
        span: ReadSpan,
        from: int,
        k: int,
    ) -> bool {
        let index = miss_of(span, from + k);
        &&& steps[k + 1].landed(steps[k], index)
        &&& steps[k + 1].noticed(steps[k], steps[k].miss.entry_at(index)->0.frame)
    }

    /// `steps` lands pages `from` to `upto` of the span in order.
    pub open spec fn landing(
        steps: Seq<Cache>,
        start: Cache,
        end: Cache,
        span: ReadSpan,
        from: int,
        upto: int,
    ) -> bool {
        &&& from <= upto
        &&& steps.len() == upto - from + 1
        &&& steps[0] == start
        &&& steps[upto - from] == end
        &&& forall|k: int|
            0 <= k < upto - from ==> #[trigger] Self::landing_step(steps, span, from, k)
    }

    /// Pages `from` to `upto` of the span have landed, in order.
    pub open spec fn span_landed(self, other: Cache, span: ReadSpan, from: int, upto: int) -> bool {
        exists|steps: Seq<Cache>| #[trigger]
            Self::landing(steps, other, self, span, from, upto)
    }

    /// Step `k` of a failure: page `from + k` of the span has failed.
    pub open spec fn failing_step(
        steps: Seq<Cache>,
        span: ReadSpan,
        from: int,
        errno: i32,
        k: int,
    ) -> bool {
        steps[k + 1].failed(steps[k], miss_of(span, from + k), errno)
    }

    /// `steps` fails the pages of the span from `from` on, in order.
    pub open spec fn failing(
        steps: Seq<Cache>,
        start: Cache,
        end: Cache,
        span: ReadSpan,
        from: int,
        errno: i32,
    ) -> bool {
        let count = span.pages_len() - from;
        &&& count >= 0
        &&& steps.len() == count + 1
        &&& steps[0] == start
        &&& steps[count] == end
        &&& forall|k: int|
            0 <= k < count ==> #[trigger] Self::failing_step(steps, span, from, errno, k)
    }

    /// Every page of the span from `from` on has failed, in order.
    pub open spec fn span_failed(self, other: Cache, span: ReadSpan, from: int, errno: i32) -> bool {
        exists|steps: Seq<Cache>| #[trigger]
            Self::failing(steps, other, self, span, from, errno)
    }

    /// The misses of two pages of one span are two misses.
    proof fn lemma_apart(self, span: ReadSpan, a: int, b: int)
        requires
            self.awaits(span, a),
            self.awaits(span, b),
            a != b,
        ensures
            miss_of(span, a) != miss_of(span, b),
    {
    }

    /// The routes once a span has left them.
    pub open spec fn route_freed(
        after: ReadSpans,
        before: ReadSpans,
        token: OpToken,
        slot: SpanSlot,
    ) -> bool {
        &&& after.wf()
        &&& after.state(slot.0 as int) is Vacant
        &&& after.route(token.slot as int) is None
        &&& after.same_except(before, slot.0 as int, token.slot as int)
        &&& after.vacancies() == seq![slot.0] + before.vacancies()
    }

    /// Fails every page of the span that has not landed and frees its route.
    pub fn route_span_failure(
        &mut self,
        spans: &mut ReadSpans,
        slot: SpanSlot,
        span: &ReadSpan,
        error: IoError,
    )
        requires
            old(self).wf(),
            old(self).carries(*span),
            old(spans).wf(),
            slot.0 < old(spans).capacity(),
            old(spans).state(slot.0 as int) is Completing,
            span.operation().slot < old(spans).operation_slots(),
            old(spans).route(span.operation().slot as int) == Some((span.operation(), slot)),
            error.raw != Some(0i32),
        ensures
            final(self).wf(),
            final(self).same_shape(*old(self)),
            final(self).residency.keeps(old(self).residency),
            final(self).wear == old(self).wear,
            final(self).span_failed(
                *old(self),
                *span,
                span.complete_prefix() as int,
                number_of(error),
            ),
            Self::route_freed(*final(spans), *old(spans), span.operation(), slot),
    {
        let errno: i32 = match error.raw {
            Some(errno) => errno,
            None => SHORT_READ_EOF_ERRNO,
        };
        let ghost start = *self;
        let ghost mut steps: Seq<Cache> = seq![start];
        let first: u32 = span.published();
        let count: u32 = span.count();
        let mut ordinal: u32 = first;
        proof {
            start.lemma_facts();
            start.residency.lemma_keeps_itself();
            span.lemma_progress();
        }
        while ordinal < count
            invariant
                first <= ordinal <= count,
                first == span.complete_prefix(),
                count == span.pages_len(),
                start.wf(),
                self.wf(),
                self.same_shape(start),
                self.residency.keeps(start.residency),
                self.residency.same_holds(start.residency),
                self.wear == start.wear,
                span.wf(),
                span.installed(),
                errno != 0,
                forall|k: int| ordinal <= k < count ==> #[trigger] self.awaits(*span, k),
                steps.len() == ordinal - first + 1,
                steps[0] == start,
                steps[ordinal - first] == *self,
                forall|k: int|
                    0 <= k < ordinal - first ==> #[trigger] Self::failing_step(
                        steps,
                        *span,
                        first as int,
                        errno,
                        k,
                    ),
            decreases count - ordinal,
        {
            let ghost before = *self;
            proof {
                assert(before.awaits(*span, ordinal as int));
                before.lemma_facts();
                before.residency.lemma_facts();
                assert(span.page_at(ordinal as int) is Some);
            }
            if let Some(page) = span.page(ordinal) {
                self.finish_failure(page.slot.index(), errno);
                proof {
                    self.lemma_facts();
                    self.residency.lemma_facts();
                    self.residency.lemma_same_holds_frames(before.residency);
                    self.residency.lemma_keeps_again(before.residency, start.residency);
                    assert forall|k: int| ordinal + 1 <= k < count implies #[trigger] self.awaits(
                        *span,
                        k,
                    ) by {
                        assert(before.awaits(*span, k));
                        before.lemma_apart(*span, ordinal as int, k);
                    }
                    let longer = steps.push(*self);
                    assert forall|k: int| 0 <= k < ordinal + 1 - first implies
                        #[trigger] Self::failing_step(longer, *span, first as int, errno, k) by {
                        if k < ordinal - first {
                            assert(Self::failing_step(steps, *span, first as int, errno, k));
                        }
                    }
                    steps = longer;
                }
            }
            ordinal = ordinal + 1;
        }
        proof {
            assert(Self::failing(steps, start, *self, *span, first as int, errno));
        }
        spans.finish(slot, span.token());
    }

    /// Lands pages `from` to `upto` of the span.
    fn publish_completed(&mut self, span: &ReadSpan, from: u32, upto: u32)
        requires
            old(self).wf(),
            span.wf(),
            span.installed(),
            from <= upto <= span.pages_len(),
            forall|k: int|
                from <= k < span.pages_len() ==> #[trigger] old(self).awaits(*span, k),
            old(self).wear + (upto - from) <= WEAR_MAX,
        ensures
            final(self).wf(),
            final(self).same_shape(*old(self)),
            final(self).residency.keeps(old(self).residency),
            final(self).residency.same_holds(old(self).residency),
            final(self).wear == old(self).wear + (upto - from),
            final(self).span_landed(*old(self), *span, from as int, upto as int),
            forall|k: int|
                upto <= k < span.pages_len() ==> #[trigger] final(self).awaits(*span, k),
    {
        let ghost start = *self;
        let ghost mut steps: Seq<Cache> = seq![start];
        let mut ordinal: u32 = from;
        proof {
            start.lemma_facts();
            start.residency.lemma_keeps_itself();
        }
        while ordinal < upto
            invariant
                from <= ordinal <= upto <= span.pages_len(),
                start.wf(),
                self.wf(),
                self.same_shape(start),
                self.residency.keeps(start.residency),
                self.residency.same_holds(start.residency),
                self.wear == start.wear + (ordinal - from),
                start.wear + (upto - from) <= WEAR_MAX,
                span.wf(),
                span.installed(),
                forall|k: int|
                    ordinal <= k < span.pages_len() ==> #[trigger] self.awaits(*span, k),
                steps.len() == ordinal - from + 1,
                steps[0] == start,
                steps[ordinal - from] == *self,
                forall|k: int|
                    0 <= k < ordinal - from ==> #[trigger] Self::landing_step(
                        steps,
                        *span,
                        from as int,
                        k,
                    ),
            decreases upto - ordinal,
        {
            let ghost before = *self;
            proof {
                assert(before.awaits(*span, ordinal as int));
                before.lemma_facts();
                before.residency.lemma_facts();
                assert(span.page_at(ordinal as int) is Some);
            }
            if let Some(page) = span.page(ordinal) {
                self.finish_success(page.slot.index());
                proof {
                    self.lemma_facts();
                    self.residency.lemma_facts();
                    assert(self.residency.same_holds(before.residency));
                    self.residency.lemma_keeps_again(before.residency, start.residency);
                    assert forall|k: int|
                        ordinal + 1 <= k < span.pages_len() implies #[trigger] self.awaits(
                        *span,
                        k,
                    ) by {
                        assert(before.awaits(*span, k));
                        before.lemma_apart(*span, ordinal as int, k);
                    }
                    let longer = steps.push(*self);
                    assert forall|k: int| 0 <= k < ordinal + 1 - from implies
                        #[trigger] Self::landing_step(longer, *span, from as int, k) by {
                        if k < ordinal - from {
                            assert(Self::landing_step(steps, *span, from as int, k));
                        }
                    }
                    steps = longer;
                }
            }
            ordinal = ordinal + 1;
        }
        proof {
            assert(Self::landing(steps, start, *self, *span, from as int, upto as int));
        }
    }

    /// The span an operation carries.
    pub open spec fn span_of(spans: ReadSpans, slot: SpanSlot) -> ReadSpan {
        spans.state(slot.0 as int)->InFlight_0
    }

    /// The route of an operation.
    pub open spec fn lane_of(spans: ReadSpans, token: OpToken) -> SpanSlot {
        match spans.route(token.slot as int) {
            Some((_, slot)) => slot,
            None => SpanSlot(0),
        }
    }

    /// Routes what a vectored read brought: `Ok` with the bytes that arrived,
    /// or the failure. Every page the bytes complete lands,
    /// in order. A finished span leaves its route. A span that made progress is
    /// handed back, its route held open, for its remainder to be read; one that
    /// made none fails, with the error or as an early end of file.
    pub fn route_span_completion(
        &mut self,
        spans: &mut ReadSpans,
        token: OpToken,
        result: Result<u32, IoError>,
    ) -> (unfinished: Option<(SpanSlot, ReadSpan)>)
        requires
            old(self).wf(),
            old(spans).wf(),
            token.slot < old(spans).operation_slots(),
            old(spans).route(token.slot as int) matches Some((current, slot)) && current == token
                && old(spans).state(slot.0 as int) is InFlight,
            old(self).carries(Self::span_of(*old(spans), Self::lane_of(*old(spans), token))),
            result matches Ok(bytes) ==> Self::span_of(
                *old(spans),
                Self::lane_of(*old(spans), token),
            ).arrived() + bytes <= Self::span_of(
                *old(spans),
                Self::lane_of(*old(spans), token),
            ).total(),
            result matches Err(error) ==> error.raw != Some(0i32),
            old(self).wear + crate::pool::read_spans::VECTOR_FRAMES_MAX <= WEAR_MAX,
        ensures
            final(self).wf(),
            final(self).same_shape(*old(self)),
            final(self).residency.keeps(old(self).residency),
            final(self).wear <= old(self).wear + crate::pool::read_spans::VECTOR_FRAMES_MAX,
            final(self).span_routed(*old(self), *final(spans), *old(spans), token, result, unfinished),
    {
        let ghost before = *self;
        let ghost routes = *spans;
        let ghost lane = Self::lane_of(routes, token);
        let ghost flying = Self::span_of(routes, lane);
        proof {
            before.lemma_facts();
        }
        match spans.completing(token) {
            Some((slot, mut span)) => {
                let bytes: u32 = match result {
                    Ok(bytes) => bytes,
                    Err(_) => 0,
                };
                let had: u32 = span.published();
                proof {
                    flying.lemma_progress();
                }
                let newly: u32 = span.advance(bytes);
                let ghost advanced = span;
                proof {
                    advanced.lemma_progress();
                    assert(advanced.installed()) by {
                        assert forall|k: int| 0 <= k < advanced.pages_len() implies (
                        #[trigger] advanced.page_at(k)) is Some by {
                            assert(flying.page_at(k) is Some);
                        }
                    }
                    assert forall|k: int| had <= k < advanced.pages_len() implies
                        #[trigger] before.awaits(advanced, k) by {
                        assert(before.awaits(flying, k));
                        assert(advanced.page_at(k) == flying.page_at(k));
                    }
                }
                self.publish_completed(&span, had, had + newly);
                let ghost landed = *self;
                if span.is_complete() {
                    spans.finish(slot, token);
                    proof {
                        assert(self.routed_by(
                            before,
                            *spans,
                            routes,
                            token,
                            result,
                            None,
                            advanced,
                            landed,
                        ));
                    }
                    None
                } else if bytes > 0 {
                    proof {
                        landed.lemma_facts();
                        assert(self.routed_by(
                            before,
                            *spans,
                            routes,
                            token,
                            result,
                            Some((slot, span)),
                            advanced,
                            landed,
                        ));
                    }
                    Some((slot, span))
                } else {
                    let error: IoError = match result {
                        Ok(_) => IoError::from_raw(SHORT_READ_EOF_ERRNO),
                        Err(error) => error,
                    };
                    proof {
                        landed.lemma_facts();
                        assert(landed.carries(advanced));
                    }
                    self.route_span_failure(spans, slot, &span, error);
                    proof {
                        self.residency.lemma_keeps_again(landed.residency, before.residency);
                        assert(self.routed_by(
                            before,
                            *spans,
                            routes,
                            token,
                            result,
                            None,
                            advanced,
                            landed,
                        ));
                    }
                    None
                }
            },
            None => None,
        }
    }

    /// What routing a vectored read's completion does, by way of the span's
    /// progress and the cache once its newly complete pages have landed.
    pub open spec fn routed_by(
        self,
        other: Cache,
        after: ReadSpans,
        before: ReadSpans,
        token: OpToken,
        result: Result<u32, IoError>,
        unfinished: Option<(SpanSlot, ReadSpan)>,
        span: ReadSpan,
        landed: Cache,
    ) -> bool {
        let slot = Self::lane_of(before, token);
        let flying = Self::span_of(before, slot);
        let bytes = brought(result);
        &&& progressed(span, flying, bytes)
        &&& landed.span_landed(
            other,
            span,
            flying.complete_prefix() as int,
            span.complete_prefix() as int,
        )
        &&& if span.arrived() == span.total() {
            &&& unfinished is None
            &&& self == landed
            &&& Self::route_freed(after, before, token, slot)
        } else if bytes > 0 {
            &&& unfinished == Some((slot, span))
            &&& self == landed
            &&& self.carries(span)
            &&& after.wf()
            &&& after.state(slot.0 as int) is Completing
            &&& after.same_except(before, slot.0 as int, -1)
            &&& after.vacancies() == before.vacancies()
        } else {
            &&& unfinished is None
            &&& self.span_failed(landed, span, span.complete_prefix() as int, cause(result))
            &&& Self::route_freed(after, before, token, slot)
        }
    }

    /// What routing a vectored read's completion does.
    pub open spec fn span_routed(
        self,
        other: Cache,
        after: ReadSpans,
        before: ReadSpans,
        token: OpToken,
        result: Result<u32, IoError>,
        unfinished: Option<(SpanSlot, ReadSpan)>,
    ) -> bool {
        exists|span: ReadSpan, landed: Cache| #[trigger]
            self.routed_by(other, after, before, token, result, unfinished, span, landed)
    }
}

/// Along a landing, each step returns one read credit and settles one miss.
proof fn lemma_landed_to(
    steps: Seq<Cache>,
    start: Cache,
    end: Cache,
    span: ReadSpan,
    from: int,
    upto: int,
    k: int,
)
    requires
        Cache::landing(steps, start, end, span, from, upto),
        0 <= k <= upto - from,
        forall|j: int| from <= j < upto ==> #[trigger] start.awaits(span, j),
    ensures
        steps[k].reads_in_flight == start.reads_in_flight - k,
        steps[k].miss.capacity() == start.miss.capacity(),
        forall|j: int|
            from <= j < from + k ==> !(#[trigger] steps[k].miss.is_pending(miss_of(span, j))),
        forall|j: int| from + k <= j < upto ==> #[trigger] steps[k].awaits(span, j),
    decreases k,
{
    if k > 0 {
        lemma_landed_to(steps, start, end, span, from, upto, k - 1);
        let before = steps[k - 1];
        assert(Cache::landing_step(steps, span, from, k - 1));
        let index = miss_of(span, from + k - 1);
        assert(before.awaits(span, from + k - 1));
        assert forall|j: int| from <= j < from + k implies !(#[trigger] steps[k].miss.is_pending(
            miss_of(span, j),
        )) by {
            if j < from + k - 1 {
                assert(!before.miss.is_pending(miss_of(span, j)));
                if miss_of(span, j) != index {
                    assert(0 <= miss_of(span, j));
                }
            }
        }
        assert forall|j: int| from + k <= j < upto implies #[trigger] steps[k].awaits(span, j) by {
            assert(before.awaits(span, j));
            before.lemma_apart(span, from + k - 1, j);
        }
    }
}

/// Each page that lands gives back exactly one read credit, and its miss is
/// pending no more.
pub proof fn landed_pages_return_their_credits(
    before: Cache,
    after: Cache,
    span: ReadSpan,
    from: int,
    upto: int,
)
    requires
        after.span_landed(before, span, from, upto),
        forall|j: int| from <= j < upto ==> #[trigger] before.awaits(span, j),
    ensures
        after.reads_in_flight == before.reads_in_flight - (upto - from),
        forall|j: int|
            from <= j < upto ==> !(#[trigger] after.miss.is_pending(miss_of(span, j))),
{
    let steps = choose|steps: Seq<Cache>| #[trigger]
        Cache::landing(steps, before, after, span, from, upto);
    lemma_landed_to(steps, before, after, span, from, upto, upto - from);
}

/// Along a failure, each step returns one read credit and settles one miss.
proof fn lemma_failed_to(
    steps: Seq<Cache>,
    start: Cache,
    end: Cache,
    span: ReadSpan,
    from: int,
    errno: i32,
    k: int,
)
    requires
        Cache::failing(steps, start, end, span, from, errno),
        0 <= k <= span.pages_len() - from,
        forall|j: int| from <= j < span.pages_len() ==> #[trigger] start.awaits(span, j),
    ensures
        steps[k].reads_in_flight == start.reads_in_flight - k,
        steps[k].miss.capacity() == start.miss.capacity(),
        forall|j: int|
            from <= j < from + k ==> !(#[trigger] steps[k].miss.is_pending(miss_of(span, j))),
        forall|j: int| from + k <= j < span.pages_len() ==> #[trigger] steps[k].awaits(span, j),
    decreases k,
{
    if k > 0 {
        lemma_failed_to(steps, start, end, span, from, errno, k - 1);
        let before = steps[k - 1];
        assert(Cache::failing_step(steps, span, from, errno, k - 1));
        let index = miss_of(span, from + k - 1);
        assert(before.awaits(span, from + k - 1));
        assert forall|j: int| from <= j < from + k implies !(#[trigger] steps[k].miss.is_pending(
            miss_of(span, j),
        )) by {
            if j < from + k - 1 {
                assert(!before.miss.is_pending(miss_of(span, j)));
                if miss_of(span, j) != index {
                    assert(0 <= miss_of(span, j));
                }
            }
        }
        assert forall|j: int| from + k <= j < span.pages_len() implies #[trigger] steps[k].awaits(
            span,
            j,
        ) by {
            assert(before.awaits(span, j));
            before.lemma_apart(span, from + k - 1, j);
        }
    }
}

/// Each page that fails gives back exactly one read credit, and its miss is
/// pending no more.
pub proof fn failed_pages_return_their_credits(
    before: Cache,
    after: Cache,
    span: ReadSpan,
    from: int,
    errno: i32,
)
    requires
        after.span_failed(before, span, from, errno),
        forall|j: int| from <= j < span.pages_len() ==> #[trigger] before.awaits(span, j),
    ensures
        after.reads_in_flight == before.reads_in_flight - (span.pages_len() - from),
        forall|j: int|
            from <= j < span.pages_len() ==> !(#[trigger] after.miss.is_pending(
                miss_of(span, j),
            )),
{
    let steps = choose|steps: Seq<Cache>| #[trigger]
        Cache::failing(steps, before, after, span, from, errno);
    lemma_failed_to(steps, before, after, span, from, errno, span.pages_len() - from);
}

/// Along a landing, the record of each landed page holds its success.
proof fn lemma_landed_records(
    steps: Seq<Cache>,
    start: Cache,
    end: Cache,
    span: ReadSpan,
    from: int,
    upto: int,
    k: int,
)
    requires
        Cache::landing(steps, start, end, span, from, upto),
        0 <= k <= upto - from,
        forall|j: int| from <= j < upto ==> #[trigger] start.awaits(span, j),
    ensures
        steps[k].interests == start.interests,
        steps[k].miss.capacity() == start.miss.capacity(),
        forall|j: int|
            from <= j < from + k ==> {
                let at = #[trigger] miss_of(span, j);
                let entry = start.miss.entry_at(at)->0;
                &&& steps[k].residency.table@.contains_key(entry.page)
                &&& steps[k].residency.table@[entry.page] == entry.frame
                &&& steps[k].miss.entry_at(at) == (if start.interests@[at].waiters == 0 {
                    None
                } else {
                    Some(MissEntry { outcome: MissOutcome::Succeeded, ..entry })
                })
            },
        forall|i: int|
            0 <= i < start.miss.capacity() && (forall|j: int|
                from <= j < from + k ==> i != #[trigger] miss_of(span, j))
                ==> #[trigger] steps[k].miss.entry_at(i) == start.miss.entry_at(i),
    decreases k,
{
    if k > 0 {
        lemma_landed_records(steps, start, end, span, from, upto, k - 1);
        lemma_landed_to(steps, start, end, span, from, upto, k - 1);
        let before = steps[k - 1];
        let index = miss_of(span, from + k - 1);
        assert(Cache::landing_step(steps, span, from, k - 1));
        assert(start.awaits(span, from + k - 1));
        assert forall|j: int| from <= j < from + k - 1 implies index != #[trigger] miss_of(
            span,
            j,
        ) by {
            assert(start.awaits(span, j));
            start.lemma_apart(span, j, from + k - 1);
        }
        assert(before.miss.entry_at(index) == start.miss.entry_at(index));
        let page = start.miss.entry_at(index)->0.page;
        assert forall|j: int| from <= j < from + k implies {
            let at = #[trigger] miss_of(span, j);
            let entry = start.miss.entry_at(at)->0;
            &&& steps[k].residency.table@.contains_key(entry.page)
            &&& steps[k].residency.table@[entry.page] == entry.frame
            &&& steps[k].miss.entry_at(at) == (if start.interests@[at].waiters == 0 {
                None
            } else {
                Some(MissEntry { outcome: MissOutcome::Succeeded, ..entry })
            })
        } by {
            if j < from + k - 1 {
                assert(start.awaits(span, j));
                assert(start.miss.entry_at(miss_of(span, j))->0.page != page);
            }
        }
        assert forall|i: int|
            0 <= i < start.miss.capacity() && (forall|j: int|
                from <= j < from + k ==> i != #[trigger] miss_of(span, j)) implies
            #[trigger] steps[k].miss.entry_at(i) == start.miss.entry_at(i) by {
            assert(i != miss_of(span, from + k - 1));
        }
    }
}

/// Every page of a vectored read whose bytes have all come is resident: it is
/// mapped to its frame, and its record, where anybody waits for it, holds the
/// success.
pub proof fn landed_pages_of_a_vector_are_resident(
    before: Cache,
    after: Cache,
    span: ReadSpan,
    from: int,
    upto: int,
    ordinal: int,
)
    requires
        after.span_landed(before, span, from, upto),
        forall|j: int| from <= j < upto ==> #[trigger] before.awaits(span, j),
        from <= ordinal < upto,
    ensures
        ({
            let at = span.page_at(ordinal)->0.slot.0 as int;
            let entry = before.miss.entry_at(at)->0;
            &&& entry.page.file == span.first_page().file
            &&& entry.page.granule_idx == span.first_page().granule_idx + ordinal
            &&& after.residency.table@.contains_key(entry.page)
            &&& after.residency.table@[entry.page] == entry.frame
            &&& after.miss.entry_at(at) == (if before.interests@[at].waiters == 0 {
                None
            } else {
                Some(MissEntry { outcome: MissOutcome::Succeeded, ..entry })
            })
        }),
{
    let steps = choose|steps: Seq<Cache>| #[trigger]
        Cache::landing(steps, before, after, span, from, upto);
    lemma_landed_records(steps, before, after, span, from, upto, upto - from);
    assert(before.awaits(span, ordinal));
    let at = miss_of(span, ordinal);
}

/// Along a failure, the record of each failed page holds the errno.
proof fn lemma_failed_records(
    steps: Seq<Cache>,
    start: Cache,
    end: Cache,
    span: ReadSpan,
    from: int,
    errno: i32,
    k: int,
)
    requires
        Cache::failing(steps, start, end, span, from, errno),
        0 <= k <= span.pages_len() - from,
        forall|j: int| from <= j < span.pages_len() ==> #[trigger] start.awaits(span, j),
    ensures
        steps[k].interests == start.interests,
        steps[k].miss.capacity() == start.miss.capacity(),
        steps[k].residency.table == start.residency.table,
        forall|j: int|
            from <= j < from + k ==> {
                let at = #[trigger] miss_of(span, j);
                steps[k].miss.entry_at(at) == (if start.interests@[at].waiters == 0 {
                    None
                } else {
                    Some(
                        MissEntry {
                            outcome: MissOutcome::Failed(errno),
                            ..start.miss.entry_at(at)->0
                        },
                    )
                })
            },
        forall|i: int|
            0 <= i < start.miss.capacity() && (forall|j: int|
                from <= j < from + k ==> i != #[trigger] miss_of(span, j))
                ==> #[trigger] steps[k].miss.entry_at(i) == start.miss.entry_at(i),
    decreases k,
{
    if k > 0 {
        lemma_failed_records(steps, start, end, span, from, errno, k - 1);
        lemma_failed_to(steps, start, end, span, from, errno, k - 1);
        let before = steps[k - 1];
        let index = miss_of(span, from + k - 1);
        assert(Cache::failing_step(steps, span, from, errno, k - 1));
        assert(start.awaits(span, from + k - 1));
        assert forall|j: int| from <= j < from + k - 1 implies index != #[trigger] miss_of(
            span,
            j,
        ) by {
            assert(start.awaits(span, j));
            start.lemma_apart(span, j, from + k - 1);
        }
        assert(before.miss.entry_at(index) == start.miss.entry_at(index));
        assert forall|j: int| from <= j < from + k implies {
            let at = #[trigger] miss_of(span, j);
            steps[k].miss.entry_at(at) == (if start.interests@[at].waiters == 0 {
                None
            } else {
                Some(
                    MissEntry {
                        outcome: MissOutcome::Failed(errno),
                        ..start.miss.entry_at(at)->0
                    },
                )
            })
        } by {
            if j < from + k - 1 {
                assert(start.awaits(span, j));
            }
        }
        assert forall|i: int|
            0 <= i < start.miss.capacity() && (forall|j: int|
                from <= j < from + k ==> i != #[trigger] miss_of(span, j)) implies
            #[trigger] steps[k].miss.entry_at(i) == start.miss.entry_at(i) by {
            assert(i != miss_of(span, from + k - 1));
        }
    }
}

/// A vectored read goes by its result: an error fails every page that was not
/// complete, with the error's errno, or 5 where it has none; no bytes fail them
/// with 5; and bytes complete the pages they reach the end of, leaving the rest
/// to be read unless there is none.
pub proof fn a_vectored_read_goes_by_its_result(
    before: Cache,
    after: Cache,
    routes: ReadSpans,
    was: ReadSpans,
    token: OpToken,
    slot: SpanSlot,
    flying: ReadSpan,
    result: Result<u32, IoError>,
    unfinished: Option<(SpanSlot, ReadSpan)>,
    errno: i32,
    ordinal: int,
)
    requires
        was.route(token.slot as int) == Some((token, slot)),
        was.state(slot.0 as int) == RouteState::InFlight(flying),
        before.carries(flying),
        flying.arrived() < flying.total(),
        after.span_routed(before, routes, was, token, result, unfinished),
        flying.complete_prefix() <= ordinal < flying.pages_len(),
        match result {
            Err(error) => match error.raw {
                Some(number) => errno == number,
                None => errno == 5,
            },
            Ok(bytes) => errno == 5,
        },
    ensures
        ({
            let at = flying.page_at(ordinal)->0.slot.0 as int;
            let entry = before.miss.entry_at(at)->0;
            let failed = after.miss.entry_at(at) == (if before.interests@[at].waiters == 0 {
                None
            } else {
                Some(MissEntry { outcome: MissOutcome::Failed(errno), ..entry })
            }) && after.residency.table@ == before.residency.table@;
            let landed = after.miss.entry_at(at) == (if before.interests@[at].waiters == 0 {
                None
            } else {
                Some(MissEntry { outcome: MissOutcome::Succeeded, ..entry })
            }) && after.residency.table@.contains_key(entry.page)
                && after.residency.table@[entry.page] == entry.frame;
            match result {
                Err(_) => failed && unfinished is None,
                Ok(bytes) => if bytes == 0 {
                    failed && unfinished is None
                } else {
                    &&& (ordinal + 1) * flying.granule_bytes() <= flying.arrived() + bytes
                        ==> landed
                    &&& (ordinal + 1) * flying.granule_bytes() > flying.arrived() + bytes
                        ==> after.miss.is_pending(at) && after.miss.entry_at(at)->0 == entry
                    &&& unfinished is None <==> flying.arrived() + bytes == flying.total()
                    &&& unfinished matches Some((lane, rest)) ==> lane == slot && rest.arrived()
                        == flying.arrived() + bytes
                },
            }
        }),
{
    let (span, landed) = choose|span: ReadSpan, landed: Cache| #[trigger]
        after.routed_by(before, routes, was, token, result, unfinished, span, landed);
    flying.lemma_progress();
    span.lemma_progress();
    let from = flying.complete_prefix() as int;
    let upto = span.complete_prefix() as int;
    let granule = flying.granule_bytes() as int;
    assert forall|j: int| from <= j < flying.pages_len() implies #[trigger] before.awaits(
        span,
        j,
    ) by {
        assert(before.awaits(flying, j));
        assert(span.page_at(j) == flying.page_at(j));
    }
    assert(before.awaits(flying, ordinal));
    let steps = choose|steps: Seq<Cache>| #[trigger]
        Cache::landing(steps, before, landed, span, from, upto);
    assert(span.arrived() == flying.arrived() + brought(result));
    let arrived = span.arrived() as int;
    assert(upto == arrived / granule);
    assert((ordinal + 1) * granule <= arrived <==> ordinal < upto) by (nonlinear_arith)
        requires
            granule > 0,
            upto == arrived / granule,
            0 <= arrived,
    ;
    assert(miss_of(span, ordinal) == miss_of(flying, ordinal));
    let at = miss_of(span, ordinal);
    if brought(result) == 0 {
        assert(upto == from);
        assert(landed == before);
        let falls = choose|falls: Seq<Cache>| #[trigger]
            Cache::failing(falls, landed, after, span, upto, cause(result));
        lemma_failed_records(
            falls,
            landed,
            after,
            span,
            upto,
            cause(result),
            span.pages_len() - upto,
        );
    } else {
        lemma_landed_records(steps, before, landed, span, from, upto, upto - from);
        lemma_landed_to(steps, before, landed, span, from, upto, upto - from);
        if ordinal >= upto {
            assert forall|j: int| from <= j < upto implies at != #[trigger] miss_of(span, j) by {
                assert(before.awaits(span, j));
                before.lemma_apart(span, j, ordinal);
            }
            assert(landed.miss.entry_at(at) == before.miss.entry_at(at));
        }
    }
}

} // verus!
