//! One reader's forward-sequential predictor.

use crate::pool::prefetch::Source;
use crate::pool::PageId;
use vstd::prelude::*;

verus! {

/// What a reader's recent demands look like.
#[derive(Debug, Clone, Copy, PartialEq, Eq, Structural)]
pub enum PatternState {
    Empty,
    /// `run` consecutive cold demands, the latest being `last`.
    Following { last: PageId, run: u32 },
    /// A confirmed stream at `demand` that next predicts granule `next`, at
    /// most `width` ahead.
    Streaming { demand: PageId, next: u32, width: u32 },
}

/// A reader's pattern. Its incarnation counts the discontinuities, so that
/// predictions of an abandoned stream are told apart.
#[derive(Debug, Clone, Copy, PartialEq, Eq, Structural)]
pub struct Pattern {
    pub state: PatternState,
    pub incarnation: u64,
}

/// The page a state last saw demanded.
pub open spec fn latest(state: PatternState) -> Option<PageId> {
    match state {
        PatternState::Empty => None,
        PatternState::Following { last, .. } => Some(last),
        PatternState::Streaming { demand, .. } => Some(demand),
    }
}

/// `page` directly follows `last` in the same file.
pub open spec fn follows(last: PageId, page: PageId) -> bool {
    last.file == page.file && last.granule_idx + 1 == page.granule_idx
}

pub open spec fn smaller(a: int, b: int) -> int {
    if a <= b {
        a
    } else {
        b
    }
}

impl Pattern {
    pub open spec fn wf(self) -> bool {
        self.state matches PatternState::Streaming { next, width, .. } ==> next >= 1 && width >= 1
    }

    /// The pattern after a discontinuity that leaves it in `state`.
    pub open spec fn restarted(self, state: PatternState) -> Pattern {
        Pattern { state, incarnation: (self.incarnation + 1) as u64 }
    }

    /// The pattern after a demand of the page that directly follows.
    pub open spec fn continued(self, page: PageId, capacity: u32) -> Pattern {
        if page.granule_idx == u32::MAX {
            self.restarted(PatternState::Empty)
        } else {
            let next = (page.granule_idx + 1) as u32;
            Pattern {
                state: match self.state {
                    PatternState::Following { run, .. } => if run < 2 {
                        PatternState::Following { last: page, run: (run + 1) as u32 }
                    } else {
                        PatternState::Streaming {
                            demand: page,
                            next,
                            width: smaller(capacity as int, 4) as u32,
                        }
                    },
                    PatternState::Streaming { next: issued, width, .. } => PatternState::Streaming {
                        demand: page,
                        next: if issued >= next {
                            issued
                        } else {
                            next
                        },
                        width,
                    },
                    PatternState::Empty => PatternState::Empty,
                },
                ..self
            }
        }
    }

    /// The pattern after a demand of `page`: a repeat changes nothing, the
    /// next page continues the run, anything else starts over.
    pub open spec fn observed(self, page: PageId, capacity: u32) -> Pattern {
        match latest(self.state) {
            Some(last) => if last == page {
                self
            } else if follows(last, page) {
                self.continued(page, capacity)
            } else {
                self.restarted(PatternState::Following { last: page, run: 1 })
            },
            None => self.restarted(PatternState::Following { last: page, run: 1 }),
        }
    }

    /// The pattern's next prediction, if its stream wants one.
    pub open spec fn prediction(self, reader: u32) -> Option<(PageId, Source)> {
        match self.state {
            PatternState::Streaming { demand, next, width } => if next > smaller(
                demand.granule_idx + width,
                u32::MAX as int,
            ) {
                None
            } else {
                Some(
                    (
                        PageId { file: demand.file, granule_idx: next },
                        Source::Automatic { reader, incarnation: self.incarnation },
                    ),
                )
            },
            _ => None,
        }
    }

    /// The predictions that can be issued together, when at least
    /// `vector_width` of them or the whole stream width are due.
    pub open spec fn due(self, reader: u32, vector_width: u32) -> Option<(PageId, Source, u32)> {
        match (self.prediction(reader), self.state) {
            (
                Some((page, source)),
                PatternState::Streaming { demand, next, width },
            ) => {
                let count = smaller(width as int, vector_width as int);
                if smaller(demand.granule_idx + width, u32::MAX as int) - next + 1 < count {
                    None
                } else {
                    Some((page, source, count as u32))
                }
            },
            _ => None,
        }
    }

    /// The pattern after its prediction was issued.
    pub open spec fn advanced(self) -> Pattern {
        match self.state {
            PatternState::Streaming { demand, next, width } => if next == u32::MAX {
                self.restarted(PatternState::Empty)
            } else {
                Pattern {
                    state: PatternState::Streaming { demand, next: (next + 1) as u32, width },
                    ..self
                }
            },
            _ => self,
        }
    }

    /// The pattern after one of its predictions of `incarnation` was
    /// consumed: the stream moves on and widens, and a gap starts over.
    pub open spec fn confirmed(self, page: PageId, incarnation: u64, capacity: u32) -> Pattern {
        if self.incarnation != incarnation {
            self
        } else {
            match self.state {
                PatternState::Streaming { demand, next, width } => if page.granule_idx
                    <= demand.granule_idx {
                    self
                } else if demand.granule_idx + 1 == page.granule_idx {
                    Pattern {
                        state: PatternState::Streaming {
                            demand: page,
                            next,
                            width: smaller(
                                smaller(2 * width, u32::MAX as int),
                                capacity as int,
                            ) as u32,
                        },
                        ..self
                    }
                } else {
                    self.observed(page, capacity)
                },
                _ => self,
            }
        }
    }

    pub fn new() -> (pattern: Self)
        ensures
            pattern == (Pattern { state: PatternState::Empty, incarnation: 0 }),
    {
        Pattern { state: PatternState::Empty, incarnation: 0 }
    }

    pub fn reset(&mut self)
        requires
            old(self).incarnation < u64::MAX,
        ensures
            *final(self) == old(self).restarted(PatternState::Empty),
    {
        self.state = PatternState::Empty;
        self.incarnation = self.incarnation + 1;
    }

    pub fn observe(&mut self, page: PageId, capacity: u32)
        requires
            old(self).wf(),
            capacity > 0,
            old(self).incarnation < u64::MAX,
        ensures
            *final(self) == old(self).observed(page, capacity),
            final(self).wf(),
    {
        let last: Option<PageId> = match self.state {
            PatternState::Empty => None,
            PatternState::Following { last, .. } => Some(last),
            PatternState::Streaming { demand, .. } => Some(demand),
        };
        match last {
            Some(last) => {
                if last == page {
                    return;
                }
                if last.file() == page.file() && last.granule_idx() < u32::MAX
                    && last.granule_idx() + 1 == page.granule_idx() {
                    self.observe_sequential(page, capacity);
                } else {
                    self.reset();
                    self.state = PatternState::Following { last: page, run: 1 };
                }
            },
            None => {
                self.reset();
                self.state = PatternState::Following { last: page, run: 1 };
            },
        }
    }

    fn observe_sequential(&mut self, page: PageId, capacity: u32)
        requires
            old(self).wf(),
            capacity > 0,
            old(self).incarnation < u64::MAX,
        ensures
            *final(self) == old(self).continued(page, capacity),
            final(self).wf(),
    {
        if page.granule_idx() == u32::MAX {
            self.reset();
            return;
        }
        let next: u32 = page.granule_idx() + 1;
        self.state = match self.state {
            PatternState::Following { run, .. } => {
                if run < 2 {
                    PatternState::Following { last: page, run: run + 1 }
                } else {
                    PatternState::Streaming {
                        demand: page,
                        next,
                        width: if capacity <= 4 {
                            capacity
                        } else {
                            4
                        },
                    }
                }
            },
            PatternState::Streaming { next: issued, width, .. } => PatternState::Streaming {
                demand: page,
                next: if issued >= next {
                    issued
                } else {
                    next
                },
                width,
            },
            PatternState::Empty => PatternState::Empty,
        };
    }

    /// The stream's far edge.
    fn horizon(demand: PageId, width: u32) -> (edge: u32)
        ensures
            edge == smaller(demand.granule_idx + width, u32::MAX as int),
    {
        demand.granule_idx().saturating_add(width)
    }

    pub fn request(&self, reader: u32) -> (request: Option<(PageId, Source)>)
        ensures
            request == self.prediction(reader),
    {
        match self.state {
            PatternState::Streaming { demand, next, width } => {
                if next > Self::horizon(demand, width) {
                    None
                } else {
                    Some(
                        (
                            PageId::new(demand.file(), next),
                            Source::Automatic { reader, incarnation: self.incarnation },
                        ),
                    )
                }
            },
            _ => None,
        }
    }

    pub fn window(&self, reader: u32, vector_width: u32) -> (window: Option<(PageId, Source, u32)>)
        requires
            self.wf(),
        ensures
            window == self.due(reader, vector_width),
    {
        match self.request(reader) {
            Some((page, source)) => {
                match self.state {
                    PatternState::Streaming { demand, next, width } => {
                        let count: u32 = if width <= vector_width {
                            width
                        } else {
                            vector_width
                        };
                        let eligible: u32 = Self::horizon(demand, width) - next + 1;
                        if eligible < count {
                            None
                        } else {
                            Some((page, source, count))
                        }
                    },
                    _ => None,
                }
            },
            None => None,
        }
    }

    pub fn incarnation(&self) -> (incarnation: u64)
        ensures
            incarnation == self.incarnation,
    {
        self.incarnation
    }

    /// Moves past the prediction `page`, which was just issued.
    pub fn issued(&mut self, page: PageId)
        requires
            old(self).wf(),
            old(self).state is Streaming,
            page == (PageId {
                file: old(self).state->demand.file,
                granule_idx: old(self).state->next,
            }),
            old(self).incarnation < u64::MAX,
        ensures
            *final(self) == old(self).advanced(),
            final(self).wf(),
    {
        match self.state {
            PatternState::Streaming { demand, next, width } => {
                if next == u32::MAX {
                    self.reset();
                } else {
                    self.state = PatternState::Streaming { demand, next: next + 1, width };
                }
            },
            _ => {},
        }
    }

    /// Takes in the consumption of a prediction of `incarnation`.
    pub fn promoted(&mut self, page: PageId, incarnation: u64, capacity: u32)
        requires
            old(self).wf(),
            capacity > 0,
            old(self).incarnation < u64::MAX,
        ensures
            *final(self) == old(self).confirmed(page, incarnation, capacity),
            final(self).wf(),
    {
        if self.incarnation != incarnation {
            return;
        }
        match self.state {
            PatternState::Streaming { demand, next, width } => {
                if page.granule_idx() <= demand.granule_idx() {
                    return;
                }
                if demand.granule_idx() + 1 == page.granule_idx() {
                    let doubled: u32 = if width <= u32::MAX / 2 {
                        width * 2
                    } else {
                        u32::MAX
                    };
                    self.state = PatternState::Streaming {
                        demand: page,
                        next,
                        width: if doubled <= capacity {
                            doubled
                        } else {
                            capacity
                        },
                    };
                } else {
                    self.observe(page, capacity);
                }
            },
            _ => {},
        }
    }

    pub fn owns(&self, incarnation: u64) -> (owned: bool)
        ensures
            owned == (self.incarnation == incarnation),
    {
        self.incarnation == incarnation
    }
}

/// Three consecutive cold demands start a stream, and its first prediction
/// is the page after the last of them.
pub proof fn three_consecutive_demands_start_a_stream(
    fresh: Pattern,
    page: PageId,
    capacity: u32,
    reader: u32,
)
    requires
        fresh.state == PatternState::Empty,
        capacity > 0,
        page.granule_idx < u32::MAX - 3,
    ensures
        ({
            let second = PageId { granule_idx: (page.granule_idx + 1) as u32, ..page };
            let third = PageId { granule_idx: (page.granule_idx + 2) as u32, ..page };
            let fourth = PageId { granule_idx: (page.granule_idx + 3) as u32, ..page };
            let trained = fresh.observed(page, capacity).observed(second, capacity).observed(
                third,
                capacity,
            );
            trained.prediction(reader) == Some(
                (fourth, Source::Automatic { reader, incarnation: trained.incarnation }),
            )
        }),
{
}

/// A discontinuity abandons the stream: it predicts nothing until it is
/// trained again, and its earlier predictions are obsolete.
pub proof fn a_discontinuity_resets(pattern: Pattern, page: PageId, capacity: u32, reader: u32)
    requires
        latest(pattern.state) matches Some(last) && last != page && !follows(last, page),
        pattern.incarnation < u64::MAX,
    ensures
        pattern.observed(page, capacity).prediction(reader) is None,
        pattern.observed(page, capacity).incarnation != pattern.incarnation,
{
}

/// A cold demand of the page after the last one counts on, and nothing less than
/// a third one in a row starts a stream: it predicts the page after that, four
/// pages ahead at most, or as many as there are credits. A repeated demand
/// changes nothing.
pub proof fn consecutive_demands_count(pattern: Pattern, last: PageId, run: u32, page: PageId, capacity: u32)
    requires
        pattern.state == (PatternState::Following { last, run }),
        page.granule_idx < u32::MAX,
        pattern.incarnation < u64::MAX,
    ensures
        ({
            let after = pattern.observed(page, capacity);
            &&& page == last ==> after == pattern
            &&& page.file == last.file && page.granule_idx == last.granule_idx + 1 ==> {
                &&& after.incarnation == pattern.incarnation
                &&& run < 2 ==> after.state == (PatternState::Following {
                    last: page,
                    run: (run + 1) as u32,
                })
                &&& run >= 2 ==> (after.state matches PatternState::Streaming {
                    demand,
                    next,
                    width,
                } && demand == page && next == page.granule_idx + 1 && width <= 4 && width
                    <= capacity && (width == 4 || width == capacity))
            }
            &&& page != last && !(page.file == last.file && page.granule_idx == last.granule_idx
                + 1) ==> after.state == (PatternState::Following { last: page, run: 1 })
                && after.incarnation == pattern.incarnation + 1
        }),
{
}

/// A stream follows its demands: the next page moves it on and leaves its width
/// and what was issued alone, a repeat changes nothing, and any other page
/// abandons it. A stream that reaches the last granule there can be is over.
pub proof fn a_stream_follows_its_demands(
    pattern: Pattern,
    demand: PageId,
    next: u32,
    width: u32,
    page: PageId,
    capacity: u32,
)
    requires
        pattern.state == (PatternState::Streaming { demand, next, width }),
        pattern.incarnation < u64::MAX,
    ensures
        ({
            let after = pattern.observed(page, capacity);
            &&& page == demand ==> after == pattern
            &&& page.file == demand.file && page.granule_idx == demand.granule_idx + 1
                && page.granule_idx < u32::MAX ==> after.incarnation == pattern.incarnation && (
            after.state matches PatternState::Streaming {
                demand: now,
                next: later,
                width: wide,
            } && now == page && wide == width && later >= next && later > page.granule_idx && (later
                == next || later == page.granule_idx + 1))
            &&& page.file == demand.file && page.granule_idx == demand.granule_idx + 1
                && page.granule_idx == u32::MAX ==> after.state is Empty && after.incarnation
                == pattern.incarnation + 1
            &&& page != demand && !(page.file == demand.file && page.granule_idx
                == demand.granule_idx + 1) ==> after.state == (PatternState::Following {
                last: page,
                run: 1,
            }) && after.incarnation == pattern.incarnation + 1
        }),
{
}

/// A stream predicts the next page of its file that was not issued yet, and
/// only while that page is at most its width ahead of the last demand.
pub proof fn a_stream_predicts_up_to_its_width(
    pattern: Pattern,
    demand: PageId,
    next: u32,
    width: u32,
    reader: u32,
)
    requires
        pattern.state == (PatternState::Streaming { demand, next, width }),
    ensures
        pattern.prediction(reader) is Some <==> next <= demand.granule_idx + width,
        pattern.prediction(reader) matches Some((page, source)) ==> page.file == demand.file
            && page.granule_idx == next && source == (Source::Automatic {
            reader,
            incarnation: pattern.incarnation,
        }),
{
}

/// Nobody is predicted anything before a stream was confirmed.
pub proof fn only_streams_predict(pattern: Pattern, reader: u32)
    requires
        !(pattern.state is Streaming),
    ensures
        pattern.prediction(reader) is None,
        pattern.due(reader, 1) is None,
{
}

/// An issued prediction is not predicted again: the stream moves on by one page
/// and keeps its demand and its width. After the last granule there can be it is
/// over.
pub proof fn an_issued_prediction_is_passed(
    pattern: Pattern,
    demand: PageId,
    next: u32,
    width: u32,
)
    requires
        pattern.state == (PatternState::Streaming { demand, next, width }),
        pattern.incarnation < u64::MAX,
    ensures
        next < u32::MAX ==> pattern.advanced().incarnation == pattern.incarnation && (
        pattern.advanced().state matches PatternState::Streaming {
            demand: now,
            next: later,
            width: wide,
        } && now == demand && later == next + 1 && wide == width),
        next == u32::MAX ==> pattern.advanced().state is Empty && pattern.advanced().incarnation
            == pattern.incarnation + 1,
{
}

/// A consumed prediction widens its stream: where it is the page after the last
/// demand the stream moves on to it and doubles its width, as far as there are
/// credits. A page at or before the last demand, and one of an abandoned stream,
/// changes nothing; a page further ahead counts as a jump.
pub proof fn a_consumed_prediction_widens_its_stream(
    pattern: Pattern,
    demand: PageId,
    next: u32,
    width: u32,
    page: PageId,
    incarnation: u64,
    capacity: u32,
)
    requires
        pattern.state == (PatternState::Streaming { demand, next, width }),
        page.file == demand.file,
        pattern.incarnation < u64::MAX,
    ensures
        ({
            let after = pattern.confirmed(page, incarnation, capacity);
            &&& incarnation != pattern.incarnation ==> after == pattern
            &&& page.granule_idx <= demand.granule_idx ==> after == pattern
            &&& incarnation == pattern.incarnation && page.granule_idx == demand.granule_idx + 1
                ==> after.incarnation == pattern.incarnation && (
            after.state matches PatternState::Streaming {
                demand: now,
                next: later,
                width: wide,
            } && now == page && later == next && wide <= capacity && wide <= 2 * width && (wide
                == capacity || wide == 2 * width))
            &&& incarnation == pattern.incarnation && page.granule_idx > demand.granule_idx + 1
                ==> after.state == (PatternState::Following { last: page, run: 1 })
                && after.incarnation == pattern.incarnation + 1
        }),
{
}

/// Predictions are issued by the vector: as many as the stream is wide, or the
/// vector where the stream is wider, from the next page on, and only once that
/// many are within the stream's width.
pub proof fn predictions_wait_for_a_vector(
    pattern: Pattern,
    demand: PageId,
    next: u32,
    width: u32,
    reader: u32,
    vector: u32,
)
    requires
        pattern.state == (PatternState::Streaming { demand, next, width }),
        width >= 1,
        vector >= 1,
        demand.granule_idx + width <= u32::MAX,
    ensures
        pattern.due(reader, vector) matches Some((page, source, count)) ==> {
            &&& page.file == demand.file
            &&& page.granule_idx == next
            &&& source == (Source::Automatic { reader, incarnation: pattern.incarnation })
            &&& count <= width && count <= vector && (count == width || count == vector)
            &&& next + count <= demand.granule_idx + width + 1
        },
        width <= vector ==> (pattern.due(reader, vector) is Some <==> next <= demand.granule_idx
            + 1),
        vector < width ==> (pattern.due(reader, vector) is Some <==> next + vector
            <= demand.granule_idx + width + 1),
{
}

} // verus!
