//! The fixed read-frame arena and the per-frame residency state machine.
//!
//! All capacity is fixed at construction. Writer uniqueness is the
//! [`InFlightFrame`] token, visibility is the residency word, and reuse is
//! deferred by epoch reclamation.

use crate::num::power_of_two;
use crate::pool::{PageId, SECTOR_BYTES};
use vstd::prelude::*;

verus! {

pub const HUGEPAGE_BYTES: usize = 0x20_0000;

/// Residency generations fit the word above its two state bits.
pub const FRAME_GENERATION_MAX: u64 = 0x3fff_ffff_ffff_ffff;

/// Which read-pool frame a read lands in.
#[derive(Debug, Clone, Copy, PartialEq, Eq, Hash, Structural)]
pub struct ReadFrameIdx(pub u32);

impl ReadFrameIdx {
    pub fn new(frame: u32) -> (idx: Self)
        ensures
            idx.0 == frame,
    {
        ReadFrameIdx(frame)
    }

    pub fn get(self) -> (frame: u32)
        ensures
            frame == self.0,
    {
        self.0
    }
}

/// Distinguishes frame arenas so a token minted by one is never accepted by
/// another whose frame indexes coincide.
#[derive(Debug, Clone, Copy, PartialEq, Eq, Structural)]
pub struct ArenaId(pub u32);

/// The process's supply of arena identities; none is handed out twice.
#[derive(Debug)]
pub struct ArenaIds {
    issued: u32,
}

impl ArenaIds {
    /// How many identities have been handed out.
    pub closed spec fn issued(self) -> nat {
        self.issued as nat
    }

    pub fn new() -> (ids: Self)
        ensures
            ids.issued() == 0,
    {
        ArenaIds { issued: 0 }
    }
}

impl ArenaId {
    /// Hands out the next identity, positive and above every earlier one.
    pub fn next(ids: &mut ArenaIds) -> (id: Self)
        requires
            old(ids).issued() < u32::MAX,
        ensures
            id.0 == old(ids).issued() + 1,
            final(ids).issued() == old(ids).issued() + 1,
    {
        ids.issued = ids.issued + 1;
        ArenaId(ids.issued)
    }
}

/// The unique authority to write one frame's bytes and identity, held from
/// `claim` until `publish` or `abort`. It is neither `Clone` nor `Copy`, and it
/// names the arena that minted it as well as the frame.
#[must_use]
#[derive(Debug)]
pub struct InFlightFrame {
    arena: ArenaId,
    frame: u32,
}

impl InFlightFrame {
    /// The arena that minted this token.
    pub closed spec fn arena(self) -> ArenaId {
        self.arena
    }

    /// The frame this token may write.
    pub closed spec fn target(self) -> ReadFrameIdx {
        ReadFrameIdx(self.frame)
    }

    fn new(arena: ArenaId, frame: ReadFrameIdx) -> (token: Self)
        ensures
            token.arena() == arena,
            token.target() == frame,
    {
        InFlightFrame { arena, frame: frame.0 }
    }

    pub fn frame(&self) -> (frame: ReadFrameIdx)
        ensures
            frame == self.target(),
    {
        ReadFrameIdx(self.frame)
    }

    fn index(&self) -> (index: usize)
        ensures
            index == self.target().0,
    {
        self.frame as usize
    }
}

/// Residency of one frame: the cycle `Free -> InFlight -> Resident -> Evicting
/// -> Free` plus the miss-abort edge `InFlight -> Free`.
#[derive(Debug, Clone, Copy, PartialEq, Eq, Structural)]
pub enum FrameState {
    Free,
    InFlight,
    Resident,
    Evicting,
}

/// The legal edges of the residency state machine.
pub open spec fn legal_edge(from: FrameState, to: FrameState) -> bool {
    match (from, to) {
        (FrameState::Free, FrameState::InFlight) => true,
        (FrameState::InFlight, FrameState::Resident) => true,
        (FrameState::InFlight, FrameState::Free) => true,
        (FrameState::Resident, FrameState::Evicting) => true,
        (FrameState::Evicting, FrameState::Free) => true,
        _ => false,
    }
}

/// The two edges taken without a write token.
pub open spec fn reclamation_edge(from: FrameState, to: FrameState) -> bool {
    match (from, to) {
        (FrameState::Resident, FrameState::Evicting) => true,
        (FrameState::Evicting, FrameState::Free) => true,
        _ => false,
    }
}

/// The two-bit tag of a residency state.
pub open spec fn state_tag(state: FrameState) -> int {
    match state {
        FrameState::Free => 0,
        FrameState::InFlight => 1,
        FrameState::Resident => 2,
        FrameState::Evicting => 3,
    }
}

/// The residency state packed into a word.
pub open spec fn word_state(word: u64) -> FrameState {
    if word % 4 == 0 {
        FrameState::Free
    } else if word % 4 == 1 {
        FrameState::InFlight
    } else if word % 4 == 2 {
        FrameState::Resident
    } else {
        FrameState::Evicting
    }
}

/// The residency generation packed into a word.
pub open spec fn word_generation(word: u64) -> int {
    word as int / 4
}

impl FrameState {
    /// Advances to `to`, returning it.
    #[must_use]
    pub fn advance(self, to: FrameState) -> (next: FrameState)
        requires
            legal_edge(self, to),
        ensures
            next == to,
    {
        to
    }

    fn to_tag(self) -> (tag: u8)
        ensures
            tag == state_tag(self),
    {
        match self {
            FrameState::Free => 0,
            FrameState::InFlight => 1,
            FrameState::Resident => 2,
            FrameState::Evicting => 3,
        }
    }

    fn from_tag(tag: u8) -> (state: FrameState)
        requires
            tag <= 3,
        ensures
            state_tag(state) == tag,
    {
        if tag == 0 {
            FrameState::Free
        } else if tag == 1 {
            FrameState::InFlight
        } else if tag == 2 {
            FrameState::Resident
        } else {
            FrameState::Evicting
        }
    }

    /// Decodes the residency state of a packed word.
    pub fn from_word(word: u64) -> (state: FrameState)
        ensures
            state == word_state(word),
    {
        Self::from_tag((word % 4) as u8)
    }
}

/// A fixed set of granule-sized frames. Each frame has a residency word, the
/// identity last written under a token, and its bytes.
#[derive(Debug)]
pub struct Frames {
    bytes: Vec<Vec<u8>>,
    words: Vec<u64>,
    pages: Vec<Option<PageId>>,
    count: u32,
    granule: u32,
    id: ArenaId,
}

impl Frames {
    pub closed spec fn wf(self) -> bool {
        &&& self.count > 0
        &&& self.words@.len() == self.count
        &&& self.pages@.len() == self.count
        &&& self.bytes@.len() == self.count
        &&& power_of_two(self.granule as int)
        &&& self.granule >= SECTOR_BYTES
        &&& forall|i: int| 0 <= i < self.count ==> (#[trigger] self.bytes@[i])@.len() == self.granule
        &&& forall|i: int|
            0 <= i < self.count && (word_state(self.words@[i]) is Resident || word_state(
                self.words@[i],
            ) is Evicting) ==> (#[trigger] self.pages@[i]) is Some
    }

    /// The number of frames.
    pub closed spec fn frame_count(self) -> nat {
        self.count as nat
    }

    pub closed spec fn granule_bytes(self) -> nat {
        self.granule as nat
    }

    pub closed spec fn arena(self) -> ArenaId {
        self.id
    }

    pub open spec fn has(self, frame: ReadFrameIdx) -> bool {
        frame.0 < self.frame_count()
    }

    /// The packed residency word of `frame`.
    pub closed spec fn word(self, frame: ReadFrameIdx) -> u64 {
        self.words@[frame.0 as int]
    }

    pub open spec fn residency(self, frame: ReadFrameIdx) -> FrameState {
        word_state(self.word(frame))
    }

    pub open spec fn generation(self, frame: ReadFrameIdx) -> int {
        word_generation(self.word(frame))
    }

    /// The identity last written to `frame`, if any claim ever wrote one.
    pub closed spec fn page(self, frame: ReadFrameIdx) -> Option<PageId> {
        self.pages@[frame.0 as int]
    }

    pub closed spec fn contents(self, frame: ReadFrameIdx) -> Seq<u8> {
        self.bytes@[frame.0 as int]@
    }

    /// `frame` holds a published identity.
    pub open spec fn published(self, frame: ReadFrameIdx) -> bool {
        self.residency(frame) is Resident || self.residency(frame) is Evicting
    }

    /// The geometry and identity of the arena, which no operation changes.
    pub open spec fn same_shape(self, other: Frames) -> bool {
        &&& self.frame_count() == other.frame_count()
        &&& self.granule_bytes() == other.granule_bytes()
        &&& self.arena() == other.arena()
    }

    /// `self` differs from `other` at most at `frame`.
    pub open spec fn same_except(self, other: Frames, frame: ReadFrameIdx) -> bool {
        &&& self.same_shape(other)
        &&& forall|f: ReadFrameIdx|
            self.has(f) && f != frame ==> #[trigger] self.word(f) == other.word(f)
        &&& forall|f: ReadFrameIdx|
            self.has(f) && f != frame ==> #[trigger] self.page(f) == other.page(f)
        &&& forall|f: ReadFrameIdx|
            self.has(f) && f != frame ==> #[trigger] self.contents(f) == other.contents(f)
    }

    /// Preallocates `count` zeroed frames of `granule` bytes each, all `Free`.
    /// `None` when the total span overflows the platform's address width.
    pub fn try_preallocated(ids: &mut ArenaIds, count: u32, granule: u32) -> (frames: Option<Self>)
        requires
            count > 0,
            power_of_two(granule as int),
            granule >= SECTOR_BYTES,
            old(ids).issued() < u32::MAX,
        ensures
            frames is None <==> count * granule > usize::MAX,
            frames is None ==> *final(ids) == *old(ids),
            frames matches Some(f) ==> {
                &&& f.wf()
                &&& f.frame_count() == count
                &&& f.granule_bytes() == granule
                &&& f.arena().0 == old(ids).issued() + 1
                &&& final(ids).issued() == old(ids).issued() + 1
                &&& forall|i: ReadFrameIdx| f.has(i) ==> #[trigger] f.word(i) == 0
                &&& forall|i: ReadFrameIdx| f.has(i) ==> (#[trigger] f.page(i)) is None
                &&& forall|i: ReadFrameIdx|
                    f.has(i) ==> #[trigger] f.contents(i) == Seq::new(granule as nat, |j: int| 0u8)
            },
    {
        let span: Option<usize> = (count as usize).checked_mul(granule as usize);
        if span.is_none() {
            return None;
        }
        let mut bytes: Vec<Vec<u8>> = Vec::new();
        let mut words: Vec<u64> = Vec::new();
        let mut pages: Vec<Option<PageId>> = Vec::new();
        let mut i: u32 = 0;
        while i < count
            invariant
                i <= count,
                bytes@.len() == i,
                words@.len() == i,
                pages@.len() == i,
                forall|j: int| 0 <= j < i ==> #[trigger] words@[j] == 0,
                forall|j: int| 0 <= j < i ==> (#[trigger] pages@[j]) is None,
                forall|j: int|
                    0 <= j < i ==> (#[trigger] bytes@[j])@ == Seq::new(
                        granule as nat,
                        |k: int| 0u8,
                    ),
            decreases count - i,
        {
            let frame: Vec<u8> = vec![0u8; granule as usize];
            assert(frame@ =~= Seq::new(granule as nat, |k: int| 0u8));
            bytes.push(frame);
            words.push(0);
            pages.push(None);
            i = i + 1;
        }
        let id = ArenaId::next(ids);
        Some(Frames { bytes, words, pages, count, granule, id })
    }

    /// Preallocates as [`Frames::try_preallocated`] does, for a span that fits.
    #[must_use]
    pub fn preallocated(ids: &mut ArenaIds, count: u32, granule: u32) -> (f: Self)
        requires
            count > 0,
            power_of_two(granule as int),
            granule >= SECTOR_BYTES,
            count * granule <= usize::MAX,
            old(ids).issued() < u32::MAX,
        ensures
            f.wf(),
            f.frame_count() == count,
            f.granule_bytes() == granule,
            f.arena().0 == old(ids).issued() + 1,
            final(ids).issued() == old(ids).issued() + 1,
            forall|i: ReadFrameIdx| f.has(i) ==> #[trigger] f.word(i) == 0,
            forall|i: ReadFrameIdx| f.has(i) ==> (#[trigger] f.page(i)) is None,
            forall|i: ReadFrameIdx|
                f.has(i) ==> #[trigger] f.contents(i) == Seq::new(granule as nat, |j: int| 0u8),
    {
        Self::try_preallocated(ids, count, granule).unwrap()
    }

    /// An arena has frames, each of a positive size.
    pub proof fn lemma_positive(self)
        requires
            self.wf(),
        ensures
            0 < self.frame_count() <= u32::MAX,
            SECTOR_BYTES <= self.granule_bytes() <= u32::MAX,
            power_of_two(self.granule_bytes() as int),
    {
    }

    /// A published frame has an identity and a whole granule.
    pub proof fn lemma_published(self, frame: ReadFrameIdx)
        requires
            self.wf(),
            self.has(frame),
        ensures
            self.published(frame) ==> self.page(frame) is Some,
            self.contents(frame).len() == self.granule_bytes(),
    {
        assert(self.bytes@[frame.0 as int]@.len() == self.granule);
        assert(self.published(frame) ==> self.pages@[frame.0 as int] is Some);
    }

    /// The identity of this arena.
    pub fn id(&self) -> (id: ArenaId)
        ensures
            id == self.arena(),
    {
        self.id
    }

    #[must_use]
    pub fn count(&self) -> (count: u32)
        ensures
            count == self.frame_count(),
    {
        self.count
    }

    pub fn granule(&self) -> (granule: u32)
        ensures
            granule == self.granule_bytes(),
    {
        self.granule
    }

    /// The total bytes of the arena.
    pub fn span_len(&self) -> (span: u64)
        ensures
            span == self.frame_count() * self.granule_bytes(),
    {
        proof {
            assert(self.count * self.granule <= 0xffff_ffff * 0xffff_ffff) by (nonlinear_arith)
                requires
                    self.count <= 0xffff_ffff,
                    self.granule <= 0xffff_ffff,
            ;
        }
        self.count as u64 * self.granule as u64
    }

    /// Zeroes every frame before first use.
    pub fn populate(&mut self)
        requires
            old(self).wf(),
            forall|f: ReadFrameIdx| old(self).has(f) ==> #[trigger] old(self).residency(f) is Free,
        ensures
            final(self).wf(),
            final(self).same_shape(*old(self)),
            forall|f: ReadFrameIdx|
                final(self).has(f) ==> #[trigger] final(self).word(f) == old(self).word(f),
            forall|f: ReadFrameIdx|
                final(self).has(f) ==> #[trigger] final(self).page(f) == old(self).page(f),
            forall|f: ReadFrameIdx|
                final(self).has(f) ==> #[trigger] final(self).contents(f) == Seq::new(
                    final(self).granule_bytes(),
                    |j: int| 0u8,
                ),
    {
        let count: u32 = self.count;
        let granule: u32 = self.granule;
        let mut i: u32 = 0;
        while i < count
            invariant
                i <= count,
                count == self.count,
                granule == self.granule,
                self.wf(),
                self.same_shape(*old(self)),
                self.words@ == old(self).words@,
                self.pages@ == old(self).pages@,
                forall|j: int|
                    0 <= j < i ==> (#[trigger] self.bytes@[j])@ == Seq::new(
                        granule as nat,
                        |k: int| 0u8,
                    ),
            decreases count - i,
        {
            let frame: Vec<u8> = vec![0u8; granule as usize];
            assert(frame@ =~= Seq::new(granule as nat, |k: int| 0u8));
            self.bytes[i as usize] = frame;
            i = i + 1;
        }
    }

    /// Takes `frame` from `Free` to `InFlight` and writes `page` as its exact
    /// identity, minting the unique write token. `None` when the frame is not
    /// `Free`.
    pub fn claim(&mut self, frame: ReadFrameIdx, page: PageId) -> (token: Option<InFlightFrame>)
        requires
            old(self).wf(),
            old(self).has(frame),
        ensures
            final(self).wf(),
            final(self).same_except(*old(self), frame),
            token is Some <==> old(self).residency(frame) is Free,
            token is None ==> *final(self) == *old(self),
            token matches Some(t) ==> {
                &&& t.arena() == old(self).arena()
                &&& t.target() == frame
                &&& final(self).residency(frame) is InFlight
                &&& final(self).generation(frame) == old(self).generation(frame)
                &&& final(self).page(frame) == Some(page)
                &&& final(self).contents(frame) == old(self).contents(frame)
            },
    {
        let token = match self.claim_unidentified(frame) {
            Some(token) => token,
            None => {
                return None;
            },
        };
        let ghost claimed = *self;
        self.pages[frame.0 as usize] = Some(page);
        proof {
            assert forall|f: ReadFrameIdx| self.has(f) && f != frame implies #[trigger] self.page(f)
                == old(self).page(f) by {
                assert(self.pages@[f.0 as int] == claimed.page(f));
            }
            assert forall|f: ReadFrameIdx| self.has(f) && f != frame implies #[trigger] self.contents(f)
                == old(self).contents(f) by {
                assert(claimed.contents(f) == old(self).contents(f));
            }
            assert forall|f: ReadFrameIdx| self.has(f) && f != frame implies #[trigger] self.word(f)
                == old(self).word(f) by {
                assert(claimed.word(f) == old(self).word(f));
            }
        }
        Some(token)
    }

    /// Takes `frame` from `Free` to `InFlight` without writing an identity, for
    /// a lease that aborts at completion.
    pub fn claim_unidentified(&mut self, frame: ReadFrameIdx) -> (token: Option<InFlightFrame>)
        requires
            old(self).wf(),
            old(self).has(frame),
        ensures
            final(self).wf(),
            final(self).same_except(*old(self), frame),
            token is Some <==> old(self).residency(frame) is Free,
            token is None ==> *final(self) == *old(self),
            token matches Some(t) ==> {
                &&& t.arena() == old(self).arena()
                &&& t.target() == frame
                &&& final(self).residency(frame) is InFlight
                &&& final(self).generation(frame) == old(self).generation(frame)
                &&& final(self).page(frame) == old(self).page(frame)
                &&& final(self).contents(frame) == old(self).contents(frame)
            },
    {
        let index: usize = self.checked_index(frame);
        let current_word: u64 = self.words[index];
        let current = FrameState::from_word(current_word);
        if current != FrameState::Free {
            return None;
        }
        let next = current.advance(FrameState::InFlight);
        let next_word: u64 = current_word - current_word % 4 + next.to_tag() as u64;
        self.words[index] = next_word;
        Some(InFlightFrame::new(self.id, frame))
    }

    /// Fills the token's whole granule with `byte`.
    pub fn fill(&mut self, token: &InFlightFrame, byte: u8)
        requires
            old(self).wf(),
            old(self).owns(*token),
        ensures
            final(self).wf(),
            final(self).same_except(*old(self), token.target()),
            final(self).word(token.target()) == old(self).word(token.target()),
            final(self).page(token.target()) == old(self).page(token.target()),
            final(self).contents(token.target()) == Seq::new(
                final(self).granule_bytes(),
                |j: int| byte,
            ),
    {
        let index: usize = self.owned_index(token);
        let filled: Vec<u8> = vec![byte; self.granule as usize];
        assert(filled@ =~= Seq::new(self.granule as nat, |j: int| byte));
        self.bytes[index] = filled;
    }

    /// Copies `source` into the token's frame at `destination_offset`, as a
    /// completed transfer of that range does.
    pub fn transfer(&mut self, token: &InFlightFrame, destination_offset: u32, source: &[u8])
        requires
            old(self).wf(),
            old(self).owns(*token),
            destination_offset + source@.len() <= old(self).granule_bytes(),
        ensures
            final(self).wf(),
            final(self).same_except(*old(self), token.target()),
            final(self).word(token.target()) == old(self).word(token.target()),
            final(self).page(token.target()) == old(self).page(token.target()),
            final(self).contents(token.target()) == overwritten(
                old(self).contents(token.target()),
                destination_offset as int,
                source@,
            ),
    {
        let index: usize = self.owned_index(token);
        let start: usize = destination_offset as usize;
        let mut frame: Vec<u8> = Vec::new();
        let ghost before = *self;
        std::mem::swap(&mut frame, &mut self.bytes[index]);
        let ghost original = frame@;
        let total: usize = frame.len();
        let mut i: usize = 0;
        while i < source.len()
            invariant
                i <= source@.len(),
                start + source@.len() <= total,
                total == original.len(),
                frame@ == overwritten(original, start as int, source@.subrange(0, i as int)),
            decreases source@.len() - i,
        {
            frame[start + i] = source[i];
            i = i + 1;
            assert(frame@ =~= overwritten(original, start as int, source@.subrange(0, i as int)));
        }
        assert(source@.subrange(0, source@.len() as int) =~= source@);
        self.bytes[index] = frame;
        proof {
            assert(before.bytes@[index as int]@ == original);
            assert forall|j: int| 0 <= j < self.count implies (
            #[trigger] self.bytes@[j])@.len() == self.granule by {
                if j != index {
                    assert(self.bytes@[j] == before.bytes@[j]);
                }
            }
            assert forall|f: ReadFrameIdx| self.has(f) && f != token.target() implies #[trigger] self.contents(f)
                == before.contents(f) by {
                assert(self.bytes@[f.0 as int] == before.bytes@[f.0 as int]);
            }
        }
    }

    /// Consumes the token, publishing the frame `Resident` under a new
    /// residency generation.
    pub fn publish(&mut self, token: InFlightFrame) -> (frame: ReadFrameIdx)
        requires
            old(self).wf(),
            old(self).owns(token),
            old(self).page(token.target()) is Some,
            old(self).generation(token.target()) < FRAME_GENERATION_MAX,
        ensures
            final(self).wf(),
            frame == token.target(),
            final(self).same_except(*old(self), frame),
            final(self).residency(frame) is Resident,
            final(self).generation(frame) == old(self).generation(frame) + 1,
            final(self).page(frame) == old(self).page(frame),
            final(self).contents(frame) == old(self).contents(frame),
    {
        self.consume(token, FrameState::Resident)
    }

    /// Consumes the token, returning the frame to `Free` with its residency
    /// generation intact.
    pub fn abort(&mut self, token: InFlightFrame) -> (frame: ReadFrameIdx)
        requires
            old(self).wf(),
            old(self).owns(token),
        ensures
            final(self).wf(),
            frame == token.target(),
            final(self).same_except(*old(self), frame),
            final(self).residency(frame) is Free,
            final(self).generation(frame) == old(self).generation(frame),
            final(self).page(frame) == old(self).page(frame),
            final(self).contents(frame) == old(self).contents(frame),
    {
        self.consume(token, FrameState::Free)
    }

    /// `token` was minted by this arena and its frame is still `InFlight`.
    pub open spec fn owns(self, token: InFlightFrame) -> bool {
        &&& token.arena() == self.arena()
        &&& self.has(token.target())
        &&& self.residency(token.target()) is InFlight
    }

    fn consume(&mut self, token: InFlightFrame, to: FrameState) -> (frame: ReadFrameIdx)
        requires
            old(self).wf(),
            old(self).owns(token),
            to is Resident || to is Free,
            to is Resident ==> old(self).page(token.target()) is Some,
            to is Resident ==> old(self).generation(token.target()) < FRAME_GENERATION_MAX,
        ensures
            final(self).wf(),
            frame == token.target(),
            final(self).same_except(*old(self), frame),
            final(self).residency(frame) == to,
            final(self).generation(frame) == old(self).generation(frame) + (if to is Resident {
                1int
            } else {
                0int
            }),
            final(self).page(frame) == old(self).page(frame),
            final(self).contents(frame) == old(self).contents(frame),
    {
        let index: usize = self.owned_index(&token);
        let current_word: u64 = self.words[index];
        let current = FrameState::from_word(current_word);
        let next = current.advance(to);
        let generation: u64 = Self::advance_generation(current_word, next);
        self.words[index] = generation * 4 + next.to_tag() as u64;
        token.frame()
    }

    /// The bytes backing `frame`.
    #[must_use]
    pub fn frame_bytes(&self, frame: ReadFrameIdx) -> (bytes: &[u8])
        requires
            self.wf(),
            self.has(frame),
        ensures
            bytes@ == self.contents(frame),
            bytes@.len() == self.granule_bytes(),
    {
        let index: usize = self.checked_index(frame);
        self.bytes[index].as_slice()
    }

    /// Copies the start of `frame` into a new buffer of at most `limit` bytes.
    pub fn copy_frame(&self, frame: ReadFrameIdx, limit: usize) -> (copy: Vec<u8>)
        requires
            self.wf(),
            self.has(frame),
            !(self.residency(frame) is InFlight),
        ensures
            copy@ == self.contents(frame).subrange(
                0,
                if limit < self.granule_bytes() {
                    limit as int
                } else {
                    self.granule_bytes() as int
                },
            ),
    {
        let source = self.frame_bytes(frame);
        let copied: usize = if limit < source.len() {
            limit
        } else {
            source.len()
        };
        let mut copy: Vec<u8> = Vec::new();
        let mut i: usize = 0;
        while i < copied
            invariant
                i <= copied <= source@.len(),
                copy@ == source@.subrange(0, i as int),
            decreases copied - i,
        {
            copy.push(source[i]);
            i = i + 1;
            assert(copy@ =~= source@.subrange(0, i as int));
        }
        copy
    }

    /// The residency state of `frame`.
    #[must_use]
    pub fn state(&self, frame: ReadFrameIdx) -> (state: FrameState)
        requires
            self.wf(),
            self.has(frame),
        ensures
            state == self.residency(frame),
    {
        FrameState::from_word(self.state_word(frame))
    }

    #[must_use]
    pub fn state_word(&self, frame: ReadFrameIdx) -> (word: u64)
        requires
            self.wf(),
            self.has(frame),
        ensures
            word == self.word(frame),
    {
        let index: usize = self.checked_index(frame);
        self.words[index]
    }

    pub fn word_is_resident(word: u64) -> (resident: bool)
        ensures
            resident == (word_state(word) is Resident),
    {
        FrameState::from_word(word) == FrameState::Resident
    }

    /// The exact identity of a frame whose word still equals `stamp` and is
    /// `Resident`; `None` when the frame moved on since the stamp was taken.
    #[must_use]
    pub fn validate_resident(&self, frame: ReadFrameIdx, stamp: u64) -> (page: Option<PageId>)
        requires
            self.wf(),
            self.has(frame),
        ensures
            page == (if self.word(frame) == stamp && word_state(stamp) is Resident {
                self.page(frame)
            } else {
                None
            }),
            page is Some <==> self.word(frame) == stamp && word_state(stamp) is Resident,
    {
        let index: usize = self.checked_index(frame);
        let word: u64 = self.words[index];
        if word != stamp || !Self::word_is_resident(word) {
            return None;
        }
        assert(self.pages@[index as int] is Some);
        self.pages[index]
    }

    /// The exact identity of a published frame.
    #[must_use]
    pub fn exact_page(&self, frame: ReadFrameIdx) -> (page: PageId)
        requires
            self.wf(),
            self.has(frame),
            self.published(frame),
        ensures
            self.page(frame) == Some(page),
    {
        let index: usize = self.checked_index(frame);
        assert(self.pages@[index as int] is Some);
        self.pages[index].unwrap()
    }

    /// Advances `frame` along a reclamation edge, `Resident -> Evicting` or
    /// `Evicting -> Free`. The edges into and out of `InFlight` belong to the
    /// token.
    pub fn advance(&mut self, frame: ReadFrameIdx, to: FrameState)
        requires
            old(self).wf(),
            old(self).has(frame),
            reclamation_edge(old(self).residency(frame), to),
        ensures
            final(self).wf(),
            final(self).same_except(*old(self), frame),
            final(self).residency(frame) == to,
            final(self).generation(frame) == old(self).generation(frame),
            final(self).page(frame) == old(self).page(frame),
            final(self).contents(frame) == old(self).contents(frame),
    {
        let index: usize = self.checked_index(frame);
        let current_word: u64 = self.words[index];
        let current = FrameState::from_word(current_word);
        let next = current.advance(to);
        let generation: u64 = Self::advance_generation(current_word, next);
        assert(self.pages@[index as int] is Some);
        self.words[index] = generation * 4 + next.to_tag() as u64;
    }

    fn advance_generation(current_word: u64, next: FrameState) -> (generation: u64)
        requires
            next is Resident ==> word_generation(current_word) < FRAME_GENERATION_MAX,
        ensures
            generation == word_generation(current_word) + (if next is Resident {
                1int
            } else {
                0int
            }),
            generation <= FRAME_GENERATION_MAX,
    {
        let generation: u64 = current_word / 4;
        if next == FrameState::Resident {
            generation + 1
        } else {
            generation
        }
    }

    fn checked_index(&self, frame: ReadFrameIdx) -> (index: usize)
        requires
            self.wf(),
            self.has(frame),
        ensures
            index == frame.0,
            index < self.words@.len(),
            index < self.pages@.len(),
            index < self.bytes@.len(),
    {
        frame.0 as usize
    }

    fn owned_index(&self, token: &InFlightFrame) -> (index: usize)
        requires
            self.wf(),
            self.owns(*token),
        ensures
            index == token.target().0,
            index < self.words@.len(),
            index < self.pages@.len(),
            index < self.bytes@.len(),
    {
        token.index()
    }
}

/// `original` with `source` written over it from `start` on.
pub open spec fn overwritten(original: Seq<u8>, start: int, source: Seq<u8>) -> Seq<u8> {
    Seq::new(
        original.len(),
        |i: int|
            if start <= i < start + source.len() {
                source[i - start]
            } else {
                original[i]
            },
    )
}

/// The base alignment of an arena of `span` bytes. On Linux an arena at least a
/// hugepage large is aligned to a hugepage, or to its granule if that is
/// larger; any other arena is aligned to its granule.
pub fn arena_alignment(linux: bool, span: usize, granule: u32) -> (alignment: usize)
    ensures
        alignment == (if linux && span >= HUGEPAGE_BYTES && granule < HUGEPAGE_BYTES {
            HUGEPAGE_BYTES
        } else {
            granule as usize
        }),
{
    if linux && span >= HUGEPAGE_BYTES {
        if HUGEPAGE_BYTES < granule as usize {
            granule as usize
        } else {
            HUGEPAGE_BYTES
        }
    } else {
        granule as usize
    }
}

/// The `Free` frames as a fixed stack, so a claim pops in constant time.
#[derive(Debug)]
pub struct FreeFrames {
    frames: Vec<ReadFrameIdx>,
    capacity: u32,
}

impl FreeFrames {
    pub closed spec fn view(&self) -> Seq<ReadFrameIdx> {
        self.frames@
    }

    pub closed spec fn room(self) -> nat {
        self.capacity as nat
    }

    pub open spec fn wf(self) -> bool {
        self@.len() <= self.room()
    }

    pub fn try_with_all(frame_count: u32) -> (free: Option<Self>)
        ensures
            free matches Some(f) && f.wf() && f.room() == frame_count && f@ == Seq::new(
                frame_count as nat,
                |i: int| ReadFrameIdx((frame_count - 1 - i) as u32),
            ),
    {
        Some(Self::with_all(frame_count))
    }

    /// Holds every frame, ordered so the first pop claims frame 0.
    pub fn with_all(frame_count: u32) -> (free: Self)
        ensures
            free.wf(),
            free.room() == frame_count,
            free@ == Seq::new(
                frame_count as nat,
                |i: int| ReadFrameIdx((frame_count - 1 - i) as u32),
            ),
    {
        let mut frames: Vec<ReadFrameIdx> = Vec::new();
        let mut next: u32 = frame_count;
        while next > 0
            invariant
                next <= frame_count,
                frames@ == Seq::new(
                    (frame_count - next) as nat,
                    |i: int| ReadFrameIdx((frame_count - 1 - i) as u32),
                ),
            decreases next,
        {
            next = next - 1;
            frames.push(ReadFrameIdx(next));
            assert(frames@ =~= Seq::new(
                (frame_count - next) as nat,
                |i: int| ReadFrameIdx((frame_count - 1 - i) as u32),
            ));
        }
        FreeFrames { frames, capacity: frame_count }
    }

    pub fn try_empty(capacity: u32) -> (free: Option<Self>)
        ensures
            free matches Some(f) && f.wf() && f.room() == capacity && f@ == Seq::<
                ReadFrameIdx,
            >::empty(),
    {
        Some(Self::empty(capacity))
    }

    /// Holds no frame but has room for `capacity`.
    pub fn empty(capacity: u32) -> (free: Self)
        ensures
            free.wf(),
            free.room() == capacity,
            free@ == Seq::<ReadFrameIdx>::empty(),
    {
        FreeFrames { frames: Vec::new(), capacity }
    }

    pub fn push(&mut self, frame: ReadFrameIdx)
        requires
            old(self).wf(),
            old(self)@.len() < old(self).room(),
        ensures
            final(self).wf(),
            final(self).room() == old(self).room(),
            final(self)@ == old(self)@.push(frame),
    {
        self.frames.push(frame);
    }

    pub fn pop(&mut self) -> (frame: Option<ReadFrameIdx>)
        requires
            old(self).wf(),
        ensures
            final(self).wf(),
            final(self).room() == old(self).room(),
            old(self)@.len() == 0 ==> frame is None && final(self)@ == old(self)@,
            old(self)@.len() > 0 ==> frame == Some(old(self)@.last()) && final(self)@ == old(
                self,
            )@.drop_last(),
    {
        self.frames.pop()
    }

    /// The frame the next pop claims.
    pub fn top(&self) -> (frame: Option<ReadFrameIdx>)
        ensures
            frame is Some <==> self@.len() > 0,
            frame matches Some(f) ==> f == self@.last(),
    {
        if self.frames.len() > 0 {
            Some(self.frames[self.frames.len() - 1])
        } else {
            None
        }
    }

    pub fn len(&self) -> (len: u32)
        requires
            self.wf(),
        ensures
            len == self@.len(),
    {
        self.frames.len() as u32
    }
}

/// A frame goes round: from free to in flight, from there to resident or back,
/// from resident to evicting, and from evicting to free; there is no other way,
/// and only the two steps out of residence need no write token.
pub proof fn a_frame_goes_round(from: FrameState, to: FrameState)
    ensures
        from is Free ==> (legal_edge(from, to) <==> to is InFlight),
        from is InFlight ==> (legal_edge(from, to) <==> to is Resident || to is Free),
        from is Resident ==> (legal_edge(from, to) <==> to is Evicting),
        from is Evicting ==> (legal_edge(from, to) <==> to is Free),
        reclamation_edge(from, to) ==> legal_edge(from, to),
        reclamation_edge(from, to) <==> legal_edge(from, to) && (from is Resident
            || from is Evicting),
{
}

/// A residency word tells its state and its generation apart: each pair of them
/// has a word of its own.
pub proof fn a_word_holds_state_and_generation(a: u64, b: u64)
    ensures
        a == b <==> word_state(a) == word_state(b) && word_generation(a) == word_generation(b),
        state_tag(word_state(a)) == a % 4,
        0 <= word_generation(a) <= 0x3fff_ffff_ffff_ffff,
{
}

} // verus!
