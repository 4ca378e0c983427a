//! Product-level operation, progress and wake vocabulary.

use crate::driver::FileId;
use crate::error::IoError;
use crate::pool::write_arena::{WriteArena, WriteSlot};
use crate::text::{append_decimal, decimal, lemma_quotes, quotes};
use vstd::prelude::*;
use vstd::string::*;

verus! {

/// Pool-level submission backpressure or capability mismatch.
#[derive(Debug, Clone, Copy, PartialEq, Eq, Hash, Structural)]
pub enum PoolSubmitError {
    /// Every configured product-operation slot remains occupied.
    Full,
    /// The exact file generation is retired or has been reused.
    StaleFile { file: FileId },
    /// A staging slot was minted by another pool.
    ForeignPool,
}

/// The text of a file identity.
pub open spec fn file_text(file: FileId) -> Seq<char> {
    "FileId { driver: "@ + decimal(file.driver as nat) + ", slot: "@ + decimal(file.slot as nat)
        + ", generation: "@ + decimal(file.generation as nat) + " }"@
}

/// Appends the text of a file identity.
pub fn append_file(out: &mut String, file: FileId)
    ensures
        final(out)@ == old(out)@ + file_text(file),
{
    out.append("FileId { driver: ");
    append_decimal(out, file.driver());
    out.append(", slot: ");
    append_decimal(out, file.slot() as u64);
    out.append(", generation: ");
    append_decimal(out, file.generation() as u64);
    out.append(" }");
    assert(out@ =~= old(out)@ + file_text(file));
}

impl PoolSubmitError {
    pub open spec fn text(self) -> Seq<char> {
        match self {
            PoolSubmitError::Full => "product operation capacity full"@,
            PoolSubmitError::StaleFile { file } => "stale product file "@ + file_text(file),
            PoolSubmitError::ForeignPool => "write slot belongs to another pool"@,
        }
    }

    pub fn message(&self) -> (message: String)
        ensures
            message@ == self.text(),
    {
        match self {
            PoolSubmitError::Full => String::from_str("product operation capacity full"),
            PoolSubmitError::StaleFile { file } => {
                let mut out: String = String::from_str("stale product file ");
                append_file(&mut out, *file);
                out
            },
            PoolSubmitError::ForeignPool => String::from_str("write slot belongs to another pool"),
        }
    }
}

/// Opaque pool operation slot and generation.
#[derive(Debug, Clone, Copy, PartialEq, Eq, Hash, Structural)]
pub struct PoolToken(pub u64);

/// The token of generation `generation` of slot `slot`.
pub open spec fn token_of(slot: u32, generation: u32) -> PoolToken {
    PoolToken((generation * 0x1_0000_0000 + slot) as u64)
}

impl PoolToken {
    pub(crate) fn new(slot: u32, generation: u32) -> (token: Self)
        ensures
            token == token_of(slot, generation),
    {
        PoolToken(generation as u64 * 0x1_0000_0000 + slot as u64)
    }
}

/// Tokens of different slots or generations differ.
pub proof fn tokens_are_distinct(slot: u32, generation: u32, other_slot: u32, other: u32)
    ensures
        token_of(slot, generation) == token_of(other_slot, other) <==> slot == other_slot
            && generation == other,
{
    let a: int = generation * 0x1_0000_0000 + slot;
    let b: int = other * 0x1_0000_0000 + other_slot;
    assert(0 <= a <= u64::MAX && 0 <= b <= u64::MAX);
}

/// Caller-owned terminal product result.
#[allow(inconsistent_fields)]
#[derive(Debug, Clone, Copy, PartialEq, Eq)]
pub enum PoolCompletion {
    /// A positional write result.
    Write { token: PoolToken, result: Result<u32, IoError> },
    /// A durability barrier result.
    Fsync { token: PoolToken, result: Result<(), IoError> },
}

impl PoolCompletion {
    /// The operation this result ends.
    pub open spec fn ends(self) -> PoolToken {
        match self {
            PoolCompletion::Write { token, .. } => token,
            PoolCompletion::Fsync { token, .. } => token,
        }
    }

    /// The operation this result ends.
    pub fn token(&self) -> (token: PoolToken)
        ensures
            token == self.ends(),
    {
        match self {
            PoolCompletion::Write { token, .. } => *token,
            PoolCompletion::Fsync { token, .. } => *token,
        }
    }
}

/// Fixed-capacity delivery batch. Capacity zero requests progress only.
#[derive(Debug)]
pub struct PoolCompletionBatch {
    items: Vec<PoolCompletion>,
    capacity: usize,
}

impl PoolCompletionBatch {
    pub closed spec fn view(&self) -> Seq<PoolCompletion> {
        self.items@
    }

    pub closed spec fn room(self) -> nat {
        self.capacity as nat
    }

    pub open spec fn wf(self) -> bool {
        self@.len() <= self.room() <= usize::MAX
    }

    #[must_use]
    pub fn with_capacity(capacity: usize) -> (batch: Self)
        ensures
            batch.wf(),
            batch.room() == capacity,
            batch@ == Seq::<PoolCompletion>::empty(),
    {
        PoolCompletionBatch { items: Vec::new(), capacity }
    }

    /// The delivered completions in order.
    pub fn iter(&self) -> (items: &Vec<PoolCompletion>)
        ensures
            items@ == self@,
    {
        &self.items
    }

    pub fn reset(&mut self)
        requires
            old(self).wf(),
        ensures
            final(self).wf(),
            final(self).room() == old(self).room(),
            final(self)@ == Seq::<PoolCompletion>::empty(),
    {
        self.items.clear();
    }

    pub fn push(&mut self, completion: PoolCompletion)
        requires
            old(self).wf(),
            old(self)@.len() < old(self).room(),
        ensures
            final(self).wf(),
            final(self).room() == old(self).room(),
            final(self)@ == old(self)@.push(completion),
    {
        self.items.push(completion);
    }

    pub fn remaining(&self) -> (remaining: usize)
        requires
            self.wf(),
        ensures
            remaining == self.room() - self@.len(),
    {
        self.capacity - self.items.len()
    }
}

/// Truthful progress from one pool pass.
#[derive(Debug, Clone, Copy, PartialEq, Eq, Structural)]
pub struct PollReport {
    pub backend: u32,
    pub reclaimed: u32,
}

impl PollReport {
    /// The pass that delivered `out` made progress.
    pub open spec fn progressed(self, out: Seq<PoolCompletion>) -> bool {
        self.backend > 0 || self.reclaimed > 0 || out.len() > 0
    }

    pub fn new(backend_completions: u32, reclaimed_frames: u32) -> (report: Self)
        ensures
            report == (PollReport { backend: backend_completions, reclaimed: reclaimed_frames }),
    {
        PollReport { backend: backend_completions, reclaimed: reclaimed_frames }
    }

    #[must_use]
    pub fn backend_completions(self) -> (count: u32)
        ensures
            count == self.backend,
    {
        self.backend
    }

    #[must_use]
    pub fn reclaimed_frames(self) -> (count: u32)
        ensures
            count == self.reclaimed,
    {
        self.reclaimed
    }
}

/// Typed state of a deferred product file retirement.
#[derive(Debug, Clone, Copy, PartialEq, Eq, Hash, Structural)]
pub enum RetireStatus {
    /// At least one admitted capability or resource still drains.
    Retiring,
    /// Every capability, frame, completion and backend file is gone.
    Retired,
}

/// A pool's window onto the driver's staging slots.
#[derive(Debug, Clone, Copy, PartialEq, Eq, Structural)]
pub struct PoolWriteArena {
    pub pool_identity: u64,
    pub enabled_slots: u32,
}

impl PoolWriteArena {
    /// Leases the lowest free staging slot among the enabled ones.
    #[must_use]
    pub fn lease(&self, arena: &mut WriteArena) -> (slot: Option<PoolWriteSlot>)
        requires
            old(arena).wf(),
        ensures
            final(arena).wf(),
            slot is Some <==> exists|i: int|
                0 <= i < old(arena).slot_count() && i < self.enabled_slots && #[trigger] old(
                    arena,
                ).is_free(i),
            match slot {
                Some(leased) => {
                    &&& leased.pool_identity == self.pool_identity
                    &&& leased.slot.index() < self.enabled_slots
                    &&& final(arena).leased(*old(arena), leased.slot)
                },
                None => *final(arena) == *old(arena),
            },
    {
        match arena.lease_within(self.enabled_slots) {
            Some(slot) => Some(PoolWriteSlot { slot, pool_identity: self.pool_identity }),
            None => None,
        }
    }
}

/// Exclusive lease of one product staging granule.
#[derive(Debug)]
pub struct PoolWriteSlot {
    pub slot: WriteSlot,
    pub pool_identity: u64,
}

/// Observation counters of live registrations and waits.
#[derive(Debug, Clone, Copy, PartialEq, Eq, Structural)]
pub struct LifecycleCounters {
    pub registered_readers: u32,
    pub reader_releases: u32,
    pub live_pending_interests: u32,
    pub pending_releases: u32,
    pub backend_ops_in_flight: u32,
    pub backend_completions: u32,
    pub quiesce_calls: u32,
}

impl LifecycleCounters {
    pub fn new() -> (counters: Self)
        ensures
            counters == (LifecycleCounters {
                registered_readers: 0,
                reader_releases: 0,
                live_pending_interests: 0,
                pending_releases: 0,
                backend_ops_in_flight: 0,
                backend_completions: 0,
                quiesce_calls: 0,
            }),
    {
        LifecycleCounters {
            registered_readers: 0,
            reader_releases: 0,
            live_pending_interests: 0,
            pending_releases: 0,
            backend_ops_in_flight: 0,
            backend_completions: 0,
            quiesce_calls: 0,
        }
    }

    pub fn register_reader(&mut self)
        ensures
            *final(self) == (LifecycleCounters {
                registered_readers: old(self).registered_readers.wrapping_add(1),
                ..*old(self)
            }),
    {
        self.registered_readers = self.registered_readers.wrapping_add(1);
    }

    pub fn release_reader(&mut self)
        ensures
            *final(self) == (LifecycleCounters {
                registered_readers: old(self).registered_readers.wrapping_sub(1),
                reader_releases: old(self).reader_releases.wrapping_add(1),
                ..*old(self)
            }),
    {
        self.registered_readers = self.registered_readers.wrapping_sub(1);
        self.reader_releases = self.reader_releases.wrapping_add(1);
    }

    pub fn register_pending(&mut self)
        ensures
            *final(self) == (LifecycleCounters {
                live_pending_interests: old(self).live_pending_interests.wrapping_add(1),
                ..*old(self)
            }),
    {
        self.live_pending_interests = self.live_pending_interests.wrapping_add(1);
    }

    pub fn release_pending(&mut self)
        ensures
            *final(self) == (LifecycleCounters {
                live_pending_interests: old(self).live_pending_interests.wrapping_sub(1),
                pending_releases: old(self).pending_releases.wrapping_add(1),
                ..*old(self)
            }),
    {
        self.live_pending_interests = self.live_pending_interests.wrapping_sub(1);
        self.pending_releases = self.pending_releases.wrapping_add(1);
    }
}

/// What follows a pass of an owner loop that may wait.
#[derive(Debug, Clone, Copy, PartialEq, Eq, Structural)]
pub enum Pause {
    /// The pass made progress, which is reported.
    Progress,
    /// A wake or a release is there already: the next pass follows at once.
    Ready,
    /// A wait is armed, for the latch to leave this generation.
    Armed(u64),
}

/// One generation latch used by product I/O and external ingress. A wait is
/// armed by `begin_wait`, blocks outside this state, and ends in `finish_wait`.
#[derive(Debug, Clone, Copy, PartialEq, Eq, Structural)]
pub struct WaitState {
    pub current: u64,
    pub consumed: u64,
    pub ring_pending: bool,
    pub parks_entered: u32,
    pub parks_in_progress: u32,
    pub parks_exited: u32,
    pub wake_exits: u32,
    pub timeout_exits: u32,
}

impl Default for WaitState {
    fn default() -> (state: Self)
        ensures
            state == (WaitState {
                current: 0,
                consumed: 0,
                ring_pending: false,
                parks_entered: 0,
                parks_in_progress: 0,
                parks_exited: 0,
                wake_exits: 0,
                timeout_exits: 0,
            }),
    {
        WaitState {
            current: 0,
            consumed: 0,
            ring_pending: false,
            parks_entered: 0,
            parks_in_progress: 0,
            parks_exited: 0,
            wake_exits: 0,
            timeout_exits: 0,
        }
    }
}

impl WaitState {
    /// The state after one wake.
    pub open spec fn woken_once(self) -> WaitState {
        WaitState { current: self.current.wrapping_add(1), ..self }
    }

    /// The state after `n` wakes.
    pub open spec fn woken_times(self, n: nat) -> WaitState
        decreases n,
    {
        if n == 0 {
            self
        } else {
            self.woken_times((n - 1) as nat).woken_once()
        }
    }

    pub fn wake(&mut self)
        ensures
            *final(self) == old(self).woken_once(),
    {
        self.current = self.current.wrapping_add(1);
    }

    /// Wakes a parked waiter and returns whether there was one.
    pub fn wake_if_parked(&mut self) -> (woke: bool)
        ensures
            woke == (old(self).parks_in_progress != 0),
            *final(self) == (if woke {
                old(self).woken_once()
            } else {
                *old(self)
            }),
    {
        if self.parks_in_progress == 0 {
            return false;
        }
        self.current = self.current.wrapping_add(1);
        true
    }

    pub fn set_ring_pending(&mut self)
        ensures
            *final(self) == (WaitState { ring_pending: true, ..*old(self) }),
    {
        self.ring_pending = true;
    }

    pub fn clear_ring_pending(&mut self)
        ensures
            *final(self) == (WaitState { ring_pending: false, ..*old(self) }),
    {
        self.ring_pending = false;
    }

    pub fn ring_may_be_pending(&self) -> (pending: bool)
        ensures
            pending == self.ring_pending,
    {
        self.ring_pending
    }

    pub fn consume_current(&mut self)
        ensures
            *final(self) == (WaitState { consumed: old(self).current, ..*old(self) }),
    {
        self.consumed = self.current;
    }

    /// Arms a wait and returns the generation it waits to leave. An unconsumed
    /// wake is consumed instead, and a pending release keeps the caller from
    /// parking.
    pub fn begin_wait(&mut self) -> (armed: Option<u64>)
        ensures
            old(self).current != old(self).consumed ==> armed is None && *final(self) == (
            WaitState { consumed: old(self).current, ..*old(self) }),
            old(self).current == old(self).consumed && old(self).ring_pending ==> armed is None
                && *final(self) == *old(self),
            old(self).current == old(self).consumed && !old(self).ring_pending ==> armed == Some(
                old(self).current,
            ) && *final(self) == (WaitState {
                parks_in_progress: old(self).parks_in_progress.wrapping_add(1),
                parks_entered: old(self).parks_entered.wrapping_add(1),
                ..*old(self)
            }),
    {
        if self.current != self.consumed {
            self.consumed = self.current;
            return None;
        }
        if self.ring_pending {
            return None;
        }
        self.parks_in_progress = self.parks_in_progress.wrapping_add(1);
        self.parks_entered = self.parks_entered.wrapping_add(1);
        Some(self.current)
    }

    /// Decides what follows a pass: progress is reported at once, and a pass
    /// without any is followed by a wait, unless there is already something to
    /// wake for.
    pub fn pause_after(&mut self, report: PollReport, out: &PoolCompletionBatch) -> (pause: Pause)
        ensures
            pause is Progress <==> report.progressed(out@),
            pause is Progress ==> *final(self) == *old(self),
            !report.progressed(out@) && old(self).current != old(self).consumed ==> pause is Ready
                && *final(self) == (WaitState { consumed: old(self).current, ..*old(self) }),
            !report.progressed(out@) && old(self).current == old(self).consumed && old(
                self,
            ).ring_pending ==> pause is Ready && *final(self) == *old(self),
            !report.progressed(out@) && old(self).current == old(self).consumed && !old(
                self,
            ).ring_pending ==> pause == Pause::Armed(old(self).current) && *final(self) == (
            WaitState {
                parks_in_progress: old(self).parks_in_progress.wrapping_add(1),
                parks_entered: old(self).parks_entered.wrapping_add(1),
                ..*old(self)
            }),
    {
        if report.backend > 0 || report.reclaimed > 0 || out.iter().len() > 0 {
            return Pause::Progress;
        }
        match self.begin_wait() {
            Some(armed) => Pause::Armed(armed),
            None => Pause::Ready,
        }
    }

    /// Whether a wake arrived since `armed`.
    pub fn woken(&self, armed: u64) -> (woken: bool)
        ensures
            woken == (self.current != armed),
    {
        self.current != armed
    }

    /// Ends a wait: a wake since `armed` is consumed, anything else timed out.
    pub fn finish_wait(&mut self, armed: u64)
        ensures
            old(self).current != armed ==> *final(self) == (WaitState {
                consumed: old(self).current,
                parks_in_progress: old(self).parks_in_progress.wrapping_sub(1),
                parks_exited: old(self).parks_exited.wrapping_add(1),
                wake_exits: old(self).wake_exits.wrapping_add(1),
                ..*old(self)
            }),
            old(self).current == armed ==> *final(self) == (WaitState {
                parks_in_progress: old(self).parks_in_progress.wrapping_sub(1),
                parks_exited: old(self).parks_exited.wrapping_add(1),
                timeout_exits: old(self).timeout_exits.wrapping_add(1),
                ..*old(self)
            }),
    {
        let woken: bool = self.current != armed;
        if woken {
            self.consumed = self.current;
        }
        self.parks_in_progress = self.parks_in_progress.wrapping_sub(1);
        self.parks_exited = self.parks_exited.wrapping_add(1);
        if woken {
            self.wake_exits = self.wake_exits.wrapping_add(1);
        } else {
            self.timeout_exits = self.timeout_exits.wrapping_add(1);
        }
    }
}

/// A wake is never lost: one that arrives before the wait is armed keeps the
/// caller from parking, and one that arrives while it is parked ends the wait
/// as a wake.
pub proof fn wakes_are_not_lost(idle: WaitState)
    requires
        idle.current == idle.consumed,
    ensures
        idle.woken_once().current != idle.woken_once().consumed,
        idle.woken_once().current != idle.current,
{
}

/// External wake capability of one pool.
#[derive(Debug, Clone, Copy, PartialEq, Eq, Structural)]
pub struct PoolWakeHandle {
    pub pool_identity: u64,
}

impl PoolWakeHandle {
    pub fn wake(&self, state: &mut WaitState)
        ensures
            *final(state) == old(state).woken_once(),
    {
        state.wake();
    }
}

/// Wakes add up: after fewer of them than the counter has values, an idle loop
/// finds them unconsumed, and each has moved the counter on by one.
pub proof fn wakes_add_up(idle: WaitState, n: nat)
    ensures
        idle.woken_times(n).current == (idle.current + n) % 0x1_0000_0000_0000_0000,
        idle.woken_times(n).consumed == idle.consumed,
        idle.woken_times(n).ring_pending == idle.ring_pending,
        idle.woken_times(n).parks_in_progress == idle.parks_in_progress,
        idle.current == idle.consumed && 0 < n < 0x1_0000_0000_0000_0000 ==> idle.woken_times(
            n,
        ).current != idle.consumed,
    decreases n,
{
    if n > 0 {
        wakes_add_up(idle, (n - 1) as nat);
    }
}

/// A pass makes progress exactly when it took a result from the host, reclaimed
/// a frame or delivered a completion.
pub proof fn progress_is_results_frames_or_deliveries(
    report: PollReport,
    out: Seq<PoolCompletion>,
)
    ensures
        !report.progressed(out) <==> report.backend == 0 && report.reclaimed == 0 && out.len() == 0,
{
}

/// A text that names a file quotes its driver, its slot and its generation.
pub proof fn a_named_file_is_quoted(front: Seq<char>, file: FileId, back: Seq<char>)
    ensures
        quotes(front + file_text(file) + back, file.driver as int),
        quotes(front + file_text(file) + back, file.slot as int),
        quotes(front + file_text(file) + back, file.generation as int),
{
    let text = front + file_text(file) + back;
    let driver = decimal(file.driver as nat);
    let slot = decimal(file.slot as nat);
    let generation = decimal(file.generation as nat);
    let first = front + "FileId { driver: "@;
    let second = first + driver + ", slot: "@;
    let third = second + slot + ", generation: "@;
    let end = " }"@ + back;
    lemma_quotes(third, file.generation as nat, end);
    assert(text =~= third + generation + end);
    lemma_quotes(second, file.slot as nat, ", generation: "@ + generation + end);
    assert(text =~= second + slot + (", generation: "@ + generation + end));
    lemma_quotes(first, file.driver as nat, ", slot: "@ + slot + ", generation: "@ + generation + end);
    assert(text =~= first + driver + (", slot: "@ + slot + ", generation: "@ + generation + end));
}

/// A submission that is refused for its file quotes the file.
pub proof fn a_refused_submission_names_its_file(file: FileId)
    ensures
        ({
            let text = (PoolSubmitError::StaleFile { file }).text();
            &&& quotes(text, file.driver as int)
            &&& quotes(text, file.slot as int)
            &&& quotes(text, file.generation as int)
        }),
{
    let text = (PoolSubmitError::StaleFile { file }).text();
    a_named_file_is_quoted("stale product file "@, file, Seq::empty());
    assert(text + Seq::<char>::empty() =~= text);
}

} // verus!
