//! The driver ring: the fixed slab of operations the pool submits, the file
//! handles they name, and the completions the host hands back.
//!
//! The ring performs no I/O. The host takes submitted operations from it,
//! performs them, and records each result under the operation's token.

use crate::error::{IoError, SubmitError};
use crate::pool::frames::ReadFrameIdx;
use vstd::prelude::*;

verus! {

/// A generational file identity: the driver that opened the file, its slot in
/// the fixed file table, and the generation of that slot.
#[derive(Debug, Clone, Copy, PartialEq, Eq, Hash, Structural)]
pub struct FileId {
    pub driver: u64,
    pub slot: u32,
    pub generation: u32,
}

impl FileId {
    pub fn new(driver: u64, slot: u32, generation: u32) -> (id: Self)
        ensures
            id == (FileId { driver, slot, generation }),
    {
        FileId { driver, slot, generation }
    }

    /// The driver that opened the file.
    pub fn driver(self) -> (driver: u64)
        ensures
            driver == self.driver,
    {
        self.driver
    }

    /// The slot in the fixed file table.
    pub fn slot(self) -> (slot: u32)
        ensures
            slot == self.slot,
    {
        self.slot
    }

    /// The generation of the slot.
    pub fn generation(self) -> (generation: u32)
        ensures
            generation == self.generation,
    {
        self.generation
    }
}

/// The file slots a driver registers by default.
pub const DEFAULT_REGISTERED_FILE_CAPACITY: u32 = 64;

/// Whether buffers are registered with the kernel.
#[derive(Debug, Clone, Copy, PartialEq, Eq, Structural)]
pub enum RegistrationPolicy {
    /// Register where the host allows it.
    Auto,
    Registered,
    Unregistered,
}

/// The posture a driver actually runs.
#[derive(Debug, Clone, Copy, PartialEq, Eq, Structural)]
pub enum RegistrationPosture {
    Registered,
    Unregistered,
}

/// Whether a refused arena lock fails the build.
#[derive(Debug, Clone, Copy, PartialEq, Eq, Structural)]
pub enum ArenaLockPolicy {
    BestEffort,
    Required,
}

/// One admitted driver operation: its slot in the fixed operation slab and the
/// generation of that slot.
#[derive(Debug, Clone, Copy, PartialEq, Eq, Hash, Structural)]
pub struct OpToken {
    pub slot: u32,
    pub generation: u32,
}

impl OpToken {
    pub fn new(slot: u32, generation: u32) -> (token: Self)
        ensures
            token == (OpToken { slot, generation }),
    {
        OpToken { slot, generation }
    }

    /// The slot in the operation slab.
    pub fn slot(self) -> (slot: u32)
        ensures
            slot == self.slot,
    {
        self.slot
    }
}

/// What an operation does.
#[derive(Debug, Clone, Copy, PartialEq, Eq, Hash, Structural)]
pub enum OpKind {
    Read,
    Write,
    Fsync,
}

/// How much of a file a durability barrier covers.
#[derive(Debug, Clone, Copy, PartialEq, Eq, Hash, Structural)]
pub enum SyncMode {
    Full,
}

/// The unit direct I/O on a device is aligned to; zero asks for nothing.
#[derive(Debug, Clone, Copy, PartialEq, Eq, Hash, Structural)]
pub struct Alignment {
    pub bytes: u32,
}

impl Alignment {
    /// Whether `value` is a multiple of the unit.
    pub open spec fn divides(self, value: int) -> bool {
        self.bytes == 0 || value % (self.bytes as int) == 0
    }

    pub fn check(self, value: u64) -> (aligned: bool)
        ensures
            aligned == self.divides(value as int),
    {
        self.bytes == 0 || value % (self.bytes as u64) == 0
    }
}

/// The negotiated data-plane mode of an open file.
#[derive(Debug, Clone, Copy, PartialEq, Eq, Hash, Structural)]
pub enum IoMode {
    Buffered,
    Direct(Alignment),
}

/// Names an open file to the driver.
#[derive(Debug, Clone, Copy, PartialEq, Eq, Structural)]
pub struct FileHandle {
    pub file: FileId,
    pub mode: IoMode,
}

impl FileHandle {
    pub fn file_id(&self) -> (file: FileId)
        ensures
            file == self.file,
    {
        self.file
    }

    pub fn io_mode(&self) -> (mode: IoMode)
        ensures
            mode == self.mode,
    {
        self.mode
    }
}

/// One operation for the host to perform.
#[derive(Debug, Clone, Copy, PartialEq, Eq, Structural)]
pub enum Request {
    /// Read `len` bytes at file offset `offset` into a frame, from byte
    /// `destination_offset` of the frame on.
    Read { file: FileId, frame: ReadFrameIdx, destination_offset: u32, offset: u64, len: u32 },
    /// Write a staging slot at file offset `offset`.
    Write { file: FileId, slot: u32, offset: u64 },
    /// Make every completed write of the file durable.
    Fsync { file: FileId },
}

impl Request {
    pub open spec fn sort(self) -> OpKind {
        match self {
            Request::Read { .. } => OpKind::Read,
            Request::Write { .. } => OpKind::Write,
            Request::Fsync { .. } => OpKind::Fsync,
        }
    }

    pub open spec fn target(self) -> FileId {
        match self {
            Request::Read { file, .. } => file,
            Request::Write { file, .. } => file,
            Request::Fsync { file } => file,
        }
    }

    pub fn kind(&self) -> (kind: OpKind)
        ensures
            kind == self.sort(),
    {
        match self {
            Request::Read { .. } => OpKind::Read,
            Request::Write { .. } => OpKind::Write,
            Request::Fsync { .. } => OpKind::Fsync,
        }
    }
}

/// Where an operation slot stands.
#[allow(inconsistent_fields)]
#[derive(Debug, Clone, Copy)]
pub enum OpState {
    Vacant,
    /// Submitted, not yet taken by the host.
    Submitted(Request),
    /// In the host's hands.
    Issued(Request),
    /// Performed; the result awaits routing.
    Finished(Request, Result<u32, IoError>),
}

/// Where a file slot of the driver stands.
#[derive(Debug, Clone, Copy, PartialEq, Eq, Structural)]
pub enum HandleState {
    Vacant,
    Open(IoMode),
    /// Given up by the pool, not yet closed by the host.
    Closing,
    Closed,
}

/// A performed operation on its way back to whoever submitted it.
#[derive(Debug, Clone, Copy)]
pub struct Completion {
    pub token: OpToken,
    pub request: Request,
    pub result: Result<u32, IoError>,
}

/// An operation taken by the host, under the token its result is recorded by.
#[derive(Debug, Clone, Copy, PartialEq, Eq, Structural)]
pub struct Submission {
    pub token: OpToken,
    pub request: Request,
}

/// The driver ring.
#[derive(Debug)]
pub struct Driver {
    identity: u64,
    states: Vec<OpState>,
    generations: Vec<u32>,
    handles: Vec<HandleState>,
    file_generations: Vec<u32>,
    posture: RegistrationPosture,
    locked: bool,
}

impl Driver {
    /// The driver's identity, which its files carry.
    pub closed spec fn owner(self) -> u64 {
        self.identity
    }

    /// The operation slots.
    pub closed spec fn capacity(self) -> nat {
        self.states@.len()
    }

    pub closed spec fn state_at(self, i: int) -> OpState {
        self.states@[i]
    }

    pub closed spec fn generation_at(self, i: int) -> u32 {
        self.generations@[i]
    }

    /// The file slots.
    pub closed spec fn file_capacity(self) -> nat {
        self.handles@.len()
    }

    pub closed spec fn handle_at(self, slot: int) -> HandleState {
        self.handles@[slot]
    }

    pub closed spec fn file_generation_at(self, slot: int) -> u32 {
        self.file_generations@[slot]
    }

    pub closed spec fn wf(self) -> bool {
        &&& 0 < self.states@.len() <= u32::MAX
        &&& self.generations@.len() == self.states@.len()
        &&& self.handles@.len() <= u32::MAX
        &&& self.file_generations@.len() == self.handles@.len()
    }

    /// Slots and files are numbered in 32 bits.
    pub proof fn lemma_capacity(self)
        requires
            self.wf(),
        ensures
            0 < self.capacity() <= u32::MAX,
            self.file_capacity() <= u32::MAX,
    {
    }

    /// The file identity slot `slot` now stands for.
    pub open spec fn file_at(self, slot: int) -> FileId {
        FileId {
            driver: self.owner(),
            slot: slot as u32,
            generation: self.file_generation_at(slot),
        }
    }

    /// The request a slot carries.
    pub open spec fn request_at(self, i: int) -> Option<Request> {
        match self.state_at(i) {
            OpState::Vacant => None,
            OpState::Submitted(request) => Some(request),
            OpState::Issued(request) => Some(request),
            OpState::Finished(request, _) => Some(request),
        }
    }

    /// `token` names an operation that has not been routed yet.
    pub open spec fn live(self, token: OpToken) -> bool {
        &&& token.slot < self.capacity()
        &&& self.generation_at(token.slot as int) == token.generation
        &&& self.request_at(token.slot as int) is Some
    }

    /// The token of the operation in slot `i`.
    pub open spec fn token_at(self, i: int) -> OpToken {
        OpToken { slot: i as u32, generation: self.generation_at(i) }
    }

    /// `handle` names an open file of this driver.
    pub open spec fn is_open(self, handle: FileHandle) -> bool {
        &&& handle.file.driver == self.owner()
        &&& handle.file.slot < self.file_capacity()
        &&& self.file_generation_at(handle.file.slot as int) == handle.file.generation
        &&& self.handle_at(handle.file.slot as int) is Open
    }

    pub open spec fn same_shape(self, other: Driver) -> bool {
        &&& self.owner() == other.owner()
        &&& self.capacity() == other.capacity()
        &&& self.file_capacity() == other.file_capacity()
        &&& self.buffers() == other.buffers()
        &&& self.is_locked() == other.is_locked()
    }

    pub open spec fn same_files(self, other: Driver) -> bool {
        &&& forall|s: int|
            0 <= s < self.file_capacity() ==> #[trigger] self.handle_at(s) == other.handle_at(s)
        &&& forall|s: int|
            0 <= s < self.file_capacity() ==> #[trigger] self.file_generation_at(s)
                == other.file_generation_at(s)
    }

    pub open spec fn same_ops(self, other: Driver) -> bool {
        &&& forall|i: int|
            0 <= i < self.capacity() ==> #[trigger] self.state_at(i) == other.state_at(i)
        &&& forall|i: int|
            0 <= i < self.capacity() ==> #[trigger] self.generation_at(i) == other.generation_at(i)
    }

    pub open spec fn same_ops_except(self, other: Driver, slot: int) -> bool {
        &&& forall|i: int|
            0 <= i < self.capacity() && i != slot ==> #[trigger] self.state_at(i)
                == other.state_at(i)
        &&& forall|i: int|
            0 <= i < self.capacity() && i != slot ==> #[trigger] self.generation_at(i)
                == other.generation_at(i)
    }

    pub closed spec fn buffers(self) -> RegistrationPosture {
        self.posture
    }

    pub closed spec fn is_locked(self) -> bool {
        self.locked
    }

    /// A ring with room for `capacity` operations and `files` files.
    pub fn new(
        identity: u64,
        capacity: u32,
        files: u32,
        posture: RegistrationPosture,
        locked: bool,
    ) -> (driver: Self)
        requires
            capacity > 0,
        ensures
            driver.wf(),
            driver.owner() == identity,
            driver.capacity() == capacity,
            driver.file_capacity() == files,
            driver.buffers() == posture,
            driver.is_locked() == locked,
            forall|i: int| 0 <= i < capacity ==> (#[trigger] driver.state_at(i)) is Vacant,
            forall|s: int| 0 <= s < files ==> (#[trigger] driver.handle_at(s)) is Vacant,
            forall|s: int| 0 <= s < files ==> #[trigger] driver.file_generation_at(s) == 0,
    {
        let mut states: Vec<OpState> = Vec::new();
        let mut generations: Vec<u32> = Vec::new();
        let mut i: u32 = 0;
        while i < capacity
            invariant
                i <= capacity,
                states@.len() == i,
                generations@.len() == i,
                forall|k: int| 0 <= k < i ==> (#[trigger] states@[k]) is Vacant,
            decreases capacity - i,
        {
            states.push(OpState::Vacant);
            generations.push(0);
            i = i + 1;
        }
        let mut handles: Vec<HandleState> = Vec::new();
        let mut file_generations: Vec<u32> = Vec::new();
        let mut s: u32 = 0;
        while s < files
            invariant
                s <= files,
                handles@.len() == s,
                file_generations@.len() == s,
                forall|k: int| 0 <= k < s ==> (#[trigger] handles@[k]) is Vacant,
                forall|k: int| 0 <= k < s ==> #[trigger] file_generations@[k] == 0,
            decreases files - s,
        {
            handles.push(HandleState::Vacant);
            file_generations.push(0);
            s = s + 1;
        }
        Driver { identity, states, generations, handles, file_generations, posture, locked }
    }

    pub fn identity(&self) -> (identity: u64)
        ensures
            identity == self.owner(),
    {
        self.identity
    }

    pub fn registration_posture(&self) -> (posture: RegistrationPosture)
        ensures
            posture == self.buffers(),
    {
        self.posture
    }

    pub fn arena_locked(&self) -> (locked: bool)
        ensures
            locked == self.is_locked(),
    {
        self.locked
    }

    /// The operation slots of the ring.
    pub fn queue_capacity(&self) -> (capacity: u32)
        requires
            self.wf(),
        ensures
            capacity == self.capacity(),
    {
        self.states.len() as u32
    }

    pub fn registered_file_capacity(&self) -> (capacity: u32)
        requires
            self.wf(),
        ensures
            capacity == self.file_capacity(),
    {
        self.handles.len() as u32
    }

    /// The lowest vacant operation slot.
    fn vacancy(&self) -> (slot: Option<u32>)
        requires
            self.wf(),
        ensures
            match slot {
                Some(s) => {
                    &&& s < self.capacity()
                    &&& self.state_at(s as int) is Vacant
                    &&& forall|i: int| 0 <= i < s ==> !((#[trigger] self.state_at(i)) is Vacant)
                },
                None => forall|i: int|
                    0 <= i < self.capacity() ==> !((#[trigger] self.state_at(i)) is Vacant),
            },
    {
        let mut i: usize = 0;
        while i < self.states.len()
            invariant
                self.wf(),
                i <= self.states@.len(),
                forall|k: int| 0 <= k < i ==> !((#[trigger] self.state_at(k)) is Vacant),
            decreases self.states@.len() - i,
        {
            if let OpState::Vacant = self.states[i] {
                return Some(i as u32);
            }
            i = i + 1;
        }
        None
    }

    /// Some operation slot is vacant.
    pub open spec fn has_room(self) -> bool {
        exists|i: int| 0 <= i < self.capacity() && (#[trigger] self.state_at(i)) is Vacant
    }

    /// Whether another operation can be submitted.
    pub fn room(&self) -> (room: bool)
        requires
            self.wf(),
        ensures
            room == self.has_room(),
    {
        match self.vacancy() {
            Some(slot) => {
                assert(self.state_at(slot as int) is Vacant);
                true
            },
            None => false,
        }
    }

    /// `self` is `other` with `request` submitted under `token`.
    pub open spec fn submitted(self, other: Driver, token: OpToken, request: Request) -> bool {
        let slot = token.slot as int;
        &&& self.same_shape(other)
        &&& self.same_files(other)
        &&& token.slot < other.capacity()
        &&& other.state_at(slot) is Vacant
        &&& forall|i: int| 0 <= i < slot ==> !((#[trigger] other.state_at(i)) is Vacant)
        &&& token.generation == other.generation_at(slot).wrapping_add(1)
        &&& self.generation_at(slot) == token.generation
        &&& self.state_at(slot) == OpState::Submitted(request)
        &&& self.same_ops_except(other, slot)
    }

    /// Whether `handle` names an open file.
    fn opened(&self, handle: &FileHandle) -> (opened: bool)
        requires
            self.wf(),
        ensures
            opened == self.is_open(*handle),
    {
        let file: FileId = handle.file;
        if file.driver != self.identity || file.slot as usize >= self.handles.len() {
            return false;
        }
        if self.file_generations[file.slot as usize] != file.generation {
            return false;
        }
        match self.handles[file.slot as usize] {
            HandleState::Open(_) => true,
            _ => false,
        }
    }

    fn submit(&mut self, handle: &FileHandle, request: Request) -> (submitted: Result<
        OpToken,
        SubmitError,
    >)
        requires
            old(self).wf(),
        ensures
            final(self).wf(),
            submitted is Ok <==> old(self).is_open(*handle) && old(self).has_room(),
            match submitted {
                Ok(token) => final(self).submitted(*old(self), token, request),
                Err(error) => {
                    &&& *final(self) == *old(self)
                    &&& error == (if old(self).is_open(*handle) {
                        SubmitError::Full
                    } else {
                        SubmitError::StaleHandle
                    })
                },
            },
    {
        if !self.opened(handle) {
            return Err(SubmitError::StaleHandle);
        }
        match self.vacancy() {
            Some(slot) => {
                let generation: u32 = self.generations[slot as usize].wrapping_add(1);
                assert(old(self).state_at(slot as int) is Vacant);
                self.generations.set(slot as usize, generation);
                self.states.set(slot as usize, OpState::Submitted(request));
                Ok(OpToken { slot, generation })
            },
            None => Err(SubmitError::Full),
        }
    }

    /// Submits a read into a frame.
    pub fn submit_read(
        &mut self,
        handle: &FileHandle,
        frame: ReadFrameIdx,
        offset: u64,
        destination_offset: u32,
        len: u32,
    ) -> (submitted: Result<OpToken, SubmitError>)
        requires
            old(self).wf(),
        ensures
            final(self).wf(),
            submitted is Ok <==> old(self).is_open(*handle) && old(self).has_room(),
            match submitted {
                Ok(token) => final(self).submitted(
                    *old(self),
                    token,
                    Request::Read { file: handle.file, frame, destination_offset, offset, len },
                ),
                Err(error) => {
                    &&& *final(self) == *old(self)
                    &&& error == (if old(self).is_open(*handle) {
                        SubmitError::Full
                    } else {
                        SubmitError::StaleHandle
                    })
                },
            },
    {
        self.submit(
            handle,
            Request::Read { file: handle.file, frame, destination_offset, offset, len },
        )
    }

    /// Submits a write of a staging slot.
    pub fn submit_write(&mut self, handle: &FileHandle, slot: u32, offset: u64) -> (submitted:
        Result<OpToken, SubmitError>)
        requires
            old(self).wf(),
        ensures
            final(self).wf(),
            submitted is Ok <==> old(self).is_open(*handle) && old(self).has_room(),
            match submitted {
                Ok(token) => final(self).submitted(
                    *old(self),
                    token,
                    Request::Write { file: handle.file, slot, offset },
                ),
                Err(error) => {
                    &&& *final(self) == *old(self)
                    &&& error == (if old(self).is_open(*handle) {
                        SubmitError::Full
                    } else {
                        SubmitError::StaleHandle
                    })
                },
            },
    {
        self.submit(handle, Request::Write { file: handle.file, slot, offset })
    }

    /// Submits a durability barrier.
    pub fn submit_fsync(&mut self, handle: &FileHandle, mode: SyncMode) -> (submitted: Result<
        OpToken,
        SubmitError,
    >)
        requires
            old(self).wf(),
        ensures
            final(self).wf(),
            submitted is Ok <==> old(self).is_open(*handle) && old(self).has_room(),
            match submitted {
                Ok(token) => final(self).submitted(
                    *old(self),
                    token,
                    Request::Fsync { file: handle.file },
                ),
                Err(error) => {
                    &&& *final(self) == *old(self)
                    &&& error == (if old(self).is_open(*handle) {
                        SubmitError::Full
                    } else {
                        SubmitError::StaleHandle
                    })
                },
            },
    {
        match mode {
            SyncMode::Full => self.submit(handle, Request::Fsync { file: handle.file }),
        }
    }

    /// Only the standing of the operation in `slot` changed.
    pub open spec fn restated(self, other: Driver, slot: int, state: OpState) -> bool {
        &&& self.same_shape(other)
        &&& self.same_files(other)
        &&& self.same_ops_except(other, slot)
        &&& self.generation_at(slot) == other.generation_at(slot)
        &&& self.state_at(slot) == state
    }

    /// Takes the submitted operation in the lowest slot for the host to
    /// perform.
    pub fn take_submission(&mut self) -> (taken: Option<Submission>)
        requires
            old(self).wf(),
        ensures
            final(self).wf(),
            match taken {
                Some(submission) => {
                    let slot = submission.token.slot as int;
                    &&& old(self).live(submission.token)
                    &&& old(self).state_at(slot) == OpState::Submitted(submission.request)
                    &&& forall|i: int|
                        0 <= i < slot ==> !((#[trigger] old(self).state_at(i)) is Submitted)
                    &&& final(self).restated(*old(self), slot, OpState::Issued(submission.request))
                },
                None => {
                    &&& *final(self) == *old(self)
                    &&& forall|i: int|
                        0 <= i < old(self).capacity() ==> !((#[trigger] old(self).state_at(
                            i,
                        )) is Submitted)
                },
            },
    {
        let mut i: usize = 0;
        while i < self.states.len()
            invariant
                self.wf(),
                *self == *old(self),
                i <= self.states@.len(),
                forall|k: int| 0 <= k < i ==> !((#[trigger] self.state_at(k)) is Submitted),
            decreases self.states@.len() - i,
        {
            if let OpState::Submitted(request) = self.states[i] {
                let token = OpToken { slot: i as u32, generation: self.generations[i] };
                assert(old(self).state_at(i as int) == OpState::Submitted(request));
                self.states.set(i, OpState::Issued(request));
                return Some(Submission { token, request });
            }
            i = i + 1;
        }
        None
    }

    /// `token` names an operation in the host's hands.
    pub open spec fn issued(self, token: OpToken) -> bool {
        self.live(token) && self.state_at(token.slot as int) is Issued
    }

    /// The request of an operation in the host's hands.
    pub fn issued_request(&self, token: OpToken) -> (request: Option<Request>)
        requires
            self.wf(),
        ensures
            request is Some <==> self.issued(token),
            request is Some ==> request == self.request_at(token.slot as int),
    {
        if token.slot as usize >= self.states.len() {
            return None;
        }
        if self.generations[token.slot as usize] != token.generation {
            return None;
        }
        match self.states[token.slot as usize] {
            OpState::Issued(request) => Some(request),
            _ => None,
        }
    }

    /// Records the result of an operation the host performed; any other token
    /// is refused.
    pub fn record(&mut self, token: OpToken, result: Result<u32, IoError>) -> (recorded: bool)
        requires
            old(self).wf(),
        ensures
            final(self).wf(),
            recorded == old(self).issued(token),
            !recorded ==> *final(self) == *old(self),
            recorded ==> final(self).restated(
                *old(self),
                token.slot as int,
                OpState::Finished(old(self).request_at(token.slot as int)->0, result),
            ),
    {
        match self.issued_request(token) {
            Some(request) => {
                self.states.set(token.slot as usize, OpState::Finished(request, result));
                true
            },
            None => false,
        }
    }

    /// Takes the result of the operation in `slot`, if it was performed; the
    /// slot is then vacant.
    pub fn take_completion(&mut self, slot: u32) -> (taken: Option<Completion>)
        requires
            old(self).wf(),
            slot < old(self).capacity(),
        ensures
            final(self).wf(),
            taken is Some <==> old(self).state_at(slot as int) is Finished,
            match taken {
                Some(completion) => {
                    &&& completion.token == old(self).token_at(slot as int)
                    &&& old(self).state_at(slot as int) == OpState::Finished(
                        completion.request,
                        completion.result,
                    )
                    &&& final(self).restated(*old(self), slot as int, OpState::Vacant)
                },
                None => *final(self) == *old(self),
            },
    {
        let i: usize = slot as usize;
        if let OpState::Finished(request, result) = self.states[i] {
            let token = OpToken { slot, generation: self.generations[i] };
            assert(old(self).state_at(slot as int) == OpState::Finished(request, result));
            self.states.set(i, OpState::Vacant);
            return Some(Completion { token, request, result });
        }
        None
    }

    /// A file slot that can be opened.
    pub open spec fn openable(self, s: int) -> bool {
        &&& 0 <= s < self.file_capacity()
        &&& self.handle_at(s) is Vacant
        &&& self.file_generation_at(s) < u32::MAX
    }

    /// Only file slot `slot` changed.
    pub open spec fn same_files_except(self, other: Driver, slot: int) -> bool {
        &&& self.same_shape(other)
        &&& self.same_ops(other)
        &&& forall|s: int|
            0 <= s < self.file_capacity() && s != slot ==> #[trigger] self.handle_at(s)
                == other.handle_at(s)
        &&& forall|s: int|
            0 <= s < self.file_capacity() && s != slot ==> #[trigger] self.file_generation_at(s)
                == other.file_generation_at(s)
    }

    /// Registers a file the host has opened, in the lowest vacant slot.
    pub fn open(&mut self, mode: IoMode) -> (handle: Option<FileHandle>)
        requires
            old(self).wf(),
        ensures
            final(self).wf(),
            match handle {
                Some(h) => {
                    let slot = h.file.slot as int;
                    &&& old(self).openable(slot)
                    &&& forall|s: int| 0 <= s < slot ==> !(#[trigger] old(self).openable(s))
                    &&& h.mode == mode
                    &&& h.file.driver == old(self).owner()
                    &&& h.file.generation == old(self).file_generation_at(slot) + 1
                    &&& final(self).same_files_except(*old(self), slot)
                    &&& final(self).handle_at(slot) == HandleState::Open(mode)
                    &&& final(self).file_generation_at(slot) == h.file.generation
                },
                None => {
                    &&& *final(self) == *old(self)
                    &&& forall|s: int|
                        0 <= s < old(self).file_capacity() ==> !(#[trigger] old(self).openable(s))
                },
            },
    {
        let mut s: usize = 0;
        while s < self.handles.len()
            invariant
                self.wf(),
                *self == *old(self),
                s <= self.handles@.len(),
                forall|k: int| 0 <= k < s ==> !(#[trigger] self.openable(k)),
            decreases self.handles@.len() - s,
        {
            let vacant: bool = match self.handles[s] {
                HandleState::Vacant => true,
                _ => false,
            };
            if vacant && self.file_generations[s] < u32::MAX {
                assert(old(self).openable(s as int));
                let generation: u32 = self.file_generations[s] + 1;
                self.handles.set(s, HandleState::Open(mode));
                self.file_generations.set(s, generation);
                let file = FileId { driver: self.identity, slot: s as u32, generation };
                return Some(FileHandle { file, mode });
            }
            s = s + 1;
        }
        None
    }

    /// Gives an open file up; the host closes it.
    pub fn close(&mut self, handle: FileHandle)
        requires
            old(self).wf(),
            old(self).is_open(handle),
        ensures
            final(self).wf(),
            final(self).same_files_except(*old(self), handle.file.slot as int),
            final(self).handle_at(handle.file.slot as int) is Closing,
            final(self).file_generation_at(handle.file.slot as int) == handle.file.generation,
    {
        self.handles.set(handle.file.slot as usize, HandleState::Closing);
    }

    /// The lowest file slot the host is to close.
    pub fn closing(&self) -> (file: Option<FileId>)
        requires
            self.wf(),
        ensures
            match file {
                Some(f) => {
                    &&& f.slot < self.file_capacity()
                    &&& f == self.file_at(f.slot as int)
                    &&& self.handle_at(f.slot as int) is Closing
                    &&& forall|s: int|
                        0 <= s < f.slot ==> !((#[trigger] self.handle_at(s)) is Closing)
                },
                None => forall|s: int|
                    0 <= s < self.file_capacity() ==> !((#[trigger] self.handle_at(s)) is Closing),
            },
    {
        let mut s: usize = 0;
        while s < self.handles.len()
            invariant
                self.wf(),
                s <= self.handles@.len(),
                forall|k: int| 0 <= k < s ==> !((#[trigger] self.handle_at(k)) is Closing),
            decreases self.handles@.len() - s,
        {
            if let HandleState::Closing = self.handles[s] {
                return Some(
                    FileId {
                        driver: self.identity,
                        slot: s as u32,
                        generation: self.file_generations[s],
                    },
                );
            }
            s = s + 1;
        }
        None
    }

    /// The file in its slot is the one named.
    pub open spec fn names(self, file: FileId) -> bool {
        &&& file.driver == self.owner()
        &&& file.slot < self.file_capacity()
        &&& self.file_generation_at(file.slot as int) == file.generation
    }

    /// The host has closed a file it was to close; any other is refused.
    pub fn confirm_closed(&mut self, file: FileId) -> (confirmed: bool)
        requires
            old(self).wf(),
        ensures
            final(self).wf(),
            confirmed == (old(self).names(file) && old(self).handle_at(
                file.slot as int,
            ) is Closing),
            !confirmed ==> *final(self) == *old(self),
            confirmed ==> {
                &&& final(self).same_files_except(*old(self), file.slot as int)
                &&& final(self).handle_at(file.slot as int) is Closed
                &&& final(self).file_generation_at(file.slot as int) == file.generation
            },
    {
        if file.driver != self.identity || file.slot as usize >= self.handles.len() {
            return false;
        }
        if self.file_generations[file.slot as usize] != file.generation {
            return false;
        }
        if let HandleState::Closing = self.handles[file.slot as usize] {
            self.handles.set(file.slot as usize, HandleState::Closed);
            true
        } else {
            false
        }
    }

    /// Whether the host has closed `file`.
    pub fn is_closed(&self, file: FileId) -> (closed: bool)
        requires
            self.wf(),
        ensures
            closed == (self.names(file) && self.handle_at(file.slot as int) is Closed),
    {
        if file.driver != self.identity || file.slot as usize >= self.handles.len() {
            return false;
        }
        if self.file_generations[file.slot as usize] != file.generation {
            return false;
        }
        match self.handles[file.slot as usize] {
            HandleState::Closed => true,
            _ => false,
        }
    }

    /// Makes the slot of a closed file available again.
    pub fn vacate(&mut self, file: FileId)
        requires
            old(self).wf(),
            old(self).names(file),
            old(self).handle_at(file.slot as int) is Closed,
        ensures
            final(self).wf(),
            final(self).same_files_except(*old(self), file.slot as int),
            final(self).handle_at(file.slot as int) is Vacant,
            final(self).file_generation_at(file.slot as int) == file.generation,
    {
        self.handles.set(file.slot as usize, HandleState::Vacant);
    }
}

/// Two operations that are live at once have different tokens exactly if they
/// occupy different slots.
pub proof fn live_tokens_name_their_slots(driver: Driver, a: OpToken, b: OpToken)
    requires
        driver.live(a),
        driver.live(b),
    ensures
        a == b <==> a.slot == b.slot,
{
}

/// A submission takes the first vacant slot and gives it a new generation: its
/// token is live, no earlier token of the slot is, and every other operation is
/// as it was.
pub proof fn a_submission_takes_the_first_vacant_slot(
    before: Driver,
    after: Driver,
    token: OpToken,
    request: Request,
    earlier: OpToken,
)
    requires
        after.submitted(before, token, request),
        earlier.slot == token.slot,
        earlier.generation == before.generation_at(token.slot as int),
    ensures
        before.state_at(token.slot as int) is Vacant,
        forall|i: int| 0 <= i < token.slot ==> !((#[trigger] before.state_at(i)) is Vacant),
        after.state_at(token.slot as int) == OpState::Submitted(request),
        after.live(token),
        !after.live(earlier),
        forall|i: int|
            0 <= i < before.capacity() && i != token.slot ==> #[trigger] after.state_at(i)
                == before.state_at(i) && after.generation_at(i) == before.generation_at(i),
        token.generation == (before.generation_at(token.slot as int) + 1) % 0x1_0000_0000,
{
}

} // verus!
