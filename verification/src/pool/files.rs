//! The fixed file registry: which file generation each slot stands for,
//! whether it is live, and the resident leases held on it.

use crate::driver::{FileHandle, FileId, IoMode};
use crate::pool::config::ResidentLeaseError;
use crate::pool::PageId;
use crate::product::PoolSubmitError;
use vstd::prelude::*;

verus! {

/// Where a registered file stands.
#[derive(Debug, Clone, Copy, PartialEq, Eq, Structural)]
pub enum PoolFileState {
    Live,
    Retiring,
    Retired,
}

/// One registered file generation.
#[derive(Debug, Clone, Copy, PartialEq, Eq, Structural)]
pub struct PoolFile {
    pub id: FileId,
    pub handle: Option<FileHandle>,
    pub state: PoolFileState,
}

/// The resident leases on a file slot.
#[derive(Debug, Clone, Copy, PartialEq, Eq, Structural)]
pub struct LeaseState {
    pub generation: u32,
    pub count: u32,
}

/// Owned file capability reserved for resident-page observations. It protects
/// the lifetime of one exact file generation and retains no frame.
#[derive(Debug)]
pub struct ResidentFileLease {
    pool_identity: u64,
    file: FileId,
}

impl ResidentFileLease {
    /// The pool that granted the lease.
    pub closed spec fn pool(self) -> u64 {
        self.pool_identity
    }

    /// The file generation the lease protects.
    pub closed spec fn protects(self) -> FileId {
        self.file
    }

    pub fn file(&self) -> (file: FileId)
        ensures
            file == self.protects(),
    {
        self.file
    }

    /// Whether the lease names exactly `page`'s file in the pool `identity`.
    pub fn covers(&self, identity: u64, page: PageId) -> (covers: bool)
        ensures
            covers == (self.pool() == identity && self.protects() == page.file),
    {
        self.pool_identity == identity && self.file == page.file
    }
}

/// The word a live file generation publishes; zero stands for no live file.
pub open spec fn live_word(file: FileId) -> u64 {
    (file.generation * 2 + 1) as u64
}

fn file_live_word(file: FileId) -> (word: u64)
    ensures
        word == live_word(file),
{
    file.generation as u64 * 2 + 1
}

/// The file registry.
#[derive(Debug)]
pub struct Files {
    entries: Vec<Option<PoolFile>>,
    live: Vec<u64>,
    leases: Vec<LeaseState>,
    identity: u64,
}

impl Files {
    /// The pool the registry belongs to.
    pub closed spec fn owner(self) -> u64 {
        self.identity
    }

    pub closed spec fn capacity(self) -> nat {
        self.entries@.len()
    }

    pub closed spec fn entry_at(self, slot: int) -> Option<PoolFile> {
        self.entries@[slot]
    }

    pub closed spec fn lease_at(self, slot: int) -> LeaseState {
        self.leases@[slot]
    }

    /// The word the optimistic liveness test reads.
    pub closed spec fn published(self, slot: int) -> u64 {
        self.live@[slot]
    }

    /// What the invariant says of one slot.
    pub open spec fn slot_ok(self, slot: int) -> bool {
        match self.entry_at(slot) {
            None => self.published(slot) == 0 && self.lease_at(slot).count == 0,
            Some(entry) => {
                &&& entry.id.driver == self.owner()
                &&& entry.id.slot == slot
                &&& self.lease_at(slot).generation == entry.id.generation
                &&& self.published(slot) == (if entry.state is Live {
                    live_word(entry.id)
                } else {
                    0
                })
                &&& entry.state is Retired ==> self.lease_at(slot).count == 0
                    && entry.handle is None
                &&& entry.handle matches Some(handle) ==> handle.file == entry.id
            },
        }
    }

    pub closed spec fn wf(self) -> bool {
        &&& self.entries@.len() <= u32::MAX
        &&& self.live@.len() == self.entries@.len()
        &&& self.leases@.len() == self.entries@.len()
        &&& forall|s: int| 0 <= s < self.capacity() ==> #[trigger] self.slot_ok(s)
    }

    pub proof fn lemma_slot(self, slot: int)
        requires
            self.wf(),
            0 <= slot < self.capacity(),
        ensures
            self.slot_ok(slot),
            self.capacity() <= u32::MAX,
    {
    }

    /// `file` is of this pool and within the fixed registry.
    pub open spec fn addresses(self, file: FileId) -> bool {
        file.driver == self.owner() && file.slot < self.capacity()
    }

    /// Exactly this generation is registered and live.
    pub open spec fn is_live(self, file: FileId) -> bool {
        &&& self.addresses(file)
        &&& self.entry_at(file.slot as int) matches Some(entry) && entry.id == file
            && entry.state is Live
    }

    pub open spec fn same_except(self, other: Files, slot: int) -> bool {
        &&& self.owner() == other.owner()
        &&& self.capacity() == other.capacity()
        &&& forall|s: int|
            0 <= s < self.capacity() && s != slot ==> #[trigger] self.entry_at(s)
                == other.entry_at(s)
        &&& forall|s: int|
            0 <= s < self.capacity() && s != slot ==> #[trigger] self.lease_at(s)
                == other.lease_at(s)
    }

    /// An empty registry.
    pub fn new(identity: u64, capacity: u32) -> (files: Self)
        ensures
            files.wf(),
            files.owner() == identity,
            files.capacity() == capacity,
            forall|s: int| 0 <= s < capacity ==> (#[trigger] files.entry_at(s)) is None,
            forall|s: int| 0 <= s < capacity ==> (#[trigger] files.lease_at(s)).count == 0,
    {
        let mut entries: Vec<Option<PoolFile>> = Vec::new();
        let mut live: Vec<u64> = Vec::new();
        let mut leases: Vec<LeaseState> = Vec::new();
        let mut s: u32 = 0;
        while s < capacity
            invariant
                s <= capacity,
                entries@.len() == s,
                live@.len() == s,
                leases@.len() == s,
                forall|k: int| 0 <= k < s ==> (#[trigger] entries@[k]) is None,
                forall|k: int| 0 <= k < s ==> #[trigger] live@[k] == 0,
                forall|k: int|
                    0 <= k < s ==> #[trigger] leases@[k] == (LeaseState { generation: 0, count: 0 }),
            decreases capacity - s,
        {
            entries.push(None);
            live.push(0);
            leases.push(LeaseState { generation: 0, count: 0 });
            s = s + 1;
        }
        Files { entries, live, leases, identity }
    }

    pub fn len(&self) -> (len: u32)
        requires
            self.wf(),
        ensures
            len == self.capacity(),
    {
        self.entries.len() as u32
    }

    pub fn entry(&self, slot: u32) -> (entry: Option<PoolFile>)
        requires
            slot < self.capacity(),
        ensures
            entry == self.entry_at(slot as int),
    {
        self.entries[slot as usize]
    }

    /// The live leases on a slot.
    pub fn lease_count(&self, slot: u32) -> (count: u32)
        requires
            self.wf(),
            slot < self.capacity(),
        ensures
            count == self.lease_at(slot as int).count,
    {
        self.leases[slot as usize].count
    }

    /// Whether exactly this generation is registered and live.
    pub fn file_is_live(&self, file: FileId) -> (live: bool)
        requires
            self.wf(),
            self.addresses(file),
        ensures
            live == self.is_live(file),
    {
        match self.entries[file.slot as usize] {
            Some(entry) => entry.id == file && entry.state == PoolFileState::Live,
            None => false,
        }
    }

    /// The optimistic liveness test: one word compared.
    pub fn file_generation_is_live(&self, file: FileId) -> (live: bool)
        requires
            self.wf(),
            self.addresses(file),
        ensures
            live == self.is_live(file),
    {
        assert(self.slot_ok(file.slot as int));
        self.live[file.slot as usize] == file_live_word(file)
    }

    /// `self` is `other` with `id` registered live.
    pub open spec fn registered(self, other: Files, id: FileId, handle: Option<FileHandle>) -> bool {
        &&& self.same_except(other, id.slot as int)
        &&& self.entry_at(id.slot as int) == Some(
            PoolFile { id, handle, state: PoolFileState::Live },
        )
        &&& self.lease_at(id.slot as int) == (LeaseState { generation: id.generation, count: 0 })
    }

    /// Registers a generation in a slot that is absent or retired.
    pub fn publish_live_file(&mut self, id: FileId, handle: Option<FileHandle>)
        requires
            old(self).wf(),
            old(self).addresses(id),
            old(self).entry_at(id.slot as int) matches Some(entry) ==> entry.state is Retired,
            handle matches Some(h) ==> h.file == id,
        ensures
            final(self).wf(),
            final(self).registered(*old(self), id, handle),
    {
        let ghost before = *self;
        let slot: usize = id.slot as usize;
        assert(self.slot_ok(slot as int));
        self.leases.set(slot, LeaseState { generation: id.generation, count: 0 });
        self.entries.set(slot, Some(PoolFile { id, handle, state: PoolFileState::Live }));
        self.live.set(slot, file_live_word(id));
        assert forall|s: int| 0 <= s < self.capacity() implies #[trigger] self.slot_ok(s) by {
            assert(before.slot_ok(s));
        }
    }

    /// Starts a file's retirement, or finds it started.
    pub fn begin_file_retirement(&mut self, file: FileId) -> (started: bool)
        requires
            old(self).wf(),
            old(self).addresses(file),
            old(self).entry_at(file.slot as int) matches Some(entry) && entry.id == file && !(
            entry.state is Retired),
        ensures
            final(self).wf(),
            started == old(self).is_live(file),
            final(self).same_except(*old(self), file.slot as int),
            final(self).lease_at(file.slot as int) == old(self).lease_at(file.slot as int),
            final(self).entry_at(file.slot as int) == Some(
                PoolFile {
                    state: PoolFileState::Retiring,
                    ..old(self).entry_at(file.slot as int)->0
                },
            ),
    {
        let ghost before = *self;
        let slot: usize = file.slot as usize;
        assert(self.slot_ok(slot as int));
        let mut entry: PoolFile = self.entries[slot].unwrap();
        let started: bool = entry.state == PoolFileState::Live;
        entry.state = PoolFileState::Retiring;
        self.entries.set(slot, Some(entry));
        self.live.set(slot, 0);
        assert forall|s: int| 0 <= s < self.capacity() implies #[trigger] self.slot_ok(s) by {
            assert(before.slot_ok(s));
        }
        started
    }

    /// The handle of a live file.
    pub fn live_file_handle(&self, file: FileId) -> (handle: Result<FileHandle, PoolSubmitError>)
        requires
            self.wf(),
            self.addresses(file),
        ensures
            handle is Ok <==> self.is_live(file) && self.entry_at(
                file.slot as int,
            )->0.handle is Some,
            match handle {
                Ok(h) => self.entry_at(file.slot as int)->0.handle == Some(h) && h.file == file,
                Err(error) => error == PoolSubmitError::StaleFile { file },
            },
    {
        assert(self.slot_ok(file.slot as int));
        match self.entries[file.slot as usize] {
            Some(entry) => if entry.id == file && entry.state == PoolFileState::Live {
                match entry.handle {
                    Some(handle) => Ok(handle),
                    None => Err(PoolSubmitError::StaleFile { file }),
                }
            } else {
                Err(PoolSubmitError::StaleFile { file })
            },
            None => Err(PoolSubmitError::StaleFile { file }),
        }
    }

    /// The negotiated mode of an exact live or retiring generation that still
    /// has its handle.
    pub fn io_mode(&self, file: FileId) -> (mode: Option<IoMode>)
        requires
            self.wf(),
            self.addresses(file),
        ensures
            mode == (match self.entry_at(file.slot as int) {
                Some(entry) => if entry.id == file && !(entry.state is Retired) {
                    match entry.handle {
                        Some(handle) => Some(handle.mode),
                        None => None,
                    }
                } else {
                    None
                },
                None => None,
            }),
    {
        match self.entries[file.slot as usize] {
            Some(entry) => if entry.id == file && entry.state != PoolFileState::Retired {
                match entry.handle {
                    Some(handle) => Some(handle.io_mode()),
                    None => None,
                }
            } else {
                None
            },
            None => None,
        }
    }

    /// A page's file is registered under its exact identity and has its
    /// handle.
    pub open spec fn backs(self, file: FileId) -> bool {
        &&& self.addresses(file)
        &&& self.entry_at(file.slot as int) matches Some(entry) && entry.id == file
            && entry.handle is Some
    }

    /// The handle that backs an admitted operation.
    pub fn registered_file(&self, file: FileId) -> (handle: FileHandle)
        requires
            self.wf(),
            self.backs(file),
        ensures
            self.entry_at(file.slot as int)->0.handle == Some(handle),
            handle.file == file,
    {
        assert(self.slot_ok(file.slot as int));
        self.entries[file.slot as usize].unwrap().handle.unwrap()
    }

    /// Grants a resident lease on exactly this generation.
    pub fn lease_file(&mut self, file: FileId) -> (lease: Result<
        ResidentFileLease,
        ResidentLeaseError,
    >)
        requires
            old(self).wf(),
            old(self).addresses(file),
        ensures
            final(self).wf(),
            lease is Ok <==> old(self).is_live(file) && old(self).lease_at(
                file.slot as int,
            ).count < u32::MAX,
            match lease {
                Ok(l) => {
                    &&& l.pool() == old(self).owner()
                    &&& l.protects() == file
                    &&& final(self).same_except(*old(self), file.slot as int)
                    &&& final(self).entry_at(file.slot as int) == old(self).entry_at(
                        file.slot as int,
                    )
                    &&& final(self).lease_at(file.slot as int) == (LeaseState {
                        count: (old(self).lease_at(file.slot as int).count + 1) as u32,
                        ..old(self).lease_at(file.slot as int)
                    })
                },
                Err(error) => {
                    &&& *final(self) == *old(self)
                    &&& error == (if old(self).is_live(file) {
                        ResidentLeaseError::Exhausted { file }
                    } else {
                        ResidentLeaseError::StaleFile { file }
                    })
                },
            },
    {
        let ghost before = *self;
        if !self.file_is_live(file) {
            return Err(ResidentLeaseError::StaleFile { file });
        }
        assert(self.slot_ok(file.slot as int));
        let slot: usize = file.slot as usize;
        let mut state: LeaseState = self.leases[slot];
        if state.generation != file.generation {
            return Err(ResidentLeaseError::StaleFile { file });
        }
        if state.count == u32::MAX {
            return Err(ResidentLeaseError::Exhausted { file });
        }
        state.count = state.count + 1;
        self.leases.set(slot, state);
        assert forall|s: int| 0 <= s < self.capacity() implies #[trigger] self.slot_ok(s) by {
            assert(before.slot_ok(s));
        }
        Ok(ResidentFileLease { pool_identity: self.identity, file })
    }

    /// `lease` was granted here and not released yet.
    pub open spec fn grants(self, lease: ResidentFileLease) -> bool {
        &&& lease.pool() == self.owner()
        &&& self.addresses(lease.protects())
        &&& self.lease_at(lease.protects().slot as int).count > 0
    }

    /// Drops a lease and tells whether it was the slot's last.
    pub fn release_lease(&mut self, lease: ResidentFileLease) -> (last: bool)
        requires
            old(self).wf(),
            old(self).grants(lease),
        ensures
            final(self).wf(),
            last == (old(self).lease_at(lease.protects().slot as int).count == 1),
            final(self).same_except(*old(self), lease.protects().slot as int),
            final(self).entry_at(lease.protects().slot as int) == old(self).entry_at(
                lease.protects().slot as int,
            ),
            final(self).lease_at(lease.protects().slot as int) == (LeaseState {
                count: (old(self).lease_at(lease.protects().slot as int).count - 1) as u32,
                ..old(self).lease_at(lease.protects().slot as int)
            }),
    {
        let ghost before = *self;
        let slot: usize = lease.file.slot as usize;
        assert(self.slot_ok(slot as int));
        let mut state: LeaseState = self.leases[slot];
        let last: bool = state.count == 1;
        state.count = state.count - 1;
        self.leases.set(slot, state);
        assert forall|s: int| 0 <= s < self.capacity() implies #[trigger] self.slot_ok(s) by {
            assert(before.slot_ok(s));
        }
        last
    }

    /// Takes the handle of a registered file, for the driver to close.
    pub fn take_handle(&mut self, slot: u32) -> (handle: Option<FileHandle>)
        requires
            old(self).wf(),
            slot < old(self).capacity(),
            old(self).entry_at(slot as int) is Some,
        ensures
            final(self).wf(),
            handle == old(self).entry_at(slot as int)->0.handle,
            final(self).same_except(*old(self), slot as int),
            final(self).lease_at(slot as int) == old(self).lease_at(slot as int),
            final(self).entry_at(slot as int) == Some(
                PoolFile { handle: None, ..old(self).entry_at(slot as int)->0 },
            ),
    {
        let ghost before = *self;
        assert(self.slot_ok(slot as int));
        let mut entry: PoolFile = self.entries[slot as usize].unwrap();
        let handle: Option<FileHandle> = entry.handle;
        entry.handle = None;
        self.entries.set(slot as usize, Some(entry));
        assert forall|s: int| 0 <= s < self.capacity() implies #[trigger] self.slot_ok(s) by {
            assert(before.slot_ok(s));
        }
        handle
    }

    /// Ends a retirement: the file is closed, unleased and without a handle.
    pub fn retire(&mut self, slot: u32)
        requires
            old(self).wf(),
            slot < old(self).capacity(),
            old(self).entry_at(slot as int) matches Some(entry) && !(entry.state is Live)
                && entry.handle is None,
            old(self).lease_at(slot as int).count == 0,
        ensures
            final(self).wf(),
            final(self).same_except(*old(self), slot as int),
            final(self).lease_at(slot as int) == old(self).lease_at(slot as int),
            final(self).entry_at(slot as int) == Some(
                PoolFile { state: PoolFileState::Retired, ..old(self).entry_at(slot as int)->0 },
            ),
    {
        let ghost before = *self;
        assert(self.slot_ok(slot as int));
        let mut entry: PoolFile = self.entries[slot as usize].unwrap();
        entry.state = PoolFileState::Retired;
        self.entries.set(slot as usize, Some(entry));
        assert forall|s: int| 0 <= s < self.capacity() implies #[trigger] self.slot_ok(s) by {
            assert(before.slot_ok(s));
        }
    }
}

/// At most one generation of a file slot is live.
pub proof fn one_live_generation(files: Files, a: FileId, b: FileId)
    requires
        files.is_live(a),
        files.is_live(b),
        a.slot == b.slot,
    ensures
        a == b,
{
}

/// A retirement, once begun, is never undone for that generation: no lease and
/// no lookup finds it live again.
pub proof fn a_retiring_generation_is_not_live(before: Files, after: Files, file: FileId)
    requires
        before.addresses(file),
        before.entry_at(file.slot as int) is Some,
        before.entry_at(file.slot as int)->0.id == file,
        after.owner() == before.owner(),
        after.capacity() == before.capacity(),
        after.entry_at(file.slot as int) == Some(
            PoolFile { state: PoolFileState::Retiring, ..before.entry_at(file.slot as int)->0 },
        ),
    ensures
        !after.is_live(file),
{
}

} // verus!
