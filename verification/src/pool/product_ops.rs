//! Product operations: the fixed table of admitted writes and durability
//! barriers, their submission order, and their terminal results.

use crate::driver::{FileId, OpKind, OpToken};
use crate::error::IoError;
use crate::product::{token_of, PoolCompletion, PoolCompletionBatch, PoolToken};
use vstd::prelude::*;

verus! {

/// Where an admitted product operation stands.
#[derive(Debug, Clone, Copy)]
pub enum ProductOp {
    Write { token: PoolToken, driver_token: OpToken, file: FileId, order: u64 },
    /// A barrier that waits for the writes before it.
    FsyncHeld { token: PoolToken, file: FileId, order: u64 },
    Fsync { token: PoolToken, driver_token: OpToken, file: FileId },
    Completed { file: FileId, completion: PoolCompletion },
}

impl ProductOp {
    pub open spec fn target(self) -> FileId {
        match self {
            ProductOp::Write { file, .. } => file,
            ProductOp::FsyncHeld { file, .. } => file,
            ProductOp::Fsync { file, .. } => file,
            ProductOp::Completed { file, .. } => file,
        }
    }

    pub fn file(&self) -> (file: FileId)
        ensures
            file == self.target(),
    {
        match self {
            ProductOp::Write { file, .. } => *file,
            ProductOp::FsyncHeld { file, .. } => *file,
            ProductOp::Fsync { file, .. } => *file,
            ProductOp::Completed { file, .. } => *file,
        }
    }

    /// The driver operation it waits for.
    pub open spec fn awaits(self) -> Option<(OpToken, OpKind)> {
        match self {
            ProductOp::Write { driver_token, .. } => Some((driver_token, OpKind::Write)),
            ProductOp::Fsync { driver_token, .. } => Some((driver_token, OpKind::Fsync)),
            _ => None,
        }
    }

    /// The token its result is delivered under.
    pub open spec fn handle(self) -> PoolToken {
        match self {
            ProductOp::Write { token, .. } => token,
            ProductOp::FsyncHeld { token, .. } => token,
            ProductOp::Fsync { token, .. } => token,
            ProductOp::Completed { completion, .. } => completion.ends(),
        }
    }

    /// What the result of its driver operation turns it into.
    pub open spec fn finished(self, result: Result<u32, IoError>) -> ProductOp {
        match self {
            ProductOp::Write { token, file, .. } => ProductOp::Completed {
                file,
                completion: PoolCompletion::Write { token, result },
            },
            ProductOp::Fsync { token, file, .. } => ProductOp::Completed {
                file,
                completion: PoolCompletion::Fsync {
                    token,
                    result: match result {
                        Ok(_) => Ok(()),
                        Err(error) => Err(error),
                    },
                },
            },
            other => other,
        }
    }

    /// An outstanding write of `file` submitted before `order`.
    pub open spec fn precedes(self, barrier_file: FileId, barrier_order: u64) -> bool {
        self matches ProductOp::Write { file, order, .. } && file == barrier_file && order
            < barrier_order
    }
}

/// One slot of the table and the generation its next token follows.
#[derive(Debug, Clone, Copy)]
pub struct ProductOpSlot {
    pub generation: u32,
    pub operation: Option<ProductOp>,
}

/// The table of admitted product operations.
#[derive(Debug)]
pub struct ProductOps {
    slots: Vec<ProductOpSlot>,
    sequence: u64,
}

impl ProductOps {
    pub closed spec fn view(&self) -> Seq<ProductOpSlot> {
        self.slots@
    }

    /// The number of operations admitted so far.
    pub closed spec fn admitted(self) -> u64 {
        self.sequence
    }

    /// Every waiting order was assigned, and a token names its slot.
    pub open spec fn slot_ok(self, i: int) -> bool {
        match self@[i].operation {
            Some(op) => {
                &&& op.handle() == token_of(i as u32, self@[i].generation)
                &&& op matches ProductOp::Write { order, .. } ==> order <= self.admitted()
                &&& op matches ProductOp::FsyncHeld { order, .. } ==> order <= self.admitted()
            },
            None => true,
        }
    }

    pub open spec fn wf(self) -> bool {
        &&& self@.len() <= u32::MAX
        &&& forall|i: int| 0 <= i < self@.len() ==> #[trigger] self.slot_ok(i)
    }

    pub fn new(capacity: u32) -> (ops: Self)
        ensures
            ops.wf(),
            ops.admitted() == 0,
            ops@ == Seq::new(
                capacity as nat,
                |i: int| ProductOpSlot { generation: 0, operation: None },
            ),
    {
        let mut slots: Vec<ProductOpSlot> = Vec::new();
        let mut i: u32 = 0;
        while i < capacity
            invariant
                i <= capacity,
                slots@ == Seq::new(
                    i as nat,
                    |k: int| ProductOpSlot { generation: 0, operation: None },
                ),
            decreases capacity - i,
        {
            slots.push(ProductOpSlot { generation: 0, operation: None });
            i = i + 1;
            assert(slots@ =~= Seq::new(
                i as nat,
                |k: int| ProductOpSlot { generation: 0, operation: None },
            ));
        }
        ProductOps { slots, sequence: 0 }
    }

    pub fn len(&self) -> (len: u32)
        requires
            self.wf(),
        ensures
            len == self@.len(),
    {
        self.slots.len() as u32
    }

    /// Slot `i` is the lowest vacant one.
    pub open spec fn is_vacancy(self, i: int) -> bool {
        &&& 0 <= i < self@.len()
        &&& self@[i].operation is None
        &&& forall|k: int| 0 <= k < i ==> (#[trigger] self@[k]).operation is Some
    }

    pub open spec fn is_full(self) -> bool {
        forall|k: int| 0 <= k < self@.len() ==> (#[trigger] self@[k]).operation is Some
    }

    /// The lowest vacant slot.
    pub fn vacancy(&self) -> (slot: Option<u32>)
        requires
            self.wf(),
        ensures
            slot is None <==> self.is_full(),
            slot matches Some(s) ==> self.is_vacancy(s as int),
    {
        let mut i: usize = 0;
        while i < self.slots.len()
            invariant
                self.wf(),
                i <= self.slots@.len(),
                forall|k: int| 0 <= k < i ==> (#[trigger] self@[k]).operation is Some,
            decreases self.slots@.len() - i,
        {
            if self.slots[i].operation.is_none() {
                assert(self@[i as int].operation is None);
                return Some(i as u32);
            }
            i = i + 1;
        }
        None
    }

    /// The counters leave room for another operation.
    pub open spec fn can_mint(self) -> bool {
        &&& self.admitted() < u64::MAX
        &&& forall|i: int| #[trigger] self.is_vacancy(i) ==> self@[i].generation < u32::MAX
    }

    /// Whether another operation can be given an order and a token of its own.
    pub fn tokens_left(&self) -> (left: bool)
        requires
            self.wf(),
        ensures
            left == self.can_mint(),
    {
        if self.sequence == u64::MAX {
            return false;
        }
        match self.vacancy() {
            Some(slot) => {
                proof {
                    assert forall|i: int| #[trigger] self.is_vacancy(i) implies i == slot by {
                        if i < slot {
                            assert(self@[i].operation is Some);
                        }
                        if i > slot {
                            assert(self@[slot as int].operation is Some);
                        }
                    }
                }
                self.slots[slot as usize].generation < u32::MAX
            },
            None => {
                proof {
                    assert forall|i: int| !(#[trigger] self.is_vacancy(i)) by {
                        if 0 <= i < self@.len() {
                            assert(self@[i].operation is Some);
                        }
                    }
                }
                true
            },
        }
    }

    fn mint(&mut self, slot: u32) -> (token: PoolToken)
        requires
            old(self).wf(),
            slot < old(self)@.len(),
            old(self)@[slot as int].operation is None,
            old(self)@[slot as int].generation < u32::MAX,
            old(self).admitted() < u64::MAX,
        ensures
            token == token_of(slot, (old(self)@[slot as int].generation + 1) as u32),
            final(self).admitted() == old(self).admitted() + 1,
            final(self)@ == old(self)@.update(
                slot as int,
                ProductOpSlot {
                    generation: (old(self)@[slot as int].generation + 1) as u32,
                    operation: None,
                },
            ),
    {
        self.sequence = self.sequence + 1;
        let generation: u32 = self.slots[slot as usize].generation + 1;
        self.slots.set(slot as usize, ProductOpSlot { generation, operation: None });
        PoolToken::new(slot, generation)
    }

    /// Admits a write the driver has accepted.
    pub fn begin_write(&mut self, slot: u32, driver_token: OpToken, file: FileId) -> (token:
        PoolToken)
        requires
            old(self).wf(),
            slot < old(self)@.len(),
            old(self)@[slot as int].operation is None,
            old(self)@[slot as int].generation < u32::MAX,
            old(self).admitted() < u64::MAX,
        ensures
            final(self).wf(),
            token == token_of(slot, (old(self)@[slot as int].generation + 1) as u32),
            final(self).admitted() == old(self).admitted() + 1,
            final(self)@ == old(self)@.update(
                slot as int,
                ProductOpSlot {
                    generation: (old(self)@[slot as int].generation + 1) as u32,
                    operation: Some(
                        ProductOp::Write {
                            token,
                            driver_token,
                            file,
                            order: (old(self).admitted() + 1) as u64,
                        },
                    ),
                },
            ),
    {
        let ghost before = *self;
        let token: PoolToken = self.mint(slot);
        let generation: u32 = self.slots[slot as usize].generation;
        self.slots.set(
            slot as usize,
            ProductOpSlot {
                generation,
                operation: Some(
                    ProductOp::Write { token, driver_token, file, order: self.sequence },
                ),
            },
        );
        assert forall|i: int| 0 <= i < self@.len() implies #[trigger] self.slot_ok(i) by {
            assert(before.slot_ok(i));
        }
        token
    }

    /// Admits a barrier behind the writes admitted so far.
    pub fn begin_fsync(&mut self, slot: u32, file: FileId) -> (token: PoolToken)
        requires
            old(self).wf(),
            slot < old(self)@.len(),
            old(self)@[slot as int].operation is None,
            old(self)@[slot as int].generation < u32::MAX,
            old(self).admitted() < u64::MAX,
        ensures
            final(self).wf(),
            token == token_of(slot, (old(self)@[slot as int].generation + 1) as u32),
            final(self).admitted() == old(self).admitted() + 1,
            final(self)@ == old(self)@.update(
                slot as int,
                ProductOpSlot {
                    generation: (old(self)@[slot as int].generation + 1) as u32,
                    operation: Some(
                        ProductOp::FsyncHeld {
                            token,
                            file,
                            order: (old(self).admitted() + 1) as u64,
                        },
                    ),
                },
            ),
    {
        let ghost before = *self;
        let token: PoolToken = self.mint(slot);
        let generation: u32 = self.slots[slot as usize].generation;
        self.slots.set(
            slot as usize,
            ProductOpSlot {
                generation,
                operation: Some(ProductOp::FsyncHeld { token, file, order: self.sequence }),
            },
        );
        assert forall|i: int| 0 <= i < self@.len() implies #[trigger] self.slot_ok(i) by {
            assert(before.slot_ok(i));
        }
        token
    }

    /// Some write of `file` submitted before `order` is outstanding.
    pub open spec fn write_before(self, file: FileId, order: u64) -> bool {
        exists|i: int| 0 <= i < self@.len() && #[trigger] self.write_at(i, file, order)
    }

    pub open spec fn write_at(self, i: int, file: FileId, order: u64) -> bool {
        self@[i].operation matches Some(op) && op.precedes(file, order)
    }

    /// The barrier in slot `i` waits, and no write before it is outstanding.
    pub open spec fn is_ripe(self, i: int) -> bool {
        &&& 0 <= i < self@.len()
        &&& self@[i].operation matches Some(ProductOp::FsyncHeld { file, order, .. })
            && !self.write_before(file, order)
    }

    fn prior_write(&self, file: FileId, order: u64) -> (prior: bool)
        requires
            self.wf(),
        ensures
            prior == self.write_before(file, order),
    {
        let mut i: usize = 0;
        while i < self.slots.len()
            invariant
                self.wf(),
                i <= self.slots@.len(),
                forall|k: int| 0 <= k < i ==> !(#[trigger] self.write_at(k, file, order)),
            decreases self.slots@.len() - i,
        {
            if let Some(ProductOp::Write { file: write_file, order: write_order, .. }) =
                self.slots[i].operation {
                if write_file == file && write_order < order {
                    assert(self.write_at(i as int, file, order));
                    return true;
                }
            }
            i = i + 1;
        }
        false
    }

    /// The file of the barrier in slot `i`, if it may be submitted now.
    pub fn ripe(&self, slot: u32) -> (file: Option<FileId>)
        requires
            self.wf(),
            slot < self@.len(),
        ensures
            file is Some <==> self.is_ripe(slot as int),
            file matches Some(f) ==> self@[slot as int].operation->0.target() == f,
    {
        if let Some(ProductOp::FsyncHeld { file, order, .. }) = self.slots[slot as usize].operation {
            if self.prior_write(file, order) {
                None
            } else {
                Some(file)
            }
        } else {
            None
        }
    }

    /// The driver has accepted the barrier in `slot`.
    pub fn promote(&mut self, slot: u32, accepted: OpToken)
        requires
            old(self).wf(),
            old(self).is_ripe(slot as int),
        ensures
            final(self).wf(),
            final(self).admitted() == old(self).admitted(),
            final(self)@ == old(self)@.update(
                slot as int,
                ProductOpSlot {
                    generation: old(self)@[slot as int].generation,
                    operation: Some(
                        ProductOp::Fsync {
                            token: old(self)@[slot as int].operation->0.handle(),
                            driver_token: accepted,
                            file: old(self)@[slot as int].operation->0.target(),
                        },
                    ),
                },
            ),
    {
        let ghost before = *self;
        let generation: u32 = self.slots[slot as usize].generation;
        assert(self.slot_ok(slot as int));
        if let Some(ProductOp::FsyncHeld { token, file, order: _ }) =
            self.slots[slot as usize].operation {
            self.slots.set(
                slot as usize,
                ProductOpSlot {
                    generation,
                    operation: Some(ProductOp::Fsync { token, driver_token: accepted, file }),
                },
            );
        }
        assert forall|i: int| 0 <= i < self@.len() implies #[trigger] self.slot_ok(i) by {
            assert(before.slot_ok(i));
        }
    }

    /// Slot `i` waits for the driver operation `driver_token`.
    pub open spec fn waits_at(self, i: int, driver_token: OpToken, kind: OpKind) -> bool {
        self@[i].operation matches Some(op) && op.awaits() == Some((driver_token, kind))
    }

    /// Turns the operation that waited for a driver operation of `kind` into
    /// its terminal result; a driver operation nothing waits for changes
    /// nothing.
    pub fn finish(&mut self, driver_token: OpToken, kind: OpKind, result: Result<u32, IoError>) -> (
        found: Option<u32>)
        requires
            old(self).wf(),
        ensures
            final(self).wf(),
            final(self).admitted() == old(self).admitted(),
            match found {
                Some(slot) => {
                    &&& slot < old(self)@.len()
                    &&& old(self).waits_at(slot as int, driver_token, kind)
                    &&& forall|i: int|
                        0 <= i < slot ==> !(#[trigger] old(self).waits_at(i, driver_token, kind))
                    &&& final(self)@ == old(self)@.update(
                        slot as int,
                        ProductOpSlot {
                            generation: old(self)@[slot as int].generation,
                            operation: Some(
                                old(self)@[slot as int].operation->0.finished(result),
                            ),
                        },
                    )
                },
                None => {
                    &&& final(self)@ == old(self)@
                    &&& forall|i: int|
                        0 <= i < old(self)@.len() ==> !(#[trigger] old(self).waits_at(
                            i,
                            driver_token,
                            kind,
                        ))
                },
            },
    {
        let ghost before = *self;
        let mut i: usize = 0;
        while i < self.slots.len()
            invariant
                self.wf(),
                *self == before,
                before == *old(self),
                i <= self.slots@.len(),
                forall|k: int| 0 <= k < i ==> !(#[trigger] self.waits_at(k, driver_token, kind)),
            decreases self.slots@.len() - i,
        {
            let generation: u32 = self.slots[i].generation;
            let ended: Option<ProductOp> = match self.slots[i].operation {
                Some(ProductOp::Write { token, driver_token: expected, file, order: _ }) => if expected
                    == driver_token && kind == OpKind::Write {
                    Some(
                        ProductOp::Completed {
                            file,
                            completion: PoolCompletion::Write { token, result },
                        },
                    )
                } else {
                    None
                },
                Some(ProductOp::Fsync { token, driver_token: expected, file }) => if expected
                    == driver_token && kind == OpKind::Fsync {
                    Some(
                        ProductOp::Completed {
                            file,
                            completion: PoolCompletion::Fsync {
                                token,
                                result: match result {
                                    Ok(_) => Ok(()),
                                    Err(error) => Err(error),
                                },
                            },
                        },
                    )
                } else {
                    None
                },
                _ => None,
            };
            if let Some(operation) = ended {
                assert(before.waits_at(i as int, driver_token, kind));
                assert(before.slot_ok(i as int));
                self.slots.set(i, ProductOpSlot { generation, operation: Some(operation) });
                assert forall|k: int| 0 <= k < self@.len() implies #[trigger] self.slot_ok(k) by {
                    assert(before.slot_ok(k));
                }
                return Some(i as u32);
            }
            assert(!self.waits_at(i as int, driver_token, kind));
            i = i + 1;
        }
        None
    }

    /// The terminal results among the first `n` slots, in slot order.
    pub open spec fn results(slots: Seq<ProductOpSlot>, n: int) -> Seq<PoolCompletion>
        decreases n,
    {
        if n <= 0 {
            Seq::empty()
        } else {
            let earlier = Self::results(slots, n - 1);
            match slots[n - 1].operation {
                Some(ProductOp::Completed { completion, .. }) => earlier.push(completion),
                _ => earlier,
            }
        }
    }

    /// The slots once the terminal results among the first `n` are delivered.
    pub open spec fn cleared(slots: Seq<ProductOpSlot>, n: int) -> Seq<ProductOpSlot> {
        Seq::new(
            slots.len(),
            |i: int|
                if i < n && slots[i].operation matches Some(ProductOp::Completed { .. }) {
                    ProductOpSlot { generation: slots[i].generation, operation: None }
                } else {
                    slots[i]
                },
        )
    }

    /// Delivers terminal results in slot order until the batch is full, and
    /// returns how many slots were gone through.
    pub fn deliver(&mut self, out: &mut PoolCompletionBatch) -> (passed: u32)
        requires
            old(self).wf(),
            old(out).wf(),
        ensures
            final(self).wf(),
            final(out).wf(),
            final(out).room() == old(out).room(),
            passed <= old(self)@.len(),
            final(self).admitted() == old(self).admitted(),
            final(self)@ == Self::cleared(old(self)@, passed as int),
            final(out)@ == old(out)@ + Self::results(old(self)@, passed as int),
            passed < old(self)@.len() ==> final(out)@.len() == final(out).room(),
    {
        let ghost before = *self;
        let mut i: usize = 0;
        assert(self@ =~= Self::cleared(before@, 0));
        assert(out@ + Self::results(before@, 0) =~= out@);
        while i < self.slots.len() && out.remaining() > 0
            invariant
                self.wf(),
                before.wf(),
                before == *old(self),
                out.wf(),
                out.room() == old(out).room(),
                i <= before@.len(),
                self@.len() == before@.len(),
                self.slots@.len() == before@.len(),
                before@.len() <= u32::MAX,
                self.admitted() == before.admitted(),
                self@ == Self::cleared(before@, i as int),
                out@ == old(out)@ + Self::results(before@, i as int),
            decreases before@.len() - i,
        {
            let ghost middle = *self;
            let generation: u32 = self.slots[i].generation;
            assert(self@[i as int] == before@[i as int]);
            if let Some(ProductOp::Completed { completion, file: _ }) = self.slots[i].operation {
                self.slots.set(i, ProductOpSlot { generation, operation: None });
                out.push(completion);
            }
            i = i + 1;
            assert(self@ =~= Self::cleared(before@, i as int));
            assert(out@ =~= old(out)@ + Self::results(before@, i as int));
            assert forall|k: int| 0 <= k < self@.len() implies #[trigger] self.slot_ok(k) by {
                assert(before.slot_ok(k));
            }
        }
        i as u32
    }

    /// Drops every terminal result nobody will collect.
    pub fn discard_completed(&mut self)
        requires
            old(self).wf(),
        ensures
            final(self).wf(),
            final(self).admitted() == old(self).admitted(),
            final(self)@ == Self::cleared(old(self)@, old(self)@.len() as int),
    {
        let ghost before = *self;
        let mut i: usize = 0;
        assert(self@ =~= Self::cleared(before@, 0));
        while i < self.slots.len()
            invariant
                self.wf(),
                before.wf(),
                before == *old(self),
                i <= before@.len(),
                self@.len() == before@.len(),
                self.slots@.len() == before@.len(),
                self.admitted() == before.admitted(),
                self@ == Self::cleared(before@, i as int),
            decreases before@.len() - i,
        {
            let generation: u32 = self.slots[i].generation;
            assert(self@[i as int] == before@[i as int]);
            if let Some(ProductOp::Completed { .. }) = self.slots[i].operation {
                self.slots.set(i, ProductOpSlot { generation, operation: None });
            }
            i = i + 1;
            assert(self@ =~= Self::cleared(before@, i as int));
            assert forall|k: int| 0 <= k < self@.len() implies #[trigger] self.slot_ok(k) by {
                assert(before.slot_ok(k));
            }
        }
    }

    /// Some operation on `file` is in the table.
    pub open spec fn uses(self, file: FileId) -> bool {
        exists|i: int| 0 <= i < self@.len() && #[trigger] self.uses_at(i, file)
    }

    pub open spec fn uses_at(self, i: int, file: FileId) -> bool {
        self@[i].operation matches Some(op) && op.target() == file
    }

    pub fn has_live_for_file(&self, file: FileId) -> (live: bool)
        requires
            self.wf(),
        ensures
            live == self.uses(file),
    {
        let mut i: usize = 0;
        while i < self.slots.len()
            invariant
                i <= self.slots@.len(),
                forall|k: int| 0 <= k < i ==> !(#[trigger] self.uses_at(k, file)),
            decreases self.slots@.len() - i,
        {
            if let Some(operation) = self.slots[i].operation {
                if operation.file() == file {
                    assert(self.uses_at(i as int, file));
                    return true;
                }
            }
            i = i + 1;
        }
        false
    }

    /// No operation is in the table.
    pub open spec fn is_idle(self) -> bool {
        forall|k: int| 0 <= k < self@.len() ==> (#[trigger] self@[k]).operation is None
    }

    pub fn idle(&self) -> (idle: bool)
        requires
            self.wf(),
        ensures
            idle == self.is_idle(),
    {
        let mut i: usize = 0;
        while i < self.slots.len()
            invariant
                i <= self.slots@.len(),
                forall|k: int| 0 <= k < i ==> (#[trigger] self@[k]).operation is None,
            decreases self.slots@.len() - i,
        {
            if self.slots[i].operation.is_some() {
                assert(self@[i as int].operation is Some);
                return false;
            }
            i = i + 1;
        }
        true
    }
}

/// A barrier is submitted only when every write of its file admitted before it
/// has its result.
pub proof fn a_ripe_barrier_follows_its_writes(ops: ProductOps, barrier: int, write: int)
    requires
        ops.is_ripe(barrier),
        0 <= write < ops@.len(),
        ops@[write].operation is Some,
        ops@[write].operation->0 is Write,
        ops@[write].operation->0.target() == ops@[barrier].operation->0.target(),
    ensures
        ops@[write].operation->0->Write_order >= ops@[barrier].operation->0->FsyncHeld_order,
{
    let file = ops@[barrier].operation->0.target();
    let order = ops@[barrier].operation->0->FsyncHeld_order;
    assert(!ops.write_at(write, file, order));
}

/// Every result is delivered exactly once: what a pass over the first `n` slots
/// delivers, followed by what is left for later, is all there was.
pub proof fn every_result_is_delivered_once(slots: Seq<ProductOpSlot>, n: int)
    requires
        0 <= n <= slots.len(),
    ensures
        ProductOps::results(slots, n) + ProductOps::results(
            ProductOps::cleared(slots, n),
            slots.len() as int,
        ) == ProductOps::results(slots, slots.len() as int),
{
    lemma_left_over(slots, n, slots.len() as int);
}

proof fn lemma_left_over(slots: Seq<ProductOpSlot>, n: int, m: int)
    requires
        0 <= n <= slots.len(),
        0 <= m <= slots.len(),
    ensures
        m <= n ==> ProductOps::results(ProductOps::cleared(slots, n), m) == Seq::<
            PoolCompletion,
        >::empty(),
        m >= n ==> ProductOps::results(slots, n) + ProductOps::results(
            ProductOps::cleared(slots, n),
            m,
        ) == ProductOps::results(slots, m),
    decreases m,
{
    if m > 0 {
        lemma_left_over(slots, n, m - 1);
        if m > n {
            assert(ProductOps::results(slots, n) + ProductOps::results(
                ProductOps::cleared(slots, n),
                m,
            ) =~= ProductOps::results(slots, m));
        }
    }
    if m == n {
        assert(ProductOps::results(slots, n) + Seq::<PoolCompletion>::empty()
            =~= ProductOps::results(slots, n));
    }
}

/// A result among the first `n` slots is delivered, and no pass delivers more
/// results than it goes through slots.
pub proof fn lemma_delivered(slots: Seq<ProductOpSlot>, n: int, k: int)
    requires
        0 <= n <= slots.len(),
    ensures
        ProductOps::results(slots, n).len() <= n,
        0 <= k < n ==> (slots[k].operation matches Some(ProductOp::Completed { completion, .. })
            ==> ProductOps::results(slots, n).contains(completion)),
    decreases n,
{
    if n > 0 {
        lemma_delivered(slots, n - 1, k);
        if let Some(ProductOp::Completed { completion, .. }) = slots[n - 1].operation {
            let earlier = ProductOps::results(slots, n - 1);
            let all = ProductOps::results(slots, n);
            assert(all[earlier.len() as int] == completion);
            if 0 <= k < n - 1 {
                if let Some(ProductOp::Completed { completion: mine, .. }) = slots[k].operation {
                    let j = choose|j: int| 0 <= j < earlier.len() && earlier[j] == mine;
                    assert(all[j] == mine);
                }
            }
        }
    }
}

/// A delivery empties the slots whose results it hands out and leaves every other
/// operation as it was; a slot keeps its generation.
pub proof fn a_delivery_empties_its_slots(slots: Seq<ProductOpSlot>, n: int, i: int)
    requires
        0 <= n <= slots.len(),
        0 <= i < slots.len(),
    ensures
        ProductOps::cleared(slots, n).len() == slots.len(),
        ProductOps::cleared(slots, n)[i].generation == slots[i].generation,
        i < n && (slots[i].operation matches Some(op) && op is Completed) ==> ProductOps::cleared(
            slots,
            n,
        )[i].operation is None,
        i >= n || !(slots[i].operation matches Some(op) && op is Completed) ==> ProductOps::cleared(
            slots,
            n,
        )[i].operation == slots[i].operation,
{
}

} // verus!
