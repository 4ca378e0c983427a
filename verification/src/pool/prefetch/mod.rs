//! Bounded speculative ownership beside the ordinary miss and epoch protocols.

pub mod feedback;
pub mod index_queue;
pub mod ledger;
pub mod notifications;
pub mod pattern;

use vstd::prelude::*;

verus! {

/// Automatic forward-sequential prediction. Explicit hints work in either mode.
#[derive(Debug, Clone, Copy, PartialEq, Eq, Structural)]
pub enum Readahead {
    /// Learn consecutive cold demand and extend confirmed streams during polling.
    Automatic,
    /// Issue only demand reads and caller-provided prefetch requests.
    Disabled,
}

impl Default for Readahead {
    fn default() -> (mode: Self)
        ensures
            mode == Readahead::Automatic,
    {
        Readahead::Automatic
    }
}

/// Admission feedback, partitioning the input window without promising
/// completion.
#[derive(Debug, Clone, Copy, PartialEq, Eq, Structural)]
pub struct PrefetchReport {
    pub requested: u64,
    pub resident: u64,
    pub pending: u64,
    pub admitted: u64,
    pub deferred: u64,
    pub rejected: u64,
}

impl Default for PrefetchReport {
    fn default() -> (report: Self)
        ensures
            report == (PrefetchReport {
                requested: 0,
                resident: 0,
                pending: 0,
                admitted: 0,
                deferred: 0,
                rejected: 0,
            }),
    {
        PrefetchReport {
            requested: 0,
            resident: 0,
            pending: 0,
            admitted: 0,
            deferred: 0,
            rejected: 0,
        }
    }
}

/// Cumulative outcomes plus the current bounded speculative occupancy.
#[derive(Debug, Clone, Copy, PartialEq, Eq, Structural)]
pub struct PrefetchStats {
    pub admitted: u64,
    pub automatic_admitted: u64,
    pub demand_promoted: u64,
    pub evicted_unused: u64,
    pub failed: u64,
    pub deferred: u64,
    pub submission_refused: u64,
    pub occupied: u32,
    pub capacity: u32,
    pub reserve_free: u32,
    pub reads_in_flight: u32,
}

impl Default for PrefetchStats {
    fn default() -> (stats: Self)
        ensures
            stats == (PrefetchStats {
                admitted: 0,
                automatic_admitted: 0,
                demand_promoted: 0,
                evicted_unused: 0,
                failed: 0,
                deferred: 0,
                submission_refused: 0,
                occupied: 0,
                capacity: 0,
                reserve_free: 0,
                reads_in_flight: 0,
            }),
    {
        PrefetchStats {
            admitted: 0,
            automatic_admitted: 0,
            demand_promoted: 0,
            evicted_unused: 0,
            failed: 0,
            deferred: 0,
            submission_refused: 0,
            occupied: 0,
            capacity: 0,
            reserve_free: 0,
            reads_in_flight: 0,
        }
    }
}

/// Who asked for a speculative page.
#[derive(Debug, Clone, Copy, PartialEq, Eq, Structural)]
pub enum Source {
    Explicit,
    Automatic { reader: u32, incarnation: u64 },
}

/// What a speculative request comes to.
#[derive(Debug, Clone, Copy, PartialEq, Eq, Structural)]
pub enum Admission {
    Resident,
    Pending,
    Admitted,
    Deferred,
    Rejected,
    Obsolete,
}

} // verus!
