//! What a store refuses with.

use vstd::prelude::*;

verus! {

/// A refusal by a store.
#[derive(Debug)]
pub enum StoreError {
    /// The store could not do what was asked, and says why.
    Backend(String),
    /// What is stored is not what any writer of this plane writes.
    Corrupt { seq: u64, detail: String },
    /// A commit whose acknowledgement was lost: it may be standing.
    CommitUnknown { detail: String },
    /// The writer's epoch is not the lease's.
    Fenced { run: String, held: u64, current: u64 },
    /// The run is sealed, and sealed is frozen.
    RunSealed { run: String, outcome: String },
    /// The effect has already been started in this run.
    DuplicateEffect(String),
    /// The admission key already belongs to a run.
    DuplicateAdmission { key: String, run: String },
    /// Somebody holds the lease.
    LeaseHeld { run: String, owner: String, epoch: u64, remaining_secs: u64 },
    /// The caller does not hold the lease it renews.
    LeaseNotHeld { run: String, epoch: u64 },
    /// The case moved on since the version the caller read.
    CaseConflict { case: String, expected: u64, current: u64 },
    /// There is no such thing.
    NotFound(String),
    /// The batch was opened on another plan.
    BatchPlanChanged { batch: String, stored: String, offered: String },
}

/// What a [`StoreError`] says.
pub enum Refusal {
    Backend(Seq<char>),
    Corrupt { seq: u64, detail: Seq<char> },
    CommitUnknown { detail: Seq<char> },
    Fenced { run: Seq<char>, held: u64, current: u64 },
    RunSealed { run: Seq<char>, outcome: Seq<char> },
    DuplicateEffect(Seq<char>),
    DuplicateAdmission { key: Seq<char>, run: Seq<char> },
    LeaseHeld { run: Seq<char>, owner: Seq<char>, epoch: u64, remaining_secs: u64 },
    LeaseNotHeld { run: Seq<char>, epoch: u64 },
    CaseConflict { case: Seq<char>, expected: u64, current: u64 },
    NotFound(Seq<char>),
    BatchPlanChanged { batch: Seq<char>, stored: Seq<char>, offered: Seq<char> },
}

impl View for StoreError {
    type V = Refusal;

    open spec fn view(&self) -> Refusal {
        match self {
            StoreError::Backend(m) => Refusal::Backend(m@),
            StoreError::Corrupt { seq, detail } => Refusal::Corrupt { seq: *seq, detail: detail@ },
            StoreError::CommitUnknown { detail } => Refusal::CommitUnknown { detail: detail@ },
            StoreError::Fenced { run, held, current } => Refusal::Fenced {
                run: run@,
                held: *held,
                current: *current,
            },
            StoreError::RunSealed { run, outcome } => Refusal::RunSealed {
                run: run@,
                outcome: outcome@,
            },
            StoreError::DuplicateEffect(k) => Refusal::DuplicateEffect(k@),
            StoreError::DuplicateAdmission { key, run } => Refusal::DuplicateAdmission {
                key: key@,
                run: run@,
            },
            StoreError::LeaseHeld { run, owner, epoch, remaining_secs } => Refusal::LeaseHeld {
                run: run@,
                owner: owner@,
                epoch: *epoch,
                remaining_secs: *remaining_secs,
            },
            StoreError::LeaseNotHeld { run, epoch } => Refusal::LeaseNotHeld {
                run: run@,
                epoch: *epoch,
            },
            StoreError::CaseConflict { case, expected, current } => Refusal::CaseConflict {
                case: case@,
                expected: *expected,
                current: *current,
            },
            StoreError::NotFound(m) => Refusal::NotFound(m@),
            StoreError::BatchPlanChanged { batch, stored, offered } => Refusal::BatchPlanChanged {
                batch: batch@,
                stored: stored@,
                offered: offered@,
            },
        }
    }
}

} // verus!
