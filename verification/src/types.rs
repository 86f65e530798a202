use vstd::prelude::*;

verus! {

/// The index of a transaction in its block.
pub type TxIdx = usize;

/// The incarnation number of a transaction: how many times it was re-run.
pub type TxIncarnation = usize;

/// One incarnation of one transaction.
#[derive(Clone, Copy, Debug, PartialEq, Eq, Structural)]
pub struct TxVersion {
    pub tx_idx: TxIdx,
    pub tx_incarnation: TxIncarnation,
}

/// Where the latest incarnation of a transaction stands.
#[derive(Clone, Copy, Debug, PartialEq, Eq, Structural)]
pub enum IncarnationStatus {
    ReadyToExecute,
    Executing,
    Executed,
    Validated,
    Aborting,
}

/// The latest incarnation of a transaction and its status.
#[derive(Clone, Copy, Debug, PartialEq, Eq, Structural)]
pub struct TxStatus {
    pub incarnation: TxIncarnation,
    pub status: IncarnationStatus,
}

/// A unit of work handed to a worker.
#[derive(Clone, Copy, Debug, PartialEq, Eq, Structural)]
pub enum Task {
    Execution(TxVersion),
    Validation(TxVersion),
}

/// What a worker reports when an execution finishes.
#[derive(Clone, Copy, Debug, PartialEq, Eq, Structural)]
pub struct FinishExecFlags {
    /// The incarnation still has to be validated.
    pub need_validation: bool,
    /// The incarnation wrote to a location that its previous incarnation did not.
    pub wrote_new_location: bool,
}

impl FinishExecFlags {
    /// Whether the `NeedValidation` flag is set.
    pub fn contains_need_validation(&self) -> (b: bool)
        ensures
            b == self.need_validation,
    {
        self.need_validation
    }
}

/// What the scheduler reads of a transaction: the keys of the locations its
/// access list names (each distinct access-list item has its own key) and
/// its gas limit.
#[derive(Clone, Debug)]
pub struct TxAccess {
    pub access_list: Vec<u64>,
    pub gas_limit: u64,
}

/// The outcome of one round of the task search.
#[derive(Clone, Copy, Debug, PartialEq, Eq, Structural)]
pub enum NextTask {
    /// A task to perform.
    Run(Task),
    /// The block is done, or the scheduler was aborted: no more tasks.
    Finished,
    /// Nothing is ready yet; other workers have to make progress first.
    Retry,
}

/// A status after which an incarnation counts as finished by its dependents.
pub open spec fn is_done(s: IncarnationStatus) -> bool {
    s == IncarnationStatus::Executed || s == IncarnationStatus::Validated
}

} // verus!
