//! Repairing a user fault: the step between "the hardware trapped" and "the
//! thread runs again".
use vstd::prelude::*;
use crate::error::KError;
use crate::object::ObjectId;

verus! {

/// What an address space says of a fault.
#[derive(Clone, Copy, PartialEq, Eq, Debug, Structural)]
pub enum FaultOutcome {
    /// A lazy page was filled.
    Filled,
    /// A copy-on-write page was copied and remapped writable.
    Copied,
    /// A pager-backed page is not resident.
    NeedsPageIn { object: ObjectId, offset: u64 },
    /// A store to a present, read-only page whose mapping grants write.
    WriteToClean { object: ObjectId, offset: u64 },
    /// None of these.
    Unresolvable,
}

/// What a trap handler must do next.
#[derive(Clone, Copy, PartialEq, Eq, Debug, Structural)]
pub enum Repair {
    /// A lazy page was filled: resume.
    Filled,
    /// A copy-on-write page was copied: resume.
    Copied,
    /// The page tables grant the store now: resume. Accounting the page as
    /// dirty is the caller's.
    WriteGranted { object: ObjectId, offset: u64 },
    /// The page must come from its pager: forward a request and block.
    NeedsPageIn { object: ObjectId, offset: u64 },
    /// Not repairable: escalate.
    Fatal,
}

impl Repair {
    /// Whether the faulting instruction can be resumed at once.
    pub open spec fn resumable(self) -> bool {
        self is Filled || self is Copied || self is WriteGranted
    }

    /// Whether the faulting instruction can be resumed at once.
    pub fn resumes(&self) -> (b: bool)
        ensures
            b == self.resumable(),
    {
        matches!(self, Repair::Filled | Repair::Copied | Repair::WriteGranted { .. })
    }
}

/// What repairing a fault takes.
#[derive(Clone, Copy, PartialEq, Eq, Debug, Structural)]
pub enum RepairStep {
    /// Nothing more.
    Done(Repair),
    /// The page tables must grant the store; [`write_granted`] answers for how
    /// that went.
    GrantWrite { object: ObjectId, offset: u64 },
}

/// What the address space's answer to a fault means.
pub fn repair(outcome: FaultOutcome) -> (s: RepairStep)
    ensures
        s == match outcome {
            FaultOutcome::Filled => RepairStep::Done(Repair::Filled),
            FaultOutcome::Copied => RepairStep::Done(Repair::Copied),
            FaultOutcome::NeedsPageIn { object, offset } => RepairStep::Done(
                Repair::NeedsPageIn { object, offset },
            ),
            FaultOutcome::WriteToClean { object, offset } => RepairStep::GrantWrite {
                object,
                offset,
            },
            FaultOutcome::Unresolvable => RepairStep::Done(Repair::Fatal),
        },
{
    match outcome {
        FaultOutcome::Filled => RepairStep::Done(Repair::Filled),
        FaultOutcome::Copied => RepairStep::Done(Repair::Copied),
        FaultOutcome::NeedsPageIn { object, offset } => RepairStep::Done(
            Repair::NeedsPageIn { object, offset },
        ),
        FaultOutcome::WriteToClean { object, offset } => RepairStep::GrantWrite { object, offset },
        FaultOutcome::Unresolvable => RepairStep::Done(Repair::Fatal),
    }
}

/// What granting a store came to. A store the page tables still refuse is not
/// resumed: it would fault at the same address for ever.
pub fn write_granted(object: ObjectId, offset: u64, granted: Result<(), KError>) -> (r: Repair)
    ensures
        r == if granted is Ok {
            Repair::WriteGranted { object, offset }
        } else {
            Repair::Fatal
        },
{
    match granted {
        Ok(_) => Repair::WriteGranted { object, offset },
        Err(_) => Repair::Fatal,
    }
}

/// A faulting access goes on exactly when its page was filled, copied or made
/// writable.
pub proof fn law_a_repaired_access_goes_on(r: Repair)
    ensures
        r.resumable() <==> match r {
            Repair::Filled => true,
            Repair::Copied => true,
            Repair::WriteGranted { .. } => true,
            _ => false,
        },
{
}

} // verus!
