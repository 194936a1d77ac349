//! The fragmentation-policy transaction around a protected IPv4 send.
//!
//! The socket's fragmentation policy is read, the protected value is
//! installed and checked, the operation runs, and the prior value is put
//! back and checked before anything is reported. The transaction decides;
//! the caller performs each action on the socket and hands back what
//! happened. A clean result is only ever reported once the prior value was
//! observed again; when the restoration cannot be confirmed, that is what is
//! reported.
use vstd::prelude::*;
use crate::session_udp::Ipv4FragmentationProtectionStatus;

verus! {

/// Which step of installing the protected value failed.
#[derive(Clone, Copy, Debug, PartialEq, Eq, Structural)]
pub enum PolicyFailure {
    /// The prior value could not be read.
    ReadPrior,
    /// Setting the protected value failed.
    Install,
    /// After setting, another value than the protected one was observed.
    NotInstalled { observed: u32 },
    /// After setting, the value could not be read.
    InstallCheck,
}

/// Which step of putting the prior value back failed.
#[derive(Clone, Copy, Debug, PartialEq, Eq, Structural)]
pub enum RestoreFailure {
    /// Setting the prior value failed.
    SetFailed,
    /// After restoring, another value than the prior one was observed.
    Mismatch { observed: u32 },
    /// After restoring, the value could not be read.
    Check,
}

/// How the protected operation ended.
#[derive(Clone, Copy, Debug, PartialEq, Eq, Structural)]
pub enum OperationResult {
    Succeeded,
    Failed,
    Panicked,
}

/// What the transaction reports.
#[derive(Clone, Copy, Debug, PartialEq, Eq, Structural)]
pub enum TransactionOutcome {
    /// The operation succeeded and the prior value is back.
    Succeeded,
    /// The operation failed and the prior value is back.
    SendFailed,
    /// The protected value could not be installed; the prior value is in
    /// place.
    Policy(PolicyFailure),
    /// Whether the prior value is back is not known.
    RestoreUncertain(RestoreFailure),
    /// The operation panicked and the prior value is back.
    OperationPanicked,
}

/// What the caller does next.
#[derive(Clone, Copy, Debug, PartialEq, Eq, Structural)]
pub enum PolicyAction {
    /// Read the current policy value.
    ReadCurrent,
    /// Set the policy to this value.
    SetValue(u32),
    /// Run the protected operation.
    RunOperation,
    /// Report this outcome; the transaction is over.
    Finish(TransactionOutcome),
}

/// What happened when the caller performed the last action.
#[derive(Clone, Copy, Debug, PartialEq, Eq, Structural)]
pub enum PolicyEvent {
    /// A read gave this value, or failed.
    Read(Option<u32>),
    /// A set succeeded, or failed.
    SetDone(bool),
    /// The operation ended.
    OperationDone(OperationResult),
}

/// Where the transaction stands.
#[derive(Clone, Copy, Debug, PartialEq, Eq, Structural)]
pub enum Phase {
    ReadingPrior,
    Installing,
    CheckingAfterFailedInstall,
    CheckingInstalled,
    Operating,
    Restoring,
    CheckingRestored,
    Done,
}

/// One fragmentation-policy transaction.
#[derive(Clone, Copy, Debug, PartialEq, Eq, Structural)]
pub struct FragmentationTransaction {
    pub phase: Phase,
    /// The value that protects the send.
    pub protected: u32,
    /// The value found before the transaction.
    pub prior: u32,
    /// What is reported once the prior value is confirmed back.
    pub pending: TransactionOutcome,
}

/// Whether `event` answers the action that `t` asked for.
pub open spec fn answers(t: FragmentationTransaction, event: PolicyEvent) -> bool {
    match t.phase {
        Phase::ReadingPrior | Phase::CheckingAfterFailedInstall | Phase::CheckingInstalled
        | Phase::CheckingRestored => event is Read,
        Phase::Installing | Phase::Restoring => event is SetDone,
        Phase::Operating => event is OperationDone,
        Phase::Done => false,
    }
}

/// The outcome reported for an operation result once the prior value is back.
pub open spec fn operation_outcome(result: OperationResult) -> TransactionOutcome {
    match result {
        OperationResult::Succeeded => TransactionOutcome::Succeeded,
        OperationResult::Failed => TransactionOutcome::SendFailed,
        OperationResult::Panicked => TransactionOutcome::OperationPanicked,
    }
}

/// `t` moved to `phase` with `pending` to report.
pub open spec fn moved_to(t: FragmentationTransaction, phase: Phase, pending: TransactionOutcome) -> FragmentationTransaction {
    FragmentationTransaction { phase, pending, ..t }
}

/// The transaction after `event`, and what the caller does next.
pub open spec fn next(t: FragmentationTransaction, event: PolicyEvent) -> (FragmentationTransaction, PolicyAction) {
    match (t.phase, event) {
        (Phase::ReadingPrior, PolicyEvent::Read(Some(value))) => (
            FragmentationTransaction { phase: Phase::Installing, prior: value, ..t },
            PolicyAction::SetValue(t.protected),
        ),
        (Phase::ReadingPrior, _) => {
            let outcome = TransactionOutcome::Policy(PolicyFailure::ReadPrior);
            (moved_to(t, Phase::Done, outcome), PolicyAction::Finish(outcome))
        },
        (Phase::Installing, PolicyEvent::SetDone(true)) => (
            moved_to(t, Phase::CheckingInstalled, t.pending),
            PolicyAction::ReadCurrent,
        ),
        (Phase::Installing, _) => (
            moved_to(t, Phase::CheckingAfterFailedInstall, TransactionOutcome::Policy(PolicyFailure::Install)),
            PolicyAction::ReadCurrent,
        ),
        (Phase::CheckingAfterFailedInstall, PolicyEvent::Read(Some(value))) => if value == t.prior {
            (moved_to(t, Phase::Done, t.pending), PolicyAction::Finish(t.pending))
        } else {
            (moved_to(t, Phase::Restoring, t.pending), PolicyAction::SetValue(t.prior))
        },
        (Phase::CheckingAfterFailedInstall, _) => (moved_to(t, Phase::Restoring, t.pending), PolicyAction::SetValue(t.prior)),
        (Phase::CheckingInstalled, PolicyEvent::Read(Some(value))) => if value == t.protected {
            (moved_to(t, Phase::Operating, t.pending), PolicyAction::RunOperation)
        } else {
            (
                moved_to(t, Phase::Restoring, TransactionOutcome::Policy(PolicyFailure::NotInstalled { observed: value })),
                PolicyAction::SetValue(t.prior),
            )
        },
        (Phase::CheckingInstalled, _) => (
            moved_to(t, Phase::Restoring, TransactionOutcome::Policy(PolicyFailure::InstallCheck)),
            PolicyAction::SetValue(t.prior),
        ),
        (Phase::Operating, PolicyEvent::OperationDone(result)) => (
            moved_to(t, Phase::Restoring, operation_outcome(result)),
            PolicyAction::SetValue(t.prior),
        ),
        (Phase::Operating, _) => (moved_to(t, Phase::Restoring, TransactionOutcome::OperationPanicked), PolicyAction::SetValue(t.prior)),
        (Phase::Restoring, PolicyEvent::SetDone(true)) => (
            moved_to(t, Phase::CheckingRestored, t.pending),
            PolicyAction::ReadCurrent,
        ),
        (Phase::Restoring, _) => {
            let outcome = TransactionOutcome::RestoreUncertain(RestoreFailure::SetFailed);
            (moved_to(t, Phase::Done, t.pending), PolicyAction::Finish(outcome))
        },
        (Phase::CheckingRestored, PolicyEvent::Read(Some(value))) => if value == t.prior {
            (moved_to(t, Phase::Done, t.pending), PolicyAction::Finish(t.pending))
        } else {
            let outcome = TransactionOutcome::RestoreUncertain(RestoreFailure::Mismatch { observed: value });
            (moved_to(t, Phase::Done, t.pending), PolicyAction::Finish(outcome))
        },
        (Phase::CheckingRestored, _) => {
            let outcome = TransactionOutcome::RestoreUncertain(RestoreFailure::Check);
            (moved_to(t, Phase::Done, t.pending), PolicyAction::Finish(outcome))
        },
        (Phase::Done, _) => (t, PolicyAction::Finish(t.pending)),
    }
}


/// A clean outcome (anything but an uncertain restoration) is only reported
/// when the first read failed, before anything was changed, or in answer to
/// a read that observed the prior value again.
pub proof fn lemma_clean_outcome_follows_prior(t: FragmentationTransaction, event: PolicyEvent)
    requires
        answers(t, event),
        next(t, event).1 is Finish,
        !(next(t, event).1->Finish_0 is RestoreUncertain),
    ensures
        (t.phase == Phase::ReadingPrior && event == PolicyEvent::Read(None)) || (event == PolicyEvent::Read(
            Some(t.prior),
        ) && (t.phase == Phase::CheckingRestored || t.phase == Phase::CheckingAfterFailedInstall)),
{
}

/// Whatever the operation did, the next action puts the prior value back,
/// and the operation's result waits until the restoration is confirmed.
pub proof fn lemma_operation_is_followed_by_restore(t: FragmentationTransaction, result: OperationResult)
    requires
        t.phase == Phase::Operating,
    ensures
        next(t, PolicyEvent::OperationDone(result)).1 == PolicyAction::SetValue(t.prior),
        next(t, PolicyEvent::OperationDone(result)).0.pending == operation_outcome(result),
        next(t, PolicyEvent::OperationDone(result)).0.phase == Phase::Restoring,
{
}

/// Once the operation has ended and the prior value is put back and observed
/// again, the transaction reports what the operation did: a success as
/// `Succeeded`, a failed send as `SendFailed`, a panic as `OperationPanicked`.
/// Only an operation that reported success leaves `Succeeded` to be reported.
pub proof fn lemma_restored_send_reports_operation_result(t: FragmentationTransaction, result: OperationResult)
    requires
        t.phase == Phase::Operating,
    ensures
        ({
            let after_operation = next(t, PolicyEvent::OperationDone(result)).0;
            let after_restore = next(after_operation, PolicyEvent::SetDone(true)).0;
            let reported = next(after_restore, PolicyEvent::Read(Some(t.prior))).1;
            &&& result == OperationResult::Succeeded ==> reported == PolicyAction::Finish(
                TransactionOutcome::Succeeded,
            )
            &&& result == OperationResult::Failed ==> reported == PolicyAction::Finish(
                TransactionOutcome::SendFailed,
            )
            &&& result == OperationResult::Panicked ==> reported == PolicyAction::Finish(
                TransactionOutcome::OperationPanicked,
            )
            &&& after_operation.pending == TransactionOutcome::Succeeded ==> result
                == OperationResult::Succeeded
        }),
{
}

/// Once the prior value is being put back, the pending outcome is reported
/// exactly when the prior value is observed again; every other answer
/// reports the restoration as uncertain.
pub proof fn lemma_uncertain_restore_is_never_clean(t: FragmentationTransaction, event: PolicyEvent)
    requires
        t.phase == Phase::Restoring || t.phase == Phase::CheckingRestored,
        answers(t, event),
    ensures
        next(t, event).1 == PolicyAction::Finish(t.pending) && !(t.pending is RestoreUncertain) ==> t.phase
            == Phase::CheckingRestored && event == PolicyEvent::Read(Some(t.prior)),
        t.phase == Phase::CheckingRestored ==> (next(t, event).1 == PolicyAction::Finish(t.pending) <==> event
            == PolicyEvent::Read(Some(t.prior))) || t.pending is RestoreUncertain,
        t.phase == Phase::CheckingRestored && event != PolicyEvent::Read(Some(t.prior)) ==> next(t, event).1
            matches PolicyAction::Finish(TransactionOutcome::RestoreUncertain(_)),
{
}

/// What a capability check reports: a confirmed installation and
/// restoration is verified protection, a refused installation is a failed
/// verification, and an unconfirmed restoration is an error.
pub fn verification_status(outcome: TransactionOutcome) -> (status: Result<Ipv4FragmentationProtectionStatus, RestoreFailure>)
    requires
        !(outcome is SendFailed),
        !(outcome is OperationPanicked),
    ensures
        outcome is Succeeded ==> status == Ok::<Ipv4FragmentationProtectionStatus, RestoreFailure>(
            Ipv4FragmentationProtectionStatus::Verified,
        ),
        outcome is Policy ==> status == Ok::<Ipv4FragmentationProtectionStatus, RestoreFailure>(
            Ipv4FragmentationProtectionStatus::VerificationFailed,
        ),
        outcome matches TransactionOutcome::RestoreUncertain(f) ==> status == Err::<
            Ipv4FragmentationProtectionStatus,
            RestoreFailure,
        >(f),
{
    match outcome {
        TransactionOutcome::Succeeded => Ok(Ipv4FragmentationProtectionStatus::Verified),
        TransactionOutcome::Policy(_) => Ok(Ipv4FragmentationProtectionStatus::VerificationFailed),
        TransactionOutcome::RestoreUncertain(failure) => Err(failure),
        TransactionOutcome::SendFailed => Ok(Ipv4FragmentationProtectionStatus::VerificationFailed),
        TransactionOutcome::OperationPanicked => Ok(Ipv4FragmentationProtectionStatus::VerificationFailed),
    }
}

impl TransactionOutcome {
    /// Whether the outcome leaves the restoration unconfirmed.
    pub fn restore_is_uncertain(&self) -> (uncertain: bool)
        ensures
            uncertain == (*self is RestoreUncertain),
    {
        match self {
            TransactionOutcome::RestoreUncertain(_) => true,
            _ => false,
        }
    }
}

impl FragmentationTransaction {
    /// Starts a transaction that installs `protected`; the caller first
    /// reads the current value.
    pub fn begin(protected: u32) -> (started: (FragmentationTransaction, PolicyAction))
        ensures
            started.0 == (FragmentationTransaction {
                phase: Phase::ReadingPrior,
                protected,
                prior: 0,
                pending: TransactionOutcome::Succeeded,
            }),
            started.1 == PolicyAction::ReadCurrent,
    {
        (
            FragmentationTransaction {
                phase: Phase::ReadingPrior,
                protected,
                prior: 0,
                pending: TransactionOutcome::Succeeded,
            },
            PolicyAction::ReadCurrent,
        )
    }

    /// Takes in what happened when the last action was performed, and says
    /// what to do next.
    pub fn step(&mut self, event: PolicyEvent) -> (action: PolicyAction)
        requires
            answers(*old(self), event),
        ensures
            (*final(self), action) == next(*old(self), event),
    {
        let t = *self;
        match (t.phase, event) {
            (Phase::ReadingPrior, PolicyEvent::Read(Some(value))) => {
                self.phase = Phase::Installing;
                self.prior = value;
                PolicyAction::SetValue(t.protected)
            },
            (Phase::ReadingPrior, _) => {
                let outcome = TransactionOutcome::Policy(PolicyFailure::ReadPrior);
                self.phase = Phase::Done;
                self.pending = outcome;
                PolicyAction::Finish(outcome)
            },
            (Phase::Installing, PolicyEvent::SetDone(true)) => {
                self.phase = Phase::CheckingInstalled;
                PolicyAction::ReadCurrent
            },
            (Phase::Installing, _) => {
                self.phase = Phase::CheckingAfterFailedInstall;
                self.pending = TransactionOutcome::Policy(PolicyFailure::Install);
                PolicyAction::ReadCurrent
            },
            (Phase::CheckingAfterFailedInstall, PolicyEvent::Read(Some(value))) => {
                if value == t.prior {
                    self.phase = Phase::Done;
                    PolicyAction::Finish(t.pending)
                } else {
                    self.phase = Phase::Restoring;
                    PolicyAction::SetValue(t.prior)
                }
            },
            (Phase::CheckingAfterFailedInstall, _) => {
                self.phase = Phase::Restoring;
                PolicyAction::SetValue(t.prior)
            },
            (Phase::CheckingInstalled, PolicyEvent::Read(Some(value))) => {
                if value == t.protected {
                    self.phase = Phase::Operating;
                    PolicyAction::RunOperation
                } else {
                    self.phase = Phase::Restoring;
                    self.pending = TransactionOutcome::Policy(PolicyFailure::NotInstalled { observed: value });
                    PolicyAction::SetValue(t.prior)
                }
            },
            (Phase::CheckingInstalled, _) => {
                self.phase = Phase::Restoring;
                self.pending = TransactionOutcome::Policy(PolicyFailure::InstallCheck);
                PolicyAction::SetValue(t.prior)
            },
            (Phase::Operating, PolicyEvent::OperationDone(result)) => {
                self.phase = Phase::Restoring;
                self.pending = match result {
                    OperationResult::Succeeded => TransactionOutcome::Succeeded,
                    OperationResult::Failed => TransactionOutcome::SendFailed,
                    OperationResult::Panicked => TransactionOutcome::OperationPanicked,
                };
                PolicyAction::SetValue(t.prior)
            },
            (Phase::Operating, _) => {
                self.phase = Phase::Restoring;
                self.pending = TransactionOutcome::OperationPanicked;
                PolicyAction::SetValue(t.prior)
            },
            (Phase::Restoring, PolicyEvent::SetDone(true)) => {
                self.phase = Phase::CheckingRestored;
                PolicyAction::ReadCurrent
            },
            (Phase::Restoring, _) => {
                self.phase = Phase::Done;
                PolicyAction::Finish(TransactionOutcome::RestoreUncertain(RestoreFailure::SetFailed))
            },
            (Phase::CheckingRestored, PolicyEvent::Read(Some(value))) => {
                self.phase = Phase::Done;
                if value == t.prior {
                    PolicyAction::Finish(t.pending)
                } else {
                    PolicyAction::Finish(TransactionOutcome::RestoreUncertain(RestoreFailure::Mismatch { observed: value }))
                }
            },
            (Phase::CheckingRestored, _) => {
                self.phase = Phase::Done;
                PolicyAction::Finish(TransactionOutcome::RestoreUncertain(RestoreFailure::Check))
            },
            (Phase::Done, _) => PolicyAction::Finish(t.pending),
        }
    }
}

} // verus!
