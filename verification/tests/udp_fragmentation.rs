use rstorrent_engine::session_udp::Ipv4FragmentationProtectionStatus;
use rstorrent_engine::udp_fragmentation::{
    verification_status, FragmentationTransaction, OperationResult, PolicyAction, PolicyEvent,
    PolicyFailure, RestoreFailure, TransactionOutcome,
};

const PRIOR: u32 = 0;
const PROTECTED: u32 = 1;
const CONTAMINATED: u32 = 2;

struct FakePolicy {
    value: u32,
    set_calls: usize,
    fail_set_call: Option<usize>,
    fail_read_call: Option<usize>,
    read_calls: usize,
    lie_after_restore: bool,
}

impl FakePolicy {
    fn healthy() -> Self {
        Self {
            value: PRIOR,
            set_calls: 0,
            fail_set_call: None,
            fail_read_call: None,
            read_calls: 0,
            lie_after_restore: false,
        }
    }

    fn current(&mut self) -> Option<u32> {
        self.read_calls += 1;
        if self.fail_read_call == Some(self.read_calls) {
            return None;
        }
        Some(self.value)
    }

    fn set(&mut self, value: u32) -> bool {
        self.set_calls += 1;
        if self.fail_set_call == Some(self.set_calls) {
            self.value = CONTAMINATED;
            return false;
        }
        if value == PRIOR && self.lie_after_restore {
            self.value = CONTAMINATED;
        } else {
            self.value = value;
        }
        true
    }
}

fn drive(policy: &mut FakePolicy, operation: OperationResult) -> TransactionOutcome {
    let (mut transaction, mut action) = FragmentationTransaction::begin(PROTECTED);
    loop {
        let event = match action {
            PolicyAction::ReadCurrent => PolicyEvent::Read(policy.current()),
            PolicyAction::SetValue(value) => PolicyEvent::SetDone(policy.set(value)),
            PolicyAction::RunOperation => PolicyEvent::OperationDone(operation),
            PolicyAction::Finish(outcome) => return outcome,
        };
        action = transaction.step(event);
    }
}

#[test]
fn transaction_restores_before_returning_every_operation_result() {
    for operation in [OperationResult::Succeeded, OperationResult::Failed] {
        let mut policy = FakePolicy::healthy();
        let result = drive(&mut policy, operation);
        assert_eq!(policy.value, PRIOR);
        assert_eq!(policy.set_calls, 2);
        match result {
            TransactionOutcome::Succeeded | TransactionOutcome::SendFailed => {}
            other => panic!("unexpected result: {other:?}"),
        }
    }
}

#[test]
fn transaction_restores_before_reporting_an_operation_panic() {
    let mut policy = FakePolicy::healthy();
    let result = drive(&mut policy, OperationResult::Panicked);
    assert!(matches!(result, TransactionOutcome::OperationPanicked));
    assert_eq!(policy.value, PRIOR);
    assert_eq!(policy.set_calls, 2);
}

#[test]
fn uncertain_restore_is_distinct_and_never_claimed_clean() {
    let mut policy = FakePolicy::healthy();
    policy.lie_after_restore = true;
    let error = drive(&mut policy, OperationResult::Succeeded);
    assert!(error.restore_is_uncertain());
    assert_eq!(policy.value, CONTAMINATED);
}

#[test]
fn a_failed_protected_set_repairs_a_possible_partial_change() {
    let mut policy = FakePolicy::healthy();
    policy.fail_set_call = Some(1);
    let error = drive(&mut policy, OperationResult::Succeeded);
    assert!(matches!(error, TransactionOutcome::Policy(_)));
    assert_eq!(policy.value, PRIOR);
    assert_eq!(policy.set_calls, 2);
}

#[test]
fn unreadable_prior_value_changes_nothing() {
    let mut policy = FakePolicy::healthy();
    policy.fail_read_call = Some(1);
    let outcome = drive(&mut policy, OperationResult::Succeeded);
    assert_eq!(outcome, TransactionOutcome::Policy(PolicyFailure::ReadPrior));
    assert_eq!(policy.set_calls, 0);
    assert!(!outcome.restore_is_uncertain());
}

#[test]
fn unreadable_installed_value_restores_and_reports_the_check() {
    let mut policy = FakePolicy::healthy();
    policy.fail_read_call = Some(2);
    let outcome = drive(&mut policy, OperationResult::Succeeded);
    assert_eq!(outcome, TransactionOutcome::Policy(PolicyFailure::InstallCheck));
    assert_eq!(policy.value, PRIOR);
    assert_eq!(policy.set_calls, 2);
}

#[test]
fn unreadable_restored_value_is_uncertain() {
    let mut policy = FakePolicy::healthy();
    policy.fail_read_call = Some(3);
    let outcome = drive(&mut policy, OperationResult::Succeeded);
    assert_eq!(outcome, TransactionOutcome::RestoreUncertain(RestoreFailure::Check));
}

#[test]
fn failed_restore_set_is_uncertain() {
    let mut policy = FakePolicy::healthy();
    policy.fail_set_call = Some(2);
    let outcome = drive(&mut policy, OperationResult::Failed);
    assert_eq!(outcome, TransactionOutcome::RestoreUncertain(RestoreFailure::SetFailed));
    assert_eq!(policy.value, CONTAMINATED);
}

#[test]
fn mismatched_restore_names_the_observed_value() {
    let mut policy = FakePolicy::healthy();
    policy.lie_after_restore = true;
    let outcome = drive(&mut policy, OperationResult::Panicked);
    assert_eq!(
        outcome,
        TransactionOutcome::RestoreUncertain(RestoreFailure::Mismatch { observed: CONTAMINATED })
    );
}

#[test]
fn protected_value_that_does_not_stick_is_rolled_back() {
    let (mut transaction, action) = FragmentationTransaction::begin(PROTECTED);
    assert_eq!(action, PolicyAction::ReadCurrent);
    assert_eq!(transaction.step(PolicyEvent::Read(Some(7))), PolicyAction::SetValue(PROTECTED));
    assert_eq!(transaction.step(PolicyEvent::SetDone(true)), PolicyAction::ReadCurrent);
    assert_eq!(transaction.step(PolicyEvent::Read(Some(9))), PolicyAction::SetValue(7));
    assert_eq!(transaction.step(PolicyEvent::SetDone(true)), PolicyAction::ReadCurrent);
    assert_eq!(
        transaction.step(PolicyEvent::Read(Some(7))),
        PolicyAction::Finish(TransactionOutcome::Policy(PolicyFailure::NotInstalled { observed: 9 }))
    );
}

#[test]
fn failed_install_that_left_the_prior_value_needs_no_restore() {
    let (mut transaction, _) = FragmentationTransaction::begin(PROTECTED);
    transaction.step(PolicyEvent::Read(Some(PRIOR)));
    assert_eq!(transaction.step(PolicyEvent::SetDone(false)), PolicyAction::ReadCurrent);
    assert_eq!(
        transaction.step(PolicyEvent::Read(Some(PRIOR))),
        PolicyAction::Finish(TransactionOutcome::Policy(PolicyFailure::Install))
    );
}

#[test]
fn capability_check_outcomes_map_to_statuses() {
    assert_eq!(
        verification_status(TransactionOutcome::Succeeded),
        Ok(Ipv4FragmentationProtectionStatus::Verified)
    );
    assert_eq!(
        verification_status(TransactionOutcome::Policy(PolicyFailure::Install)),
        Ok(Ipv4FragmentationProtectionStatus::VerificationFailed)
    );
    assert_eq!(
        verification_status(TransactionOutcome::RestoreUncertain(RestoreFailure::Check)),
        Err(RestoreFailure::Check)
    );
}
