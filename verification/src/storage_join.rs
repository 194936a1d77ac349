//! The join of one piece's block writes with its hash check.
//!
//! Every completion names the piece generation it belongs to; a completion of
//! an earlier generation is refused and changes nothing.
use vstd::prelude::*;
use crate::swarm_types::{PieceGeneration, SwarmError};

verus! {

#[derive(Clone, Copy, Debug, PartialEq, Eq, Structural)]
pub enum PieceHashJoinState {
    NotStarted,
    Running,
    Passed,
    Failed,
}

#[derive(Clone, Copy, Debug, PartialEq, Eq, Structural)]
pub enum PieceStorageOutcome {
    Pending,
    Verified,
    Failed,
}

pub const ERR_TOO_MANY_WRITES: &'static str = "piece received more write completions than expected";

pub const ERR_HASH_STARTED: &'static str = "piece hash is already started or completed";

pub const ERR_NO_RUNNING_HASH: &'static str = "piece hash completion has no running hash";

pub const OWNER_GENERATION: &'static str = "piece generation";

/// What a piece's storage has come to: pending until every write completed,
/// failed if a write or the hash failed, verified once the hash passed.
pub open spec fn outcome_of(
    expected: usize,
    completed: usize,
    write_failed: bool,
    hash: PieceHashJoinState,
) -> PieceStorageOutcome {
    if completed != expected {
        PieceStorageOutcome::Pending
    } else if write_failed || hash == PieceHashJoinState::Failed {
        PieceStorageOutcome::Failed
    } else if hash == PieceHashJoinState::Passed {
        PieceStorageOutcome::Verified
    } else {
        PieceStorageOutcome::Pending
    }
}

#[derive(Debug)]
pub struct PieceStorageJoin {
    pub generation: PieceGeneration,
    writes_expected: usize,
    writes_completed: usize,
    write_failed: bool,
    hash: PieceHashJoinState,
}

impl PieceStorageJoin {
    pub closed spec fn generation_view(&self) -> PieceGeneration {
        self.generation
    }

    pub closed spec fn expected_view(&self) -> usize {
        self.writes_expected
    }

    pub closed spec fn completed_view(&self) -> usize {
        self.writes_completed
    }

    pub closed spec fn write_failed_view(&self) -> bool {
        self.write_failed
    }

    pub closed spec fn hash_view(&self) -> PieceHashJoinState {
        self.hash
    }

    /// Never more completions than expected writes.
    pub closed spec fn wf(&self) -> bool {
        self.writes_completed <= self.writes_expected
    }

    pub open spec fn outcome_view(&self) -> PieceStorageOutcome {
        outcome_of(self.expected_view(), self.completed_view(), self.write_failed_view(), self.hash_view())
    }

    /// The state is unchanged.
    pub open spec fn same(&self, other: &Self) -> bool {
        &&& self.generation_view() == other.generation_view()
        &&& self.expected_view() == other.expected_view()
        &&& self.completed_view() == other.completed_view()
        &&& self.write_failed_view() == other.write_failed_view()
        &&& self.hash_view() == other.hash_view()
    }

    /// The refusal of a completion that names `generation` instead of the
    /// current one.
    pub open spec fn stale(&self, generation: PieceGeneration) -> SwarmError {
        SwarmError::StalePieceGeneration { expected: self.generation_view(), actual: generation }
    }

    pub fn new(writes_expected: usize) -> (r: Self)
        requires
            writes_expected != 0,
        ensures
            r.wf(),
            r.generation_view().value() == 1,
            r.expected_view() == writes_expected,
            r.completed_view() == 0,
            !r.write_failed_view(),
            r.hash_view() == PieceHashJoinState::NotStarted,
    {
        PieceStorageJoin {
            generation: PieceGeneration::first(),
            writes_expected,
            writes_completed: 0,
            write_failed: false,
            hash: PieceHashJoinState::NotStarted,
        }
    }

    pub fn generation(&self) -> (r: PieceGeneration)
        ensures
            r == self.generation_view(),
    {
        self.generation
    }

    pub fn validate_generation(&self, generation: PieceGeneration) -> (r: Result<(), SwarmError>)
        ensures
            generation == self.generation_view() ==> r is Ok,
            generation != self.generation_view() ==> r == Err::<(), SwarmError>(self.stale(generation)),
    {
        if generation.same(self.generation) {
            Ok(())
        } else {
            Err(SwarmError::StalePieceGeneration { expected: self.generation, actual: generation })
        }
    }

    /// Records one completed write of the current generation.
    pub fn write_completed(&mut self, generation: PieceGeneration, succeeded: bool) -> (r: Result<
        PieceStorageOutcome,
        SwarmError,
    >)
        requires
            old(self).wf(),
        ensures
            final(self).expected_view() == old(self).expected_view(),
            final(self).wf(),
            generation != old(self).generation_view() ==> r == Err::<PieceStorageOutcome, SwarmError>(
                old(self).stale(generation),
            ) && final(self).same(old(self)),
            generation == old(self).generation_view() && old(self).completed_view() == old(
                self,
            ).expected_view() ==> r == Err::<PieceStorageOutcome, SwarmError>(
                SwarmError::Invariant(ERR_TOO_MANY_WRITES),
            ) && final(self).same(old(self)),
            generation == old(self).generation_view() && old(self).completed_view() < old(
                self,
            ).expected_view() ==> {
                &&& final(self).generation_view() == old(self).generation_view()
                &&& final(self).expected_view() == old(self).expected_view()
                &&& final(self).completed_view() == old(self).completed_view() + 1
                &&& final(self).write_failed_view() == (old(self).write_failed_view() || !succeeded)
                &&& final(self).hash_view() == old(self).hash_view()
                &&& r == Ok::<PieceStorageOutcome, SwarmError>(final(self).outcome_view())
            },
            r is Ok ==> generation == old(self).generation_view() && old(self).completed_view() < old(
                self,
            ).expected_view(),
    {
        self.validate_generation(generation)?;
        if self.writes_completed == self.writes_expected {
            return Err(SwarmError::Invariant(ERR_TOO_MANY_WRITES));
        }
        self.writes_completed = self.writes_completed + 1;
        self.write_failed = self.write_failed || !succeeded;
        Ok(self.outcome())
    }

    /// Every write of the current generation succeeded and no hash started.
    pub fn hash_eligible(&self, generation: PieceGeneration) -> (r: Result<bool, SwarmError>)
        ensures
            generation != self.generation_view() ==> r == Err::<bool, SwarmError>(self.stale(generation)),
            generation == self.generation_view() ==> r == Ok::<bool, SwarmError>(
                self.completed_view() == self.expected_view() && !self.write_failed_view()
                    && self.hash_view() == PieceHashJoinState::NotStarted,
            ),
    {
        self.validate_generation(generation)?;
        Ok(self.writes_completed == self.writes_expected && !self.write_failed && self.hash
            == PieceHashJoinState::NotStarted)
    }

    pub fn begin_hash(&mut self, generation: PieceGeneration) -> (r: Result<(), SwarmError>)
        requires
            old(self).wf(),
        ensures
            final(self).expected_view() == old(self).expected_view(),
            final(self).wf(),
            generation != old(self).generation_view() ==> r == Err::<(), SwarmError>(
                old(self).stale(generation),
            ) && final(self).same(old(self)),
            generation == old(self).generation_view() && old(self).hash_view()
                != PieceHashJoinState::NotStarted ==> r == Err::<(), SwarmError>(
                SwarmError::InvalidTransition(ERR_HASH_STARTED),
            ) && final(self).same(old(self)),
            generation == old(self).generation_view() && old(self).hash_view()
                == PieceHashJoinState::NotStarted ==> r is Ok && final(self).hash_view()
                == PieceHashJoinState::Running && final(self).generation_view() == old(
                self,
            ).generation_view() && final(self).expected_view() == old(self).expected_view()
                && final(self).completed_view() == old(self).completed_view()
                && final(self).write_failed_view() == old(self).write_failed_view(),
    {
        self.validate_generation(generation)?;
        if self.hash != PieceHashJoinState::NotStarted {
            return Err(SwarmError::InvalidTransition(ERR_HASH_STARTED));
        }
        self.hash = PieceHashJoinState::Running;
        Ok(())
    }

    pub fn hash_completed(&mut self, generation: PieceGeneration, passed: bool) -> (r: Result<
        PieceStorageOutcome,
        SwarmError,
    >)
        requires
            old(self).wf(),
        ensures
            final(self).expected_view() == old(self).expected_view(),
            final(self).wf(),
            generation != old(self).generation_view() ==> r == Err::<PieceStorageOutcome, SwarmError>(
                old(self).stale(generation),
            ) && final(self).same(old(self)),
            generation == old(self).generation_view() && old(self).hash_view()
                != PieceHashJoinState::Running ==> r == Err::<PieceStorageOutcome, SwarmError>(
                SwarmError::InvalidTransition(ERR_NO_RUNNING_HASH),
            ) && final(self).same(old(self)),
            generation == old(self).generation_view() && old(self).hash_view()
                == PieceHashJoinState::Running ==> {
                &&& final(self).hash_view() == if passed {
                    PieceHashJoinState::Passed
                } else {
                    PieceHashJoinState::Failed
                }
                &&& final(self).generation_view() == old(self).generation_view()
                &&& final(self).expected_view() == old(self).expected_view()
                &&& final(self).completed_view() == old(self).completed_view()
                &&& final(self).write_failed_view() == old(self).write_failed_view()
                &&& r == Ok::<PieceStorageOutcome, SwarmError>(final(self).outcome_view())
            },
    {
        self.validate_generation(generation)?;
        if self.hash != PieceHashJoinState::Running {
            return Err(SwarmError::InvalidTransition(ERR_NO_RUNNING_HASH));
        }
        self.hash = if passed {
            PieceHashJoinState::Passed
        } else {
            PieceHashJoinState::Failed
        };
        Ok(self.outcome())
    }

    pub fn outcome(&self) -> (r: PieceStorageOutcome)
        ensures
            r == self.outcome_view(),
    {
        if self.writes_completed != self.writes_expected {
            return PieceStorageOutcome::Pending;
        }
        if self.write_failed || self.hash == PieceHashJoinState::Failed {
            return PieceStorageOutcome::Failed;
        }
        if self.hash == PieceHashJoinState::Passed {
            PieceStorageOutcome::Verified
        } else {
            PieceStorageOutcome::Pending
        }
    }

    /// Starts the next generation with no completions.
    pub fn reset(&mut self) -> (r: Result<(), SwarmError>)
        requires
            old(self).wf(),
        ensures
            final(self).expected_view() == old(self).expected_view(),
            final(self).wf(),
            old(self).generation_view().value() == u64::MAX ==> r == Err::<(), SwarmError>(
                SwarmError::IdentifierOverflow(OWNER_GENERATION),
            ) && final(self).same(old(self)),
            old(self).generation_view().value() < u64::MAX ==> {
                &&& r is Ok
                &&& final(self).generation_view().value() == old(self).generation_view().value() + 1
                &&& final(self).expected_view() == old(self).expected_view()
                &&& final(self).completed_view() == 0
                &&& !final(self).write_failed_view()
                &&& final(self).hash_view() == PieceHashJoinState::NotStarted
            },
    {
        let next = match self.generation.next() {
            Some(g) => g,
            None => {
                return Err(SwarmError::IdentifierOverflow(OWNER_GENERATION));
            },
        };
        self.generation = next;
        self.writes_completed = 0;
        self.write_failed = false;
        self.hash = PieceHashJoinState::NotStarted;
        Ok(())
    }
}

/// Whatever order the writes and the hash complete in, a join that saw every
/// write succeed and the hash pass is verified, and one that saw a failed
/// write or a failed hash is failed.
pub proof fn lemma_join_order_independent(
    expected: usize,
    write_failed: bool,
    hash: PieceHashJoinState,
)
    requires
        hash == PieceHashJoinState::Passed || hash == PieceHashJoinState::Failed,
    ensures
        !write_failed && hash == PieceHashJoinState::Passed ==> outcome_of(
            expected,
            expected,
            write_failed,
            hash,
        ) == PieceStorageOutcome::Verified,
        (write_failed || hash == PieceHashJoinState::Failed) ==> outcome_of(
            expected,
            expected,
            write_failed,
            hash,
        ) == PieceStorageOutcome::Failed,
        forall|completed: usize|
            completed != expected ==> #[trigger] outcome_of(expected, completed, write_failed, hash)
                == PieceStorageOutcome::Pending,
{
}

} // verus!
