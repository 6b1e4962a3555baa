use crate::operation::OperationIr;
use vstd::prelude::*;

verus! {

/// Where a validator stands while it compares incoming operations with a
/// reference list of operations.
#[derive(Clone, Copy, Debug, PartialEq, Eq, Structural)]
pub enum ValidatorState {
    /// Every reference operation was matched; `size` is their number.
    Found { size: usize },
    /// An incoming operation differed from the reference list.
    Invalidated,
    /// All operations so far matched, and more are expected.
    Validating,
}

impl ValidatorState {
    /// Whether every reference operation was matched.
    pub fn is_found(&self) -> (found: bool)
        ensures
            found == (*self is Found),
    {
        match self {
            ValidatorState::Found { .. } => true,
            _ => false,
        }
    }
}

/// Compares the operations of a stream, one by one, with the reference list of
/// operations known under `id`.
#[derive(Clone, Copy, Debug, PartialEq, Eq, Structural)]
pub struct OperationsValidator<ID> {
    /// Which reference list is being matched.
    pub id: ID,
    /// How the matching stands.
    pub state: ValidatorState,
}

/// The validator after the operation `added` arrived at position `position`,
/// compared with the reference list `operations`.
pub open spec fn validator_step<ID>(
    v: OperationsValidator<ID>,
    added: OperationIr,
    position: nat,
    operations: Seq<OperationIr>,
) -> OperationsValidator<ID> {
    match v.state {
        ValidatorState::Validating => {
            if position < operations.len() && operations[position as int] == added {
                if operations.len() == position + 1 {
                    OperationsValidator {
                        id: v.id,
                        state: ValidatorState::Found { size: operations.len() as usize },
                    }
                } else {
                    v
                }
            } else {
                OperationsValidator { id: v.id, state: ValidatorState::Invalidated }
            }
        },
        _ => v,
    }
}

impl<ID> OperationsValidator<ID> {
    /// A validator for the reference list `id` that has matched nothing yet.
    pub fn new(id: ID) -> (v: Self)
        ensures
            v.id == id,
            v.state == ValidatorState::Validating,
    {
        OperationsValidator { id, state: ValidatorState::Validating }
    }

    /// Compare the operation `added`, found at `added_position` in the stream,
    /// with the reference list `operations`.
    pub fn update(&mut self, added: &OperationIr, added_position: usize, operations: &[OperationIr])
        ensures
            *final(self) == validator_step(*old(self), *added, added_position as nat, operations@),
    {
        match self.state {
            ValidatorState::Found { .. } => return ,
            ValidatorState::Invalidated => return ,
            ValidatorState::Validating => {},
        }
        if added_position >= operations.len() {
            self.state = ValidatorState::Invalidated;
            return ;
        }
        let candidate = operations[added_position];
        if candidate != *added {
            self.state = ValidatorState::Invalidated;
            return ;
        }
        if operations.len() == added_position + 1 {
            self.state = ValidatorState::Found { size: operations.len() };
        }
    }
}

/// How far a trigger validator has followed the stream.
#[derive(Clone, Copy, Debug, PartialEq, Eq, Structural)]
pub enum TriggerProgress {
    /// The trigger starts matching with the next operation.
    NotInit,
    /// This many operations have been compared with the trigger.
    NumChecked(usize),
}

/// Watches the stream for one trigger of an execution plan.
#[derive(Clone, Copy, Debug, PartialEq, Eq, Structural)]
pub enum TriggerValidator {
    /// Matches the operations that follow the plan against the trigger's
    /// operations; `matching.id` is the trigger's position among the plan's
    /// triggers.
    OnOperations { matching: OperationsValidator<usize>, progress: TriggerProgress },
    /// Fires at once.
    Always,
    /// Fires only when the stream is synchronized.
    OnSync,
}

/// The trigger validator after `added` arrived, compared with the trigger's
/// reference operations `operations`.
pub open spec fn trigger_step(
    t: TriggerValidator,
    added: OperationIr,
    operations: Seq<OperationIr>,
) -> TriggerValidator {
    match t {
        TriggerValidator::OnOperations { matching, progress } => match progress {
            TriggerProgress::NotInit => TriggerValidator::OnOperations {
                matching,
                progress: TriggerProgress::NumChecked(0),
            },
            TriggerProgress::NumChecked(n) => TriggerValidator::OnOperations {
                matching: validator_step(matching, added, n as nat, operations),
                progress: TriggerProgress::NumChecked((n + 1) as usize),
            },
        },
        _ => t,
    }
}

/// Whether the trigger validator says that its plan should now run.
pub open spec fn trigger_fires(t: TriggerValidator) -> bool {
    match t {
        TriggerValidator::OnOperations { matching, .. } => matching.state is Found,
        TriggerValidator::Always => true,
        TriggerValidator::OnSync => false,
    }
}

/// Whether the trigger validator is still matching operations.
pub open spec fn trigger_validating(t: TriggerValidator) -> bool {
    match t {
        TriggerValidator::OnOperations { matching, .. } => matching.state is Validating,
        _ => false,
    }
}

/// Once a validator has found its operations or been invalidated, no later operation
/// changes it.
pub proof fn lemma_settled_validator_stays<ID>(
    v: OperationsValidator<ID>,
    added: OperationIr,
    position: nat,
    operations: Seq<OperationIr>,
)
    requires
        !(v.state is Validating),
    ensures
        validator_step(v, added, position, operations) == v,
{
}

/// A validator is found exactly when the last reference operation arrives at its position,
/// all earlier ones having matched.
pub proof fn lemma_validator_found_at_end<ID>(
    v: OperationsValidator<ID>,
    added: OperationIr,
    position: nat,
    operations: Seq<OperationIr>,
)
    requires
        v.state is Validating,
    ensures
        validator_step(v, added, position, operations).state is Found <==> (position + 1
            == operations.len() && operations[position as int] == added),
        validator_step(v, added, position, operations).id == v.id,
{
}

} // verus!
